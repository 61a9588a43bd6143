//! Ascending position lists, and choosing the first few of many by rank.
use vstd::prelude::*;

verus! {

/// Strictly ascending, so without repetition.
pub open spec fn ascending(s: Seq<usize>) -> bool {
    forall|a: int, b: int| 0 <= a < b < s.len() ==> s[a] < s[b]
}

/// Whether `s` is the ascending list of the members of `of`.
pub open spec fn lists(s: Seq<usize>, of: Set<int>) -> bool {
    &&& ascending(s)
    &&& forall|k: int| 0 <= k < s.len() ==> of.contains(#[trigger] s[k] as int)
    &&& forall|i: int| of.contains(i) ==> exists|k: int| 0 <= k < s.len() && s[k] == i
}

/// The ascending list of a set is as long as the set.
pub proof fn lemma_lists_len(s: Seq<usize>, of: Set<int>)
    requires
        lists(s, of),
    ensures
        of.finite(),
        of.len() == s.len(),
    decreases s.len(),
{
    if s.len() == 0 {
        assert(of =~= Set::empty());
    } else {
        let t = s.drop_last();
        let rest = of.remove(s.last() as int);
        assert forall|i: int| rest.contains(i) implies exists|k: int|
            0 <= k < t.len() && t[k] == i by {
            let k = choose|k: int| 0 <= k < s.len() && s[k] == i;
            assert(t[k] == i);
        }
        assert forall|k: int| 0 <= k < t.len() implies rest.contains(#[trigger] t[k] as int) by {
            assert(t[k] == s[k]);
        }
        assert(lists(t, rest));
        lemma_lists_len(t, rest);
        assert(of.contains(s[s.len() - 1] as int));
        assert(of =~= rest.insert(s.last() as int));
    }
}

/// A set has one ascending list.
pub proof fn law_ascending_list_is_unique(s: Seq<usize>, t: Seq<usize>, of: Set<int>)
    requires
        lists(s, of),
        lists(t, of),
    ensures
        s == t,
    decreases s.len(),
{
    lemma_lists_len(s, of);
    lemma_lists_len(t, of);
    if s.len() > 0 {
        let a = s.last();
        let b = t.last();
        assert(of.contains(s[s.len() - 1] as int));
        assert(of.contains(t[t.len() - 1] as int));
        let ka = choose|k: int| 0 <= k < t.len() && t[k] == a;
        let kb = choose|k: int| 0 <= k < s.len() && s[k] == b;
        assert(a == b) by {
            if a < b {
                assert(s[kb] <= s[s.len() - 1]);
            }
            if b < a {
                assert(t[ka] <= t[t.len() - 1]);
            }
        }
        let rest = of.remove(a as int);
        lemma_lists_drop_last(s, of);
        lemma_lists_drop_last(t, of);
        law_ascending_list_is_unique(s.drop_last(), t.drop_last(), rest);
        assert(s =~= s.drop_last().push(a));
        assert(t =~= t.drop_last().push(a));
    } else {
        assert(s =~= t);
    }
}

proof fn lemma_lists_drop_last(s: Seq<usize>, of: Set<int>)
    requires
        lists(s, of),
        s.len() > 0,
    ensures
        lists(s.drop_last(), of.remove(s.last() as int)),
{
    let t = s.drop_last();
    let rest = of.remove(s.last() as int);
    assert forall|i: int| rest.contains(i) implies exists|k: int|
        0 <= k < t.len() && t[k] == i by {
        let k = choose|k: int| 0 <= k < s.len() && s[k] == i;
        assert(t[k] == i);
    }
    assert forall|k: int| 0 <= k < t.len() implies rest.contains(#[trigger] t[k] as int) by {
        assert(t[k] == s[k]);
    }
}

/// The positions that a row of flags sets.
pub open spec fn set_positions(flags: Seq<bool>) -> Set<int> {
    Set::new(|i: int| 0 <= i < flags.len() && flags[i])
}

/// The ascending list of the positions that are set.
pub fn positions_set(flags: &[bool]) -> (out: Vec<usize>)
    ensures
        lists(out@, set_positions(flags@)),
        out@.len() == set_positions(flags@).len(),
        out@.len() <= flags@.len(),
{
    let mut out: Vec<usize> = Vec::new();
    let mut i: usize = 0;
    while i < flags.len()
        invariant
            i <= flags@.len(),
            out@.len() <= i,
            ascending(out@),
            forall|k: int| 0 <= k < out@.len() ==> #[trigger] out@[k] < i && flags@[out@[k] as int],
            forall|j: int|
                0 <= j < i && flags@[j] ==> exists|k: int| 0 <= k < out@.len() && out@[k] == j,
        decreases flags@.len() - i,
    {
        let ghost was = out@;
        if flags[i] {
            out.push(i);
        }
        proof {
            assert forall|j: int| 0 <= j < i + 1 && flags@[j] implies exists|k: int|
                0 <= k < out@.len() && out@[k] == j by {
                if j == i {
                    assert(out@[out@.len() - 1] == j);
                } else {
                    let k = choose|k: int| 0 <= k < was.len() && was[k] == j;
                    assert(out@[k] == j);
                }
            }
        }
        i = i + 1;
    }
    proof {
        assert(lists(out@, set_positions(flags@)));
        lemma_lists_len(out@, set_positions(flags@));
    }
    out
}

/// Adds a position to an ascending list, unless it is there.
pub fn insert_ascending(v: &mut Vec<usize>, g: usize)
    requires
        ascending(old(v)@),
    ensures
        ascending(final(v)@),
        forall|of: Set<int>|
            lists(old(v)@, of) ==> #[trigger] lists(final(v)@, of.insert(g as int)),
{
    let ghost was = v@;
    let mut at: usize = v.len();
    while at > 0 && v[at - 1] >= g
        invariant
            at <= v@.len(),
            v@ == was,
            ascending(was),
            forall|a: int| at <= a < v@.len() ==> v@[a] >= g,
        decreases at,
    {
        at = at - 1;
    }
    if at == v.len() || v[at] != g {
        v.insert(at, g);
    }
    proof {
        if v@ == was {
            assert(was[at as int] == g);
        } else {
            assert(v@ == was.insert(at as int, g));
        }
        assert forall|a: int, b: int| 0 <= a < b < v@.len() implies v@[a] < v@[b] by {
            if v@ != was {
                let pa = if a < at { a } else { a - 1 };
                let pb = if b < at { b } else { b - 1 };
                if a != at {
                    assert(v@[a] == was[pa]);
                }
                if b != at {
                    assert(v@[b] == was[pb]);
                }
                if a < at && b == at {
                    assert(was[a] <= was[at - 1]);
                }
            }
        }
        assert forall|of: Set<int>| lists(was, of) implies #[trigger] lists(
            v@,
            of.insert(g as int),
        ) by {
            assert forall|k: int| 0 <= k < v@.len() implies of.insert(g as int).contains(
                #[trigger] v@[k] as int,
            ) by {
                if v@ != was {
                    if k < at {
                        assert(v@[k] == was[k]);
                    } else if k > at {
                        assert(v@[k] == was[k - 1]);
                    }
                } else {
                    assert(of.contains(was[k] as int));
                }
            }
            assert forall|i: int| of.insert(g as int).contains(i) implies exists|k: int|
                0 <= k < v@.len() && v@[k] == i by {
                if i == g {
                    assert(v@[at as int] == i);
                } else {
                    let k = choose|k: int| 0 <= k < was.len() && was[k] == i;
                    if v@ == was || k < at {
                        assert(v@[k] == i);
                    } else {
                        assert(v@[k + 1] == i);
                    }
                }
            }
        }
    }
}

/// Whether `i` ranks before `j`: by key, then by position. Positions without a key do not rank.
pub open spec fn before(keys: Seq<Option<i128>>, i: int, j: int) -> bool {
    &&& keys[i] is Some
    &&& keys[j] is Some
    &&& (keys[i]->0 < keys[j]->0 || (keys[i]->0 == keys[j]->0 && i < j))
}

/// The positions that rank before `i`.
pub open spec fn ahead_of(keys: Seq<Option<i128>>, i: int) -> Set<int> {
    Set::new(|j: int| 0 <= j < keys.len() && before(keys, j, i))
}

/// The positions that have a key.
pub open spec fn candidates(keys: Seq<Option<i128>>) -> Set<int> {
    Set::new(|i: int| 0 <= i < keys.len() && keys[i] is Some)
}

/// The candidates with fewer than `cap` others ahead of them.
pub open spec fn first_ranked(keys: Seq<Option<i128>>, cap: int) -> Set<int> {
    Set::new(
        |i: int| 0 <= i < keys.len() && keys[i] is Some && ahead_of(keys, i).len() < cap,
    )
}

/// Whether `s` holds every candidate, in rank order.
pub open spec fn in_rank_order(keys: Seq<Option<i128>>, s: Seq<usize>) -> bool {
    &&& s.len() == candidates(keys).len()
    &&& forall|k: int|
        0 <= k < s.len() ==> #[trigger] s[k] < keys.len() && keys[s[k] as int] is Some && ahead_of(
            keys,
            s[k] as int,
        ).len() == k
    &&& forall|a: int, b: int| 0 <= a < b < s.len() ==> before(keys, s[a] as int, s[b] as int)
    &&& forall|i: int|
        candidates(keys).contains(i) ==> exists|k: int| 0 <= k < s.len() && s[k] == i
}

/// In a row sorted by rank, exactly the earlier entries are ahead.
proof fn lemma_rank_is_index(keys: Seq<Option<i128>>, s: Seq<usize>, k: int)
    requires
        forall|a: int| 0 <= a < s.len() ==> #[trigger] s[a] < keys.len() && keys[s[a] as int] is Some,
        forall|a: int, b: int| 0 <= a < b < s.len() ==> before(keys, s[a] as int, s[b] as int),
        forall|i: int|
            candidates(keys).contains(i) ==> exists|a: int| 0 <= a < s.len() && s[a] == i,
        0 <= k <= s.len(),
    ensures
        k < s.len() ==> ahead_of(keys, s[k] as int) == Set::new(
            |i: int| exists|a: int| 0 <= a < k && s[a] == i,
        ),
        Set::new(|i: int| exists|a: int| 0 <= a < k && s[a] == i).finite(),
        Set::new(|i: int| exists|a: int| 0 <= a < k && s[a] == i).len() == k,
    decreases k,
{
    let earlier = Set::new(|i: int| exists|a: int| 0 <= a < k && s[a] == i);
    if k == 0 {
        assert(earlier =~= Set::empty());
    } else {
        lemma_rank_is_index(keys, s, k - 1);
        let less = Set::new(|i: int| exists|a: int| 0 <= a < k - 1 && s[a] == i);
        assert forall|i: int| earlier.contains(i) == less.insert(s[k - 1] as int).contains(i) by {
            if earlier.contains(i) {
                let a = choose|a: int| 0 <= a < k && s[a] == i;
                if a < k - 1 {
                    assert(less.contains(i));
                }
            }
            if i == s[k - 1] {
                assert(0 <= k - 1 < k && s[k - 1] == i);
            }
            if less.contains(i) {
                let a = choose|a: int| 0 <= a < k - 1 && s[a] == i;
                assert(0 <= a < k && s[a] == i);
            }
        }
        assert(earlier =~= less.insert(s[k - 1] as int));
        assert(!less.contains(s[k - 1] as int)) by {
            if less.contains(s[k - 1] as int) {
                let last = s[k - 1] as int;
                let a = choose|a: int| 0 <= a < k - 1 && s[a] == last;
                assert(before(keys, s[a] as int, s[k - 1] as int));
            }
        }
    }
    if k < s.len() {
        let here = s[k] as int;
        assert forall|i: int| ahead_of(keys, here).contains(i) == earlier.contains(i) by {
            if ahead_of(keys, here).contains(i) {
                assert(candidates(keys).contains(i));
                let a = choose|a: int| 0 <= a < s.len() && s[a] == i;
                if a > k {
                    assert(before(keys, s[k] as int, s[a] as int));
                }
                assert(0 <= a < k && s[a] == i);
            }
            if earlier.contains(i) {
                let a = choose|a: int| 0 <= a < k && s[a] == i;
                assert(before(keys, s[a] as int, s[k] as int));
            }
        }
        assert(ahead_of(keys, here) =~= earlier);
    }
}

/// All candidates in rank order.
pub fn rank_order(keys: &[Option<i128>]) -> (s: Vec<usize>)
    ensures
        in_rank_order(keys@, s@),
{
    let mut s: Vec<usize> = Vec::new();
    let n: usize = keys.len();
    let mut i: usize = 0;
    while i < n
        invariant
            n == keys@.len(),
            i <= n,
            s@.len() <= i,
            forall|a: int| 0 <= a < s@.len() ==> #[trigger] s@[a] < i && keys@[s@[a] as int] is Some,
            forall|a: int, b: int|
                0 <= a < b < s@.len() ==> before(keys@, s@[a] as int, s@[b] as int),
            forall|j: int|
                0 <= j < i && keys@[j] is Some ==> exists|a: int| 0 <= a < s@.len() && s@[a] == j,
        decreases n - i,
    {
        let ghost was = s@;
        if let Some(key) = keys[i] {
            let mut at: usize = s.len();
            while at > 0 && keys[s[at - 1]].unwrap() > key
                invariant
                    n == keys@.len(),
                    i < n,
                    keys@[i as int] == Some(key),
                    at <= s@.len(),
                    s@ == was,
                    forall|a: int|
                        0 <= a < s@.len() ==> #[trigger] s@[a] < i && keys@[s@[a] as int] is Some,
                    forall|a: int| at <= a < s@.len() ==> keys@[#[trigger] s@[a] as int]->0 > key,
                decreases at,
            {
                at = at - 1;
            }
            s.insert(at, i);
            proof {
                assert(s@ == was.insert(at as int, i));
                assert forall|a: int, b: int| 0 <= a < b < s@.len() implies before(
                    keys@,
                    s@[a] as int,
                    s@[b] as int,
                ) by {
                    let pa = if a < at { a } else { a - 1 };
                    let pb = if b < at { b } else { b - 1 };
                    if a != at && b != at {
                        assert(s@[a] == was[pa] && s@[b] == was[pb]);
                        assert(before(keys@, was[pa] as int, was[pb] as int));
                    } else if b == at {
                        assert(s@[a] == was[a]);
                        if a < at - 1 {
                            assert(before(keys@, was[a] as int, was[at - 1] as int));
                        }
                    } else {
                        assert(s@[b] == was[b - 1]);
                    }
                }
            }
        }
        proof {
            assert forall|a: int| 0 <= a < s@.len() implies #[trigger] s@[a] < i + 1
                && keys@[s@[a] as int] is Some by {
                if s@ != was {
                    let at = choose|at: int| 0 <= at <= was.len() && s@ == was.insert(at, i);
                    if a < at {
                        assert(s@[a] == was[a]);
                    } else if a > at {
                        assert(s@[a] == was[a - 1]);
                    }
                }
            }
            assert forall|j: int| 0 <= j < i + 1 && keys@[j] is Some implies exists|a: int|
                0 <= a < s@.len() && s@[a] == j by {
                if s@ != was {
                    let at = choose|at: int| 0 <= at <= was.len() && s@ == was.insert(at, i);
                    if j == i {
                        assert(s@[at] == j);
                    } else {
                        let a = choose|a: int| 0 <= a < was.len() && was[a] == j;
                        if a < at {
                            assert(s@[a] == j);
                        } else {
                            assert(s@[a + 1] == j);
                        }
                    }
                }
            }
        }
        i = i + 1;
    }
    proof {
        assert forall|k: int| 0 <= k < s@.len() implies ahead_of(keys@, #[trigger] s@[k] as int).len()
            == k by {
            lemma_rank_is_index(keys@, s@, k);
        }
        lemma_rank_is_index(keys@, s@, s@.len() as int);
        assert(candidates(keys@) =~= Set::new(
            |i: int| exists|a: int| 0 <= a < s@.len() && s@[a] == i,
        ));
    }
    s
}

/// The ascending positions of the first `cap` candidates by rank, and how many candidates there
/// were.
pub fn pick_first(keys: &[Option<i128>], cap: usize) -> (r: (Vec<usize>, usize))
    ensures
        lists(r.0@, first_ranked(keys@, cap as int)),
        r.1 == candidates(keys@).len(),
        r.0@.len() == if r.1 <= cap { r.1 } else { cap },
        r.1 <= keys@.len(),
{
    let s = rank_order(keys);
    let n: usize = keys.len();
    let take: usize = if s.len() <= cap { s.len() } else { cap };
    let mut flags: Vec<bool> = vec![false; n];
    let mut k: usize = 0;
    while k < take
        invariant
            k <= take <= s@.len(),
            n == keys@.len(),
            flags@.len() == n,
            in_rank_order(keys@, s@),
            forall|i: int|
                0 <= i < n ==> #[trigger] flags@[i] == exists|a: int| 0 <= a < k && s@[a] == i,
        decreases take - k,
    {
        let ghost was = flags@;
        flags.set(s[k], true);
        assert forall|i: int| 0 <= i < n implies #[trigger] flags@[i] == exists|a: int|
            0 <= a < k + 1 && s@[a] == i by {
            assert(was[i] == exists|a: int| 0 <= a < k && s@[a] == i);
            if i == s@[k as int] {
                assert(0 <= k < k + 1 && s@[k as int] == i);
            }
        }
        k = k + 1;
    }
    let out = positions_set(flags.as_slice());
    proof {
        let chosen = first_ranked(keys@, cap as int);
        assert forall|i: int| set_positions(flags@).contains(i) == chosen.contains(i) by {
            if 0 <= i < n && keys@[i] is Some {
                assert(candidates(keys@).contains(i));
                let a = choose|a: int| 0 <= a < s@.len() && s@[a] == i;
                assert(ahead_of(keys@, s@[a] as int).len() == a);
                if a < take {
                    assert(flags@[i]);
                }
            }
            if 0 <= i < n && flags@[i] {
                let a = choose|a: int| 0 <= a < take && s@[a] == i;
                assert(ahead_of(keys@, s@[a] as int).len() == a);
            }
        }
        assert(set_positions(flags@) =~= chosen);
        lemma_rank_is_index(keys@, s@, take as int);
        assert(set_positions(flags@) =~= Set::new(
            |i: int| exists|a: int| 0 <= a < take && s@[a] == i,
        )) by {
            assert forall|i: int|
                set_positions(flags@).contains(i) == exists|a: int| 0 <= a < take && s@[a] == i by {
                if exists|a: int| 0 <= a < take && s@[a] == i {
                    let a = choose|a: int| 0 <= a < take && s@[a] == i;
                    assert(flags@[i]);
                }
            }
        }
        lemma_rank_is_index(keys@, s@, s@.len() as int);
        assert(s@.len() <= n) by {
            let all = vstd::set_lib::set_int_range(0, n as int);
            vstd::set_lib::lemma_int_range(0, n as int);
            vstd::set_lib::lemma_len_subset(candidates(keys@), all);
        }
    }
    (out, s.len())
}

/// No more than `cap` candidates have fewer than `cap` others ahead of them.
pub proof fn law_first_ranked_fit_the_cap(keys: Seq<Option<i128>>, cap: int)
    requires
        cap >= 0,
    ensures
        first_ranked(keys, cap).finite(),
        first_ranked(keys, cap).len() <= cap,
        candidates(keys).len() <= cap ==> first_ranked(keys, cap) == candidates(keys),
        candidates(keys).len() > cap ==> first_ranked(keys, cap).len() == cap,
{
    lemma_first_ranked_below(keys, cap, candidates(keys));
    let all = vstd::set_lib::set_int_range(0, keys.len() as int);
    vstd::set_lib::lemma_int_range(0, keys.len() as int);
    vstd::set_lib::lemma_len_subset(candidates(keys), all);
    if candidates(keys).len() <= cap {
        vstd::set_lib::lemma_subset_equality(
            first_ranked(keys, cap).intersect(candidates(keys)),
            candidates(keys),
        );
    }
    assert(first_ranked(keys, cap) =~= first_ranked(keys, cap).intersect(candidates(keys)));
}

proof fn lemma_first_ranked_below(keys: Seq<Option<i128>>, cap: int, among: Set<int>)
    requires
        cap >= 0,
        among.subset_of(candidates(keys)),
        forall|i: int, j: int|
            #![trigger among.contains(i), candidates(keys).contains(j)]
            among.contains(i) && candidates(keys).contains(j) && before(keys, j, i)
                ==> among.contains(j),
    ensures
        first_ranked(keys, cap).intersect(among).finite(),
        first_ranked(keys, cap).intersect(among).len() == if among.len() <= cap {
            among.len() as int
        } else {
            cap
        },
    decreases among.len(),
{
    let all = vstd::set_lib::set_int_range(0, keys.len() as int);
    vstd::set_lib::lemma_int_range(0, keys.len() as int);
    vstd::set_lib::lemma_len_subset(among, all);
    if among.len() == 0 {
        assert(first_ranked(keys, cap).intersect(among) =~= Set::empty());
    } else {
        let last = lemma_last_ranked(keys, among);
        let rest = among.remove(last);
        assert(ahead_of(keys, last) =~= rest) by {
            assert forall|j: int| ahead_of(keys, last).contains(j) == rest.contains(j) by {
                if ahead_of(keys, last).contains(j) {
                    assert(candidates(keys).contains(j));
                }
            }
        }
        assert forall|i: int, j: int|
            #![trigger rest.contains(i), candidates(keys).contains(j)]
            rest.contains(i) && candidates(keys).contains(j) && before(
                keys,
                j,
                i,
            ) implies rest.contains(j) by {
            assert(among.contains(i));
            assert(among.contains(j));
            if j == last {
                assert(before(keys, i, last));
            }
        }
        lemma_first_ranked_below(keys, cap, rest);
        if first_ranked(keys, cap).contains(last) {
            let chosen = first_ranked(keys, cap).intersect(among);
            vstd::set_lib::lemma_len_subset(chosen, among);
            assert(rest.len() < cap);
            assert(chosen =~= first_ranked(keys, cap).intersect(rest).insert(last));
        } else {
            assert(first_ranked(keys, cap).intersect(among) =~= first_ranked(keys, cap).intersect(
                rest,
            ));
        }
    }
}

/// A set of candidates that is not empty has one that ranks behind all the others.
proof fn lemma_last_ranked(keys: Seq<Option<i128>>, among: Set<int>) -> (last: int)
    requires
        among.finite(),
        among.len() > 0,
        among.subset_of(candidates(keys)),
    ensures
        among.contains(last),
        forall|i: int| among.contains(i) && i != last ==> before(keys, i, last),
    decreases among.len(),
{
    let pick = among.choose();
    let rest = among.remove(pick);
    if rest.len() == 0 {
        assert(rest =~= Set::empty());
        assert forall|i: int| among.contains(i) && i != pick implies before(keys, i, pick) by {
            assert(rest.contains(i));
        }
        pick
    } else {
        let other = lemma_last_ranked(keys, rest);
        assert(candidates(keys).contains(pick));
        assert(candidates(keys).contains(other));
        if before(keys, other, pick) {
            assert forall|i: int| among.contains(i) && i != pick implies before(keys, i, pick) by {
                assert(rest.contains(i));
                assert(candidates(keys).contains(i));
            }
            pick
        } else {
            assert forall|i: int| among.contains(i) && i != other implies before(
                keys,
                i,
                other,
            ) by {
                if i != pick {
                    assert(rest.contains(i));
                }
            }
            other
        }
    }
}

/// The first ranked are the best: one that is chosen has a smaller key than one that is left out, or the
/// same key and the earlier position; and one is left out only where as many are chosen as may be.
pub proof fn law_first_ranked_are_the_best(
    keys: Seq<Option<i128>>,
    cap: int,
    chosen: int,
    left_out: int,
)
    requires
        cap >= 0,
        first_ranked(keys, cap).contains(chosen),
        0 <= left_out < keys.len(),
        keys[left_out] is Some,
        !first_ranked(keys, cap).contains(left_out),
    ensures
        0 <= chosen < keys.len(),
        keys[chosen] is Some,
        keys[chosen]->0 < keys[left_out]->0 || (keys[chosen]->0 == keys[left_out]->0 && chosen
            < left_out),
        first_ranked(keys, cap).len() == cap,
{
    law_first_ranked_fit_the_cap(keys, cap);
    assert(candidates(keys).contains(left_out));
    if !before(keys, chosen, left_out) {
        let all = vstd::set_lib::set_int_range(0, keys.len() as int);
        vstd::set_lib::lemma_int_range(0, keys.len() as int);
        let (near, far) = (ahead_of(keys, left_out), ahead_of(keys, chosen));
        assert forall|j: int| near.contains(j) implies #[trigger] far.contains(j) by {}
        vstd::set_lib::lemma_len_subset(far, all);
        vstd::set_lib::lemma_len_subset(near, far);
    }
}

} // verus!
