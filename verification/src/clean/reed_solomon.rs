//! Reed-Solomon correction of errors and erasures.
//!
//! A word of `n <= 255` bytes is a codeword when its first `n - k` power sums over the positions'
//! locators are zero. Given a received word and the positions declared erased, the decoder finds the
//! codeword that differs from it in the erased positions and in `t` others with
//! `2 t + e <= n - k`, if there is one; no word has two.
use vstd::prelude::*;
use crate::clean::field::{
    exp_in, gadd, gexp, gmul, inverse_in, is_field, lemma_add, lemma_add_four, lemma_add_mul,
    lemma_exp_add, lemma_exp_injective, lemma_exp_nonzero, lemma_mul_add, lemma_mul_associates,
    lemma_mul_commutes, lemma_mul_nonzero, lemma_mul_one, lemma_mul_zero, mul_in,
};
use crate::order::{ascending, lists, positions_set, set_positions};

verus! {

/// The locator of a position: the last position has `1`, the one before it `x`, and so on.
pub open spec fn locator(p: u8, n: nat, i: int) -> u8 {
    gexp(p, (n - 1 - i) as nat)
}

/// A power of an element.
pub open spec fn gpow(p: u8, a: u8, k: nat) -> u8
    decreases k,
{
    if k == 0 {
        1
    } else {
        gmul(p, a, gpow(p, a, (k - 1) as nat))
    }
}

/// The sum of the first `m` weights, each times the `k`th power of its position's locator.
pub open spec fn power_sum(p: u8, n: nat, w: Seq<u8>, k: nat, m: nat) -> u8
    decreases m,
{
    if m == 0 {
        0
    } else {
        gadd(
            power_sum(p, n, w, k, (m - 1) as nat),
            gmul(p, w[m - 1], gpow(p, locator(p, n, m - 1), k)),
        )
    }
}

/// The `j`th check sum of a word.
pub open spec fn syndrome(p: u8, base: nat, c: Seq<u8>, j: nat) -> u8 {
    power_sum(p, c.len(), c, base + j, c.len())
}

/// Whether the first `ecc` check sums of a word are zero.
pub open spec fn is_codeword(p: u8, base: nat, ecc: nat, c: Seq<u8>) -> bool {
    forall|j: nat| j < ecc ==> #[trigger] syndrome(p, base, c, j) == 0
}

/// The positions in which two words differ.
pub open spec fn differing(a: Seq<u8>, b: Seq<u8>) -> Set<int> {
    Set::new(|i: int| 0 <= i < a.len() && a[i] != b[i])
}

/// The positions in a list.
pub open spec fn listed(s: Seq<usize>) -> Set<int> {
    Set::new(|i: int| exists|k: int| 0 <= k < s.len() && #[trigger] s[k] == i)
}

/// Whether `c` is a codeword that the budget allows `received` to be corrected to: each erased
/// position costs one unit, each other differing one two.
pub open spec fn corrects(
    p: u8,
    base: nat,
    ecc: nat,
    erased: Set<int>,
    received: Seq<u8>,
    c: Seq<u8>,
) -> bool {
    &&& c.len() == received.len()
    &&& is_codeword(p, base, ecc, c)
    &&& erased.len() + 2 * differing(received, c).difference(erased).len() <= ecc
}

// ---- power sums ----
/// Sums of weights sum.
proof fn lemma_power_sum_add(p: u8, n: nat, v: Seq<u8>, w: Seq<u8>, u: Seq<u8>, k: nat, m: nat)
    requires
        is_field(p),
        m <= v.len(),
        v.len() == w.len() == u.len(),
        forall|i: int| 0 <= i < u.len() ==> u[i] == gadd(v[i], w[i]),
    ensures
        power_sum(p, n, u, k, m) == gadd(power_sum(p, n, v, k, m), power_sum(p, n, w, k, m)),
    decreases m,
{
    if m == 0 {
        lemma_add(0, 0, 0);
    } else {
        let l = (m - 1) as nat;
        let x = gpow(p, locator(p, n, m - 1), k);
        lemma_power_sum_add(p, n, v, w, u, k, l);
        lemma_add_mul(p, v[m - 1], w[m - 1], x);
        lemma_add_four(
            power_sum(p, n, v, k, l),
            power_sum(p, n, w, k, l),
            gmul(p, v[m - 1], x),
            gmul(p, w[m - 1], x),
        );
    }
}

/// The sum of zero weights is zero.
proof fn lemma_power_sum_zero(p: u8, n: nat, w: Seq<u8>, k: nat, m: nat)
    requires
        m <= w.len(),
        forall|i: int| 0 <= i < m ==> w[i] == 0,
    ensures
        power_sum(p, n, w, k, m) == 0,
    decreases m,
{
    if m > 0 {
        lemma_power_sum_zero(p, n, w, k, (m - 1) as nat);
        lemma_mul_zero(p, gpow(p, locator(p, n, m - 1), k));
        lemma_add(0, 0, 0);
    }
}

/// The sum of weights that are zero but in one place.
proof fn lemma_power_sum_single(p: u8, n: nat, w: Seq<u8>, k: nat, m: nat, q: int)
    requires
        0 <= q < m <= w.len(),
        forall|i: int| 0 <= i < m && i != q ==> w[i] == 0,
    ensures
        power_sum(p, n, w, k, m) == gmul(p, w[q], gpow(p, locator(p, n, q), k)),
    decreases m,
{
    let term = gmul(p, w[q], gpow(p, locator(p, n, q), k));
    lemma_add(term, 0, 0);
    lemma_mul_zero(p, gpow(p, locator(p, n, m - 1), k));
    if q == m - 1 {
        lemma_power_sum_zero(p, n, w, k, (m - 1) as nat);
    } else {
        lemma_power_sum_single(p, n, w, k, (m - 1) as nat, q);
    }
}

/// The weights times the distance of their locators from `a`.
pub open spec fn distanced(p: u8, n: nat, w: Seq<u8>, a: u8) -> Seq<u8> {
    Seq::new(w.len(), |i: int| gmul(p, w[i], gadd(locator(p, n, i), a)))
}

/// One summand of the next lemma.
proof fn lemma_distanced_term(p: u8, v: u8, x: u8, a: u8, k: nat)
    requires
        is_field(p),
    ensures
        gmul(p, gmul(p, v, gadd(x, a)), gpow(p, x, k)) == gadd(
            gmul(p, v, gpow(p, x, k + 1)),
            gmul(p, a, gmul(p, v, gpow(p, x, k))),
        ),
{
    let y = gpow(p, x, k);
    lemma_mul_add(p, v, x, a);
    lemma_add_mul(p, gmul(p, v, x), gmul(p, v, a), y);
    lemma_mul_associates(p, v, x, y);
    lemma_mul_commutes(p, v, a);
    lemma_mul_associates(p, a, v, y);
    assert(gpow(p, x, k + 1) == gmul(p, x, y));
}

/// Taking the distance from `a` turns the power sums into differences of neighbouring ones.
proof fn lemma_power_sum_distanced(p: u8, n: nat, w: Seq<u8>, a: u8, k: nat, m: nat)
    requires
        is_field(p),
        m <= w.len(),
    ensures
        power_sum(p, n, distanced(p, n, w, a), k, m) == gadd(
            power_sum(p, n, w, k + 1, m),
            gmul(p, a, power_sum(p, n, w, k, m)),
        ),
    decreases m,
{
    if m == 0 {
        lemma_mul_zero(p, a);
        lemma_add(0, 0, 0);
    } else {
        let l = (m - 1) as nat;
        let x = locator(p, n, m - 1);
        lemma_power_sum_distanced(p, n, w, a, k, l);
        lemma_distanced_term(p, w[m - 1], x, a, k);
        let s = power_sum(p, n, w, k, l);
        let t = gmul(p, w[m - 1], gpow(p, x, k));
        lemma_mul_add(p, a, s, t);
        lemma_add_four(
            power_sum(p, n, w, k + 1, l),
            gmul(p, a, s),
            gmul(p, w[m - 1], gpow(p, x, k + 1)),
            gmul(p, a, t),
        );
    }
}

/// Locators of different positions differ, and none is zero.
proof fn lemma_locators(p: u8, n: nat, i: int, j: int)
    requires
        is_field(p),
        n <= 255,
        0 <= i < n,
        0 <= j < n,
    ensures
        locator(p, n, i) != 0,
        i != j ==> gadd(locator(p, n, i), locator(p, n, j)) != 0,
{
    lemma_exp_nonzero(p, (n - 1 - i) as nat);
    let a = (n - 1 - i) as nat;
    let b = (n - 1 - j) as nat;
    if a < b {
        lemma_exp_injective(p, a, b);
    } else if b < a {
        lemma_exp_injective(p, b, a);
    }
    lemma_add(gexp(p, a), gexp(p, b), 0);
}

/// No power of an element other than zero is zero.
proof fn lemma_pow_nonzero(p: u8, a: u8, k: nat)
    requires
        is_field(p),
        a != 0,
    ensures
        gpow(p, a, k) != 0,
    decreases k,
{
    if k > 0 {
        lemma_pow_nonzero(p, a, (k - 1) as nat);
        if gpow(p, a, k) == 0 {
            lemma_mul_nonzero(p, a, gpow(p, a, (k - 1) as nat));
        }
    }
}

/// Weights on `f.len()` positions whose first `f.len()` power sums are zero are all zero.
proof fn lemma_vandermonde(p: u8, base: nat, w: Seq<u8>, f: Seq<int>)
    requires
        is_field(p),
        w.len() <= 255,
        f.no_duplicates(),
        forall|k: int| 0 <= k < f.len() ==> 0 <= #[trigger] f[k] < w.len(),
        forall|i: int| 0 <= i < w.len() && !f.contains(i) ==> w[i] == 0,
        forall|j: nat| j < f.len() ==> #[trigger] syndrome(p, base, w, j) == 0,
    ensures
        forall|i: int| 0 <= i < w.len() ==> w[i] == 0,
    decreases f.len(),
{
    if f.len() > 0 {
        let n = w.len();
        let q = f.last();
        let rest = f.drop_last();
        let a = locator(p, n, q);
        let v = distanced(p, n, w, a);
        assert(f[f.len() - 1] == q);
        assert forall|i: int| 0 <= i < v.len() && !rest.contains(i) implies v[i] == 0 by {
            if i == q {
                lemma_add(a, a, 0);
                lemma_mul_zero(p, w[i]);
            } else {
                if f.contains(i) {
                    let k = choose|k: int| 0 <= k < f.len() && f[k] == i;
                    assert(rest[k] == i);
                }
                lemma_mul_zero(p, gadd(locator(p, n, i), a));
            }
        }
        assert forall|j: nat| j < rest.len() implies #[trigger] syndrome(p, base, v, j) == 0 by {
            lemma_power_sum_distanced(p, n, w, a, base + j, n);
            assert(syndrome(p, base, w, j) == 0);
            assert(syndrome(p, base, w, j + 1) == 0);
            assert(base + (j + 1) == (base + j) + 1);
            lemma_mul_zero(p, a);
            lemma_add(0, 0, 0);
        }
        assert forall|k: int| 0 <= k < rest.len() implies 0 <= #[trigger] rest[k] < v.len() by {
            assert(rest[k] == f[k]);
        }
        lemma_vandermonde(p, base, v, rest);
        assert forall|i: int| 0 <= i < n && i != q implies w[i] == 0 by {
            lemma_locators(p, n, i, q);
            assert(v[i] == 0);
            lemma_mul_nonzero(p, w[i], gadd(locator(p, n, i), a));
        }
        lemma_power_sum_single(p, n, w, base, n, q);
        assert(syndrome(p, base, w, 0) == 0);
        lemma_locators(p, n, q, q);
        lemma_pow_nonzero(p, a, base);
        lemma_mul_nonzero(p, w[q], gpow(p, a, base));
    }
}

/// Weights scaled by one factor scale their power sums.
proof fn lemma_power_sum_scale(p: u8, n: nat, w: Seq<u8>, u: Seq<u8>, a: u8, k: nat, m: nat)
    requires
        is_field(p),
        m <= w.len(),
        u.len() == w.len(),
        forall|i: int| 0 <= i < w.len() ==> u[i] == gmul(p, a, w[i]),
    ensures
        power_sum(p, n, u, k, m) == gmul(p, a, power_sum(p, n, w, k, m)),
    decreases m,
{
    if m == 0 {
        lemma_mul_zero(p, a);
    } else {
        let l = (m - 1) as nat;
        let x = gpow(p, locator(p, n, m - 1), k);
        lemma_power_sum_scale(p, n, w, u, a, k, l);
        lemma_mul_associates(p, a, w[m - 1], x);
        lemma_mul_add(p, a, power_sum(p, n, w, k, l), gmul(p, w[m - 1], x));
    }
}

/// Weights multiplied by their locators move their power sums up by one.
proof fn lemma_power_sum_shift(p: u8, n: nat, w: Seq<u8>, u: Seq<u8>, k: nat, m: nat)
    requires
        is_field(p),
        m <= w.len(),
        u.len() == w.len(),
        forall|i: int| 0 <= i < w.len() ==> u[i] == gmul(p, w[i], locator(p, n, i)),
    ensures
        power_sum(p, n, u, k, m) == power_sum(p, n, w, k + 1, m),
    decreases m,
{
    if m > 0 {
        let x = locator(p, n, m - 1);
        lemma_power_sum_shift(p, n, w, u, k, (m - 1) as nat);
        lemma_mul_associates(p, w[m - 1], x, gpow(p, x, k));
        assert(gpow(p, x, k + 1) == gmul(p, x, gpow(p, x, k)));
    }
}

// ---- polynomials ----
/// The value of a polynomial, its constant coefficient first.
pub open spec fn value_at(p: u8, l: Seq<u8>, x: u8) -> u8
    decreases l.len(),
{
    if l.len() == 0 {
        0
    } else {
        gadd(l[0], gmul(p, x, value_at(p, l.drop_first(), x)))
    }
}

/// The sum of the entries of `s` from `j` on, each times its coefficient of `l`.
pub open spec fn weighted(p: u8, l: Seq<u8>, s: Seq<u8>, j: int) -> u8
    decreases l.len(),
{
    if l.len() == 0 {
        0
    } else {
        gadd(gmul(p, l[0], s[j]), weighted(p, l.drop_first(), s, j + 1))
    }
}

/// Whether `s` holds the first power sums of the weights.
spec fn sums_of(p: u8, base: nat, w: Seq<u8>, s: Seq<u8>) -> bool {
    forall|j: int| 0 <= j < s.len() ==> #[trigger] s[j] == syndrome(p, base, w, j as nat)
}

/// Weighing power sums by coefficients is weighing each weight by the polynomial's value.
proof fn lemma_weighted_is_value(
    p: u8,
    base: nat,
    w: Seq<u8>,
    s: Seq<u8>,
    l: Seq<u8>,
    u: Seq<u8>,
    j: int,
)
    requires
        is_field(p),
        sums_of(p, base, w, s),
        u.len() == w.len(),
        forall|i: int|
            0 <= i < w.len() ==> u[i] == gmul(p, w[i], value_at(p, l, locator(p, w.len(), i))),
        0 <= j,
        j + l.len() <= s.len(),
    ensures
        weighted(p, l, s, j) == syndrome(p, base, u, j as nat),
    decreases l.len(),
{
    let n = w.len();
    if l.len() == 0 {
        assert forall|i: int| 0 <= i < n implies u[i] == 0 by {
            lemma_mul_zero(p, w[i]);
        }
        lemma_power_sum_zero(p, n, u, base + j as nat, n);
    } else {
        let rest = l.drop_first();
        let v = Seq::new(n, |i: int| gmul(p, w[i], value_at(p, rest, locator(p, n, i))));
        let moved = Seq::new(n, |i: int| gmul(p, v[i], locator(p, n, i)));
        let scaled = Seq::new(n, |i: int| gmul(p, l[0], w[i]));
        lemma_weighted_is_value(p, base, w, s, rest, v, j + 1);
        let k = base + j as nat;
        lemma_power_sum_shift(p, n, v, moved, k, n);
        lemma_power_sum_scale(p, n, w, scaled, l[0], k, n);
        assert forall|i: int| 0 <= i < n implies u[i] == gadd(scaled[i], moved[i]) by {
            let x = locator(p, n, i);
            let r = value_at(p, rest, x);
            lemma_mul_add(p, w[i], l[0], gmul(p, x, r));
            lemma_mul_commutes(p, l[0], w[i]);
            lemma_mul_commutes(p, x, r);
            lemma_mul_associates(p, w[i], r, x);
        }
        lemma_power_sum_add(p, n, scaled, moved, u, k, n);
        assert(s[j] == syndrome(p, base, w, j as nat));
        assert(base + (j + 1) as nat == k + 1);
    }
}

/// The quotient of a polynomial less its value at `a`, divided by the distance from `a`.
pub open spec fn quotient(p: u8, l: Seq<u8>, a: u8) -> Seq<u8>
    decreases l.len(),
{
    if l.len() <= 1 {
        Seq::empty()
    } else {
        seq![value_at(p, l.drop_first(), a)] + quotient(p, l.drop_first(), a)
    }
}

proof fn lemma_quotient(p: u8, l: Seq<u8>, a: u8, x: u8)
    requires
        is_field(p),
    ensures
        quotient(p, l, a).len() == if l.len() == 0 {
            0
        } else {
            (l.len() - 1) as nat
        },
        gadd(value_at(p, l, x), value_at(p, l, a)) == gmul(
            p,
            gadd(x, a),
            value_at(p, quotient(p, l, a), x),
        ),
    decreases l.len(),
{
    if l.len() == 0 {
        lemma_add(0, 0, 0);
        lemma_mul_zero(p, gadd(x, a));
    } else if l.len() == 1 {
        let rest = l.drop_first();
        assert(value_at(p, rest, x) == 0);
        assert(value_at(p, rest, a) == 0);
        lemma_mul_zero(p, x);
        lemma_mul_zero(p, a);
        lemma_add(l[0], 0, 0);
        lemma_add(l[0], l[0], 0);
        lemma_mul_zero(p, gadd(x, a));
    } else {
        let rest = l.drop_first();
        lemma_quotient(p, rest, a, x);
        let q = quotient(p, l, a);
        let qr = quotient(p, rest, a);
        let vx = value_at(p, rest, x);
        let va = value_at(p, rest, a);
        assert(q.drop_first() =~= qr);
        assert(q[0] == va);
        let qx = value_at(p, qr, x);
        // value_at(q, x) == va + x * qx
        let d = gadd(x, a);
        // (l0 + x vx) + (l0 + a va) == x vx + a va
        lemma_add_four(l[0], gmul(p, x, vx), l[0], gmul(p, a, va));
        lemma_add(l[0], l[0], 0);
        lemma_add(gadd(gmul(p, x, vx), gmul(p, a, va)), 0, 0);
        // d * (va + x qx) == d va + x (d qx)
        lemma_mul_add(p, d, va, gmul(p, x, qx));
        lemma_mul_associates(p, d, x, qx);
        lemma_mul_commutes(p, d, x);
        lemma_mul_associates(p, x, d, qx);
        // x (d qx) == x vx + x va
        lemma_mul_add(p, x, vx, va);
        // d va == x va + a va
        lemma_add_mul(p, x, a, va);
        let xa = gmul(p, x, va);
        let aa = gmul(p, a, va);
        let xv = gmul(p, x, vx);
        // (xa + aa) + (xv + xa) == xv + aa
        lemma_add(xv, xa, 0);
        lemma_add_four(xa, aa, xa, xv);
        lemma_add(xa, xa, 0);
        lemma_add(gadd(aa, xv), 0, 0);
        lemma_add(aa, xv, 0);
    }
}

/// Whether every coefficient is zero.
pub open spec fn all_zero(l: Seq<u8>) -> bool {
    forall|i: int| 0 <= i < l.len() ==> l[i] == 0
}

/// A polynomial with the root `a` whose quotient is zero is zero.
proof fn lemma_quotient_nonzero(p: u8, l: Seq<u8>, a: u8)
    requires
        is_field(p),
        value_at(p, l, a) == 0,
        all_zero(quotient(p, l, a)),
    ensures
        all_zero(l),
    decreases l.len(),
{
    if l.len() >= 1 {
        let rest = l.drop_first();
        if l.len() == 1 {
            assert(value_at(p, rest, a) == 0);
        } else {
            let q = quotient(p, l, a);
            let qr = quotient(p, rest, a);
            assert(q.drop_first() =~= qr);
            assert(q[0] == value_at(p, rest, a));
            assert forall|i: int| 0 <= i < qr.len() implies qr[i] == 0 by {
                assert(qr[i] == q[i + 1]);
            }
            lemma_quotient_nonzero(p, rest, a);
        }
        lemma_mul_zero(p, a);
        lemma_add(l[0], 0, 0);
        assert forall|i: int| 0 <= i < l.len() implies l[i] == 0 by {
            if i > 0 {
                assert(rest[i - 1] == l[i]);
            }
        }
    }
}

/// A polynomial that is not zero has fewer roots than coefficients.
proof fn lemma_root_count(p: u8, l: Seq<u8>, roots: Seq<u8>)
    requires
        is_field(p),
        !all_zero(l),
        roots.no_duplicates(),
        forall|k: int| 0 <= k < roots.len() ==> value_at(p, l, #[trigger] roots[k]) == 0,
    ensures
        roots.len() < l.len(),
    decreases roots.len(),
{
    if roots.len() > 0 {
        let a = roots.last();
        let rest = roots.drop_last();
        let q = quotient(p, l, a);
        assert(roots[roots.len() - 1] == a);
        if all_zero(q) {
            lemma_quotient_nonzero(p, l, a);
        }
        assert forall|k: int| 0 <= k < rest.len() implies value_at(p, q, #[trigger] rest[k])
            == 0 by {
            let b = rest[k];
            assert(roots[k] == b);
            lemma_quotient(p, l, a, b);
            lemma_add(0, 0, 0);
            lemma_add(b, a, 0);
            lemma_mul_nonzero(p, gadd(b, a), value_at(p, q, b));
        }
        lemma_quotient(p, l, a, a);
        lemma_root_count(p, q, rest);
    }
}

// ---- computing ----
/// The locators of the positions of a word of `n` bytes.
fn locators(p: u8, n: usize) -> (r: Vec<u8>)
    ensures
        r@.len() == n,
        forall|i: int| 0 <= i < n ==> #[trigger] r@[i] == locator(p, n as nat, i),
{
    let mut out: Vec<u8> = Vec::new();
    let mut i: usize = 0;
    while i < n
        invariant
            i <= n,
            out@.len() == i,
            forall|k: int| 0 <= k < i ==> #[trigger] out@[k] == locator(p, n as nat, k),
        decreases n - i,
    {
        out.push(exp_in(p, n - 1 - i));
        i = i + 1;
    }
    out
}

/// A power of an element.
fn power_in(p: u8, a: u8, k: usize) -> (r: u8)
    ensures
        r == gpow(p, a, k as nat),
{
    let mut r: u8 = 1;
    let mut i: usize = 0;
    while i < k
        invariant
            i <= k,
            r == gpow(p, a, i as nat),
        decreases k - i,
    {
        r = mul_in(p, a, r);
        i = i + 1;
    }
    r
}

/// The first `ecc` check sums of a word.
pub fn syndromes(p: u8, base: usize, word: &[u8], ecc: usize) -> (r: Vec<u8>)
    requires
        base + ecc <= usize::MAX,
    ensures
        r@.len() == ecc,
        forall|j: int|
            0 <= j < ecc ==> #[trigger] r@[j] == syndrome(p, base as nat, word@, j as nat),
{
    let n: usize = word.len();
    let xs = locators(p, n);
    let mut powers: Vec<u8> = Vec::new();
    let mut i: usize = 0;
    while i < n
        invariant
            i <= n,
            n == word@.len(),
            xs@.len() == n,
            forall|k: int| 0 <= k < n ==> #[trigger] xs@[k] == locator(p, n as nat, k),
            powers@.len() == i,
            forall|k: int|
                0 <= k < i ==> #[trigger] powers@[k] == gpow(
                    p,
                    locator(p, n as nat, k),
                    base as nat,
                ),
        decreases n - i,
    {
        powers.push(power_in(p, xs[i], base));
        i = i + 1;
    }
    let mut out: Vec<u8> = Vec::new();
    let mut j: usize = 0;
    while j < ecc
        invariant
            n == word@.len(),
            base + ecc <= usize::MAX,
            j <= ecc,
            xs@.len() == n,
            forall|k: int| 0 <= k < n ==> #[trigger] xs@[k] == locator(p, n as nat, k),
            powers@.len() == n,
            forall|k: int|
                0 <= k < n ==> #[trigger] powers@[k] == gpow(
                    p,
                    locator(p, n as nat, k),
                    (base + j) as nat,
                ),
            out@.len() == j,
            forall|k: int|
                0 <= k < j ==> #[trigger] out@[k] == syndrome(p, base as nat, word@, k as nat),
        decreases ecc - j,
    {
        let mut sum: u8 = 0;
        let mut i: usize = 0;
        let ghost before = powers@;
        while i < n
            invariant
                n == word@.len(),
                i <= n,
                xs@.len() == n,
                forall|k: int| 0 <= k < n ==> #[trigger] xs@[k] == locator(p, n as nat, k),
                powers@.len() == n,
                forall|k: int|
                    i <= k < n ==> #[trigger] powers@[k] == gpow(
                        p,
                        locator(p, n as nat, k),
                        (base + j) as nat,
                    ),
                forall|k: int|
                    0 <= k < i ==> #[trigger] powers@[k] == gpow(
                        p,
                        locator(p, n as nat, k),
                        (base + j + 1) as nat,
                    ),
                sum == power_sum(p, n as nat, word@, (base + j) as nat, i as nat),
            decreases n - i,
        {
            sum = sum ^ mul_in(p, word[i], powers[i]);
            let next: u8 = mul_in(p, xs[i], powers[i]);
            powers.set(i, next);
            i = i + 1;
        }
        out.push(sum);
        j = j + 1;
    }
    out
}

/// Differences of neighbouring sums that cancel what has the locator `a`.
fn differences(p: u8, s: &[u8], a: u8) -> (r: Vec<u8>)
    ensures
        r@.len() == if s@.len() == 0 {
            0
        } else {
            (s@.len() - 1) as nat
        },
        forall|j: int|
            0 <= j < r@.len() ==> #[trigger] r@[j] == gadd(s@[j + 1], gmul(p, a, s@[j])),
{
    let mut out: Vec<u8> = Vec::new();
    let mut j: usize = 0;
    while s.len() > 0 && j < s.len() - 1
        invariant
            s@.len() > 0 ==> j <= s@.len() - 1,
            s@.len() == 0 ==> j == 0,
            out@.len() == j,
            forall|k: int| 0 <= k < j ==> #[trigger] out@[k] == gadd(s@[k + 1], gmul(p, a, s@[k])),
        decreases s@.len() - j,
    {
        out.push(s[j + 1] ^ mul_in(p, a, s[j]));
        j = j + 1;
    }
    out
}

proof fn lemma_differences(p: u8, base: nat, w: Seq<u8>, s: Seq<u8>, a: u8, d: Seq<u8>)
    requires
        is_field(p),
        sums_of(p, base, w, s),
        s.len() > 0,
        d.len() == s.len() - 1,
        forall|j: int| 0 <= j < d.len() ==> #[trigger] d[j] == gadd(s[j + 1], gmul(p, a, s[j])),
    ensures
        sums_of(p, base, distanced(p, w.len(), w, a), d),
{
    let v = distanced(p, w.len(), w, a);
    assert forall|j: int| 0 <= j < d.len() implies #[trigger] d[j] == syndrome(
        p,
        base,
        v,
        j as nat,
    ) by {
        lemma_power_sum_distanced(p, w.len(), w, a, base + j as nat, w.len());
        assert(s[j] == syndrome(p, base, w, j as nat));
        assert(s[j + 1] == syndrome(p, base, w, (j + 1) as nat));
        assert(base + (j + 1) as nat == (base + j as nat) + 1);
    }
}

/// The value of a polynomial.
fn evaluate(p: u8, l: &[u8], x: u8) -> (r: u8)
    ensures
        r == value_at(p, l@, x),
{
    let n: usize = l.len();
    let mut r: u8 = 0;
    let mut m: usize = n;
    assert(l@.subrange(n as int, n as int) =~= Seq::<u8>::empty());
    while m > 0
        invariant
            m <= n == l@.len(),
            r == value_at(p, l@.subrange(m as int, n as int), x),
        decreases m,
    {
        m = m - 1;
        r = l[m] ^ mul_in(p, x, r);
        proof {
            let tail = l@.subrange(m as int, n as int);
            assert(tail.drop_first() =~= l@.subrange(m + 1, n as int));
        }
    }
    assert(l@.subrange(0, n as int) =~= l@);
    r
}

/// The sum of the entries of `s` from `j` on, each times its coefficient of `l`.
fn weigh(p: u8, l: &[u8], s: &[u8], j: usize) -> (r: u8)
    requires
        j + l@.len() <= s@.len(),
    ensures
        r == weighted(p, l@, s@, j as int),
{
    let n: usize = l.len();
    let mut r: u8 = 0;
    let mut m: usize = n;
    assert(l@.subrange(n as int, n as int) =~= Seq::<u8>::empty());
    while m > 0
        invariant
            m <= n == l@.len(),
            j + l@.len() <= s@.len(),
            r == weighted(p, l@.subrange(m as int, n as int), s@, j + m),
        decreases m,
    {
        m = m - 1;
        assert(s@.len() == s.len());
        r = mul_in(p, l[m], s[j + m]) ^ r;
        proof {
            let tail = l@.subrange(m as int, n as int);
            assert(tail.drop_first() =~= l@.subrange(m + 1, n as int));
        }
    }
    assert(l@.subrange(0, n as int) =~= l@);
    r
}

/// Weighing by a combination is combining what each weighs.
proof fn lemma_weighted_combination(
    p: u8,
    l: Seq<u8>,
    k: Seq<u8>,
    c: Seq<u8>,
    f: u8,
    s: Seq<u8>,
    j: int,
)
    requires
        is_field(p),
        l.len() == k.len() == c.len(),
        forall|i: int| 0 <= i < c.len() ==> c[i] == gadd(l[i], gmul(p, f, k[i])),
    ensures
        weighted(p, c, s, j) == gadd(weighted(p, l, s, j), gmul(p, f, weighted(p, k, s, j))),
    decreases l.len(),
{
    if l.len() == 0 {
        lemma_mul_zero(p, f);
        lemma_add(0, 0, 0);
    } else {
        lemma_weighted_combination(
            p,
            l.drop_first(),
            k.drop_first(),
            c.drop_first(),
            f,
            s,
            j + 1,
        );
        let wl = weighted(p, l.drop_first(), s, j + 1);
        let wk = weighted(p, k.drop_first(), s, j + 1);
        lemma_add_mul(p, l[0], gmul(p, f, k[0]), s[j]);
        lemma_mul_associates(p, f, k[0], s[j]);
        lemma_mul_add(p, f, gmul(p, k[0], s[j]), wk);
        lemma_add_four(gmul(p, l[0], s[j]), gmul(p, f, gmul(p, k[0], s[j])), wl, gmul(p, f, wk));
    }
}

/// Whether each of the vectors has a place where it is one and all the others are zero.
spec fn independent(basis: Seq<Vec<u8>>, anchors: Seq<int>, len: int) -> bool {
    &&& anchors.len() == basis.len()
    &&& forall|a: int| 0 <= a < basis.len() ==> (#[trigger] basis[a])@.len() == len
    &&& forall|a: int| 0 <= a < basis.len() ==> 0 <= #[trigger] anchors[a] < len
    &&& forall|a: int, b: int|
        #![trigger basis[b], anchors[a]]
        0 <= a < basis.len() && 0 <= b < basis.len() ==> basis[b]@[anchors[a]] == if a == b {
            1u8
        } else {
            0u8
        }
}

/// Whether the vectors weigh the first `j` windows of `s` to zero.
spec fn cancels(p: u8, basis: Seq<Vec<u8>>, s: Seq<u8>, j: int) -> bool {
    forall|a: int, i: int|
        #![trigger weighted(p, basis[a]@, s, i)]
        0 <= a < basis.len() && 0 <= i < j ==> weighted(p, basis[a]@, s, i) == 0
}

/// The vector `l` plus `f` times the vector `k`.
fn add_scaled(p: u8, l: &[u8], k: &[u8], f: u8) -> (r: Vec<u8>)
    requires
        l@.len() == k@.len(),
    ensures
        r@.len() == l@.len(),
        forall|i: int| 0 <= i < r@.len() ==> #[trigger] r@[i] == gadd(l@[i], gmul(p, f, k@[i])),
{
    let mut out: Vec<u8> = Vec::new();
    let mut i: usize = 0;
    while i < l.len()
        invariant
            l@.len() == k@.len(),
            i <= l@.len(),
            out@.len() == i,
            forall|m: int| 0 <= m < i ==> #[trigger] out@[m] == gadd(l@[m], gmul(p, f, k@[m])),
        decreases l@.len() - i,
    {
        out.push(l[i] ^ mul_in(p, f, k[i]));
        i = i + 1;
    }
    out
}

/// Whether `v` is the vector `l` plus `f` times the vector `k`.
spec fn is_combination(p: u8, l: Seq<u8>, k: Seq<u8>, v: Seq<u8>, f: u8) -> bool {
    forall|i: int| 0 <= i < v.len() ==> #[trigger] v[i] == gadd(l[i], gmul(p, f, k[i]))
}

/// The `m`th index when `pivot` is left out.
spec fn skipping(pivot: int, m: int) -> int {
    if m < pivot {
        m
    } else {
        m + 1
    }
}

/// Whether `v` is the vector `l` plus some multiple of the vector `k`.
spec fn comes_from(p: u8, l: Seq<u8>, k: Seq<u8>, v: Seq<u8>) -> bool {
    exists|f: u8| #[trigger] is_combination(p, l, k, v, f)
}

/// Makes the vectors weigh window `j` of `s` to zero, too, giving up at most one of them.
fn eliminate(
    p: u8,
    basis: Vec<Vec<u8>>,
    s: &[u8],
    j: usize,
    Ghost(anchors): Ghost<Seq<int>>,
    Ghost(len): Ghost<int>,
) -> (r: (Vec<Vec<u8>>, Ghost<Seq<int>>))
    requires
        is_field(p),
        independent(basis@, anchors, len),
        cancels(p, basis@, s@, j as int),
        j + len <= s@.len(),
    ensures
        independent(r.0@, r.1@, len),
        cancels(p, r.0@, s@, j + 1),
        r.0@.len() >= basis@.len() - 1,
{
    let n: usize = basis.len();
    let mut pivot: usize = 0;
    while pivot < n && weigh(p, basis[pivot].as_slice(), s, j) == 0
        invariant
            n == basis@.len(),
            pivot <= n,
            j + len <= s@.len(),
            independent(basis@, anchors, len),
            forall|a: int| 0 <= a < pivot ==> weighted(p, (#[trigger] basis@[a])@, s@, j as int) == 0,
        decreases n - pivot,
    {
        pivot = pivot + 1;
    }
    if pivot == n {
        assert(cancels(p, basis@, s@, j + 1)) by {
            assert forall|a: int, i: int|
                #![trigger weighted(p, basis@[a]@, s@, i)]
                0 <= a < basis@.len() && 0 <= i < j + 1 implies weighted(p, basis@[a]@, s@, i)
                == 0 by {}
        }
        return (basis, Ghost(anchors));
    }
    let lead: u8 = weigh(p, basis[pivot].as_slice(), s, j);
    let inv: u8 = inverse_in(p, lead);
    let mut out: Vec<Vec<u8>> = Vec::new();
    let ghost mut kept: Seq<int> = Seq::empty();
    let mut a: usize = 0;
    while a < n
        invariant
            is_field(p),
            n == basis@.len(),
            a <= n,
            pivot < n,
            j + len <= s@.len(),
            independent(basis@, anchors, len),
            cancels(p, basis@, s@, j as int),
            lead == weighted(p, basis@[pivot as int]@, s@, j as int),
            gmul(p, lead, inv) == 1,
            out@.len() == if a <= pivot { a as int } else { a - 1 },
            kept.len() == out@.len(),
            forall|m: int|
                0 <= m < kept.len() ==> #[trigger] kept[m] == anchors[skipping(pivot as int, m)],
            forall|m: int| 0 <= m < out@.len() ==> (#[trigger] out@[m])@.len() == len,
            forall|m: int|
                0 <= m < out@.len() ==> comes_from(
                    p,
                    basis@[skipping(pivot as int, m)]@,
                    basis@[pivot as int]@,
                    (#[trigger] out@[m])@,
                ),
            cancels(p, out@, s@, j + 1),
        decreases n - a,
    {
        if a != pivot {
            let own: u8 = weigh(p, basis[a].as_slice(), s, j);
            let f: u8 = mul_in(p, own, inv);
            let v = add_scaled(p, basis[a].as_slice(), basis[pivot].as_slice(), f);
            let ghost was = out@;
            let ghost made = v@;
            out.push(v);
            proof {
                kept = kept.push(anchors[a as int]);
                assert forall|b: int, i: int|
                    #![trigger weighted(p, out@[b]@, s@, i)]
                    0 <= b < out@.len() && 0 <= i < j + 1 implies weighted(p, out@[b]@, s@, i)
                    == 0 by {
                    if b < was.len() {
                        assert(out@[b] == was[b]);
                        assert(weighted(p, was[b]@, s@, i) == 0);
                    } else {
                        let l = basis@[a as int]@;
                        let k = basis@[pivot as int]@;
                        lemma_weighted_combination(p, l, k, made, f, s@, i);
                        if i < j {
                            assert(weighted(p, basis@[a as int]@, s@, i) == 0);
                            assert(weighted(p, basis@[pivot as int]@, s@, i) == 0);
                            lemma_mul_zero(p, f);
                            lemma_add(0, 0, 0);
                        } else {
                            lemma_mul_associates(p, own, inv, lead);
                            lemma_mul_commutes(p, inv, lead);
                            lemma_mul_one(p, own);
                            lemma_add(own, own, 0);
                        }
                    }
                }
                assert(is_combination(p, basis@[a as int]@, basis@[pivot as int]@, made, f));
                assert(skipping(pivot as int, was.len() as int) == a);
            }
        }
        a = a + 1;
    }
    proof {
        assert forall|x: int, y: int|
            #![trigger out@[y], kept[x]]
            0 <= x < out@.len() && 0 <= y < out@.len() implies out@[y]@[kept[x]] == if x == y {
            1u8
        } else {
            0u8
        } by {
            let ox = skipping(pivot as int, x);
            let oy = skipping(pivot as int, y);
            let at = anchors[ox];
            assert(kept[x] == at);
            let f = choose|f: u8| #[trigger]
                is_combination(p, basis@[oy]@, basis@[pivot as int]@, out@[y]@, f);
            assert(out@[y]@[at] == gadd(basis@[oy]@[at], gmul(p, f, basis@[pivot as int]@[at])));
            assert(basis@[pivot as int]@[anchors[ox]] == 0);
            lemma_mul_zero(p, f);
            lemma_add(basis@[oy]@[at], 0, 0);
            assert(basis@[oy]@[anchors[ox]] == if ox == oy { 1u8 } else { 0u8 });
        }
    }
    (out, Ghost(kept))
}

/// The vector of `len` entries that is one at `a` and zero elsewhere.
fn unit(len: usize, a: usize) -> (r: Vec<u8>)
    requires
        a < len,
    ensures
        r@.len() == len,
        forall|i: int| 0 <= i < len ==> #[trigger] r@[i] == if i == a { 1u8 } else { 0u8 },
{
    let mut v: Vec<u8> = vec![0; len];
    v.set(a, 1);
    v
}

/// A polynomial of degree at most `t`, not zero, that weighs the first `t` windows of `s` to zero.
fn annihilator(p: u8, s: &[u8], t: usize) -> (r: Vec<u8>)
    requires
        is_field(p),
        2 * t <= s@.len(),
    ensures
        r@.len() == t + 1,
        !all_zero(r@),
        forall|j: int| 0 <= j < t ==> weighted(p, r@, s@, j) == 0,
{
    assert(s@.len() == s.len());
    let len: usize = t + 1;
    let mut basis: Vec<Vec<u8>> = Vec::new();
    let mut a: usize = 0;
    while a < len
        invariant
            a <= len,
            basis@.len() == a,
            forall|k: int| 0 <= k < a ==> (#[trigger] basis@[k])@.len() == len,
            forall|k: int, i: int|
                #![trigger basis@[k]@[i]]
                0 <= k < a && 0 <= i < len ==> basis@[k]@[i] == if i == k {
                    1u8
                } else {
                    0u8
                },
        decreases len - a,
    {
        basis.push(unit(len, a));
        a = a + 1;
    }
    let ghost mut anchors: Seq<int> = Seq::new(len as nat, |k: int| k);
    let mut j: usize = 0;
    while j < t
        invariant
            is_field(p),
            len == t + 1,
            2 * t <= s@.len(),
            j <= t,
            independent(basis@, anchors, len as int),
            cancels(p, basis@, s@, j as int),
            basis@.len() >= len - j,
        decreases t - j,
    {
        let (next, fresh) = eliminate(p, basis, s, j, Ghost(anchors), Ghost(len as int));
        basis = next;
        proof {
            anchors = fresh@;
        }
        j = j + 1;
    }
    let out = basis.swap_remove(0);
    proof {
        assert(out@[anchors[0]] == 1);
        assert forall|j: int| 0 <= j < t implies weighted(p, out@, s@, j) == 0 by {}
    }
    out
}

// ---- decoding ----
/// The weights times the distances of their locators from those of the listed positions.
spec fn distanced_by(p: u8, w: Seq<u8>, list: Seq<usize>) -> Seq<u8>
    decreases list.len(),
{
    if list.len() == 0 {
        w
    } else {
        distanced(
            p,
            w.len(),
            distanced_by(p, w, list.drop_last()),
            locator(p, w.len(), list.last() as int),
        )
    }
}

/// The product of the distances of the locator of `i` from those of the listed positions.
spec fn distance_product(p: u8, n: nat, list: Seq<usize>, i: int) -> u8
    decreases list.len(),
{
    if list.len() == 0 {
        1
    } else {
        gmul(
            p,
            distance_product(p, n, list.drop_last(), i),
            gadd(locator(p, n, i), locator(p, n, list.last() as int)),
        )
    }
}

proof fn lemma_distanced_by(p: u8, w: Seq<u8>, list: Seq<usize>, i: int)
    requires
        is_field(p),
        0 <= i < w.len(),
    ensures
        distanced_by(p, w, list).len() == w.len(),
        distanced_by(p, w, list)[i] == gmul(p, w[i], distance_product(p, w.len(), list, i)),
    decreases list.len(),
{
    if list.len() == 0 {
        lemma_mul_one(p, w[i]);
    } else {
        let rest = list.drop_last();
        lemma_distanced_by(p, w, rest, i);
        lemma_mul_associates(
            p,
            w[i],
            distance_product(p, w.len(), rest, i),
            gadd(locator(p, w.len(), i), locator(p, w.len(), list.last() as int)),
        );
    }
}

/// The product is zero exactly at the listed positions.
proof fn lemma_distance_product(p: u8, n: nat, list: Seq<usize>, i: int)
    requires
        is_field(p),
        n <= 255,
        0 <= i < n,
        forall|k: int| 0 <= k < list.len() ==> #[trigger] list[k] < n,
    ensures
        distance_product(p, n, list, i) == 0 <==> exists|k: int|
            0 <= k < list.len() && #[trigger] list[k] == i,
    decreases list.len(),
{
    if list.len() > 0 {
        let rest = list.drop_last();
        let q = list.last() as int;
        assert(list[list.len() - 1] == q);
        assert forall|k: int| 0 <= k < rest.len() implies #[trigger] rest[k] < n by {
            assert(rest[k] == list[k]);
        }
        lemma_distance_product(p, n, rest, i);
        let r = distance_product(p, n, rest, i);
        let d = gadd(locator(p, n, i), locator(p, n, q));
        lemma_locators(p, n, i, q);
        lemma_add(locator(p, n, i), locator(p, n, i), 0);
        lemma_mul_zero(p, r);
        lemma_mul_zero(p, d);
        if gmul(p, r, d) == 0 {
            lemma_mul_nonzero(p, r, d);
            if r == 0 {
                let k = choose|k: int| 0 <= k < rest.len() && #[trigger] rest[k] == i;
                assert(list[k] == i);
            }
        }
        if exists|k: int| 0 <= k < list.len() && #[trigger] list[k] == i {
            let k = choose|k: int| 0 <= k < list.len() && #[trigger] list[k] == i;
            if k < rest.len() {
                assert(rest[k] == i);
            }
        }
    }
}

/// Takes differences until what the listed positions contribute is gone.
fn cancel(
    p: u8,
    s: &[u8],
    xs: &[u8],
    list: &[usize],
    Ghost(base): Ghost<nat>,
) -> (r: Vec<u8>)
    requires
        is_field(p),
        list@.len() <= s@.len(),
        forall|i: int| 0 <= i < xs@.len() ==> #[trigger] xs@[i] == locator(p, xs@.len(), i),
        forall|k: int| 0 <= k < list@.len() ==> #[trigger] list@[k] < xs@.len(),
    ensures
        r@.len() == s@.len() - list@.len(),
        forall|w: Seq<u8>|
            w.len() == xs@.len() && #[trigger] sums_of(p, base, w, s@) ==> sums_of(
                p,
                base,
                distanced_by(p, w, list@),
                r@,
            ),
{
    let mut r: Vec<u8> = Vec::new();
    r.extend_from_slice(s);
    let mut k: usize = 0;
    proof {
        assert(r@ =~= s@);
        assert(list@.take(0) =~= Seq::empty());
    }
    while k < list.len()
        invariant
            is_field(p),
            k <= list@.len() <= s@.len(),
            r@.len() == s@.len() - k,
            forall|i: int| 0 <= i < xs@.len() ==> #[trigger] xs@[i] == locator(p, xs@.len(), i),
            forall|k: int| 0 <= k < list@.len() ==> #[trigger] list@[k] < xs@.len(),
            forall|w: Seq<u8>|
                w.len() == xs@.len() && #[trigger] sums_of(p, base, w, s@) ==> sums_of(
                    p,
                    base,
                    distanced_by(p, w, list@.take(k as int)),
                    r@,
                ),
        decreases list@.len() - k,
    {
        let ghost was = r@;
        let a: u8 = xs[list[k]];
        r = differences(p, r.as_slice(), a);
        proof {
            assert(list@.take(k + 1).drop_last() =~= list@.take(k as int));
            assert(list@.take(k + 1).last() == list@[k as int]);
            assert forall|w: Seq<u8>|
                w.len() == xs@.len() && #[trigger] sums_of(p, base, w, s@) implies sums_of(
                p,
                base,
                distanced_by(p, w, list@.take(k + 1)),
                r@,
            ) by {
                let v = distanced_by(p, w, list@.take(k as int));
                lemma_distanced_by_len(p, w, list@.take(k as int));
                lemma_differences(p, base, v, was, a, r@);
            }
        }
        k = k + 1;
    }
    assert(list@.take(list@.len() as int) =~= list@);
    r
}

proof fn lemma_distanced_by_len(p: u8, w: Seq<u8>, list: Seq<usize>)
    ensures
        distanced_by(p, w, list).len() == w.len(),
    decreases list.len(),
{
    if list.len() > 0 {
        lemma_distanced_by_len(p, w, list.drop_last());
    }
}

/// The product of the distances of the locator of `q` from those of the listed positions, times the
/// `base`th power of that locator.
fn divisor(p: u8, base: usize, xs: &[u8], list: &[usize], q: usize) -> (r: u8)
    requires
        is_field(p),
        q < xs@.len(),
        forall|i: int| 0 <= i < xs@.len() ==> #[trigger] xs@[i] == locator(p, xs@.len(), i),
        forall|k: int| 0 <= k < list@.len() ==> #[trigger] list@[k] < xs@.len(),
    ensures
        r == gmul(
            p,
            distance_product(p, xs@.len(), list@, q as int),
            gpow(p, locator(p, xs@.len(), q as int), base as nat),
        ),
{
    let mut r: u8 = 1;
    let mut k: usize = 0;
    assert(list@.take(0) =~= Seq::empty());
    while k < list.len()
        invariant
            k <= list@.len(),
            q < xs@.len(),
            forall|i: int| 0 <= i < xs@.len() ==> #[trigger] xs@[i] == locator(p, xs@.len(), i),
            forall|k: int| 0 <= k < list@.len() ==> #[trigger] list@[k] < xs@.len(),
            r == distance_product(p, xs@.len(), list@.take(k as int), q as int),
        decreases list@.len() - k,
    {
        proof {
            assert(list@.take(k + 1).drop_last() =~= list@.take(k as int));
            assert(list@.take(k + 1).last() == list@[k as int]);
        }
        r = mul_in(p, r, xs[q] ^ xs[list[k]]);
        k = k + 1;
    }
    assert(list@.take(list@.len() as int) =~= list@);
    mul_in(p, r, power_in(p, xs[q], base))
}

/// A list without one of its entries.
fn without(list: &[usize], q: usize) -> (r: Vec<usize>)
    requires
        ascending(list@),
        exists|k: int| 0 <= k < list@.len() && #[trigger] list@[k] == q,
    ensures
        r@.len() == list@.len() - 1,
        forall|k: int|
            0 <= k < r@.len() ==> #[trigger] r@[k] != q && exists|m: int|
                0 <= m < list@.len() && list@[m] == r@[k],
        forall|m: int|
            0 <= m < list@.len() && #[trigger] list@[m] != q ==> exists|k: int|
                0 <= k < r@.len() && #[trigger] r@[k] == list@[m],
{
    let mut out: Vec<usize> = Vec::new();
    let mut i: usize = 0;
    let ghost at = choose|k: int| 0 <= k < list@.len() && #[trigger] list@[k] == q;
    while i < list.len()
        invariant
            ascending(list@),
            0 <= at < list@.len(),
            list@[at] == q,
            i <= list@.len(),
            out@.len() == if i <= at { i as int } else { i - 1 },
            forall|k: int|
                0 <= k < out@.len() ==> #[trigger] out@[k] == list@[if k < at { k } else { k + 1 }],
        decreases list@.len() - i,
    {
        if list[i] != q {
            assert(i != at);
            out.push(list[i]);
        } else {
            assert(i == at);
        }
        i = i + 1;
    }
    proof {
        assert forall|m: int| 0 <= m < list@.len() && #[trigger] list@[m] != q implies exists|k: int|
            0 <= k < out@.len() && #[trigger] out@[k] == list@[m] by {
            let k = if m < at { m } else { m - 1 };
            assert(out@[k] == list@[m]);
        }
    }
    out
}

/// The difference of two words, position by position.
spec fn error_word(received: Seq<u8>, c: Seq<u8>) -> Seq<u8> {
    Seq::new(received.len(), |i: int| gadd(received[i], c[i]))
}

/// The check sums of a received word are those of its error.
proof fn lemma_error_sums(p: u8, base: nat, ecc: nat, received: Seq<u8>, c: Seq<u8>, s: Seq<u8>)
    requires
        is_field(p),
        c.len() == received.len(),
        is_codeword(p, base, ecc, c),
        s.len() == ecc,
        forall|j: int| 0 <= j < ecc ==> #[trigger] s[j] == syndrome(p, base, received, j as nat),
    ensures
        sums_of(p, base, error_word(received, c), s),
{
    let d = error_word(received, c);
    assert forall|j: int| 0 <= j < s.len() implies #[trigger] s[j] == syndrome(
        p,
        base,
        d,
        j as nat,
    ) by {
        lemma_power_sum_add(p, c.len(), received, c, d, base + j as nat, c.len());
        assert(syndrome(p, base, c, j as nat) == 0);
        lemma_add(s[j], 0, 0);
    }
}

/// A finite set can be listed.
proof fn lemma_listing(s: Set<int>) -> (f: Seq<int>)
    requires
        s.finite(),
    ensures
        f.len() == s.len(),
        f.no_duplicates(),
        forall|i: int| #[trigger] f.contains(i) <==> s.contains(i),
        forall|k: int| 0 <= k < f.len() ==> s.contains(#[trigger] f[k]),
    decreases s.len(),
{
    if s.len() == 0 {
        assert(s =~= Set::empty());
        Seq::empty()
    } else {
        let x = s.choose();
        let rest = lemma_listing(s.remove(x));
        let f = rest.push(x);
        assert forall|i: int| #[trigger] f.contains(i) <==> s.contains(i) by {
            if f.contains(i) {
                let k = choose|k: int| 0 <= k < f.len() && f[k] == i;
                if k < rest.len() {
                    assert(rest[k] == i);
                    assert(rest.contains(i));
                }
            }
            if s.contains(i) {
                if i == x {
                    assert(f[rest.len() as int] == i);
                } else {
                    assert(rest.contains(i));
                    let k = choose|k: int| 0 <= k < rest.len() && rest[k] == i;
                    assert(f[k] == i);
                }
            }
        }
        assert forall|k: int| 0 <= k < f.len() implies s.contains(#[trigger] f[k]) by {
            assert(f.contains(f[k]));
        }
        f
    }
}

/// A position that a correction changes outside the erasures is a root of the annihilator.
proof fn lemma_errors_are_roots(
    p: u8,
    base: nat,
    ecc: nat,
    received: Seq<u8>,
    c: Seq<u8>,
    erasures: Seq<usize>,
    sums: Seq<u8>,
    rest: Seq<u8>,
    t: nat,
    l: Seq<u8>,
    i: int,
)
    requires
        is_field(p),
        received.len() <= 255,
        corrects(p, base, ecc, listed(erasures), received, c),
        forall|k: int| 0 <= k < erasures.len() ==> #[trigger] erasures[k] < received.len(),
        listed(erasures).len() == erasures.len(),
        listed(erasures).finite(),
        rest.len() == ecc - erasures.len(),
        t == (ecc - erasures.len()) / 2,
        sums_of(p, base, distanced_by(p, error_word(received, c), erasures), rest),
        l.len() == t + 1,
        forall|j: int| 0 <= j < t ==> weighted(p, l, rest, j) == 0,
        0 <= i < received.len(),
        received[i] != c[i],
        !listed(erasures).contains(i),
    ensures
        value_at(p, l, locator(p, received.len(), i)) == 0,
{
    let n = received.len();
    let d = error_word(received, c);
    let w = distanced_by(p, d, erasures);
    let u = Seq::new(n, |k: int| gmul(p, w[k], value_at(p, l, locator(p, n, k))));
    lemma_distanced_by_len(p, d, erasures);
    let wrong = differing(received, c).difference(listed(erasures));
    let all = vstd::set_lib::set_int_range(0, n as int);
    vstd::set_lib::lemma_int_range(0, n as int);
    vstd::set_lib::lemma_len_subset(wrong, all);
    let f = lemma_listing(wrong);
    assert forall|k: int| 0 <= k < n && !wrong.contains(k) implies u[k] == 0 by {
        lemma_distanced_by(p, d, erasures, k);
        lemma_distance_product(p, n, erasures, k);
        lemma_add(received[k], received[k], 0);
        lemma_mul_zero(p, distance_product(p, n, erasures, k));
        lemma_mul_zero(p, d[k]);
        lemma_mul_zero(p, value_at(p, l, locator(p, n, k)));
    }
    assert forall|j: nat| j < f.len() implies #[trigger] syndrome(p, base, u, j) == 0 by {
        assert(weighted(p, l, rest, j as int) == 0);
        lemma_weighted_is_value(p, base, w, rest, l, u, j as int);
    }
    assert forall|k: int| 0 <= k < n && !f.contains(k) implies u[k] == 0 by {}
    lemma_vandermonde(p, base, u, f);
    assert(u[i] == 0);
    lemma_distanced_by(p, d, erasures, i);
    lemma_distance_product(p, n, erasures, i);
    lemma_add(received[i], c[i], 0);
    let product = distance_product(p, n, erasures, i);
    if w[i] == 0 {
        lemma_mul_nonzero(p, d[i], product);
    }
    lemma_mul_nonzero(p, w[i], value_at(p, l, locator(p, n, i)));
}

/// Whether `i` is erased or a root of the annihilator.
spec fn is_suspect(p: u8, n: nat, erasures: Seq<usize>, l: Seq<u8>, i: int) -> bool {
    listed(erasures).contains(i) || value_at(p, l, locator(p, n, i)) == 0
}

spec fn suspect_set(p: u8, n: nat, erasures: Seq<usize>, l: Seq<u8>) -> Set<int> {
    Set::new(|i: int| 0 <= i < n && is_suspect(p, n, erasures, l, i))
}

/// There are no more suspects than erasures and possible roots.
proof fn lemma_suspect_count(p: u8, n: nat, erasures: Seq<usize>, l: Seq<u8>)
    requires
        is_field(p),
        n <= 255,
        l.len() > 0,
        !all_zero(l),
        listed(erasures).finite(),
        listed(erasures).len() == erasures.len(),
    ensures
        suspect_set(p, n, erasures, l).len() <= erasures.len() + l.len() - 1,
{
    let all = vstd::set_lib::set_int_range(0, n as int);
    vstd::set_lib::lemma_int_range(0, n as int);
    let roots = Set::new(|i: int| 0 <= i < n && value_at(p, l, locator(p, n, i)) == 0);
    vstd::set_lib::lemma_len_subset(roots, all);
    let f = lemma_listing(roots);
    let values = Seq::new(f.len(), |k: int| locator(p, n, f[k]));
    assert forall|a: int, b: int| 0 <= a < values.len() && 0 <= b < values.len() && a
        != b implies values[a] != values[b] by {
        assert(roots.contains(f[a]) && roots.contains(f[b]));
        lemma_locators(p, n, f[a], f[b]);
        lemma_add(values[a], values[a], 0);
    }
    assert forall|k: int| 0 <= k < values.len() implies value_at(p, l, #[trigger] values[k]) == 0 by {
        assert(roots.contains(f[k]));
    }
    lemma_root_count(p, l, values);
    let both = listed(erasures).union(roots);
    vstd::set_lib::lemma_len_union(listed(erasures), roots);
    vstd::set_lib::lemma_len_subset(suspect_set(p, n, erasures, l), both);
}

/// The ascending list of the suspects.
fn find_suspects(p: u8, xs: &[u8], erasures: &[usize], l: &[u8]) -> (r: Vec<usize>)
    requires
        forall|i: int| 0 <= i < xs@.len() ==> #[trigger] xs@[i] == locator(p, xs@.len(), i),
        forall|k: int| 0 <= k < erasures@.len() ==> #[trigger] erasures@[k] < xs@.len(),
    ensures
        lists(r@, suspect_set(p, xs@.len(), erasures@, l@)),
{
    let n: usize = xs.len();
    let mut flags: Vec<bool> = Vec::new();
    let mut i: usize = 0;
    while i < n
        invariant
            n == xs@.len(),
            i <= n,
            flags@.len() == i,
            forall|i: int| 0 <= i < xs@.len() ==> #[trigger] xs@[i] == locator(p, xs@.len(), i),
            forall|k: int|
                0 <= k < i ==> #[trigger] flags@[k] == (value_at(p, l@, locator(p, n as nat, k))
                    == 0),
        decreases n - i,
    {
        flags.push(evaluate(p, l, xs[i]) == 0);
        i = i + 1;
    }
    let ghost roots = flags@;
    let mut k: usize = 0;
    while k < erasures.len()
        invariant
            n == xs@.len(),
            k <= erasures@.len(),
            roots.len() == n,
            flags@.len() == n,
            forall|k: int| 0 <= k < erasures@.len() ==> #[trigger] erasures@[k] < n,
            forall|i: int|
                0 <= i < n ==> #[trigger] flags@[i] == (roots[i] || exists|m: int|
                    0 <= m < k && #[trigger] erasures@[m] == i),
        decreases erasures@.len() - k,
    {
        let ghost was = flags@;
        flags.set(erasures[k], true);
        assert forall|i: int| 0 <= i < n implies #[trigger] flags@[i] == (roots[i] || exists|m: int|
            0 <= m < k + 1 && #[trigger] erasures@[m] == i) by {
            assert(was[i] == (roots[i] || exists|m: int|
                0 <= m < k && #[trigger] erasures@[m] == i));
            if i == erasures@[k as int] {
                assert(erasures@[k as int] == i);
            }
        }
        k = k + 1;
    }
    assert(set_positions(flags@) =~= suspect_set(p, n as nat, erasures@, l@));
    positions_set(flags.as_slice())
}

/// Cancelling all suspects but one leaves the error at that one, times the divisor.
proof fn lemma_error_isolated(
    p: u8,
    base: nat,
    d: Seq<u8>,
    suspects: Seq<usize>,
    others: Seq<usize>,
    q: int,
    v: Seq<u8>,
)
    requires
        is_field(p),
        d.len() <= 255,
        0 <= q < d.len(),
        v.len() > 0,
        sums_of(p, base, distanced_by(p, d, others), v),
        forall|k: int| 0 <= k < others.len() ==> #[trigger] others[k] < d.len(),
        forall|m: int|
            0 <= m < suspects.len() && #[trigger] suspects[m] != q ==> exists|k: int|
                0 <= k < others.len() && #[trigger] others[k] == suspects[m],
        forall|i: int|
            0 <= i < d.len() && d[i] != 0 ==> exists|m: int|
                0 <= m < suspects.len() && #[trigger] suspects[m] == i,
    ensures
        v[0] == gmul(
            p,
            d[q],
            gmul(
                p,
                distance_product(p, d.len(), others, q),
                gpow(p, locator(p, d.len(), q), base),
            ),
        ),
{
    let n = d.len();
    let w = distanced_by(p, d, others);
    lemma_distanced_by_len(p, d, others);
    assert forall|i: int| 0 <= i < n && i != q implies w[i] == 0 by {
        lemma_distanced_by(p, d, others, i);
        lemma_distance_product(p, n, others, i);
        lemma_mul_zero(p, d[i]);
        lemma_mul_zero(p, distance_product(p, n, others, i));
        if d[i] != 0 {
            let m = choose|m: int| 0 <= m < suspects.len() && #[trigger] suspects[m] == i;
            assert(suspects[m] != q);
        }
    }
    lemma_power_sum_single(p, n, w, base, n, q);
    assert(v[0] == syndrome(p, base, w, 0));
    lemma_distanced_by(p, d, others, q);
    lemma_mul_associates(
        p,
        d[q],
        distance_product(p, n, others, q),
        gpow(p, locator(p, n, q), base),
    );
}

/// Dividing what is isolated at a suspect by the divisor gives the error there.
proof fn lemma_solved(
    p: u8,
    base: nat,
    received: Seq<u8>,
    c: Seq<u8>,
    suspects: Seq<usize>,
    others: Seq<usize>,
    q: int,
    v: Seq<u8>,
    by: u8,
    inv: u8,
)
    requires
        is_field(p),
        received.len() <= 255,
        0 <= q < received.len(),
        v.len() > 0,
        sums_of(p, base, distanced_by(p, error_word(received, c), others), v),
        forall|k: int| 0 <= k < others.len() ==> #[trigger] others[k] < received.len(),
        forall|m: int|
            0 <= m < suspects.len() && #[trigger] suspects[m] != q ==> exists|k: int|
                0 <= k < others.len() && #[trigger] others[k] == suspects[m],
        forall|i: int|
            0 <= i < received.len() && received[i] != c[i] ==> exists|m: int|
                0 <= m < suspects.len() && #[trigger] suspects[m] == i,
        by == gmul(
            p,
            distance_product(p, received.len(), others, q),
            gpow(p, locator(p, received.len(), q), base),
        ),
        gmul(p, by, inv) == 1,
    ensures
        received[q] ^ gmul(p, v[0], inv) == c[q],
{
    let d = error_word(received, c);
    assert forall|i: int| 0 <= i < d.len() && d[i] != 0 implies exists|m: int|
        0 <= m < suspects.len() && #[trigger] suspects[m] == i by {
        lemma_add(received[i], received[i], 0);
        assert(received[i] != c[i]);
    }
    lemma_error_isolated(p, base, d, suspects, others, q, v);
    lemma_mul_associates(p, d[q], by, inv);
    lemma_mul_one(p, d[q]);
    lemma_add(received[q], received[q], c[q]);
    lemma_add(c[q], 0, 0);
    assert(gmul(p, v[0], inv) == d[q]);
    assert(gadd(received[q], d[q]) == c[q]);
}

/// Whether `out` agrees with `c` at the first `k` suspects.
spec fn agrees_at(out: Seq<u8>, c: Seq<u8>, suspects: Seq<usize>, k: int) -> bool {
    forall|m: int|
        0 <= m < k ==> out[#[trigger] suspects[m] as int] == c[suspects[m] as int]
}

/// The only value that a correction can have at a suspect.
fn solve_one(
    p: u8,
    base: usize,
    received: &[u8],
    sums: &[u8],
    xs: &[u8],
    suspects: &[usize],
    k: usize,
    Ghost(ecc): Ghost<nat>,
    Ghost(erased): Ghost<Set<int>>,
) -> (value: u8)
    requires
        is_field(p),
        received@.len() <= 255,
        xs@.len() == received@.len(),
        forall|i: int| 0 <= i < xs@.len() ==> #[trigger] xs@[i] == locator(p, xs@.len(), i),
        ascending(suspects@),
        forall|m: int| 0 <= m < suspects@.len() ==> #[trigger] suspects@[m] < received@.len(),
        suspects@.len() <= sums@.len(),
        sums@.len() == ecc,
        k < suspects@.len(),
        forall|j: int|
            0 <= j < ecc ==> #[trigger] sums@[j] == syndrome(
                p,
                base as nat,
                received@,
                j as nat,
            ),
        forall|c: Seq<u8>, i: int|
            #![trigger corrects(p, base as nat, ecc, erased, received@, c), c[i]]
            corrects(p, base as nat, ecc, erased, received@, c) && 0 <= i < received@.len()
                && received@[i] != c[i] ==> exists|m: int|
                0 <= m < suspects@.len() && #[trigger] suspects@[m] == i,
    ensures
        forall|c: Seq<u8>| #[trigger]
            corrects(p, base as nat, ecc, erased, received@, c) ==> value
                == c[suspects@[k as int] as int],
{
    let q: usize = suspects[k];
    let others = without(suspects, q);
    proof {
        assert forall|m: int| 0 <= m < others@.len() implies #[trigger] others@[m] < xs@.len() by {
            let j = choose|j: int| 0 <= j < suspects@.len() && suspects@[j] == others@[m];
            assert(suspects@[j] < received@.len());
        }
    }
    let v = cancel(p, sums, xs, others.as_slice(), Ghost(base as nat));
    let by: u8 = divisor(p, base, xs, others.as_slice(), q);
    proof {
        let n = xs@.len();
        lemma_distance_product(p, n, others@, q as int);
        lemma_locators(p, n, q as int, q as int);
        lemma_pow_nonzero(p, locator(p, n, q as int), base as nat);
        if by == 0 {
            lemma_mul_nonzero(
                p,
                distance_product(p, n, others@, q as int),
                gpow(p, locator(p, n, q as int), base as nat),
            );
        }
    }
    let inv: u8 = inverse_in(p, by);
    let error: u8 = mul_in(p, v[0], inv);
    let value: u8 = received[q] ^ error;
    proof {
        assert forall|c: Seq<u8>| #[trigger]
            corrects(p, base as nat, ecc, erased, received@, c) implies value == c[q as int] by {
            lemma_error_sums(p, base as nat, ecc, received@, c, sums@);
            assert(sums_of(p, base as nat, error_word(received@, c), sums@));
            assert forall|i: int| 0 <= i < received@.len() && received@[i]
                != c[i] implies exists|m: int|
                0 <= m < suspects@.len() && #[trigger] suspects@[m] == i by {
                let at = c[i];
            }
            lemma_solved(p, base as nat, received@, c, suspects@, others@, q as int, v@, by, inv);
        }
    }
    value
}

/// The only word that a correction can be: the received one with the suspects solved for.
fn solve(
    p: u8,
    base: usize,
    received: &[u8],
    sums: &[u8],
    xs: &[u8],
    suspects: &[usize],
    Ghost(ecc): Ghost<nat>,
    Ghost(erased): Ghost<Set<int>>,
) -> (out: Vec<u8>)
    requires
        is_field(p),
        received@.len() <= 255,
        xs@.len() == received@.len(),
        forall|i: int| 0 <= i < xs@.len() ==> #[trigger] xs@[i] == locator(p, xs@.len(), i),
        ascending(suspects@),
        forall|m: int| 0 <= m < suspects@.len() ==> #[trigger] suspects@[m] < received@.len(),
        suspects@.len() <= sums@.len(),
        sums@.len() == ecc,
        forall|j: int|
            0 <= j < ecc ==> #[trigger] sums@[j] == syndrome(
                p,
                base as nat,
                received@,
                j as nat,
            ),
        forall|c: Seq<u8>, i: int|
            #![trigger corrects(p, base as nat, ecc, erased, received@, c), c[i]]
            corrects(p, base as nat, ecc, erased, received@, c) && 0 <= i < received@.len()
                && received@[i] != c[i] ==> exists|m: int|
                0 <= m < suspects@.len() && #[trigger] suspects@[m] == i,
    ensures
        out@.len() == received@.len(),
        forall|i: int|
            0 <= i < received@.len() && out@[i] != received@[i] ==> exists|m: int|
                0 <= m < suspects@.len() && #[trigger] suspects@[m] == i,
        forall|c: Seq<u8>| #[trigger]
            corrects(p, base as nat, ecc, erased, received@, c) ==> out@ == c,
{
    let mut out: Vec<u8> = Vec::new();
    out.extend_from_slice(received);
    assert(out@ =~= received@);
    let mut k: usize = 0;
    while k < suspects.len()
        invariant
            is_field(p),
            received@.len() <= 255,
            xs@.len() == received@.len(),
            forall|i: int| 0 <= i < xs@.len() ==> #[trigger] xs@[i] == locator(p, xs@.len(), i),
            ascending(suspects@),
            forall|m: int| 0 <= m < suspects@.len() ==> #[trigger] suspects@[m] < received@.len(),
            suspects@.len() <= sums@.len(),
            sums@.len() == ecc,
            forall|j: int|
                0 <= j < ecc ==> #[trigger] sums@[j] == syndrome(
                    p,
                    base as nat,
                    received@,
                    j as nat,
                ),
            forall|c: Seq<u8>, i: int|
                #![trigger corrects(p, base as nat, ecc, erased, received@, c), c[i]]
                corrects(p, base as nat, ecc, erased, received@, c) && 0 <= i < received@.len()
                    && received@[i] != c[i] ==> exists|m: int|
                    0 <= m < suspects@.len() && #[trigger] suspects@[m] == i,
            k <= suspects@.len(),
            out@.len() == received@.len(),
            forall|i: int|
                0 <= i < received@.len() && out@[i] != received@[i] ==> exists|m: int|
                    0 <= m < suspects@.len() && #[trigger] suspects@[m] == i,
            forall|c: Seq<u8>| #[trigger]
                corrects(p, base as nat, ecc, erased, received@, c) ==> agrees_at(
                    out@,
                    c,
                    suspects@,
                    k as int,
                ),
        decreases suspects@.len() - k,
    {
        let ghost was = out@;
        let q: usize = suspects[k];
        let value: u8 = solve_one(
            p,
            base,
            received,
            sums,
            xs,
            suspects,
            k,
            Ghost(ecc),
            Ghost(erased),
        );
        out.set(q, value);
        proof {
            assert forall|c: Seq<u8>| #[trigger]
                corrects(p, base as nat, ecc, erased, received@, c) implies agrees_at(
                out@,
                c,
                suspects@,
                k + 1,
            ) by {
                assert(out@[q as int] == c[q as int]);
                assert(agrees_at(was, c, suspects@, k as int));
                assert forall|m: int| 0 <= m < k + 1 implies out@[#[trigger] suspects@[m] as int]
                    == c[suspects@[m] as int] by {
                    if m < k {
                        assert(suspects@[m] < suspects@[k as int]);
                        assert(was[suspects@[m] as int] == c[suspects@[m] as int]);
                    }
                }
            }
            assert forall|i: int|
                0 <= i < received@.len() && out@[i] != received@[i] implies exists|m: int|
                0 <= m < suspects@.len() && #[trigger] suspects@[m] == i by {
                if i == q {
                    assert(suspects@[k as int] == i);
                } else {
                    assert(was[i] != received@[i]);
                }
            }
        }
        k = k + 1;
    }
    proof {
        assert forall|c: Seq<u8>| #[trigger]
            corrects(p, base as nat, ecc, erased, received@, c) implies out@ == c by {
            assert(agrees_at(out@, c, suspects@, suspects@.len() as int));
            assert forall|i: int| 0 <= i < out@.len() implies out@[i] == c[i] by {
                if received@[i] != c[i] || out@[i] != received@[i] {
                    let m = choose|m: int| 0 <= m < suspects@.len() && #[trigger] suspects@[m] == i;
                    assert(out@[suspects@[m] as int] == c[suspects@[m] as int]);
                }
            }
            assert(out@ =~= c);
        }
    }
    out
}

/// The positions in which two words of one length differ, ascending.
pub fn differing_positions(a: &[u8], b: &[u8]) -> (r: Vec<usize>)
    requires
        a@.len() == b@.len(),
    ensures
        lists(r@, differing(a@, b@)),
{
    let mut flags: Vec<bool> = Vec::new();
    let mut i: usize = 0;
    while i < a.len()
        invariant
            a@.len() == b@.len(),
            i <= a@.len(),
            flags@.len() == i,
            forall|k: int| 0 <= k < i ==> #[trigger] flags@[k] == (a@[k] != b@[k]),
        decreases a@.len() - i,
    {
        flags.push(a[i] != b[i]);
        i = i + 1;
    }
    assert(set_positions(flags@) =~= differing(a@, b@));
    positions_set(flags.as_slice())
}

/// Corrects a received word in which the listed positions are erased.
///
/// Returns the codeword and the positions in which it differs from what was received, or nothing when
/// no codeword is within the budget of `ecc` units: one for each erasure, two for each other change.
pub fn decode_with_erasures(
    p: u8,
    base: usize,
    received: &[u8],
    ecc: usize,
    erasures: &[usize],
) -> (r: Option<(Vec<u8>, Vec<usize>)>)
    requires
        is_field(p),
        received@.len() <= 255,
        base + ecc <= usize::MAX,
        ascending(erasures@),
        forall|k: int| 0 <= k < erasures@.len() ==> #[trigger] erasures@[k] < received@.len(),
    ensures
        match r {
            Some((c, damaged)) => corrects(
                p,
                base as nat,
                ecc as nat,
                listed(erasures@),
                received@,
                c@,
            ) && lists(damaged@, differing(received@, c@)),
            None => forall|c: Seq<u8>|
                !corrects(p, base as nat, ecc as nat, listed(erasures@), received@, c),
        },
{
    let ghost erased = listed(erasures@);
    let ghost basen = base as nat;
    proof {
        assert(lists(erasures@, erased)) by {
            assert forall|k: int| 0 <= k < erasures@.len() implies erased.contains(
                #[trigger] erasures@[k] as int,
            ) by {}
            assert forall|i: int| erased.contains(i) implies exists|k: int|
                0 <= k < erasures@.len() && erasures@[k] == i by {}
        }
        crate::order::lemma_lists_len(erasures@, erased);
    }
    let e: usize = erasures.len();
    if e > ecc {
        return None;
    }
    let n: usize = received.len();
    let xs = locators(p, n);
    let sums = syndromes(p, base, received, ecc);
    let rest = cancel(p, sums.as_slice(), xs.as_slice(), erasures, Ghost(basen));
    let t: usize = (ecc - e) / 2;
    let l = annihilator(p, rest.as_slice(), t);
    let suspects = find_suspects(p, xs.as_slice(), erasures, l.as_slice());
    let ghost set = suspect_set(p, n as nat, erasures@, l@);
    proof {
        lemma_suspect_count(p, n as nat, erasures@, l@);
        crate::order::lemma_lists_len(suspects@, set);
        assert forall|m: int| 0 <= m < suspects@.len() implies #[trigger] suspects@[m]
            < received@.len() by {
            assert(set.contains(suspects@[m] as int));
        }
        assert forall|c: Seq<u8>, i: int|
            #![trigger corrects(p, basen, ecc as nat, erased, received@, c), c[i]]
            corrects(p, basen, ecc as nat, erased, received@, c) && 0 <= i < received@.len()
                && received@[i] != c[i] implies exists|m: int|
            0 <= m < suspects@.len() && #[trigger] suspects@[m] == i by {
            if !erased.contains(i) {
                lemma_error_sums(p, basen, ecc as nat, received@, c, sums@);
                assert(sums_of(p, basen, error_word(received@, c), sums@));
                lemma_errors_are_roots(
                    p,
                    basen,
                    ecc as nat,
                    received@,
                    c,
                    erasures@,
                    sums@,
                    rest@,
                    t as nat,
                    l@,
                    i,
                );
            }
            assert(set.contains(i));
        }
    }
    let out = solve(
        p,
        base,
        received,
        sums.as_slice(),
        xs.as_slice(),
        suspects.as_slice(),
        Ghost(ecc as nat),
        Ghost(erased),
    );
    let checks = syndromes(p, base, out.as_slice(), ecc);
    let mut j: usize = 0;
    while j < ecc
        invariant
            j <= ecc,
            checks@.len() == ecc,
            out@.len() == received@.len(),
            erased == listed(erasures@),
            basen == base,
            forall|k: int|
                0 <= k < ecc ==> #[trigger] checks@[k] == syndrome(p, basen, out@, k as nat),
            forall|k: int| 0 <= k < j ==> checks@[k] == 0,
            forall|c: Seq<u8>| #[trigger]
                corrects(p, basen, ecc as nat, erased, received@, c) ==> out@ == c,
        decreases ecc - j,
    {
        if checks[j] != 0 {
            proof {
                assert(syndrome(p, basen, out@, j as nat) != 0);
                assert(!is_codeword(p, basen, ecc as nat, out@));
            }
            return None;
        }
        j = j + 1;
    }
    let damaged = differing_positions(received, out.as_slice());
    proof {
        assert forall|k: nat| k < ecc implies #[trigger] syndrome(p, basen, out@, k) == 0 by {
            assert(checks@[k as int] == 0);
        }
        let changed = differing(received@, out@).difference(erased);
        let free = set.difference(erased);
        assert forall|i: int| changed.contains(i) implies free.contains(i) by {
            let m = choose|m: int| 0 <= m < suspects@.len() && #[trigger] suspects@[m] == i;
            assert(set.contains(suspects@[m] as int));
        }
        assert forall|i: int| erased.contains(i) implies set.contains(i) by {
            let k = choose|k: int| 0 <= k < erasures@.len() && #[trigger] erasures@[k] == i;
        }
        lemma_len_difference(set, erased);
        vstd::set_lib::lemma_len_subset(changed, free);
    }
    Some((out, damaged))
}

/// A set without a subset is smaller by the subset's size.
proof fn lemma_len_difference(a: Set<int>, b: Set<int>)
    requires
        a.finite(),
        b.finite(),
        forall|i: int| b.contains(i) ==> a.contains(i),
    ensures
        a.difference(b).finite(),
        a.difference(b).len() == a.len() - b.len(),
    decreases b.len(),
{
    if b.len() == 0 {
        assert(b =~= Set::empty());
        assert(a.difference(b) =~= a);
    } else {
        let x = b.choose();
        lemma_len_difference(a.remove(x), b.remove(x));
        assert(a.difference(b) =~= a.remove(x).difference(b.remove(x)));
    }
}

/// No received word has two corrections.
pub proof fn law_corrections_are_unique(
    p: u8,
    base: nat,
    ecc: nat,
    erased: Set<int>,
    received: Seq<u8>,
    c: Seq<u8>,
    d: Seq<u8>,
)
    requires
        is_field(p),
        received.len() <= 255,
        erased.finite(),
        corrects(p, base, ecc, erased, received, c),
        corrects(p, base, ecc, erased, received, d),
    ensures
        c == d,
{
    let n = received.len();
    let w = error_word(c, d);
    let all = vstd::set_lib::set_int_range(0, n as int);
    vstd::set_lib::lemma_int_range(0, n as int);
    let first = differing(received, c).difference(erased);
    let second = differing(received, d).difference(erased);
    vstd::set_lib::lemma_len_subset(first, all);
    vstd::set_lib::lemma_len_subset(second, all);
    let support = Set::new(|i: int| 0 <= i < n && c[i] != d[i]);
    let both = erased.union(first.union(second));
    vstd::set_lib::lemma_len_union(first, second);
    vstd::set_lib::lemma_len_union(erased, first.union(second));
    vstd::set_lib::lemma_len_subset(support, both);
    let f = lemma_listing(support);
    assert forall|j: nat| j < f.len() implies #[trigger] syndrome(p, base, w, j) == 0 by {
        lemma_power_sum_add(p, n, c, d, w, base + j, n);
        assert(syndrome(p, base, c, j) == 0);
        assert(syndrome(p, base, d, j) == 0);
        lemma_add(0, 0, 0);
    }
    assert forall|i: int| 0 <= i < w.len() && !f.contains(i) implies w[i] == 0 by {
        lemma_add(c[i], c[i], 0);
    }
    lemma_vandermonde(p, base, w, f);
    assert forall|i: int| 0 <= i < n implies c[i] == d[i] by {
        assert(w[i] == 0);
        lemma_add(c[i], d[i], 0);
    }
    assert(c =~= d);
}

/// Knowing where the damage is doubles what can be repaired: damage to as many positions as there are
/// error-correction codewords is corrected when all of them are declared erased, and damage to half as
/// many when none is.
pub proof fn law_erasures_double_the_reach(
    p: u8,
    base: nat,
    ecc: nat,
    received: Seq<u8>,
    sent: Seq<u8>,
)
    requires
        is_codeword(p, base, ecc, sent),
        sent.len() == received.len(),
    ensures
        differing(received, sent).len() <= ecc ==> corrects(
            p,
            base,
            ecc,
            differing(received, sent),
            received,
            sent,
        ),
        2 * differing(received, sent).len() <= ecc ==> corrects(
            p,
            base,
            ecc,
            Set::empty(),
            received,
            sent,
        ),
{
    let wrong = differing(received, sent);
    assert(wrong.difference(wrong) =~= Set::empty());
    assert(wrong.difference(Set::empty()) =~= wrong);
}

/// A codeword is its own correction.
pub proof fn law_codewords_need_no_correction(p: u8, base: nat, ecc: nat, c: Seq<u8>)
    requires
        is_codeword(p, base, ecc, c),
    ensures
        corrects(p, base, ecc, Set::empty(), c, c),
        differing(c, c) == Set::<int>::empty(),
{
    assert(differing(c, c) =~= Set::empty());
    assert(Set::<int>::empty().difference(Set::empty()) =~= Set::empty());
}

/// The value of the polynomial whose coefficients a word lists, the first of the highest degree.
pub open spec fn evaluated(p: u8, c: Seq<u8>, x: u8) -> u8
    decreases c.len(),
{
    if c.len() == 0 {
        0
    } else {
        gadd(gmul(p, evaluated(p, c.drop_last(), x), x), c.last())
    }
}

/// The value of a word's polynomial at the `j`th root of the generator, a power of two from the
/// `base`th on.
pub open spec fn value_at_root(p: u8, base: nat, c: Seq<u8>, j: nat) -> u8 {
    evaluated(p, c, gpow(p, 2, base + j))
}

/// Codewords are the words whose polynomials have the generator's roots, as many consecutive powers of
/// two as there are codewords for correcting errors.
pub proof fn law_codewords_have_the_generators_roots(p: u8, base: nat, ecc: nat, c: Seq<u8>)
    requires
        is_field(p),
    ensures
        is_codeword(p, base, ecc, c) <==> forall|j: nat|
            j < ecc ==> #[trigger] value_at_root(p, base, c, j) == 0,
{
    assert forall|j: nat| #[trigger] syndrome(p, base, c, j) == value_at_root(p, base, c, j) by {
        lemma_power_sum_evaluates(p, c, base + j, c.len());
        assert(c.take(c.len() as int) =~= c);
        lemma_exp_is_power_of_two(p, base + j);
        lemma_mul_one(p, value_at_root(p, base, c, j));
    }
    if forall|j: nat| j < ecc ==> #[trigger] value_at_root(p, base, c, j) == 0 {
        assert forall|j: nat| j < ecc implies #[trigger] syndrome(p, base, c, j) == 0 by {
            assert(value_at_root(p, base, c, j) == 0);
        }
    }
    if is_codeword(p, base, ecc, c) {
        assert forall|j: nat| j < ecc implies #[trigger] value_at_root(p, base, c, j) == 0 by {
            assert(syndrome(p, base, c, j) == 0);
        }
    }
}

/// The powers of `x` are those of two.
proof fn lemma_exp_is_power_of_two(p: u8, n: nat)
    requires
        is_field(p),
    ensures
        gexp(p, n) == gpow(p, 2, n),
    decreases n,
{
    if n > 0 {
        let a = gexp(p, (n - 1) as nat);
        lemma_exp_is_power_of_two(p, (n - 1) as nat);
        assert(1u8 << 1u8 == 2u8) by (bit_vector);
        assert(gexp(p, 0) == 1);
        assert(gexp(p, 1) == 2);
        lemma_exp_add(p, 1, (n - 1) as nat);
        assert(1 + (n - 1) as nat == n);
    }
}

/// A power of a power of `x`.
proof fn lemma_power_of_exp(p: u8, a: nat, k: nat)
    requires
        is_field(p),
    ensures
        gpow(p, gexp(p, a), k) == gexp(p, a * k),
    decreases k,
{
    if k == 0 {
        assert(a * k == 0) by (nonlinear_arith)
            requires
                k == 0,
        ;
    } else {
        let l = (k - 1) as nat;
        lemma_power_of_exp(p, a, l);
        lemma_exp_add(p, a, a * l);
        assert(a + a * l == a * k) by (nonlinear_arith)
            requires
                l == k - 1,
        ;
    }
}

/// The sum of the first `m` weights is the value of their polynomial, shifted by the degree of what
/// follows.
proof fn lemma_power_sum_evaluates(p: u8, w: Seq<u8>, k: nat, m: nat)
    requires
        is_field(p),
        m <= w.len(),
    ensures
        power_sum(p, w.len(), w, k, m) == gmul(
            p,
            gpow(p, gexp(p, k), (w.len() - m) as nat),
            evaluated(p, w.take(m as int), gexp(p, k)),
        ),
    decreases m,
{
    let n = w.len();
    let x = gexp(p, k);
    let shift = gpow(p, x, (n - m) as nat);
    if m == 0 {
        lemma_mul_zero(p, shift);
    } else {
        let l = (m - 1) as nat;
        let before = evaluated(p, w.take(l as int), x);
        lemma_power_sum_evaluates(p, w, k, l);
        assert(w.take(m as int).drop_last() =~= w.take(l as int));
        assert(w.take(m as int).last() == w[l as int]);
        assert(gpow(p, x, (n - l) as nat) == gmul(p, x, shift));
        lemma_power_of_exp(p, (n - m) as nat, k);
        lemma_power_of_exp(p, k, (n - m) as nat);
        assert((n - m) * k == k * (n - m)) by (nonlinear_arith);
        assert(gpow(p, locator(p, n, l as int), k) == shift);
        lemma_mul_add(p, shift, gmul(p, before, x), w[l as int]);
        lemma_mul_commutes(p, shift, w[l as int]);
        lemma_mul_commutes(p, x, shift);
        lemma_mul_associates(p, shift, x, before);
        lemma_mul_commutes(p, x, before);
    }
}

} // verus!
