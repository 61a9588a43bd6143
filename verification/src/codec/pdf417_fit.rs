//! How many codewords a PDF417 symbol claims to have.
//!
//! The reader of rows takes the shape of a symbol from the row indicators at one side of it, and makes room
//! for that many codewords. The places of those it cannot read it looks up among the powers of a field, of
//! which there are 929: a symbol that claims more must not come before it. So the indicators are read here
//! first, row by row and as that reader reads them, and what most of them say is the claim.
use vstd::prelude::*;
use rxing::pdf417::decoder::pdf_417_codeword_decoder;
use crate::clean::pdf417::{max_codeword_width, min_codeword_width, narrowest, widest};
use crate::codec::pdf417::{
    pdf_located, pdf_symbol, pdf_value, symbol_at, value_at, Located, CODEWORDS, PATTERNS,
};

verus! {

/// The most codewords that a symbol may claim.
pub const MOST_CLAIMED: usize = 929;

/// The bars and spaces of a codeword.
pub const BARS: usize = 8;

/// How far the edge of a codeword may be from where it is looked for.
pub const SKEW: usize = 2;

/// The widest row of pixels that indicators are read in.
pub const WIDEST_ROW: usize = 0x0fff_ffff;

/// The most words of 32 pixels that an image may take. The reader tells that it has left an image on the
/// left by an offset of that many words.
pub const MOST_WORDS: u64 = 0x07ff_ffff;

/// Remainders that a row indicator speaks in.
pub const REMAINDERS: usize = 30;

// ---- edges ----
/// Where a walk along the pixels of a row ends: at a pixel of the other colour, too far away to be an edge,
/// or off the image.
#[derive(Clone, Copy, Debug)]
pub enum Walk {
    At(usize),
    Far,
    Off,
}

/// The walk from `c` over pixels that are `dark`, for an edge near `s`.
pub open spec fn walk(row: Seq<bool>, s: int, c: int, dark: bool, ahead: bool) -> Walk
    decreases
            if ahead {
                row.len() - c
            } else {
                c + 1
            },
{
    if c < 0 || c >= row.len() {
        Walk::Off
    } else if row[c] != dark {
        Walk::At(c as usize)
    } else if c - s > SKEW || s - c > SKEW {
        Walk::Far
    } else if ahead {
        walk(row, s, c + 1, dark, ahead)
    } else {
        walk(row, s, c - 1, dark, ahead)
    }
}

/// Walks from `c`.
fn walk_from(row: &[bool], s: usize, c: usize, dark: bool, ahead: bool) -> (r: Walk)
    requires
        c < row@.len(),
    ensures
        r == walk(row@, s as int, c as int, dark, ahead),
        r matches Walk::At(d) ==> d < row@.len(),
{
    let mut at: usize = c;
    while row[at] == dark
        invariant
            at < row@.len(),
            walk(row@, s as int, at as int, dark, ahead) == walk(
                row@,
                s as int,
                c as int,
                dark,
                ahead,
            ),
        decreases
                if ahead {
                    row@.len() - at
                } else {
                    at + 1
                },
    {
        let away: usize = if at >= s {
            at - s
        } else {
            s - at
        };
        if away > SKEW {
            return Walk::Far;
        }
        if ahead {
            if at + 1 >= row.len() {
                assert(walk(row@, s as int, at + 1, dark, ahead) == Walk::Off);
                return Walk::Off;
            }
            at = at + 1;
        } else {
            if at == 0 {
                assert(walk(row@, s as int, at - 1, dark, ahead) == Walk::Off);
                return Walk::Off;
            }
            at = at - 1;
        }
    }
    Walk::At(at)
}

/// The edge of a codeword that is looked for at `s`, from the left or from the right; none where the walk
/// to it leaves the image.
pub open spec fn edge(row: Seq<bool>, s: int, left: bool) -> Option<usize> {
    match walk(row, s, s, left, !left) {
        Walk::At(c) => match walk(row, s, c as int, !left, left) {
            Walk::At(d) => Some(d),
            Walk::Far => Some(s as usize),
            Walk::Off => None,
        },
        Walk::Far => Some(s as usize),
        Walk::Off => None,
    }
}

/// Finds the edge of a codeword.
fn find_edge(row: &[bool], s: usize, left: bool) -> (r: Option<usize>)
    requires
        s < row@.len(),
    ensures
        r == edge(row@, s as int, left),
        r is Some ==> r->0 < row@.len(),
{
    match walk_from(row, s, s, left, !left) {
        Walk::At(c) => match walk_from(row, s, c, !left, left) {
            Walk::At(d) => Some(d),
            Walk::Far => Some(s),
            Walk::Off => None,
        },
        Walk::Far => Some(s),
        Walk::Off => None,
    }
}

// ---- bars ----
/// No bars yet.
pub open spec fn no_bars() -> Seq<u32> {
    Seq::new(BARS as nat, |k: int| 0u32)
}

/// The widths of bars and spaces from `c` on, `n` of which are done; none where the row ends before.
pub open spec fn bars_from(row: Seq<bool>, c: int, left: bool, n: int, bars: Seq<u32>) -> Option<
    Seq<u32>,
>
    decreases
            if left {
                row.len() - c
            } else {
                c + 1
            },
            BARS - n,
{
    if n >= BARS {
        Some(bars)
    } else if c < 0 || c >= row.len() {
        if left && n == BARS - 1 {
            Some(bars)
        } else {
            None
        }
    } else if row[c] == (left == (n % 2 == 0)) {
        bars_from(
            row,
            if left {
                c + 1
            } else {
                c - 1
            },
            left,
            n,
            bars.update(n, (bars[n] + 1) as u32),
        )
    } else {
        bars_from(row, c, left, n + 1, bars)
    }
}

/// Measures bars and spaces.
fn measure_bars(row: &[bool], c: usize, left: bool) -> (r: Option<Vec<u32>>)
    requires
        c < row@.len() <= WIDEST_ROW,
    ensures
        r is Some <==> bars_from(row@, c as int, left, 0, no_bars()) is Some,
        r is Some ==> bars_from(row@, c as int, left, 0, no_bars()) == Some(r->0@),
        r is Some ==> r->0@.len() == BARS,
        r is Some ==> forall|k: int| 0 <= k < BARS ==> #[trigger] r->0@[k] <= row@.len(),
{
    let mut bars: Vec<u32> = Vec::with_capacity(BARS);
    for k in 0..BARS
        invariant
            bars@.len() == k,
            forall|i: int| 0 <= i < k ==> #[trigger] bars@[i] == 0,
    {
        bars.push(0);
    }
    assert(bars@ =~= no_bars());
    let end: i64 = row.len() as i64;
    let mut at: i64 = c as i64;
    let mut n: usize = 0;
    let mut steps: u32 = 0;
    while n < BARS && 0 <= at && at < end
        invariant
            end == row@.len() <= WIDEST_ROW,
            -1 <= at <= end,
            n <= BARS,
            bars@.len() == BARS,
            steps == if left {
                at - c
            } else {
                c - at
            },
            0 <= c < end,
            forall|k: int| 0 <= k < BARS ==> #[trigger] bars@[k] <= steps,
            bars_from(row@, at as int, left, n as int, bars@) == bars_from(
                row@,
                c as int,
                left,
                0,
                no_bars(),
            ),
        decreases
                if left {
                    end - at
                } else {
                    at + 1
                },
                BARS - n,
    {
        if row[at as usize] == (left == (n % 2 == 0)) {
            let wider: u32 = bars[n] + 1;
            bars.set(n, wider);
            steps = steps + 1;
            if left {
                at = at + 1;
            } else {
                at = at - 1;
            }
        } else {
            n = n + 1;
        }
    }
    if n == BARS || (left && n == BARS - 1) {
        Some(bars)
    } else {
        None
    }
}

/// How wide bars and spaces are together.
pub open spec fn total(bars: Seq<u32>) -> int {
    bars[0] + bars[1] + bars[2] + bars[3] + bars[4] + bars[5] + bars[6] + bars[7]
}

/// The pattern that bars and spaces are closest to.
pub uninterp spec fn pdf_closest(bars: Seq<u32>) -> u32;

/// Calls `rxing::pdf417::decoder::pdf_417_codeword_decoder::getDecodedValue`.
#[verifier::external_body]
pub(crate) fn closest(bars: &[u32]) -> (r: u32)
    requires
        bars@.len() == BARS,
        1 <= total(bars@) <= u32::MAX,
    ensures
        r == pdf_closest(bars@),
{
    pdf_417_codeword_decoder::getDecodedValue(bars)
}

/// The first place of a pattern in the crate's table, from place `k` on.
pub open spec fn place_of(symbol: u32, k: nat) -> Option<nat>
    decreases PATTERNS - k,
{
    if k >= PATTERNS {
        None
    } else if pdf_symbol(k) == symbol {
        Some(k)
    } else {
        place_of(symbol, k + 1)
    }
}

/// The codeword in a cluster that a pattern stands for, counted through all clusters from zero.
pub open spec fn number_of(symbol: u32) -> Option<u32> {
    match place_of(symbol, 0) {
        Some(place) => Some((pdf_value(place) - 1) as u32),
        None => None,
    }
}

/// Looks a pattern up.
fn look_up(symbol: u32) -> (r: Option<u32>)
    ensures
        r == number_of(symbol),
{
    let mut k: usize = 0;
    while k < PATTERNS
        invariant
            k <= PATTERNS,
            place_of(symbol, k as nat) == place_of(symbol, 0),
        decreases PATTERNS - k,
    {
        if symbol_at(k) == symbol {
            let value: u32 = value_at(k);
            return Some(value - 1);
        }
        k = k + 1;
    }
    None
}

// ---- indicators ----
/// Whether bars and spaces are as wide as a codeword may be.
pub open spec fn is_fitting(bars: Seq<u32>, min: u32, max: u32) -> bool {
    1 <= total(bars) && min - SKEW <= total(bars) <= max + SKEW
}

/// The row indicator that is looked for at `s` in a row: where the one in the next row is looked for, and the
/// codeword, where there is one. None where the search leaves the image.
pub open spec fn indicator(row: Seq<bool>, s: int, left: bool, min: u32, max: u32) -> Option<
    (usize, Option<u32>),
> {
    match edge(row, s, left) {
        Some(c) => Some(
            match bars_from(row, c as int, left, 0, no_bars()) {
                Some(bars) => {
                    let bars = if left {
                        bars
                    } else {
                        bars.reverse()
                    };
                    match number_of(pdf_closest(bars)) {
                        Some(number) if is_fitting(bars, min, max) => (c, Some(number)),
                        _ => (s as usize, None),
                    }
                },
                None => (s as usize, None),
            },
        ),
        None => None,
    }
}

/// Reads a row indicator.
fn read_indicator(row: &[bool], s: usize, left: bool, min: u32, max: u32) -> (r: Option<
    (usize, Option<u32>),
>)
    requires
        s < row@.len() <= WIDEST_ROW,
    ensures
        r == indicator(row@, s as int, left, min, max),
        r is Some ==> (r->0).0 < row@.len(),
{
    let c: usize = match find_edge(row, s, left) {
        Some(c) => c,
        None => {
            return None;
        },
    };
    let mut bars = match measure_bars(row, c, left) {
        Some(bars) => bars,
        None => {
            return Some((s, None));
        },
    };
    if !left {
        let ghost was = bars@;
        let turned: Vec<u32> = vec![
            bars[7],
            bars[6],
            bars[5],
            bars[4],
            bars[3],
            bars[2],
            bars[1],
            bars[0],
        ];
        bars = turned;
        assert(bars@ =~= was.reverse());
    }
    let wide: u64 = bars[0] as u64 + bars[1] as u64 + bars[2] as u64 + bars[3] as u64 + bars[4] as u64
        + bars[5] as u64 + bars[6] as u64 + bars[7] as u64;
    assert(wide == total(bars@));
    if wide < 1 || wide + (SKEW as u64) < min as u64 || wide > max as u64 + SKEW as u64 {
        return Some((s, None));
    }
    match look_up(closest(bars.as_slice())) {
        Some(number) => Some((c, Some(number))),
        None => Some((s, None)),
    }
}

/// How row indicators are looked for: from a corner of the area of the codewords, on one side of it, with
/// bounds on the width of a codeword.
#[derive(Clone, Copy, Debug)]
pub struct Search {
    pub x: u32,
    pub y: u32,
    pub left: bool,
    pub min: u32,
    pub max: u32,
}

/// A row of pixels.
pub open spec fn pixel_row(pixels: Seq<bool>, width: int, y: int) -> Seq<bool> {
    pixels.subrange(y * width, y * width + width)
}

/// The row indicator in row `y`: the search goes up and down from the row of the corner, and in each row
/// looks where it found the last one.
pub open spec fn indicator_in(pixels: Seq<bool>, width: int, search: Search, y: int) -> Option<
    (usize, Option<u32>),
>
    decreases
            if y >= search.y {
                y - search.y
            } else {
                search.y - y
            },
{
    if y == search.y {
        indicator(
            pixel_row(pixels, width, y),
            search.x as int,
            search.left,
            search.min,
            search.max,
        )
    } else {
        let before = if y > search.y {
            y - 1
        } else {
            y + 1
        };
        match indicator_in(pixels, width, search, before) {
            Some((s, _)) => indicator(
                pixel_row(pixels, width, y),
                s as int,
                search.left,
                search.min,
                search.max,
            ),
            None => None,
        }
    }
}

/// Whether no search leaves the image, in any of the rows.
pub open spec fn are_inside(pixels: Seq<bool>, width: int, height: int, search: Search) -> bool {
    forall|y: int|
        0 <= y < height ==> #[trigger] indicator_in(pixels, width, search, y) is Some
}

/// The row indicators of all rows.
pub open spec fn indicators(pixels: Seq<bool>, width: int, height: nat, search: Search) -> Seq<
    Option<u32>,
> {
    Seq::new(height, |y: int| (indicator_in(pixels, width, search, y)->0).1)
}

/// A row of pixels.
fn row_at(pixels: &[bool], width: usize, height: usize, y: usize) -> (r: Vec<bool>)
    requires
        pixels@.len() == width * height,
        y < height,
    ensures
        r@ == pixel_row(pixels@, width as int, y as int),
        r@.len() == width,
{
    proof {
        assert(y * width + width <= width * height) by (nonlinear_arith)
            requires
                y < height,
        ;
        assert(0 <= y * width) by (nonlinear_arith);
        assert(pixels.len() == pixels@.len());
    }
    let from: usize = y * width;
    let mut row: Vec<bool> = Vec::with_capacity(width);
    for x in 0..width
        invariant
            from == y * width,
            from + width <= pixels.len(),
            row@.len() == x,
            forall|k: int| 0 <= k < x ==> #[trigger] row@[k] == pixels@[from + k],
    {
        row.push(pixels[from + x]);
    }
    assert(row@ =~= pixel_row(pixels@, width as int, y as int));
    row
}

/// Reads the row indicators of all rows.
fn read_indicators(pixels: &[bool], width: usize, height: usize, search: Search) -> (r: Option<
    Vec<Option<u32>>,
>)
    requires
        pixels@.len() == width * height,
        width <= WIDEST_ROW,
        search.x < width,
        search.y < height,
    ensures
        r is Some <==> are_inside(pixels@, width as int, height as int, search),
        r is Some ==> r->0@ == indicators(pixels@, width as int, height as nat, search),
{
    let ghost w = width as int;
    let top: usize = search.y as usize;
    let mut out: Vec<Option<u32>> = Vec::with_capacity(height);
    for y in 0..height
        invariant
            out@.len() == y,
    {
        out.push(None);
    }
    let mut s: usize = search.x as usize;
    let mut y: usize = top;
    let mut first: usize = s;
    while y < height
        invariant
            pixels@.len() == width * height,
            width <= WIDEST_ROW,
            w == width,
            top == search.y,
            search.x < width,
            top <= y <= height,
            top < height,
            s < width,
            first < width,
            out@.len() == height,
            y == top ==> s == search.x,
            y > top ==> indicator_in(pixels@, w, search, y - 1) is Some && (indicator_in(
                pixels@,
                w,
                search,
                y - 1,
            )->0).0 == s,
            y > top ==> (indicator_in(pixels@, w, search, top as int)->0).0 == first,
            forall|k: int|
                top <= k < y ==> #[trigger] indicator_in(pixels@, w, search, k) is Some && (
                indicator_in(pixels@, w, search, k)->0).1 == out@[k],
        decreases height - y,
    {
        let row = row_at(pixels, width, height, y);
        match read_indicator(row.as_slice(), s, search.left, search.min, search.max) {
            Some((next, number)) => {
                assert(indicator_in(pixels@, w, search, y as int) == Some((next, number)));
                out.set(y, number);
                s = next;
                if y == top {
                    first = next;
                }
            },
            None => {
                assert(indicator_in(pixels@, w, search, y as int) is None);
                return None;
            },
        }
        y = y + 1;
    }
    s = first;
    y = top;
    while y > 0
        invariant
            pixels@.len() == width * height,
            width <= WIDEST_ROW,
            w == width,
            top == search.y,
            y <= top < height,
            s < width,
            out@.len() == height,
            indicator_in(pixels@, w, search, y as int) is Some,
            (indicator_in(pixels@, w, search, y as int)->0).0 == s,
            forall|k: int|
                y <= k < height ==> #[trigger] indicator_in(pixels@, w, search, k) is Some && (
                indicator_in(pixels@, w, search, k)->0).1 == out@[k],
        decreases y,
    {
        y = y - 1;
        let row = row_at(pixels, width, height, y);
        match read_indicator(row.as_slice(), s, search.left, search.min, search.max) {
            Some((next, number)) => {
                assert(indicator_in(pixels@, w, search, y as int) == Some((next, number)));
                out.set(y, number);
                s = next;
            },
            None => {
                assert(indicator_in(pixels@, w, search, y as int) is None);
                return None;
            },
        }
    }
    assert(out@ =~= indicators(pixels@, w, height as nat, search));
    Some(out)
}

// ---- claims ----
/// What a row indicator speaks of: how many rows there are, in threes, in the first thirty; how many are left
/// of them in the next; how many columns there are in the last.
pub open spec fn slot_of(number: u32, left: bool) -> int {
    let cluster = number as int / CODEWORDS as int;
    let kind = if left {
        cluster % 3
    } else {
        (cluster + 2) % 3
    };
    let said = number as int % CODEWORDS as int % REMAINDERS as int;
    REMAINDERS * kind + if kind == 1 {
        said % 3
    } else {
        said
    }
}

/// How many of the indicators in some rows say a thing.
pub open spec fn votes(read: Seq<Option<u32>>, left: bool, from: int, to: int, slot: int) -> nat
    decreases to - from,
{
    if to <= from {
        0
    } else {
        votes(read, left, from, to - 1, slot) + match read[to - 1] {
            Some(number) if slot_of(number, left) == slot => 1nat,
            _ => 0nat,
        }
    }
}

/// Counts what the indicators in some rows say.
fn tally(read: &[Option<u32>], left: bool, from: usize, to: usize) -> (r: Vec<usize>)
    requires
        from <= to <= read@.len(),
    ensures
        r@.len() == 3 * REMAINDERS,
        forall|slot: int|
            0 <= slot < 3 * REMAINDERS ==> #[trigger] r@[slot] == votes(
                read@,
                left,
                from as int,
                to as int,
                slot,
            ),
{
    let mut counts: Vec<usize> = Vec::with_capacity(3 * REMAINDERS);
    for k in 0..3 * REMAINDERS
        invariant
            counts@.len() == k,
            forall|i: int| 0 <= i < k ==> #[trigger] counts@[i] == 0,
    {
        counts.push(0);
    }
    let mut y: usize = from;
    while y < to
        invariant
            from <= y <= to <= read@.len(),
            counts@.len() == 3 * REMAINDERS,
            forall|slot: int|
                0 <= slot < 3 * REMAINDERS ==> #[trigger] counts@[slot] == votes(
                    read@,
                    left,
                    from as int,
                    y as int,
                    slot,
                ),
            forall|slot: int|
                0 <= slot < 3 * REMAINDERS ==> #[trigger] counts@[slot] <= y - from,
        decreases to - y,
    {
        if let Some(number) = read[y] {
            let cluster: u32 = number / CODEWORDS as u32;
            let kind: usize = if left {
                (cluster % 3) as usize
            } else {
                ((cluster % 3 + 2) % 3) as usize
            };
            let said: usize = (number % CODEWORDS as u32 % REMAINDERS as u32) as usize;
            let slot: usize = REMAINDERS * kind + if kind == 1 {
                said % 3
            } else {
                said
            };
            assert(slot == slot_of(number, left));
            let more: usize = counts[slot] + 1;
            counts.set(slot, more);
        }
        y = y + 1;
    }
    counts
}

/// Whether a thing may be what most indicators say: it is said, and in all rows at least as often as any
/// other is in the rows between the corners. Where the reader finds rows missing it looks beyond those.
pub open spec fn may_win(
    read: Seq<Option<u32>>,
    left: bool,
    from: int,
    to: int,
    kind: int,
    said: int,
) -> bool {
    let all = votes(read, left, 0, read.len() as int, REMAINDERS * kind + said);
    &&& all >= 1
    &&& forall|other: int|
        0 <= other < REMAINDERS ==> all >= #[trigger] votes(
            read,
            left,
            from,
            to,
            REMAINDERS * kind + other,
        )
}

/// The last thing that may be what most indicators say.
fn last_winner(
    read: &[Option<u32>],
    all: &[usize],
    within: &[usize],
    kind: usize,
    Ghost(left): Ghost<bool>,
    Ghost(from): Ghost<int>,
    Ghost(to): Ghost<int>,
) -> (r: Option<usize>)
    requires
        kind < 3,
        all@.len() == 3 * REMAINDERS,
        within@.len() == 3 * REMAINDERS,
        forall|slot: int|
            0 <= slot < 3 * REMAINDERS ==> #[trigger] all@[slot] == votes(
                read@,
                left,
                0,
                read@.len() as int,
                slot,
            ),
        forall|slot: int|
            0 <= slot < 3 * REMAINDERS ==> #[trigger] within@[slot] == votes(
                read@,
                left,
                from,
                to,
                slot,
            ),
    ensures
        r is Some ==> r->0 < REMAINDERS && may_win(
            read@,
            left,
            from,
            to,
            kind as int,
            r->0 as int,
        ),
        forall|said: int|
            0 <= said < REMAINDERS && #[trigger] may_win(read@, left, from, to, kind as int, said)
                ==> r is Some && said <= r->0,
{
    let base: usize = REMAINDERS * kind;
    let mut most: usize = 0;
    let mut k: usize = 0;
    while k < REMAINDERS
        invariant
            k <= REMAINDERS,
            kind < 3,
            base == REMAINDERS * kind,
            within@.len() == 3 * REMAINDERS,
            forall|i: int| 0 <= i < k ==> #[trigger] within@[base + i] <= most,
            most == 0 || exists|i: int| 0 <= i < k && #[trigger] within@[base + i] == most,
        decreases REMAINDERS - k,
    {
        if within[base + k] > most {
            most = within[base + k];
            assert(within@[base + k] == most);
        }
        k = k + 1;
    }
    let mut left_over: usize = REMAINDERS;
    while left_over > 0
        invariant
            left_over <= REMAINDERS,
            kind < 3,
            base == REMAINDERS * kind,
            all@.len() == 3 * REMAINDERS,
            within@.len() == 3 * REMAINDERS,
            forall|slot: int|
                0 <= slot < 3 * REMAINDERS ==> #[trigger] all@[slot] == votes(
                    read@,
                    left,
                    0,
                    read@.len() as int,
                    slot,
                ),
            forall|slot: int|
                0 <= slot < 3 * REMAINDERS ==> #[trigger] within@[slot] == votes(
                    read@,
                    left,
                    from,
                    to,
                    slot,
                ),
            forall|i: int| 0 <= i < REMAINDERS ==> #[trigger] within@[base + i] <= most,
            most == 0 || exists|i: int|
                0 <= i < REMAINDERS && #[trigger] within@[base + i] == most,
            forall|said: int|
                left_over <= said < REMAINDERS ==> !#[trigger] may_win(
                    read@,
                    left,
                    from,
                    to,
                    kind as int,
                    said,
                ),
        decreases left_over,
    {
        left_over = left_over - 1;
        let count: usize = all[base + left_over];
        if count >= 1 && count >= most {
            proof {
                assert forall|other: int| 0 <= other < REMAINDERS implies count >= #[trigger] votes(
                    read@,
                    left,
                    from,
                    to,
                    REMAINDERS * kind + other,
                ) by {
                    assert(within@[base + other] <= most);
                }
                assert(may_win(read@, left, from, to, kind as int, left_over as int));
            }
            return Some(left_over);
        }
        proof {
            if may_win(read@, left, from, to, kind as int, left_over as int) {
                assert(count >= 1);
                let i = choose|i: int| 0 <= i < REMAINDERS && #[trigger] within@[base + i] == most;
                assert(count >= votes(read@, left, from, to, REMAINDERS * kind + i));
            }
        }
    }
    None
}

/// Whether there is room for the codewords of every shape that the indicators may claim.
pub open spec fn claims_few(read: Seq<Option<u32>>, left: bool, from: int, to: int) -> bool {
    forall|threes: int, rest: int, columns: int|
        0 <= threes < REMAINDERS && 0 <= rest < REMAINDERS && 0 <= columns < REMAINDERS
            && #[trigger] may_win(read, left, from, to, 0, threes) && #[trigger] may_win(
            read,
            left,
            from,
            to,
            1,
            rest,
        ) && #[trigger] may_win(read, left, from, to, 2, columns) ==> (3 * threes + 1 + rest) * (
        columns + 1) <= MOST_CLAIMED
}

/// Whether there is room for what the indicators may claim.
fn check_claims(read: &[Option<u32>], left: bool, from: usize, to: usize) -> (r: bool)
    requires
        from <= to <= read@.len(),
    ensures
        r == claims_few(read@, left, from as int, to as int),
{
    let all = tally(read, left, 0, read.len());
    let within = tally(read, left, from, to);
    let ghost (f, t) = (from as int, to as int);
    let threes = last_winner(
        read,
        all.as_slice(),
        within.as_slice(),
        0,
        Ghost(left),
        Ghost(f),
        Ghost(t),
    );
    let rest = last_winner(
        read,
        all.as_slice(),
        within.as_slice(),
        1,
        Ghost(left),
        Ghost(f),
        Ghost(t),
    );
    let columns = last_winner(
        read,
        all.as_slice(),
        within.as_slice(),
        2,
        Ghost(left),
        Ghost(f),
        Ghost(t),
    );
    match (threes, rest, columns) {
        (Some(threes), Some(rest), Some(columns)) => {
            proof {
                assert((3 * threes + 1 + rest) * (columns + 1) <= 120 * 30) by (nonlinear_arith)
                    requires
                        0 <= threes < 30,
                        0 <= rest < 30,
                        0 <= columns < 30,
                ;
            }
            let claimed: usize = (3 * threes + 1 + rest) * (columns + 1);
            proof {
                if claimed <= MOST_CLAIMED {
                    assert forall|a: int, b: int, c: int|
                        0 <= a < REMAINDERS && 0 <= b < REMAINDERS && 0 <= c < REMAINDERS
                            && #[trigger] may_win(read@, left, f, t, 0, a) && #[trigger] may_win(
                            read@,
                            left,
                            f,
                            t,
                            1,
                            b,
                        ) && #[trigger] may_win(read@, left, f, t, 2, c) implies (3 * a + 1 + b) * (c
                        + 1) <= MOST_CLAIMED by {
                        assert((3 * a + 1 + b) * (c + 1) <= (3 * threes + 1 + rest) * (columns + 1))
                            by (nonlinear_arith)
                            requires
                                0 <= a <= threes,
                                0 <= b <= rest,
                                0 <= c <= columns,
                        ;
                    }
                } else {
                    assert(may_win(read@, left, f, t, 0, threes as int));
                    assert(may_win(read@, left, f, t, 1, rest as int));
                    assert(may_win(read@, left, f, t, 2, columns as int));
                }
            }
            claimed <= MOST_CLAIMED
        },
        _ => true,
    }
}

/// Whether there is room for the codewords of every shape that a symbol may claim to have.
///
/// The indicators on the left count where the corners there were found, those on the right where they
/// were not. There is nothing to claim where neither were.
pub open spec fn has_room(found: (nat, nat, Seq<bool>, Seq<Option<(u32, u32)>>)) -> bool {
    let (width, height, pixels, corners) = found;
    let search = |at: (u32, u32), left: bool|
        Search {
            x: at.0,
            y: at.1,
            left,
            min: narrowest(corners) as u32,
            max: widest(corners) as u32,
        };
    match (corners[4], corners[5], corners[6], corners[7]) {
        (Some(a), Some(b), Some(c), Some(d)) => is_claim_small(
            (width, height, pixels),
            search(a, true),
            if a.1 <= c.1 {
                a.1 as int
            } else {
                c.1 as int
            },
            if b.1 >= d.1 {
                b.1 as int
            } else {
                d.1 as int
            },
        ),
        (Some(a), Some(b), _, _) => is_claim_small(
            (width, height, pixels),
            search(a, true),
            a.1 as int,
            b.1 as int,
        ),
        (None, _, Some(c), Some(d)) => is_claim_small(
            (width, height, pixels),
            search(c, false),
            c.1 as int,
            d.1 as int,
        ),
        (None, _, None, _) => true,
        _ => false,
    }
}

/// Whether there is room for what the indicators of an image may claim, between two rows.
///
/// An image that is too large, or in which the search for an indicator leaves the image, is not trusted.
pub open spec fn is_claim_small(
    image: (nat, nat, Seq<bool>),
    search: Search,
    first: int,
    last: int,
) -> bool {
    let (width, height, pixels) = image;
    &&& pixels.len() == width * height
    &&& width <= WIDEST_ROW
    &&& (width + 31) / 32 * height <= MOST_WORDS
    &&& search.x < width
    &&& search.y < height
    &&& first <= last < height
    &&& are_inside(pixels, width as int, height as int, search)
    &&& claims_few(
        indicators(pixels, width as int, height, search),
        search.left,
        first,
        last + 1,
    )
}

/// Checks the claim of an image, between two rows.
fn check_claim(symbol: &Located, search: Search, first: u32, last: u32) -> (r: bool)
    ensures
        r == is_claim_small(
            (symbol.width as nat, symbol.height as nat, symbol.pixels@),
            search,
            first as int,
            last as int,
        ),
{
    let (width, height): (usize, usize) = (symbol.width, symbol.height);
    if width > WIDEST_ROW || search.x as usize >= width || search.y as usize >= height || first > last
        || last as usize >= height {
        return false;
    }
    proof {
        assert(0 <= width * height <= 0xffff_ffff_ffff_ffff * 0xffff_ffff_ffff_ffff)
            by (nonlinear_arith)
            requires
                0 <= width <= 0xffff_ffff_ffff_ffff,
                0 <= height <= 0xffff_ffff_ffff_ffff,
        ;
    }
    if symbol.pixels.len() as u128 != width as u128 * height as u128 {
        return false;
    }
    let words: u64 = (width as u64 + 31) / 32;
    proof {
        assert(words == (width as nat + 31) / 32);
        assert(0 <= words * height <= 0xffff_ffff * 0xffff_ffff_ffff_ffff) by (nonlinear_arith)
            requires
                0 <= words <= 0xffff_ffff,
                0 <= height <= 0xffff_ffff_ffff_ffff,
        ;
    }
    if words as u128 * height as u128 > MOST_WORDS as u128 {
        return false;
    }
    match read_indicators(symbol.pixels.as_slice(), width, height, search) {
        Some(read) => check_claims(read.as_slice(), search.left, first as usize, last as usize + 1),
        None => false,
    }
}

/// Checks whether there is room for the codewords that a symbol may claim to have.
pub(crate) fn check_room(symbol: &Located) -> (r: bool)
    requires
        symbol.corners@.len() == 8,
    ensures
        r == has_room(
            (symbol.width as nat, symbol.height as nat, symbol.pixels@, symbol.corners@),
        ),
{
    let corners = symbol.corners.as_slice();
    let (min, max): (u32, u32) = (min_codeword_width(corners), max_codeword_width(corners));
    match (corners[4], corners[5], corners[6], corners[7]) {
        (Some(a), Some(b), Some(c), Some(d)) => {
            let first: u32 = if a.1 <= c.1 {
                a.1
            } else {
                c.1
            };
            let last: u32 = if b.1 >= d.1 {
                b.1
            } else {
                d.1
            };
            check_claim(symbol, Search { x: a.0, y: a.1, left: true, min, max }, first, last)
        },
        (Some(a), Some(b), _, _) => {
            check_claim(symbol, Search { x: a.0, y: a.1, left: true, min, max }, a.1, b.1)
        },
        (None, _, Some(c), Some(d)) => {
            check_claim(symbol, Search { x: c.0, y: c.1, left: false, min, max }, c.1, d.1)
        },
        (None, _, None, _) => true,
        _ => false,
    }
}

/// Whether there is room for the codewords of the symbol that is found in an image, if one is.
pub open spec fn fits_reader(luma: Seq<u8>, width: u32, height: u32) -> bool {
    match pdf_located(luma, width, height) {
        Some(found) => has_room(found),
        None => true,
    }
}

} // verus!
