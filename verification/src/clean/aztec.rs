//! Exact Aztec restoration.
//!
//! Re-encoding an Aztec payload produces a different symbol: the writer picks its own layer count and
//! its own sequence of mode latches. So the bits are read along with the module each came from,
//! corrected, and written back into those modules: the symbol that was scanned, with its damage
//! removed.
//!
//! Aztec carries a single Reed-Solomon block, so there are no surviving blocks to learn from: the
//! symbol decodes or it does not. The bullseye, the reference grid and the mode message are not part
//! of the data stream and are left as they were sampled.
use vstd::prelude::*;
use crate::bits::{
    bit_of_word, bits_value, lemma_bits_value, lemma_spelled_word, lemma_word_bit,
    lemma_word_limit_grows, lemma_word_limits, word_bit, word_limit,
};
use crate::clean::qr::CleanError;
use crate::codec::aztec::{
    az_corrected, az_found, az_text, correct, find, is_size, symbol_width,
    AztecSample,
};
use crate::order::{positions_set, set_positions};
use crate::render::exact::Reconstructed;
use crate::sample::geometry::lemma_cell;

verus! {

/// An exactly restored Aztec symbol.
#[derive(Clone, Debug)]
pub struct CleanedAztec {
    pub payload: String,
    pub dimension: usize,
    /// The symbol as sampled, row-major, `true` = dark.
    pub sampled: Vec<bool>,
    /// The symbol with every corrected bit written back into its own module.
    pub rebuilt: Reconstructed,
    /// Codewords Reed-Solomon proved wrong.
    pub damaged_codewords: usize,
}

// ---- where the bits stand ----
/// The width of a symbol without the lines of the reference grid.
pub open spec fn base_width(compact: bool, layers: int) -> int {
    if compact {
        11 + 4 * layers
    } else {
        14 + 4 * layers
    }
}

/// The length of the strips of a layer: the outermost layer is the first.
pub open spec fn strip_length(compact: bool, layers: int, layer: int) -> int {
    if compact {
        (layers - layer) * 4 + 9
    } else {
        (layers - layer) * 4 + 12
    }
}

/// A line of modules, counted with the lines of the reference grid.
pub open spec fn with_grid_lines(compact: bool, layers: int, line: int) -> int {
    if compact {
        line
    } else {
        let half = 7 + 2 * layers;
        let centre = symbol_width(compact, layers) / 2;
        if line < half {
            let from_centre = half - 1 - line;
            centre - (from_centre + from_centre / 15) - 1
        } else {
            let from_centre = line - half;
            centre + (from_centre + from_centre / 15) + 1
        }
    }
}

/// The column and row, without the reference grid, of the bit `k` of the pair `j` on a side of a layer:
/// down the left, along the bottom, up the right, back along the top.
pub open spec fn strip_place(
    compact: bool,
    layers: int,
    layer: int,
    side: int,
    j: int,
    k: int,
) -> (int, int) {
    let low = 2 * layer;
    let high = base_width(compact, layers) - 1 - low;
    if side == 0 {
        (low + k, low + j)
    } else if side == 1 {
        (low + j, high - k)
    } else if side == 2 {
        (high - k, high - j)
    } else {
        (high - j, low + k)
    }
}

/// The module of the bit `u` of a layer.
pub open spec fn layer_module(compact: bool, layers: int, layer: int, u: int) -> int {
    let n = strip_length(compact, layers, layer);
    let (x, y) = strip_place(compact, layers, layer, u / (2 * n), (u % (2 * n)) / 2, u % 2);
    with_grid_lines(compact, layers, y) * symbol_width(compact, layers) + with_grid_lines(
        compact,
        layers,
        x,
    )
}

/// The modules of the bits of the first `n` layers, in reading order.
pub open spec fn data_modules(compact: bool, layers: int, n: nat) -> Seq<int>
    decreases n,
{
    if n == 0 {
        Seq::empty()
    } else {
        data_modules(compact, layers, (n - 1) as nat) + Seq::new(
            (8 * strip_length(compact, layers, n - 1)) as nat,
            |u: int| layer_module(compact, layers, n - 1, u),
        )
    }
}

/// The modules of all bits of a symbol.
pub open spec fn all_modules(compact: bool, layers: int) -> Seq<int> {
    data_modules(compact, layers, layers as nat)
}

/// How many bits a single layer would hold, less the sixteen that every layer outside it adds.
pub open spec fn innermost_bits(compact: bool) -> int {
    if compact {
        88
    } else {
        112
    }
}

/// How many bits the first `n` layers hold.
pub proof fn lemma_bit_count(compact: bool, layers: int, n: nat)
    requires
        is_size(compact, layers),
        n <= layers,
    ensures
        data_modules(compact, layers, n).len() == n * (32 * layers + innermost_bits(compact) - 16 * n),
    decreases n,
{
    let c = innermost_bits(compact);
    if n > 0 {
        let m: int = n - 1;
        lemma_bit_count(compact, layers, (n - 1) as nat);
        assert(m * (32 * layers + c - 16 * m) + 8 * strip_length(compact, layers, m) == n * (32
            * layers + c - 16 * n)) by (nonlinear_arith)
            requires
                m == n - 1,
                strip_length(compact, layers, m) == (layers - m) * 4 + (c - 16) / 8,
                c == 88 || c == 112,
        ;
    } else {
        assert(n * (32 * layers + c - 16 * n) == 0) by (nonlinear_arith)
            requires
                n == 0,
        ;
    }
}

/// A line is counted inside the symbol, and different lines differently.
pub proof fn lemma_grid_lines(compact: bool, layers: int, a: int, b: int)
    requires
        is_size(compact, layers),
        0 <= a < base_width(compact, layers),
        0 <= b < base_width(compact, layers),
    ensures
        0 <= with_grid_lines(compact, layers, a) < symbol_width(compact, layers),
        with_grid_lines(compact, layers, a) == with_grid_lines(compact, layers, b) ==> a == b,
{
}

/// The parts of a bit's place in a layer.
proof fn lemma_strip(n: int, u: int)
    requires
        n > 0,
        0 <= u < 8 * n,
    ensures
        0 <= u / (2 * n) < 4,
        0 <= (u % (2 * n)) / 2 < n,
        0 <= u % 2 < 2,
        u == (u / (2 * n)) * (2 * n) + 2 * ((u % (2 * n)) / 2) + u % 2,
{
    let w = 2 * n;
    vstd::arithmetic::div_mod::lemma_fundamental_div_mod(u, w);
    vstd::arithmetic::div_mod::lemma_mod_bound(u, w);
    vstd::arithmetic::div_mod::lemma_div_pos_is_pos(u, w);
    let q = u / w;
    let r = u % w;
    assert(w * q == q * w) by (nonlinear_arith);
    if q >= 4 {
        assert(q * w >= 4 * w) by (nonlinear_arith)
            requires
                q >= 4,
                w > 0,
        ;
    }
    assert((q * w) % 2 == 0) by {
        assert(q * w == 2 * (q * n)) by (nonlinear_arith)
            requires
                w == 2 * n,
        ;
    }
    assert(u % 2 == r % 2);
}

/// The places of a layer lie in its ring.
proof fn lemma_ring(compact: bool, layers: int, layer: int, side: int, j: int, k: int)
    requires
        is_size(compact, layers),
        0 <= layer < layers,
        0 <= side < 4,
        0 <= j < strip_length(compact, layers, layer),
        0 <= k < 2,
    ensures
        ({
            let (x, y) = strip_place(compact, layers, layer, side, j, k);
            let low = 2 * layer;
            let high = base_width(compact, layers) - 1 - low;
            &&& low <= x <= high
            &&& low <= y <= high
            &&& x < low + 2 || x > high - 2 || y < low + 2 || y > high - 2
            &&& 0 <= x < base_width(compact, layers)
            &&& 0 <= y < base_width(compact, layers)
        }),
{
    let low = 2 * layer;
    let high = base_width(compact, layers) - 1 - low;
    assert(strip_length(compact, layers, layer) == high - low - 1);
}

/// Two bits in different places of one layer have different modules.
proof fn lemma_strips_differ(
    compact: bool,
    layers: int,
    layer: int,
    s: int,
    j: int,
    k: int,
    t: int,
    l: int,
    m: int,
)
    requires
        is_size(compact, layers),
        0 <= layer < layers,
        0 <= s < 4,
        0 <= t < 4,
        0 <= j < strip_length(compact, layers, layer),
        0 <= l < strip_length(compact, layers, layer),
        0 <= k < 2,
        0 <= m < 2,
        strip_place(compact, layers, layer, s, j, k) == strip_place(compact, layers, layer, t, l, m),
    ensures
        s == t && j == l && k == m,
{
    let low = 2 * layer;
    let high = base_width(compact, layers) - 1 - low;
    assert(strip_length(compact, layers, layer) == high - low - 1);
}

/// A bit's module lies in the symbol, and says which bit it is of.
proof fn lemma_layer_module(compact: bool, layers: int, a: int, u: int, b: int, v: int)
    requires
        is_size(compact, layers),
        0 <= a < layers,
        0 <= b < layers,
        0 <= u < 8 * strip_length(compact, layers, a),
        0 <= v < 8 * strip_length(compact, layers, b),
    ensures
        0 <= layer_module(compact, layers, a, u) < symbol_width(compact, layers) * symbol_width(
            compact,
            layers,
        ),
        layer_module(compact, layers, a, u) == layer_module(compact, layers, b, v) ==> a == b && u
            == v,
{
    let d = symbol_width(compact, layers);
    let n = strip_length(compact, layers, a);
    let o = strip_length(compact, layers, b);
    lemma_strip(n, u);
    lemma_strip(o, v);
    let (s, j, k) = (u / (2 * n), (u % (2 * n)) / 2, u % 2);
    let (t, l, m) = (v / (2 * o), (v % (2 * o)) / 2, v % 2);
    lemma_ring(compact, layers, a, s, j, k);
    lemma_ring(compact, layers, b, t, l, m);
    let (x, y) = strip_place(compact, layers, a, s, j, k);
    let (p, q) = strip_place(compact, layers, b, t, l, m);
    lemma_grid_lines(compact, layers, x, p);
    lemma_grid_lines(compact, layers, y, q);
    lemma_grid_lines(compact, layers, p, x);
    lemma_grid_lines(compact, layers, q, y);
    let gx = with_grid_lines(compact, layers, x);
    let gy = with_grid_lines(compact, layers, y);
    let hp = with_grid_lines(compact, layers, p);
    let hq = with_grid_lines(compact, layers, q);
    lemma_cell(gx, gy, d, d);
    lemma_cell(hp, hq, d, d);
    if layer_module(compact, layers, a, u) == layer_module(compact, layers, b, v) {
        assert(gx == hp && gy == hq);
        assert(x == p && y == q);
        if a < b {
            assert(2 * b >= 2 * a + 2);
        } else if b < a {
            assert(2 * a >= 2 * b + 2);
        }
        assert(a == b);
        lemma_strips_differ(compact, layers, a, s, j, k, t, l, m);
    }
}

/// The layer of a bit, and its place there.
proof fn lemma_locate(compact: bool, layers: int, n: nat, i: int) -> (r: (int, int))
    requires
        is_size(compact, layers),
        n <= layers,
        0 <= i < data_modules(compact, layers, n).len(),
    ensures
        0 <= r.0 < n,
        0 <= r.1 < 8 * strip_length(compact, layers, r.0),
        i == data_modules(compact, layers, r.0 as nat).len() + r.1,
        data_modules(compact, layers, n)[i] == layer_module(compact, layers, r.0, r.1),
    decreases n,
{
    let before = data_modules(compact, layers, (n - 1) as nat);
    if i < before.len() {
        lemma_locate(compact, layers, (n - 1) as nat, i)
    } else {
        (n - 1, i - before.len())
    }
}

/// Every bit has a module of its own, inside the symbol.
pub proof fn law_bits_have_modules_of_their_own(compact: bool, layers: int, i: int, j: int)
    requires
        is_size(compact, layers),
        0 <= i < all_modules(compact, layers).len(),
        0 <= j < all_modules(compact, layers).len(),
    ensures
        0 <= all_modules(compact, layers)[i] < symbol_width(compact, layers) * symbol_width(
            compact,
            layers,
        ),
        all_modules(compact, layers)[i] == all_modules(compact, layers)[j] ==> i == j,
{
    let (a, u) = lemma_locate(compact, layers, layers as nat, i);
    let (b, v) = lemma_locate(compact, layers, layers as nat, j);
    lemma_layer_module(compact, layers, a, u, b, v);
}

fn grid_line(compact: bool, layers: usize, line: usize) -> (r: usize)
    requires
        is_size(compact, layers as int),
        line < base_width(compact, layers as int),
    ensures
        r == with_grid_lines(compact, layers as int, line as int),
        r < symbol_width(compact, layers as int),
{
    proof {
        lemma_grid_lines(compact, layers as int, line as int, line as int);
    }
    if compact {
        line
    } else {
        let half: usize = 7 + 2 * layers;
        let centre: usize = (4 * layers + 2 * ((2 * layers + 6) / 15) + 15) / 2;
        if line < half {
            let from_centre: usize = half - 1 - line;
            centre - (from_centre + from_centre / 15) - 1
        } else {
            let from_centre: usize = line - half;
            centre + (from_centre + from_centre / 15) + 1
        }
    }
}

/// The width of a symbol in modules.
pub fn width_of(compact: bool, layers: usize) -> (r: usize)
    requires
        is_size(compact, layers as int),
    ensures
        r == symbol_width(compact, layers as int),
        r <= 151,
{
    if compact {
        4 * layers + 11
    } else {
        4 * layers + 2 * ((2 * layers + 6) / 15) + 15
    }
}

/// The modules of the bits of a symbol, in reading order.
#[verifier::rlimit(60)]
#[verifier::spinoff_prover]
pub fn bit_modules(compact: bool, layers: usize) -> (r: Vec<usize>)
    requires
        is_size(compact, layers as int),
    ensures
        r@.len() == all_modules(compact, layers as int).len(),
        forall|i: int|
            0 <= i < r@.len() ==> #[trigger] r@[i] == all_modules(compact, layers as int)[i],
{
    let width: usize = width_of(compact, layers);
    let base: usize = 4 * layers + if compact {
        11
    } else {
        14
    };
    let mut out: Vec<usize> = Vec::new();
    let mut layer: usize = 0;
    while layer < layers
        invariant
            is_size(compact, layers as int),
            width == symbol_width(compact, layers as int),
            base == base_width(compact, layers as int),
            layer <= layers,
            out@.len() == data_modules(compact, layers as int, layer as nat).len(),
            forall|i: int|
                0 <= i < out@.len() ==> #[trigger] out@[i] == data_modules(
                    compact,
                    layers as int,
                    layer as nat,
                )[i],
        decreases layers - layer,
    {
        let n: usize = (layers - layer) * 4 + if compact {
            9
        } else {
            12
        };
        let low: usize = 2 * layer;
        let high: usize = base - 1 - low;
        let ghost before = data_modules(compact, layers as int, layer as nat);
        let ghost after = data_modules(compact, layers as int, (layer + 1) as nat);
        let mut u: usize = 0;
        while u < 8 * n
            invariant
                is_size(compact, layers as int),
                width == symbol_width(compact, layers as int),
                width <= 151,
                base == base_width(compact, layers as int),
                layer < layers,
                n == strip_length(compact, layers as int, layer as int),
                0 < n <= 140,
                low == 2 * layer,
                high == base - 1 - low,
                n == high - low - 1,
                before == data_modules(compact, layers as int, layer as nat),
                after == data_modules(compact, layers as int, (layer + 1) as nat),
                u <= 8 * n,
                out@.len() == before.len() + u,
                forall|i: int|
                    0 <= i < out@.len() ==> #[trigger] out@[i] == after[i],
            decreases 8 * n - u,
        {
            proof {
                lemma_strip(n as int, u as int);
                lemma_ring(
                    compact,
                    layers as int,
                    layer as int,
                    u as int / (2 * n as int),
                    (u as int % (2 * n as int)) / 2,
                    u as int % 2,
                );
                lemma_layer_module(
                    compact,
                    layers as int,
                    layer as int,
                    u as int,
                    layer as int,
                    u as int,
                );
            }
            let side: usize = u / (2 * n);
            let j: usize = (u % (2 * n)) / 2;
            let k: usize = u % 2;
            let (x, y): (usize, usize) = if side == 0 {
                (low + k, low + j)
            } else if side == 1 {
                (low + j, high - k)
            } else if side == 2 {
                (high - k, high - j)
            } else {
                (high - j, low + k)
            };
            let gx: usize = grid_line(compact, layers, x);
            let gy: usize = grid_line(compact, layers, y);
            proof {
                assert(0 <= gy * width <= 151 * 151) by (nonlinear_arith)
                    requires
                        0 <= gy < width,
                        width <= 151,
                ;
            }
            let module: usize = gy * width + gx;
            assert(after[out@.len() as int] == module);
            out.push(module);
            u = u + 1;
        }
        layer = layer + 1;
    }
    out
}

// ---- words ----
/// How many bits a codeword has in a symbol of as many layers.
pub open spec fn word_size(layers: int) -> nat {
    if layers <= 2 {
        6
    } else if layers <= 8 {
        8
    } else if layers <= 22 {
        10
    } else {
        12
    }
}

/// The bits of a symbol, in reading order.
pub open spec fn raw_bits(modules: Seq<bool>, places: Seq<int>) -> Seq<bool> {
    places.map_values(|m: int| modules[m])
}

/// Where the bits of the word `w` begin: what does not fill a word is left over in front.
pub open spec fn word_start(count: int, size: int, w: int) -> int {
    count % size + w * size
}

/// The codewords that bits spell.
pub open spec fn words_of(bits: Seq<bool>, size: nat) -> Seq<u16> {
    Seq::new(
        bits.len() / size,
        |w: int|
            bits_value(
                bits.subrange(
                    word_start(bits.len() as int, size as int, w),
                    word_start(bits.len() as int, size as int, w) + size,
                ),
            ) as u16,
    )
}

/// The bits that codewords come to, behind as many light ones as are left over in front.
pub open spec fn bits_of(words: Seq<u16>, size: nat, count: nat) -> Seq<bool> {
    Seq::new(
        count,
        |i: int|
            {
                let lead = count as int % size as int;
                if i < lead {
                    false
                } else {
                    word_bit(
                        words[(i - lead) / size as int] as nat,
                        size,
                        (i - lead) % size as int,
                    )
                }
            },
    )
}

/// Whether `modules` are the sampled ones with bits written into them, each into its own module.
pub open spec fn is_written(
    sampled: Seq<bool>,
    places: Seq<int>,
    bits: Seq<bool>,
    modules: Seq<bool>,
) -> bool {
    &&& modules.len() == sampled.len()
    &&& forall|i: int| 0 <= i < places.len() ==> modules[#[trigger] places[i]] == bits[i]
    &&& forall|m: int|
        0 <= m < sampled.len() && !places.contains(m) ==> #[trigger] modules[m] == sampled[m]
}

/// The places in which two lists of words differ.
pub open spec fn damaged_words(received: Seq<u16>, corrected: Seq<u16>) -> Set<int> {
    Set::new(|i: int| 0 <= i < received.len() && received[i] != corrected[i])
}

// ---- restoring ----
/// What a symbol's modules come to before the text is looked at: the corrected words, where there are
/// enough words for the data and they can be corrected.
pub open spec fn corrected_words(
    compact: bool,
    layers: int,
    data_words: int,
    modules: Seq<bool>,
) -> Option<Seq<u16>> {
    let words = words_of(raw_bits(modules, all_modules(compact, layers)), word_size(layers));
    if words.len() < data_words {
        None
    } else {
        az_corrected(words, word_size(layers), (words.len() - data_words) as nat)
    }
}

/// What restoring a symbol gives.
pub open spec fn is_restored(
    compact: bool,
    layers: int,
    data_words: int,
    modules: Seq<bool>,
    text: Option<Seq<char>>,
    r: Result<CleanedAztec, CleanError>,
) -> bool {
    let places = all_modules(compact, layers);
    let raw = raw_bits(modules, places);
    let size = word_size(layers);
    match corrected_words(compact, layers, data_words, modules) {
        None => r == Err::<CleanedAztec, CleanError>(
            CleanError::Unrecoverable { blocks_total: 1, blocks_decoded: 0 },
        ),
        Some(words) => match text {
            None => r == Err::<CleanedAztec, CleanError>(CleanError::Unreadable),
            Some(t) => r matches Ok(c) && {
                &&& c.payload@ == t
                &&& c.dimension == symbol_width(compact, layers)
                &&& c.sampled@ == modules
                &&& c.rebuilt.wf()
                &&& c.rebuilt.dimension == c.dimension
                &&& c.rebuilt.height == c.dimension
                &&& is_written(modules, places, bits_of(words, size, raw.len()), c.rebuilt@)
                &&& c.damaged_codewords == damaged_words(words_of(raw, size), words).len()
            },
        },
    }
}

fn size_of(layers: usize) -> (r: usize)
    ensures
        r == word_size(layers as int),
        r == 6 || r == 8 || r == 10 || r == 12,
{
    if layers <= 2 {
        6
    } else if layers <= 8 {
        8
    } else if layers <= 22 {
        10
    } else {
        12
    }
}

/// Where a word begins and ends.
proof fn lemma_word_start(count: int, size: int, w: int)
    requires
        size > 0,
        0 <= w < count / size,
        0 <= count,
    ensures
        0 <= word_start(count, size, w),
        word_start(count, size, w) + size <= count,
        word_start(count, size, w) + size == word_start(count, size, w + 1),
{
    vstd::arithmetic::div_mod::lemma_fundamental_div_mod(count, size);
    vstd::arithmetic::div_mod::lemma_mod_bound(count, size);
    assert(0 <= w * size) by (nonlinear_arith)
        requires
            0 <= w,
            size > 0,
    ;
    assert((w + 1) * size == w * size + size) by (nonlinear_arith);
    assert((w + 1) * size <= size * (count / size)) by (nonlinear_arith)
        requires
            w + 1 <= count / size,
            size > 0,
    ;
}

fn read_word(bits: &[bool], start: usize, size: usize) -> (r: u16)
    requires
        size <= 12,
        start + size <= bits@.len(),
    ensures
        r == bits_value(bits@.subrange(start as int, start + size)),
        r < word_limit(size as nat),
{
    let mut value: u16 = 0;
    let mut i: usize = 0;
    assert(bits@.subrange(start as int, start as int) =~= Seq::<bool>::empty());
    while i < size
        invariant
            size <= 12,
            start + size <= bits@.len(),
            i <= size,
            value == bits_value(bits@.subrange(start as int, start + i)),
            bits@.len() == bits.len(),
        decreases size - i,
    {
        proof {
            let upto = bits@.subrange(start as int, start + i);
            lemma_bits_value(upto);
            lemma_word_limit_grows(upto.len(), 11);
            reveal_with_fuel(word_limit, 13);
            let more = bits@.subrange(start as int, start + i + 1);
            assert(more.drop_last() =~= upto);
            assert(more.last() == bits@[start + i]);
        }
        value = 2 * value + if bits[start + i] {
            1
        } else {
            0
        };
        i = i + 1;
    }
    proof {
        lemma_bits_value(bits@.subrange(start as int, start + size));
    }
    value
}

fn read_words(bits: &[bool], size: usize) -> (r: Vec<u16>)
    requires
        size == 6 || size == 8 || size == 10 || size == 12,
    ensures
        r@ == words_of(bits@, size as nat),
        forall|k: int| 0 <= k < r@.len() ==> #[trigger] r@[k] < word_limit(size as nat),
{
    let count: usize = bits.len();
    let n: usize = count / size;
    let mut out: Vec<u16> = Vec::with_capacity(n);
    let mut start: usize = count % size;
    let mut w: usize = 0;
    while w < n
        invariant
            size == 6 || size == 8 || size == 10 || size == 12,
            count == bits@.len(),
            n == count / size,
            w <= n,
            start == word_start(count as int, size as int, w as int),
            out@.len() == w,
            forall|k: int|
                0 <= k < w ==> #[trigger] out@[k] == words_of(bits@, size as nat)[k] && out@[k]
                    < word_limit(size as nat),
        decreases n - w,
    {
        proof {
            lemma_word_start(count as int, size as int, w as int);
        }
        out.push(read_word(bits, start, size));
        start = start + size;
        w = w + 1;
    }
    assert(out@ =~= words_of(bits@, size as nat));
    out
}

/// Places in words.
proof fn lemma_word_place(i: int, size: int, n: int)
    requires
        size > 0,
        0 <= i < size * n,
    ensures
        0 <= i / size < n,
        0 <= i % size < size,
{
    vstd::arithmetic::div_mod::lemma_fundamental_div_mod(i, size);
    vstd::arithmetic::div_mod::lemma_mod_bound(i, size);
    vstd::arithmetic::div_mod::lemma_div_pos_is_pos(i, size);
    if i / size >= n {
        assert(size * (i / size) >= size * n) by (nonlinear_arith)
            requires
                i / size >= n,
                size > 0,
        ;
    }
}

/// Writes words back into the modules that their bits were read from.
fn write_back(sampled: &[bool], places: &[usize], words: &[u16], size: usize, Ghost(all): Ghost<Seq<int>>) -> (r:
    Vec<bool>)
    requires
        size == 6 || size == 8 || size == 10 || size == 12,
        places@.len() == all.len(),
        forall|i: int| 0 <= i < all.len() ==> #[trigger] places@[i] == all[i],
        forall|i: int| 0 <= i < all.len() ==> 0 <= #[trigger] all[i] < sampled@.len(),
        forall|i: int, j: int|
            0 <= i < all.len() && 0 <= j < all.len() && #[trigger] all[i] == #[trigger] all[j] ==> i
                == j,
        words@.len() == all.len() / size as nat,
    ensures
        is_written(sampled@, all, bits_of(words@, size as nat, all.len()), r@),
{
    let count: usize = places.len();
    let lead: usize = count % size;
    let ghost bits = bits_of(words@, size as nat, all.len());
    let mut out: Vec<bool> = Vec::new();
    out.extend_from_slice(sampled);
    assert(out@ =~= sampled@);
    let mut i: usize = 0;
    while i < count
        invariant
            size == 6 || size == 8 || size == 10 || size == 12,
            count == all.len(),
            lead == count % size,
            bits == bits_of(words@, size as nat, all.len()),
            places@.len() == all.len(),
            forall|i: int| 0 <= i < all.len() ==> #[trigger] places@[i] == all[i],
            forall|i: int| 0 <= i < all.len() ==> 0 <= #[trigger] all[i] < sampled@.len(),
            forall|i: int, j: int|
                0 <= i < all.len() && 0 <= j < all.len() && #[trigger] all[i] == #[trigger] all[j]
                    ==> i == j,
            words@.len() == all.len() / size as nat,
            i <= count,
            out@.len() == sampled@.len(),
            forall|j: int| 0 <= j < i ==> out@[#[trigger] all[j]] == bits[j],
            forall|m: int|
                0 <= m < sampled@.len() && !all.contains(m) ==> #[trigger] out@[m] == sampled@[m],
        decreases count - i,
    {
        let bit = if i < lead {
            false
        } else {
            proof {
                vstd::arithmetic::div_mod::lemma_fundamental_div_mod(count as int, size as int);
                lemma_word_place(
                    i - lead,
                    size as int,
                    count as int / size as int,
                );
            }
            bit_of_word(words[(i - lead) / size] as u32, size, (i - lead) % size)
        };
        assert(bit == bits[i as int]);
        let ghost was = out@;
        let m: usize = places[i];
        assert(m == all[i as int]);
        assert(all.contains(m as int));
        out.set(m, bit);
        proof {
            assert forall|j: int| 0 <= j < i + 1 implies out@[#[trigger] all[j]] == bits[j] by {
                if j < i {
                    assert(all[j] != all[i as int]);
                }
            }
        }
        i = i + 1;
    }
    out
}

fn count_damaged(received: &[u16], corrected: &[u16]) -> (r: usize)
    requires
        received@.len() == corrected@.len(),
    ensures
        r == damaged_words(received@, corrected@).len(),
{
    let mut flags: Vec<bool> = Vec::with_capacity(received.len());
    for i in 0..received.len()
        invariant
            received@.len() == corrected@.len(),
            flags@.len() == i,
            forall|k: int| 0 <= k < i ==> #[trigger] flags@[k] == (received@[k] != corrected@[k]),
    {
        flags.push(received[i] != corrected[i]);
    }
    assert(set_positions(flags@) =~= damaged_words(received@, corrected@));
    positions_set(flags.as_slice()).len()
}

/// Restores a symbol that was found, given what its text reads as.
pub fn restore(found: AztecSample, text: Option<String>) -> (r: Result<CleanedAztec, CleanError>)
    requires
        is_size(found.compact, found.layers as int),
        found.modules@.len() == symbol_width(found.compact, found.layers as int) * symbol_width(
            found.compact,
            found.layers as int,
        ),
    ensures
        is_restored(
            found.compact,
            found.layers as int,
            found.data_words as int,
            found.modules@,
            match text {
                Some(t) => Some(t@),
                None => None,
            },
            r,
        ),
{
    let compact = found.compact;
    let layers: usize = found.layers as usize;
    let sampled = found.modules;
    let places = bit_modules(compact, layers);
    let ghost all = all_modules(compact, layers as int);
    proof {
        assert forall|i: int| 0 <= i < all.len() implies 0 <= #[trigger] all[i] < sampled@.len() by {
            law_bits_have_modules_of_their_own(compact, layers as int, i, i);
        }
        assert forall|i: int, j: int|
            0 <= i < all.len() && 0 <= j < all.len() && #[trigger] all[i] == #[trigger] all[j] implies i
            == j by {
            law_bits_have_modules_of_their_own(compact, layers as int, i, j);
        }
        lemma_bit_count(compact, layers as int, layers as nat);
    }
    let mut bits: Vec<bool> = Vec::with_capacity(places.len());
    for i in 0..places.len()
        invariant
            places@.len() == all.len(),
            forall|i: int| 0 <= i < all.len() ==> #[trigger] places@[i] == all[i],
            forall|i: int| 0 <= i < all.len() ==> 0 <= #[trigger] all[i] < sampled@.len(),
            bits@.len() == i,
            forall|k: int| 0 <= k < i ==> #[trigger] bits@[k] == sampled@[all[k]],
    {
        assert(places@[i as int] == all[i as int]);
        bits.push(sampled[places[i]]);
    }
    assert(bits@ =~= raw_bits(sampled@, all));
    let size: usize = size_of(layers);
    let words = read_words(bits.as_slice(), size);
    if words.len() < found.data_words as usize {
        return Err(CleanError::Unrecoverable { blocks_total: 1, blocks_decoded: 0 });
    }
    proof {
        lemma_few_words(compact, layers as int);
    }
    let ecc: usize = words.len() - found.data_words as usize;
    let corrected = match correct(words.as_slice(), size, ecc) {
        Some(corrected) => corrected,
        None => {
            return Err(CleanError::Unrecoverable { blocks_total: 1, blocks_decoded: 0 });
        },
    };
    let payload = match text {
        Some(t) => t,
        None => {
            return Err(CleanError::Unreadable);
        },
    };
    let modules = write_back(
        sampled.as_slice(),
        places.as_slice(),
        corrected.as_slice(),
        size,
        Ghost(all),
    );
    let dimension: usize = width_of(compact, layers);
    let damaged_codewords: usize = count_damaged(words.as_slice(), corrected.as_slice());
    let rebuilt = match Reconstructed::from_modules(dimension, dimension, modules) {
        Some(rebuilt) => rebuilt,
        None => {
            return Err(CleanError::Unreadable);
        },
    };
    Ok(CleanedAztec { payload, dimension, sampled, rebuilt, damaged_codewords })
}

/// No symbol has as many words as their field has elements.
proof fn lemma_few_words(compact: bool, layers: int)
    requires
        is_size(compact, layers),
    ensures
        all_modules(compact, layers).len() / word_size(layers) <= 1664,
        all_modules(compact, layers).len() / word_size(layers) < word_limit(word_size(layers)),
{
    reveal_with_fuel(word_limit, 13);
    lemma_bit_count(compact, layers, layers as nat);
    let c = innermost_bits(compact);
    let n = all_modules(compact, layers).len() as int;
    let most = if layers <= 2 {
        2int
    } else if layers <= 8 {
        8
    } else if layers <= 22 {
        22
    } else {
        32
    };
    assert(n <= most * (16 * most + 112)) by (nonlinear_arith)
        requires
            n == layers * (32 * layers + c - 16 * layers),
            0 <= layers <= most,
            0 <= c <= 112,
    ;
}

/// Whether restoring the Aztec symbol in an image gives `r`.
pub open spec fn is_cleaned(
    luma: Seq<u8>,
    width: u32,
    height: u32,
    r: Result<CleanedAztec, CleanError>,
) -> bool {
    match az_found(luma, width, height) {
        None => r == Err::<CleanedAztec, CleanError>(CleanError::NotDetected),
        Some((compact, layers, data_words, modules)) => is_restored(
            compact,
            layers as int,
            data_words as int,
            modules,
            az_text(compact, layers, data_words, modules),
            r,
        ),
    }
}

/// Detects and exactly restores an Aztec symbol in a luminance image.
///
/// Tries the symbol as it stands, then mirrored: photographed through glass, or simply resolved the
/// other way round, it is otherwise invisible. The text comes from a stock decode of the same
/// detection.
pub fn clean_luma(luma: &[u8], width: u32, height: u32) -> (r: Result<CleanedAztec, CleanError>)
    ensures
        is_cleaned(luma@, width, height, r),
        luma@.len() != width * height ==> r == Err::<CleanedAztec, CleanError>(
            CleanError::NotDetected,
        ),
{
    match find(luma, width, height) {
        Some((found, text)) => restore(found, text),
        None => Err(CleanError::NotDetected),
    }
}

// ---- laws ----
/// A word of a symbol lies behind its beginning.
proof fn lemma_word_bit_place(count: int, size: int, w: int, b: int)
    requires
        size > 0,
        0 <= count,
        0 <= w < count / size,
        0 <= b < size,
    ensures
        (word_start(count, size, w) + b - count % size) / size == w,
        (word_start(count, size, w) + b - count % size) % size == b,
        count % size <= word_start(count, size, w) + b < count,
{
    lemma_word_start(count, size, w);
    assert(w * size == size * w) by (nonlinear_arith);
    vstd::arithmetic::div_mod::lemma_fundamental_div_mod_converse(w * size + b, size, w, b);
    assert(0 <= w * size) by (nonlinear_arith)
        requires
            0 <= w,
            size > 0,
    ;
}

/// Reading undoes writing: the codewords read off a rebuilt symbol are the corrected ones.
pub proof fn law_rebuilt_symbols_read_as_corrected(
    compact: bool,
    layers: int,
    sampled: Seq<bool>,
    words: Seq<u16>,
    rebuilt: Seq<bool>,
)
    requires
        is_size(compact, layers),
        words.len() == all_modules(compact, layers).len() / word_size(layers),
        forall|k: int| 0 <= k < words.len() ==> #[trigger] words[k] < word_limit(word_size(layers)),
        is_written(
            sampled,
            all_modules(compact, layers),
            bits_of(words, word_size(layers), all_modules(compact, layers).len()),
            rebuilt,
        ),
    ensures
        words_of(raw_bits(rebuilt, all_modules(compact, layers)), word_size(layers)) == words,
{
    let all = all_modules(compact, layers);
    let size = word_size(layers);
    let count = all.len() as int;
    let bits = bits_of(words, size, all.len());
    let raw = raw_bits(rebuilt, all);
    assert(raw =~= bits) by {
        assert forall|i: int| 0 <= i < count implies raw[i] == bits[i] by {
            assert(rebuilt[all[i]] == bits[i]);
        }
    }
    assert forall|w: int| 0 <= w < words.len() implies words_of(raw, size)[w] == words[w] by {
        let start = word_start(count, size as int, w);
        lemma_word_start(count, size as int, w);
        let own = raw.subrange(start, start + size);
        assert forall|b: int| 0 <= b < own.len() implies #[trigger] own[b] == word_bit(
            words[w] as nat,
            own.len(),
            b,
        ) by {
            lemma_word_bit_place(count, size as int, w, b);
        }
        assert(words[w] < word_limit(size));
        lemma_spelled_word(own, words[w] as nat);
    }
    assert(words_of(raw, size) =~= words);
}

/// The bits of the words that bits spell are those bits, behind the ones left over in front.
proof fn lemma_bits_of_words(raw: Seq<bool>, size: nat, i: int)
    requires
        size == 6 || size == 8 || size == 10 || size == 12,
        raw.len() as int % size as int <= i < raw.len(),
    ensures
        bits_of(words_of(raw, size), size, raw.len())[i] == raw[i],
{
    let count = raw.len() as int;
    let lead = count % size as int;
    let words = words_of(raw, size);
    vstd::arithmetic::div_mod::lemma_fundamental_div_mod(count, size as int);
    lemma_word_place(i - lead, size as int, count / size as int);
    let w = (i - lead) / size as int;
    let b = (i - lead) % size as int;
    vstd::arithmetic::div_mod::lemma_fundamental_div_mod(i - lead, size as int);
    assert(w * size == size * w) by (nonlinear_arith);
    let start = word_start(count, size as int, w);
    lemma_word_start(count, size as int, w);
    let own = raw.subrange(start, start + size);
    lemma_bits_value(own);
    lemma_word_limits();
    assert(words[w] == bits_value(own));
    lemma_word_bit(own, b);
    assert(own[b] == raw[i]);
}

/// An undamaged symbol rebuilds to itself: where no codeword was wrong, and the bits left over in front
/// are light as encoders leave them, no module changes.
pub proof fn law_undamaged_symbols_rebuild_to_themselves(
    compact: bool,
    layers: int,
    sampled: Seq<bool>,
    rebuilt: Seq<bool>,
)
    requires
        is_size(compact, layers),
        forall|i: int|
            0 <= i < all_modules(compact, layers).len() as int % word_size(layers) as int
                ==> !sampled[#[trigger] all_modules(compact, layers)[i]],
        is_written(
            sampled,
            all_modules(compact, layers),
            bits_of(
                words_of(raw_bits(sampled, all_modules(compact, layers)), word_size(layers)),
                word_size(layers),
                all_modules(compact, layers).len(),
            ),
            rebuilt,
        ),
    ensures
        rebuilt == sampled,
{
    let all = all_modules(compact, layers);
    let size = word_size(layers);
    let count = all.len() as int;
    let lead = count % size as int;
    let raw = raw_bits(sampled, all);
    let bits = bits_of(words_of(raw, size), size, all.len());
    assert forall|m: int| 0 <= m < sampled.len() implies rebuilt[m] == sampled[m] by {
        if all.contains(m) {
            let i = choose|i: int| 0 <= i < all.len() && all[i] == m;
            assert(rebuilt[all[i]] == bits[i]);
            if i >= lead {
                lemma_bits_of_words(raw, size, i);
                assert(raw[i] == sampled[m]);
            } else {
                assert(!sampled[all[i]]);
            }
        }
    }
    assert(rebuilt =~= sampled);
}

/// A layer goes round: each of its sides is the one before it turned by a quarter, and the first runs down
/// the left, two modules wide, from the layer's corner.
pub proof fn law_sides_are_quarter_turns(
    compact: bool,
    layers: int,
    layer: int,
    side: int,
    j: int,
    k: int,
)
    requires
        is_size(compact, layers),
        0 <= layer < layers,
        0 <= side < 3,
    ensures
        strip_place(compact, layers, layer, 0, j, k) == (2 * layer + k, 2 * layer + j),
        ({
            let (x, y) = strip_place(compact, layers, layer, side, j, k);
            let last = base_width(compact, layers) - 1;
            strip_place(compact, layers, layer, side + 1, j, k) == (y, last - x)
        }),
{
}

/// The sides of a layer fill its ring: each is as long as the ring is wide less the two modules that the next
/// side takes.
pub proof fn law_sides_fill_their_ring(compact: bool, layers: int, layer: int)
    requires
        is_size(compact, layers),
        0 <= layer < layers,
    ensures
        ({
            let ring = base_width(compact, layers) - 4 * layer;
            &&& strip_length(compact, layers, layer) == ring - 2
            &&& 8 * strip_length(compact, layers, layer) == ring * ring - (ring - 4) * (ring - 4)
        }),
{
    let ring = base_width(compact, layers) - 4 * layer;
    assert(ring * ring - (ring - 4) * (ring - 4) == 8 * ring - 16) by (nonlinear_arith);
}

/// The reference grid is skipped: in a full symbol no bit stands on a line that is a multiple of sixteen
/// from the centre, lines keep their order with nothing else left out, and they run from edge to edge. A
/// compact symbol has no such lines.
pub proof fn law_grid_lines_are_skipped(compact: bool, layers: int, line: int)
    requires
        is_size(compact, layers),
        0 <= line < base_width(compact, layers),
    ensures
        compact ==> with_grid_lines(compact, layers, line) == line && symbol_width(compact, layers)
            == base_width(compact, layers),
        !compact ==> {
            let centre = symbol_width(compact, layers) / 2;
            let at = with_grid_lines(compact, layers, line);
            &&& (at - centre) % 16 != 0
            &&& symbol_width(compact, layers) % 2 == 1
            &&& line + 1 < base_width(compact, layers) ==> {
                let next = with_grid_lines(compact, layers, line + 1);
                next == at + 1 || (next == at + 2 && (at + 1 - centre) % 16 == 0)
            }
        },
        with_grid_lines(compact, layers, 0) == 0,
        with_grid_lines(compact, layers, base_width(compact, layers) - 1) == symbol_width(
            compact,
            layers,
        ) - 1,
{
    if !compact {
        let half = 7 + 2 * layers;
        let centre = symbol_width(compact, layers) / 2;
        let at = with_grid_lines(compact, layers, line);
        if line < half {
            let from_centre = half - 1 - line;
            assert(centre - at == from_centre + from_centre / 15 + 1);
            assert((from_centre + from_centre / 15 + 1) % 16 != 0);
            assert((at - centre) % 16 != 0);
        } else {
            let from_centre = line - half;
            assert(at - centre == from_centre + from_centre / 15 + 1);
            assert((from_centre + from_centre / 15 + 1) % 16 != 0);
        }
    }
}

/// Words grow with the symbol, by two bits at a time, and are always wide enough: no symbol has as many of
/// them as there are values of one.
pub proof fn law_words_are_wide_enough(compact: bool, layers: int)
    requires
        is_size(compact, layers),
    ensures
        all_modules(compact, layers).len() / word_size(layers) < word_limit(word_size(layers)),
        word_size(layers) == 6 || word_size(layers) == 8 || word_size(layers) == 10 || word_size(
            layers,
        ) == 12,
        word_size(layers) <= word_size(layers + 1) <= word_size(layers) + 2,
        word_size(1) == 6,
        word_size(32) == 12,
{
    lemma_few_words(compact, layers);
}

/// Damage is repaired and the rest left alone: a module that the rebuild changes belongs to a codeword that
/// was corrected, or is one of those left over in front, which are made light.
pub proof fn law_only_corrected_codewords_change(
    compact: bool,
    layers: int,
    sampled: Seq<bool>,
    words: Seq<u16>,
    rebuilt: Seq<bool>,
    m: int,
)
    requires
        is_size(compact, layers),
        words.len() == all_modules(compact, layers).len() / word_size(layers),
        is_written(
            sampled,
            all_modules(compact, layers),
            bits_of(words, word_size(layers), all_modules(compact, layers).len()),
            rebuilt,
        ),
        0 <= m < sampled.len(),
        rebuilt[m] != sampled[m],
    ensures
        ({
            let all = all_modules(compact, layers);
            let size = word_size(layers) as int;
            let lead = all.len() as int % size;
            let received = words_of(raw_bits(sampled, all), word_size(layers));
            exists|i: int|
                0 <= i < all.len() && #[trigger] all[i] == m && (i < lead && !rebuilt[m] || i >= lead
                    && received[(i - lead) / size] != words[(i - lead) / size])
        }),
{
    let all = all_modules(compact, layers);
    let size = word_size(layers);
    let raw = raw_bits(sampled, all);
    let received = words_of(raw, size);
    let lead = all.len() as int % size as int;
    assert(all.contains(m));
    let i = choose|i: int| 0 <= i < all.len() && all[i] == m;
    let bits = bits_of(words, size, all.len());
    assert(rebuilt[all[i]] == bits[i]);
    assert(raw[i] == sampled[m]);
    if i >= lead {
        lemma_bits_of_words(raw, size, i);
    }
}

/// The damaged codewords are those that were received otherwise: there are none exactly when nothing was
/// corrected.
pub proof fn law_damaged_words_are_those_that_differ(received: Seq<u16>, corrected: Seq<u16>, w: int)
    requires
        received.len() == corrected.len(),
        0 <= w < received.len(),
    ensures
        damaged_words(received, corrected).contains(w) <==> received[w] != corrected[w],
        damaged_words(received, corrected).len() == 0 <==> received == corrected,
        damaged_words(received, corrected).len() <= received.len(),
{
    let all = vstd::set_lib::set_int_range(0, received.len() as int);
    vstd::set_lib::lemma_int_range(0, received.len() as int);
    let damaged = damaged_words(received, corrected);
    vstd::set_lib::lemma_len_subset(damaged, all);
    if damaged.len() == 0 {
        assert(damaged =~= Set::empty());
        assert forall|i: int| 0 <= i < received.len() implies received[i] == corrected[i] by {
            assert(!damaged.contains(i));
        }
        assert(received =~= corrected);
    }
    if received == corrected {
        assert(damaged =~= Set::empty());
    }
}

/// Words are counted from the end: the last word is spelled by the last bits, the one before it by those
/// in front of them, the first bit of each weighing most; what does not fill a word is left over in
/// front.
pub proof fn law_words_end_with_the_last_bit(bits: Seq<bool>, size: nat, w: int, i: int)
    requires
        size == 6 || size == 8 || size == 10 || size == 12,
        0 <= w,
        (w + 1) * size <= bits.len(),
        0 <= i < size,
    ensures
        ({
            let words = words_of(bits, size);
            &&& words.len() * size <= bits.len() < (words.len() + 1) * size
            &&& w < words.len()
            &&& word_bit(words[words.len() - 1 - w] as nat, size, i) == bits[bits.len() - (w + 1)
                * size + i]
        }),
{
    let count = bits.len() as int;
    let words = words_of(bits, size);
    let n = count / size as int;
    vstd::arithmetic::div_mod::lemma_fundamental_div_mod(count, size as int);
    vstd::arithmetic::div_mod::lemma_mod_bound(count, size as int);
    assert(words.len() == n);
    assert(size * n == n * size && (n + 1) * size == n * size + size) by (nonlinear_arith);
    assert(w < n) by (nonlinear_arith)
        requires
            (w + 1) * size <= count < (n + 1) * size,
            size > 0,
    ;
    let at = n - 1 - w;
    let start = word_start(count, size as int, at);
    lemma_word_start(count, size as int, at);
    assert(start == count - (w + 1) * size) by (nonlinear_arith)
        requires
            start == count % size as int + (n - 1 - w) * size,
            count == n * size + count % size as int,
    ;
    let own = bits.subrange(start, start + size);
    lemma_bits_value(own);
    lemma_word_limits();
    assert(words[at] == bits_value(own));
    lemma_word_bit(own, i);
}

/// The bits that are not left over in front are written back as they were read, and those left over are
/// written light.
pub proof fn law_words_write_back_as_they_were_read(bits: Seq<bool>, size: nat, i: int)
    requires
        size == 6 || size == 8 || size == 10 || size == 12,
        0 <= i < bits.len(),
    ensures
        ({
            let written = bits_of(words_of(bits, size), size, bits.len());
            let left_over = bits.len() - words_of(bits, size).len() * size;
            &&& written.len() == bits.len()
            &&& i >= left_over ==> written[i] == bits[i]
            &&& i < left_over ==> !written[i]
        }),
{
    vstd::arithmetic::div_mod::lemma_fundamental_div_mod(bits.len() as int, size as int);
    let n = words_of(bits, size).len();
    assert(n * size == size * n) by (nonlinear_arith);
    if i >= bits.len() as int % size as int {
        lemma_bits_of_words(bits, size, i);
    }
}

/// Words have six bits in symbols of up to two layers, eight up to eight, ten up to twenty-two, and
/// twelve beyond.
pub proof fn law_words_grow_at_three_nine_and_twenty_three_layers(layers: int)
    requires
        1 <= layers <= 32,
    ensures
        word_size(layers) == 6 <==> layers < 3,
        word_size(layers) == 8 <==> 3 <= layers < 9,
        word_size(layers) == 10 <==> 9 <= layers < 23,
        word_size(layers) == 12 <==> 23 <= layers,
{
}

/// Every layer makes a symbol four modules wider, and a full one by two more where it reaches the next
/// lines of the reference grid. One layer makes fifteen modules around a compact bullseye, nineteen
/// around a full one, and thirty-two make 151.
pub proof fn law_layers_make_symbols_wider(compact: bool, layers: int)
    requires
        is_size(compact, layers),
    ensures
        symbol_width(true, 1) == 15,
        symbol_width(false, 1) == 19,
        symbol_width(false, 32) == 151,
        is_size(compact, layers + 1) && compact ==> symbol_width(compact, layers + 1)
            == symbol_width(compact, layers) + 4,
        is_size(compact, layers + 1) && !compact ==> {
            let grown = symbol_width(compact, layers + 1) - symbol_width(compact, layers);
            &&& grown == 4 || grown == 6
            &&& grown == 6 <==> (symbol_width(compact, layers) / 2) / 16 != (symbol_width(
                compact,
                layers + 1,
            ) / 2) / 16
        },
{
}

} // verus!
