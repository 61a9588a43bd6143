//! Exact PDF417 restoration.
//!
//! PDF417 decodes by scanning rows, with no grid of modules to write corrected bits back into. What it
//! has instead is a completely determined structure: given the corrected codewords, the row and column
//! counts and the error-correction level, the symbol is reproducible exactly. Every row is a start
//! pattern, a left row indicator, the data, a right row indicator and a stop pattern; the indicators
//! follow from the row's position and the symbol's shape, and every codeword maps to one of three
//! cluster patterns. So the restoration is a redraw, and still exact.
//!
//! The comparison is at the granularity the correction worked at: each codeword occupies a known span
//! of seventeen modules in a known row.
use vstd::prelude::*;
use crate::bits::{bit_of_word, word_bit, word_limit};
use crate::clean::qr::CleanError;
use crate::codec::pdf417::{
    are_codewords, are_distinct, correct, find, is_located, is_pattern, is_table, parse_text, pattern_table,
    pdf_corrected, pdf_found, pdf_text, stands_for, Located, CODEWORDS, MOST_CODEWORDS, PATTERNS,
};
use crate::order::{positions_set, set_positions};
use crate::render::exact::Reconstructed;
use crate::render::export::ModuleVerdict;
use crate::sample::geometry::{lemma_cell, lemma_coordinates};

verus! {

/// Modules that a codeword takes.
pub const MODULES_IN_CODEWORD: usize = 17;

/// Modules that the stop pattern takes.
pub const MODULES_IN_STOP_PATTERN: usize = 18;

/// The bars of the start pattern.
pub const START_PATTERN: u32 = 0x1FEA8;

/// The bars of the stop pattern.
pub const STOP_PATTERN: u32 = 0x3FA29;

/// How much taller a row is than a module is wide: rendered one module tall, a structurally perfect
/// symbol will not scan.
pub const ROW_ASPECT: usize = 3;

/// The most rows that a symbol has.
pub const MOST_ROWS: usize = 90;

/// The most data columns that a symbol has.
pub const MOST_COLUMNS: usize = 30;

/// The highest error-correction level.
pub const HIGHEST_LEVEL: u32 = 8;

/// What a scan of a symbol reports: its codewords as they were read and as they were corrected, row by
/// row, and its shape.
#[derive(Clone, Debug)]
pub struct Pdf417Layout {
    pub received: Vec<u32>,
    pub codewords: Vec<u32>,
    /// Codewords the scanner could not read at all.
    pub erasures: Vec<usize>,
    pub rows: usize,
    pub columns: usize,
    pub ec_level: u32,
}

impl Pdf417Layout {
    /// Whether there is a symbol of this shape.
    pub open spec fn is_shaped(self) -> bool {
        &&& 1 <= self.rows <= MOST_ROWS
        &&& 1 <= self.columns <= MOST_COLUMNS
        &&& self.ec_level <= HIGHEST_LEVEL
        &&& self.codewords@.len() == self.rows * self.columns
        &&& self.received@.len() == self.codewords@.len()
    }

    /// The codewords that the error corrector changed.
    pub open spec fn repaired_codewords(self) -> Set<int> {
        Set::new(
            |i: int| 0 <= i < self.codewords@.len() && self.received@[i] != self.codewords@[i],
        )
    }

    /// The positions of the codewords that the error corrector changed, in order.
    pub fn repaired(&self) -> (r: Vec<usize>)
        requires
            self.received@.len() == self.codewords@.len(),
        ensures
            crate::order::lists(r@, self.repaired_codewords()),
            r@.len() == self.repaired_codewords().len(),
    {
        let mut flags: Vec<bool> = Vec::with_capacity(self.codewords.len());
        for i in 0..self.codewords.len()
            invariant
                self.received@.len() == self.codewords@.len(),
                flags@.len() == i,
                forall|k: int|
                    0 <= k < i ==> #[trigger] flags@[k] == (self.received@[k]
                        != self.codewords@[k]),
        {
            flags.push(self.received[i] != self.codewords[i]);
        }
        assert(set_positions(flags@) =~= self.repaired_codewords());
        positions_set(flags.as_slice())
    }
}

// ---- drawing ----
/// Modules across a symbol: start, left indicator, data, right indicator and stop.
pub open spec fn symbol_width(columns: int) -> int {
    17 * columns + 69
}

/// The left row indicator of a row.
pub open spec fn left_indicator(l: Pdf417Layout, y: int) -> int {
    30 * (y / 3) + if y % 3 == 0 {
        (l.rows - 1) / 3
    } else if y % 3 == 1 {
        l.ec_level * 3 + (l.rows - 1) % 3
    } else {
        l.columns - 1
    }
}

/// The right row indicator of a row.
pub open spec fn right_indicator(l: Pdf417Layout, y: int) -> int {
    30 * (y / 3) + if y % 3 == 0 {
        l.columns - 1
    } else if y % 3 == 1 {
        (l.rows - 1) / 3
    } else {
        l.ec_level * 3 + (l.rows - 1) % 3
    }
}

/// The codeword in a slot of a row: the left indicator in the first, the data, the right indicator in
/// the last.
pub open spec fn slot_codeword(l: Pdf417Layout, y: int, slot: int) -> int {
    if slot == 0 {
        left_indicator(l, y)
    } else if slot <= l.columns {
        l.codewords@[y * l.columns + slot - 1] as int
    } else {
        right_indicator(l, y)
    }
}

/// Whether every codeword of a symbol exists.
pub open spec fn is_drawable(l: Pdf417Layout) -> bool {
    forall|i: int| 0 <= i < l.codewords@.len() ==> #[trigger] l.codewords@[i] < CODEWORDS
}

/// Whether the module in column `x` of row `y` of a symbol is `dark`.
pub open spec fn is_module(l: Pdf417Layout, x: int, y: int, dark: bool) -> bool {
    if x < 17 {
        dark == word_bit(START_PATTERN as nat, 17, x)
    } else if x < 17 * (l.columns + 3) {
        exists|p: u32| #[trigger]
            is_pattern(y % 3, slot_codeword(l, y, x / 17 - 1), p) && dark == word_bit(
                p as nat,
                17,
                x % 17,
            )
    } else {
        dark == word_bit(STOP_PATTERN as nat, 18, x - 17 * (l.columns + 3))
    }
}

/// Whether `modules` are the rows of a symbol, each drawn `aspect` times.
pub open spec fn is_drawn(l: Pdf417Layout, aspect: int, modules: Seq<bool>) -> bool {
    let w = symbol_width(l.columns as int);
    &&& modules.len() == w * (l.rows * aspect)
    &&& forall|i: int|
        0 <= i < modules.len() ==> is_module(l, i % w, (i / w) / aspect, #[trigger] modules[i])
}

/// The patterns of a row: the left indicator's, the data's and the right indicator's.
fn row_patterns(l: &Pdf417Layout, table: &[u32], y: usize) -> (r: Vec<u32>)
    requires
        l.is_shaped(),
        is_drawable(*l),
        is_table(table@),
        y < l.rows,
    ensures
        r@.len() == l.columns + 2,
        forall|slot: int|
            0 <= slot < l.columns + 2 ==> is_pattern(
                y as int % 3,
                slot_codeword(*l, y as int, slot),
                #[trigger] r@[slot],
            ),
{
    let cluster: usize = y % 3;
    let level: u32 = l.ec_level;
    let tall: u32 = ((l.rows - 1) / 3) as u32;
    let rest: u32 = level * 3 + ((l.rows - 1) % 3) as u32;
    let wide: u32 = (l.columns - 1) as u32;
    let base: u32 = 30 * ((y / 3) as u32);
    let left: u32 = base + if cluster == 0 {
        tall
    } else if cluster == 1 {
        rest
    } else {
        wide
    };
    let right: u32 = base + if cluster == 0 {
        wide
    } else if cluster == 1 {
        tall
    } else {
        rest
    };
    let mut out: Vec<u32> = Vec::with_capacity(l.columns + 2);
    let mut slot: usize = 0;
    while slot < l.columns + 2
        invariant
            l.is_shaped(),
            is_drawable(*l),
            is_table(table@),
            y < l.rows,
            cluster == y % 3,
            left == left_indicator(*l, y as int),
            right == right_indicator(*l, y as int),
            slot <= l.columns + 2,
            out@.len() == slot,
            forall|k: int|
                0 <= k < slot ==> is_pattern(
                    y as int % 3,
                    slot_codeword(*l, y as int, k),
                    #[trigger] out@[k],
                ),
        decreases l.columns + 2 - slot,
    {
        let codeword: u32 = if slot == 0 {
            left
        } else if slot <= l.columns {
            proof {
                lemma_cell(slot - 1, y as int, l.columns as int, l.rows as int);
                assert(l.codewords@.len() == l.codewords.len());
                assert(l.columns * l.rows == l.rows * l.columns) by (nonlinear_arith);
            }
            l.codewords[y * l.columns + slot - 1]
        } else {
            right
        };
        assert(codeword == slot_codeword(*l, y as int, slot as int));
        assert(codeword < CODEWORDS);
        let v: usize = CODEWORDS * cluster + codeword as usize;
        assert(stands_for(table@[v as int], v as int));
        out.push(table[v]);
        slot = slot + 1;
    }
    out
}

/// The modules of a row.
fn draw_row(l: &Pdf417Layout, patterns: &[u32], Ghost(y): Ghost<int>) -> (r: Vec<bool>)
    requires
        l.is_shaped(),
        0 <= y < l.rows,
        patterns@.len() == l.columns + 2,
        forall|slot: int|
            0 <= slot < l.columns + 2 ==> is_pattern(
                y % 3,
                slot_codeword(*l, y, slot),
                #[trigger] patterns@[slot],
            ),
    ensures
        r@.len() == symbol_width(l.columns as int),
        forall|x: int| 0 <= x < r@.len() ==> is_module(*l, x, y, #[trigger] r@[x]),
{
    let width: usize = 17 * l.columns + 69;
    let data_end: usize = 17 * (l.columns + 3);
    let mut out: Vec<bool> = Vec::with_capacity(width);
    for x in 0..width
        invariant
            l.is_shaped(),
            0 <= y < l.rows,
            patterns@.len() == l.columns + 2,
            forall|slot: int|
                0 <= slot < l.columns + 2 ==> is_pattern(
                    y % 3,
                    slot_codeword(*l, y, slot),
                    #[trigger] patterns@[slot],
                ),
            width == 17 * l.columns + 69,
            data_end == 17 * (l.columns + 3),
            out@.len() == x,
            forall|k: int| 0 <= k < x ==> is_module(*l, k, y, #[trigger] out@[k]),
    {
        let dark = if x < 17 {
            bit_of_word(START_PATTERN, 17, x)
        } else if x < data_end {
            let slot: usize = x / 17 - 1;
            assert(slot < l.columns + 2);
            assert(is_pattern(y % 3, slot_codeword(*l, y, slot as int), patterns@[slot as int]));
            bit_of_word(patterns[slot], 17, x % 17)
        } else {
            bit_of_word(STOP_PATTERN, 18, x - data_end)
        };
        assert(is_module(*l, x as int, y, dark));
        out.push(dark);
    }
    out
}

/// Redraws a symbol from its corrected codewords, each row three modules tall. There is nothing to draw
/// with where two patterns stand for one codeword.
pub fn redraw(l: &Pdf417Layout) -> (r: Option<Vec<bool>>)
    requires
        l.is_shaped(),
        is_drawable(*l),
    ensures
        r is Some <==> are_distinct(PATTERNS as int),
        r is Some ==> is_drawn(*l, ROW_ASPECT as int, r->0@),
{
    let table = match pattern_table() {
        Some(table) => table,
        None => {
            return None;
        },
    };
    let width: usize = 17 * l.columns + 69;
    let mut out: Vec<bool> = Vec::new();
    let mut y: usize = 0;
    proof {
        assert(width * (0 * 3) == 0) by (nonlinear_arith);
    }
    while y < l.rows
        invariant
            l.is_shaped(),
            is_drawable(*l),
            are_distinct(PATTERNS as int),
            is_table(table@),
            width == symbol_width(l.columns as int),
            1 <= width <= 600,
            y <= l.rows,
            out@.len() == width * (y * 3),
            forall|i: int|
                0 <= i < out@.len() ==> is_module(
                    *l,
                    i % width as int,
                    (i / width as int) / 3,
                    #[trigger] out@[i],
                ),
        decreases l.rows - y,
    {
        let patterns = row_patterns(l, table.as_slice(), y);
        let row = draw_row(l, patterns.as_slice(), Ghost(y as int));
        let mut copy: usize = 0;
        while copy < 3
            invariant
                l.is_shaped(),
                width == symbol_width(l.columns as int),
                1 <= width <= 600,
                y < l.rows,
                copy <= 3,
                row@.len() == width,
                forall|x: int| 0 <= x < row@.len() ==> is_module(*l, x, y as int, #[trigger] row@[x]),
                out@.len() == width * (y * 3 + copy),
                forall|i: int|
                    0 <= i < out@.len() ==> is_module(
                        *l,
                        i % width as int,
                        (i / width as int) / 3,
                        #[trigger] out@[i],
                    ),
            decreases 3 - copy,
        {
            let ghost before = out@;
            out.extend_from_slice(row.as_slice());
            proof {
                let line = y * 3 + copy;
                assert(out@ =~= before + row@);
                assert(width * (line + 1) == width * line + width) by (nonlinear_arith);
                assert(line * width == width * line) by (nonlinear_arith);
                assert forall|i: int| 0 <= i < out@.len() implies is_module(
                    *l,
                    i % width as int,
                    (i / width as int) / 3,
                    #[trigger] out@[i],
                ) by {
                    if i < before.len() {
                        assert(out@[i] == before[i]);
                    } else {
                        let x = i - before.len();
                        assert(out@[i] == row@[x]);
                        lemma_cell(x, line, width as int, line + 1);
                        assert(line / 3 == y);
                    }
                }
            }
            copy = copy + 1;
        }
        proof {
            assert(y * 3 + 3 == (y + 1) * 3);
        }
        y = y + 1;
    }
    Some(out)
}

// ---- verdicts ----
/// Whether the module in column `x` of the raster row `py` belongs to a repaired codeword.
pub open spec fn is_repaired_module(l: Pdf417Layout, aspect: int, x: int, py: int) -> bool {
    let column = (x - 34) / 17;
    x >= 34 && column < l.columns && l.repaired_codewords().contains(
        (py / aspect) * l.columns + column,
    )
}

/// The verdict on a module of the rebuild.
pub open spec fn module_verdict(dark: bool, repaired: bool) -> ModuleVerdict {
    if repaired {
        if dark {
            ModuleVerdict::RecoveredDark
        } else {
            ModuleVerdict::RecoveredLight
        }
    } else {
        if dark {
            ModuleVerdict::MatchedDark
        } else {
            ModuleVerdict::MatchedLight
        }
    }
}

/// The verdicts on all modules of the rebuild: those of repaired codewords are recovered.
pub open spec fn verdicts_on(l: Pdf417Layout, aspect: int, modules: Seq<bool>) -> Seq<
    ModuleVerdict,
> {
    let w = symbol_width(l.columns as int);
    Seq::new(
        modules.len(),
        |i: int| module_verdict(modules[i], is_repaired_module(l, aspect, i % w, i / w)),
    )
}

/// Marks every module of a repaired codeword as recovered.
///
/// Each data codeword occupies seventeen modules in one row, after the row's start pattern and left
/// indicator. Everything outside the data columns is structure that the correction never touched.
pub fn build_verdicts(l: &Pdf417Layout, modules: &[bool]) -> (r: Vec<ModuleVerdict>)
    requires
        l.is_shaped(),
        modules@.len() == symbol_width(l.columns as int) * (l.rows * ROW_ASPECT),
    ensures
        r@ == verdicts_on(*l, ROW_ASPECT as int, modules@),
{
    let width: usize = 17 * l.columns + 69;
    let mut out: Vec<ModuleVerdict> = Vec::with_capacity(modules.len());
    for i in 0..modules.len()
        invariant
            l.is_shaped(),
            width == symbol_width(l.columns as int),
            1 <= width <= 600,
            modules@.len() == width * (l.rows * 3),
            out@.len() == i,
            forall|k: int|
                0 <= k < i ==> #[trigger] out@[k] == verdicts_on(*l, 3, modules@)[k],
    {
        proof {
            lemma_coordinates(i as int, width as int, l.rows * 3);
        }
        let x: usize = i % width;
        let row: usize = (i / width) / 3;
        let repaired = if x >= 34 && (x - 34) / 17 < l.columns {
            let column: usize = (x - 34) / 17;
            proof {
                lemma_cell(column as int, row as int, l.columns as int, l.rows as int);
                assert(l.columns * l.rows == l.rows * l.columns) by (nonlinear_arith);
                assert(l.codewords@.len() == l.codewords.len());
                assert(l.received@.len() == l.received.len());
            }
            let c: usize = row * l.columns + column;
            l.received[c] != l.codewords[c]
        } else {
            false
        };
        let dark: bool = modules[i];
        let verdict = match (repaired, dark) {
            (true, true) => ModuleVerdict::RecoveredDark,
            (true, false) => ModuleVerdict::RecoveredLight,
            (false, true) => ModuleVerdict::MatchedDark,
            (false, false) => ModuleVerdict::MatchedLight,
        };
        out.push(verdict);
    }
    assert(out@ =~= verdicts_on(*l, ROW_ASPECT as int, modules@));
    out
}

// ---- restoring ----
/// An exactly restored PDF417 symbol.
#[derive(Clone, Debug)]
pub struct CleanedPdf417 {
    pub payload: String,
    pub width: usize,
    pub height: usize,
    pub rebuilt: Reconstructed,
    /// One verdict per module of the rebuild, at codeword granularity.
    pub verdicts: Vec<ModuleVerdict>,
    /// Codewords the error corrector changed.
    pub repaired_codewords: usize,
    /// Codewords the scanner could not read at all.
    pub erasures: usize,
    pub rows: usize,
    pub columns: usize,
}

/// What restoring a scanned symbol gives.
pub open spec fn is_restored(
    payload: Seq<char>,
    l: Pdf417Layout,
    r: Result<CleanedPdf417, CleanError>,
) -> bool {
    if !l.is_shaped() || !is_drawable(l) || !are_distinct(PATTERNS as int) {
        r == Err::<CleanedPdf417, CleanError>(CleanError::Unreadable)
    } else {
        r matches Ok(c) && {
            &&& c.payload@ == payload
            &&& c.width == symbol_width(l.columns as int)
            &&& c.height == l.rows * ROW_ASPECT
            &&& c.rebuilt.wf()
            &&& c.rebuilt.dimension == c.width
            &&& c.rebuilt.height == c.height
            &&& is_drawn(l, ROW_ASPECT as int, c.rebuilt@)
            &&& c.verdicts@ == verdicts_on(l, ROW_ASPECT as int, c.rebuilt@)
            &&& c.repaired_codewords == l.repaired_codewords().len()
            &&& c.erasures == l.erasures@.len()
            &&& c.rows == l.rows
            &&& c.columns == l.columns
        }
    }
}

/// Restores a symbol from what a scan of it reported.
///
/// A compact symbol, which omits the right row indicator, redraws as its full equivalent: it carries
/// the same data.
pub fn restore(payload: String, layout: &Pdf417Layout) -> (r: Result<CleanedPdf417, CleanError>)
    ensures
        is_restored(payload@, *layout, r),
{
    if layout.rows < 1 || layout.rows > MOST_ROWS || layout.columns < 1 || layout.columns
        > MOST_COLUMNS || layout.ec_level > HIGHEST_LEVEL {
        return Err(CleanError::Unreadable);
    }
    proof {
        assert(0 <= layout.rows * layout.columns <= 90 * 30) by (nonlinear_arith)
            requires
                1 <= layout.rows <= 90,
                1 <= layout.columns <= 30,
        ;
        assert(layout.codewords@.len() == layout.codewords.len());
        assert(layout.received@.len() == layout.received.len());
    }
    if layout.codewords.len() != layout.rows * layout.columns || layout.received.len()
        != layout.codewords.len() {
        return Err(CleanError::Unreadable);
    }
    let mut i: usize = 0;
    while i < layout.codewords.len()
        invariant
            i <= layout.codewords@.len(),
            layout.is_shaped(),
            forall|k: int| 0 <= k < i ==> #[trigger] layout.codewords@[k] < CODEWORDS,
        decreases layout.codewords@.len() - i,
    {
        if layout.codewords[i] as usize >= CODEWORDS {
            assert(!is_drawable(*layout)) by {
                assert(layout.codewords@[i as int] >= CODEWORDS);
            }
            return Err(CleanError::Unreadable);
        }
        i = i + 1;
    }
    let modules = match redraw(layout) {
        Some(modules) => modules,
        None => {
            return Err(CleanError::Unreadable);
        },
    };
    let width: usize = 17 * layout.columns + 69;
    let height: usize = layout.rows * ROW_ASPECT;
    let verdicts = build_verdicts(layout, modules.as_slice());
    let repaired = layout.repaired();
    let rebuilt = match Reconstructed::from_modules(width, height, modules) {
        Some(rebuilt) => rebuilt,
        None => {
            return Err(CleanError::Unreadable);
        },
    };
    Ok(
        CleanedPdf417 {
            payload,
            width,
            height,
            rebuilt,
            verdicts,
            repaired_codewords: repaired.len(),
            erasures: layout.erasures.len(),
            rows: layout.rows,
            columns: layout.columns,
        },
    )
}

/// What comes of a scan of the rows: the symbol that was read restored, or word that its one block could
/// not be corrected.
pub open spec fn is_cleaned(
    reading: Option<(String, Pdf417Layout)>,
    r: Result<CleanedPdf417, CleanError>,
) -> bool {
    match reading {
        Some((payload, layout)) => is_restored(payload@, layout, r),
        None => r == Err::<CleanedPdf417, CleanError>(
            CleanError::Unrecoverable { blocks_total: 1, blocks_decoded: 0 },
        ),
    }
}

/// Restores the symbol that a scan of the rows read.
pub fn clean_reading(reading: Option<(String, Pdf417Layout)>) -> (r: Result<
    CleanedPdf417,
    CleanError,
>)
    ensures
        is_cleaned(reading, r),
{
    match reading {
        Some((payload, layout)) => restore(payload, &layout),
        None => Err(CleanError::Unrecoverable { blocks_total: 1, blocks_decoded: 0 }),
    }
}

// ---- rows ----
/// What a scan of the rows of a symbol reports: its codewords as they were read, row by row, the places of
/// those that could not be read at all, and its shape.
#[derive(Clone, Debug)]
pub struct RowScan {
    pub received: Vec<u32>,
    pub erasures: Vec<usize>,
    pub rows: usize,
    pub columns: usize,
    pub ec_level: u32,
}

/// How many codewords of a symbol of a level are for correcting errors.
pub open spec fn ecc_of(level: u32) -> nat {
    word_limit((level + 1) as nat)
}

/// So many more erasures than half of those codewords are put up with.
pub const SPARE_ERASURES: usize = 3;

impl RowScan {
    /// Whether the codewords can be put to the corrector: they are codewords, of a symbol that is not too
    /// large, and not too many are erased.
    pub open spec fn is_decodable(self) -> bool {
        &&& self.ec_level <= HIGHEST_LEVEL
        &&& 1 <= self.received@.len() <= MOST_CODEWORDS
        &&& are_codewords(self.received@)
        &&& forall|k: int|
            0 <= k < self.erasures@.len() ==> #[trigger] self.erasures@[k] < self.received@.len()
        &&& self.erasures@.len() <= ecc_of(self.ec_level) / 2 + SPARE_ERASURES
    }

    /// Whether this is the layout of the scan, with codewords as they were corrected.
    pub open spec fn is_layout(self, codewords: Seq<u32>, l: Pdf417Layout) -> bool {
        &&& l.received@ == self.received@
        &&& l.codewords@ == codewords
        &&& l.erasures@ == self.erasures@
        &&& l.rows == self.rows
        &&& l.columns == self.columns
        &&& l.ec_level == self.ec_level
    }
}

/// Codewords with the count that leads them: as it is, or made good where it is zero; none where it says
/// more than there is.
pub open spec fn counted(codewords: Seq<u32>, ecc: nat) -> Option<Seq<u32>> {
    let n = codewords.len();
    if n < 4 || codewords[0] > n {
        None
    } else if codewords[0] > 0 {
        Some(codewords)
    } else if ecc < n {
        Some(codewords.update(0, (n - ecc) as u32))
    } else {
        None
    }
}

/// The text and the corrected codewords of a scan of the rows.
pub open spec fn rows_reading(s: RowScan) -> Option<(Seq<char>, Seq<u32>)> {
    if !s.is_decodable() {
        None
    } else {
        match pdf_corrected(
            s.received@,
            ecc_of(s.ec_level),
            s.erasures@.map_values(|e: usize| e as u32),
        ) {
            None => None,
            Some(corrected) => match counted(corrected, ecc_of(s.ec_level)) {
                None => None,
                Some(codewords) => match pdf_text(codewords) {
                    None => None,
                    Some(text) => Some((text, codewords)),
                },
            },
        }
    }
}

/// How many codewords are for correcting errors, and the erased places, where the codewords can be put to
/// the corrector.
fn prepare(s: &RowScan) -> (r: Option<(u32, Vec<u32>)>)
    ensures
        r is Some <==> s.is_decodable(),
        r matches Some((ecc, erasures)) ==> ecc == ecc_of(s.ec_level) && 2 <= ecc <= 512
            && erasures@ == s.erasures@.map_values(|e: usize| e as u32) && forall|k: int|
            0 <= k < erasures@.len() ==> #[trigger] erasures@[k] < s.received@.len(),
{
    if s.ec_level > HIGHEST_LEVEL || s.received.len() < 1 || s.received.len() > MOST_CODEWORDS {
        return None;
    }
    let mut ecc: u32 = 2;
    let mut level: u32 = 0;
    proof {
        reveal_with_fuel(word_limit, 11);
    }
    while level < s.ec_level
        invariant
            level <= s.ec_level <= HIGHEST_LEVEL,
            ecc == ecc_of(level),
            2 <= ecc,
            level == 0 ==> ecc <= 2,
            level == 1 ==> ecc <= 4,
            level == 2 ==> ecc <= 8,
            level == 3 ==> ecc <= 16,
            level == 4 ==> ecc <= 32,
            level == 5 ==> ecc <= 64,
            level == 6 ==> ecc <= 128,
            level == 7 ==> ecc <= 256,
            ecc <= 512,
        decreases s.ec_level - level,
    {
        ecc = 2 * ecc;
        level = level + 1;
    }
    if s.erasures.len() > ecc as usize / 2 + SPARE_ERASURES {
        return None;
    }
    for k in 0..s.received.len()
        invariant
            forall|j: int| 0 <= j < k ==> #[trigger] s.received@[j] < CODEWORDS,
    {
        if s.received[k] as usize >= CODEWORDS {
            return None;
        }
    }
    let mut erasures: Vec<u32> = Vec::new();
    let mut k: usize = 0;
    while k < s.erasures.len()
        invariant
            s.received@.len() <= MOST_CODEWORDS,
            k <= s.erasures@.len(),
            erasures@.len() == k,
            forall|j: int| 0 <= j < k ==> #[trigger] s.erasures@[j] < s.received@.len(),
            forall|j: int| 0 <= j < k ==> #[trigger] erasures@[j] == s.erasures@[j] as u32,
        decreases s.erasures@.len() - k,
    {
        let place: usize = s.erasures[k];
        if place >= s.received.len() {
            return None;
        }
        erasures.push(place as u32);
        k = k + 1;
    }
    proof {
        assert(erasures@ =~= s.erasures@.map_values(|e: usize| e as u32));
    }
    Some((ecc, erasures))
}

/// Corrects what a scan of the rows reports, and reads its text.
pub fn decode_rows(s: RowScan) -> (r: Option<(String, Pdf417Layout)>)
    ensures
        match rows_reading(s) {
            Some((text, codewords)) => r matches Some((payload, l)) && payload@ == text
                && s.is_layout(codewords, l),
            None => r is None,
        },
{
    let (ecc, erasures) = prepare(&s)?;
    let mut codewords: Vec<u32> = correct(s.received.as_slice(), ecc, erasures.as_slice())?;
    let n: usize = codewords.len();
    if n < 4 || codewords[0] as usize > n {
        return None;
    }
    if codewords[0] == 0 {
        if ecc as usize >= n {
            return None;
        }
        codewords.set(0, n as u32 - ecc);
    }
    let payload: String = parse_text(codewords.as_slice(), s.ec_level)?;
    Some(
        (
            payload,
            Pdf417Layout {
                received: s.received,
                codewords,
                erasures: s.erasures,
                rows: s.rows,
                columns: s.columns,
                ec_level: s.ec_level,
            },
        ),
    )
}

/// What comes of what a scanner reports: the symbol restored from its corrected codewords, or word that
/// they could not be corrected.
pub open spec fn is_cleaned_scan(
    scanned: Option<RowScan>,
    r: Result<CleanedPdf417, CleanError>,
) -> bool {
    match scanned {
        Some(s) if rows_reading(s) is Some => exists|l: Pdf417Layout|
            {
                &&& #[trigger] s.is_layout((rows_reading(s)->0).1, l)
                &&& is_restored((rows_reading(s)->0).0, l, r)
            },
        _ => r == Err::<CleanedPdf417, CleanError>(
            CleanError::Unrecoverable { blocks_total: 1, blocks_decoded: 0 },
        ),
    }
}

/// Restores the symbol whose rows a scanner read.
pub fn clean_scan(scanned: Option<RowScan>) -> (r: Result<CleanedPdf417, CleanError>)
    ensures
        is_cleaned_scan(scanned, r),
{
    let reading = match scanned {
        Some(s) => decode_rows(s),
        None => None,
    };
    clean_reading(reading)
}

// ---- codeword widths ----
/// A corner of a symbol, unless it was not found.
pub type Corner = Option<(u32, u32)>;

/// A width measured over a stop pattern, as a codeword would have it.
pub open spec fn rescaled(w: int) -> int {
    w * MODULES_IN_CODEWORD / MODULES_IN_STOP_PATTERN as int
}

/// The larger of two widths.
pub open spec fn wider(a: int, b: int) -> int {
    if a >= b {
        a
    } else {
        b
    }
}

/// The smaller of two widths.
pub open spec fn narrower(a: int, b: int) -> int {
    if a <= b {
        a
    } else {
        b
    }
}

/// The horizontal distance between two corners, or what stands in for it where one is missing.
pub open spec fn distance(a: Corner, b: Corner, otherwise: int) -> int {
    match (a, b) {
        (Some(p), Some(q)) => if p.0 >= q.0 {
            p.0 - q.0
        } else {
            q.0 - p.0
        },
        _ => otherwise,
    }
}

fn rescale(w: u32) -> (r: u32)
    ensures
        r == rescaled(w as int),
{
    (w as u64 * MODULES_IN_CODEWORD as u64 / MODULES_IN_STOP_PATTERN as u64) as u32
}

fn measure(a: Corner, b: Corner, otherwise: u32) -> (r: u32)
    ensures
        r == distance(a, b, otherwise as int),
{
    match (a, b) {
        (Some(p), Some(q)) => if p.0 >= q.0 {
            p.0 - q.0
        } else {
            q.0 - p.0
        },
        _ => otherwise,
    }
}

/// The widest that a codeword can be, by the corners of the symbol.
pub open spec fn widest(p: Seq<Corner>) -> int {
    wider(
        wider(distance(p[0], p[4], 0), rescaled(distance(p[6], p[2], 0))),
        wider(distance(p[1], p[5], 0), rescaled(distance(p[7], p[3], 0))),
    )
}

/// The narrowest that a codeword can be, by the corners of the symbol.
pub open spec fn narrowest(p: Seq<Corner>) -> int {
    let most = u32::MAX as int;
    narrower(
        narrower(distance(p[0], p[4], most), rescaled(distance(p[6], p[2], most))),
        narrower(distance(p[1], p[5], most), rescaled(distance(p[7], p[3], most))),
    )
}

/// Widest plausible codeword, in pixels. A width that cannot be measured counts as zero.
///
/// The stop pattern is a different number of modules from a codeword, so the two are rescaled against
/// each other before being compared.
pub fn max_codeword_width(p: &[Corner]) -> (r: u32)
    requires
        p@.len() == 8,
    ensures
        r == widest(p@),
{
    let a: u32 = measure(p[0], p[4], 0);
    let b: u32 = rescale(measure(p[6], p[2], 0));
    let c: u32 = measure(p[1], p[5], 0);
    let d: u32 = rescale(measure(p[7], p[3], 0));
    let top: u32 = if a >= b {
        a
    } else {
        b
    };
    let bottom: u32 = if c >= d {
        c
    } else {
        d
    };
    if top >= bottom {
        top
    } else {
        bottom
    }
}

/// Narrowest plausible codeword, in pixels. A width that cannot be measured counts as the widest there
/// is.
pub fn min_codeword_width(p: &[Corner]) -> (r: u32)
    requires
        p@.len() == 8,
    ensures
        r == narrowest(p@),
{
    let a: u32 = measure(p[0], p[4], u32::MAX);
    let b: u32 = rescale(measure(p[6], p[2], u32::MAX));
    let c: u32 = measure(p[1], p[5], u32::MAX);
    let d: u32 = rescale(measure(p[7], p[3], u32::MAX));
    let top: u32 = if a <= b {
        a
    } else {
        b
    };
    let bottom: u32 = if c <= d {
        c
    } else {
        d
    };
    if top <= bottom {
        top
    } else {
        bottom
    }
}

// ---- images ----
/// What a row scanner walks by: the corners of the area of the codewords, and the bounds on the width of
/// one.
#[derive(Clone, Copy, Debug, PartialEq, Eq)]
pub struct RowBounds {
    pub top_left: Corner,
    pub bottom_left: Corner,
    pub top_right: Corner,
    pub bottom_right: Corner,
    pub min_codeword_width: u32,
    pub max_codeword_width: u32,
}

/// The bounds that the corners of a symbol give.
pub open spec fn bounds_of(p: Seq<Corner>) -> RowBounds {
    RowBounds {
        top_left: p[4],
        bottom_left: p[5],
        top_right: p[6],
        bottom_right: p[7],
        min_codeword_width: narrowest(p) as u32,
        max_codeword_width: widest(p) as u32,
    }
}

/// Whether this is what comes of the symbol that was found in an image, with what a scanner reads in its
/// rows.
pub open spec fn is_scanned<F: Fn(&Located, &RowBounds) -> Option<RowScan>>(
    scan: F,
    found: (nat, nat, Seq<bool>, Seq<Corner>),
    r: Result<CleanedPdf417, CleanError>,
) -> bool {
    exists|symbol: Located, scanned: Option<RowScan>|
        is_located(found, symbol) && #[trigger] call_ensures(
            scan,
            (&symbol, &bounds_of(found.3)),
            scanned,
        ) && is_cleaned_scan(scanned, r)
}

/// Detects and exactly restores a PDF417 symbol in a luminance image.
///
/// `scan` walks the rows of the symbol that was located, and reports its codewords as they were read, or
/// nothing where it cannot tell the rows. `rxing` decodes rows without handing out the codewords, so the
/// scanner is the caller's; they are corrected and parsed here.
pub fn clean_luma<F: Fn(&Located, &RowBounds) -> Option<RowScan>>(
    luma: &[u8],
    width: u32,
    height: u32,
    scan: F,
) -> (r: Result<CleanedPdf417, CleanError>)
    requires
        forall|symbol: Located, bounds: RowBounds| #[trigger]
            call_requires(scan, (&symbol, &bounds)),
    ensures
        match pdf_found(luma@, width, height) {
            Some(found) => is_scanned(scan, found, r),
            None => r == Err::<CleanedPdf417, CleanError>(CleanError::NotDetected),
        },
        luma@.len() != width * height ==> r == Err::<CleanedPdf417, CleanError>(
            CleanError::NotDetected,
        ),
{
    let symbol = match find(luma, width, height) {
        Some(symbol) => symbol,
        None => {
            return Err(CleanError::NotDetected);
        },
    };
    let corners = symbol.corners.as_slice();
    let bounds = RowBounds {
        top_left: corners[4],
        bottom_left: corners[5],
        top_right: corners[6],
        bottom_right: corners[7],
        min_codeword_width: min_codeword_width(corners),
        max_codeword_width: max_codeword_width(corners),
    };
    let scanned = scan(&symbol, &bounds);
    let ghost read = scanned;
    let r = clean_scan(scanned);
    proof {
        assert(bounds == bounds_of(symbol.corners@));
        assert(call_ensures(scan, (&symbol, &bounds), read));
    }
    r
}

// ---- laws ----
/// An undamaged symbol shows nothing recovered.
pub proof fn law_undamaged_symbols_show_nothing_recovered(
    l: Pdf417Layout,
    aspect: int,
    modules: Seq<bool>,
    i: int,
)
    requires
        l.repaired_codewords() == Set::<int>::empty(),
        0 <= i < modules.len(),
    ensures
        verdicts_on(l, aspect, modules)[i] == ModuleVerdict::MatchedDark || verdicts_on(
            l,
            aspect,
            modules,
        )[i] == ModuleVerdict::MatchedLight,
{
}

/// Every repaired codeword is marked: all its modules are shown as recovered.
pub proof fn law_repaired_codewords_are_marked(
    l: Pdf417Layout,
    modules: Seq<bool>,
    codeword: int,
    dx: int,
    dy: int,
)
    requires
        l.is_shaped(),
        is_drawn(l, 3, modules),
        l.repaired_codewords().contains(codeword),
        0 <= dx < 17,
        0 <= dy < 3,
    ensures
        ({
            let w = symbol_width(l.columns as int);
            let row = codeword / l.columns as int;
            let column = codeword % l.columns as int;
            let i = (3 * row + dy) * w + 34 + 17 * column + dx;
            0 <= i < modules.len() && (verdicts_on(l, 3, modules)[i] == ModuleVerdict::RecoveredDark
                || verdicts_on(l, 3, modules)[i] == ModuleVerdict::RecoveredLight)
        }),
{
    let w = symbol_width(l.columns as int);
    assert(l.columns * l.rows == l.rows * l.columns) by (nonlinear_arith);
    lemma_coordinates(codeword, l.columns as int, l.rows as int);
    let row = codeword / l.columns as int;
    let column = codeword % l.columns as int;
    let x = 34 + 17 * column + dx;
    let y = 3 * row + dy;
    lemma_cell(x, y, w, l.rows * 3);
    assert(y / 3 == row);
    assert((x - 34) / 17 == column);
}

/// The shape of a symbol can be read off its row indicators. Less thirty for every three rows above, those on
/// the left of the first three rows tell how many rows there are in threes, the level with what is left of
/// the rows, and the columns; those on the right tell the same, each a row later.
pub proof fn law_indicators_tell_the_shape(l: Pdf417Layout, y: int)
    requires
        l.is_shaped(),
        l.rows >= 3,
        0 <= y < l.rows,
    ensures
        ({
            let left = |row: int| slot_codeword(l, row, 0) - 30 * (row / 3);
            let right = |row: int| slot_codeword(l, row, l.columns + 1) - 30 * (row / 3);
            &&& l.rows == 3 * left(0) + left(1) % 3 + 1
            &&& l.ec_level == left(1) / 3
            &&& l.columns == left(2) + 1
            &&& right(1) == left(0)
            &&& right(2) == left(1)
            &&& right(0) == left(2)
            &&& left(y) == left(y % 3)
            &&& right(y) == right(y % 3)
            &&& 0 <= left(y) < 30
            &&& 0 <= right(y) < 30
        }),
{
}

/// The data of a row stand between its indicators, in order.
pub proof fn law_rows_hold_their_codewords(l: Pdf417Layout, y: int, column: int)
    requires
        l.is_shaped(),
        0 <= y < l.rows,
        0 <= column < l.columns,
    ensures
        slot_codeword(l, y, 1 + column) == l.codewords@[y * l.columns + column],
{
}

/// One pattern stands for a codeword in a cluster.
proof fn lemma_pattern_is_unique(cluster: int, codeword: int, p: u32, q: u32)
    requires
        are_distinct(PATTERNS as int),
        is_pattern(cluster, codeword, p),
        is_pattern(cluster, codeword, q),
    ensures
        p == q,
{
    use_pattern(CODEWORDS * cluster + codeword, p, q);
}

proof fn use_pattern(number: int, p: u32, q: u32)
    requires
        are_distinct(PATTERNS as int),
        stands_for(p, number),
        stands_for(q, number),
    ensures
        p == q,
{
    let a = choose|a: nat|
        a < PATTERNS && #[trigger] crate::codec::pdf417::pdf_value(a) == number + 1
            && crate::codec::pdf417::pdf_symbol(a) == p;
    let b = choose|b: nat|
        b < PATTERNS && #[trigger] crate::codec::pdf417::pdf_value(b) == number + 1
            && crate::codec::pdf417::pdf_symbol(b) == q;
    assert(crate::codec::pdf417::pdf_value(a) == crate::codec::pdf417::pdf_value(b));
}

/// A drawn symbol can be read: in each of the three raster rows of row `y`, the seventeen modules after the
/// start pattern and the slots before are the pattern of the slot's codeword in the cluster `y % 3`, the most
/// significant bit first, dark for one.
pub proof fn law_slots_show_their_patterns(
    l: Pdf417Layout,
    modules: Seq<bool>,
    y: int,
    slot: int,
    line: int,
    bit: int,
    pattern: u32,
)
    requires
        l.is_shaped(),
        are_distinct(PATTERNS as int),
        is_drawn(l, 3, modules),
        0 <= y < l.rows,
        0 <= slot < l.columns + 2,
        0 <= line < 3,
        0 <= bit < 17,
        stands_for(pattern, 929 * (y % 3) + slot_codeword(l, y, slot)),
    ensures
        ({
            let i = (3 * y + line) * (17 * l.columns + 69) + 17 * (slot + 1) + bit;
            &&& 0 <= i < modules.len()
            &&& modules[i] <==> pattern as int / vstd::arithmetic::power2::pow2(
                (16 - bit) as nat,
            ) as int % 2 == 1
        }),
{
    let w = symbol_width(l.columns as int);
    let x = 17 * (slot + 1) + bit;
    let i = (3 * y + line) * w + x;
    assert(w * (l.rows * 3) == modules.len());
    lemma_cell(x, 3 * y + line, w, l.rows * 3);
    assert((3 * y + line) / 3 == y);
    assert(x / 17 - 1 == slot && x % 17 == bit);
    assert(is_module(l, i % w, (i / w) / 3, modules[i]));
    let p = choose|p: u32| #[trigger]
        is_pattern(y % 3, slot_codeword(l, y, slot), p) && modules[i] == word_bit(
            p as nat,
            17,
            bit,
        );
    assert(is_pattern(y % 3, slot_codeword(l, y, slot), pattern));
    lemma_pattern_is_unique(y % 3, slot_codeword(l, y, slot), p, pattern);
    crate::bits::law_bits_come_most_significant_first(pattern as nat, 17, bit);
}

/// Every row starts with the start pattern, eight dark modules, six that alternate and three light ones, and
/// stops with the stop pattern: bars and spaces of seven, one, one, three, one, one, one, two and one
/// modules.
pub proof fn law_rows_start_and_stop(
    l: Pdf417Layout,
    modules: Seq<bool>,
    line: int,
    x: int,
)
    requires
        l.is_shaped(),
        is_drawn(l, 3, modules),
        0 <= line < 3 * l.rows,
    ensures
        ({
            let w = 17 * l.columns + 69;
            let start = line * w;
            let stop = line * w + w - 18;
            &&& 0 <= start && line * w + w <= modules.len()
            &&& 0 <= x < 17 ==> (modules[start + x] <==> x < 8 || x == 9 || x == 11 || x == 13)
            &&& 0 <= x < 18 ==> (modules[stop + x] <==> x < 7 || x == 8 || x == 12 || x == 14 || x
                == 17)
        }),
{
    let w = symbol_width(l.columns as int);
    assert(w * (l.rows * 3) == modules.len());
    lemma_cell(0, line, w, l.rows * 3);
    lemma_cell(w - 1, line, w, l.rows * 3);
    reveal_with_fuel(word_bit, 19);
    if 0 <= x < 17 {
        lemma_cell(x, line, w, l.rows * 3);
        assert(is_module(l, (line * w + x) % w, ((line * w + x) / w) / 3, modules[line * w + x]));
    }
    if 0 <= x < 18 {
        let at = w - 18 + x;
        lemma_cell(at, line, w, l.rows * 3);
        assert(is_module(
            l,
            (line * w + at) % w,
            ((line * w + at) / w) / 3,
            modules[line * w + at],
        ));
    }
}

/// Verdicts tell of every module what it is, and of the modules of a codeword whether it was read wrong;
/// start, stop and indicators are never shown as recovered.
pub proof fn law_verdicts_follow_the_codewords(
    l: Pdf417Layout,
    modules: Seq<bool>,
    line: int,
    x: int,
)
    requires
        l.is_shaped(),
        modules.len() == (17 * l.columns + 69) * (3 * l.rows),
        0 <= line < 3 * l.rows,
        0 <= x < 17 * l.columns + 69,
    ensures
        ({
            let i = line * (17 * l.columns + 69) + x;
            let verdict = verdicts_on(l, 3, modules)[i];
            let codeword = (line / 3) * l.columns + (x - 34) / 17;
            let recovered = verdict == ModuleVerdict::RecoveredDark || verdict
                == ModuleVerdict::RecoveredLight;
            &&& 0 <= i < modules.len()
            &&& modules[i] <==> verdict == ModuleVerdict::RecoveredDark || verdict
                == ModuleVerdict::MatchedDark
            &&& !modules[i] <==> verdict == ModuleVerdict::RecoveredLight || verdict
                == ModuleVerdict::MatchedLight
            &&& 34 <= x < 34 + 17 * l.columns ==> 0 <= codeword < l.codewords@.len() && (recovered
                <==> l.received@[codeword] != l.codewords@[codeword])
            &&& x < 34 || x >= 34 + 17 * l.columns ==> !recovered
        }),
{
    let w = symbol_width(l.columns as int);
    lemma_cell(x, line, w, 3 * l.rows);
    if 34 <= x < 34 + 17 * l.columns {
        assert(l.columns * l.rows == l.rows * l.columns) by (nonlinear_arith);
        lemma_cell((x - 34) / 17, line / 3, l.columns as int, l.rows as int);
    }
}

/// Each level has twice as many codewords for correcting errors as the one below, the lowest two.
pub proof fn law_levels_double(level: u32)
    requires
        level <= HIGHEST_LEVEL,
    ensures
        ecc_of(0) == 2,
        level > 0 ==> ecc_of(level) == 2 * ecc_of((level - 1) as u32),
        ecc_of(level) == vstd::arithmetic::power2::pow2((level + 1) as nat),
        HIGHEST_LEVEL == 8,
{
    reveal_with_fuel(word_limit, 3);
    crate::bits::law_word_limits_are_powers_of_two((level + 1) as nat);
}

/// The leading count covers everything that is not for correcting errors. One that is missing is made good;
/// one that is there stays; nothing else is touched, and nothing is counted where the count says more than
/// there is.
pub proof fn law_missing_counts_are_made_good(codewords: Seq<u32>, ecc: nat)
    requires
        codewords.len() <= MOST_CODEWORDS,
    ensures
        counted(codewords, ecc) matches Some(c) ==> {
            &&& c.len() == codewords.len() >= 4
            &&& 1 <= c[0] <= c.len()
            &&& codewords[0] != 0 ==> c[0] == codewords[0]
            &&& codewords[0] == 0 ==> c[0] + ecc == c.len()
            &&& forall|k: int| 1 <= k < c.len() ==> #[trigger] c[k] == codewords[k]
        },
        codewords.len() >= 4 && 1 <= codewords[0] <= codewords.len() ==> counted(codewords, ecc)
            is Some,
        codewords.len() >= 4 && codewords[0] == 0 && ecc < codewords.len() ==> counted(
            codewords,
            ecc,
        ) is Some,
{
}

/// Scans with more erasures than half of the codewords for correction and three are not put to the
/// corrector.
pub proof fn law_too_many_erasures_are_refused(s: RowScan)
    requires
        s.erasures@.len() > ecc_of(s.ec_level) / 2 + 3,
    ensures
        rows_reading(s) is None,
{
}

/// How far apart the columns of two corners are, when both were found.
pub open spec fn columns_apart(a: Corner, b: Corner, w: int) -> bool {
    match (a, b) {
        (Some((ax, _)), Some((bx, _))) => w == ax - bx || w == bx - ax,
        _ => false,
    }
}

/// No codeword is wider than the widest, or narrower than the narrowest, of what the corners show: the start
/// patterns as they are, the stop patterns taken seventeen eighteenths.
pub proof fn law_widths_bound_what_the_corners_show(p: Seq<Corner>, w: int)
    requires
        p.len() == 8,
        0 <= w,
    ensures
        columns_apart(p[0], p[4], w) || columns_apart(p[1], p[5], w) ==> narrowest(p) <= w
            <= widest(p),
        columns_apart(p[6], p[2], w) || columns_apart(p[7], p[3], w) ==> narrowest(p) <= 17 * w / 18
            <= widest(p),
{
}

/// The bounds on the width of a codeword are themselves shown by corners, unless none are.
pub proof fn law_widths_are_shown_by_corners(p: Seq<Corner>)
    requires
        p.len() == 8,
    ensures
        ({
            let w = widest(p);
            ||| columns_apart(p[0], p[4], w)
            ||| columns_apart(p[1], p[5], w)
            ||| exists|s: int| 17 * s / 18 == w && 0 <= s && #[trigger] columns_apart(p[6], p[2], s)
            ||| exists|s: int| 17 * s / 18 == w && 0 <= s && #[trigger] columns_apart(p[7], p[3], s)
            ||| w == 0
        }),
        ({
            let w = narrowest(p);
            ||| columns_apart(p[0], p[4], w)
            ||| columns_apart(p[1], p[5], w)
            ||| exists|s: int| 17 * s / 18 == w && 0 <= s && #[trigger] columns_apart(p[6], p[2], s)
            ||| exists|s: int| 17 * s / 18 == w && 0 <= s && #[trigger] columns_apart(p[7], p[3], s)
            ||| w == 17 * u32::MAX as int / 18
        }),
{
    let (a, b) = (distance(p[6], p[2], 0), distance(p[7], p[3], 0));
    assert(p[6] is Some && p[2] is Some ==> columns_apart(p[6], p[2], a));
    assert(p[7] is Some && p[3] is Some ==> columns_apart(p[7], p[3], b));
}

/// A restored symbol is drawn three modules to a row, from the codewords as they were corrected, and is
/// marked where they were not received so.
pub proof fn law_restored_rows_are_three_modules_tall(
    payload: Seq<char>,
    l: Pdf417Layout,
    c: CleanedPdf417,
)
    requires
        is_restored(payload, l, Ok(c)),
    ensures
        c.width == 17 * l.columns + 69,
        c.height == 3 * l.rows,
        c.rebuilt.dimension == c.width,
        c.rebuilt.height == c.height,
        is_drawn(l, 3, c.rebuilt@),
        c.verdicts@ == verdicts_on(l, 3, c.rebuilt@),
        c.payload@ == payload,
        c.repaired_codewords == Set::new(
            |i: int| 0 <= i < l.codewords@.len() && l.received@[i] != l.codewords@[i],
        ).len(),
{
    assert(l.repaired_codewords() =~= Set::new(
        |i: int| 0 <= i < l.codewords@.len() && l.received@[i] != l.codewords@[i],
    ));
}

/// Every scan of a symbol that can exist is put to the corrector: codewords under 929, at most 928 of
/// them, at a level of up to eight, with not more erasures than half of the codewords for correction
/// and three.
pub proof fn law_possible_scans_are_decoded(s: RowScan)
    requires
        s.ec_level <= 8,
        1 <= s.received@.len() <= 928,
        forall|k: int| 0 <= k < s.received@.len() ==> #[trigger] s.received@[k] < 929,
        forall|k: int| 0 <= k < s.erasures@.len() ==> #[trigger] s.erasures@[k] < s.received@.len(),
        s.erasures@.len() <= ecc_of(s.ec_level) / 2 + 3,
    ensures
        s.is_decodable(),
{
}

/// A scan without codewords that can be corrected is answered with one block of which none decoded; one
/// with them is not.
pub proof fn law_uncorrected_scans_are_reported(
    scanned: Option<RowScan>,
    r: Result<CleanedPdf417, CleanError>,
)
    requires
        is_cleaned_scan(scanned, r),
    ensures
        scanned is None || rows_reading(scanned->0) is None ==> r
            == Err::<CleanedPdf417, CleanError>(
            CleanError::Unrecoverable { blocks_total: 1, blocks_decoded: 0 },
        ),
        r is Ok ==> scanned is Some && scanned->0.is_decodable() && r->Ok_0.payload@ == (
        rows_reading(scanned->0)->0).0,
{
}

} // verus!
