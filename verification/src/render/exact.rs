//! The pristine symbol, rebuilt.
use vstd::prelude::*;
use vstd::string::*;
use crate::codec::qr::{
    build_symbol, dimension_of, is_version, qr_data_cells, qr_symbol, reads_back, total_codewords,
    EcLevel,
};
use crate::order::{positions_set, set_positions};
use crate::text::{decimal, write_decimal, write_signed};

verus! {

/// A rebuilt symbol: `true` is a dark module, row-major.
#[derive(Clone, Debug, PartialEq, Eq)]
pub struct Reconstructed {
    /// Modules across.
    pub dimension: usize,
    /// Modules down: as many as across, but for the symbologies that are not square.
    pub height: usize,
    pub modules: Vec<bool>,
}

impl View for Reconstructed {
    type V = Seq<bool>;

    open spec fn view(&self) -> Seq<bool> {
        self.modules@
    }
}

/// The pixels that `n` modules and the quiet zone on both sides take.
pub open spec fn side(n: int, scale: int, quiet_zone: int) -> int {
    (n + 2 * quiet_zone) * scale
}

/// Whether the pixel in column `px` of row `py` lies in a dark module.
pub open spec fn is_dark_pixel(
    modules: Seq<bool>,
    w: int,
    h: int,
    scale: int,
    quiet_zone: int,
    px: int,
    py: int,
) -> bool {
    let mx = px / scale - quiet_zone;
    let my = py / scale - quiet_zone;
    0 <= mx < w && 0 <= my < h && modules[my * w + mx]
}

/// The symbol as greyscale pixels: every module a square of `scale` pixels, black where it is dark,
/// white elsewhere and in the quiet zone around.
pub open spec fn as_luma(
    modules: Seq<bool>,
    w: int,
    h: int,
    scale: int,
    quiet_zone: int,
) -> Seq<u8> {
    let across = side(w, scale, quiet_zone);
    Seq::new(
        (across * side(h, scale, quiet_zone)) as nat,
        |i: int|
            if is_dark_pixel(modules, w, h, scale, quiet_zone, i % across, i / across) {
                0u8
            } else {
                255u8
            },
    )
}

/// The positions in which two masks differ.
pub open spec fn changed_modules(a: Seq<bool>, b: Seq<bool>) -> Set<int> {
    Set::new(|i: int| 0 <= i < a.len() && a[i] != b[i])
}

/// How many positions of two masks of one length differ.
pub fn count_changed(a: &[bool], b: &[bool]) -> (r: usize)
    requires
        a@.len() == b@.len(),
    ensures
        r == changed_modules(a@, b@).len(),
{
    let mut flags: Vec<bool> = Vec::with_capacity(a.len());
    for i in 0..a.len()
        invariant
            a@.len() == b@.len(),
            flags@.len() == i,
            forall|k: int| 0 <= k < i ==> #[trigger] flags@[k] == (a@[k] != b@[k]),
    {
        flags.push(a[i] != b[i]);
    }
    assert(set_positions(flags@) =~= changed_modules(a@, b@));
    positions_set(flags.as_slice()).len()
}

impl Reconstructed {
    /// One module for every cell.
    pub open spec fn wf(self) -> bool {
        self@.len() == self.dimension * self.height
    }

    /// Wraps row-major modules, when there are as many as the size calls for.
    pub fn from_modules(width: usize, height: usize, modules: Vec<bool>) -> (r: Option<Self>)
        ensures
            r is Some <==> modules@.len() == width * height,
            r is Some ==> r->0.wf() && r->0.dimension == width && r->0.height == height && r->0@
                == modules@,
    {
        proof {
            assert(modules@.len() == modules.len());
        }
        match width.checked_mul(height) {
            Some(n) => if n == modules.len() {
                Some(Self { dimension: width, height, modules })
            } else {
                None
            },
            None => None,
        }
    }

    /// The module in column `x` of row `y`.
    pub fn get(&self, x: usize, y: usize) -> (r: bool)
        requires
            y * self.dimension + x < self@.len(),
        ensures
            r == self@[y * self.dimension + x],
    {
        proof {
            assert(0 <= y * self.dimension) by (nonlinear_arith);
            assert(self@.len() == self.modules.len());
        }
        self.modules[y * self.dimension + x]
    }

    pub fn modules(&self) -> (r: &[bool])
        ensures
            r@ == self@,
    {
        self.modules.as_slice()
    }

    /// Modules differing from another symbol of the same size. `Some(0)` is bit-exact.
    pub fn differences(&self, other: &[bool]) -> (r: Option<usize>)
        ensures
            r is Some <==> other@.len() == self@.len(),
            r is Some ==> r->0 == changed_modules(self@, other@).len(),
    {
        if other.len() != self.modules.len() {
            return None;
        }
        Some(count_changed(self.modules.as_slice(), other))
    }

    /// Renders to an 8-bit greyscale buffer at `scale` pixels per module, with a quiet zone.
    ///
    /// The quiet zone is not decoration: a detector needs it to find the symbol at all.
    pub fn to_luma(&self, scale: usize, quiet_zone: usize) -> (r: (Vec<u8>, usize, usize))
        requires
            self.wf(),
            is_drawable(
                self.dimension as int,
                self.height as int,
                scale as int,
                quiet_zone as int,
                usize::MAX as int,
            ),
        ensures
            r.1 == side(self.dimension as int, scale as int, quiet_zone as int),
            r.2 == side(self.height as int, scale as int, quiet_zone as int),
            r.0@ == as_luma(
                self@,
                self.dimension as int,
                self.height as int,
                scale as int,
                quiet_zone as int,
            ),
            r.0@.len() == r.1 * r.2,
    {
        draw(self.modules.as_slice(), self.dimension, self.height, scale, quiet_zone)
    }
}

/// Whether a picture of `w` by `h` modules has sides of at most `limit` pixels, and no more pixels
/// than can be counted.
pub open spec fn is_drawable(w: int, h: int, scale: int, quiet_zone: int, limit: int) -> bool {
    &&& w + 2 * quiet_zone <= limit
    &&& h + 2 * quiet_zone <= limit
    &&& side(w, scale, quiet_zone) <= limit
    &&& side(h, scale, quiet_zone) <= limit
    &&& side(w, scale, quiet_zone) * side(h, scale, quiet_zone) <= usize::MAX
}

/// Draws row-major modules as greyscale pixels.
pub fn draw(modules: &[bool], w: usize, h: usize, scale: usize, quiet_zone: usize) -> (r: (
    Vec<u8>,
    usize,
    usize,
))
    requires
        modules@.len() == w * h,
        is_drawable(w as int, h as int, scale as int, quiet_zone as int, usize::MAX as int),
    ensures
        r.1 == side(w as int, scale as int, quiet_zone as int),
        r.2 == side(h as int, scale as int, quiet_zone as int),
        r.0@ == as_luma(modules@, w as int, h as int, scale as int, quiet_zone as int),
        r.0@.len() == r.1 * r.2,
{
    let across: usize = (w + 2 * quiet_zone) * scale;
    let down: usize = (h + 2 * quiet_zone) * scale;
    proof {
        assert(0 <= across * down) by (nonlinear_arith);
    }
    let n: usize = across * down;
    let ghost want = as_luma(modules@, w as int, h as int, scale as int, quiet_zone as int);
    let mut out: Vec<u8> = Vec::with_capacity(n);
    let mut i: usize = 0;
    while i < n
        invariant
            modules@.len() == w * h,
            n == across * down,
            across == side(w as int, scale as int, quiet_zone as int),
            down == side(h as int, scale as int, quiet_zone as int),
            w + 2 * quiet_zone <= usize::MAX,
            h + 2 * quiet_zone <= usize::MAX,
            want == as_luma(modules@, w as int, h as int, scale as int, quiet_zone as int),
            i <= n,
            out@.len() == i,
            forall|k: int| 0 <= k < i ==> out@[k] == #[trigger] want[k],
        decreases n - i,
    {
        proof {
            crate::sample::geometry::lemma_coordinates(i as int, across as int, down as int);
            assert(scale > 0) by (nonlinear_arith)
                requires
                    across == (w + 2 * quiet_zone) * scale,
                    across > 0,
                    0 <= scale,
            ;
        }
        let mx: usize = (i % across) / scale;
        let my: usize = (i / across) / scale;
        let dark = if mx >= quiet_zone && mx - quiet_zone < w && my >= quiet_zone && my - quiet_zone
            < h {
            proof {
                crate::sample::geometry::lemma_cell(
                    mx - quiet_zone,
                    my - quiet_zone,
                    w as int,
                    h as int,
                );
                assert(0 <= (my - quiet_zone) * w) by (nonlinear_arith)
                    requires
                        my >= quiet_zone,
                        w >= 0,
                ;
                assert(modules@.len() == modules.len());
            }
            modules[(my - quiet_zone) * w + (mx - quiet_zone)]
        } else {
            false
        };
        out.push(if dark { 0 } else { 255 });
        i = i + 1;
    }
    assert(out@ =~= want);
    (out, across, down)
}

/// The quiet zone is light: no pixel within `quiet_zone` modules of the top or left edge is dark.
pub proof fn law_quiet_zone_is_light(
    modules: Seq<bool>,
    w: int,
    h: int,
    scale: int,
    quiet_zone: int,
    px: int,
    py: int,
)
    requires
        scale > 0,
        0 <= px < side(w, scale, quiet_zone),
        0 <= py < side(h, scale, quiet_zone),
        px < quiet_zone * scale || py < quiet_zone * scale || px >= (quiet_zone + w) * scale || py
            >= (quiet_zone + h) * scale,
    ensures
        !is_dark_pixel(modules, w, h, scale, quiet_zone, px, py),
{
    assert(px < quiet_zone * scale ==> px / scale < quiet_zone) by (nonlinear_arith)
        requires
            scale > 0,
            0 <= px,
    ;
    assert(py < quiet_zone * scale ==> py / scale < quiet_zone) by (nonlinear_arith)
        requires
            scale > 0,
            0 <= py,
    ;
    assert(px >= (quiet_zone + w) * scale ==> px / scale >= quiet_zone + w) by (nonlinear_arith)
        requires
            scale > 0,
            0 <= px,
    ;
    assert(py >= (quiet_zone + h) * scale ==> py / scale >= quiet_zone + h) by (nonlinear_arith)
        requires
            scale > 0,
            0 <= py,
    ;
}

/// Every module is drawn where it stands: column `dx` of row `dy` of its square is black when the
/// module is dark and white when it is light, with the quiet zone on the left of it and above it.
pub proof fn law_modules_are_drawn_where_they_stand(
    modules: Seq<bool>,
    w: int,
    h: int,
    scale: int,
    quiet_zone: int,
    mx: int,
    my: int,
    dx: int,
    dy: int,
)
    requires
        modules.len() == w * h,
        quiet_zone >= 0,
        0 <= mx < w,
        0 <= my < h,
        0 <= dx < scale,
        0 <= dy < scale,
    ensures
        ({
            let across = (quiet_zone + w + quiet_zone) * scale;
            let down = (quiet_zone + h + quiet_zone) * scale;
            let px = (quiet_zone + mx) * scale + dx;
            let py = (quiet_zone + my) * scale + dy;
            let luma = as_luma(modules, w, h, scale, quiet_zone);
            &&& luma.len() == across * down
            &&& 0 <= py * across + px < luma.len()
            &&& modules[my * w + mx] ==> luma[py * across + px] == 0
            &&& !modules[my * w + mx] ==> luma[py * across + px] == 255
        }),
{
    let across = side(w, scale, quiet_zone);
    let down = side(h, scale, quiet_zone);
    let px = (quiet_zone + mx) * scale + dx;
    let py = (quiet_zone + my) * scale + dy;
    assert(0 <= px < across) by (nonlinear_arith)
        requires
            px == (quiet_zone + mx) * scale + dx,
            across == (w + 2 * quiet_zone) * scale,
            0 <= dx < scale,
            0 <= mx < w,
            quiet_zone >= 0,
    ;
    assert(0 <= py < down) by (nonlinear_arith)
        requires
            py == (quiet_zone + my) * scale + dy,
            down == (h + 2 * quiet_zone) * scale,
            0 <= dy < scale,
            0 <= my < h,
            quiet_zone >= 0,
    ;
    crate::sample::geometry::lemma_cell(px, py, across, down);
    vstd::arithmetic::div_mod::lemma_fundamental_div_mod_converse(
        py * across + px,
        across,
        py,
        px,
    );
    vstd::arithmetic::div_mod::lemma_fundamental_div_mod_converse(px, scale, quiet_zone + mx, dx);
    vstd::arithmetic::div_mod::lemma_fundamental_div_mod_converse(py, scale, quiet_zone + my, dy);
    assert(across * down >= 0) by (nonlinear_arith)
        requires
            across > 0,
            down > 0,
    ;
    assert((quiet_zone + w + quiet_zone) * scale == across);
    assert((quiet_zone + h + quiet_zone) * scale == down);
    assert(down * across == across * down) by (nonlinear_arith);
}

/// What differs is counted one by one: nothing differs between equal symbols, something between
/// different ones, and one symbol differs from the other where the other differs from it.
pub proof fn law_differences_tell_symbols_apart(a: Seq<bool>, b: Seq<bool>)
    requires
        a.len() == b.len(),
    ensures
        changed_modules(a, b).len() == 0 <==> a == b,
        changed_modules(a, b).len() <= a.len(),
        changed_modules(a, b) == changed_modules(b, a),
        forall|i: int, m: bool|
            0 <= i < a.len() && a[i] == b[i] && m != b[i] ==> (
            #[trigger] changed_modules(a.update(i, m), b)).len() == changed_modules(a, b).len() + 1,
{
    let all = Set::new(|i: int| 0 <= i < a.len());
    let changed = changed_modules(a, b);
    vstd::set_lib::lemma_int_range(0, a.len() as int);
    assert(all =~= vstd::set_lib::set_int_range(0, a.len() as int));
    assert(changed.subset_of(all));
    vstd::set_lib::lemma_len_subset(changed, all);
    assert(changed_modules(b, a) =~= changed);
    if a == b {
        assert(changed =~= Set::empty());
    } else {
        assert(exists|i: int| 0 <= i < a.len() && a[i] != b[i]) by {
            if forall|i: int| 0 <= i < a.len() ==> a[i] == b[i] {
                assert(a =~= b);
            }
        }
        let i = choose|i: int| 0 <= i < a.len() && a[i] != b[i];
        assert(changed.contains(i));
        if changed.len() == 0 {
            assert(changed =~= Set::empty());
        }
    }
    assert forall|i: int, m: bool| 0 <= i < a.len() && a[i] == b[i] && m != b[i] implies (
    #[trigger] changed_modules(a.update(i, m), b)).len() == changed.len() + 1 by {
        assert(changed_modules(a.update(i, m), b) =~= changed.insert(i));
    }
}

/// Why a symbol was not rebuilt.
#[derive(Clone, Debug)]
pub enum RebuildError {
    /// There is no such version.
    UnknownVersion { version: u32 },
    /// The stream is not as long as the version's.
    WrongCount { expected: usize, version: u32, got: usize },
    /// There are eight mask patterns.
    MaskOutOfRange { mask: i32 },
    /// The levels are L, M, Q and H.
    UnknownLevel { level: String },
    /// The symbol could not be laid out.
    NotBuilt,
}

impl RebuildError {
    /// What is shown to people.
    pub open spec fn spec_message(self) -> Seq<char> {
        match self {
            RebuildError::UnknownVersion { version } => "version "@ + decimal(version as nat)
                + " out of spec"@,
            RebuildError::WrongCount { expected, version, got } => "expected "@ + decimal(
                expected as nat,
            ) + " codewords for version "@ + decimal(version as nat) + ", got "@ + decimal(
                got as nat,
            ),
            RebuildError::MaskOutOfRange { mask } => "mask pattern "@ + crate::text::signed(
                mask as int,
            ) + " out of range"@,
            RebuildError::UnknownLevel { level } => "unknown error-correction level "@ + level@,
            RebuildError::NotBuilt => "symbol could not be laid out"@,
        }
    }

    pub fn message(&self) -> (r: String)
        ensures
            r@ == self.spec_message(),
    {
        match self {
            RebuildError::UnknownVersion { version } => {
                let mut out = String::from_str("version ");
                write_decimal(&mut out, *version as u64);
                out.append(" out of spec");
                out
            },
            RebuildError::WrongCount { expected, version, got } => {
                let mut out = String::from_str("expected ");
                write_decimal(&mut out, *expected as u64);
                out.append(" codewords for version ");
                write_decimal(&mut out, *version as u64);
                out.append(", got ");
                write_decimal(&mut out, *got as u64);
                out
            },
            RebuildError::MaskOutOfRange { mask } => {
                let mut out = String::from_str("mask pattern ");
                write_signed(&mut out, *mask as i64);
                out.append(" out of range");
                out
            },
            RebuildError::UnknownLevel { level } => {
                let mut out = String::from_str("unknown error-correction level ");
                out.append(level.as_str());
                out
            },
            RebuildError::NotBuilt => String::from_str("symbol could not be laid out"),
        }
    }
}

/// What rebuilding a stream gives.
pub open spec fn is_rebuilt(
    codewords: Seq<u8>,
    version: u32,
    ec_level: EcLevel,
    mask: i32,
    r: Result<Reconstructed, RebuildError>,
) -> bool {
    if !is_version(version as int) {
        r matches Err(RebuildError::UnknownVersion { version: v }) && v == version
    } else if codewords.len() != qr_data_cells(version as int).len() / 8 {
        r matches Err(RebuildError::WrongCount { expected, version: v, got }) && expected
            == qr_data_cells(version as int).len() / 8 && v == version && got == codewords.len()
    } else if !(0 <= mask < 8) {
        r matches Err(RebuildError::MaskOutOfRange { mask: m }) && m == mask
    } else {
        r matches Ok(symbol) && symbol.wf() && symbol.dimension == dimension_of(version as int)
            && symbol.height == symbol.dimension && symbol@ == qr_symbol(
            codewords,
            version,
            ec_level.spec_bits(),
            mask as u8,
        ) && reads_back(symbol@, codewords, version, ec_level.spec_bits(), mask as u8)
    }
}

/// Rebuilds a symbol from its corrected codeword stream.
///
/// `codewords` is the full interleaved stream, data and error correction together, both corrected:
/// what an undamaged symbol holds. Reading the rebuilt symbol gives it back.
pub fn from_codewords(codewords: &[u8], version: u32, ec_level: EcLevel, mask_pattern: i32) -> (r:
    Result<Reconstructed, RebuildError>)
    ensures
        is_rebuilt(codewords@, version, ec_level, mask_pattern, r),
{
    if version < 1 || version > 40 {
        return Err(RebuildError::UnknownVersion { version });
    }
    let expected: usize = match total_codewords(version) {
        Some(n) => n,
        None => {
            return Err(RebuildError::NotBuilt);
        },
    };
    if codewords.len() != expected {
        return Err(RebuildError::WrongCount { expected, version, got: codewords.len() });
    }
    if mask_pattern < 0 || mask_pattern >= 8 {
        return Err(RebuildError::MaskOutOfRange { mask: mask_pattern });
    }
    let dimension: usize = 17 + 4 * (version as usize);
    match build_symbol(codewords, version, ec_level.bits(), mask_pattern as u8) {
        Some(modules) => Ok(Reconstructed { dimension, height: dimension, modules }),
        None => Err(RebuildError::NotBuilt),
    }
}

/// One stream has one symbol: whatever damaged it, what is rebuilt from the original codewords is the
/// original symbol, module for module.
pub proof fn law_rebuilding_is_exact(
    codewords: Seq<u8>,
    version: u32,
    ec_level: EcLevel,
    mask: i32,
    original: Reconstructed,
    rebuilt: Reconstructed,
)
    requires
        is_rebuilt(codewords, version, ec_level, mask, Ok(original)),
        is_rebuilt(codewords, version, ec_level, mask, Ok(rebuilt)),
    ensures
        original@ == rebuilt@,
        changed_modules(original@, rebuilt@) == Set::<int>::empty(),
{
    assert(changed_modules(original@, rebuilt@) =~= Set::empty());
}

/// Reading undoes building: the codewords read off a rebuilt symbol are those it was built from.
pub proof fn law_reading_undoes_rebuilding(
    codewords: Seq<u8>,
    version: u32,
    ec_level: EcLevel,
    mask: i32,
    rebuilt: Reconstructed,
)
    requires
        is_rebuilt(codewords, version, ec_level, mask, Ok(rebuilt)),
    ensures
        crate::codec::qr::qr_codewords(
            crate::codec::qr::grid_rows(rebuilt@, rebuilt.dimension as nat),
        ) == Some(codewords),
{
}

} // verus!
