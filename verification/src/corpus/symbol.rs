//! Encoding pristine symbols and keeping their ground truth.
use vstd::prelude::*;
use vstd::string::*;
use crate::codec::qr::{
    codewords_held, dimension_of, encode_qr, grid_rows, is_symbol_of, is_version,
    lemma_letters_differ, qr_data_cells, qr_encoded, EcLevel, QrEncoding,
};
use crate::corpus::picture::{Colour, Picture};
use crate::render::exact::{
    as_luma, changed_modules, count_changed, draw, is_drawable, is_rebuilt,
    law_modules_are_drawn_where_they_stand, side, RebuildError, Reconstructed,
};
use crate::Symbology;

verus! {

/// The pristine module matrix, before anything is done to it: `true` is a dark module.
///
/// Ground truth for reconstruction identity.
#[derive(Clone, Debug, PartialEq, Eq)]
pub struct TruthMatrix {
    pub width: usize,
    pub height: usize,
    pub modules: Vec<bool>,
}

impl View for TruthMatrix {
    type V = Seq<bool>;

    open spec fn view(&self) -> Seq<bool> {
        self.modules@
    }
}

impl TruthMatrix {
    pub open spec fn wf(self) -> bool {
        self@.len() == self.width * self.height
    }

    pub fn new(width: usize, height: usize, modules: Vec<bool>) -> (r: Self)
        requires
            modules@.len() == width * height,
        ensures
            r.wf(),
            r.width == width,
            r.height == height,
            r@ == modules@,
    {
        Self { width, height, modules }
    }

    /// The module in column `x` of row `y`.
    pub fn get(&self, x: usize, y: usize) -> (r: bool)
        requires
            y * self.width + x < self@.len(),
        ensures
            r == self@[y * self.width + x],
    {
        proof {
            assert(0 <= y * self.width) by (nonlinear_arith);
            assert(self@.len() == self.modules.len());
        }
        self.modules[y * self.width + x]
    }

    pub fn modules(&self) -> (r: &[bool])
        ensures
            r@ == self@,
    {
        self.modules.as_slice()
    }

    /// Modules differing between two matrices of the same size: zero means bit-exact.
    pub fn differences(&self, other: &TruthMatrix) -> (r: Option<usize>)
        requires
            self.wf(),
            other.wf(),
        ensures
            r is Some <==> self.width == other.width && self.height == other.height,
            r is Some ==> r->0 == changed_modules(self@, other@).len(),
    {
        if self.width != other.width || self.height != other.height {
            return None;
        }
        Some(count_changed(self.modules.as_slice(), other.modules.as_slice()))
    }
}

/// A generated symbol plus everything needed to judge a reconstruction of it.
#[derive(Clone, Debug)]
pub struct Specimen {
    pub symbology: Symbology,
    pub payload: String,
    pub truth: TruthMatrix,
    /// Symbol version, where the symbology has one.
    pub version: u32,
    /// Data-mask pattern, where the symbology has one; `-1` if not.
    pub mask: i32,
    /// Error-correction level as written by the encoder: `"L"`, `"M"`, `"Q"` or `"H"`.
    pub ec_level: String,
}

impl Specimen {
    /// Modules across the symbol, excluding any quiet zone.
    pub fn modules_across(&self) -> (r: usize)
        ensures
            r == self.truth.width,
    {
        self.truth.width
    }
}

/// Why a specimen was not generated.
#[derive(Clone, Debug)]
pub enum GenerateError {
    /// Only QR symbols are generated.
    NotWired { symbology: Symbology },
    /// There is no such error-correction level.
    UnknownLevel { level: String },
    /// The encoder refused, and says why.
    EncodeFailed { why: String },
}

/// Whether `r` is what the encoder's answer makes of a payload at a level.
pub open spec fn is_specimen(
    payload: Seq<char>,
    ec_level: Seq<char>,
    encoding: Result<(u32, i32, Seq<bool>), Seq<char>>,
    r: Result<Specimen, GenerateError>,
) -> bool {
    match encoding {
        Ok((version, mask, modules)) => r matches Ok(s) && {
            &&& s.symbology == Symbology::QrCode
            &&& s.payload@ == payload
            &&& s.truth.wf()
            &&& s.truth.width == dimension_of(version as int)
            &&& s.truth.height == dimension_of(version as int)
            &&& s.truth@ == modules
            &&& s.version == version
            &&& s.mask == mask
            &&& s.ec_level@ == ec_level
        },
        Err(why) => r matches Err(GenerateError::EncodeFailed { why: said }) && said@ == why,
    }
}

/// What the encoder's answer comes to, over plain values.
pub open spec fn answer_of(encoding: Result<QrEncoding, String>) -> Result<
    (u32, i32, Seq<bool>),
    Seq<char>,
> {
    match encoding {
        Ok(code) => Ok((code.version, code.mask, code.modules@)),
        Err(why) => Err(why@),
    }
}

/// Makes a specimen of what the encoder answered.
pub fn specimen_of(payload: &str, ec_level: &str, encoding: Result<QrEncoding, String>) -> (r:
    Result<Specimen, GenerateError>)
    requires
        encoding is Ok ==> is_version(encoding->Ok_0.version as int)
            && encoding->Ok_0.modules@.len() == dimension_of(encoding->Ok_0.version as int)
            * dimension_of(encoding->Ok_0.version as int),
    ensures
        is_specimen(payload@, ec_level@, answer_of(encoding), r),
{
    match encoding {
        Ok(code) => {
            let dimension: usize = 17 + 4 * (code.version as usize);
            Ok(
                Specimen {
                    symbology: Symbology::QrCode,
                    payload: String::from_str(payload),
                    truth: TruthMatrix::new(dimension, dimension, code.modules),
                    version: code.version,
                    mask: code.mask,
                    ec_level: String::from_str(ec_level),
                },
            )
        },
        Err(why) => Err(GenerateError::EncodeFailed { why }),
    }
}

/// Encodes a payload into a pristine symbol.
///
/// Only QR is wired: there mask and version are both recoverable from the symbol itself.
pub fn generate(symbology: Symbology, payload: &str, ec_level: &str) -> (r: Result<
    Specimen,
    GenerateError,
>)
    ensures
        symbology != Symbology::QrCode ==> (r matches Err(GenerateError::NotWired { symbology: s })
            && s == symbology),
        symbology == Symbology::QrCode && (forall|level: EcLevel| ec_level@ != level.spec_letter())
            ==> (r matches Err(GenerateError::UnknownLevel { level }) && level@ == ec_level@),
        forall|level: EcLevel|
            symbology == Symbology::QrCode && ec_level@ == #[trigger] level.spec_letter()
                ==> is_specimen(payload@, ec_level@, qr_encoded(payload@, level.spec_bits()), r),
        r is Ok ==> is_readable(r->Ok_0),
{
    match symbology {
        Symbology::QrCode => generate_qr(payload, ec_level),
        other => Err(GenerateError::NotWired { symbology: other }),
    }
}

/// Whether a specimen's modules are the symbol of some codewords, at its version, level and mask.
pub open spec fn is_readable(s: Specimen) -> bool {
    &&& is_version(s.version as int)
    &&& 0 <= s.mask < 8
    &&& exists|codewords: Seq<u8>, level: EcLevel|
        s.ec_level@ == level.spec_letter() && #[trigger] is_symbol_of(
            s.truth@,
            codewords,
            s.version,
            level.spec_bits(),
            s.mask as u8,
        )
}

fn generate_qr(payload: &str, ec_level: &str) -> (r: Result<Specimen, GenerateError>)
    ensures
        (forall|level: EcLevel| ec_level@ != level.spec_letter()) ==> (r matches Err(
            GenerateError::UnknownLevel { level },
        ) && level@ == ec_level@),
        forall|level: EcLevel|
            ec_level@ == #[trigger] level.spec_letter() ==> is_specimen(
                payload@,
                ec_level@,
                qr_encoded(payload@, level.spec_bits()),
                r,
            ),
        r is Ok ==> is_readable(r->Ok_0),
{
    match EcLevel::from_letter(ec_level) {
        Some(level) => {
            proof {
                assert forall|other: EcLevel| ec_level@ == #[trigger] other.spec_letter() implies other
                    == level by {
                    lemma_letters_differ(level, other);
                }
            }
            let encoding = encode_qr(payload, level.bits());
            specimen_of(payload, ec_level, encoding)
        },
        None => {
            proof {
                assert forall|other: EcLevel| ec_level@ != #[trigger] other.spec_letter() by {}
            }
            Err(GenerateError::UnknownLevel { level: String::from_str(ec_level) })
        },
    }
}

/// A grey level as a colour.
pub open spec fn grey(v: u8) -> Colour {
    (v, v, v)
}

/// Whether a picture shows modules: black where they are dark, white elsewhere and in the quiet zone.
pub open spec fn shows(
    picture: Picture,
    truth: TruthMatrix,
    scale: int,
    quiet_zone: int,
) -> bool {
    &&& picture.wf()
    &&& picture.width == side(truth.width as int, scale, quiet_zone)
    &&& picture.height == side(truth.height as int, scale, quiet_zone)
    &&& picture@ == as_luma(
        truth@,
        truth.width as int,
        truth.height as int,
        scale,
        quiet_zone,
    ).map_values(|v: u8| grey(v))
}

/// Renders a specimen.
///
/// `scale` is pixels per module and `quiet_zone` is measured in modules. The quiet zone is not
/// decoration: detectors need it to find the symbol at all.
pub fn render(specimen: &Specimen, scale: u32, quiet_zone: u32) -> (r: Picture)
    requires
        specimen.truth.wf(),
        is_drawable(
            specimen.truth.width as int,
            specimen.truth.height as int,
            scale as int,
            quiet_zone as int,
            u32::MAX as int,
        ),
    ensures
        shows(r, specimen.truth, scale as int, quiet_zone as int),
{
    let (luma, w, h) = draw(
        specimen.truth.modules.as_slice(),
        specimen.truth.width,
        specimen.truth.height,
        scale as usize,
        quiet_zone as usize,
    );
    let mut pixels: Vec<Colour> = Vec::with_capacity(luma.len());
    for i in 0..luma.len()
        invariant
            pixels@.len() == i,
            forall|k: int| 0 <= k < i ==> #[trigger] pixels@[k] == grey(luma@[k]),
    {
        pixels.push((luma[i], luma[i], luma[i]));
    }
    assert(pixels@ =~= luma@.map_values(|v: u8| grey(v)));
    Picture { width: w as u32, height: h as u32, pixels }
}

/// Encoding is deterministic: two specimens of one payload at one level have the same modules.
pub proof fn law_generation_is_deterministic(
    payload: Seq<char>,
    level: EcLevel,
    a: Specimen,
    b: Specimen,
)
    requires
        is_specimen(payload, level.spec_letter(), qr_encoded(payload, level.spec_bits()), Ok(a)),
        is_specimen(payload, level.spec_letter(), qr_encoded(payload, level.spec_bits()), Ok(b)),
    ensures
        a.truth.width == b.truth.width,
        a.truth.height == b.truth.height,
        a.version == b.version,
        a.mask == b.mask,
        changed_modules(a.truth@, b.truth@) == Set::<int>::empty(),
{
    assert(changed_modules(a.truth@, b.truth@) =~= Set::empty());
}

/// What is rebuilt from the codewords of a generated symbol is that symbol, module for module.
pub proof fn law_generated_symbols_rebuild_to_themselves(
    s: Specimen,
    level: EcLevel,
    codewords: Seq<u8>,
    built: Result<Reconstructed, RebuildError>,
)
    requires
        is_readable(s),
        s.ec_level@ == level.spec_letter(),
        codewords == codewords_held(
            grid_rows(s.truth@, dimension_of(s.version as int) as nat),
            s.mask as int,
            qr_data_cells(s.version as int),
        ),
        is_rebuilt(codewords, s.version, level, s.mask, built),
    ensures
        built matches Ok(symbol) && symbol@ == s.truth@ && changed_modules(symbol@, s.truth@)
            == Set::<int>::empty(),
{
    let (held, of) = choose|held: Seq<u8>, of: EcLevel|
        s.ec_level@ == of.spec_letter() && #[trigger] is_symbol_of(
            s.truth@,
            held,
            s.version,
            of.spec_bits(),
            s.mask as u8,
        );
    lemma_letters_differ(level, of);
    assert(held == codewords);
    if let Ok(symbol) = built {
        assert(changed_modules(symbol@, s.truth@) =~= Set::empty());
    }
}

/// A rendered specimen shows its modules: in the square of every module each pixel is black when it is
/// dark and white when it is light.
pub proof fn law_renders_show_their_modules(
    picture: Picture,
    truth: TruthMatrix,
    scale: int,
    quiet_zone: int,
    mx: int,
    my: int,
    dx: int,
    dy: int,
)
    requires
        truth.wf(),
        shows(picture, truth, scale, quiet_zone),
        quiet_zone >= 0,
        0 <= mx < truth.width,
        0 <= my < truth.height,
        0 <= dx < scale,
        0 <= dy < scale,
    ensures
        picture.width == (quiet_zone + truth.width + quiet_zone) * scale,
        picture.height == (quiet_zone + truth.height + quiet_zone) * scale,
        ({
            let shown = picture.at(
                (quiet_zone + mx) * scale + dx,
                (quiet_zone + my) * scale + dy,
            );
            &&& truth@[my * truth.width + mx] ==> shown == (0u8, 0u8, 0u8)
            &&& !truth@[my * truth.width + mx] ==> shown == (255u8, 255u8, 255u8)
        }),
{
    law_modules_are_drawn_where_they_stand(
        truth@,
        truth.width as int,
        truth.height as int,
        scale,
        quiet_zone,
        mx,
        my,
        dx,
        dy,
    );
}

/// A specimen says of itself what was asked for: its payload, its level, and the width of its version.
pub proof fn law_specimens_say_what_was_asked_for(
    payload: Seq<char>,
    ec_level: Seq<char>,
    encoding: Result<(u32, i32, Seq<bool>), Seq<char>>,
    s: Specimen,
)
    requires
        is_specimen(payload, ec_level, encoding, Ok(s)),
    ensures
        encoding is Ok,
        s.symbology == Symbology::QrCode,
        s.payload@ == payload,
        s.ec_level@ == ec_level,
        s.truth.width == s.truth.height == 21 + 4 * (s.version - 1),
        s.truth@.len() == s.truth.width * s.truth.width,
{
}

} // verus!
