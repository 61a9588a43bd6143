//! Cleaning any of the four supported symbologies.
//!
//! QR is rebuilt from its corrected codewords, and gets the bootstrap loop: its Reed-Solomon blocks
//! are interleaved, so a contiguous occlusion is spread across every block, and surviving blocks can
//! localize the damage for the failed ones.
//!
//! Aztec, DataMatrix and PDF417 are re-encoded from the recovered payload and checked. Every
//! re-encoding is decoded again and its payload compared before it is offered for saving: a
//! restoration that does not scan, or scans to something else, is worse than none at all.
use vstd::prelude::*;
use vstd::string::*;
use crate::clean::qr::{
    clean_luma, invert, is_cleaned_luma, is_reconstruction, negative, CleanError, Cleaned,
};
use crate::codec::formats::{
    make_symbol, reading_of, symbol_of, Encoded, Scan,
};
use crate::codec::qr::EcLevel;
use crate::scan::{may_be_read, read_image};
use crate::render::exact::{as_luma, is_rebuilt, side, RebuildError, Reconstructed};
use crate::render::export::{quiet_zone_modules, quiet_zone_of};
use crate::Symbology;

verus! {

/// Pixels per module of the picture in which a re-encoding is checked.
pub const CHECK_SCALE: usize = 6;

/// How faithful a restoration is to the original symbol.
#[derive(Clone, Copy, Debug, PartialEq, Eq, Structural)]
pub enum Fidelity {
    /// Rebuilt from the corrected codewords: bit-identical to the original symbol.
    Exact,
    /// Re-encoded from the recovered payload and verified to decode identically. Same content,
    /// possibly different structure.
    Reencoded,
}

impl Fidelity {
    pub fn label(self) -> (r: &'static str)
        ensures
            r@ == match self {
                Fidelity::Exact => "exact restoration"@,
                Fidelity::Reencoded => "re-encoded"@,
            },
    {
        match self {
            Fidelity::Exact => "exact restoration",
            Fidelity::Reencoded => "re-encoded",
        }
    }
}

/// A cleaned symbol of any supported symbology.
#[derive(Clone, Debug)]
pub struct CleanedAny {
    pub symbology: Symbology,
    pub payload: String,
    pub fidelity: Fidelity,
    pub rebuilt: Reconstructed,
    /// The symbol as sampled, when it can be aligned with the rebuild: only for an exact
    /// restoration, since a re-encoding may not even be the same size.
    pub sampled: Option<Vec<bool>>,
    /// Blocks the bootstrap loop rescued, for the formats that have more than one.
    pub blocks_rescued: usize,
    pub blocks_total: usize,
    pub source_inverted: bool,
    /// The centres of the finder patterns in the source image, as bit patterns of single-precision
    /// coordinates; none for a re-encoding.
    pub points: Vec<(u32, u32)>,
}

impl CleanedAny {
    pub fn needed_barclean(&self) -> (r: bool)
        ensures
            r <==> self.blocks_rescued > 0,
    {
        self.blocks_rescued > 0
    }
}

/// Whether `r` is what the rebuild of a cleaned QR symbol gives.
pub open spec fn is_exact_of(
    qr: Cleaned,
    built: Result<Reconstructed, RebuildError>,
    r: Result<CleanedAny, CleanError>,
) -> bool {
    match built {
        Err(_) => r == Err::<CleanedAny, CleanError>(CleanError::Unreadable),
        Ok(rebuilt) => r matches Ok(c) && {
            &&& c.symbology == Symbology::QrCode
            &&& c.payload == qr.payload
            &&& c.fidelity == Fidelity::Exact
            &&& c.rebuilt == rebuilt
            &&& c.sampled == Some(qr.sampled)
            &&& c.blocks_rescued == if qr.blocks_total >= qr.blocks_decoded_initially {
                qr.blocks_total - qr.blocks_decoded_initially
            } else {
                0
            }
            &&& c.blocks_total == qr.blocks_total
            &&& c.source_inverted == qr.source_inverted
            &&& c.points == qr.points
        },
    }
}

/// Whether restoring a cleaned QR symbol can give `r`.
pub open spec fn is_exact(qr: Cleaned, r: Result<CleanedAny, CleanError>) -> bool {
    exists|built: Result<Reconstructed, RebuildError>| #[trigger]
        is_reconstruction(qr, built) && is_exact_of(qr, built, r)
}

/// Restores a cleaned QR symbol from its codewords.
pub fn restore_exactly(qr: Cleaned) -> (r: Result<CleanedAny, CleanError>)
    ensures
        is_exact(qr, r),
        qr.is_rebuildable() ==> r is Ok,
        qr.is_rebuildable() && qr.is_aligned() ==> r->Ok_0.sampled->0@.len()
            == r->Ok_0.rebuilt@.len(),
{
    let built = qr.reconstruct();
    let ghost ended = built;
    assert(is_reconstruction(qr, ended));
    match built {
        Err(_) => Err(CleanError::Unreadable),
        Ok(rebuilt) => {
            let blocks_rescued: usize = qr.blocks_rescued();
            let r = Ok(
                CleanedAny {
                    symbology: Symbology::QrCode,
                    payload: qr.payload,
                    fidelity: Fidelity::Exact,
                    rebuilt,
                    sampled: Some(qr.sampled),
                    blocks_rescued,
                    blocks_total: qr.blocks_total,
                    source_inverted: qr.source_inverted,
                    points: qr.points,
                },
            );
            assert(is_exact_of(qr, ended, r));
            proof {
                if qr.is_rebuildable() {
                    let level = choose|level: EcLevel|
                        qr.ec_level@ == #[trigger] level.spec_letter();
                    assert(is_rebuilt(qr.codewords@, qr.version, level, qr.mask, ended));
                }
            }
            r
        },
    }
}

/// What a scan of the image and one of its negative come to: the first that read anything counts.
pub open spec fn recognised(upright: Option<Scan>, negative: Option<Scan>) -> Result<
    (Symbology, String, bool),
    CleanError,
> {
    match (upright, negative) {
        (Some(s), _) => match s.symbology {
            Some(symbology) => Ok((symbology, s.payload, false)),
            None => Err(CleanError::NotDetected),
        },
        (None, Some(s)) => match s.symbology {
            Some(symbology) => Ok((symbology, s.payload, true)),
            None => Err(CleanError::NotDetected),
        },
        (None, None) => Err(CleanError::NotDetected),
    }
}

/// Picks between a scan of the image and one of its negative: the first that read anything counts,
/// and says whether the source was light-on-dark. Only the four symbologies are accepted.
pub fn recognise(upright: Option<Scan>, negative: Option<Scan>) -> (r: Result<
    (Symbology, String, bool),
    CleanError,
>)
    ensures
        r == recognised(upright, negative),
{
    let (found, inverted) = match upright {
        Some(s) => (s, false),
        None => match negative {
            Some(s) => (s, true),
            None => {
                return Err(CleanError::NotDetected);
            },
        },
    };
    match found.symbology {
        Some(symbology) => Ok((symbology, found.payload, inverted)),
        None => Err(CleanError::NotDetected),
    }
}

/// Accepts a re-encoding when a scan of it reads the payload it was made from.
pub fn accept(payload: &String, rebuilt: Reconstructed, check: Option<Scan>) -> (r: Result<
    Reconstructed,
    CleanError,
>)
    ensures
        r == if check is Some && check->0.payload@ == payload@ {
            Ok::<Reconstructed, CleanError>(rebuilt)
        } else {
            Err(CleanError::Unreadable)
        },
{
    match check {
        Some(read) => if read.payload == *payload {
            Ok(rebuilt)
        } else {
            Err(CleanError::Unreadable)
        },
        None => Err(CleanError::Unreadable),
    }
}

/// Whether re-encoding a text can give `r`: the symbol that the encoder makes of it, when there is one
/// and a scan of its picture reads the text.
pub open spec fn is_reencoded(
    payload: Seq<char>,
    symbology: Symbology,
    r: Result<Reconstructed, CleanError>,
) -> bool {
    match symbol_of(payload, symbology) {
        None => r == Err::<Reconstructed, CleanError>(CleanError::Unreadable),
        Some((w, h, modules)) => exists|check: Option<Scan>|
            may_be_read(
                as_luma(modules, w as int, h as int, CHECK_SCALE as int, quiet_zone_of(symbology)),
                side(w as int, CHECK_SCALE as int, quiet_zone_of(symbology)) as u32,
                side(h as int, CHECK_SCALE as int, quiet_zone_of(symbology)) as u32,
                #[trigger] reading_of(check),
            ) && if check is Some && check->0.payload@ == payload {
                r matches Ok(symbol) && symbol.wf() && symbol.dimension == w && symbol.height == h
                    && symbol@ == modules
            } else {
                r == Err::<Reconstructed, CleanError>(CleanError::Unreadable)
            },
    }
}

/// A symbol of at most 4096 modules a side can be rendered for checking.
proof fn lemma_checkable(w: int, h: int, quiet: int)
    requires
        1 <= w <= 4096,
        1 <= h <= 4096,
        0 <= quiet <= 4,
    ensures
        side(w, CHECK_SCALE as int, quiet) <= 24624,
        side(h, CHECK_SCALE as int, quiet) <= 24624,
        side(w, CHECK_SCALE as int, quiet) * side(h, CHECK_SCALE as int, quiet) <= u32::MAX,
{
    let a = side(w, CHECK_SCALE as int, quiet);
    let b = side(h, CHECK_SCALE as int, quiet);
    assert(a * b <= 24624 * 24624) by (nonlinear_arith)
        requires
            0 <= a <= 24624,
            0 <= b <= 24624,
    ;
}

/// Re-encodes a payload and checks that the result decodes back to it.
///
/// What a restoration scans to is a payment or a URL: silently altered it is far worse than a failed
/// clean. Nothing leaves here unchecked.
fn reencode(payload: &String, symbology: Symbology) -> (r: Result<Reconstructed, CleanError>)
    ensures
        is_reencoded(payload@, symbology, r),
{
    let Encoded { width, height, modules } = match make_symbol(payload.as_str(), symbology) {
        Some(symbol) => symbol,
        None => {
            return Err(CleanError::Unreadable);
        },
    };
    let rebuilt = match Reconstructed::from_modules(width, height, modules) {
        Some(rebuilt) => rebuilt,
        None => {
            return Err(CleanError::Unreadable);
        },
    };
    let quiet: usize = quiet_zone_modules(symbology);
    proof {
        lemma_checkable(width as int, height as int, quiet as int);
    }
    let (luma, across, down) = rebuilt.to_luma(CHECK_SCALE, quiet);
    let check = read_image(luma.as_slice(), across as u32, down as u32);
    let ghost seen = check;
    let r = accept(payload, rebuilt, check);
    assert(may_be_read(luma@, across as u32, down as u32, reading_of(seen)));
    r
}

/// Whether these are scans of an image and, when the image reads as nothing, of its negative.
pub open spec fn are_scans(
    luma: Seq<u8>,
    width: u32,
    height: u32,
    upright: Option<Scan>,
    flipped: Option<Scan>,
) -> bool {
    &&& may_be_read(luma, width, height, reading_of(upright))
    &&& if upright is Some {
        flipped is None
    } else {
        may_be_read(negative(luma), width, height, reading_of(flipped))
    }
}

/// Whether `r` is what comes of a text that was read in a symbology, and of its re-encoding.
pub open spec fn is_reading_restored(
    found: Result<(Symbology, String, bool), CleanError>,
    built: Result<Reconstructed, CleanError>,
    r: Result<CleanedAny, CleanError>,
) -> bool {
    match (found, built) {
        (Err(e), _) => r == Err::<CleanedAny, CleanError>(e),
        (Ok(_), Err(e)) => r == Err::<CleanedAny, CleanError>(e),
        (Ok((symbology, payload, inverted)), Ok(rebuilt)) => r matches Ok(c) && {
            &&& c.symbology == symbology
            &&& c.payload == payload
            &&& c.fidelity == Fidelity::Reencoded
            &&& c.rebuilt == rebuilt
            &&& c.sampled is None
            &&& c.blocks_rescued == 0
            &&& c.blocks_total == 1
            &&& c.source_inverted == inverted
            &&& c.points@ == Seq::<(u32, u32)>::empty()
        },
    }
}

/// Whether reading an image as any scanner would and re-encoding what was read can give `r`.
pub open spec fn is_reencoding(
    luma: Seq<u8>,
    width: u32,
    height: u32,
    r: Result<CleanedAny, CleanError>,
) -> bool {
    exists|upright: Option<Scan>, flipped: Option<Scan>, built: Result<Reconstructed, CleanError>|
        are_scans(luma, width, height, upright, flipped) && (recognised(upright, flipped) matches Ok(
            (symbology, payload, inverted),
        ) ==> is_reencoded(payload@, symbology, built)) && #[trigger] is_reading_restored(
            recognised(upright, flipped),
            built,
            r,
        )
}

/// Whether restoring the symbol in an image can give `r`, when cleaning it as a QR symbol gave `qr`.
pub open spec fn is_restored(
    luma: Seq<u8>,
    width: u32,
    height: u32,
    qr: Result<Cleaned, CleanError>,
    r: Result<CleanedAny, CleanError>,
) -> bool {
    match qr {
        Ok(c) => r is Ok && is_exact(c, r),
        Err(_) => is_reencoding(luma, width, height, r),
    }
}

/// Whether restoring the symbol in an image can give `r`.
pub open spec fn is_cleaned_any(
    luma: Seq<u8>,
    width: u32,
    height: u32,
    r: Result<CleanedAny, CleanError>,
) -> bool {
    exists|qr: Result<Cleaned, CleanError>| #[trigger]
        is_cleaned_luma(luma, width, height, qr) && is_restored(luma, width, height, qr, r)
}

/// Detects, decodes and restores a symbol of any supported symbology.
///
/// QR takes the full cleaning path. The rest decode conventionally, upright and then inverted, and
/// are re-encoded. An image with another number of pixels than its sides say holds nothing.
pub fn clean(luma: &[u8], width: u32, height: u32) -> (r: Result<CleanedAny, CleanError>)
    ensures
        is_cleaned_any(luma@, width, height, r),
        luma@.len() != width * height ==> r == Err::<CleanedAny, CleanError>(
            CleanError::NotDetected,
        ),
        r is Ok && r->Ok_0.sampled is Some ==> r->Ok_0.sampled->0@.len() == r->Ok_0.rebuilt@.len(),
{
    let first = clean_luma(luma, width, height);
    let ghost tried = first;
    assert(is_cleaned_luma(luma@, width, height, tried));
    match first {
        Ok(qr) => {
            let r = restore_exactly(qr);
            assert(is_restored(luma@, width, height, tried, r));
            r
        },
        Err(_) => {
            let r = read_and_reencode(luma, width, height);
            assert(is_restored(luma@, width, height, tried, r));
            r
        },
    }
}

/// Reads a symbol as any scanner would, in either polarity, and re-encodes it.
fn read_and_reencode(luma: &[u8], width: u32, height: u32) -> (r: Result<CleanedAny, CleanError>)
    ensures
        is_reencoding(luma@, width, height, r),
        width == 0 || height == 0 || luma@.len() != width * height ==> r
            == Err::<CleanedAny, CleanError>(CleanError::NotDetected),
{
    let upright = read_image(luma, width, height);
    let flipped = match upright {
        Some(_) => None,
        None => {
            let inverted = invert(luma);
            read_image(inverted.as_slice(), width, height)
        },
    };
    let ghost (first, second) = (upright, flipped);
    let found = recognise(upright, flipped);
    let ghost read = found;
    assert(are_scans(luma@, width, height, first, second));
    match found {
        Err(e) => {
            let r = Err(e);
            let ghost none = Err::<Reconstructed, CleanError>(CleanError::Unreadable);
            assert(is_reading_restored(recognised(first, second), none, r));
            r
        },
        Ok((symbology, payload, source_inverted)) => {
            let built = reencode(&payload, symbology);
            let ghost made = built;
            let r = match built {
                Err(e) => Err(e),
                Ok(rebuilt) => {
                    let points: Vec<(u32, u32)> = Vec::new();
                    assert(points@ =~= Seq::<(u32, u32)>::empty());
                    Ok(
                        CleanedAny {
                            symbology,
                            payload,
                            fidelity: Fidelity::Reencoded,
                            rebuilt,
                            sampled: None,
                            blocks_rescued: 0,
                            blocks_total: 1,
                            source_inverted,
                            points,
                        },
                    )
                },
            };
            assert(is_reading_restored(recognised(first, second), made, r));
            r
        },
    }
}

/// Only an exact restoration carries modules to compare with, and it is of a QR symbol; a re-encoding
/// rescues no block.
pub proof fn law_only_exact_restorations_compare(
    luma: Seq<u8>,
    width: u32,
    height: u32,
    c: CleanedAny,
)
    requires
        is_cleaned_any(luma, width, height, Ok(c)),
    ensures
        c.sampled is Some <==> c.fidelity == Fidelity::Exact,
        c.fidelity == Fidelity::Exact ==> c.symbology == Symbology::QrCode,
        c.fidelity == Fidelity::Reencoded ==> c.blocks_rescued == 0,
        c.rebuilt.wf(),
{
    let r = Ok::<CleanedAny, CleanError>(c);
    let qr = choose|qr: Result<Cleaned, CleanError>| #[trigger]
        is_cleaned_luma(luma, width, height, qr) && is_restored(luma, width, height, qr, r);
    if let Ok(q) = qr {
        let built = choose|built: Result<Reconstructed, RebuildError>| #[trigger]
            is_reconstruction(q, built) && is_exact_of(q, built, r);
        let level = choose|level: EcLevel| q.ec_level@ == #[trigger] level.spec_letter();
        assert(is_rebuilt(q.codewords@, q.version, level, q.mask, built));
    }
}

/// Nothing that was re-encoded leaves unchecked: a scan of its picture read the payload it was made
/// from, and it is what the encoder makes of that payload.
pub proof fn law_reencodings_read_back(luma: Seq<u8>, width: u32, height: u32, c: CleanedAny)
    requires
        is_cleaned_any(luma, width, height, Ok(c)),
        c.fidelity == Fidelity::Reencoded,
    ensures
        symbol_of(c.payload@, c.symbology) == Some(
            (c.rebuilt.dimension as nat, c.rebuilt.height as nat, c.rebuilt@),
        ),
        exists|check: Scan|
            check.payload@ == c.payload@ && may_be_read(
                as_luma(
                    c.rebuilt@,
                    c.rebuilt.dimension as int,
                    c.rebuilt.height as int,
                    CHECK_SCALE as int,
                    quiet_zone_of(c.symbology),
                ),
                side(c.rebuilt.dimension as int, CHECK_SCALE as int, quiet_zone_of(c.symbology)) as u32,
                side(c.rebuilt.height as int, CHECK_SCALE as int, quiet_zone_of(c.symbology)) as u32,
                #[trigger] reading_of(Some(check)),
            ),
{
    let r = Ok::<CleanedAny, CleanError>(c);
    let qr = choose|qr: Result<Cleaned, CleanError>| #[trigger]
        is_cleaned_luma(luma, width, height, qr) && is_restored(luma, width, height, qr, r);
    if let Ok(q) = qr {
        let built = choose|built: Result<Reconstructed, RebuildError>| #[trigger]
            is_reconstruction(q, built) && is_exact_of(q, built, r);
        assert(is_exact_of(q, built, r));
    }
    let (upright, flipped, built) = choose|
        upright: Option<Scan>,
        flipped: Option<Scan>,
        built: Result<Reconstructed, CleanError>,
    |
        are_scans(luma, width, height, upright, flipped) && (recognised(upright, flipped) matches Ok(
            (symbology, payload, inverted),
        ) ==> is_reencoded(payload@, symbology, built)) && #[trigger] is_reading_restored(
            recognised(upright, flipped),
            built,
            r,
        );
    assert(is_reencoded(c.payload@, c.symbology, built));
    let (w, h, modules) = symbol_of(c.payload@, c.symbology)->0;
    let check = choose|check: Option<Scan>|
        may_be_read(
            as_luma(modules, w as int, h as int, CHECK_SCALE as int, quiet_zone_of(c.symbology)),
            side(w as int, CHECK_SCALE as int, quiet_zone_of(c.symbology)) as u32,
            side(h as int, CHECK_SCALE as int, quiet_zone_of(c.symbology)) as u32,
            #[trigger] reading_of(check),
        ) && if check is Some && check->0.payload@ == c.payload@ {
            built matches Ok(symbol) && symbol.wf() && symbol.dimension == w && symbol.height == h
                && symbol@ == modules
        } else {
            built == Err::<Reconstructed, CleanError>(CleanError::Unreadable)
        };
    assert(reading_of(Some(check->0)) == reading_of(check));
}

/// What is restored was read off the image. An exact restoration is the symbol that a cleaned QR reading of
/// it rebuilds to, with its payload, its modules and its polarity; a re-encoding has the payload and the
/// symbology of a scan of the image, or of its negative where it says so and the image itself read as
/// nothing.
pub proof fn law_restorations_say_what_was_read(
    luma: Seq<u8>,
    width: u32,
    height: u32,
    c: CleanedAny,
)
    requires
        is_cleaned_any(luma, width, height, Ok(c)),
    ensures
        c.fidelity == Fidelity::Exact ==> exists|qr: Cleaned|
            #![trigger is_cleaned_luma(luma, width, height, Ok(qr))]
            is_cleaned_luma(luma, width, height, Ok(qr)) && is_reconstruction(qr, Ok(c.rebuilt))
                && c.payload == qr.payload && c.sampled == Some(qr.sampled) && c.source_inverted
                == qr.source_inverted && c.points == qr.points && c.blocks_total == qr.blocks_total
                && (qr.blocks_decoded_initially <= qr.blocks_total ==> c.blocks_rescued
                + qr.blocks_decoded_initially == qr.blocks_total),
        c.fidelity == Fidelity::Reencoded ==> {
            &&& exists|e: CleanError| is_cleaned_luma(luma, width, height, Err(e))
            &&& exists|scan: Scan|
                scan.symbology == Some(c.symbology) && scan.payload == c.payload && may_be_read(
                    if c.source_inverted {
                        luma.map_values(|v: u8| (255 - v) as u8)
                    } else {
                        luma
                    },
                    width,
                    height,
                    #[trigger] reading_of(Some(scan)),
                )
            &&& c.source_inverted ==> may_be_read(luma, width, height, None)
        },
{
    let r = Ok::<CleanedAny, CleanError>(c);
    let qr = choose|qr: Result<Cleaned, CleanError>| #[trigger]
        is_cleaned_luma(luma, width, height, qr) && is_restored(luma, width, height, qr, r);
    match qr {
        Ok(q) => {
            assert(is_cleaned_luma(luma, width, height, Ok(q)));
            let built = choose|built: Result<Reconstructed, RebuildError>| #[trigger]
                is_reconstruction(q, built) && is_exact_of(q, built, r);
            assert(built == Ok::<Reconstructed, RebuildError>(c.rebuilt));
        },
        Err(e) => {
            assert(is_cleaned_luma(luma, width, height, Err(e)));
            assert(luma.map_values(|v: u8| (255 - v) as u8) =~= negative(luma));
            let (upright, flipped, built) = choose|
                upright: Option<Scan>,
                flipped: Option<Scan>,
                built: Result<Reconstructed, CleanError>,
            |
                are_scans(luma, width, height, upright, flipped) && (recognised(
                    upright,
                    flipped,
                ) matches Ok((symbology, payload, inverted)) ==> is_reencoded(
                    payload@,
                    symbology,
                    built,
                )) && #[trigger] is_reading_restored(recognised(upright, flipped), built, r);
            match upright {
                Some(scan) => {
                    assert(may_be_read(luma, width, height, reading_of(Some(scan))));
                },
                None => {
                    let scan = flipped->0;
                    assert(may_be_read(negative(luma), width, height, reading_of(Some(scan))));
                    assert(reading_of(None) is None);
                },
            }
        },
    }
}

/// The image itself is believed before its negative, and only for the four symbologies: what is
/// recognised is what the scan that counts read, and it is light-on-dark where only the negative read
/// anything.
pub proof fn law_the_image_is_believed_before_its_negative(
    upright: Option<Scan>,
    negative: Option<Scan>,
    symbology: Symbology,
    payload: String,
    inverted: bool,
)
    requires
        recognised(upright, negative) == Ok::<(Symbology, String, bool), CleanError>(
            (symbology, payload, inverted),
        ),
    ensures
        inverted <==> upright is None,
        inverted ==> negative is Some && negative->0.symbology == Some(symbology)
            && negative->0.payload == payload,
        !inverted ==> upright->0.symbology == Some(symbology) && upright->0.payload == payload,
{
}

/// Whatever a scan read in one of the four symbologies is recognised, and nothing else is.
pub proof fn law_what_was_read_is_recognised(upright: Option<Scan>, negative: Option<Scan>)
    ensures
        upright is Some && upright->0.symbology is Some ==> recognised(upright, negative) is Ok,
        upright is None && negative is Some && negative->0.symbology is Some ==> recognised(
            upright,
            negative,
        ) is Ok,
        upright is None && negative is None ==> recognised(upright, negative) is Err,
        upright is Some && upright->0.symbology is None ==> recognised(upright, negative) is Err,
        recognised(upright, negative) is Err ==> recognised(upright, negative)->Err_0
            == CleanError::NotDetected,
{
}

} // verus!
