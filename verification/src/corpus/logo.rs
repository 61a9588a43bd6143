//! Compositing occlusions over a rendered symbol.
//!
//! The corpus is only as honest as its occlusions. A flat square is the easy case; real logos carry
//! internal structure, so one kind varies inside a single module. Included is the adversarial case: a
//! neutral, flat, high-contrast occlusion, which looks like legitimate module content to every
//! per-pixel statistic.
use vstd::prelude::*;
use crate::corpus::picture::{Colour, Picture};
use crate::sample::geometry::lemma_cell;

verus! {

/// What kind of thing is sitting on the symbol.
#[derive(Clone, Copy, Debug, PartialEq, Eq, Structural)]
pub enum LogoKind {
    /// Flat saturated colour: the easy case, and the most common one in the wild.
    FlatColour,
    /// Deterministic pseudo-photographic texture: structure at the sub-module scale.
    Textured,
    /// Flat, neutral, high contrast: can only be caught structurally.
    NeutralFlat,
}

/// An occlusion to composite.
#[derive(Clone, Copy, Debug)]
pub struct Logo {
    pub kind: LogoKind,
    /// Pixels along a side of the centred square that is covered, which is where logos actually go.
    /// What goes past the picture is not painted.
    pub side: u32,
}

impl Logo {
    pub fn new(kind: LogoKind, side: u32) -> (r: Self)
        ensures
            r.kind == kind,
            r.side == side,
    {
        Self { kind, side }
    }
}

/// One round of mixing: a right shift folded in.
pub open spec fn folded(h: u32, by: u32) -> u32 {
    h ^ (h >> by)
}

/// The hash of a pixel's place.
pub open spec fn place_hash(x: u32, y: u32) -> u32 {
    let start = x.wrapping_mul(0x9E37_79B9u32) ^ y.wrapping_mul(0x85EB_CA6Bu32);
    folded(folded(start, 15).wrapping_mul(0xC2B2_AE35u32), 13)
}

/// Deterministic hash of a place: mixed well enough that neighbouring pixels are uncorrelated, which
/// is what makes the texture read as photographic detail to a variance measurement.
fn hash2(x: u32, y: u32) -> (r: u32)
    ensures
        r == place_hash(x, y),
{
    let start: u32 = x.wrapping_mul(0x9E37_79B9) ^ y.wrapping_mul(0x85EB_CA6B);
    let mixed: u32 = (start ^ (start >> 15)).wrapping_mul(0xC2B2_AE35);
    mixed ^ (mixed >> 13)
}

/// The sum, or the largest byte.
pub open spec fn raised(base: int, by: int) -> u8 {
    if base + by > 255 {
        255
    } else {
        (base + by) as u8
    }
}

/// The difference, or zero.
pub open spec fn lowered(base: int, by: int) -> u8 {
    if base < by {
        0
    } else {
        (base - by) as u8
    }
}

/// The colour that an occlusion has in a place.
pub open spec fn logo_colour(kind: LogoKind, x: u32, y: u32) -> Colour {
    match kind {
        LogoKind::FlatColour => (201, 42, 58),
        LogoKind::NeutralFlat => (28, 28, 28),
        LogoKind::Textured => {
            let h = place_hash(x, y);
            let base = 60 + (h & 0x7F);
            (
                raised(base, ((h >> 8) & 0x3F) as int),
                lowered(base, ((h >> 16) & 0x3F) as int),
                raised(base, ((h >> 24) & 0x1F) as int),
            )
        },
    }
}

fn pixel_for(kind: LogoKind, x: u32, y: u32) -> (r: Colour)
    ensures
        r == logo_colour(kind, x, y),
{
    match kind {
        LogoKind::FlatColour => (201, 42, 58),
        LogoKind::NeutralFlat => (28, 28, 28),
        LogoKind::Textured => {
            let h: u32 = hash2(x, y);
            assert(h & 0x7F <= 0x7F && (h >> 8) & 0x3F <= 0x3F && (h >> 16) & 0x3F <= 0x3F && (h
                >> 24) & 0x1F <= 0x1F) by (bit_vector);
            let base: u8 = 60 + (h & 0x7F) as u8;
            let r: u8 = base.saturating_add(((h >> 8) & 0x3F) as u8);
            let g: u8 = base.saturating_sub(((h >> 16) & 0x3F) as u8);
            let b: u8 = base.saturating_add(((h >> 24) & 0x1F) as u8);
            (r, g, b)
        },
    }
}

/// The side of the square that a picture has room for.
pub open spec fn fitting_side(width: u32, height: u32, side: u32) -> u32 {
    if side <= width && side <= height {
        side
    } else if width <= height {
        width
    } else {
        height
    }
}

/// Whether a pixel lies in the square `(x0, y0)` with sides `(w, h)`.
pub open spec fn is_covered(square: (u32, u32, u32, u32), x: int, y: int) -> bool {
    square.0 <= x < square.0 + square.2 && square.1 <= y < square.1 + square.3
}

/// The centred square that a logo covers, `(x0, y0, w, h)`; all zero when it covers nothing.
pub open spec fn covered_square(width: u32, height: u32, side: u32) -> (u32, u32, u32, u32) {
    let s = fitting_side(width, height, side);
    if s == 0 {
        (0, 0, 0, 0)
    } else {
        (((width - s) / 2) as u32, ((height - s) / 2) as u32, s, s)
    }
}

/// Paints the occlusion over the centre of a picture, in place.
///
/// Returns the covered rectangle in pixels, `(x0, y0, w, h)`.
pub fn composite(picture: &mut Picture, logo: &Logo) -> (r: (u32, u32, u32, u32))
    requires
        old(picture).wf(),
    ensures
        final(picture).wf(),
        final(picture).same_size(*old(picture)),
        r == covered_square(old(picture).width, old(picture).height, logo.side),
        forall|x: int, y: int|
            0 <= x < old(picture).width && 0 <= y < old(picture).height ==> (
            #[trigger] final(picture).at(x, y)) == if is_covered(r, x, y) {
                logo_colour(logo.kind, x as u32, y as u32)
            } else {
                old(picture).at(x, y)
            },
{
    let w: u32 = picture.width;
    let h: u32 = picture.height;
    let mut side: u32 = logo.side;
    if side > w {
        side = w;
    }
    if side > h {
        side = h;
    }
    if side == 0 {
        return (0, 0, 0, 0);
    }
    let x0: u32 = (w - side) / 2;
    let y0: u32 = (h - side) / 2;
    let square = (x0, y0, side, side);
    let ghost before = *picture;
    let mut y: u32 = y0;
    while y < y0 + side
        invariant
            before.wf(),
            w == before.width,
            h == before.height,
            picture.wf(),
            picture.same_size(before),
            square == (x0, y0, side, side),
            x0 + side <= w,
            y0 + side <= h,
            y0 <= y <= y0 + side,
            forall|a: int, b: int|
                0 <= a < w && 0 <= b < h ==> #[trigger] picture.at(a, b) == if is_covered(
                    square,
                    a,
                    b,
                ) && b < y {
                    logo_colour(logo.kind, a as u32, b as u32)
                } else {
                    before.at(a, b)
                },
        decreases y0 + side - y,
    {
        let mut x: u32 = x0;
        while x < x0 + side
            invariant
                before.wf(),
                w == before.width,
                h == before.height,
                picture.wf(),
                picture.same_size(before),
                square == (x0, y0, side, side),
                x0 + side <= w,
                y0 + side <= h,
                y0 <= y < y0 + side,
                x0 <= x <= x0 + side,
                forall|a: int, b: int|
                    0 <= a < w && 0 <= b < h ==> #[trigger] picture.at(a, b) == if is_covered(
                        square,
                        a,
                        b,
                    ) && (b < y || b == y && a < x) {
                        logo_colour(logo.kind, a as u32, b as u32)
                    } else {
                        before.at(a, b)
                    },
            decreases x0 + side - x,
        {
            let ghost last = *picture;
            picture.put_pixel(x, y, pixel_for(logo.kind, x, y));
            proof {
                assert forall|a: int, b: int| 0 <= a < w && 0 <= b < h implies #[trigger] picture.at(
                    a,
                    b,
                ) == if is_covered(square, a, b) && (b < y || b == y && a < x + 1) {
                    logo_colour(logo.kind, a as u32, b as u32)
                } else {
                    before.at(a, b)
                } by {
                    lemma_cell(a, b, w as int, h as int);
                    lemma_cell(x as int, y as int, w as int, h as int);
                    assert(last.at(a, b) == last@[b * w + a]);
                    assert(picture.at(a, b) == picture@[b * w + a]);
                }
            }
            x = x + 1;
        }
        y = y + 1;
    }
    square
}

/// The flat kinds are flat: one colour everywhere.
pub proof fn law_flat_kinds_are_flat(kind: LogoKind, x: u32, y: u32, a: u32, b: u32)
    requires
        kind != LogoKind::Textured,
    ensures
        logo_colour(kind, x, y) == logo_colour(kind, a, b),
{
}

/// The adversarial kind is neutral: no channel differs from another.
pub proof fn law_neutral_is_neutral(x: u32, y: u32)
    ensures
        logo_colour(LogoKind::NeutralFlat, x, y).0 == logo_colour(LogoKind::NeutralFlat, x, y).1,
        logo_colour(LogoKind::NeutralFlat, x, y).1 == logo_colour(LogoKind::NeutralFlat, x, y).2,
{
}

/// What is covered is a square inside the picture, in the middle of it: what is left on one side is
/// what is left on the other, or one pixel less.
pub proof fn law_occlusions_are_centred(width: u32, height: u32, side: u32)
    ensures
        ({
            let (x0, y0, w, h) = covered_square(width, height, side);
            &&& w == h
            &&& x0 + w <= width
            &&& y0 + h <= height
            &&& w <= side
            &&& side <= width && side <= height ==> w == side
            &&& w > 0 ==> x0 <= width - (x0 + w) <= x0 + 1
            &&& h > 0 ==> y0 <= height - (y0 + h) <= y0 + 1
        }),
{
}

/// The flat colour is a saturated red and the adversarial one a grey as dark as print, wherever they
/// are painted.
pub proof fn law_flat_colours_are_red_and_dark_grey(x: u32, y: u32)
    ensures
        logo_colour(LogoKind::FlatColour, x, y) == (201u8, 42u8, 58u8),
        logo_colour(LogoKind::NeutralFlat, x, y) == (28u8, 28u8, 28u8),
{
}

/// Texture stays within the middle tones: red and blue at least 60 and never under green, red at most
/// 250, green at most 187 and blue at most 218.
pub proof fn law_texture_stays_in_the_middle_tones(x: u32, y: u32)
    ensures
        ({
            let (red, green, blue) = logo_colour(LogoKind::Textured, x, y);
            &&& 60 <= red <= 250
            &&& green <= 187
            &&& 60 <= blue <= 218
            &&& green <= red <= green + 126
            &&& green <= blue <= green + 94
            &&& red <= blue + 63
            &&& blue <= red + 31
        }),
{
    let h = place_hash(x, y);
    assert(h & 0x7F <= 0x7F && (h >> 8) & 0x3F <= 0x3F && (h >> 16) & 0x3F <= 0x3F && (h >> 24)
        & 0x1F <= 0x1F) by (bit_vector);
}

/// Texture varies from pixel to pixel: along a row, and along a column, no two places have one hash.
pub proof fn law_texture_varies(x: u32, y: u32, other: u32)
    requires
        other != x,
    ensures
        place_hash(x, y) != place_hash(other, y),
        place_hash(y, x) != place_hash(y, other),
{
    let a = x.wrapping_mul(0x9E37_79B9u32);
    let b = other.wrapping_mul(0x9E37_79B9u32);
    let c = y.wrapping_mul(0x85EB_CA6Bu32);
    lemma_odd_factors_keep_apart(x, other, 0x9E37_79B9u32, 0x144C_BC89u32);
    assert(a ^ c != b ^ c) by (bit_vector)
        requires
            a != b,
    ;
    lemma_mixing_keeps_apart(a ^ c, b ^ c, 0xC2B2_AE35u32, 0x7ED1_B41Du32);
    let p = y.wrapping_mul(0x9E37_79B9u32);
    let q = x.wrapping_mul(0x85EB_CA6Bu32);
    let r = other.wrapping_mul(0x85EB_CA6Bu32);
    lemma_odd_factors_keep_apart(x, other, 0x85EB_CA6Bu32, 0xA5CB_9243u32);
    assert(p ^ q != p ^ r) by (bit_vector)
        requires
            q != r,
    ;
    lemma_mixing_keeps_apart(p ^ q, p ^ r, 0xC2B2_AE35u32, 0x7ED1_B41Du32);
}

/// A factor that has an inverse keeps numbers apart.
pub proof fn lemma_odd_factors_keep_apart(a: u32, b: u32, factor: u32, inverse: u32)
    requires
        a != b,
        (factor * inverse) % 0x1_0000_0000 == 1,
    ensures
        a.wrapping_mul(factor) != b.wrapping_mul(factor),
{
    lemma_inverse(a, factor, inverse);
    lemma_inverse(b, factor, inverse);
}

proof fn lemma_inverse(a: u32, factor: u32, inverse: u32)
    requires
        (factor * inverse) % 0x1_0000_0000 == 1,
    ensures
        (a.wrapping_mul(factor) * inverse) % 0x1_0000_0000 == a,
{
    let m: int = 0x1_0000_0000;
    assert(a.wrapping_mul(factor) == (a * factor) % m);
    vstd::arithmetic::div_mod::lemma_mul_mod_noop_left(a * factor, inverse as int, m);
    vstd::arithmetic::div_mod::lemma_mul_mod_noop_right(a as int, factor * inverse, m);
    assert((a * factor) * inverse == a * (factor * inverse)) by (nonlinear_arith);
    vstd::arithmetic::div_mod::lemma_small_mod(a as nat, m as nat);
}

/// Mixing keeps numbers apart.
pub proof fn lemma_mixing_keeps_apart(a: u32, b: u32, factor: u32, inverse: u32)
    requires
        a != b,
        (factor * inverse) % 0x1_0000_0000 == 1,
    ensures
        folded(folded(a, 15).wrapping_mul(factor), 13) != folded(
            folded(b, 15).wrapping_mul(factor),
            13,
        ),
{
    assert(a ^ (a >> 15) != b ^ (b >> 15)) by (bit_vector)
        requires
            a != b,
    ;
    lemma_odd_factors_keep_apart(folded(a, 15), folded(b, 15), factor, inverse);
    let c = folded(a, 15).wrapping_mul(factor);
    let d = folded(b, 15).wrapping_mul(factor);
    assert(c ^ (c >> 13) != d ^ (d >> 13)) by (bit_vector)
        requires
            c != d,
    ;
}

} // verus!
