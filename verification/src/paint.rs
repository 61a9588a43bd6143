//! Painting: colours as pixels, and layers that slide in underneath.
//!
//! A pixel holds its opacity in the top byte and, in the other three, how much red, green and blue is
//! *missing*. Painting runs front to back: the topmost layer lands first, and a pixel that is already
//! opaque is finished. So a panel is painted after its own text and fills only the gaps between the
//! glyphs.
use fluor::pixel::Blend;
use vstd::prelude::*;
use crate::corpus::picture::Colour;

verus! {

/// The opaque pixel of a colour.
pub open spec fn pixel_of(red: u8, green: u8, blue: u8) -> int {
    0xFF00_0000 + (255 - red) * 0x1_0000 + (255 - green) * 0x100 + (255 - blue)
}

/// What a pixel becomes when a layer goes in behind it: an opaque pixel stays, and any other takes on
/// as much of the layer as its opacity leaves room for.
pub open spec fn blended(top: u32, bottom: u32) -> u32 {
    if top >= 0xFF00_0000 {
        top
    } else {
        let room = ((256 - (top >> 24)) * (bottom >> 24)) / 256;
        let red = ((top >> 16) & 0xFF) + (((bottom >> 16) & 0xFF) * room) / 256;
        let green = ((top >> 8) & 0xFF) + (((bottom >> 8) & 0xFF) * room) / 256;
        let blue = (top & 0xFF) + ((bottom & 0xFF) * room) / 256;
        let opacity = (top >> 24) + room;
        ((opacity as u32) << 24) | ((red as u32) << 16) | ((green as u32) << 8) | (blue as u32)
    }
}

/// `fluor::paint::pack_argb` at full opacity: the opacity in the top byte, and the complement of each
/// channel in a byte of its own.
#[verifier::external_body]
fn pack(red: u8, green: u8, blue: u8) -> (pixel: u32)
    ensures
        pixel == pixel_of(red, green, blue),
{
    fluor::paint::pack_argb(red, green, blue, 255)
}

/// `fluor::pixel::Blend::under` of two pixels in the normal mode: an opaque pixel is handed back, and
/// otherwise each channel gains its share of the layer behind, cut down to whole steps.
#[verifier::external_body]
fn under(top: u32, bottom: u32) -> (pixel: u32)
    ensures
        pixel == blended(top, bottom),
{
    top.under(bottom, fluor::pixel::BlendMode::Normal)
}

/// The pixel of a colour in a framebuffer's byte order.
pub open spec fn coloured(rgb: Colour, red_low: bool) -> int {
    if red_low {
        pixel_of(rgb.2, rgb.1, rgb.0)
    } else {
        pixel_of(rgb.0, rgb.1, rgb.2)
    }
}

/// Packs a colour for a framebuffer. Android's surface has red in the low byte (`red_low`), where
/// elsewhere blue is.
pub fn colour(rgb: Colour, red_low: bool) -> (pixel: u32)
    ensures
        pixel == coloured(rgb, red_low),
        pixel >= 0xFF00_0000,
{
    if red_low {
        pack(rgb.2, rgb.1, rgb.0)
    } else {
        pack(rgb.0, rgb.1, rgb.2)
    }
}

/// A rectangle of whole pixels: left and top edge inside, right and bottom edge outside.
#[derive(Clone, Copy, Debug, PartialEq, Eq, Structural)]
pub struct PixelArea {
    pub x0: usize,
    pub y0: usize,
    pub x1: usize,
    pub y1: usize,
}

impl PixelArea {
    /// Whether the area covers a place of a buffer whose rows are `w` long, of which `h` are shown.
    pub open spec fn covers(self, place: int, w: int, h: int) -> bool {
        &&& w > 0
        &&& self.x0 <= place % w < self.x1
        &&& self.y0 <= place / w < self.y1
        &&& place / w < h
    }
}

/// Composites a rectangle underneath whatever is already in the buffer.
pub fn fill_under(target: &mut [u32], w: usize, h: usize, area: PixelArea, c: u32)
    ensures
        final(target)@.len() == old(target)@.len(),
        forall|i: int|
            0 <= i < final(target)@.len() ==> #[trigger] final(target)@[i] == if area.covers(
                i,
                w as int,
                h as int,
            ) {
                blended(old(target)@[i], c)
            } else {
                old(target)@[i]
            },
{
    if w == 0 {
        return;
    }
    let n: usize = target.len();
    let mut i: usize = 0;
    while i < n
        invariant
            w > 0,
            n == target@.len() == old(target)@.len(),
            i <= n,
            forall|k: int| i <= k < n ==> #[trigger] target@[k] == old(target)@[k],
            forall|k: int|
                0 <= k < i ==> #[trigger] target@[k] == if area.covers(k, w as int, h as int) {
                    blended(old(target)@[k], c)
                } else {
                    old(target)@[k]
                },
        decreases n - i,
    {
        let x: usize = i % w;
        let y: usize = i / w;
        if area.x0 <= x && x < area.x1 && area.y0 <= y && y < area.y1 && y < h {
            target[i] = under(target[i], c);
        }
        i = i + 1;
    }
}

/// What a pixel becomes when a picture goes in behind it that shows a grey there, or nothing.
pub open spec fn blitted(top: u32, grey: Option<u8>) -> u32 {
    match grey {
        Some(v) => blended(top, pixel_of(v, v, v) as u32),
        None => top,
    }
}

/// Composites a picture underneath: one grey for every pixel that it reaches.
pub fn blit_under(target: &mut [u32], greys: &[Option<u8>], red_low: bool)
    ensures
        final(target)@.len() == old(target)@.len(),
        forall|i: int|
            0 <= i < final(target)@.len() ==> #[trigger] final(target)@[i] == if i < greys@.len() {
                blitted(old(target)@[i], greys@[i])
            } else {
                old(target)@[i]
            },
{
    let n: usize = target.len();
    let mut i: usize = 0;
    while i < n
        invariant
            n == target@.len() == old(target)@.len(),
            i <= n,
            forall|k: int| i <= k < n ==> #[trigger] target@[k] == old(target)@[k],
            forall|k: int|
                0 <= k < i ==> #[trigger] target@[k] == if k < greys@.len() {
                    blitted(old(target)@[k], greys@[k])
                } else {
                    old(target)@[k]
                },
        decreases n - i,
    {
        if i < greys.len() {
            if let Some(v) = greys[i] {
                let c: u32 = colour((v, v, v), red_low);
                target[i] = under(target[i], c);
            }
        }
        i = i + 1;
    }
}

/// An opaque pixel is finished: whatever goes in behind it, it stays as it is.
pub proof fn law_opaque_pixels_are_finished(top: u32, bottom: u32)
    requires
        top >= 0xFF00_0000,
    ensures
        blended(top, bottom) == top,
{
}

/// An opaque layer leaves no gap: whatever it goes in behind, the pixel is opaque afterwards.
pub proof fn law_opaque_layers_leave_no_gap(top: u32, bottom: u32)
    requires
        bottom >= 0xFF00_0000,
    ensures
        blended(top, bottom) >= 0xFF00_0000,
{
    if top < 0xFF00_0000 {
        let a = top >> 24;
        let b = bottom >> 24;
        assert(b == 255) by (bit_vector)
            requires
                bottom >= 0xFF00_0000,
                b == bottom >> 24,
        ;
        assert(a <= 254) by (bit_vector)
            requires
                top < 0xFF00_0000,
                a == top >> 24,
        ;
        let room = ((256 - a) * b) / 256;
        assert(room == 255 - a) by {
            assert((256 - a) * b == 255 * (256 - a));
        }
        let red = (((top >> 16) & 0xFF) + (((bottom >> 16) & 0xFF) * room) / 256) as u32;
        let green = (((top >> 8) & 0xFF) + (((bottom >> 8) & 0xFF) * room) / 256) as u32;
        let blue = ((top & 0xFF) + ((bottom & 0xFF) * room) / 256) as u32;
        assert((255u32 << 24) | (red << 16) | (green << 8) | blue >= 0xFF00_0000) by (bit_vector);
    }
}

/// A packed colour is opaque and holds what is missing of each channel: red, green and blue from the top, or
/// the other way round where red is in the low byte.
pub proof fn law_colours_are_packed_by_what_is_missing(rgb: Colour, red_low: bool)
    ensures
        ({
            let pixel = coloured(rgb, red_low);
            let (high, middle, low) = (pixel / 0x1_0000 % 0x100, pixel / 0x100 % 0x100, pixel % 0x100);
            &&& pixel / 0x100_0000 == 255
            &&& middle == 255 - rgb.1
            &&& !red_low ==> high == 255 - rgb.0 && low == 255 - rgb.2
            &&& red_low ==> high == 255 - rgb.2 && low == 255 - rgb.0
        }),
        coloured(rgb, true) == coloured((rgb.2, rgb.1, rgb.0), false),
{
    if red_low {
        lemma_bytes(255 - rgb.2, 255 - rgb.1, 255 - rgb.0);
    } else {
        lemma_bytes(255 - rgb.0, 255 - rgb.1, 255 - rgb.2);
    }
}

/// The bytes of a pixel that is put together from them.
proof fn lemma_bytes(a: int, b: int, c: int)
    requires
        0 <= a < 256,
        0 <= b < 256,
        0 <= c < 256,
    ensures
        ({
            let pixel = 0xFF00_0000 + a * 0x1_0000 + b * 0x100 + c;
            &&& pixel / 0x100_0000 == 255
            &&& pixel / 0x1_0000 % 0x100 == a
            &&& pixel / 0x100 % 0x100 == b
            &&& pixel % 0x100 == c
        }),
{
    let pixel = 0xFF00_0000 + a * 0x1_0000 + b * 0x100 + c;
    vstd::arithmetic::div_mod::lemma_fundamental_div_mod_converse(
        pixel,
        0x100_0000,
        255,
        a * 0x1_0000 + b * 0x100 + c,
    );
    vstd::arithmetic::div_mod::lemma_fundamental_div_mod_converse(
        pixel,
        0x1_0000,
        255 * 0x100 + a,
        b * 0x100 + c,
    );
    vstd::arithmetic::div_mod::lemma_fundamental_div_mod_converse(255 * 0x100 + a, 0x100, 255, a);
    vstd::arithmetic::div_mod::lemma_fundamental_div_mod_converse(
        pixel,
        0x100,
        255 * 0x1_0000 + a * 0x100 + b,
        c,
    );
    vstd::arithmetic::div_mod::lemma_fundamental_div_mod_converse(
        255 * 0x1_0000 + a * 0x100 + b,
        0x100,
        255 * 0x100 + a,
        b,
    );
}

/// An area covers its own columns and rows, the left and top edge and not the right and bottom one, as far as
/// they are shown.
pub proof fn law_areas_cover_their_columns_and_rows(area: PixelArea, w: int, h: int, x: int, y: int)
    requires
        0 <= x < w,
        0 <= y,
    ensures
        area.covers(y * w + x, w, h) <==> area.x0 <= x && x < area.x1 && area.y0 <= y && y < area.y1
            && y < h,
{
    crate::sample::geometry::lemma_cell(x, y, w, y + 1);
}

/// A picture shows its greys behind what is there, the same in either byte order, and nothing where it does
/// not reach.
pub proof fn law_pictures_show_their_greys(top: u32, v: u8, red_low: bool)
    ensures
        blitted(top, None) == top,
        blitted(top, Some(v)) == blended(top, coloured((v, v, v), red_low) as u32),
{
}

} // verus!
