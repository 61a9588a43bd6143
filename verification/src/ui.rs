//! On-screen chrome: where taps land, and what the readouts say.
//!
//! Coordinates are single-precision numbers, held as their bit patterns.
use vstd::prelude::*;
use vstd::string::*;
use crate::camera::{LensOption, LensStatus};
use crate::corpus::picture::Colour;
use crate::feed::Frame;
use crate::float::{float_key, is_nan, key_of, number};
use crate::sample::geometry::lemma_coordinates;

verus! {

/// A tappable region, in viewport pixels.
#[derive(Clone, Copy, Debug, PartialEq, Eq, Structural)]
pub struct Hit {
    pub x0: u32,
    pub y0: u32,
    pub x1: u32,
    pub y1: u32,
}

/// Whether a number lies in a half-open range.
pub open spec fn in_range(v: u32, from: u32, to: u32) -> bool {
    &&& !is_nan(v)
    &&& !is_nan(from)
    &&& !is_nan(to)
    &&& float_key(from) <= float_key(v) < float_key(to)
}

fn is_in_range(v: u32, from: u32, to: u32) -> (r: bool)
    ensures
        r == in_range(v, from, to),
{
    v % 0x8000_0000 <= 0x7F80_0000 && from % 0x8000_0000 <= 0x7F80_0000 && to % 0x8000_0000
        <= 0x7F80_0000 && key_of(from) <= key_of(v) && key_of(v) < key_of(to)
}

impl Hit {
    /// Left and top edge inclusive, right and bottom edge exclusive.
    pub open spec fn spec_contains(self, x: u32, y: u32) -> bool {
        in_range(x, self.x0, self.x1) && in_range(y, self.y0, self.y1)
    }

    pub fn contains(&self, x: u32, y: u32) -> (r: bool)
        ensures
            r == self.spec_contains(x, y),
    {
        is_in_range(x, self.x0, self.x1) && is_in_range(y, self.y0, self.y1)
    }
}

/// Where the lens buttons landed this frame, so touches can be matched to them.
#[derive(Clone, Debug, Default)]
pub struct LensButtons {
    pub hits: Vec<(String, Hit)>,
}

impl LensButtons {
    /// Whether the button in a place is the first that a touch lands on.
    pub open spec fn is_hit(self, k: int, x: u32, y: u32) -> bool {
        &&& 0 <= k < self.hits@.len()
        &&& self.hits@[k].1.spec_contains(x, y)
        &&& forall|j: int| 0 <= j < k ==> !(#[trigger] self.hits@[j]).1.spec_contains(x, y)
    }

    /// Which lens id, if any, a touch at `(x, y)` selects.
    pub fn hit(&self, x: u32, y: u32) -> (r: Option<&str>)
        ensures
            match r {
                Some(id) => exists|k: int| #[trigger]
                    self.is_hit(k, x, y) && id@ == self.hits@[k].0@,
                None => forall|j: int|
                    0 <= j < self.hits@.len() ==> !(#[trigger] self.hits@[j]).1.spec_contains(x, y),
            },
    {
        for i in 0..self.hits.len()
            invariant
                forall|j: int| 0 <= j < i ==> !(#[trigger] self.hits@[j]).1.spec_contains(x, y),
        {
            if self.hits[i].1.contains(x, y) {
                assert(self.is_hit(i as int, x, y));
                return Some(self.hits[i].0.as_str());
            }
        }
        None
    }
}

/// Where the buttons of the result screen landed this frame.
#[derive(Clone, Copy, Debug, Default)]
pub struct ResultButtons {
    pub save: Option<Hit>,
    pub cancel: Option<Hit>,
}

/// Whether a touch lands on a button that is there.
pub open spec fn is_on(button: Option<Hit>, x: u32, y: u32) -> bool {
    button is Some && button->0.spec_contains(x, y)
}

pub fn lands_on(button: &Option<Hit>, x: u32, y: u32) -> (r: bool)
    ensures
        r == is_on(*button, x, y),
{
    match button {
        Some(hit) => hit.contains(x, y),
        None => false,
    }
}

/// Most characters that a line of detail shows.
pub const DETAIL_CHARS: usize = 52;

/// How many are left of one that is longer, before the ellipsis.
pub const KEPT_CHARS: usize = 49;

/// What is shown of a detail: all of it, or the beginning and an ellipsis.
pub open spec fn shown(detail: Seq<char>) -> Seq<char> {
    if detail.len() > DETAIL_CHARS {
        detail.subrange(0, KEPT_CHARS as int) + "…"@
    } else {
        detail
    }
}

/// Truncates a line of detail: a URL with a session token in it will happily run off any screen.
pub fn shown_detail(detail: &str) -> (r: String)
    ensures
        r@ == shown(detail@),
{
    if detail.unicode_len() <= DETAIL_CHARS {
        return String::from_str(detail);
    }
    let mut out = String::from_str(detail.substring_char(0, KEPT_CHARS));
    out.append("…");
    out
}

/// Background and text colour of a lens button.
pub open spec fn button_colours(is_current: bool, status: LensStatus) -> (Colour, Colour) {
    if is_current {
        ((70, 130, 200), (255, 255, 255))
    } else {
        match status {
            LensStatus::Good => ((30, 34, 40), (210, 235, 210)),
            LensStatus::Marginal => ((30, 34, 40), (225, 205, 140)),
            LensStatus::Unknown => ((30, 30, 34), (180, 180, 185)),
            _ => ((30, 30, 34), (150, 130, 130)),
        }
    }
}

pub fn lens_colours(option: &LensOption) -> (r: (Colour, Colour))
    ensures
        r == button_colours(option.is_current, option.status),
        option.is_current ==> r == ((70u8, 130u8, 200u8), (255u8, 255u8, 255u8)),
        !option.is_current && option.status == LensStatus::Good ==> r == (
            (30u8, 34u8, 40u8),
            (210u8, 235u8, 210u8),
        ),
        !option.is_current && option.status == LensStatus::Marginal ==> r == (
            (30u8, 34u8, 40u8),
            (225u8, 205u8, 140u8),
        ),
        !option.is_current && option.status == LensStatus::Unknown ==> r == (
            (30u8, 30u8, 34u8),
            (180u8, 180u8, 185u8),
        ),
        !option.is_current && (option.status == LensStatus::TooCoarse || option.status
            == LensStatus::WouldCrop || option.status == LensStatus::CannotFocus) ==> r == (
            (30u8, 30u8, 34u8),
            (150u8, 130u8, 130u8),
        ),
{
    if option.is_current {
        return ((70, 130, 200), (255, 255, 255));
    }
    match option.status {
        LensStatus::Good => ((30, 34, 40), (210, 235, 210)),
        LensStatus::Marginal => ((30, 34, 40), (225, 205, 140)),
        LensStatus::Unknown => ((30, 30, 34), (180, 180, 185)),
        LensStatus::TooCoarse | LensStatus::WouldCrop | LensStatus::CannotFocus => (
            (30, 30, 34),
            (150, 130, 130),
        ),
    }
}

/// The name on a lens button, with a star before it on the lens that is suggested.
pub fn lens_label(option: &LensOption, suggestion: Option<&str>) -> (r: String)
    ensures
        r@ == if suggestion is Some && suggestion->0@ == option.id@ {
            "\u{2605} "@ + option.label@
        } else {
            option.label@
        },
{
    let mut label = String::new();
    if let Some(id) = suggestion {
        if option.id == String::from_str(id) {
            label.append("\u{2605} ");
        }
    }
    label.append(option.label.as_str());
    label
}

/// What a lens button says of a lens that no number describes.
pub fn lens_note(status: LensStatus) -> (r: Option<&'static str>)
    ensures
        match r {
            Some(note) => status == LensStatus::WouldCrop && note@ == "won't fit"@ || status
                == LensStatus::CannotFocus && note@ == "can't focus"@,
            None => status != LensStatus::WouldCrop && status != LensStatus::CannotFocus,
        },
{
    match status {
        LensStatus::WouldCrop => Some("won't fit"),
        LensStatus::CannotFocus => Some("can't focus"),
        _ => None,
    }
}

// ---- preview ----
/// What the preview shows in column `x` of row `y` of a window of `w` by `h`, when the upright frame
/// is scaled to `dw` by `dh` and centred; nothing in the bars beside it.
pub open spec fn previewed(
    frame: Frame,
    w: int,
    h: int,
    dw: int,
    dh: int,
    x: int,
    y: int,
) -> Option<u8> {
    let (fw, fh) = frame.spec_rotated_dims();
    let px = x - (w - dw) / 2;
    let py = y - (h - dh) / 2;
    if 0 <= px < dw && 0 <= py < dh {
        Some(frame.upright((px * fw) / dw, (py * fh) / dh))
    } else {
        None
    }
}

/// Scaling down a place keeps it inside.
proof fn lemma_scaled(p: int, n: int, d: int)
    requires
        0 <= p < d,
        0 <= n,
    ensures
        0 <= p * n,
        0 <= (p * n) / d,
        n > 0 ==> (p * n) / d < n,
        (p * n) / d <= n,
{
    assert(0 <= p * n) by (nonlinear_arith)
        requires
            0 <= p,
            0 <= n,
    ;
    vstd::arithmetic::div_mod::lemma_div_pos_is_pos(p * n, d);
    assert(p * n <= d * n) by (nonlinear_arith)
        requires
            p < d,
            0 <= n,
    ;
    vstd::arithmetic::div_mod::lemma_fundamental_div_mod(p * n, d);
    let q = (p * n) / d;
    if n > 0 && q >= n {
        assert(d * q >= d * n) by (nonlinear_arith)
            requires
                q >= n,
                d > 0,
        ;
        assert(p * n < d * n) by (nonlinear_arith)
            requires
                p < d,
                n > 0,
        ;
    }
    if n == 0 {
        assert(p * n == 0) by (nonlinear_arith)
            requires
                n == 0,
        ;
        assert(q == 0) by {
            vstd::arithmetic::div_mod::lemma_basic_div(0, d);
        }
    }
}

fn scaled(p: usize, n: usize, d: usize) -> (r: usize)
    requires
        p < d,
    ensures
        r == (p * n) / (d as int),
{
    proof {
        lemma_scaled(p as int, n as int, d as int);
        assert(p * n <= usize::MAX * usize::MAX) by (nonlinear_arith)
            requires
                0 <= p <= usize::MAX,
                0 <= n <= usize::MAX,
        ;
        assert(usize::MAX * usize::MAX <= u128::MAX) by (nonlinear_arith)
            requires
                usize::MAX <= 0xFFFF_FFFF_FFFF_FFFF,
        ;
    }
    ((p as u128 * n as u128) / d as u128) as usize
}

/// The preview, scaled without smoothing and letterboxed.
///
/// Nearest-neighbour on purpose: this shows what the decoder is fed, and a smoothing filter would
/// hide the undersampling that makes symbols fail.
pub fn preview(frame: &Frame, w: usize, h: usize, dw: usize, dh: usize) -> (r: Vec<Option<u8>>)
    requires
        frame.wf(),
        w * h <= usize::MAX,
        dw <= w,
        dh <= h,
    ensures
        r@.len() == w * h,
        forall|i: int|
            0 <= i < r@.len() ==> #[trigger] r@[i] == previewed(
                *frame,
                w as int,
                h as int,
                dw as int,
                dh as int,
                i % w as int,
                i / w as int,
            ),
{
    let (fw, fh) = frame.rotated_dims();
    let ox: usize = (w - dw) / 2;
    let oy: usize = (h - dh) / 2;
    proof {
        assert(0 <= w * h) by (nonlinear_arith)
            requires
                w >= 0,
                h >= 0,
        ;
    }
    let n: usize = w * h;
    let mut out: Vec<Option<u8>> = Vec::with_capacity(n);
    let mut i: usize = 0;
    while i < n
        invariant
            frame.wf(),
            n == w * h,
            dw <= w,
            dh <= h,
            (fw, fh) == frame.spec_rotated_dims(),
            ox == (w - dw) / 2,
            oy == (h - dh) / 2,
            i <= n,
            out@.len() == i,
            forall|k: int|
                0 <= k < i ==> #[trigger] out@[k] == previewed(
                    *frame,
                    w as int,
                    h as int,
                    dw as int,
                    dh as int,
                    k % w as int,
                    k / w as int,
                ),
        decreases n - i,
    {
        proof {
            lemma_coordinates(i as int, w as int, h as int);
        }
        let x: usize = i % w;
        let y: usize = i / w;
        let shows = if x >= ox && x - ox < dw && y >= oy && y - oy < dh {
            let sx: usize = scaled(x - ox, fw, dw);
            let sy: usize = scaled(y - oy, fh, dh);
            Some(frame.sample_upright(sx, sy))
        } else {
            None
        };
        out.push(shows);
        i = i + 1;
    }
    out
}

/// The preview never leaves the frame: every pixel that shows anything shows a pixel of the sensor.
pub proof fn law_previews_stay_in_the_frame(
    frame: Frame,
    w: int,
    h: int,
    dw: int,
    dh: int,
    x: int,
    y: int,
)
    requires
        frame.width > 0,
        frame.height > 0,
        previewed(frame, w, h, dw, dh, x, y) is Some,
    ensures
        ({
            let (fw, fh) = frame.spec_rotated_dims();
            let sx = ((x - (w - dw) / 2) * fw) / dw;
            let sy = ((y - (h - dh) / 2) * fh) / dh;
            let (ox, oy) = frame.sensor_place(sx, sy);
            &&& 0 <= sx < fw
            &&& 0 <= sy < fh
            &&& 0 <= ox < frame.width
            &&& 0 <= oy < frame.height
        }),
{
    let (fw, fh) = frame.spec_rotated_dims();
    lemma_scaled(x - (w - dw) / 2, fw as int, dw);
    lemma_scaled(y - (h - dh) / 2, fh as int, dh);
}

/// A button takes the touches from its left and top edge up to its right and bottom edge, as numbers, so that
/// two buttons side by side share none.
pub proof fn law_buttons_share_no_touch(a: Hit, b: Hit, x: u32, y: u32)
    requires
        !is_nan(x) && !is_nan(y),
        !is_nan(a.x0) && !is_nan(a.y0) && !is_nan(a.x1) && !is_nan(a.y1),
        !is_nan(b.x0) && !is_nan(b.y0) && !is_nan(b.x1) && !is_nan(b.y1),
    ensures
        a.spec_contains(x, y) <==> number(a.x0) <= number(x) && number(x) < number(a.x1) && number(
            a.y0,
        ) <= number(y) && number(y) < number(a.y1),
        number(a.x1) <= number(b.x0) || number(a.y1) <= number(b.y0) ==> !(a.spec_contains(x, y)
            && b.spec_contains(x, y)),
{
    crate::float::law_patterns_compare_as_numbers(x, a.x0);
    crate::float::law_patterns_compare_as_numbers(x, a.x1);
    crate::float::law_patterns_compare_as_numbers(y, a.y0);
    crate::float::law_patterns_compare_as_numbers(y, a.y1);
    crate::float::law_patterns_compare_as_numbers(x, b.x0);
    crate::float::law_patterns_compare_as_numbers(y, b.y0);
}

/// The first button under a touch gets it, and no other.
pub proof fn law_one_button_is_hit(buttons: LensButtons, j: int, k: int, x: u32, y: u32)
    requires
        buttons.is_hit(j, x, y),
        buttons.is_hit(k, x, y),
    ensures
        j == k,
        buttons.hits@[j].1.spec_contains(x, y),
{
}

/// Short details are shown whole; of longer ones the first 49 characters and an ellipsis are, which is never
/// more than 52.
pub proof fn law_details_fit_their_line(detail: Seq<char>)
    ensures
        shown(detail).len() <= 52,
        detail.len() <= 52 ==> shown(detail) == detail,
        detail.len() > 52 ==> shown(detail).len() == 50 && shown(detail).take(49) == detail.take(49)
            && shown(detail)[49] == '\u{2026}',
{
    reveal_strlit("…");
    if detail.len() > 52 {
        assert(shown(detail).take(49) =~= detail.take(49));
    }
}

/// The preview is centred and not smoothed: inside the scaled frame every pixel shows the one place of the
/// upright frame that lies under it, scaled by columns and by rows; outside it nothing is shown.
pub proof fn law_previews_show_what_lies_under(
    frame: Frame,
    w: int,
    h: int,
    dw: int,
    dh: int,
    px: int,
    py: int,
    sx: int,
    sy: int,
)
    requires
        0 <= dw <= w,
        0 <= dh <= h,
        sx * dw <= px * frame.spec_rotated_dims().0 < (sx + 1) * dw,
        sy * dh <= py * frame.spec_rotated_dims().1 < (sy + 1) * dh,
    ensures
        0 <= px < dw && 0 <= py < dh ==> previewed(
            frame,
            w,
            h,
            dw,
            dh,
            (w - dw) / 2 + px,
            (h - dh) / 2 + py,
        ) == Some(frame.upright(sx, sy)),
        !(0 <= px < dw && 0 <= py < dh) ==> previewed(
            frame,
            w,
            h,
            dw,
            dh,
            (w - dw) / 2 + px,
            (h - dh) / 2 + py,
        ) is None,
{
    let (fw, fh) = frame.spec_rotated_dims();
    if 0 <= px < dw && 0 <= py < dh {
        assert((sx + 1) * dw == sx * dw + dw) by (nonlinear_arith);
        assert((sy + 1) * dh == sy * dh + dh) by (nonlinear_arith);
        vstd::arithmetic::div_mod::lemma_fundamental_div_mod_converse(
            px * fw,
            dw,
            sx,
            px * fw - sx * dw,
        );
        vstd::arithmetic::div_mod::lemma_fundamental_div_mod_converse(
            py * fh,
            dh,
            sy,
            py * fh - sy * dh,
        );
    }
}

} // verus!
