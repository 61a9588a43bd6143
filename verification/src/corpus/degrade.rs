//! Making a rendered symbol look like something a camera produced.
//!
//! Real captures are blurred by optics and motion, noisy from a small sensor at high gain, and
//! quantized by whatever JPEG pipeline sat between the sensor and the file. Blur raises the variance
//! inside a module at every module boundary, not just over the logo, so a detector tuned on clean
//! renders would flag the whole symbol: grading against blurred input keeps the calibration honest.
use vstd::prelude::*;
use crate::codec::picture::{
    decode_jpeg, encode_jpeg, jpeg_of_rgb, may_show, shown_of, Decoded,
};
use crate::corpus::logo::{folded, lemma_mixing_keeps_apart, lemma_odd_factors_keep_apart};
use crate::corpus::picture::{Colour, Picture};
use crate::sample::geometry::{lemma_cell, lemma_coordinates};

verus! {

/// How badly to damage a render.
#[derive(Clone, Copy, Debug)]
pub struct Degradation {
    /// Box-blur radius in pixels. `0` disables.
    pub blur_radius: u32,
    /// Additive luminance noise amplitude, `0..=255`. `0` disables.
    pub noise: u8,
    /// JPEG quality to round-trip through, `1..=100`. `None` skips it.
    pub jpeg_quality: Option<u8>,
}

impl Degradation {
    /// No degradation: a synthetic best case, useful as a control row.
    pub fn pristine() -> (r: Degradation)
        ensures
            r == (Degradation { blur_radius: 0, noise: 0, jpeg_quality: None }),
    {
        Degradation { blur_radius: 0, noise: 0, jpeg_quality: None }
    }

    /// A good handheld capture in decent light.
    pub fn good_capture() -> (r: Degradation)
        ensures
            r == (Degradation { blur_radius: 1, noise: 4, jpeg_quality: Some(85) }),
    {
        Degradation { blur_radius: 1, noise: 4, jpeg_quality: Some(85) }
    }

    /// A poor capture: soft focus, high gain, aggressive compression.
    pub fn poor_capture() -> (r: Degradation)
        ensures
            r == (Degradation { blur_radius: 2, noise: 14, jpeg_quality: Some(45) }),
    {
        Degradation { blur_radius: 2, noise: 14, jpeg_quality: Some(45) }
    }
}

// ---- blur ----
/// The nearest number within `0..n`.
pub open spec fn clamped(v: int, n: int) -> int {
    if v < 0 {
        0
    } else if v >= n {
        n - 1
    } else {
        v
    }
}

/// The pixel `d` places from `(x, y)` along an axis; past the edge, the pixel on the edge.
pub open spec fn neighbour(picture: Picture, horizontal: bool, x: int, y: int, d: int) -> Colour {
    if horizontal {
        picture.at(clamped(x + d, picture.width as int), y)
    } else {
        picture.at(x, clamped(y + d, picture.height as int))
    }
}

/// The channel-wise sum of the first `k` pixels of the window of `2 * r + 1` around `(x, y)`.
pub open spec fn window_sum(
    picture: Picture,
    r: int,
    horizontal: bool,
    x: int,
    y: int,
    k: nat,
) -> (int, int, int)
    decreases k,
{
    if k == 0 {
        (0, 0, 0)
    } else {
        let rest = window_sum(picture, r, horizontal, x, y, (k - 1) as nat);
        let p = neighbour(picture, horizontal, x, y, k - 1 - r);
        (rest.0 + p.0, rest.1 + p.1, rest.2 + p.2)
    }
}

/// The channel-wise mean of the window around `(x, y)`.
pub open spec fn window_mean(picture: Picture, r: int, horizontal: bool, x: int, y: int) -> Colour {
    let n = 2 * r + 1;
    let sum = window_sum(picture, r, horizontal, x, y, n as nat);
    ((sum.0 / n) as u8, (sum.1 / n) as u8, (sum.2 / n) as u8)
}

/// Whether `out` is a picture blurred along one axis.
pub open spec fn is_blurred_along(picture: Picture, r: int, horizontal: bool, out: Picture) -> bool {
    &&& out.wf()
    &&& out.same_size(picture)
    &&& out@ == Seq::new(
        picture@.len(),
        |i: int|
            window_mean(
                picture,
                r,
                horizontal,
                i % picture.width as int,
                i / picture.width as int,
            ),
    )
}

/// Whether `out` is a picture blurred along both axes.
pub open spec fn is_blurred(picture: Picture, r: int, out: Picture) -> bool {
    exists|half: Picture| #[trigger]
        is_blurred_along(picture, r, true, half) && is_blurred_along(half, r, false, out)
}

/// A sum of bytes is at most 255 for each.
proof fn lemma_window_sum(picture: Picture, r: int, horizontal: bool, x: int, y: int, k: nat)
    ensures
        ({
            let s = window_sum(picture, r, horizontal, x, y, k);
            0 <= s.0 <= 255 * k && 0 <= s.1 <= 255 * k && 0 <= s.2 <= 255 * k
        }),
    decreases k,
{
    if k > 0 {
        lemma_window_sum(picture, r, horizontal, x, y, (k - 1) as nat);
    }
}

/// A mean of bytes is a byte.
proof fn lemma_mean(sum: int, n: int)
    requires
        0 <= sum <= 255 * n,
        n > 0,
    ensures
        0 <= sum / n <= 255,
{
    vstd::arithmetic::div_mod::lemma_div_pos_is_pos(sum, n);
    vstd::arithmetic::div_mod::lemma_div_is_ordered(sum, 255 * n, n);
    vstd::arithmetic::div_mod::lemma_div_multiples_vanish(255, n);
    assert(n * 255 == 255 * n) by (nonlinear_arith);
}

fn clamp_index(v: i64, n: u32) -> (r: u32)
    requires
        n > 0,
    ensures
        r == clamped(v as int, n as int),
{
    if v < 0 {
        0
    } else if v >= n as i64 {
        n - 1
    } else {
        v as u32
    }
}

fn mean_at(picture: &Picture, radius: u32, horizontal: bool, x: u32, y: u32) -> (c: Colour)
    requires
        picture.wf(),
        x < picture.width,
        y < picture.height,
        (2 * radius + 1) * 255 <= u32::MAX,
    ensures
        c == window_mean(*picture, radius as int, horizontal, x as int, y as int),
{
    let n: u32 = 2 * radius + 1;
    let mut red: u32 = 0;
    let mut green: u32 = 0;
    let mut blue: u32 = 0;
    let mut k: u32 = 0;
    while k < n
        invariant
            picture.wf(),
            x < picture.width,
            y < picture.height,
            n == 2 * radius + 1,
            n * 255 <= u32::MAX,
            k <= n,
            (red as int, green as int, blue as int) == window_sum(
                *picture,
                radius as int,
                horizontal,
                x as int,
                y as int,
                k as nat,
            ),
        decreases n - k,
    {
        proof {
            lemma_window_sum(*picture, radius as int, horizontal, x as int, y as int, k as nat);
        }
        let d: i64 = k as i64 - radius as i64;
        let p: Colour = if horizontal {
            picture.get_pixel(clamp_index(x as i64 + d, picture.width), y)
        } else {
            picture.get_pixel(x, clamp_index(y as i64 + d, picture.height))
        };
        red = red + p.0 as u32;
        green = green + p.1 as u32;
        blue = blue + p.2 as u32;
        k = k + 1;
    }
    proof {
        lemma_window_sum(*picture, radius as int, horizontal, x as int, y as int, n as nat);
        lemma_mean(red as int, n as int);
        lemma_mean(green as int, n as int);
        lemma_mean(blue as int, n as int);
    }
    ((red / n) as u8, (green / n) as u8, (blue / n) as u8)
}

fn blur_axis(picture: &Picture, radius: u32, horizontal: bool) -> (out: Picture)
    requires
        picture.wf(),
        (2 * radius + 1) * 255 <= u32::MAX,
    ensures
        is_blurred_along(*picture, radius as int, horizontal, out),
{
    let count: usize = picture.pixels.len();
    let mut pixels: Vec<Colour> = Vec::with_capacity(count);
    for i in 0..count
        invariant
            picture.wf(),
            count == picture@.len(),
            (2 * radius + 1) * 255 <= u32::MAX,
            pixels@.len() == i,
            forall|k: int|
                0 <= k < i ==> #[trigger] pixels@[k] == window_mean(
                    *picture,
                    radius as int,
                    horizontal,
                    k % picture.width as int,
                    k / picture.width as int,
                ),
    {
        proof {
            lemma_coordinates(i as int, picture.width as int, picture.height as int);
        }
        let x: u32 = (i % picture.width as usize) as u32;
        let y: u32 = (i / picture.width as usize) as u32;
        pixels.push(mean_at(picture, radius, horizontal, x, y));
    }
    let out = Picture { width: picture.width, height: picture.height, pixels };
    assert(out@ =~= Seq::new(
        picture@.len(),
        |i: int|
            window_mean(
                *picture,
                radius as int,
                horizontal,
                i % picture.width as int,
                i / picture.width as int,
            ),
    ));
    out
}

/// Separable box blur: two passes over a window, a decent stand-in for defocus.
pub fn box_blur(picture: &Picture, radius: u32) -> (out: Picture)
    requires
        picture.wf(),
        (2 * radius + 1) * 255 <= u32::MAX,
    ensures
        is_blurred(*picture, radius as int, out),
        out.wf(),
        out.same_size(*picture),
{
    let half = blur_axis(picture, radius, true);
    blur_axis(&half, radius, false)
}

// ---- noise ----
/// The hash by which the noise of a place is drawn.
pub open spec fn noise_hash(x: u32, y: u32) -> u32 {
    let start = x.wrapping_mul(0x27D4_EB2Du32) ^ y.wrapping_mul(0x1656_67B1u32);
    folded(folded(start, 15).wrapping_mul(0x2545_F491u32), 13)
}

/// What the noise adds in a place: symmetric about zero, so that the mean does not drift.
pub open spec fn noise_delta(amplitude: u8, x: u32, y: u32) -> int {
    noise_hash(x, y) as int % (2 * amplitude + 1) - amplitude
}

/// A channel with something added, kept within a byte.
pub open spec fn shifted(v: u8, delta: int) -> u8 {
    if v + delta < 0 {
        0
    } else if v + delta > 255 {
        255
    } else {
        (v + delta) as u8
    }
}

/// A pixel with the noise of its place added to every channel.
pub open spec fn with_noise(c: Colour, amplitude: u8, x: u32, y: u32) -> Colour {
    let d = noise_delta(amplitude, x, y);
    (shifted(c.0, d), shifted(c.1, d), shifted(c.2, d))
}

/// Whether `out` is a picture with noise added.
pub open spec fn is_noisy(picture: Picture, amplitude: u8, out: Picture) -> bool {
    &&& out.wf()
    &&& out.same_size(picture)
    &&& out@ == Seq::new(
        picture@.len(),
        |i: int|
            with_noise(
                picture@[i],
                amplitude,
                (i % picture.width as int) as u32,
                (i / picture.width as int) as u32,
            ),
    )
}

fn shift_channel(v: u8, delta: i32) -> (r: u8)
    requires
        -255 <= delta <= 255,
    ensures
        r == shifted(v, delta as int),
{
    let moved: i32 = v as i32 + delta;
    if moved < 0 {
        0
    } else if moved > 255 {
        255
    } else {
        moved as u8
    }
}

/// Deterministic additive noise: reproducible, so that one grading run can be compared with the next.
pub fn add_noise(picture: &Picture, amplitude: u8) -> (out: Picture)
    requires
        picture.wf(),
    ensures
        is_noisy(*picture, amplitude, out),
{
    let count: usize = picture.pixels.len();
    let span: u32 = 2 * amplitude as u32 + 1;
    let mut pixels: Vec<Colour> = Vec::with_capacity(count);
    for i in 0..count
        invariant
            picture.wf(),
            count == picture@.len(),
            span == 2 * amplitude + 1,
            pixels@.len() == i,
            forall|k: int|
                0 <= k < i ==> #[trigger] pixels@[k] == with_noise(
                    picture@[k],
                    amplitude,
                    (k % picture.width as int) as u32,
                    (k / picture.width as int) as u32,
                ),
    {
        proof {
            lemma_coordinates(i as int, picture.width as int, picture.height as int);
        }
        let x: u32 = (i % picture.width as usize) as u32;
        let y: u32 = (i / picture.width as usize) as u32;
        let start: u32 = x.wrapping_mul(0x27D4_EB2D) ^ y.wrapping_mul(0x1656_67B1);
        let mixed: u32 = (start ^ (start >> 15)).wrapping_mul(0x2545_F491);
        let h: u32 = mixed ^ (mixed >> 13);
        let delta: i32 = (h % span) as i32 - amplitude as i32;
        let p: Colour = picture.pixels[i];
        pixels.push(
            (shift_channel(p.0, delta), shift_channel(p.1, delta), shift_channel(p.2, delta)),
        );
    }
    let out = Picture { width: picture.width, height: picture.height, pixels };
    assert(out@ =~= Seq::new(
        picture@.len(),
        |i: int|
            with_noise(
                picture@[i],
                amplitude,
                (i % picture.width as int) as u32,
                (i / picture.width as int) as u32,
            ),
    ));
    out
}

// ---- compression ----
/// The bytes of a picture, three to a pixel.
pub open spec fn bytes_of(pixels: Seq<Colour>) -> Seq<u8> {
    Seq::new(
        3 * pixels.len(),
        |i: int|
            if i % 3 == 0 {
                pixels[i / 3].0
            } else if i % 3 == 1 {
                pixels[i / 3].1
            } else {
                pixels[i / 3].2
            },
    )
}

fn to_bytes(pixels: &[Colour]) -> (r: Vec<u8>)
    ensures
        r@ == bytes_of(pixels@),
{
    let mut out: Vec<u8> = Vec::new();
    for i in 0..pixels.len()
        invariant
            out@.len() == 3 * i,
            forall|k: int| 0 <= k < 3 * i ==> #[trigger] out@[k] == bytes_of(pixels@)[k],
    {
        let ghost before = out@;
        out.push(pixels[i].0);
        out.push(pixels[i].1);
        out.push(pixels[i].2);
        proof {
            assert forall|k: int| 0 <= k < 3 * (i + 1) implies #[trigger] out@[k] == bytes_of(
                pixels@,
            )[k] by {
                if k < 3 * i {
                    assert(out@[k] == before[k]);
                }
            }
        }
    }
    assert(out@ =~= bytes_of(pixels@));
    out
}

fn from_bytes(bytes: &[u8], count: usize) -> (r: Vec<Colour>)
    requires
        bytes@.len() == 3 * count,
    ensures
        bytes_of(r@) == bytes@,
{
    let mut out: Vec<Colour> = Vec::with_capacity(count);
    for i in 0..count
        invariant
            bytes@.len() == 3 * count,
            bytes@.len() == bytes.len(),
            out@.len() == i,
            forall|k: int|
                0 <= k < i ==> #[trigger] out@[k] == (
                    bytes@[3 * k],
                    bytes@[3 * k + 1],
                    bytes@[3 * k + 2],
                ),
    {
        out.push((bytes[3 * i], bytes[3 * i + 1], bytes[3 * i + 2]));
    }
    proof {
        assert forall|j: int| 0 <= j < bytes@.len() implies bytes_of(out@)[j] == bytes@[j] by {
            let k = j / 3;
            assert(0 <= k < count);
            assert(out@[k] == (bytes@[3 * k], bytes@[3 * k + 1], bytes@[3 * k + 2]));
        }
        assert(bytes_of(out@) =~= bytes@);
    }
    out
}

/// A quality within the range that the format has.
pub open spec fn usable_quality(quality: u8) -> u8 {
    if quality < 1 {
        1
    } else if quality > 100 {
        100
    } else {
        quality
    }
}

/// Whether compressing a picture and showing it again can give `r`: nothing where the format has no
/// such size or the file cannot be shown, else the pixels that the decoder makes of the file.
pub open spec fn is_roundtrip(picture: Picture, quality: u8, r: Option<Picture>) -> bool {
    match jpeg_of_rgb(
        bytes_of(picture@),
        picture.width,
        picture.height,
        usable_quality(quality),
    ) {
        None => r is None,
        Some(file) => exists|decoded: Option<Decoded>|
            may_show(file, #[trigger] shown_of(decoded)) && match decoded {
                None => r is None,
                Some(shown) => r matches Some(back) && back.wf() && back.same_size(picture)
                    && bytes_of(back@) == shown.rgb@,
            },
    }
}

/// Encodes to JPEG and decodes back, so that the corpus carries real artifacts: ringing along the
/// high-contrast module edges, exactly where a barcode is most sensitive.
pub fn jpeg_roundtrip(picture: &Picture, quality: u8) -> (r: Option<Picture>)
    requires
        picture.wf(),
    ensures
        is_roundtrip(*picture, quality, r),
        r is Some ==> r->0.wf() && r->0.same_size(*picture),
{
    let quality: u8 = if quality < 1 {
        1
    } else if quality > 100 {
        100
    } else {
        quality
    };
    let bytes = to_bytes(picture.pixels.as_slice());
    let file = match encode_jpeg(bytes.as_slice(), picture.width, picture.height, quality) {
        Some(file) => file,
        None => {
            return None;
        },
    };
    let answer = decode_jpeg(file.as_slice());
    let ghost seen = answer;
    assert(may_show(file@, shown_of(seen)));
    let decoded = match answer {
        Some(decoded) => decoded,
        None => {
            return None;
        },
    };
    proof {
        assert(jpeg_of_rgb(bytes@, picture.width, picture.height, quality) == Some(file@));
        assert(decoded.width == picture.width && decoded.height == picture.height);
    }
    let pixels = from_bytes(decoded.rgb.as_slice(), picture.pixels.len());
    Some(Picture { width: decoded.width, height: decoded.height, pixels })
}

// ---- all of it ----
/// Whether `out` can be what blur and noise leave of a picture.
pub open spec fn is_softened(picture: Picture, params: Degradation, out: Picture) -> bool {
    exists|soft: Picture| #[trigger]
        is_blurred_if_any(picture, params.blur_radius, soft) && is_noisy_if_any(
            soft,
            params.noise,
            out,
        )
}

/// Whether `out` is a picture blurred, or the picture itself where there is no radius.
pub open spec fn is_blurred_if_any(picture: Picture, radius: u32, out: Picture) -> bool {
    &&& out.wf()
    &&& out.same_size(picture)
    &&& if radius > 0 {
        is_blurred(picture, radius as int, out)
    } else {
        out@ == picture@
    }
}

/// Whether `out` is a picture with noise, or the picture itself where the noise has no amplitude.
pub open spec fn is_noisy_if_any(picture: Picture, amplitude: u8, out: Picture) -> bool {
    &&& out.wf()
    &&& out.same_size(picture)
    &&& if amplitude > 0 {
        is_noisy(picture, amplitude, out)
    } else {
        out@ == picture@
    }
}

/// Whether `out` can be what compression leaves of a picture after blur and noise: the same picture
/// where nothing comes back.
pub open spec fn is_compressed(
    picture: Picture,
    params: Degradation,
    quality: u8,
    out: Picture,
) -> bool {
    exists|noisy: Picture, back: Option<Picture>|
        is_softened(picture, params, noisy) && #[trigger] is_roundtrip(noisy, quality, back)
            && out == match back {
            Some(shown) => shown,
            None => noisy,
        }
}

/// Copies a picture.
fn copy_of(picture: &Picture) -> (r: Picture)
    requires
        picture.wf(),
    ensures
        r.wf(),
        r.same_size(*picture),
        r@ == picture@,
{
    let mut pixels: Vec<Colour> = Vec::with_capacity(picture.pixels.len());
    for i in 0..picture.pixels.len()
        invariant
            pixels@ == picture@.subrange(0, i as int),
    {
        pixels.push(picture.pixels[i]);
        assert(pixels@ =~= picture@.subrange(0, i + 1));
    }
    assert(pixels@ =~= picture@);
    Picture { width: picture.width, height: picture.height, pixels }
}

/// Applies a degradation: blur, then noise, then compression.
pub fn degrade(picture: &Picture, params: &Degradation) -> (out: Picture)
    requires
        picture.wf(),
        (2 * params.blur_radius + 1) * 255 <= u32::MAX,
    ensures
        out.wf(),
        out.same_size(*picture),
        params.jpeg_quality is None ==> is_softened(*picture, *params, out),
        params.jpeg_quality is Some ==> is_compressed(*picture, *params, params.jpeg_quality->0, out),
{
    let soft = if params.blur_radius > 0 {
        box_blur(picture, params.blur_radius)
    } else {
        copy_of(picture)
    };
    assert(is_blurred_if_any(*picture, params.blur_radius, soft));
    let noisy = if params.noise > 0 {
        add_noise(&soft, params.noise)
    } else {
        copy_of(&soft)
    };
    assert(is_noisy_if_any(soft, params.noise, noisy));
    assert(is_softened(*picture, *params, noisy));
    match params.jpeg_quality {
        Some(quality) => {
            let back = jpeg_roundtrip(&noisy, quality);
            let ghost (before, seen) = (noisy, back);
            assert(is_roundtrip(before, quality, seen));
            match back {
                Some(shown) => shown,
                None => noisy,
            }
        },
        None => noisy,
    }
}

// ---- laws ----
/// The pristine degradation changes nothing.
pub proof fn law_pristine_is_a_no_op(picture: Picture, params: Degradation, out: Picture)
    requires
        params.blur_radius == 0,
        params.noise == 0,
        is_softened(picture, params, out),
    ensures
        out@ == picture@,
        out.same_size(picture),
{
}

/// Blur and noise are reproducible: one picture under one degradation gives one result.
pub proof fn law_degradation_is_reproducible(
    picture: Picture,
    params: Degradation,
    a: Picture,
    b: Picture,
)
    requires
        is_softened(picture, params, a),
        is_softened(picture, params, b),
    ensures
        a@ == b@,
        a.same_size(b),
{
    let sa = choose|soft: Picture| #[trigger]
        is_blurred_if_any(picture, params.blur_radius, soft) && is_noisy_if_any(
            soft,
            params.noise,
            a,
        );
    let sb = choose|soft: Picture| #[trigger]
        is_blurred_if_any(picture, params.blur_radius, soft) && is_noisy_if_any(
            soft,
            params.noise,
            b,
        );
    let r = params.blur_radius as int;
    if params.blur_radius > 0 {
        let ha = choose|half: Picture| #[trigger]
            is_blurred_along(picture, r, true, half) && is_blurred_along(half, r, false, sa);
        let hb = choose|half: Picture| #[trigger]
            is_blurred_along(picture, r, true, half) && is_blurred_along(half, r, false, sb);
        assert(ha@ =~= hb@);
        lemma_pixels_decide_blur(ha, hb, r, sa, sb);
    }
    assert(sa@ == sb@);
    assert(a@ =~= b@);
}

/// The pixels and the size decide what blurring gives.
proof fn lemma_pixels_decide_blur(a: Picture, b: Picture, r: int, x: Picture, y: Picture)
    requires
        a@ == b@,
        a.same_size(b),
        r >= 0,
        is_blurred_along(a, r, false, x),
        is_blurred_along(b, r, false, y),
    ensures
        x@ == y@,
{
    assert forall|i: int| 0 <= i < a@.len() implies x@[i] == y@[i] by {
        let col = i % a.width as int;
        let row = i / a.width as int;
        lemma_pixels_decide_sum(a, b, r, col, row, (2 * r + 1) as nat);
    }
    assert(x@ =~= y@);
}

proof fn lemma_pixels_decide_sum(a: Picture, b: Picture, r: int, x: int, y: int, k: nat)
    requires
        a@ == b@,
        a.same_size(b),
    ensures
        window_sum(a, r, false, x, y, k) == window_sum(b, r, false, x, y, k),
    decreases k,
{
    if k > 0 {
        lemma_pixels_decide_sum(a, b, r, x, y, (k - 1) as nat);
    }
}

/// Far from an edge nothing moves: where a whole window has one colour, the mean is that colour.
pub proof fn law_blur_keeps_flat_areas(
    picture: Picture,
    r: int,
    horizontal: bool,
    x: int,
    y: int,
    colour: Colour,
)
    requires
        r >= 0,
        forall|d: int|
            -r <= d <= r ==> #[trigger] neighbour(picture, horizontal, x, y, d) == colour,
    ensures
        window_mean(picture, r, horizontal, x, y) == colour,
{
    let n = 2 * r + 1;
    lemma_flat_sum(picture, r, horizontal, x, y, colour, n as nat);
    vstd::arithmetic::div_mod::lemma_div_multiples_vanish(colour.0 as int, n);
    vstd::arithmetic::div_mod::lemma_div_multiples_vanish(colour.1 as int, n);
    vstd::arithmetic::div_mod::lemma_div_multiples_vanish(colour.2 as int, n);
}

proof fn lemma_flat_sum(
    picture: Picture,
    r: int,
    horizontal: bool,
    x: int,
    y: int,
    colour: Colour,
    k: nat,
)
    requires
        k <= 2 * r + 1,
        forall|d: int|
            -r <= d <= r ==> #[trigger] neighbour(picture, horizontal, x, y, d) == colour,
    ensures
        window_sum(picture, r, horizontal, x, y, k) == (
            k * colour.0,
            k * colour.1,
            k * colour.2,
        ),
    decreases k,
{
    if k > 0 {
        lemma_flat_sum(picture, r, horizontal, x, y, colour, (k - 1) as nat);
        assert(neighbour(picture, horizontal, x, y, k - 1 - r) == colour);
        let prior: nat = (k - 1) as nat;
        assert(prior * colour.0 + colour.0 == k * colour.0) by (nonlinear_arith)
            requires
                prior == k - 1,
        ;
        assert(prior * colour.1 + colour.1 == k * colour.1) by (nonlinear_arith)
            requires
                prior == k - 1,
        ;
        assert(prior * colour.2 + colour.2 == k * colour.2) by (nonlinear_arith)
            requires
                prior == k - 1,
        ;
    } else {
        assert(k * colour.0 == 0 && k * colour.1 == 0 && k * colour.2 == 0) by (nonlinear_arith)
            requires
                k == 0,
        ;
    }
}

/// Noise stays within its amplitude, on either side of what was there.
pub proof fn law_noise_stays_within_its_amplitude(c: Colour, amplitude: u8, x: u32, y: u32)
    ensures
        -amplitude <= noise_delta(amplitude, x, y) <= amplitude,
        -amplitude <= with_noise(c, amplitude, x, y).0 - c.0 <= amplitude,
        -amplitude <= with_noise(c, amplitude, x, y).1 - c.1 <= amplitude,
        -amplitude <= with_noise(c, amplitude, x, y).2 - c.2 <= amplitude,
{
}

/// A blurred channel lies between the darkest and the lightest of its window.
pub proof fn law_blur_stays_within_its_window(
    picture: Picture,
    r: int,
    horizontal: bool,
    x: int,
    y: int,
    low: u8,
    high: u8,
)
    requires
        r >= 0,
        forall|d: int|
            -r <= d <= r ==> low <= (#[trigger] neighbour(picture, horizontal, x, y, d)).0 <= high,
    ensures
        low <= window_mean(picture, r, horizontal, x, y).0 <= high,
{
    let n = 2 * r + 1;
    lemma_sum_between(picture, r, horizontal, x, y, low, high, n as nat);
    let sum = window_sum(picture, r, horizontal, x, y, n as nat).0;
    assert(low <= sum / n <= high) by (nonlinear_arith)
        requires
            n * low <= sum <= n * high,
            n > 0,
    ;
}

proof fn lemma_sum_between(
    picture: Picture,
    r: int,
    horizontal: bool,
    x: int,
    y: int,
    low: u8,
    high: u8,
    k: nat,
)
    requires
        k <= 2 * r + 1,
        forall|d: int|
            -r <= d <= r ==> low <= (#[trigger] neighbour(picture, horizontal, x, y, d)).0 <= high,
    ensures
        k * low <= window_sum(picture, r, horizontal, x, y, k).0 <= k * high,
    decreases k,
{
    if k > 0 {
        let prior: nat = (k - 1) as nat;
        lemma_sum_between(picture, r, horizontal, x, y, low, high, prior);
        let p = neighbour(picture, horizontal, x, y, k - 1 - r);
        assert(low <= p.0 <= high);
        assert(k * low == prior * low + low && k * high == prior * high + high)
            by (nonlinear_arith)
            requires
                prior == k - 1,
        ;
    } else {
        assert(k * low == 0 && k * high == 0) by (nonlinear_arith)
            requires
                k == 0,
        ;
    }
}

/// Blur looks at the pixels beside the one it is about, on both sides alike: those inside the picture
/// are taken as they stand, and the edge stands for what would lie past it.
pub proof fn law_blur_looks_beside(picture: Picture, x: int, y: int, d: int)
    requires
        picture.width > 0,
        picture.height > 0,
    ensures
        0 <= x + d < picture.width ==> neighbour(picture, true, x, y, d) == picture.at(x + d, y),
        0 <= y + d < picture.height ==> neighbour(picture, false, x, y, d) == picture.at(x, y + d),
        x + d < 0 ==> neighbour(picture, true, x, y, d) == picture.at(0, y),
        y + d < 0 ==> neighbour(picture, false, x, y, d) == picture.at(x, 0),
        x + d >= picture.width ==> neighbour(picture, true, x, y, d) == picture.at(
            picture.width - 1,
            y,
        ),
        y + d >= picture.height ==> neighbour(picture, false, x, y, d) == picture.at(
            x,
            picture.height - 1,
        ),
{
}

/// One light pixel among black ones spreads evenly over the window: it lends every pixel up to `r`
/// away, on either side, one share out of `2 * r + 1`.
pub proof fn law_blur_spreads_evenly(
    picture: Picture,
    r: int,
    horizontal: bool,
    x: int,
    y: int,
    at: int,
)
    requires
        -r <= at <= r,
        forall|d: int|
            -r <= d <= r && d != at ==> #[trigger] neighbour(picture, horizontal, x, y, d) == (
                0u8,
                0u8,
                0u8,
            ),
    ensures
        ({
            let light = neighbour(picture, horizontal, x, y, at);
            let mean = window_mean(picture, r, horizontal, x, y);
            &&& (2 * r + 1) * mean.0 <= light.0 < (2 * r + 1) * (mean.0 + 1)
            &&& (2 * r + 1) * mean.1 <= light.1 < (2 * r + 1) * (mean.1 + 1)
            &&& (2 * r + 1) * mean.2 <= light.2 < (2 * r + 1) * (mean.2 + 1)
        }),
{
    let n = 2 * r + 1;
    let light = neighbour(picture, horizontal, x, y, at);
    lemma_lone_sum(picture, r, horizontal, x, y, at, n as nat);
    lemma_mean(light.0 as int, n);
    lemma_mean(light.1 as int, n);
    lemma_mean(light.2 as int, n);
    lemma_share(light.0 as int, n);
    lemma_share(light.1 as int, n);
    lemma_share(light.2 as int, n);
}

proof fn lemma_share(v: int, n: int)
    requires
        n > 0,
    ensures
        n * (v / n) <= v < n * (v / n + 1),
{
    vstd::arithmetic::div_mod::lemma_fundamental_div_mod(v, n);
    vstd::arithmetic::div_mod::lemma_mod_bound(v, n);
    assert(n * (v / n + 1) == n * (v / n) + n) by (nonlinear_arith);
}

proof fn lemma_lone_sum(
    picture: Picture,
    r: int,
    horizontal: bool,
    x: int,
    y: int,
    at: int,
    k: nat,
)
    requires
        k <= 2 * r + 1,
        -r <= at <= r,
        forall|d: int|
            -r <= d <= r && d != at ==> #[trigger] neighbour(picture, horizontal, x, y, d) == (
                0u8,
                0u8,
                0u8,
            ),
    ensures
        ({
            let light = neighbour(picture, horizontal, x, y, at);
            window_sum(picture, r, horizontal, x, y, k) == if at < k - r {
                (light.0 as int, light.1 as int, light.2 as int)
            } else {
                (0, 0, 0)
            }
        }),
    decreases k,
{
    if k > 0 {
        lemma_lone_sum(picture, r, horizontal, x, y, at, (k - 1) as nat);
        let d = k - 1 - r;
        let p = neighbour(picture, horizontal, x, y, d);
        if d != at {
            assert(p == (0u8, 0u8, 0u8));
        }
    }
}

/// Noise moves the channels of a pixel together: by one and the same amount, but where that would
/// leave the range of a byte.
pub proof fn law_noise_is_grey(c: Colour, amplitude: u8, x: u32, y: u32)
    ensures
        ({
            let out = with_noise(c, amplitude, x, y);
            let d = noise_delta(amplitude, x, y);
            &&& 0 <= c.0 + d <= 255 ==> out.0 == c.0 + d
            &&& 0 <= c.1 + d <= 255 ==> out.1 == c.1 + d
            &&& 0 <= c.2 + d <= 255 ==> out.2 == c.2 + d
            &&& c.0 + d < 0 ==> out.0 == 0
            &&& c.1 + d < 0 ==> out.1 == 0
            &&& c.2 + d < 0 ==> out.2 == 0
            &&& c.0 + d > 255 ==> out.0 == 255
            &&& c.1 + d > 255 ==> out.1 == 255
            &&& c.2 + d > 255 ==> out.2 == 255
        }),
{
}

/// Noise varies from pixel to pixel: along a row, and along a column, no two places have one hash, and
/// where two hashes differ by less than the span of the noise, so does what is added.
pub proof fn law_noise_varies(amplitude: u8, x: u32, y: u32, other: u32)
    requires
        other != x,
    ensures
        noise_hash(x, y) != noise_hash(other, y),
        noise_hash(y, x) != noise_hash(y, other),
        -(2 * amplitude + 1) < noise_hash(x, y) - noise_hash(other, y) < 2 * amplitude + 1
            ==> noise_delta(amplitude, x, y) != noise_delta(amplitude, other, y),
{
    let a = x.wrapping_mul(0x27D4_EB2Du32);
    let b = other.wrapping_mul(0x27D4_EB2Du32);
    let c = y.wrapping_mul(0x1656_67B1u32);
    lemma_odd_factors_keep_apart(x, other, 0x27D4_EB2Du32, 0xFB69_9CA5u32);
    assert(a ^ c != b ^ c) by (bit_vector)
        requires
            a != b,
    ;
    lemma_mixing_keeps_apart(a ^ c, b ^ c, 0x2545_F491u32, 0x4144_4C71u32);
    let p = y.wrapping_mul(0x27D4_EB2Du32);
    let q = x.wrapping_mul(0x1656_67B1u32);
    let r = other.wrapping_mul(0x1656_67B1u32);
    lemma_odd_factors_keep_apart(x, other, 0x1656_67B1u32, 0xAE39_8151u32);
    assert(p ^ q != p ^ r) by (bit_vector)
        requires
            q != r,
    ;
    lemma_mixing_keeps_apart(p ^ q, p ^ r, 0x2545_F491u32, 0x4144_4C71u32);
    let n: int = 2 * amplitude + 1;
    let h = noise_hash(x, y) as int;
    let k = noise_hash(other, y) as int;
    if h % n == k % n && -n < h - k < n {
        vstd::arithmetic::div_mod::lemma_fundamental_div_mod(h, n);
        vstd::arithmetic::div_mod::lemma_fundamental_div_mod(k, n);
        let (i, j) = (h / n, k / n);
        assert(i == j) by (nonlinear_arith)
            requires
                n > 0,
                -n < n * i - n * j < n,
        ;
    }
}

/// Noise comes after blur: a picture of one colour, which blur leaves as it is, gets the noise of every
/// place in full.
pub proof fn law_noise_comes_after_blur(
    picture: Picture,
    params: Degradation,
    out: Picture,
    colour: Colour,
    x: int,
    y: int,
)
    requires
        picture.wf(),
        forall|i: int| 0 <= i < picture@.len() ==> #[trigger] picture@[i] == colour,
        is_softened(picture, params, out),
        params.noise > 0,
        0 <= x < picture.width,
        0 <= y < picture.height,
    ensures
        out.at(x, y) == with_noise(colour, params.noise, x as u32, y as u32),
{
    let soft = choose|soft: Picture| #[trigger]
        is_blurred_if_any(picture, params.blur_radius, soft) && is_noisy_if_any(
            soft,
            params.noise,
            out,
        );
    let r = params.blur_radius as int;
    if params.blur_radius > 0 {
        let half = choose|half: Picture| #[trigger]
            is_blurred_along(picture, r, true, half) && is_blurred_along(half, r, false, soft);
        lemma_flat_blurs_flat(picture, r, true, half, colour);
        lemma_flat_blurs_flat(half, r, false, soft, colour);
    }
    let w = picture.width as int;
    lemma_cell(x, y, w, picture.height as int);
    vstd::arithmetic::div_mod::lemma_fundamental_div_mod_converse(y * w + x, w, y, x);
    assert(soft@[y * w + x] == colour);
}

proof fn lemma_flat_blurs_flat(
    picture: Picture,
    r: int,
    horizontal: bool,
    out: Picture,
    colour: Colour,
)
    requires
        r >= 0,
        picture.wf(),
        forall|i: int| 0 <= i < picture@.len() ==> #[trigger] picture@[i] == colour,
        is_blurred_along(picture, r, horizontal, out),
    ensures
        forall|i: int| 0 <= i < out@.len() ==> #[trigger] out@[i] == colour,
{
    let w = picture.width as int;
    let h = picture.height as int;
    assert forall|i: int| 0 <= i < out@.len() implies #[trigger] out@[i] == colour by {
        lemma_coordinates(i, w, h);
        let (x, y) = (i % w, i / w);
        assert forall|d: int| -r <= d <= r implies #[trigger] neighbour(
            picture,
            horizontal,
            x,
            y,
            d,
        ) == colour by {
            if horizontal {
                lemma_cell(clamped(x + d, w), y, w, h);
            } else {
                lemma_cell(x, clamped(y + d, h), w, h);
            }
        }
        law_blur_keeps_flat_areas(picture, r, horizontal, x, y, colour);
    }
}

/// Pixels are written red first, then green, then blue, one after the other.
pub proof fn law_bytes_are_the_channels_in_order(pixels: Seq<Colour>, k: int)
    requires
        0 <= k < pixels.len(),
    ensures
        bytes_of(pixels).len() == 3 * pixels.len(),
        pixels[k] == (
            bytes_of(pixels)[3 * k],
            bytes_of(pixels)[3 * k + 1],
            bytes_of(pixels)[3 * k + 2],
        ),
{
}

/// Qualities of 1 to 100 are used as they are, and what lies outside is brought to the nearest end.
pub proof fn law_qualities_are_of_a_hundred(quality: u8)
    ensures
        1 <= usable_quality(quality) <= 100,
        1 <= quality <= 100 ==> usable_quality(quality) == quality,
        quality == 0 ==> usable_quality(quality) == 1,
        quality > 100 ==> usable_quality(quality) == 100,
{
}

/// Compression comes last: what it is given has been blurred and got its noise, at a quality of 1 to 100,
/// and where the format has no file for it, it is left as it was.
pub proof fn law_compression_comes_last(
    picture: Picture,
    params: Degradation,
    quality: u8,
    out: Picture,
    noisy: Picture,
)
    requires
        is_softened(picture, params, noisy),
        is_compressed(picture, params, quality, out),
        1 <= quality <= 100,
        jpeg_of_rgb(bytes_of(noisy@), noisy.width, noisy.height, quality) is None,
    ensures
        out@ == noisy@,
        out.same_size(noisy),
{
    let (given, back) = choose|given: Picture, back: Option<Picture>|
        is_softened(picture, params, given) && #[trigger] is_roundtrip(given, quality, back) && out
            == match back {
            Some(shown) => shown,
            None => given,
        };
    law_degradation_is_reproducible(picture, params, given, noisy);
}

} // verus!
