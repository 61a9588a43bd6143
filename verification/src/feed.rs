//! The camera feed: a hand-off between the camera, the decoder and the screen.
//!
//! The camera submits frames and must not be kept waiting; the decoder takes the newest frame there
//! is; the screen shows the newest frame and collects what the decoder concluded. Frames are shared
//! and never changed in place, so nobody sees half an update.
//!
//! One frame waits to be decoded, never a queue: a frame that arrives while the decoder is busy
//! replaces the waiting one. A decode of a frame from two seconds ago answers a question that is no
//! longer asked.
use vstd::prelude::*;
use std::sync::Arc;
use crate::clean::qr::{clean_luma, is_cleaned_luma, CleanError, Cleaned};
use crate::codec::formats::{reading_of, Scan};
use crate::scan::{may_be_read, read_image};
use crate::sample::geometry::lemma_cell;

verus! {

/// One camera frame's luminance plane.
#[derive(Clone, Debug, Default)]
pub struct Frame {
    pub luma: Vec<u8>,
    pub width: usize,
    pub height: usize,
    /// Clockwise rotation to bring the sensor upright.
    pub rotation: u32,
}

/// `a - b`, or zero.
pub open spec fn saturated(a: int, b: int) -> int {
    if a < b {
        0
    } else {
        a - b
    }
}

impl Frame {
    /// One byte for every pixel.
    pub open spec fn wf(self) -> bool {
        self.luma@.len() == self.width * self.height
    }

    /// Whether there is nothing to see.
    pub open spec fn is_blank(self) -> bool {
        self.width == 0 || self.height == 0 || self.luma@.len() == 0
    }

    pub fn is_empty(&self) -> (r: bool)
        ensures
            r == self.is_blank(),
    {
        self.width == 0 || self.height == 0 || self.luma.len() == 0
    }

    /// Dimensions after rotation: swapped on the quarter turns.
    pub open spec fn spec_rotated_dims(self) -> (usize, usize) {
        if self.rotation == 90 || self.rotation == 270 {
            (self.height, self.width)
        } else {
            (self.width, self.height)
        }
    }

    pub fn rotated_dims(&self) -> (r: (usize, usize))
        ensures
            r == self.spec_rotated_dims(),
    {
        match self.rotation {
            90 | 270 => (self.height, self.width),
            _ => (self.width, self.height),
        }
    }

    /// The column and row of the sensor that the upright image shows in column `x` of row `y`.
    pub open spec fn sensor_place(self, x: int, y: int) -> (int, int) {
        let last_column = saturated(self.width as int, 1);
        let last_row = saturated(self.height as int, 1);
        if self.rotation == 90 {
            (y, saturated(last_row, x))
        } else if self.rotation == 180 {
            (saturated(last_column, x), saturated(last_row, y))
        } else if self.rotation == 270 {
            (saturated(last_column, y), x)
        } else {
            (x, y)
        }
    }

    /// What the upright image shows in column `x` of row `y`; zero past the sensor.
    pub open spec fn upright(self, x: int, y: int) -> u8 {
        let (ox, oy) = self.sensor_place(x, y);
        if ox >= self.width || oy >= self.height {
            0
        } else {
            self.luma@[oy * self.width + ox]
        }
    }

    /// Samples the upright image at `(x, y)`, mapping back through the rotation.
    ///
    /// Rotating at sample time keeps the decoder on the sensor's own pixels: rotating the buffer
    /// would cost a copy every frame.
    pub fn sample_upright(&self, x: usize, y: usize) -> (r: u8)
        requires
            self.wf(),
        ensures
            r == self.upright(x as int, y as int),
    {
        let last_column: usize = self.width.saturating_sub(1);
        let last_row: usize = self.height.saturating_sub(1);
        let (ox, oy): (usize, usize) = match self.rotation {
            90 => (y, last_row.saturating_sub(x)),
            180 => (last_column.saturating_sub(x), last_row.saturating_sub(y)),
            270 => (last_column.saturating_sub(y), x),
            _ => (x, y),
        };
        if ox >= self.width || oy >= self.height {
            return 0;
        }
        proof {
            lemma_cell(ox as int, oy as int, self.width as int, self.height as int);
            assert(self.luma@.len() == self.luma.len());
        }
        self.luma[oy * self.width + ox]
    }
}

/// The upright image shows every pixel of the sensor once: inside the rotated size every place comes
/// from a place on the sensor, and different places from different ones.
pub proof fn law_upright_shows_every_pixel_once(frame: Frame, x: int, y: int, a: int, b: int)
    requires
        0 <= x < frame.spec_rotated_dims().0,
        0 <= y < frame.spec_rotated_dims().1,
        0 <= a < frame.spec_rotated_dims().0,
        0 <= b < frame.spec_rotated_dims().1,
    ensures
        0 <= frame.sensor_place(x, y).0 < frame.width,
        0 <= frame.sensor_place(x, y).1 < frame.height,
        frame.sensor_place(x, y) == frame.sensor_place(a, b) ==> x == a && y == b,
{
}

// ---- padded rows ----
/// Where the rows of a padded image begin: `row_stride` apart, never closer than the width.
pub open spec fn stride_of(width: usize, row_stride: usize) -> int {
    if row_stride >= width {
        row_stride as int
    } else {
        width as int
    }
}

/// Whether a buffer holds every row of an image whose rows are padded.
pub open spec fn holds_rows(len: nat, width: usize, height: usize, row_stride: usize) -> bool {
    &&& width > 0
    &&& height > 0
    &&& (height - 1) * stride_of(width, row_stride) + width <= len
}

/// The pixels of a padded image, without the padding.
pub open spec fn unpadded(luma: Seq<u8>, width: usize, height: usize, row_stride: usize) -> Seq<u8> {
    Seq::new(
        (width * height) as nat,
        |i: int| luma[(i / width as int) * stride_of(width, row_stride) + i % width as int],
    )
}

/// One more row of a tight image.
proof fn lemma_next_row(
    luma: Seq<u8>,
    width: usize,
    height: usize,
    row_stride: usize,
    y: int,
    start: int,
    before: Seq<u8>,
    after: Seq<u8>,
)
    requires
        width > 0,
        0 <= y < height,
        start == y * stride_of(width, row_stride),
        0 <= start,
        start + width <= luma.len(),
        before == unpadded(luma, width, height, row_stride).subrange(0, y * width),
        after == before + luma.subrange(start, start + width),
        y * width + width <= width * height,
        0 <= y * width,
    ensures
        after == unpadded(luma, width, height, row_stride).subrange(0, (y + 1) * width),
{
    let whole = unpadded(luma, width, height, row_stride);
    assert((y + 1) * width == y * width + width) by (nonlinear_arith);
    assert forall|i: int| 0 <= i < (y + 1) * width implies after[i] == whole[i] by {
        if i >= y * width {
            let x = i - y * width;
            lemma_cell(x, y, width as int, height as int);
            assert(after[i] == luma[start + x]);
        } else {
            assert(after[i] == before[i]);
        }
    }
    assert(after =~= whole.subrange(0, (y + 1) * width));
}

/// Drops the padding of an image's rows.
///
/// `row_stride` is not necessarily `width`: cameras pad rows to a hardware alignment, and treating
/// stride as width shears the image progressively down the frame. An image without pixels, or a
/// buffer that does not hold every row, gives nothing.
pub fn compact_rows(luma: &[u8], width: usize, height: usize, row_stride: usize) -> (r: Option<
    Vec<u8>,
>)
    ensures
        r is Some <==> holds_rows(luma@.len(), width, height, row_stride),
        r is Some ==> r->0@ == unpadded(luma@, width, height, row_stride) && r->0@.len() == width
            * height,
{
    if width == 0 || height == 0 {
        return None;
    }
    let stride: usize = if row_stride >= width {
        row_stride
    } else {
        width
    };
    let last: usize = match (height - 1).checked_mul(stride) {
        Some(last) => last,
        None => {
            proof {
                assert(luma@.len() == luma.len());
            }
            return None;
        },
    };
    proof {
        assert(luma@.len() == luma.len());
    }
    if last > luma.len() || width > luma.len() - last {
        return None;
    }
    let ghost whole = unpadded(luma@, width, height, row_stride);
    proof {
        assert(width * height <= (height - 1) * stride + width) by (nonlinear_arith)
            requires
                stride >= width,
                height >= 1,
        ;
        assert(0 <= width * height) by (nonlinear_arith)
            requires
                width > 0,
                height > 0,
        ;
    }
    let mut tight: Vec<u8> = Vec::with_capacity(width * height);
    let mut y: usize = 0;
    let mut start: usize = 0;
    assert(tight@ =~= whole.subrange(0, 0 * width));
    while y < height
        invariant
            0 < width,
            stride == stride_of(width, row_stride),
            stride >= width,
            last == (height - 1) * stride,
            last + width <= luma@.len(),
            luma@.len() == luma.len(),
            whole == unpadded(luma@, width, height, row_stride),
            y <= height,
            y < height ==> start == y * stride,
            tight@ == whole.subrange(0, y * width),
            whole.len() == width * height,
        decreases height - y,
    {
        proof {
            assert(y * stride <= (height - 1) * stride) by (nonlinear_arith)
                requires
                    y <= height - 1,
                    stride >= 0,
            ;
            assert(y * width + width <= width * height && 0 <= y * width) by (nonlinear_arith)
                requires
                    y <= height - 1,
                    y >= 0,
                    width > 0,
            ;
        }
        let ghost before = tight@;
        let row = vstd::slice::slice_subrange(luma, start, start + width);
        tight.extend_from_slice(row);
        proof {
            assert(tight@ =~= before + luma@.subrange(start as int, start + width));
            lemma_next_row(
                luma@,
                width,
                height,
                row_stride,
                y as int,
                start as int,
                before,
                tight@,
            );
            assert((y + 1) * stride == y * stride + stride) by (nonlinear_arith);
            if y + 1 < height {
                assert((y + 1) * stride <= (height - 1) * stride) by (nonlinear_arith)
                    requires
                        y + 1 <= height - 1,
                        stride >= 0,
                ;
            }
        }
        y = y + 1;
        if y < height {
            start = start + stride;
        }
    }
    proof {
        assert(height * width == width * height) by (nonlinear_arith);
        assert(tight@ =~= whole);
    }
    Some(tight)
}

// ---- the hand-off ----
/// What a decode attempt concluded.
#[derive(Debug)]
pub struct Decoded {
    pub result: Result<Cleaned, CleanError>,
    /// What a stock scanner read, and what it calls the format, when the cleaner declined.
    pub fallback: Option<(String, String)>,
    pub elapsed_ms: u32,
}

/// What the decoder is to do.
#[derive(Debug)]
pub enum Next {
    /// There is a frame to decode.
    Decode(Arc<Frame>),
    /// Nothing is waiting.
    Wait,
    /// The feed was stopped.
    Stop,
}

/// What the camera, the decoder and the screen share.
#[derive(Debug)]
pub struct CameraFeed {
    /// Newest frame, for the preview.
    pub latest: Option<Arc<Frame>>,
    /// The single frame waiting to be decoded.
    pub pending: Option<Arc<Frame>>,
    pub stopping: bool,
    /// Newest decode outcome, awaiting collection.
    pub outcome: Option<Decoded>,
    /// Frames accepted since launch.
    pub frames: u64,
    /// While set, frames are still shown but not decoded: a result is being looked at.
    pub frozen: bool,
}

/// What submitting a frame does to a feed.
pub open spec fn is_submitted(
    before: CameraFeed,
    luma: Seq<u8>,
    width: usize,
    height: usize,
    row_stride: usize,
    rotation: u32,
    after: CameraFeed,
    woken: bool,
) -> bool {
    if holds_rows(luma.len(), width, height, row_stride) {
        &&& after.latest is Some
        &&& after.latest->0.luma@ == unpadded(luma, width, height, row_stride)
        &&& after.latest->0.width == width
        &&& after.latest->0.height == height
        &&& after.latest->0.rotation == rotation % 360
        &&& after.frames as int == (before.frames + 1) % 0x1_0000_0000_0000_0000
        &&& woken == !before.frozen
        &&& after == CameraFeed {
            latest: after.latest,
            frames: after.frames,
            pending: if before.frozen {
                before.pending
            } else {
                after.latest
            },
            ..before
        }
    } else {
        after == before && !woken
    }
}

/// What asking for a frame to decode gives: a stopped feed gives nothing, whatever is waiting.
pub open spec fn is_next(before: CameraFeed, next: Next, after: CameraFeed) -> bool {
    if before.stopping {
        next == Next::Stop && after == before
    } else {
        match before.pending {
            Some(frame) => next == Next::Decode(frame) && after == (CameraFeed {
                pending: None,
                ..before
            }),
            None => next == Next::Wait && after == before,
        }
    }
}

/// Shares a frame: calls `std::sync::Arc::clone`, which makes another pointer to the same value.
#[verifier::external_body]
fn share(frame: &Arc<Frame>) -> (r: Arc<Frame>)
    ensures
        r == frame,
{
    Arc::clone(frame)
}

impl Default for CameraFeed {
    fn default() -> (r: Self)
        ensures
            r.wf(),
            r.latest is None,
            r.pending is None,
            r.outcome is None,
            !r.stopping,
            !r.frozen,
            r.frames == 0,
    {
        CameraFeed {
            latest: None,
            pending: None,
            stopping: false,
            outcome: None,
            frames: 0,
            frozen: false,
        }
    }
}

impl CameraFeed {
    /// Frames are whole, and a frozen feed has nothing to decode and nothing to report.
    pub open spec fn wf(self) -> bool {
        &&& self.latest is Some ==> self.latest->0.wf()
        &&& self.pending is Some ==> self.pending->0.wf()
        &&& self.frozen ==> self.pending is None && self.outcome is None
    }

    pub fn new() -> (r: Self)
        ensures
            r.wf(),
            r.latest is None,
            r.pending is None,
            r.outcome is None,
            !r.stopping,
            !r.frozen,
            r.frames == 0,
    {
        CameraFeed::default()
    }

    /// Publishes a frame from the camera, and says whether the decoder has something new to take.
    ///
    /// The newest frame replaces the one that was waiting. A buffer that does not hold every row is
    /// rejected and not counted.
    pub fn submit(
        &mut self,
        luma: &[u8],
        width: usize,
        height: usize,
        row_stride: usize,
        rotation: u32,
    ) -> (woken: bool)
        requires
            old(self).wf(),
        ensures
            final(self).wf(),
            is_submitted(
                *old(self),
                luma@,
                width,
                height,
                row_stride,
                rotation,
                *final(self),
                woken,
            ),
    {
        let tight = match compact_rows(luma, width, height, row_stride) {
            Some(tight) => tight,
            None => {
                return false;
            },
        };
        let frame = Arc::new(Frame { luma: tight, width, height, rotation: rotation % 360 });
        self.frames = self.frames.wrapping_add(1);
        self.latest = Some(share(&frame));
        if !self.frozen {
            self.pending = Some(frame);
            true
        } else {
            false
        }
    }

    /// Newest frame for the preview: shares it, does not copy the pixels.
    pub fn latest(&self) -> (r: Option<Arc<Frame>>)
        ensures
            r == self.latest,
    {
        match &self.latest {
            Some(frame) => Some(share(frame)),
            None => None,
        }
    }

    pub fn frames(&self) -> (r: u64)
        ensures
            r == self.frames,
    {
        self.frames
    }

    /// Stops or resumes decoding. Frames keep flowing to the preview either way.
    ///
    /// Freezing drops what is waiting and what was concluded, so that nothing replaces the result
    /// that is being looked at.
    pub fn set_frozen(&mut self, frozen: bool)
        requires
            old(self).wf(),
        ensures
            final(self).wf(),
            final(self).frozen == frozen,
            frozen ==> final(self).pending is None && final(self).outcome is None,
            !frozen ==> final(self).pending == old(self).pending && final(self).outcome == old(
                self).outcome,
            final(self).latest == old(self).latest,
            final(self).frames == old(self).frames,
            final(self).stopping == old(self).stopping,
    {
        self.frozen = frozen;
        if frozen {
            self.pending = None;
            self.outcome = None;
        }
    }

    pub fn is_frozen(&self) -> (r: bool)
        ensures
            r == self.frozen,
    {
        self.frozen
    }

    /// Takes the newest decode outcome, if one has landed since the last call.
    pub fn take_outcome(&mut self) -> (r: Option<Decoded>)
        requires
            old(self).wf(),
        ensures
            final(self).wf(),
            r == old(self).outcome,
            *final(self) == (CameraFeed { outcome: None, ..*old(self) }),
    {
        self.outcome.take()
    }

    /// Asks the decoder to finish. Idempotent.
    pub fn stop(&mut self)
        requires
            old(self).wf(),
        ensures
            final(self).wf(),
            *final(self) == (CameraFeed { stopping: true, ..*old(self) }),
    {
        self.stopping = true;
    }

    /// What the decoder is to do now.
    pub fn next_to_decode(&mut self) -> (r: Next)
        requires
            old(self).wf(),
        ensures
            final(self).wf(),
            is_next(*old(self), r, *final(self)),
    {
        if self.stopping {
            return Next::Stop;
        }
        match self.pending.take() {
            Some(frame) => Next::Decode(frame),
            None => Next::Wait,
        }
    }

    /// Whether a frame that was taken is still worth decoding.
    pub fn is_wanted(&self, frame: &Frame) -> (r: bool)
        ensures
            r <==> !self.frozen && !frame.is_blank(),
    {
        !frame.is_empty() && !self.frozen
    }

    /// Publishes what the decoder concluded, and says whether it was: it is dropped when the feed
    /// froze meanwhile.
    pub fn publish(&mut self, decoded: Decoded) -> (kept: bool)
        requires
            old(self).wf(),
        ensures
            final(self).wf(),
            kept == !old(self).frozen,
            *final(self) == if old(self).frozen {
                *old(self)
            } else {
                CameraFeed { outcome: Some(decoded), ..*old(self) }
            },
    {
        if self.frozen {
            return false;
        }
        self.outcome = Some(decoded);
        true
    }
}

/// The text and the name of the format that a scanner read.
pub open spec fn text_and_format(scanned: Option<Scan>) -> Option<(String, String)> {
    match scanned {
        Some(s) => Some((s.payload, s.format)),
        None => None,
    }
}

/// What a stock scanner's answer comes to: the text and the name of the format.
pub fn fallback_of(scanned: Option<Scan>) -> (r: Option<(String, String)>)
    ensures
        r == text_and_format(scanned),
{
    match scanned {
        Some(s) => Some((s.payload, s.format)),
        None => None,
    }
}

/// Whether what comes with the cleaner's verdict on a frame is a scanner's: where the cleaner failed,
/// and nowhere else, the frame is scanned.
pub open spec fn is_fallback(
    frame: Frame,
    result: Result<Cleaned, CleanError>,
    fallback: Option<(String, String)>,
) -> bool {
    match result {
        Ok(_) => fallback is None,
        Err(_) => exists|scanned: Option<Scan>|
            may_be_read(
                frame.luma@,
                frame.width as u32,
                frame.height as u32,
                #[trigger] reading_of(scanned),
            ) && fallback == text_and_format(scanned),
    }
}

/// Decodes a frame: cleans it, and where that fails asks a stock scanner.
pub fn decode_frame(frame: &Frame) -> (r: (
    Result<Cleaned, CleanError>,
    Option<(String, String)>,
))
    ensures
        is_cleaned_luma(frame.luma@, frame.width as u32, frame.height as u32, r.0),
        is_fallback(*frame, r.0, r.1),
{
    let result = clean_luma(frame.luma.as_slice(), frame.width as u32, frame.height as u32);
    match result {
        Ok(cleaned) => (Ok(cleaned), None),
        Err(e) => {
            let scanned = read_image(frame.luma.as_slice(), frame.width as u32, frame.height as u32);
            let ghost read = scanned;
            assert(may_be_read(
                frame.luma@,
                frame.width as u32,
                frame.height as u32,
                reading_of(read),
            ));
            (Err(e), fallback_of(scanned))
        },
    }
}

/// The decoder always gets the freshest frame: whatever was waiting when a frame is accepted, the
/// frame that is taken next is that one.
pub proof fn law_the_newest_frame_wins(
    before: CameraFeed,
    luma: Seq<u8>,
    width: usize,
    height: usize,
    row_stride: usize,
    rotation: u32,
    submitted: CameraFeed,
    woken: bool,
    next: Next,
    after: CameraFeed,
)
    requires
        !before.frozen,
        !before.stopping,
        holds_rows(luma.len(), width, height, row_stride),
        is_submitted(before, luma, width, height, row_stride, rotation, submitted, woken),
        is_next(submitted, next, after),
    ensures
        next is Decode,
        next->Decode_0.luma@ == unpadded(luma, width, height, row_stride),
        next->Decode_0.width == width,
        next->Decode_0.height == height,
        after.pending is None,
{
}

/// Freezing stops decoding but not the preview: a frame that is accepted while the feed is frozen is
/// shown, and nothing is handed to the decoder.
pub proof fn law_frozen_feeds_show_but_do_not_decode(
    before: CameraFeed,
    luma: Seq<u8>,
    width: usize,
    height: usize,
    row_stride: usize,
    rotation: u32,
    submitted: CameraFeed,
    woken: bool,
    next: Next,
    after: CameraFeed,
)
    requires
        before.wf(),
        before.frozen,
        holds_rows(luma.len(), width, height, row_stride),
        is_submitted(before, luma, width, height, row_stride, rotation, submitted, woken),
        is_next(submitted, next, after),
    ensures
        submitted.latest->0.luma@ == unpadded(luma, width, height, row_stride),
        !(next is Decode),
        submitted.outcome is None,
        !woken,
{
}

/// Rotation is clockwise: the pixel in column `ox` of row `oy` of the sensor is shown in the same place
/// without it; after a quarter turn in column `height - 1 - oy` of row `ox`; after half a turn in the place
/// across the middle; after three quarters in column `oy` of row `width - 1 - ox`. Quarter turns swap the
/// sides.
pub proof fn law_rotation_is_clockwise(frame: Frame, ox: int, oy: int)
    requires
        frame.wf(),
        0 <= ox < frame.width,
        0 <= oy < frame.height,
    ensures
        ({
            let (w, h) = (frame.width as int, frame.height as int);
            let pixel = frame.luma@[oy * w + ox];
            &&& frame.rotation == 0 ==> frame.upright(ox, oy) == pixel && frame.spec_rotated_dims()
                == (frame.width, frame.height)
            &&& frame.rotation == 90 ==> frame.upright(h - 1 - oy, ox) == pixel
                && frame.spec_rotated_dims() == (frame.height, frame.width)
            &&& frame.rotation == 180 ==> frame.upright(w - 1 - ox, h - 1 - oy) == pixel
                && frame.spec_rotated_dims() == (frame.width, frame.height)
            &&& frame.rotation == 270 ==> frame.upright(oy, w - 1 - ox) == pixel
                && frame.spec_rotated_dims() == (frame.height, frame.width)
        }),
{
}

/// Padding is dropped and nothing sheared: column `x` of row `y` of the tight image is the same column of a
/// row that begins `y` strides into the buffer, and an image is accepted exactly when the buffer holds its
/// last pixel.
pub proof fn law_rows_keep_their_pixels(
    luma: Seq<u8>,
    width: usize,
    height: usize,
    row_stride: usize,
    x: int,
    y: int,
)
    requires
        0 <= x < width,
        0 <= y < height,
    ensures
        unpadded(luma, width, height, row_stride).len() == width * height,
        row_stride >= width ==> unpadded(luma, width, height, row_stride)[y * width + x] == luma[y
            * row_stride + x],
        row_stride <= width ==> unpadded(luma, width, height, row_stride)[y * width + x] == luma[y
            * width + x],
        row_stride >= width ==> (holds_rows(luma.len(), width, height, row_stride) <==> (height - 1)
            * row_stride + (width - 1) < luma.len()),
        row_stride <= width ==> (holds_rows(luma.len(), width, height, row_stride) <==> (height - 1)
            * width + (width - 1) < luma.len()),
{
    lemma_cell(x, y, width as int, height as int);
}

/// What is submitted is shown and waits to be decoded, turned by as much as it says; the count goes up by
/// one. What is rejected changes nothing.
pub proof fn law_accepted_frames_are_shown_and_counted(
    before: CameraFeed,
    luma: Seq<u8>,
    width: usize,
    height: usize,
    row_stride: usize,
    rotation: u32,
    after: CameraFeed,
    woken: bool,
)
    requires
        is_submitted(before, luma, width, height, row_stride, rotation, after, woken),
    ensures
        width == 0 || height == 0 ==> after == before && !woken,
        !holds_rows(luma.len(), width, height, row_stride) ==> after == before && !woken,
        holds_rows(luma.len(), width, height, row_stride) ==> {
            &&& after.latest is Some
            &&& after.latest->0.rotation < 360
            &&& (rotation - after.latest->0.rotation) % 360 == 0
            &&& before.frames < u64::MAX ==> after.frames == before.frames + 1
            &&& !before.frozen ==> woken && after.pending == after.latest
            &&& before.frozen ==> !woken && after.pending == before.pending
            &&& after.outcome == before.outcome
            &&& after.stopping == before.stopping
            &&& after.frozen == before.frozen
        },
{
}

/// A frame is handed out once: after one was taken nothing waits until another is submitted. A stopped feed
/// hands out nothing.
pub proof fn law_frames_are_handed_out_once(
    before: CameraFeed,
    first: Next,
    between: CameraFeed,
    second: Next,
    after: CameraFeed,
)
    requires
        is_next(before, first, between),
        is_next(between, second, after),
    ensures
        before.stopping <==> first is Stop,
        first is Decode <==> !before.stopping && before.pending is Some,
        first is Decode ==> before.pending == Some(first->Decode_0) && second is Wait,
        between.latest == before.latest,
        between.outcome == before.outcome,
        after == between,
{
}

/// A scanner is asked only where the cleaner failed, and what it read is passed on as it is: the text first,
/// then the name of the format.
pub proof fn law_fallbacks_are_what_a_scanner_read(
    frame: Frame,
    result: Result<Cleaned, CleanError>,
    fallback: Option<(String, String)>,
)
    requires
        is_fallback(frame, result, fallback),
    ensures
        result is Ok ==> fallback is None,
        fallback matches Some((text, format)) ==> exists|scan: Scan|
            scan.payload == text && scan.format == format && may_be_read(
                frame.luma@,
                frame.width as u32,
                frame.height as u32,
                #[trigger] reading_of(Some(scan)),
            ),
        result is Err && fallback is None ==> may_be_read(
            frame.luma@,
            frame.width as u32,
            frame.height as u32,
            None,
        ),
{
    if result is Err {
        let scanned = choose|scanned: Option<Scan>|
            may_be_read(
                frame.luma@,
                frame.width as u32,
                frame.height as u32,
                #[trigger] reading_of(scanned),
            ) && fallback == text_and_format(scanned);
        if let Some(scan) = scanned {
            assert(reading_of(Some(scan)) == reading_of(scanned));
        }
    }
}

} // verus!
