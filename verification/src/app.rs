//! What the application is doing: the frame in view, what the last decode concluded, and the frozen
//! result of a successful scan.
//!
//! Drawing, timing and the platform are outside; they hand frames and touches in, and take out what
//! is to be shown, streamed or saved.
use vstd::prelude::*;
use vstd::string::*;
use crate::camera::lens::is_sorted_from;
use crate::camera::{LensPicker, LensSpec, PickerParams};
use crate::clean::qr::{clean_luma, is_cleaned_luma, is_reconstruction, CleanError, Cleaned};
use crate::codec::formats::{reading_of, Scan};
use crate::scan::{may_be_read, read_image};
use crate::codec::picture::png_of_gray;
use crate::corpus::picture::Colour;
use crate::feed::{compact_rows, holds_rows, unpadded, Frame};
use crate::render::exact::{is_drawable, side, RebuildError, Reconstructed};
use crate::render::export::{
    compare, exported_luma, to_png, verdict_of, ModuleVerdict,
};
use crate::text::{decimal, write_decimal};
use crate::ui::{is_on, lands_on, LensButtons, ResultButtons};
use crate::Symbology;

verus! {

/// Pixels per module of a saved symbol.
pub const SAVE_SCALE: usize = 12;

/// The most modules that a rebuilt QR symbol has along a side.
pub const MOST_MODULES: usize = 177;

/// What the last decode attempt concluded.
#[derive(Clone, Debug, PartialEq, Eq, Default)]
pub enum DecodeState {
    #[default]
    NoFrames,
    /// No symbol located: a framing, focus or resolution problem, not a damage problem.
    Searching,
    /// Read without needing any help: a stock decoder would have managed this too.
    Decoded(String),
    /// Recovered from damage that defeats stock decoding. `rescued` of `total` blocks came back only
    /// because of the bootstrap loop.
    Recovered { payload: String, rescued: usize, total: usize },
    /// Located and read, but too damaged to recover.
    TooDamaged { decoded: usize, total: usize },
    /// Read by the stock decoder in a format that is not cleaned here.
    Uncleaned { payload: String, format: String },
}

impl DecodeState {
    /// What was read, if anything was.
    pub open spec fn spec_payload(self) -> Option<Seq<char>> {
        match self {
            DecodeState::Decoded(p) => Some(p@),
            DecodeState::Recovered { payload, .. } => Some(payload@),
            DecodeState::Uncleaned { payload, .. } => Some(payload@),
            _ => None,
        }
    }

    pub fn payload(&self) -> (r: Option<&str>)
        ensures
            match r {
                Some(p) => self.spec_payload() == Some(p@),
                None => self.spec_payload() is None,
            },
    {
        match self {
            DecodeState::Decoded(p) => Some(p.as_str()),
            DecodeState::Recovered { payload, .. } => Some(payload.as_str()),
            DecodeState::Uncleaned { payload, .. } => Some(payload.as_str()),
            _ => None,
        }
    }
}

/// The frozen result of a successful scan.
///
/// Held rather than recomputed: the next camera frame would overwrite what it was recovered from.
#[derive(Debug)]
pub struct ResultView {
    pub payload: String,
    /// Source was light-on-dark; the export preserves that.
    pub inverted: bool,
    pub rebuilt: Reconstructed,
    pub verdicts: Vec<ModuleVerdict>,
    pub dimension: usize,
    pub recovered: usize,
    pub blocks_rescued: usize,
    pub blocks_total: usize,
}

impl ResultView {
    /// Whether the rebuild can be saved.
    pub open spec fn wf(self) -> bool {
        &&& self.rebuilt.wf()
        &&& self.rebuilt.dimension <= MOST_MODULES
        &&& self.rebuilt.height <= MOST_MODULES
    }

    pub open spec fn spec_headline(self) -> Seq<char> {
        if self.blocks_rescued > 0 {
            "Recovered — "@ + decimal(self.blocks_rescued as nat) + " of "@ + decimal(
                self.blocks_total as nat,
            ) + " blocks rescued, "@ + decimal(self.recovered as nat) + " modules repaired"@
        } else if self.recovered > 0 {
            "Cleaned — "@ + decimal(self.recovered as nat) + " modules repaired"@
        } else {
            "Clean — nothing needed repairing"@
        }
    }

    pub fn headline(&self) -> (r: String)
        ensures
            r@ == self.spec_headline(),
    {
        if self.blocks_rescued > 0 {
            let mut out = String::from_str("Recovered — ");
            write_decimal(&mut out, self.blocks_rescued as u64);
            out.append(" of ");
            write_decimal(&mut out, self.blocks_total as u64);
            out.append(" blocks rescued, ");
            write_decimal(&mut out, self.recovered as u64);
            out.append(" modules repaired");
            out
        } else if self.recovered > 0 {
            let mut out = String::from_str("Cleaned — ");
            write_decimal(&mut out, self.recovered as u64);
            out.append(" modules repaired");
            out
        } else {
            String::from_str("Clean — nothing needed repairing")
        }
    }
}

/// Which screen the app is on.
#[derive(Debug)]
pub enum Screen {
    Scanning,
    /// Frozen on a successful scan. The camera keeps streaming, but frames no longer touch the decode
    /// state.
    Result(Box<ResultView>),
}

/// The recovered modules among verdicts.
pub open spec fn recovered_modules(verdicts: Seq<ModuleVerdict>) -> Set<int> {
    Set::new(
        |i: int|
            0 <= i < verdicts.len() && (verdicts[i] == ModuleVerdict::RecoveredLight || verdicts[i]
                == ModuleVerdict::RecoveredDark),
    )
}

fn count_recovered(verdicts: &[ModuleVerdict]) -> (r: usize)
    ensures
        r == recovered_modules(verdicts@).len(),
{
    let mut flags: Vec<bool> = Vec::with_capacity(verdicts.len());
    for i in 0..verdicts.len()
        invariant
            flags@.len() == i,
            forall|k: int|
                0 <= k < i ==> #[trigger] flags@[k] == (verdicts@[k]
                    == ModuleVerdict::RecoveredLight || verdicts@[k]
                    == ModuleVerdict::RecoveredDark),
    {
        flags.push(verdicts[i].recovered());
    }
    assert(crate::order::set_positions(flags@) =~= recovered_modules(verdicts@));
    crate::order::positions_set(flags.as_slice()).len()
}

/// Whether `view` shows a rebuild of a cleaned symbol.
pub open spec fn is_view(cleaned: Cleaned, rebuilt: Reconstructed, view: ResultView) -> bool {
    &&& view.payload@ == cleaned.payload@
    &&& view.inverted == cleaned.source_inverted
    &&& view.rebuilt == rebuilt
    &&& view.verdicts@ == Seq::new(
        rebuilt@.len(),
        |i: int| verdict_of(rebuilt@[i], cleaned.sampled@[i]),
    )
    &&& view.dimension == rebuilt.dimension
    &&& view.recovered == recovered_modules(view.verdicts@).len()
    &&& view.blocks_rescued == if cleaned.blocks_total >= cleaned.blocks_decoded_initially {
        cleaned.blocks_total - cleaned.blocks_decoded_initially
    } else {
        0
    }
    &&& view.blocks_total == cleaned.blocks_total
}

/// Whether freezing a cleaned symbol gives `view`: nothing where it cannot be rebuilt or compared.
pub open spec fn is_frozen_view(
    cleaned: Cleaned,
    built: Result<Reconstructed, RebuildError>,
    view: Option<Box<ResultView>>,
) -> bool {
    match built {
        Ok(rebuilt) => if cleaned.sampled@.len() == rebuilt@.len() {
            view is Some && is_view(cleaned, rebuilt, *view->0)
        } else {
            view is None
        },
        Err(_) => view is None,
    }
}

/// Makes the result screen of a cleaned symbol.
pub fn freeze(cleaned: &Cleaned) -> (r: Option<Box<ResultView>>)
    ensures
        exists|built: Result<Reconstructed, RebuildError>| #[trigger]
            is_reconstruction(*cleaned, built) && is_frozen_view(*cleaned, built, r),
        r is Some ==> r->0.wf(),
        cleaned.is_rebuildable() && cleaned.is_aligned() ==> r is Some,
{
    let built = cleaned.reconstruct();
    let ghost ended = built;
    assert(is_reconstruction(*cleaned, ended));
    let rebuilt = match built {
        Ok(rebuilt) => rebuilt,
        Err(_) => {
            assert(is_frozen_view(*cleaned, ended, None));
            return None;
        },
    };
    proof {
        let level = choose|level: crate::codec::qr::EcLevel|
            cleaned.ec_level@ == #[trigger] level.spec_letter();
        assert(crate::render::exact::is_rebuilt(
            cleaned.codewords@,
            cleaned.version,
            level,
            cleaned.mask,
            ended,
        ));
    }
    let verdicts = match compare(&rebuilt, cleaned.sampled.as_slice()) {
        Some(verdicts) => verdicts,
        None => {
            assert(is_frozen_view(*cleaned, ended, None));
            return None;
        },
    };
    let recovered: usize = count_recovered(verdicts.as_slice());
    let dimension: usize = rebuilt.dimension;
    let r = Some(
        Box::new(
            ResultView {
                payload: cleaned.payload.clone(),
                inverted: cleaned.source_inverted,
                rebuilt,
                verdicts,
                dimension,
                recovered,
                blocks_rescued: cleaned.blocks_rescued(),
                blocks_total: cleaned.blocks_total,
            },
        ),
    );
    assert(is_frozen_view(*cleaned, ended, r));
    r
}

/// The application's state.
#[derive(Debug)]
pub struct BarcleanApp {
    pub frame: Frame,
    pub state: DecodeState,
    /// Frames received since launch: if this is not climbing, the problem is the camera.
    pub frames: u64,
    /// Something has changed that has not been drawn yet.
    pub pending_frame: bool,
    /// Wall time of the last decode attempt, in milliseconds.
    pub last_decode_ms: u32,
    /// Symbol width in modules and the finder centres of the last detection.
    pub last_symbol: Option<(usize, Vec<(u32, u32)>)>,
    pub picker: LensPicker,
    /// Physical camera currently streaming.
    pub current_lens: String,
    /// Set when the user taps a lens, and polled.
    pub lens_request: Option<String>,
    pub screen: Screen,
    /// PNG bytes awaiting a write by the platform, and polled.
    pub save_request: Option<Vec<u8>>,
}

impl Default for BarcleanApp {
    fn default() -> (r: Self)
        ensures
            r.is_new(),
    {
        let frame = Frame { luma: Vec::new(), width: 0, height: 0, rotation: 0 };
        assert(frame.luma@.len() == 0);
        assert(frame.width * frame.height == 0) by (nonlinear_arith)
            requires
                frame.width == 0,
        ;
        BarcleanApp {
            frame,
            state: DecodeState::NoFrames,
            frames: 0,
            pending_frame: false,
            last_decode_ms: 0,
            last_symbol: None,
            picker: LensPicker::new(Vec::new(), PickerParams::default()),
            current_lens: String::new(),
            lens_request: None,
            screen: Screen::Scanning,
            save_request: None,
        }
    }
}

/// What a decode of a frame concludes about it.
pub open spec fn is_conclusion(
    result: Result<Cleaned, CleanError>,
    fallback: Option<Scan>,
    state: DecodeState,
) -> bool {
    match result {
        Ok(c) => if c.blocks_total > c.blocks_decoded_initially {
            state matches DecodeState::Recovered { payload, rescued, total } && payload@
                == c.payload@ && rescued == c.blocks_total - c.blocks_decoded_initially && total
                == c.blocks_total
        } else {
            state matches DecodeState::Decoded(p) && p@ == c.payload@
        },
        Err(CleanError::Unrecoverable { blocks_total, blocks_decoded }) => state
            == DecodeState::TooDamaged { decoded: blocks_decoded, total: blocks_total },
        Err(_) => match fallback {
            Some(s) => state == DecodeState::Uncleaned { payload: s.payload, format: s.format },
            None => state == DecodeState::Searching,
        },
    }
}

/// Whether `after` is the app once a decode came back: a success is frozen into the result screen
/// where it can be rebuilt and compared.
pub open spec fn is_concluded(
    before: BarcleanApp,
    result: Result<Cleaned, CleanError>,
    fallback: Option<Scan>,
    after: BarcleanApp,
) -> bool {
    &&& is_conclusion(result, fallback, after.state)
    &&& match result {
        Ok(c) => {
            &&& after.last_symbol == Some((c.dimension, c.points))
            &&& exists|built: Result<Reconstructed, RebuildError>, view: Option<Box<ResultView>>|
                #![trigger is_frozen_view(c, built, view)]
                is_reconstruction(c, built) && is_frozen_view(c, built, view) && match view {
                    Some(v) => after.screen == Screen::Result(v) && after.pending_frame,
                    None => after.screen == before.screen && after.pending_frame
                        == before.pending_frame,
                }
            &&& c.is_rebuildable() && c.is_aligned() ==> after.screen is Result
        },
        Err(_) => after.last_symbol == before.last_symbol && after.screen == before.screen
            && after.pending_frame == before.pending_frame,
    }
    &&& after.frame == before.frame
    &&& after.frames == before.frames
    &&& after.last_decode_ms == before.last_decode_ms
    &&& after.picker == before.picker
    &&& after.current_lens == before.current_lens
    &&& after.lens_request == before.lens_request
    &&& after.save_request == before.save_request
}

/// Whether `fallback` is a scanner's: a frame in which the cleaner found nothing that it could read is
/// scanned, and no other.
pub open spec fn is_asked(
    frame: Frame,
    result: Result<Cleaned, CleanError>,
    fallback: Option<Scan>,
) -> bool {
    match result {
        Err(CleanError::NotDetected) | Err(CleanError::Unreadable) => may_be_read(
            frame.luma@,
            frame.width as u32,
            frame.height as u32,
            reading_of(fallback),
        ),
        _ => fallback is None,
    }
}

/// Whether decoding the frame in view can lead to `after`.
pub open spec fn is_decoded(before: BarcleanApp, after: BarcleanApp) -> bool {
    if before.screen is Result {
        after == before
    } else if before.frame.is_blank() {
        after == (BarcleanApp { state: DecodeState::NoFrames, ..before })
    } else {
        exists|result: Result<Cleaned, CleanError>, fallback: Option<Scan>|
            is_cleaned_luma(
                before.frame.luma@,
                before.frame.width as u32,
                before.frame.height as u32,
                result,
            ) && is_asked(before.frame, result, fallback) && #[trigger] is_concluded(
                before,
                result,
                fallback,
                after,
            )
    }
}

/// Whether `after` is the app with a frame that was accepted and not decoded yet.
pub open spec fn is_accepted(
    before: BarcleanApp,
    luma: Seq<u8>,
    width: usize,
    height: usize,
    row_stride: usize,
    rotation: u32,
    after: BarcleanApp,
) -> bool {
    &&& after.frame.wf()
    &&& after.frame.luma@ == unpadded(luma, width, height, row_stride)
    &&& after.frame.width == width
    &&& after.frame.height == height
    &&& after.frame.rotation == rotation % 360
    &&& after == (BarcleanApp {
        frame: after.frame,
        frames: (before.frames + 1) as u64,
        pending_frame: true,
        ..before
    })
}

/// The lenses with their ids made unique: a later one replaces an earlier one of the same id, where
/// the earlier one stood.
pub open spec fn unique_lenses(lenses: Seq<LensSpec>) -> Seq<LensSpec>
    decreases lenses.len(),
{
    if lenses.len() == 0 {
        Seq::empty()
    } else {
        with_lens(unique_lenses(lenses.drop_last()), lenses.last())
    }
}

/// Whether the first lens of an id stands in a place.
pub open spec fn is_place(lenses: Seq<LensSpec>, id: Seq<char>, k: int) -> bool {
    &&& 0 <= k < lenses.len()
    &&& lenses[k].id@ == id
    &&& forall|j: int| 0 <= j < k ==> (#[trigger] lenses[j]).id@ != id
}

/// Lenses with one more, in the place of the first that has its id, or at the end.
pub open spec fn with_lens(lenses: Seq<LensSpec>, lens: LensSpec) -> Seq<LensSpec> {
    if exists|k: int| is_place(lenses, lens.id@, k) {
        lenses.update(choose|k: int| is_place(lenses, lens.id@, k), lens)
    } else {
        lenses.push(lens)
    }
}

fn add_lens(lenses: &mut Vec<LensSpec>, lens: LensSpec)
    ensures
        final(lenses)@ == with_lens(old(lenses)@, lens),
{
    let ghost before = lenses@;
    let n: usize = lenses.len();
    let mut k: usize = 0;
    while k < n && lenses[k].id != lens.id
        invariant
            lenses@ == before,
            n == before.len(),
            k <= n,
            forall|j: int| 0 <= j < k ==> (#[trigger] before[j]).id@ != lens.id@,
        decreases n - k,
    {
        k = k + 1;
    }
    if k < n {
        proof {
            assert(is_place(before, lens.id@, k as int));
            let c = choose|c: int| is_place(before, lens.id@, c);
            assert(c == k) by {
                if c < k {
                    assert(before[c].id@ != lens.id@);
                } else if k < c {
                    assert(before[k as int].id@ != lens.id@);
                }
            }
        }
        lenses.set(k, lens);
    } else {
        proof {
            assert forall|c: int| !is_place(before, lens.id@, c) by {
                if is_place(before, lens.id@, c) {
                    assert(before[c].id@ != lens.id@);
                }
            }
        }
        lenses.push(lens);
    }
}

/// What a touch did.
#[derive(Clone, Debug, PartialEq, Eq)]
pub enum Touch {
    /// It hit nothing, and someone else may have it.
    Passed,
    /// It was dealt with.
    Handled,
    /// It was dealt with, but the symbol could not be encoded for saving; says why.
    SaveFailed(String),
}

/// Whether `after` is the app back at the camera, with the frozen result discarded.
pub open spec fn is_resumed(before: BarcleanApp, after: BarcleanApp) -> bool {
    after == (BarcleanApp {
        screen: Screen::Scanning,
        state: DecodeState::Searching,
        pending_frame: true,
        ..before
    })
}

/// The PNG file of a result.
pub open spec fn saved_file(view: ResultView) -> Result<Seq<u8>, Seq<char>> {
    png_of_gray(
        exported_luma(view.rebuilt, Symbology::QrCode, SAVE_SCALE as int, view.inverted),
        side(view.rebuilt.dimension as int, SAVE_SCALE as int, 4) as u32,
        side(view.rebuilt.height as int, SAVE_SCALE as int, 4) as u32,
    )
}

/// What a touch on the result screen leads to.
pub open spec fn is_touched_result(
    before: BarcleanApp,
    view: ResultView,
    buttons: ResultButtons,
    x: u32,
    y: u32,
    touch: Touch,
    after: BarcleanApp,
) -> bool {
    if is_on(buttons.save, x, y) {
        match saved_file(view) {
            Ok(file) => touch == Touch::Handled && after.save_request is Some
                && after.save_request->0@ == file && is_resumed(
                BarcleanApp { save_request: after.save_request, ..before },
                after,
            ),
            Err(why) => touch matches Touch::SaveFailed(said) && said@ == why && is_resumed(
                before,
                after,
            ),
        }
    } else if is_on(buttons.cancel, x, y) {
        touch == Touch::Handled && is_resumed(before, after)
    } else {
        touch == Touch::Handled && after == before
    }
}

/// What a touch while scanning leads to: a tap on another lens requests it.
pub open spec fn is_touched_picker(
    before: BarcleanApp,
    buttons: LensButtons,
    x: u32,
    y: u32,
    touch: Touch,
    after: BarcleanApp,
) -> bool {
    if forall|j: int|
        0 <= j < buttons.hits@.len() ==> !(#[trigger] buttons.hits@[j]).1.spec_contains(x, y) {
        touch == Touch::Passed && after == before
    } else {
        exists|k: int| #[trigger]
            buttons.is_hit(k, x, y) && touch == Touch::Handled && after == (BarcleanApp {
                lens_request: after.lens_request,
                pending_frame: true,
                ..before
            }) && if buttons.hits@[k].0@ == before.current_lens@ {
                after.lens_request == before.lens_request
            } else {
                after.lens_request is Some && after.lens_request->0@ == buttons.hits@[k].0@
            }
    }
}

/// The accent colour, the headline and the detail of a state.
pub open spec fn status_of(
    state: DecodeState,
    frame: Frame,
    last_decode_ms: u32,
) -> (Colour, Seq<char>, Option<Seq<char>>) {
    match state {
        DecodeState::NoFrames => ((180, 40, 40), "waiting for camera"@, None),
        DecodeState::Searching => (
            (200, 150, 30),
            "searching…"@,
            Some(
                decimal(frame.width as nat) + "x"@ + decimal(frame.height as nat) + "  "@ + decimal(
                    last_decode_ms as nat,
                ) + " ms/frame"@,
            ),
        ),
        DecodeState::Decoded(p) => ((40, 170, 80), "decoded"@, Some(p@)),
        DecodeState::Recovered { payload, rescued, total } => (
            (80, 140, 230),
            "RECOVERED — "@ + decimal(rescued as nat) + " of "@ + decimal(total as nat)
                + " blocks rescued"@,
            Some(payload@),
        ),
        DecodeState::TooDamaged { decoded, total } => (
            (190, 90, 30),
            "too damaged — "@ + decimal(decoded as nat) + "/"@ + decimal(total as nat)
                + " blocks"@,
            None,
        ),
        DecodeState::Uncleaned { payload, format } => (
            (150, 90, 200),
            format@ + " (cleaning not wired)"@,
            Some(payload@),
        ),
    }
}

/// A state in one line.
pub open spec fn line_of(state: DecodeState, frame: Frame) -> Seq<char> {
    match state {
        DecodeState::NoFrames => "no frames"@,
        DecodeState::Searching => "searching  "@ + decimal(frame.width as nat) + "x"@ + decimal(
            frame.height as nat,
        ) + "  rot"@ + decimal(frame.rotation as nat),
        DecodeState::Decoded(p) => "decoded: "@ + p@,
        DecodeState::Recovered { payload, rescued, total } => "RECOVERED "@ + decimal(
            rescued as nat,
        ) + "/"@ + decimal(total as nat) + " blocks: "@ + payload@,
        DecodeState::TooDamaged { decoded, total } => "too damaged: "@ + decimal(decoded as nat)
            + "/"@ + decimal(total as nat) + " blocks"@,
        DecodeState::Uncleaned { payload, format } => format@ + " (uncleaned): "@ + payload@,
    }
}

impl BarcleanApp {
    /// The frame is whole, and a result can be saved.
    pub open spec fn wf(self) -> bool {
        &&& self.frame.wf()
        &&& self.screen is Result ==> self.screen->Result_0.wf()
    }

    /// How an app starts: no frame, nothing decoded, no lens and none that failed to focus, the default
    /// thresholds, scanning.
    pub open spec fn is_new(self) -> bool {
        &&& self.wf()
        &&& self.frame.width == 0
        &&& self.frame.height == 0
        &&& self.frame.rotation == 0
        &&& self.state == DecodeState::NoFrames
        &&& self.frames == 0
        &&& !self.pending_frame
        &&& self.last_decode_ms == 0
        &&& self.last_symbol is None
        &&& self.picker.lenses@.len() == 0
        &&& self.picker.focus_failed@.len() == 0
        &&& self.picker.params.is_default()
        &&& self.current_lens@.len() == 0
        &&& self.lens_request is None
        &&& self.screen == Screen::Scanning
        &&& self.save_request is None
    }

    pub fn new() -> (r: Self)
        ensures
            r.is_new(),
    {
        BarcleanApp::default()
    }

    pub fn state(&self) -> (r: &DecodeState)
        ensures
            *r == self.state,
    {
        &self.state
    }

    pub fn frames(&self) -> (r: u64)
        ensures
            r == self.frames,
    {
        self.frames
    }

    /// One-line diagnostic.
    pub fn status_line(&self) -> (r: String)
        ensures
            r@ == line_of(self.state, self.frame),
    {
        match &self.state {
            DecodeState::NoFrames => String::from_str("no frames"),
            DecodeState::Searching => {
                let mut out = String::from_str("searching  ");
                write_decimal(&mut out, self.frame.width as u64);
                out.append("x");
                write_decimal(&mut out, self.frame.height as u64);
                out.append("  rot");
                write_decimal(&mut out, self.frame.rotation as u64);
                out
            },
            DecodeState::Decoded(p) => {
                let mut out = String::from_str("decoded: ");
                out.append(p.as_str());
                out
            },
            DecodeState::Recovered { payload, rescued, total } => {
                let mut out = String::from_str("RECOVERED ");
                write_decimal(&mut out, *rescued as u64);
                out.append("/");
                write_decimal(&mut out, *total as u64);
                out.append(" blocks: ");
                out.append(payload.as_str());
                out
            },
            DecodeState::TooDamaged { decoded, total } => {
                let mut out = String::from_str("too damaged: ");
                write_decimal(&mut out, *decoded as u64);
                out.append("/");
                write_decimal(&mut out, *total as u64);
                out.append(" blocks");
                out
            },
            DecodeState::Uncleaned { payload, format } => {
                let mut out = format.clone();
                out.append(" (uncleaned): ");
                out.append(payload.as_str());
                out
            },
        }
    }

    /// Accent colour, headline and payload for the status readout.
    pub fn status_parts(&self) -> (r: (Colour, String, Option<String>))
        ensures
            ({
                let want = status_of(self.state, self.frame, self.last_decode_ms);
                &&& r.0 == want.0
                &&& r.1@ == want.1
                &&& r.2 is Some <==> want.2 is Some
                &&& r.2 is Some ==> Some(r.2->0@) == want.2
            }),
    {
        match &self.state {
            DecodeState::NoFrames => (
                (180, 40, 40),
                String::from_str("waiting for camera"),
                None,
            ),
            DecodeState::Searching => {
                let mut out = String::new();
                write_decimal(&mut out, self.frame.width as u64);
                out.append("x");
                write_decimal(&mut out, self.frame.height as u64);
                out.append("  ");
                write_decimal(&mut out, self.last_decode_ms as u64);
                out.append(" ms/frame");
                assert(out@ =~= decimal(self.frame.width as nat) + "x"@ + decimal(
                    self.frame.height as nat,
                ) + "  "@ + decimal(self.last_decode_ms as nat) + " ms/frame"@);
                ((200, 150, 30), String::from_str("searching…"), Some(out))
            },
            DecodeState::Decoded(p) => (
                (40, 170, 80),
                String::from_str("decoded"),
                Some(p.clone()),
            ),
            DecodeState::Recovered { payload, rescued, total } => {
                let mut out = String::from_str("RECOVERED — ");
                write_decimal(&mut out, *rescued as u64);
                out.append(" of ");
                write_decimal(&mut out, *total as u64);
                out.append(" blocks rescued");
                ((80, 140, 230), out, Some(payload.clone()))
            },
            DecodeState::TooDamaged { decoded, total } => {
                let mut out = String::from_str("too damaged — ");
                write_decimal(&mut out, *decoded as u64);
                out.append("/");
                write_decimal(&mut out, *total as u64);
                out.append(" blocks");
                ((190, 90, 30), out, None)
            },
            DecodeState::Uncleaned { payload, format } => {
                let mut out = format.clone();
                out.append(" (cleaning not wired)");
                ((150, 90, 200), out, Some(payload.clone()))
            },
        }
    }

    /// Milliseconds the last decode attempt took.
    pub fn last_decode_ms(&self) -> (r: u32)
        ensures
            r == self.last_decode_ms,
    {
        self.last_decode_ms
    }

    pub fn lenses(&self) -> (r: &[LensSpec])
        ensures
            r@ == self.picker.lenses@,
    {
        self.picker.lenses()
    }

    pub fn current_lens(&self) -> (r: &str)
        ensures
            r@ == self.current_lens@,
    {
        self.current_lens.as_str()
    }

    /// Installs the physical lenses that were enumerated.
    ///
    /// Idempotent by lens id: enumeration happens whenever the camera is opened, and a naive append
    /// would give every lens a duplicate button.
    pub fn set_lenses(&mut self, lenses: Vec<LensSpec>, current: &str)
        requires
            old(self).wf(),
        ensures
            final(self).wf(),
            is_sorted_from(unique_lenses(lenses@), final(self).picker.lenses@),
            final(self).picker.params.is_default(),
            final(self).picker.focus_failed@.len() == 0,
            final(self).current_lens@ == current@,
            *final(self) == (BarcleanApp {
                picker: final(self).picker,
                current_lens: final(self).current_lens,
                pending_frame: true,
                ..*old(self)
            }),
    {
        let ghost all = lenses@;
        let mut rest = lenses;
        let mut reversed: Vec<LensSpec> = Vec::with_capacity(rest.len());
        while rest.len() > 0
            invariant
                reversed@.len() + rest@.len() == all.len(),
                rest@ == all.subrange(0, rest@.len() as int),
                forall|k: int|
                    0 <= k < reversed@.len() ==> #[trigger] reversed@[k] == all[all.len() - 1 - k],
            decreases rest@.len(),
        {
            let ghost n = rest@.len();
            if let Some(lens) = rest.pop() {
                assert(lens == all[n - 1]);
                reversed.push(lens);
                assert(rest@ =~= all.subrange(0, rest@.len() as int));
            }
        }
        let mut unique: Vec<LensSpec> = Vec::with_capacity(reversed.len());
        assert(all.subrange(0, 0) =~= Seq::<LensSpec>::empty());
        assert(unique@ =~= unique_lenses(all.subrange(0, 0)));
        let ghost mut done: int = 0;
        while reversed.len() > 0
            invariant
                0 <= done <= all.len(),
                reversed@.len() == all.len() - done,
                forall|k: int|
                    0 <= k < reversed@.len() ==> #[trigger] reversed@[k] == all[all.len() - 1 - k],
                unique@ == unique_lenses(all.subrange(0, done)),
            decreases reversed@.len(),
        {
            if let Some(lens) = reversed.pop() {
                proof {
                    assert(lens == all[done]);
                    let upto = all.subrange(0, done + 1);
                    assert(upto.drop_last() =~= all.subrange(0, done));
                    assert(upto.last() == lens);
                }
                add_lens(&mut unique, lens);
                proof {
                    done = done + 1;
                }
            }
        }
        assert(all.subrange(0, done) =~= all);
        self.picker = LensPicker::new(unique, PickerParams::default());
        self.current_lens = String::from_str(current);
        self.pending_frame = true;
    }

    /// Records which physical camera is now streaming.
    pub fn set_current_lens(&mut self, id: &str)
        requires
            old(self).wf(),
        ensures
            final(self).wf(),
            final(self).current_lens@ == id@,
            final(self).picker.lenses == old(self).picker.lenses,
            final(self).picker.params == old(self).picker.params,
            final(self).picker.focus_failed@.len() == 0,
            *final(self) == (BarcleanApp {
                picker: final(self).picker,
                current_lens: final(self).current_lens,
                pending_frame: true,
                ..*old(self)
            }),
    {
        self.current_lens = String::from_str(id);
        self.picker.clear_focus_failures();
        self.pending_frame = true;
    }

    /// Takes a pending lens switch, if the user tapped one.
    pub fn take_lens_request(&mut self) -> (r: Option<String>)
        requires
            old(self).wf(),
        ensures
            final(self).wf(),
            r == old(self).lens_request,
            *final(self) == (BarcleanApp { lens_request: None, ..*old(self) }),
    {
        self.lens_request.take()
    }

    /// Takes PNG bytes the user asked to save.
    pub fn take_save_request(&mut self) -> (r: Option<Vec<u8>>)
        requires
            old(self).wf(),
        ensures
            final(self).wf(),
            r == old(self).save_request,
            *final(self) == (BarcleanApp { save_request: None, ..*old(self) }),
    {
        self.save_request.take()
    }

    /// Whether a frozen result is shown.
    pub fn is_frozen(&self) -> (r: bool)
        ensures
            r <==> self.screen is Result,
    {
        matches!(self.screen, Screen::Result(_))
    }

    /// Accepts one camera frame's luminance plane and decodes it.
    ///
    /// `row_stride` is not necessarily `width`: the rows are compacted, so that everything downstream
    /// can assume a tight buffer. An image without pixels or a short buffer is ignored. Returns
    /// whether the frame was taken.
    pub fn on_camera_frame(
        &mut self,
        luma: &[u8],
        width: usize,
        height: usize,
        row_stride: usize,
        rotation: u32,
    ) -> (taken: bool)
        requires
            old(self).wf(),
            old(self).frames < u64::MAX,
        ensures
            final(self).wf(),
            taken <==> holds_rows(luma@.len(), width, height, row_stride),
            !taken ==> *final(self) == *old(self),
            taken ==> exists|shown: BarcleanApp| #[trigger]
                is_accepted(*old(self), luma@, width, height, row_stride, rotation, shown)
                    && is_decoded(shown, *final(self)),
    {
        let ghost before = *self;
        let tight = match compact_rows(luma, width, height, row_stride) {
            Some(tight) => tight,
            None => {
                return false;
            },
        };
        self.frame = Frame { luma: tight, width, height, rotation: rotation % 360 };
        self.frames = self.frames + 1;
        self.pending_frame = true;
        let ghost shown = *self;
        assert(is_accepted(before, luma@, width, height, row_stride, rotation, shown));
        self.decode();
        assert(is_decoded(shown, *self));
        true
    }

    /// Notes how long a decode took.
    pub fn note_decode_time(&mut self, ms: u32)
        requires
            old(self).wf(),
        ensures
            final(self).wf(),
            *final(self) == (BarcleanApp { last_decode_ms: ms, ..*old(self) }),
    {
        self.last_decode_ms = ms;
    }

    /// Runs the full cleaning path on the current frame, unless a result is being looked at.
    ///
    /// It runs on the unrotated sensor buffer: the detector finds symbols at any orientation.
    pub fn decode(&mut self)
        requires
            old(self).wf(),
        ensures
            final(self).wf(),
            is_decoded(*old(self), *final(self)),
    {
        if self.is_frozen() {
            return;
        }
        if self.frame.is_empty() {
            self.state = DecodeState::NoFrames;
            return;
        }
        let ghost before = *self;
        let width: u32 = self.frame.width as u32;
        let height: u32 = self.frame.height as u32;
        let result = clean_luma(self.frame.luma.as_slice(), width, height);
        let ghost ended = result;
        let fallback = match &result {
            Err(CleanError::NotDetected) | Err(CleanError::Unreadable) => read_image(
                self.frame.luma.as_slice(),
                width,
                height,
            ),
            _ => None,
        };
        let ghost read = fallback;
        assert(is_asked(before.frame, ended, read));
        self.conclude(result, fallback);
        assert(is_concluded(before, ended, read, *self));
    }

    /// Takes in what a decode came back with: what the cleaner gave, and what a stock scanner read
    /// where the cleaner found nothing.
    ///
    /// Any success is frozen, not only a rescued one: a branded code that reads fine still carries a
    /// logo the user wants gone.
    pub fn conclude(&mut self, result: Result<Cleaned, CleanError>, fallback: Option<Scan>)
        requires
            old(self).wf(),
        ensures
            final(self).wf(),
            is_concluded(*old(self), result, fallback, *final(self)),
    {
        let ghost before = *self;
        match result {
            Ok(c) => {
                let rescued: usize = c.blocks_rescued();
                let total: usize = c.blocks_total;
                let payload = c.payload.clone();
                let view = freeze(&c);
                let ghost seen = view;
                let ghost built = choose|built: Result<Reconstructed, RebuildError>| #[trigger]
                    is_reconstruction(c, built) && is_frozen_view(c, built, seen);
                assert(is_frozen_view(c, built, seen));
                if let Some(view) = view {
                    self.screen = Screen::Result(view);
                    self.pending_frame = true;
                }
                self.state = if rescued > 0 {
                    DecodeState::Recovered { payload, rescued, total }
                } else {
                    DecodeState::Decoded(payload)
                };
                self.last_symbol = Some((c.dimension, c.points));
            },
            Err(CleanError::Unrecoverable { blocks_total, blocks_decoded }) => {
                self.state = DecodeState::TooDamaged { decoded: blocks_decoded, total: blocks_total };
            },
            Err(_) => {
                self.state = match fallback {
                    Some(s) => DecodeState::Uncleaned { payload: s.payload, format: s.format },
                    None => DecodeState::Searching,
                };
            },
        }
    }

    /// Returns to the camera, discarding the frozen result.
    pub fn resume_scanning(&mut self)
        requires
            old(self).wf(),
        ensures
            final(self).wf(),
            is_resumed(*old(self), *final(self)),
    {
        self.screen = Screen::Scanning;
        self.state = DecodeState::Searching;
        self.pending_frame = true;
    }

    /// The back key: leaves a frozen result, and is nobody's otherwise.
    pub fn on_escape(&mut self) -> (r: Touch)
        requires
            old(self).wf(),
        ensures
            final(self).wf(),
            old(self).screen is Result ==> r == Touch::Handled && is_resumed(*old(self), *final(
                self)),
            !(old(self).screen is Result) ==> r == Touch::Passed && *final(self) == *old(self),
    {
        if self.is_frozen() {
            self.resume_scanning();
            Touch::Handled
        } else {
            Touch::Passed
        }
    }

    /// A press at `(x, y)`: save or cancel on the result screen, a lens while scanning.
    pub fn on_press(&mut self, x: u32, y: u32, lenses: &LensButtons, results: &ResultButtons) -> (r:
        Touch)
        requires
            old(self).wf(),
        ensures
            final(self).wf(),
            match old(self).screen {
                Screen::Result(view) => is_touched_result(
                    *old(self),
                    *view,
                    *results,
                    x,
                    y,
                    r,
                    *final(self),
                ),
                Screen::Scanning => is_touched_picker(*old(self), *lenses, x, y, r, *final(self)),
            },
    {
        let ghost before = *self;
        if self.is_frozen() {
            if lands_on(&results.save, x, y) {
                let touch = self.save_result();
                self.resume_scanning();
                return touch;
            }
            if lands_on(&results.cancel, x, y) {
                self.resume_scanning();
                return Touch::Handled;
            }
            return Touch::Handled;
        }
        match lenses.hit(x, y) {
            Some(id) => {
                let tapped = String::from_str(id);
                if tapped != self.current_lens {
                    self.lens_request = Some(tapped);
                }
                self.pending_frame = true;
                proof {
                    let k = choose|k: int| #[trigger]
                        lenses.is_hit(k, x, y) && id@ == lenses.hits@[k].0@;
                    assert(lenses.is_hit(k, x, y));
                    assert(lenses.hits@[k].1.spec_contains(x, y));
                }
                Touch::Handled
            },
            None => Touch::Passed,
        }
    }

    /// Encodes the result for saving.
    fn save_result(&mut self) -> (r: Touch)
        requires
            old(self).wf(),
            old(self).screen is Result,
        ensures
            final(self).wf(),
            match saved_file(*old(self).screen->Result_0) {
                Ok(file) => r == Touch::Handled && final(self).save_request is Some && final(
                    self).save_request->0@ == file && *final(self) == (BarcleanApp {
                    save_request: final(self).save_request,
                    ..*old(self)
                }),
                Err(why) => r matches Touch::SaveFailed(said) && said@ == why && *final(self)
                    == *old(self),
            },
    {
        let encoded = match &self.screen {
            Screen::Result(view) => {
                proof {
                    lemma_saveable(view.rebuilt.dimension as int, view.rebuilt.height as int);
                }
                to_png(&view.rebuilt, Symbology::QrCode, SAVE_SCALE, view.inverted)
            },
            Screen::Scanning => Ok(Vec::new()),
        };
        match encoded {
            Ok(png) => {
                self.save_request = Some(png);
                Touch::Handled
            },
            Err(why) => Touch::SaveFailed(why),
        }
    }

    /// Whether there is anything to draw; asking takes it.
    pub fn tick(&mut self) -> (r: bool)
        requires
            old(self).wf(),
        ensures
            final(self).wf(),
            r == old(self).pending_frame,
            *final(self) == (BarcleanApp { pending_frame: false, ..*old(self) }),
    {
        let pending = self.pending_frame;
        self.pending_frame = false;
        pending
    }
}

/// A symbol of at most 177 modules a side can be saved.
proof fn lemma_saveable(w: int, h: int)
    requires
        0 <= w <= MOST_MODULES,
        0 <= h <= MOST_MODULES,
    ensures
        is_drawable(w, h, SAVE_SCALE as int, 4, u32::MAX as int),
{
    let a = side(w, SAVE_SCALE as int, 4);
    let b = side(h, SAVE_SCALE as int, 4);
    assert(a == (w + 8) * 12 && b == (h + 8) * 12);
    assert(a * b <= 2220 * 2220) by (nonlinear_arith)
        requires
            0 <= a <= 2220,
            0 <= b <= 2220,
    ;
}

// ---- laws ----
/// Nothing overwrites the result that is being looked at: a frame that arrives meanwhile is kept for
/// the preview, and neither the screen nor the verdict changes.
pub proof fn law_results_are_not_overwritten(
    before: BarcleanApp,
    luma: Seq<u8>,
    width: usize,
    height: usize,
    row_stride: usize,
    rotation: u32,
    shown: BarcleanApp,
    after: BarcleanApp,
)
    requires
        before.screen is Result,
        is_accepted(before, luma, width, height, row_stride, rotation, shown),
        is_decoded(shown, after),
    ensures
        after.screen == before.screen,
        after.state == before.state,
        after.frame.luma@ == unpadded(luma, width, height, row_stride),
{
}

/// Lens ids are made unique: no two of the lenses have one.
pub proof fn law_lens_ids_are_unique(lenses: Seq<LensSpec>, a: int, b: int)
    requires
        0 <= a < b < unique_lenses(lenses).len(),
    ensures
        unique_lenses(lenses)[a].id@ != unique_lenses(lenses)[b].id@,
    decreases lenses.len(),
{
    let rest = unique_lenses(lenses.drop_last());
    let lens = lenses.last();
    let all = unique_lenses(lenses);
    if exists|k: int| is_place(rest, lens.id@, k) {
        let k = choose|k: int| is_place(rest, lens.id@, k);
        assert(all =~= rest.update(k, lens));
        assert(all[a].id@ == rest[a].id@);
        assert(all[b].id@ == rest[b].id@);
        law_lens_ids_are_unique(lenses.drop_last(), a, b);
    } else {
        assert(all =~= rest.push(lens));
        if b < rest.len() {
            law_lens_ids_are_unique(lenses.drop_last(), a, b);
        } else {
            lemma_absent(rest, lens.id@, a);
        }
    }
}

/// Where no lens is the first of an id, none has it.
proof fn lemma_absent(lenses: Seq<LensSpec>, id: Seq<char>, a: int)
    requires
        forall|k: int| !is_place(lenses, id, k),
        0 <= a < lenses.len(),
    ensures
        lenses[a].id@ != id,
    decreases a,
{
    if lenses[a].id@ == id {
        assert forall|j: int| 0 <= j < a implies (#[trigger] lenses[j]).id@ != id by {
            lemma_absent(lenses, id, j);
        }
        assert(is_place(lenses, id, a));
    }
}

/// Enumerating the same lenses again changes nothing: twice the list has the unique lenses that the list
/// has, and those are their own.
pub proof fn law_reenumeration_is_idempotent(lenses: Seq<LensSpec>)
    ensures
        unique_lenses(lenses + lenses) == unique_lenses(lenses),
        unique_lenses(unique_lenses(lenses)) == unique_lenses(lenses),
{
    let n = lenses.len() as int;
    let once = unique_lenses(lenses);
    let twice = unique_lenses(lenses + lenses);
    lemma_second_pass(lenses, n);
    assert(lenses.subrange(0, n) =~= lenses);
    assert forall|k: int| 0 <= k < once.len() implies twice[k] == once[k] by {
        assert(same_id(once[k], once[k]));
    }
    assert(twice =~= once);
    assert forall|i: int, j: int| 0 <= i < j < once.len() implies (#[trigger] once[i]).id@ != (
    #[trigger] once[j]).id@ by {
        law_lens_ids_are_unique(lenses, i, j);
    }
    lemma_distinct_lenses_stay(once, once.len() as int);
    assert(once.subrange(0, once.len() as int) =~= once);
}

/// Whether two lenses have the same id.
spec fn same_id(a: LensSpec, b: LensSpec) -> bool {
    a.id@ == b.id@
}

/// Whether a list of lenses is another one, but for the lenses that a third replaces by their ids.
spec fn is_overwritten(base: Seq<LensSpec>, by: Seq<LensSpec>, all: Seq<LensSpec>) -> bool {
    &&& all.len() == base.len()
    &&& forall|k: int| 0 <= k < all.len() ==> (#[trigger] all[k]).id@ == base[k].id@
    &&& forall|k: int, m: int|
        0 <= k < all.len() && 0 <= m < by.len() && #[trigger] same_id(by[m], base[k]) ==> all[k]
            == by[m]
    &&& forall|k: int|
        0 <= k < all.len() && (forall|m: int| 0 <= m < by.len() ==> !#[trigger] same_id(by[m], base[k]))
            ==> #[trigger] all[k] == base[k]
}

/// Going through the first `n` lenses a second time overwrites the unique ones with theirs.
proof fn lemma_second_pass(lenses: Seq<LensSpec>, n: int)
    requires
        0 <= n <= lenses.len(),
    ensures
        is_overwritten(
            unique_lenses(lenses),
            unique_lenses(lenses.subrange(0, n)),
            unique_lenses(lenses + lenses.subrange(0, n)),
        ),
    decreases n,
{
    let base = unique_lenses(lenses);
    let by = unique_lenses(lenses.subrange(0, n));
    let all = unique_lenses(lenses + lenses.subrange(0, n));
    if n == 0 {
        assert(lenses + lenses.subrange(0, 0) =~= lenses);
        assert(lenses.subrange(0, 0) =~= Seq::<LensSpec>::empty());
    } else {
        lemma_second_pass(lenses, n - 1);
        let lens = lenses[n - 1];
        let head = lenses.subrange(0, n - 1);
        let was_by = unique_lenses(head);
        let was_all = unique_lenses(lenses + head);
        assert(lenses.subrange(0, n).drop_last() =~= head);
        assert(lenses.subrange(0, n).last() == lens);
        assert((lenses + lenses.subrange(0, n)).drop_last() =~= lenses + head);
        assert((lenses + lenses.subrange(0, n)).last() == lens);
        lemma_every_id_is_kept(lenses, n - 1);
        let p = choose|p: int| 0 <= p < base.len() && same_id(base[p], lens);
        assert(was_all[p].id@ == lens.id@);
        lemma_first_place(was_all, lens.id@, p);
        let q = choose|q: int| is_place(was_all, lens.id@, q);
        assert(all == was_all.update(q, lens));
        assert(q == p) by {
            if q != p {
                assert(base[q].id@ == base[p].id@);
                if q < p {
                    law_lens_ids_are_unique(lenses, q, p);
                } else {
                    law_lens_ids_are_unique(lenses, p, q);
                }
            }
        }
        assert forall|k: int| 0 <= k < base.len() && k != p implies base[k].id@ != lens.id@ by {
            if base[k].id@ == lens.id@ {
                if k < p {
                    law_lens_ids_are_unique(lenses, k, p);
                } else {
                    law_lens_ids_are_unique(lenses, p, k);
                }
            }
        }
        if exists|m: int| is_place(was_by, lens.id@, m) {
            let m = choose|m: int| is_place(was_by, lens.id@, m);
            assert(by == was_by.update(m, lens));
            assert forall|k: int, j: int|
                0 <= k < all.len() && 0 <= j < by.len() && #[trigger] same_id(
                    by[j],
                    base[k],
                ) implies all[k] == by[j] by {
                if j == m {
                    assert(k == p);
                } else {
                    assert(was_by[j] == by[j]);
                    if k == p {
                        assert(was_by[j].id@ == was_by[m].id@);
                        if j < m {
                            law_lens_ids_are_unique(head, j, m);
                        } else {
                            law_lens_ids_are_unique(head, m, j);
                        }
                    }
                    assert(same_id(was_by[j], base[k]));
                }
            }
            assert forall|k: int|
                0 <= k < all.len() && (forall|j: int|
                    0 <= j < by.len() ==> !#[trigger] same_id(by[j], base[k])) implies #[trigger] all[k]
                == base[k] by {
                assert(!same_id(by[m], base[k]));
                assert forall|j: int| 0 <= j < was_by.len() implies !#[trigger] same_id(
                    was_by[j],
                    base[k],
                ) by {
                    assert(!same_id(by[j], base[k]));
                }
                assert(was_all[k] == base[k]);
            }
        } else {
            assert(by == was_by.push(lens));
            assert forall|k: int, j: int|
                0 <= k < all.len() && 0 <= j < by.len() && #[trigger] same_id(
                    by[j],
                    base[k],
                ) implies all[k] == by[j] by {
                if j < was_by.len() {
                    assert(was_by[j] == by[j]);
                    lemma_absent(was_by, lens.id@, j);
                    assert(same_id(was_by[j], base[k]));
                } else {
                    assert(k == p);
                }
            }
            assert forall|k: int|
                0 <= k < all.len() && (forall|j: int|
                    0 <= j < by.len() ==> !#[trigger] same_id(by[j], base[k])) implies #[trigger] all[k]
                == base[k] by {
                assert(!same_id(by[was_by.len() as int], base[k]));
                assert forall|j: int| 0 <= j < was_by.len() implies !#[trigger] same_id(
                    was_by[j],
                    base[k],
                ) by {
                    assert(!same_id(by[j], base[k]));
                }
                assert(was_all[k] == base[k]);
            }
        }
        assert forall|k: int| 0 <= k < all.len() implies (#[trigger] all[k]).id@ == base[k].id@ by {
            assert(was_all[k].id@ == base[k].id@);
        }
    }
}

/// The id of every lens is among those of the unique ones.
proof fn lemma_every_id_is_kept(lenses: Seq<LensSpec>, i: int)
    requires
        0 <= i < lenses.len(),
    ensures
        exists|p: int| 0 <= p < unique_lenses(lenses).len() && #[trigger] same_id(
            unique_lenses(lenses)[p],
            lenses[i],
        ),
    decreases lenses.len(),
{
    let rest = unique_lenses(lenses.drop_last());
    let lens = lenses.last();
    let all = unique_lenses(lenses);
    if exists|k: int| is_place(rest, lens.id@, k) {
        let k = choose|k: int| is_place(rest, lens.id@, k);
        assert(all == rest.update(k, lens));
        if i == lenses.len() - 1 {
            assert(same_id(all[k], lenses[i]));
        } else {
            lemma_every_id_is_kept(lenses.drop_last(), i);
            let p = choose|p: int| 0 <= p < rest.len() && same_id(rest[p], lenses.drop_last()[i]);
            assert(same_id(all[p], lenses[i]));
        }
    } else {
        assert(all == rest.push(lens));
        if i == lenses.len() - 1 {
            assert(same_id(all[rest.len() as int], lenses[i]));
        } else {
            lemma_every_id_is_kept(lenses.drop_last(), i);
            let p = choose|p: int| 0 <= p < rest.len() && same_id(rest[p], lenses.drop_last()[i]);
            assert(same_id(all[p], lenses[i]));
        }
    }
}

/// Where a lens has an id, there is a first that has it.
proof fn lemma_first_place(lenses: Seq<LensSpec>, id: Seq<char>, p: int)
    requires
        0 <= p < lenses.len(),
        lenses[p].id@ == id,
    ensures
        exists|k: int| is_place(lenses, id, k),
{
    if forall|k: int| !is_place(lenses, id, k) {
        lemma_absent(lenses, id, p);
    }
}

proof fn lemma_distinct_lenses_stay(lenses: Seq<LensSpec>, n: int)
    requires
        forall|i: int, j: int|
            0 <= i < j < lenses.len() ==> (#[trigger] lenses[i]).id@ != (#[trigger] lenses[j]).id@,
        0 <= n <= lenses.len(),
    ensures
        unique_lenses(lenses.subrange(0, n)) == lenses.subrange(0, n),
    decreases n,
{
    let upto = lenses.subrange(0, n);
    if n > 0 {
        lemma_distinct_lenses_stay(lenses, n - 1);
        let rest = lenses.subrange(0, n - 1);
        assert(upto.drop_last() =~= rest);
        let lens = upto.last();
        assert forall|k: int| !is_place(rest, lens.id@, k) by {
            if is_place(rest, lens.id@, k) {
                assert(lenses[k].id@ != lenses[n - 1].id@);
            }
        }
        assert(rest.push(lens) =~= upto);
    } else {
        assert(upto =~= Seq::<LensSpec>::empty());
    }
}

/// A verdict on a frame says what the decode came to. What the cleaner read is the payload, and it is called
/// recovered exactly when some block did not decode plainly; what could not be recovered says how many
/// blocks did; what only a scanner read keeps its text and its format; and where nothing was read the search
/// goes on.
pub proof fn law_states_say_what_was_read(
    result: Result<Cleaned, CleanError>,
    fallback: Option<Scan>,
    state: DecodeState,
)
    requires
        is_conclusion(result, fallback, state),
    ensures
        result matches Ok(c) ==> {
            &&& state.spec_payload() == Some(c.payload@)
            &&& state is Recovered <==> c.blocks_decoded_initially < c.blocks_total
            &&& state is Decoded <==> c.blocks_decoded_initially >= c.blocks_total
            &&& state matches DecodeState::Recovered { rescued, total, .. } ==> rescued >= 1 && total
                == c.blocks_total && rescued + c.blocks_decoded_initially == total
        },
        result matches Err(CleanError::Unrecoverable { blocks_total, blocks_decoded }) ==> {
            &&& state.spec_payload() is None
            &&& state matches DecodeState::TooDamaged { decoded, total } && decoded == blocks_decoded
                && total == blocks_total
        },
        (result == Err::<Cleaned, CleanError>(CleanError::NotDetected) || result == Err::<
            Cleaned,
            CleanError,
        >(CleanError::Unreadable)) ==> match fallback {
            Some(scan) => state.spec_payload() == Some(scan.payload@) && (state
                matches DecodeState::Uncleaned { payload, format } && payload == scan.payload
                && format == scan.format),
            None => state == DecodeState::Searching && state.spec_payload() is None,
        },
{
}

/// A result shows what was recovered: as many modules as the rebuild has otherwise than the scan saw them,
/// each marked, and the rest as the scan saw them. The blocks that were rescued are those that did not
/// decode plainly.
pub proof fn law_results_count_what_differs(
    cleaned: Cleaned,
    rebuilt: Reconstructed,
    view: ResultView,
    i: int,
)
    requires
        is_view(cleaned, rebuilt, view),
        cleaned.sampled@.len() == rebuilt@.len(),
        0 <= i < rebuilt@.len(),
    ensures
        view.recovered == Set::new(
            |k: int| 0 <= k < rebuilt@.len() && rebuilt@[k] != cleaned.sampled@[k],
        ).len(),
        view.verdicts@.len() == rebuilt@.len(),
        crate::render::export::tells(rebuilt@[i], cleaned.sampled@[i], view.verdicts@[i]),
        cleaned.blocks_decoded_initially <= cleaned.blocks_total ==> view.blocks_rescued
            + cleaned.blocks_decoded_initially == cleaned.blocks_total,
        view.payload@ == cleaned.payload@,
        view.inverted == cleaned.source_inverted,
        view.rebuilt == rebuilt,
{
    let differing = Set::new(
        |k: int| 0 <= k < rebuilt@.len() && rebuilt@[k] != cleaned.sampled@[k],
    );
    assert forall|k: int|
        recovered_modules(view.verdicts@).contains(k) == differing.contains(k) by {
        if 0 <= k < rebuilt@.len() {
            crate::render::export::law_verdicts_tell_what_was_seen(
                rebuilt@[k],
                cleaned.sampled@[k],
            );
        }
    }
    assert(recovered_modules(view.verdicts@) =~= differing);
    crate::render::export::law_verdicts_tell_what_was_seen(rebuilt@[i], cleaned.sampled@[i]);
}

/// Any success is frozen: a cleaned symbol that can be rebuilt and compared is shown, with its payload, and
/// nothing but a success changes the screen.
pub proof fn law_successes_are_frozen(
    before: BarcleanApp,
    result: Result<Cleaned, CleanError>,
    fallback: Option<Scan>,
    after: BarcleanApp,
)
    requires
        is_concluded(before, result, fallback, after),
    ensures
        result is Err ==> after.screen == before.screen && after.last_symbol == before.last_symbol,
        result matches Ok(c) ==> {
            &&& after.last_symbol == Some((c.dimension, c.points))
            &&& c.is_rebuildable() && c.is_aligned() ==> after.screen is Result && after.pending_frame
            &&& after.screen != before.screen ==> after.screen is Result
                && after.screen->Result_0.payload@ == c.payload@ && after.screen->Result_0.inverted
                == c.source_inverted
        },
        after.frame == before.frame,
        after.frames == before.frames,
        after.save_request == before.save_request,
{
    if let Ok(c) = result {
        let (built, view) = choose|
            built: Result<Reconstructed, RebuildError>,
            view: Option<Box<ResultView>>,
        |
            #![trigger is_frozen_view(c, built, view)]
            is_reconstruction(c, built) && is_frozen_view(c, built, view) && match view {
                Some(v) => after.screen == Screen::Result(v) && after.pending_frame,
                None => after.screen == before.screen && after.pending_frame == before.pending_frame,
            };
        if c.is_rebuildable() && c.is_aligned() {
            let level = choose|level: crate::codec::qr::EcLevel|
                c.ec_level@ == #[trigger] level.spec_letter();
            assert(crate::render::exact::is_rebuilt(c.codewords@, c.version, level, c.mask, built));
        }
    }
}

/// A frame is scanned for other formats only where the cleaner found nothing that it could read.
pub proof fn law_scanners_are_asked_last(
    frame: Frame,
    result: Result<Cleaned, CleanError>,
    fallback: Option<Scan>,
)
    requires
        is_asked(frame, result, fallback),
        fallback is Some,
    ensures
        result == Err::<Cleaned, CleanError>(CleanError::NotDetected) || result == Err::<
            Cleaned,
            CleanError,
        >(CleanError::Unreadable),
        may_be_read(
            frame.luma@,
            frame.width as u32,
            frame.height as u32,
            reading_of(fallback),
        ),
{
}

/// A saved file is the picture of the rebuild with twelve pixels to a module and four modules of quiet zone,
/// in the polarity of the source.
pub proof fn law_saved_files_show_the_rebuild(view: ResultView)
    requires
        view.rebuilt.wf(),
    ensures
        ({
            let (w, h) = (view.rebuilt.dimension as int, view.rebuilt.height as int);
            let plain = crate::render::exact::as_luma(view.rebuilt@, w, h, 12, 4);
            saved_file(view) == png_of_gray(
                if view.inverted {
                    plain.map_values(|v: u8| (255 - v) as u8)
                } else {
                    plain
                },
                ((w + 8) * 12) as u32,
                ((h + 8) * 12) as u32,
            )
        }),
{
    let (w, h) = (view.rebuilt.dimension as int, view.rebuilt.height as int);
    let plain = crate::render::exact::as_luma(view.rebuilt@, w, h, 12, 4);
    assert(plain.map_values(|v: u8| (255 - v) as u8) =~= crate::clean::qr::negative(plain));
}

/// Touches do what they land on. On a result, the save button asks for the file and the cancel button does
/// not, both return to the camera, and any other touch changes nothing. While scanning, a touch on a lens
/// asks for it unless it is the one in use, and any other touch is passed on.
pub proof fn law_touches_do_what_they_land_on(
    before: BarcleanApp,
    view: ResultView,
    results: ResultButtons,
    lenses: LensButtons,
    x: u32,
    y: u32,
    touch: Touch,
    after: BarcleanApp,
)
    ensures
        is_touched_result(before, view, results, x, y, touch, after) ==> {
            let on_save = results.save is Some && results.save->0.spec_contains(x, y);
            let on_cancel = results.cancel is Some && results.cancel->0.spec_contains(x, y);
            &&& on_save || on_cancel ==> after.screen == Screen::Scanning && after.state
                == DecodeState::Searching && after.pending_frame
            &&& !on_save && !on_cancel ==> after == before
            &&& !on_save ==> after.save_request == before.save_request
            &&& on_save ==> (saved_file(view) matches Ok(file) ==> after.save_request is Some
                && after.save_request->0@ == file && touch == Touch::Handled)
            &&& on_save ==> (saved_file(view) is Err ==> touch is SaveFailed && after.save_request
                == before.save_request)
            &&& touch != Touch::Passed
            &&& after.frame == before.frame
            &&& after.lens_request == before.lens_request
        },
        is_touched_picker(before, lenses, x, y, touch, after) ==> {
            &&& touch == Touch::Passed <==> forall|j: int|
                0 <= j < lenses.hits@.len() ==> !(#[trigger] lenses.hits@[j]).1.spec_contains(x, y)
            &&& touch == Touch::Passed ==> after == before
            &&& after.lens_request != before.lens_request ==> after.lens_request is Some
                && after.lens_request->0@ != before.current_lens@ && exists|k: int| #[trigger]
                lenses.is_hit(k, x, y) && lenses.hits@[k].0@ == after.lens_request->0@
            &&& forall|k: int| #[trigger]
                lenses.is_hit(k, x, y) && lenses.hits@[k].0@ != before.current_lens@
                    ==> after.lens_request is Some && after.lens_request->0@ == lenses.hits@[k].0@
            &&& after.screen == before.screen
            &&& after.current_lens == before.current_lens
        },
{
    if is_touched_picker(before, lenses, x, y, touch, after) {
        if !(forall|j: int|
            0 <= j < lenses.hits@.len() ==> !(#[trigger] lenses.hits@[j]).1.spec_contains(x, y)) {
            let k = choose|k: int| #[trigger]
                lenses.is_hit(k, x, y) && touch == Touch::Handled && after == (BarcleanApp {
                    lens_request: after.lens_request,
                    pending_frame: true,
                    ..before
                }) && if lenses.hits@[k].0@ == before.current_lens@ {
                    after.lens_request == before.lens_request
                } else {
                    after.lens_request is Some && after.lens_request->0@ == lenses.hits@[k].0@
                };
            assert forall|j: int| #[trigger] lenses.is_hit(j, x, y) implies j == k by {
                crate::ui::law_one_button_is_hit(lenses, j, k, x, y);
            }
        }
    }
}

/// Of lenses with one id the last enumerated is kept: every unique lens is one of the list that no later one
/// replaces, and each such lens is kept.
pub proof fn law_the_latest_lens_of_an_id_is_kept(lenses: Seq<LensSpec>, i: int)
    requires
        0 <= i < lenses.len(),
    ensures
        unique_lenses(lenses).contains(lenses[i]) <==> exists|j: int|
            0 <= j < lenses.len() && lenses[j] == lenses[i] && #[trigger] is_latest(lenses, j),
        exists|p: int|
            0 <= p < unique_lenses(lenses).len() && (#[trigger] unique_lenses(lenses)[p]).id@
                == lenses[i].id@,
{
    lemma_every_id_is_kept(lenses, i);
    let all = unique_lenses(lenses);
    let p = choose|p: int| 0 <= p < all.len() && #[trigger] same_id(all[p], lenses[i]);
    assert(all[p].id@ == lenses[i].id@);
    if all.contains(lenses[i]) {
        let k = choose|k: int| 0 <= k < all.len() && all[k] == lenses[i];
        lemma_unique_lenses_are_latest(lenses, k);
        let j = choose|j: int| 0 <= j < lenses.len() && lenses[j] == all[k] && #[trigger] is_latest(lenses, j);
        assert(is_latest(lenses, j));
    }
    if exists|j: int|
        0 <= j < lenses.len() && lenses[j] == lenses[i] && #[trigger] is_latest(lenses, j) {
        let j = choose|j: int|
            0 <= j < lenses.len() && lenses[j] == lenses[i] && #[trigger] is_latest(lenses, j);
        lemma_unique_lenses_are_latest(lenses, p);
        let m = choose|m: int| 0 <= m < lenses.len() && lenses[m] == all[p] && #[trigger] is_latest(lenses, m);
        if m < j {
            assert(lenses[j].id@ != lenses[m].id@);
        } else if j < m {
            assert(lenses[m].id@ != lenses[j].id@);
        }
        assert(all[p] == lenses[i]);
    }
}

/// Whether no later lens has the id of the one in a place.
pub open spec fn is_latest(lenses: Seq<LensSpec>, j: int) -> bool {
    forall|k: int| j < k < lenses.len() ==> (#[trigger] lenses[k]).id@ != lenses[j].id@
}

proof fn lemma_unique_lenses_are_latest(lenses: Seq<LensSpec>, p: int)
    requires
        0 <= p < unique_lenses(lenses).len(),
    ensures
        exists|j: int|
            0 <= j < lenses.len() && lenses[j] == unique_lenses(lenses)[p] && #[trigger] is_latest(
                lenses,
                j,
            ),
    decreases lenses.len(),
{
    let head = lenses.drop_last();
    let rest = unique_lenses(head);
    let lens = lenses.last();
    let all = unique_lenses(lenses);
    let last = lenses.len() - 1;
    assert(is_latest(lenses, last));
    if exists|k: int| is_place(rest, lens.id@, k) {
        let k = choose|k: int| is_place(rest, lens.id@, k);
        assert(all == rest.update(k, lens));
        if p == k {
            assert(lenses[last] == all[p]);
        } else {
            if p < k {
                law_lens_ids_are_unique(head, p, k);
            } else {
                law_lens_ids_are_unique(head, k, p);
            }
            lemma_unique_lenses_are_latest(head, p);
            let j = choose|j: int| 0 <= j < head.len() && head[j] == rest[p] && #[trigger] is_latest(head, j);
            lemma_still_latest(lenses, j);
        }
    } else {
        assert(all == rest.push(lens));
        if p == rest.len() {
            assert(lenses[last] == all[p]);
        } else {
            lemma_absent(rest, lens.id@, p);
            lemma_unique_lenses_are_latest(head, p);
            let j = choose|j: int| 0 <= j < head.len() && head[j] == rest[p] && #[trigger] is_latest(head, j);
            lemma_still_latest(lenses, j);
        }
    }
}

proof fn lemma_still_latest(lenses: Seq<LensSpec>, j: int)
    requires
        0 <= j < lenses.len() - 1,
        is_latest(lenses.drop_last(), j),
        lenses.last().id@ != lenses[j].id@,
    ensures
        is_latest(lenses, j),
        lenses[j] == lenses.drop_last()[j],
{
    assert forall|k: int| j < k < lenses.len() implies (#[trigger] lenses[k]).id@ != lenses[j].id@ by {
        if k < lenses.len() - 1 {
            assert(lenses.drop_last()[k].id@ != lenses.drop_last()[j].id@);
        }
    }
}

/// The headline tells what was done, in numbers: blocks that were rescued, of how many, and modules that were
/// repaired.
pub proof fn law_headlines_tell_what_was_done(view: ResultView)
    ensures
        view.blocks_rescued > 0 ==> view.spec_headline() == "Recovered — "@ + decimal(
            view.blocks_rescued as nat,
        ) + " of "@ + decimal(view.blocks_total as nat) + " blocks rescued, "@ + decimal(
            view.recovered as nat,
        ) + " modules repaired"@,
        view.blocks_rescued == 0 && view.recovered > 0 ==> view.spec_headline() == "Cleaned — "@
            + decimal(view.recovered as nat) + " modules repaired"@,
        view.blocks_rescued == 0 && view.recovered == 0 ==> view.spec_headline()
            == "Clean — nothing needed repairing"@,
{
}

/// The readout tells the state: what was read is the detail, what was rescued of how many blocks is in the
/// headline, and each state has a colour of its own.
pub proof fn law_readouts_tell_the_state(state: DecodeState, frame: Frame, ms: u32)
    ensures
        ({
            let (colour, headline, detail) = status_of(state, frame, ms);
            match state {
                DecodeState::NoFrames => colour == (180u8, 40u8, 40u8) && headline
                    == "waiting for camera"@ && detail is None,
                DecodeState::Searching => colour == (200u8, 150u8, 30u8) && headline
                    == "searching…"@ && detail == Some(
                    decimal(frame.width as nat) + "x"@ + decimal(frame.height as nat) + "  "@
                        + decimal(ms as nat) + " ms/frame"@,
                ),
                DecodeState::Decoded(_) => colour == (40u8, 170u8, 80u8) && headline == "decoded"@
                    && detail == state.spec_payload(),
                DecodeState::Recovered { rescued, total, .. } => colour == (80u8, 140u8, 230u8)
                    && headline == "RECOVERED — "@ + decimal(rescued as nat) + " of "@ + decimal(
                    total as nat,
                ) + " blocks rescued"@ && detail == state.spec_payload(),
                DecodeState::TooDamaged { decoded, total } => colour == (190u8, 90u8, 30u8)
                    && headline == "too damaged — "@ + decimal(decoded as nat) + "/"@ + decimal(
                    total as nat,
                ) + " blocks"@ && detail is None,
                DecodeState::Uncleaned { format, .. } => colour == (150u8, 90u8, 200u8) && headline
                    == format@ + " (cleaning not wired)"@ && detail == state.spec_payload(),
            }
        }),
        match state {
            DecodeState::NoFrames => line_of(state, frame) == "no frames"@,
            DecodeState::Searching => line_of(state, frame) == "searching  "@ + decimal(
                frame.width as nat,
            ) + "x"@ + decimal(frame.height as nat) + "  rot"@ + decimal(frame.rotation as nat),
            DecodeState::Decoded(_) => line_of(state, frame) == "decoded: "@
                + state.spec_payload()->0,
            DecodeState::Recovered { rescued, total, .. } => line_of(state, frame) == "RECOVERED "@
                + decimal(rescued as nat) + "/"@ + decimal(total as nat) + " blocks: "@
                + state.spec_payload()->0,
            DecodeState::TooDamaged { decoded, total } => line_of(state, frame) == "too damaged: "@
                + decimal(decoded as nat) + "/"@ + decimal(total as nat) + " blocks"@,
            DecodeState::Uncleaned { format, .. } => line_of(state, frame) == format@
                + " (uncleaned): "@ + state.spec_payload()->0,
        },
{
}

} // verus!
