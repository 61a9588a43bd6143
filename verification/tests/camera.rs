//! Lenses, frames, the feed and the application's state.
use barclean::app::{freeze, BarcleanApp, DecodeState, Screen, Touch};
use barclean::camera::{LensOption, LensPicker, LensReading, LensSpec, LensStatus, PickerParams};
use barclean::clean::{clean_bitmatrix, CleanError};
use barclean::corpus::render;
use barclean::corpus::symbol::generate;
use barclean::feed::{compact_rows, decode_frame, CameraFeed, Decoded, Frame, Next};
use barclean::float::{key_of, less};
use barclean::paint::{blit_under, colour, fill_under, PixelArea};
use barclean::ui::{
    lands_on, lens_colours, lens_label, lens_note, preview, shown_detail, Hit, LensButtons,
    ResultButtons,
};
use barclean::Symbology;
use std::sync::{Arc, Condvar, Mutex};

// ---- lenses ----
fn spec(id: &str, label: &str, focal: f32, sensor: f32, pixels: u32, near: f32) -> LensSpec {
    LensSpec {
        id: id.to_string(),
        label: label.to_string(),
        focal_length_mm: focal.to_bits(),
        sensor_width_mm: sensor.to_bits(),
        pixel_width: pixels,
        min_focus_distance_m: near.to_bits(),
    }
}

/// Roughly a phone's rear cluster on a 1280-wide preview stream.
fn phone_lenses() -> Vec<LensSpec> {
    vec![
        spec("tele", "5×", 18.0, 5.6, 1280, 0.35),
        spec("ultrawide", "Ultra-wide", 2.2, 5.6, 1280, 0.10),
        spec("main", "Main", 6.9, 9.8, 1280, 0.10),
    ]
}

fn picker() -> LensPicker {
    LensPicker::new(phone_lenses(), PickerParams::default())
}

fn hfov_rad(lens: &LensSpec) -> f32 {
    let focal = f32::from_bits(lens.focal_length_mm);
    let sensor = f32::from_bits(lens.sensor_width_mm);
    if focal <= 0.0 || sensor <= 0.0 {
        return 0.0;
    }
    2.0 * (sensor / (2.0 * focal)).atan()
}

fn px_per_radian(lens: &LensSpec) -> f32 {
    let fov = hfov_rad(lens);
    if fov <= 0.0 {
        return 0.0;
    }
    lens.pixel_width as f32 / fov
}

/// What every lens would deliver, from a measurement on the current one.
fn readings(p: &LensPicker, current: &str, measured: f32, modules: u32) -> Option<Vec<LensReading>> {
    let ppr = px_per_radian(&p.lenses()[p.place_of(current).unwrap_or(0)]);
    if ppr <= 0.0 {
        return None;
    }
    let module_rad = measured / ppr;
    Some(
        p.lenses()
            .iter()
            .map(|lens| {
                let hfov = hfov_rad(lens);
                let fill = if hfov > 0.0 { module_rad * modules as f32 / hfov } else { 0.0 };
                LensReading {
                    px_per_module: (module_rad * px_per_radian(lens)).to_bits(),
                    frame_fill: fill.to_bits(),
                }
            })
            .collect(),
    )
}

fn options(p: &LensPicker, current: &str, measured: f32, modules: u32) -> Vec<LensOption> {
    let readings = readings(p, current, measured, modules);
    p.options(current, measured.to_bits(), readings.as_deref())
}

fn find<'a>(options: &'a [LensOption], id: &str) -> &'a LensOption {
    options.iter().find(|o| o.id == id).expect("lens present")
}

#[test]
fn options_are_ordered_wide_to_tele() {
    let p = picker();
    let ids: Vec<&str> = p.lenses().iter().map(|l| l.id.as_str()).collect();
    assert_eq!(ids, vec!["ultrawide", "main", "tele"]);

    let options = options(&p, "main", 4.0, 25);
    let option_ids: Vec<&str> = options.iter().map(|o| o.id.as_str()).collect();
    assert_eq!(option_ids, vec!["ultrawide", "main", "tele"]);
}

#[test]
fn every_lens_is_offered_however_bad() {
    let options = options(&picker(), "main", 0.2, 177);
    assert_eq!(options.len(), 3, "all lenses stay on offer");
    assert!(
        options.iter().any(|o| !o.status.is_usable()),
        "this fixture should include an unusable lens"
    );
}

#[test]
fn narrower_lens_predicts_more_pixels_per_module() {
    let options = options(&picker(), "main", 4.0, 25);
    let px = |id: &str| f32::from_bits(find(&options, id).predicted_px_per_module);
    let (uw, main, tele) = (px("ultrawide"), px("main"), px("tele"));

    assert!((main - 4.0).abs() < 0.01, "the measured lens reports what was measured");
    assert!(tele > main, "tele resolves the symbol more finely");
    assert!(main > uw, "main resolves it more finely than ultra-wide");
}

#[test]
fn statuses_bracket_the_thresholds() {
    let options = options(&picker(), "main", 4.0, 25);
    assert_eq!(find(&options, "main").status, LensStatus::Marginal);
    assert_eq!(find(&options, "tele").status, LensStatus::Good);
    assert_eq!(find(&options, "ultrawide").status, LensStatus::TooCoarse);
}

#[test]
fn a_symbol_too_large_for_a_lens_is_flagged_would_crop() {
    let options = options(&picker(), "main", 4.0, 177);
    let tele = find(&options, "tele");
    assert_eq!(tele.status, LensStatus::WouldCrop);
    let fill = f32::from_bits(tele.frame_fill);
    assert!(fill > 1.0, "frame fill was {fill}");
    assert!(options.iter().any(|o| o.id == "tele"));
}

#[test]
fn without_a_measurement_nothing_is_claimed() {
    let options = options(&picker(), "main", 0.0, 25);
    assert_eq!(options.len(), 3);
    for o in &options {
        assert_eq!(o.status, LensStatus::Unknown);
        assert_eq!(f32::from_bits(o.predicted_px_per_module), 0.0);
    }
}

#[test]
fn unknown_current_lens_yields_no_predictions() {
    let options = options(&picker(), "nonexistent", 4.0, 25);
    assert!(options.iter().all(|o| o.status == LensStatus::Unknown));
}

#[test]
fn focus_failure_is_reported_not_hidden() {
    let mut p = picker();
    p.note_focus_failure("tele");
    p.note_focus_failure("tele");

    let annotated = options(&p, "main", 4.0, 25);
    assert_eq!(
        find(&annotated, "tele").status,
        LensStatus::CannotFocus,
        "the user should see why the tele is a poor choice, not find it missing"
    );
    assert!(annotated.iter().any(|o| o.id == "tele"), "still selectable");
    assert_eq!(find(&options(&p, "main", 0.0, 25), "tele").status, LensStatus::CannotFocus);

    p.clear_focus_failures();
    assert_eq!(find(&options(&p, "main", 4.0, 25), "tele").status, LensStatus::Good);
}

#[test]
fn current_lens_is_marked() {
    let options = options(&picker(), "main", 4.0, 25);
    assert!(find(&options, "main").is_current);
    assert!(!find(&options, "tele").is_current);
    assert_eq!(options.iter().filter(|o| o.is_current).count(), 1);
}

#[test]
fn suggestion_is_advisory_and_never_picks_an_unusable_lens() {
    let p = picker();

    let small = options(&p, "main", 4.0, 25);
    assert_eq!(p.suggestion(&small).as_deref(), Some("tele"));

    let large = options(&p, "main", 4.0, 177);
    assert_ne!(p.suggestion(&large).as_deref(), Some("tele"));

    assert_eq!(p.suggestion(&options(&p, "main", 0.0, 25)), None);
}

#[test]
fn degenerate_specs_do_not_divide_by_zero() {
    let bad = spec("bad", "Broken", 0.0, 0.0, 0, 0.0);
    assert_eq!(hfov_rad(&bad), 0.0);
    assert_eq!(px_per_radian(&bad), 0.0);

    let p = LensPicker::new(vec![bad], PickerParams::default());
    let options = options(&p, "bad", 4.0, 25);
    assert_eq!(options[0].status, LensStatus::Unknown);
}

#[test]
fn thresholds_are_the_documented_ones() {
    let params = PickerParams::default();
    assert_eq!(f32::from_bits(params.min_px_per_module), 4.0);
    assert_eq!(f32::from_bits(params.target_px_per_module), 6.0);
    assert_eq!(f32::from_bits(params.max_frame_fill), 0.85);
}

#[test]
fn keys_order_numbers_as_they_are_ordered() {
    let numbers = [f32::NEG_INFINITY, -3.5, -1.0, -0.0, 0.0, 1e-20, 0.5, 2.0, f32::INFINITY];
    for &a in &numbers {
        for &b in &numbers {
            assert_eq!(less(a.to_bits(), b.to_bits()), a < b, "{a} < {b}");
            assert_eq!(key_of(a.to_bits()) < key_of(b.to_bits()), a < b, "{a} < {b}");
        }
        assert!(!less(a.to_bits(), f32::NAN.to_bits()));
        assert!(!less(f32::NAN.to_bits(), a.to_bits()));
    }
}

// ---- the screen ----
fn hit_box(x0: f32, y0: f32, x1: f32, y1: f32) -> Hit {
    Hit { x0: x0.to_bits(), y0: y0.to_bits(), x1: x1.to_bits(), y1: y1.to_bits() }
}

#[test]
fn hit_contains_is_half_open() {
    let h = hit_box(10.0, 20.0, 30.0, 40.0);
    let contains = |x: f32, y: f32| h.contains(x.to_bits(), y.to_bits());
    assert!(contains(10.0, 20.0), "inclusive at the top-left");
    assert!(contains(29.9, 39.9));
    assert!(!contains(30.0, 30.0), "exclusive at the right edge");
    assert!(!contains(20.0, 40.0), "exclusive at the bottom edge");
    assert!(!contains(9.0, 30.0));
    assert!(!contains(f32::NAN, 30.0));
    assert!(lands_on(&Some(h), 15f32.to_bits(), 25f32.to_bits()));
    assert!(!lands_on(&None, 15f32.to_bits(), 25f32.to_bits()));
}

fn two_buttons() -> LensButtons {
    LensButtons {
        hits: vec![
            ("ultrawide".to_string(), hit_box(0.0, 900.0, 100.0, 1000.0)),
            ("main".to_string(), hit_box(100.0, 900.0, 200.0, 1000.0)),
        ],
    }
}

#[test]
fn buttons_resolve_touches_to_lens_ids() {
    let buttons = two_buttons();
    let hit = |x: f32, y: f32| buttons.hit(x.to_bits(), y.to_bits());

    assert_eq!(hit(50.0, 950.0), Some("ultrawide"));
    assert_eq!(hit(150.0, 950.0), Some("main"));
    assert_eq!(hit(150.0, 500.0), None, "above the bar selects nothing");
    assert_eq!(hit(500.0, 950.0), None, "past the last button");
}

#[test]
fn empty_picker_reports_no_buttons() {
    let buttons = LensButtons::default();
    assert_eq!(buttons.hit(10f32.to_bits(), 10f32.to_bits()), None);
}

#[test]
fn long_details_are_cut() {
    let short = "x".repeat(52);
    assert_eq!(shown_detail(&short), short);
    assert_eq!(shown_detail(&"é".repeat(53)), "é".repeat(49) + "…");
}

#[test]
fn buttons_look_as_their_lens_fares() {
    let option = |status: LensStatus, is_current: bool| LensOption {
        id: "a".to_string(),
        label: "A".to_string(),
        focal_length_mm: 0,
        predicted_px_per_module: 0,
        frame_fill: 0,
        status,
        is_current,
    };
    assert_eq!(
        lens_colours(&option(LensStatus::TooCoarse, true)),
        ((70, 130, 200), (255, 255, 255))
    );
    assert_eq!(
        lens_colours(&option(LensStatus::Good, false)),
        ((30, 34, 40), (210, 235, 210))
    );
    assert_eq!(
        lens_colours(&option(LensStatus::WouldCrop, false)),
        ((30, 30, 34), (150, 130, 130))
    );
    assert_eq!(lens_note(LensStatus::WouldCrop), Some("won't fit"));
    assert_eq!(lens_note(LensStatus::CannotFocus), Some("can't focus"));
    assert_eq!(lens_note(LensStatus::Good), None);

    let main = option(LensStatus::Good, false);
    assert_eq!(lens_label(&main, Some(main.id.as_str())), format!("\u{2605} {}", main.label));
    assert_eq!(lens_label(&main, Some("another lens")), main.label);
    assert_eq!(lens_label(&main, None), main.label);
}

// ---- frames ----
#[test]
fn frames_turn_upright() {
    // 0 1 2
    // 3 4 5
    let frame = |rotation: u32| Frame { luma: vec![0, 1, 2, 3, 4, 5], width: 3, height: 2, rotation };
    let upright = |f: &Frame| -> Vec<u8> {
        let (w, h) = f.rotated_dims();
        (0..w * h).map(|i| f.sample_upright(i % w, i / w)).collect()
    };
    assert_eq!(upright(&frame(0)), vec![0, 1, 2, 3, 4, 5]);
    assert_eq!(frame(90).rotated_dims(), (2, 3));
    assert_eq!(upright(&frame(90)), vec![3, 0, 4, 1, 5, 2]);
    assert_eq!(upright(&frame(180)), vec![5, 4, 3, 2, 1, 0]);
    assert_eq!(upright(&frame(270)), vec![2, 5, 1, 4, 0, 3]);
    assert_eq!(frame(0).sample_upright(3, 0), 0, "nothing lies outside");
    assert!(Frame::default().is_empty());
}

#[test]
fn rows_are_compacted_only_when_all_are_there() {
    assert_eq!(compact_rows(&[1, 2, 0, 3, 4], 2, 2, 3), Some(vec![1, 2, 3, 4]));
    assert_eq!(compact_rows(&[1, 2, 0, 3], 2, 2, 3), None);
    assert_eq!(compact_rows(&[1, 2, 3, 4], 2, 2, 1), Some(vec![1, 2, 3, 4]));
    assert_eq!(compact_rows(&[], 0, 2, 3), None);
}

// ---- the feed ----
fn feed_with_frame() -> CameraFeed {
    let mut feed = CameraFeed::new();
    feed.submit(&[128u8; 16 * 16], 16, 16, 16, 0);
    feed
}

#[test]
fn stride_padding_is_removed() {
    let (w, h, stride) = (4usize, 3usize, 7usize);
    let mut padded = vec![0u8; stride * h];
    for y in 0..h {
        for x in 0..w {
            padded[y * stride + x] = (y * w + x) as u8;
        }
    }
    let mut feed = CameraFeed::new();
    feed.submit(&padded, w, h, stride, 0);

    let frame = feed.latest().expect("frame published");
    assert_eq!(frame.luma.len(), w * h);
    assert_eq!(frame.luma, (0..(w * h) as u8).collect::<Vec<_>>());
}

#[test]
fn a_short_buffer_is_rejected_rather_than_padded() {
    let mut feed = CameraFeed::new();
    feed.submit(&[1, 2, 3], 10, 10, 10, 0);
    assert!(feed.latest().is_none(), "a truncated frame must not be published");
    assert_eq!(feed.frames(), 0, "a rejected frame must not be counted");
}

#[test]
fn newest_frame_replaces_the_waiting_one() {
    let mut feed = CameraFeed::new();
    for v in 1..=5u8 {
        feed.submit(&[v; 4 * 4], 4, 4, 4, 0);
    }
    match feed.next_to_decode() {
        Next::Decode(next) => {
            assert_eq!(next.luma[0], 5, "should decode the newest, not the oldest")
        }
        other => panic!("something to decode, got {other:?}"),
    }
    assert_eq!(feed.frames(), 5);
    assert!(matches!(feed.next_to_decode(), Next::Wait));
}

#[test]
fn freezing_stops_decoding_but_not_the_preview() {
    let mut feed = feed_with_frame();
    feed.set_frozen(true);

    let woken = feed.submit(&[77u8; 16 * 16], 16, 16, 16, 0);
    assert!(!woken);
    assert_eq!(
        feed.latest().unwrap().luma[0],
        77,
        "preview must keep updating so returning is instant"
    );
    assert!(feed.pending.is_none(), "nothing should be queued for decode while frozen");
    assert!(feed.is_frozen());

    feed.set_frozen(false);
    assert!(feed.submit(&[99u8; 16 * 16], 16, 16, 16, 0));
    assert!(feed.pending.is_some(), "decoding resumes");
}

fn outcome() -> Decoded {
    Decoded { result: Err(CleanError::NotDetected), fallback: None, elapsed_ms: 1 }
}

#[test]
fn freezing_discards_an_outcome_in_flight() {
    let mut feed = feed_with_frame();
    assert!(feed.publish(outcome()));
    feed.set_frozen(true);
    assert!(
        feed.take_outcome().is_none(),
        "a result must never replace what the user is looking at"
    );
    assert!(!feed.publish(outcome()), "nor one that lands while frozen");
    assert!(feed.take_outcome().is_none());

    feed.set_frozen(false);
    assert!(feed.publish(outcome()));
    assert!(feed.take_outcome().is_some());
    assert!(feed.take_outcome().is_none(), "it is collected once");
}

#[test]
fn a_frozen_feed_wants_no_frame() {
    let mut feed = feed_with_frame();
    let frame = feed.latest().unwrap();
    assert!(feed.is_wanted(&frame));
    assert!(!feed.is_wanted(&Frame::default()));
    feed.set_frozen(true);
    assert!(!feed.is_wanted(&frame));
}

/// Waits until there is a frame to decode, or none will come.
fn wait_for_work(shared: &(Mutex<CameraFeed>, Condvar)) -> Option<Arc<Frame>> {
    let mut feed = shared.0.lock().unwrap();
    loop {
        match feed.next_to_decode() {
            Next::Decode(frame) => return Some(frame),
            Next::Stop => return None,
            Next::Wait => feed = shared.1.wait(feed).unwrap(),
        }
    }
}

#[test]
fn a_stopped_feed_hands_out_nothing() {
    let mut feed = feed_with_frame();
    feed.stop();
    feed.stop();
    assert!(matches!(feed.next_to_decode(), Next::Stop));
    let shared = (Mutex::new(feed), Condvar::new());
    assert!(wait_for_work(&shared).is_none());
}

#[test]
fn a_frame_is_decoded_with_the_stock_scanner_behind_it() {
    let spec = generate(Symbology::QrCode, "threaded decode", "M").unwrap();
    let img = render(&spec, 6, 6);
    let luma: Vec<u8> = img.pixels.iter().map(|p| p.0).collect();
    let shared = (Mutex::new(CameraFeed::new()), Condvar::new());
    shared.0.lock().unwrap().submit(&luma, img.width as usize, img.height as usize, img.width as usize, 0);

    let frame = wait_for_work(&shared).expect("a frame waits");
    let (result, fallback) = decode_frame(&frame);
    assert!(fallback.is_none());
    assert_eq!(result.unwrap().payload, "threaded decode");

    let blank = Frame { luma: vec![128; 64 * 64], width: 64, height: 64, rotation: 0 };
    let (result, fallback) = decode_frame(&blank);
    assert!(result.is_err() && fallback.is_none());
}

// ---- the application ----
#[test]
fn stride_padding_is_compacted_not_sheared() {
    let width = 4;
    let height = 3;
    let stride = 8;
    let mut padded = vec![0u8; stride * height];
    for y in 0..height {
        for x in 0..width {
            padded[y * stride + x] = (y * 10 + x) as u8;
        }
    }

    let mut app = BarcleanApp::new();
    app.on_camera_frame(&padded, width, height, stride, 0);

    assert_eq!(app.frame.width, width);
    assert_eq!(app.frame.height, height);
    assert_eq!(app.frame.luma.len(), width * height);
    for y in 0..height {
        for x in 0..width {
            assert_eq!(
                app.frame.luma[y * width + x],
                (y * 10 + x) as u8,
                "row {y} column {x} came from the wrong place"
            );
        }
    }
}

#[test]
fn short_or_empty_frames_are_ignored() {
    let mut app = BarcleanApp::new();

    assert!(!app.on_camera_frame(&[], 0, 0, 0, 0));
    assert_eq!(app.frames(), 0);

    assert!(!app.on_camera_frame(&[1, 2, 3], 10, 10, 10, 0));
    assert_eq!(app.frames(), 0);
    assert_eq!(*app.state(), DecodeState::NoFrames);
}

fn lens(id: &str, focal: f32) -> LensSpec {
    spec(id, &format!("{focal}mm"), focal, 8.0, 1280, 0.1)
}

#[test]
fn re_enumerating_lenses_does_not_duplicate_buttons() {
    let mut app = BarcleanApp::new();
    let three = vec![lens("3", 2.23), lens("2", 6.9), lens("4", 18.0)];

    app.set_lenses(three.clone(), "2");
    assert_eq!(app.lenses().len(), 3);
    assert_eq!(app.current_lens(), "2");

    let mut twice = three.clone();
    twice.extend(three);
    app.set_lenses(twice, "2");
    assert_eq!(app.lenses().len(), 3, "re-enumeration must not duplicate");
}

#[test]
fn a_frame_without_a_symbol_reports_searching() {
    let mut app = BarcleanApp::new();
    app.on_camera_frame(&[128u8; 64 * 64], 64, 64, 64, 0);
    assert_eq!(app.frames(), 1);
    assert_eq!(*app.state(), DecodeState::Searching);
    assert_eq!(app.status_line(), "searching  64x64  rot0");
    app.note_decode_time(12);
    assert_eq!(app.last_decode_ms(), 12);
    let (accent, headline, detail) = app.status_parts();
    assert_eq!(accent, (200, 150, 30));
    assert_eq!(headline, "searching…");
    assert_eq!(detail.as_deref(), Some("64x64  12 ms/frame"));
}

fn rendered(payload: &str) -> (Vec<u8>, usize, usize) {
    let spec = generate(Symbology::QrCode, payload, "M").unwrap();
    let img = render(&spec, 6, 6);
    let luma: Vec<u8> = img.pixels.iter().map(|p| p.0).collect();
    (luma, img.width as usize, img.height as usize)
}

#[test]
fn a_rendered_symbol_decodes_through_the_camera_entry_point() {
    let payload = "barclean camera path";
    let (luma, w, h) = rendered(payload);

    let mut app = BarcleanApp::new();
    app.on_camera_frame(&luma, w, h, w, 0);

    assert_eq!(
        app.state().payload(),
        Some(payload),
        "camera entry point did not decode a clean rendered symbol, state was {:?}",
        app.state()
    );
    assert_eq!(app.status_line(), "decoded: barclean camera path");
}

#[test]
fn preview_blit_stays_in_bounds_for_any_aspect() {
    for (fw, fh) in [(64usize, 16usize), (16, 64), (33, 33)] {
        let mut app = BarcleanApp::new();
        app.on_camera_frame(&vec![200u8; fw * fh], fw, fh, fw, 0);

        let (w, h) = (40usize, 30usize);
        let scale = (w as f32 / fw as f32).min(h as f32 / fh as f32);
        let dw = ((fw as f32 * scale) as usize).max(1).min(w);
        let dh = ((fh as f32 * scale) as usize).max(1).min(h);
        let shown = preview(&app.frame, w, h, dw, dh);
        assert_eq!(shown.len(), w * h);
        assert_eq!(shown.iter().filter(|p| **p == Some(200)).count(), dw * dh);

        let mut target = vec![0u32; w * h];
        blit_under(&mut target, &shown, false);
        assert!(
            target.iter().any(|&p| p != 0),
            "{fw}x{fh} frame produced no output at all"
        );
        assert_eq!(target.iter().filter(|&&p| p != 0).count(), dw * dh);
    }
}

#[test]
fn colours_follow_the_byte_order_of_the_surface() {
    assert_eq!(colour((255, 0, 0), false), 0xFF00_FFFF);
    assert_eq!(colour((255, 0, 0), true), 0xFFFF_FF00);
    assert_eq!(colour((10, 20, 30), false), 0xFFF5_EBE1);
    assert_eq!(colour((90, 90, 90), false), colour((90, 90, 90), true));
}

#[test]
fn layers_slide_in_behind_what_is_painted() {
    let text = colour((255, 255, 255), false);
    let mut target = vec![0u32; 12];
    target[5] = text;
    target[6] = 0x8040_2010;
    let panel = PixelArea { x0: 1, y0: 1, x1: 9, y1: 2 };
    fill_under(&mut target, 4, 3, panel, 0xFFFF_8000);

    assert_eq!(target[5], text, "an opaque pixel is finished");
    assert_eq!(target[6], 0xFFBE_5F10, "half of the layer shows through");
    assert_eq!(target[7], 0xFFFE_7F00, "an empty pixel takes the layer on");
    assert_eq!(target[4], 0, "left of the panel");
    assert_eq!(target[8], 0, "below the panel");

    let all = PixelArea { x0: 0, y0: 0, x1: 4, y1: 3 };
    fill_under(&mut target, 4, 3, all, colour((10, 10, 12), false));
    assert!(target.iter().all(|&p| p >= 0xFF00_0000), "the ground leaves no gap");
    assert_eq!(target[7], 0xFFFE_7F00);

    // A buffer that is shorter than the window, and a window without columns.
    let mut short = vec![0u32; 5];
    fill_under(&mut short, 4, 3, all, text);
    assert_eq!(short, vec![0xFF00_0000; 5]);
    fill_under(&mut short, 0, 3, all, 0xFFFF_FFFF);
    assert_eq!(short, vec![0xFF00_0000; 5]);
}

#[test]
fn results_freeze_until_they_are_left() {
    let (luma, w, h) = rendered("first");
    let mut app = BarcleanApp::new();
    app.on_camera_frame(&luma, w, h, w, 0);
    assert!(app.is_frozen());
    assert!(app.tick());
    assert!(!app.tick(), "nothing new to draw");

    let (other, ow, oh) = rendered("second");
    app.on_camera_frame(&other, ow, oh, ow, 0);
    assert_eq!(app.state().payload(), Some("first"));
    match &app.screen {
        Screen::Result(view) => assert_eq!(view.headline(), "Clean — nothing needed repairing"),
        Screen::Scanning => panic!("must stay on the result"),
    }

    assert_eq!(app.on_escape(), Touch::Handled);
    assert!(!app.is_frozen());
    assert_eq!(*app.state(), DecodeState::Searching);
    assert_eq!(app.on_escape(), Touch::Passed);
}

#[test]
fn saving_a_result_hands_out_its_picture_once() {
    let (luma, w, h) = rendered("to be saved");
    let mut app = BarcleanApp::new();
    app.on_camera_frame(&luma, w, h, w, 0);
    let buttons = ResultButtons {
        save: Some(hit_box(0.0, 0.0, 10.0, 10.0)),
        cancel: Some(hit_box(20.0, 0.0, 30.0, 10.0)),
    };
    let at = |x: f32| x.to_bits();

    assert_eq!(app.on_press(at(15.0), at(5.0), &two_buttons(), &buttons), Touch::Handled);
    assert!(app.is_frozen(), "a touch beside the buttons does nothing");

    assert_eq!(app.on_press(at(5.0), at(5.0), &two_buttons(), &buttons), Touch::Handled);
    assert!(!app.is_frozen());
    let png = app.take_save_request().expect("saved");
    assert!(app.take_save_request().is_none());
    let img = image::load_from_memory(&png).unwrap().to_luma8();
    let (iw, ih) = img.dimensions();
    let read = rxing::helpers::detect_in_luma(img.into_raw(), iw, ih, None).unwrap();
    assert_eq!(read.getText(), "to be saved");

    app.on_camera_frame(&luma, w, h, w, 0);
    assert_eq!(app.on_press(at(25.0), at(5.0), &two_buttons(), &buttons), Touch::Handled);
    assert!(!app.is_frozen());
    assert!(app.take_save_request().is_none(), "cancelling saves nothing");
}

#[test]
fn tapping_another_lens_requests_it() {
    let mut app = BarcleanApp::new();
    app.set_lenses(vec![lens("ultrawide", 2.2), lens("main", 6.9)], "main");
    let none = ResultButtons::default();
    let at = |x: f32| x.to_bits();

    assert_eq!(app.on_press(at(150.0), at(950.0), &two_buttons(), &none), Touch::Handled);
    assert_eq!(app.take_lens_request(), None, "the current lens is not requested again");
    assert_eq!(app.on_press(at(50.0), at(950.0), &two_buttons(), &none), Touch::Handled);
    assert_eq!(app.take_lens_request().as_deref(), Some("ultrawide"));
    assert_eq!(app.take_lens_request(), None);
    assert_eq!(app.on_press(at(50.0), at(5.0), &two_buttons(), &none), Touch::Passed);

    app.set_current_lens("ultrawide");
    assert_eq!(app.current_lens(), "ultrawide");
}

#[test]
fn outcomes_are_told_in_words() {
    let mut app = BarcleanApp::new();
    assert_eq!(app.status_line(), "no frames");
    assert_eq!(app.status_parts().1, "waiting for camera");

    app.conclude(Err(CleanError::Unrecoverable { blocks_total: 8, blocks_decoded: 3 }), None);
    assert_eq!(*app.state(), DecodeState::TooDamaged { decoded: 3, total: 8 });
    assert_eq!(app.status_line(), "too damaged: 3/8 blocks");
    assert_eq!(app.status_parts().1, "too damaged — 3/8 blocks");
    assert_eq!(app.state().payload(), None);

    let read = barclean::codec::formats::Scan {
        symbology: Some(Symbology::Aztec),
        payload: "text".to_string(),
        format: "AZTEC".to_string(),
    };
    app.conclude(Err(CleanError::NotDetected), Some(read));
    assert_eq!(app.status_line(), "AZTEC (uncleaned): text");
    assert_eq!(app.status_parts().1, "AZTEC (cleaning not wired)");
    assert_eq!(app.state().payload(), Some("text"));

    app.conclude(Err(CleanError::Unreadable), None);
    assert_eq!(*app.state(), DecodeState::Searching);
}

#[test]
fn a_rescued_symbol_says_what_was_done() {
    let spec = generate(Symbology::QrCode, "a rescued symbol", "H").unwrap();
    let n = spec.truth.width;
    let mut modules = spec.truth.modules().to_vec();
    let mid = n / 2;
    modules[mid * n + mid] = !modules[mid * n + mid];
    let mut cleaned = clean_bitmatrix(&modules, n).unwrap();

    let view = freeze(&cleaned).expect("rebuilt and compared");
    assert_eq!(view.recovered, 1);
    assert_eq!(view.headline(), "Cleaned — 1 modules repaired");

    // As if one block had only come back by bootstrapping.
    cleaned.blocks_decoded_initially = cleaned.blocks_total - 1;
    let total = cleaned.blocks_total;
    let mut app = BarcleanApp::new();
    app.conclude(Ok(cleaned), None);
    assert_eq!(
        *app.state(),
        DecodeState::Recovered { payload: "a rescued symbol".to_string(), rescued: 1, total }
    );
    assert_eq!(
        app.status_line(),
        format!("RECOVERED 1/{total} blocks: a rescued symbol")
    );
    match &app.screen {
        Screen::Result(view) => assert_eq!(
            view.headline(),
            format!("Recovered — 1 of {total} blocks rescued, 1 modules repaired")
        ),
        Screen::Scanning => panic!("a success is frozen"),
    }
    assert_eq!(app.state().payload(), Some("a rescued symbol"));
}

#[test]
fn readings_without_a_measurement_claim_nothing() {
    let mut p = picker();
    let given: Vec<LensReading> = p
        .lenses()
        .iter()
        .map(|_| LensReading { px_per_module: 9.0f32.to_bits(), frame_fill: 0.5f32.to_bits() })
        .collect();
    p.note_focus_failure("tele");
    let measured = |current: &str, px: f32| p.options(current, px.to_bits(), Some(&given));
    for (current, px) in
        [("main", 0.0f32), ("main", -0.0), ("main", -4.0), ("nobody", 4.0)]
    {
        for option in measured(current, px) {
            let expected = if option.id == "tele" {
                LensStatus::CannotFocus
            } else {
                LensStatus::Unknown
            };
            assert_eq!(option.status, expected, "{current} {px}");
            assert_eq!((option.predicted_px_per_module, option.frame_fill), (0, 0));
        }
    }
    assert!(measured("main", 4.0).iter().all(|o| o.predicted_px_per_module == 9.0f32.to_bits()));
}

#[test]
fn lists_that_repeat_an_id_settle_at_once() {
    let mut app = BarcleanApp::new();
    let repeated = vec![lens("2", 6.9), lens("3", 2.23), lens("2", 7.5)];
    app.set_lenses(repeated.clone(), "2");
    let once: Vec<(String, u32)> =
        app.lenses().iter().map(|l| (l.id.clone(), l.focal_length_mm)).collect();
    assert_eq!(once.len(), 2);

    let mut twice = repeated.clone();
    twice.extend(repeated);
    app.set_lenses(twice, "2");
    let again: Vec<(String, u32)> =
        app.lenses().iter().map(|l| (l.id.clone(), l.focal_length_mm)).collect();
    assert_eq!(again, once);
}
