//! Generated specimens, the occlusions painted over them, and the captures simulated from them.
use barclean::corpus::degrade::{add_noise, box_blur, jpeg_roundtrip};
use barclean::corpus::symbol::{generate, specimen_of, GenerateError};
use barclean::corpus::{
    composite, degrade, render, Degradation, Logo, LogoKind, Picture, TruthMatrix,
};
use barclean::Symbology;

// ---- symbols ----
#[test]
fn generates_a_qr_with_plausible_geometry() {
    let spec = generate(Symbology::QrCode, "barclean test payload", "M").unwrap();

    assert_eq!(spec.truth.width, spec.truth.height, "QR symbols are square");
    assert_eq!(spec.truth.width, 4 * spec.version as usize + 17);
    assert!((0..=7).contains(&spec.mask), "mask pattern is 0..=7");
    assert_eq!(spec.ec_level, "M");
    assert_eq!(spec.payload, "barclean test payload");
    assert_eq!(spec.modules_across(), spec.truth.width);
}

#[test]
fn finder_patterns_are_where_the_spec_says() {
    let spec = generate(Symbology::QrCode, "finder check", "M").unwrap();
    let t = &spec.truth;
    let n = t.width;

    for &(ox, oy) in &[(0, 0), (n - 7, 0), (0, n - 7)] {
        assert!(t.get(ox, oy), "finder outer corner at ({ox},{oy})");
        assert!(t.get(ox + 3, oy + 3), "finder core centre");
        assert!(!t.get(ox + 1, oy + 1), "finder inner light ring");
        assert!(!t.get(ox + 5, oy + 1), "finder inner light ring");
    }
    assert!(!t.get(n - 1, n - 1) || !t.get(n - 4, n - 4));
}

#[test]
fn timing_patterns_alternate() {
    let spec = generate(Symbology::QrCode, "timing check", "M").unwrap();
    let t = &spec.truth;
    for x in 8..t.width - 8 {
        assert_eq!(
            t.get(x, 6),
            x % 2 == 0,
            "horizontal timing module at x={x} broke the alternation"
        );
    }
    for y in 8..t.height - 8 {
        assert_eq!(t.get(6, y), y % 2 == 0, "vertical timing at y={y}");
    }
}

#[test]
fn differences_counts_module_mismatches() {
    let a = generate(Symbology::QrCode, "same", "M").unwrap().truth;
    let b = generate(Symbology::QrCode, "same", "M").unwrap().truth;
    assert_eq!(a.differences(&b), Some(0), "encoding is deterministic");

    let mut modules = b.modules().to_vec();
    modules[100] = !modules[100];
    modules[200] = !modules[200];
    let c = TruthMatrix::new(b.width, b.height, modules);
    assert_eq!(a.differences(&c), Some(2));
}

#[test]
fn differences_rejects_mismatched_sizes() {
    let a = generate(Symbology::QrCode, "short", "M").unwrap().truth;
    let b = generate(Symbology::QrCode, &"x".repeat(400), "M").unwrap().truth;
    assert_ne!(a.width, b.width);
    assert_eq!(a.differences(&b), None);
}

#[test]
fn higher_ec_level_needs_a_bigger_symbol() {
    let payload = "the same payload at two correction levels";
    let l = generate(Symbology::QrCode, payload, "L").unwrap();
    let h = generate(Symbology::QrCode, payload, "H").unwrap();
    assert!(
        h.truth.width > l.truth.width,
        "H spends far more of the symbol on parity, so it needs more modules"
    );
}

#[test]
fn render_geometry_and_quiet_zone() {
    let spec = generate(Symbology::QrCode, "render check", "M").unwrap();
    let img = render(&spec, 4, 4);

    let expect = (spec.truth.width as u32 + 8) * 4;
    assert_eq!(img.width, expect);
    assert_eq!(img.height, expect);

    assert_eq!(img.get_pixel(0, 0), (255, 255, 255));
    assert_eq!(img.get_pixel(expect - 1, expect - 1), (255, 255, 255));
    assert_eq!(img.get_pixel(4 * 4, 4 * 4), (0, 0, 0));
}

#[test]
fn unwired_symbologies_report_rather_than_panic() {
    for s in [Symbology::Aztec, Symbology::Pdf417, Symbology::DataMatrix] {
        match generate(s, "x", "M") {
            Err(GenerateError::NotWired { symbology }) => assert_eq!(symbology, s),
            other => panic!("{} should report, got {other:?}", s.name()),
        }
    }
}

#[test]
fn bad_ec_level_is_rejected() {
    match generate(Symbology::QrCode, "x", "Z") {
        Err(GenerateError::UnknownLevel { level }) => assert_eq!(level, "Z"),
        other => panic!("got {other:?}"),
    }
}

#[test]
fn a_payload_that_fits_no_symbol_is_refused_by_the_encoder() {
    match generate(Symbology::QrCode, &"x".repeat(5000), "H") {
        Err(GenerateError::EncodeFailed { why }) => assert!(!why.is_empty()),
        other => panic!("got {other:?}"),
    }
    match specimen_of("x", "H", Err("too long".to_string())) {
        Err(GenerateError::EncodeFailed { why }) => assert_eq!(why, "too long"),
        other => panic!("got {other:?}"),
    }
}

// ---- occlusions ----
fn white(w: u32, h: u32) -> Picture {
    Picture::filled(w, h, (255, 255, 255))
}

/// A logo that covers a share of a picture.
fn logo_over(img: &Picture, kind: LogoKind, area_fraction: f32) -> Logo {
    let area = img.width as f32 * img.height as f32 * area_fraction.clamp(0.0, 1.0);
    Logo::new(kind, area.sqrt() as u32)
}

fn cover(img: &mut Picture, kind: LogoKind, area_fraction: f32) -> (u32, u32, u32, u32) {
    let logo = logo_over(img, kind, area_fraction);
    composite(img, &logo)
}

#[test]
fn covers_roughly_the_requested_area() {
    let mut img = white(200, 200);
    let (_, _, w, h) = cover(&mut img, LogoKind::FlatColour, 0.25);
    let covered = (w * h) as f32 / (200.0 * 200.0);
    assert!((covered - 0.25).abs() < 0.01, "covered {covered}, expected about 0.25");
}

#[test]
fn occlusion_is_centred() {
    let mut img = white(200, 200);
    let (x0, y0, w, h) = cover(&mut img, LogoKind::FlatColour, 0.16);
    assert_eq!(x0 + w / 2, 100);
    assert_eq!(y0 + h / 2, 100);
    assert_eq!(img.get_pixel(0, 0), (255, 255, 255));
    assert_eq!(img.get_pixel(199, 199), (255, 255, 255));
}

#[test]
fn textured_logo_actually_varies_within_a_module() {
    let mut img = white(200, 200);
    cover(&mut img, LogoKind::Textured, 0.25);

    let mut seen = std::collections::HashSet::new();
    for y in 100..106 {
        for x in 100..106 {
            seen.insert(img.get_pixel(x, y));
        }
    }
    assert!(
        seen.len() > 20,
        "a 6x6 patch held only {} distinct colours; too flat to be photographic",
        seen.len()
    );
}

#[test]
fn flat_kinds_are_actually_flat() {
    for kind in [LogoKind::FlatColour, LogoKind::NeutralFlat] {
        let mut img = white(200, 200);
        cover(&mut img, kind, 0.25);
        let sample = img.get_pixel(100, 100);
        for y in 100..106 {
            for x in 100..106 {
                assert_eq!(img.get_pixel(x, y), sample, "{kind:?} must be uniform");
            }
        }
    }
}

#[test]
fn neutral_flat_is_the_adversarial_case() {
    let mut img = white(200, 200);
    cover(&mut img, LogoKind::NeutralFlat, 0.25);
    let (r, g, b) = img.get_pixel(100, 100);
    assert_eq!(r, g);
    assert_eq!(g, b);
    assert_eq!(r, 28);
}

#[test]
fn texture_is_reproducible_across_runs() {
    let mut a = white(100, 100);
    let mut b = white(100, 100);
    cover(&mut a, LogoKind::Textured, 0.5);
    cover(&mut b, LogoKind::Textured, 0.5);
    assert_eq!(a, b, "grading runs must be comparable");
}

#[test]
fn zero_and_full_area_are_handled() {
    let mut img = white(100, 100);
    assert_eq!(cover(&mut img, LogoKind::FlatColour, 0.0).2, 0);
    assert_eq!(img.get_pixel(50, 50), (255, 255, 255));

    let (_, _, w, _) = cover(&mut img, LogoKind::FlatColour, 1.0);
    assert_eq!(w, 100, "clamped to the image, not past it");
    assert_eq!(img.get_pixel(0, 0), (201, 42, 58));
}

#[test]
fn a_logo_larger_than_the_picture_covers_the_shorter_side() {
    let mut img = white(30, 20);
    assert_eq!(composite(&mut img, &Logo::new(LogoKind::NeutralFlat, 500)), (5, 0, 20, 20));
    assert_eq!(img.get_pixel(4, 10), (255, 255, 255));
    assert_eq!(img.get_pixel(5, 10), (28, 28, 28));
}

#[test]
fn the_texture_is_the_hash_of_the_place() {
    let mut img = white(9, 9);
    composite(&mut img, &Logo::new(LogoKind::Textured, 9));
    let (x, y) = (3u32, 7u32);
    let mut h = x.wrapping_mul(0x9E37_79B9) ^ y.wrapping_mul(0x85EB_CA6B);
    h ^= h >> 15;
    h = h.wrapping_mul(0xC2B2_AE35);
    h ^= h >> 13;
    let base = 60 + (h & 0x7F) as u8;
    let expect = (
        base.saturating_add(((h >> 8) & 0x3F) as u8),
        base.saturating_sub(((h >> 16) & 0x3F) as u8),
        base.saturating_add(((h >> 24) & 0x1F) as u8),
    );
    assert_eq!(img.get_pixel(x, y), expect);
}

// ---- captures ----
/// A sharp black/white edge: the structure a barcode is made of.
fn edge(w: u32, h: u32) -> Picture {
    let mut img = white(w, h);
    for y in 0..h {
        for x in 0..w / 2 {
            img.put_pixel(x, y, (0, 0, 0));
        }
    }
    img
}

#[test]
fn pristine_is_a_no_op() {
    let img = edge(40, 40);
    assert_eq!(degrade(&img, &Degradation::pristine()), img);
}

#[test]
fn blur_softens_the_edge() {
    let img = edge(40, 40);
    let blurred = box_blur(&img, 2);

    let v = blurred.get_pixel(20, 20).0;
    assert!(v > 0 && v < 255, "edge pixel is still hard at {v}");
    assert_eq!(v, 153, "three of the five columns around it are white");
    assert_eq!(blurred.get_pixel(2, 20).0, 0);
    assert_eq!(blurred.get_pixel(37, 20).0, 255);
}

#[test]
fn noise_perturbs_without_shifting_the_mean() {
    let flat = Picture::filled(64, 64, (128, 128, 128));
    let noisy = add_noise(&flat, 20);

    assert_ne!(noisy, flat, "noise must actually do something");

    let mean: f64 = noisy.pixels.iter().map(|p| p.0 as f64).sum::<f64>() / (64.0 * 64.0);
    assert!(
        (mean - 128.0).abs() < 2.0,
        "noise shifted the mean to {mean}; that would move the binarization threshold"
    );
}

#[test]
fn noise_stays_in_range() {
    for base in [0u8, 128, 255] {
        let flat = Picture::filled(32, 32, (base, base, base));
        let noisy = add_noise(&flat, 60);
        assert_eq!((noisy.width, noisy.height), (32, 32));
    }
}

#[test]
fn degradation_is_reproducible() {
    let img = edge(40, 40);
    let a = degrade(&img, &Degradation::poor_capture());
    let b = degrade(&img, &Degradation::poor_capture());
    assert_eq!(a, b, "grading runs must be comparable across invocations");
}

#[test]
fn jpeg_roundtrip_preserves_geometry_and_adds_artifacts() {
    let img = edge(64, 64);
    let out = jpeg_roundtrip(&img, 40).expect("jpeg roundtrip");
    assert_eq!((out.width, out.height), (img.width, img.height));
    assert_ne!(out, img, "low-quality JPEG must leave visible artifacts");
}

#[test]
fn poor_capture_is_worse_than_good() {
    let img = edge(64, 64);
    let good = degrade(&img, &Degradation::good_capture());
    let poor = degrade(&img, &Degradation::poor_capture());

    let softness = |i: &Picture| -> u32 {
        (0..64)
            .map(|y| {
                let v = i.get_pixel(32, y).0 as i32;
                v.min(255 - v) as u32
            })
            .sum()
    };
    assert!(softness(&poor) > softness(&good), "the poor preset must actually be poorer");
}

#[test]
fn a_picture_without_pixels_is_not_compressed() {
    let img = Picture::filled(0, 0, (0, 0, 0));
    assert!(jpeg_roundtrip(&img, 50).is_none());
    assert_eq!(degrade(&img, &Degradation::good_capture()), img);
}
