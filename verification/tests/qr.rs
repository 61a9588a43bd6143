//! Cleaning QR symbols, rebuilding them, comparing and exporting them.
use barclean::clean::field::{exp_in, mul_in, QR_POLYNOMIAL};
use barclean::clean::qr::{clean_detection, further_of, invert, transpose};
use barclean::clean::{clean_bitmatrix, clean_luma, CleanError, Cleaned};
use barclean::codec::qr_text::{next_segment, Segment};
use barclean::codec::qr::{block_places, provenance, Detection, EcLevel};
use barclean::corpus::symbol::{generate, TruthMatrix};
use barclean::render::{
    compare, from_codewords, quiet_zone_modules, timestamped_name, to_png, ModuleVerdict,
    RebuildError, Reconstructed,
};
use barclean::Symbology;
use rxing::common::BitMatrix;
use rxing::qrcode::decoder::BitMatrixParser;

const PAYLOAD: &str = "https://example.com/barclean/end-to-end?id=0123456789abcdef&\
    session=fedcba9876543210&token=aaaabbbbccccddddeeeeffff";

/// Encodes, then overwrites a centred square of modules the way an opaque logo does.
fn defaced(ec: &str, area: f32) -> (Vec<bool>, usize) {
    let spec = generate(Symbology::QrCode, PAYLOAD, ec).unwrap();
    let n = spec.truth.width;
    let side = ((n * n) as f32 * area).sqrt() as usize;
    let x0 = n.saturating_sub(side) / 2;
    let y0 = n.saturating_sub(side) / 2;

    let mut m = spec.truth.modules().to_vec();
    for y in y0..y0 + side {
        for x in x0..x0 + side {
            m[y * n + x] = true;
        }
    }
    (m, n)
}

fn clean_defaced(ec: &str, area: f32) -> Result<Cleaned, CleanError> {
    let (m, n) = defaced(ec, area);
    clean_bitmatrix(&m, n)
}

// ---- cleaning ----
#[test]
fn clean_symbol_round_trips() {
    let cleaned = clean_defaced("H", 0.0).expect("clean symbol must decode");
    assert_eq!(cleaned.payload, PAYLOAD);
    assert!(!cleaned.needed_barclean(), "nothing to rescue");
    assert_eq!(cleaned.blocks_rescued(), 0);
    assert!(cleaned.damaged_modules.is_empty());
}

#[test]
fn recovers_symbols_stock_decoding_cannot_read() {
    let mut recovered: Vec<(String, u32, usize, usize)> = Vec::new();

    for ec in ["L", "M", "Q", "H"] {
        for step in 1..=45u32 {
            let area = step as f32 * 0.01;
            if let Ok(c) = clean_defaced(ec, area) {
                if c.needed_barclean() {
                    assert_eq!(
                        c.payload, PAYLOAD,
                        "ECC-{ec} at {step}%: recovered the wrong payload, which is far worse \
                         than failing"
                    );
                    recovered.push((
                        ec.to_string(),
                        step,
                        c.blocks_decoded_initially,
                        c.blocks_total,
                    ));
                }
            }
        }
    }

    println!("\nrecovered where stock decoding could not:");
    for (ec, step, initial, total) in &recovered {
        println!("  ECC-{ec} {step:>3}%  stock {initial}/{total} -> barclean {total}/{total}");
    }

    assert!(
        !recovered.is_empty(),
        "no occlusion level at any ECC level was both fatal to stock decoding and recoverable here"
    );
}

#[test]
fn damage_map_concentrates_inside_the_occlusion() {
    let area = 0.20f32;
    let cleaned = clean_defaced("H", area).expect("recover");
    let n = cleaned.dimension;
    let side = ((n * n) as f32 * area).sqrt() as usize;
    let x0 = n.saturating_sub(side) / 2;
    let y0 = n.saturating_sub(side) / 2;

    assert!(!cleaned.damaged_modules.is_empty());
    let inside = cleaned
        .damaged_modules
        .iter()
        .filter(|&&m| {
            let (x, y) = (m % n, m / n);
            x >= x0 && x < x0 + side && y >= y0 && y < y0 + side
        })
        .count();
    let fraction = inside as f32 / cleaned.damaged_modules.len() as f32;
    assert!(
        fraction > 0.5,
        "only {:.0}% of the damage map fell inside the occlusion",
        fraction * 100.0
    );
}

#[test]
fn hopeless_damage_reports_how_far_it_got() {
    match clean_defaced("L", 0.45) {
        Err(CleanError::Unrecoverable { blocks_total, blocks_decoded }) => {
            assert!(blocks_total > 0);
            assert!(blocks_decoded < blocks_total);
        }
        Err(other) => panic!("expected Unrecoverable, got {other:?}"),
        Ok(c) => panic!("45% at ECC-L should not recover, got {:?}", c.payload),
    }
}

#[test]
fn a_defaced_symbol_reconstructs_to_the_pristine_original() {
    let pristine = generate(Symbology::QrCode, PAYLOAD, "H").unwrap();

    let cleaned = clean_defaced("H", 0.20).expect("recover");
    assert_eq!(cleaned.payload, PAYLOAD);

    let rebuilt = cleaned.reconstruct().expect("reconstruct");
    assert_eq!(rebuilt.dimension, pristine.truth.width);
    assert_eq!(
        rebuilt.differences(pristine.truth.modules()),
        Some(0),
        "the rebuilt symbol is not bit-identical to the original"
    );
}

#[test]
fn reconstruction_survives_a_bootstrapped_rescue() {
    let pristine = generate(Symbology::QrCode, PAYLOAD, "Q").unwrap();

    let mut proved = false;
    for step in 19..=25u32 {
        let Ok(cleaned) = clean_defaced("Q", step as f32 * 0.01) else {
            continue;
        };
        if !cleaned.needed_barclean() {
            continue;
        }
        proved = true;
        let rebuilt = cleaned.reconstruct().expect("reconstruct after rescue");
        assert_eq!(
            rebuilt.differences(pristine.truth.modules()),
            Some(0),
            "rescued at {step}%: rebuilt symbol differs from the original"
        );
    }
    assert!(proved, "no bootstrapped rescue occurred, so nothing was proved");
}

#[test]
fn a_mirrored_symbol_is_read_and_rebuilt_upright() {
    let (m, n) = defaced("H", 0.1);
    let cleaned = clean_bitmatrix(&transpose(&m, n), n).expect("mirrored");
    assert_eq!(cleaned.payload, PAYLOAD);
    assert_eq!(cleaned.sampled, m, "the sampled modules are turned with the rebuild");
}

#[test]
fn payloads_of_every_kind_come_back() {
    for payload in ["7", "A", "\u{0}\u{1}", "Ünicode", "日本語のテキスト", "🙂 mixed ÿ", "%%", " "] {
        let spec = generate(Symbology::QrCode, payload, "L").unwrap();
        let cleaned = clean_bitmatrix(spec.truth.modules(), spec.truth.width).unwrap();
        assert_eq!(cleaned.payload, payload);
    }
}

#[test]
fn modules_that_are_no_symbol_are_refused() {
    assert_eq!(clean_bitmatrix(&[], 0).unwrap_err(), CleanError::Unreadable);
    assert_eq!(clean_bitmatrix(&[true; 9], 3).unwrap_err(), CleanError::Unreadable);
    assert!(clean_bitmatrix(&[true; 21 * 21], 21).is_err());
}

#[test]
fn a_detected_symbol_keeps_its_finder_centres() {
    let (m, n) = defaced("M", 0.0);
    let points: Vec<(u32, u32)> =
        [(3.5f32, 3.5f32), (17.5, 3.5), (3.5, 17.5)].iter().map(|p| (p.0.to_bits(), p.1.to_bits())).collect();
    let cleaned =
        clean_detection(Detection { dimension: n, modules: m, points: points.clone() }).unwrap();
    assert_eq!(cleaned.points, points);
    assert_eq!(cleaned.payload, PAYLOAD);
}

#[test]
fn a_rendered_symbol_is_located_at_its_scale() {
    let (m, n) = defaced("M", 0.0);
    let symbol = Reconstructed::from_modules(n, n, m).unwrap();
    let (luma, w, h) = symbol.to_luma(6, 4);
    let cleaned = clean_luma(&luma, w as u32, h as u32).unwrap();
    assert_eq!(cleaned.payload, PAYLOAD);
    let at = |i: usize| {
        (f32::from_bits(cleaned.points[i].0), f32::from_bits(cleaned.points[i].1))
    };
    let (a, b) = (at(0), at(1));
    let span = ((a.0 - b.0).powi(2) + (a.1 - b.1).powi(2)).sqrt();
    let pitch = span / (n - 7) as f32;
    assert!((pitch - 6.0).abs() < 0.1, "measured {pitch} pixels per module");
}

#[test]
fn a_blank_image_holds_no_qr_symbol() {
    assert_eq!(clean_luma(&[255; 10000], 100, 100).unwrap_err(), CleanError::NotDetected);
    assert_eq!(clean_luma(&[], 0, 0).unwrap_err(), CleanError::NotDetected);
    assert_eq!(clean_luma(&[0; 5], 100, 100).unwrap_err(), CleanError::NotDetected);
}

#[test]
fn the_failure_that_got_further_is_reported() {
    let some = CleanError::Unrecoverable { blocks_total: 4, blocks_decoded: 1 };
    let more = CleanError::Unrecoverable { blocks_total: 4, blocks_decoded: 3 };
    assert_eq!(further_of(CleanError::NotDetected, CleanError::Unreadable), CleanError::Unreadable);
    assert_eq!(further_of(some, CleanError::Unreadable), some);
    assert_eq!(further_of(some, more), more);
    assert_eq!(further_of(more, some), more);
}

#[test]
fn failures_are_told_in_words() {
    assert_eq!(CleanError::NotDetected.message(), "no symbol found");
    assert_eq!(CleanError::Unreadable.message(), "symbol found but unreadable");
    assert_eq!(
        CleanError::Unrecoverable { blocks_total: 12, blocks_decoded: 7 }.message(),
        "recovered 7/12 blocks"
    );
}

#[test]
fn inverting_twice_changes_nothing() {
    let luma: Vec<u8> = (0..=255).collect();
    let negative = invert(&luma);
    assert_eq!(negative[0], 255);
    assert_eq!(negative[255], 0);
    assert_eq!(negative[100], 155);
    assert_eq!(invert(&negative), luma);
}

#[test]
fn codewords_lie_where_the_walk_puts_them() {
    // A version 1 symbol: 26 codewords, the first from the bottom right corner upwards.
    let places = provenance(1).unwrap();
    assert_eq!(places.len(), 26);
    let cell = |x: usize, y: usize| y * 21 + x;
    assert_eq!(
        places[0],
        vec![
            cell(20, 20),
            cell(19, 20),
            cell(20, 19),
            cell(19, 19),
            cell(20, 18),
            cell(19, 18),
            cell(20, 17),
            cell(19, 17),
        ]
    );
    assert_eq!(provenance(40).unwrap().len(), 3706);
}

// ---- rebuilding ----
/// Reads a symbol's codewords, mask and structure back out of its matrix.
fn parse(truth: &TruthMatrix) -> (Vec<u8>, u32, EcLevel, i32) {
    let n = truth.width;
    let mut m = BitMatrix::new(n as u32, n as u32).unwrap();
    for y in 0..n {
        for x in 0..n {
            if truth.get(x, y) {
                m.set(x as u32, y as u32);
            }
        }
    }
    let mut parser = BitMatrixParser::new(m).unwrap();
    let version = parser.readVersion().unwrap().getVersionNumber();
    let format = parser.readFormatInformation().unwrap();
    let ec = EcLevel::from_bits(format.getErrorCorrectionLevel().get_value());
    let mask = format.getDataMask() as i32;
    let codewords = parser.readCodewords().unwrap();
    (codewords, version, ec, mask)
}

#[test]
fn rebuilds_a_symbol_bit_for_bit() {
    for ec in ["L", "M", "Q", "H"] {
        for payload in [
            "12345678901234567890",
            "HELLO WORLD $%*+-./: 42",
            "https://example.com/x?a=1&b=2",
            "mixed 123 ABC and lowercase bytes",
        ] {
            let spec = generate(Symbology::QrCode, payload, ec).unwrap();
            let (codewords, version, ec_level, mask) = parse(&spec.truth);

            let rebuilt = from_codewords(&codewords, version, ec_level, mask)
                .unwrap_or_else(|e| panic!("ECC-{ec} {payload:?}: {}", e.message()));

            assert_eq!(rebuilt.dimension, spec.truth.width);
            assert_eq!(
                rebuilt.differences(spec.truth.modules()),
                Some(0),
                "ECC-{ec} {payload:?}: rebuilt symbol differs from the original"
            );
        }
    }
}

#[test]
fn symbols_of_every_version_read_as_they_were_built() {
    for version in 1..=40u32 {
        let places = provenance(version).unwrap();
        let n = places.len();
        let mut modules: Vec<usize> = places.iter().flatten().copied().collect();
        modules.sort_unstable();
        modules.dedup();
        assert_eq!(modules.len(), 8 * n, "version {version} has a module twice");

        let codewords: Vec<u8> =
            (0..n).map(|k| (k * 73 + k * k * 5 + version as usize) as u8).collect();
        for (at, ec) in [EcLevel::L, EcLevel::M, EcLevel::Q, EcLevel::H].into_iter().enumerate() {
            let mask = (version as i32 + at as i32) % 8;
            let built = from_codewords(&codewords, version, ec, mask).unwrap();
            let truth = TruthMatrix::new(built.dimension, built.dimension, built.modules);
            let read = parse(&truth);
            assert_eq!((read.1, read.2, read.3), (version, ec, mask));
            assert_eq!(read.0, codewords, "version {version}");

            let mut taken = vec![false; n];
            for (count, stream) in block_places(version, ec.bits(), n).unwrap() {
                assert!(count <= stream.len() && stream.len() <= 255);
                for g in stream {
                    assert!(!taken[g], "version {version} deals {g} twice");
                    taken[g] = true;
                }
            }
            assert!(taken.iter().all(|&t| t), "version {version} leaves codewords out");
        }
    }
}

#[test]
fn rebuilt_symbol_still_decodes() {
    let spec = generate(Symbology::QrCode, "round trip check", "Q").unwrap();
    let (codewords, version, ec_level, mask) = parse(&spec.truth);
    let rebuilt = from_codewords(&codewords, version, ec_level, mask).unwrap();

    let (luma, w, h) = rebuilt.to_luma(6, 4);
    let decoded = rxing::helpers::detect_in_luma(luma, w as u32, h as u32, None)
        .expect("a rebuilt symbol must be scannable");
    assert_eq!(decoded.getText(), "round trip check");
}

#[test]
fn quiet_zone_is_present_and_light() {
    let spec = generate(Symbology::QrCode, "quiet zone", "M").unwrap();
    let (codewords, version, ec_level, mask) = parse(&spec.truth);
    let rebuilt = from_codewords(&codewords, version, ec_level, mask).unwrap();

    let (luma, w, _) = rebuilt.to_luma(4, 4);
    assert_eq!(luma[0], 255, "top-left corner must be quiet zone");
    assert_eq!(luma[w - 1], 255);
    assert_eq!(luma[luma.len() - 1], 255);
    assert_eq!(luma[(4 * 4) * w + (4 * 4)], 0);
}

#[test]
fn wrong_codeword_count_is_rejected() {
    let err = from_codewords(&[0u8; 3], 5, EcLevel::M, 0)
        .expect_err("a short stream cannot be a version 5 symbol");
    let said = err.message();
    assert!(said.contains("expected"), "unhelpful error: {said}");
}

#[test]
fn out_of_range_mask_is_rejected() {
    let spec = generate(Symbology::QrCode, "mask range", "M").unwrap();
    let (codewords, version, ec_level, _) = parse(&spec.truth);
    assert!(from_codewords(&codewords, version, ec_level, 8).is_err());
    assert!(from_codewords(&codewords, version, ec_level, -1).is_err());
}

#[test]
fn symbols_are_as_large_as_their_modules() {
    assert!(Reconstructed::from_modules(3, 2, vec![true; 5]).is_none());
    let s = Reconstructed::from_modules(3, 2, vec![true, false, true, false, true, false]).unwrap();
    assert!(s.get(2, 0) && s.get(1, 1) && !s.get(0, 1));
    assert_eq!(s.differences(&[true; 6]), Some(3));
    assert_eq!(s.differences(&[true; 5]), None);
    let (luma, w, h) = s.to_luma(2, 1);
    assert_eq!((w, h), (10, 8));
    assert_eq!(luma[2 * w + 2], 0);
    assert_eq!(luma[3 * w + 3], 0);
    assert_eq!(luma[2 * w + 4], 255);
}

// ---- comparing and exporting ----
fn rebuilt_symbol(payload: &str, ec: &str) -> (Reconstructed, Vec<bool>) {
    let spec = generate(Symbology::QrCode, payload, ec).unwrap();
    let (codewords, version, ec_level, mask) = parse(&spec.truth);
    let rebuilt = from_codewords(&codewords, version, ec_level, mask).unwrap();
    (rebuilt, spec.truth.modules().to_vec())
}

#[test]
fn an_undamaged_scan_shows_no_recovered_modules() {
    let (rebuilt, sampled) = rebuilt_symbol("nothing to recover", "M");
    let verdicts = compare(&rebuilt, &sampled).expect("same size");

    assert_eq!(verdicts.len(), rebuilt.dimension * rebuilt.dimension);
    assert_eq!(
        verdicts.iter().filter(|v| v.recovered()).count(),
        0,
        "an undamaged symbol should be entirely blue and green"
    );
    assert!(verdicts.contains(&ModuleVerdict::MatchedLight));
    assert!(verdicts.contains(&ModuleVerdict::MatchedDark));
}

#[test]
fn flipped_modules_are_marked_recovered_with_the_true_value() {
    let (rebuilt, mut sampled) = rebuilt_symbol("damage marking", "H");
    let n = rebuilt.dimension;
    let mid = n / 2;
    for x in (mid - 3)..(mid + 3) {
        sampled[mid * n + x] = !sampled[mid * n + x];
    }

    let verdicts = compare(&rebuilt, &sampled).unwrap();
    assert_eq!(verdicts.iter().filter(|v| v.recovered()).count(), 6);

    for x in (mid - 3)..(mid + 3) {
        let v = verdicts[mid * n + x];
        assert!(v.recovered(), "({x},{mid}) should read as recovered");
        let expected = if rebuilt.get(x, mid) {
            ModuleVerdict::RecoveredDark
        } else {
            ModuleVerdict::RecoveredLight
        };
        assert_eq!(v, expected);
    }
}

#[test]
fn mismatched_sizes_refuse_to_compare() {
    let (rebuilt, _) = rebuilt_symbol("size check", "M");
    assert!(compare(&rebuilt, &[true, false]).is_none());
}

#[test]
fn every_verdict_has_a_distinct_colour() {
    let colours: Vec<_> = [
        ModuleVerdict::MatchedLight,
        ModuleVerdict::MatchedDark,
        ModuleVerdict::RecoveredLight,
        ModuleVerdict::RecoveredDark,
        ModuleVerdict::PlainLight,
        ModuleVerdict::PlainDark,
    ]
    .iter()
    .map(|v| v.rgb())
    .collect();
    for i in 0..colours.len() {
        for j in (i + 1)..colours.len() {
            assert_ne!(colours[i], colours[j], "verdict colours must be tellable apart");
        }
    }
}

#[test]
fn png_is_valid_black_and_white_and_still_scans() {
    let (rebuilt, _) = rebuilt_symbol("https://example.com/png-export", "Q");
    let png = to_png(&rebuilt, Symbology::QrCode, 8, false).expect("encode");

    assert_eq!(&png[1..4], b"PNG", "not a PNG");

    let decoded = image::load_from_memory(&png).expect("decodable").to_luma8();
    let expected = (rebuilt.dimension + 2 * 4) * 8;
    assert_eq!(decoded.dimensions(), (expected as u32, expected as u32));

    assert!(
        decoded.pixels().all(|p| p.0[0] == 0 || p.0[0] == 255),
        "export contains grey pixels"
    );

    let (w, h) = decoded.dimensions();
    let scanned = rxing::helpers::detect_in_luma(decoded.into_raw(), w, h, None)
        .expect("exported PNG must be scannable");
    assert_eq!(scanned.getText(), "https://example.com/png-export");
}

#[test]
fn quiet_zone_matches_each_symbology() {
    assert_eq!(quiet_zone_modules(Symbology::QrCode), 4);
    assert_eq!(quiet_zone_modules(Symbology::Aztec), 4);
    assert_eq!(quiet_zone_modules(Symbology::DataMatrix), 1);
    assert_eq!(quiet_zone_modules(Symbology::Pdf417), 2);
}

#[test]
fn filename_is_the_requested_format() {
    assert_eq!(timestamped_name(2016, 8, 10, 14, 33, 48), "2016-08-10 14:33:48.png");
    assert_eq!(timestamped_name(2026, 1, 2, 3, 4, 5), "2026-01-02 03:04:05.png");
    assert_eq!(timestamped_name(-5, 12, 31, 23, 59, 59), format!("{:04}-12-31 23:59:59.png", -5));
}

#[test]
fn inverted_export_is_the_photographic_negative_and_still_scans() {
    let (rebuilt, _) = rebuilt_symbol("https://example.com/inverted", "Q");
    let normal = to_png(&rebuilt, Symbology::QrCode, 8, false).unwrap();
    let inverted = to_png(&rebuilt, Symbology::QrCode, 8, true).unwrap();

    let n = image::load_from_memory(&normal).unwrap().to_luma8();
    let i = image::load_from_memory(&inverted).unwrap().to_luma8();
    assert_eq!(n.dimensions(), i.dimensions());
    assert!(
        n.pixels().zip(i.pixels()).all(|(a, b)| a.0[0] == 255 - b.0[0]),
        "inverted export is not the exact negative"
    );
    assert_eq!(i.get_pixel(0, 0).0[0], 0);
}

#[test]
fn verdict_brightness_tracks_module_value() {
    let luma = |v: ModuleVerdict| {
        let (r, g, b) = v.rgb();
        0.299 * r as f32 + 0.587 * g as f32 + 0.114 * b as f32
    };
    assert!(luma(ModuleVerdict::MatchedLight) > luma(ModuleVerdict::MatchedDark));
    assert!(luma(ModuleVerdict::RecoveredLight) > luma(ModuleVerdict::RecoveredDark));
}

#[test]
fn plain_verdicts_carry_no_claim_of_comparison() {
    assert!(!ModuleVerdict::PlainLight.compared());
    assert!(!ModuleVerdict::PlainDark.compared());
    assert!(ModuleVerdict::MatchedLight.compared());
    assert!(ModuleVerdict::RecoveredDark.compared());

    assert_eq!(ModuleVerdict::PlainLight.rgb(), (255, 255, 255));
    assert_eq!(ModuleVerdict::PlainDark.rgb(), (0, 0, 0));
}

#[test]
fn comparison_colours_are_fully_saturated_primaries() {
    for v in [
        ModuleVerdict::MatchedLight,
        ModuleVerdict::MatchedDark,
        ModuleVerdict::RecoveredLight,
        ModuleVerdict::RecoveredDark,
    ] {
        let (r, g, b) = v.rgb();
        assert!(
            [r, g, b].iter().all(|&c| c == 0 || c == 255),
            "{v:?} is not a primary: {:?}",
            v.rgb()
        );
    }
}

#[test]
fn rebuild_failures_are_told_apart() {
    let (codewords, version, ec, mask) = parse(&generate(Symbology::QrCode, "x", "M").unwrap().truth);
    assert!(matches!(
        from_codewords(&codewords[1..], version, ec, mask),
        Err(RebuildError::WrongCount { .. })
    ));
    assert!(matches!(
        from_codewords(&codewords, version, ec, 8),
        Err(RebuildError::MaskOutOfRange { mask: 8 })
    ));
    assert!(matches!(
        from_codewords(&codewords, 41, ec, mask),
        Err(RebuildError::UnknownVersion { version: 41 })
    ));
    let mut cleaned = clean_defaced("M", 0.0).unwrap();
    cleaned.ec_level = "Z".to_string();
    let failed = cleaned.reconstruct().unwrap_err();
    assert!(matches!(failed, RebuildError::UnknownLevel { .. }));
    assert_eq!(failed.message(), "unknown error-correction level Z");
    assert_eq!(
        RebuildError::MaskOutOfRange { mask: -1 }.message(),
        "mask pattern -1 out of range"
    );
    assert_eq!(
        RebuildError::WrongCount { expected: 134, version: 5, got: 3 }.message(),
        "expected 134 codewords for version 5, got 3"
    );
}

// ---- streams ----
/// Packs fields of a number of bits, first the most significant, into nineteen bytes.
fn packed(fields: &[(u32, usize)]) -> Vec<u8> {
    let mut stream = vec![0u8; 19];
    let mut at = 0;
    for &(value, long) in fields {
        for k in (0..long).rev() {
            if value >> k & 1 == 1 {
                stream[at / 8] |= 0x80 >> (at % 8);
            }
            at += 1;
        }
    }
    stream
}

/// Reads the version 1-L symbol with a stream in it.
fn read_stream(stream: &[u8]) -> Result<Cleaned, CleanError> {
    let mut generator = vec![1u8];
    for j in 0..7 {
        let root = exp_in(QR_POLYNOMIAL, j);
        let mut next = generator.clone();
        next.push(0);
        for (i, &c) in generator.iter().enumerate() {
            next[i + 1] ^= mul_in(QR_POLYNOMIAL, c, root);
        }
        generator = next;
    }
    let mut codewords = stream.to_vec();
    codewords.extend([0u8; 7]);
    for i in 0..stream.len() {
        let lead = codewords[i];
        for (j, &g) in generator.iter().enumerate() {
            codewords[i + j] ^= mul_in(QR_POLYNOMIAL, lead, g);
        }
    }
    codewords[..stream.len()].copy_from_slice(stream);
    let symbol = from_codewords(&codewords, 1, EcLevel::L, 0).unwrap();
    clean_bitmatrix(symbol.modules(), symbol.dimension)
}

const PERCENT_A: (u32, usize) = (38 * 45 + 10, 11);

#[test]
fn segments_are_where_their_counts_say() {
    let stream = packed(&[(5, 4), (2, 4), (2, 9), PERCENT_A, (1, 4), (1, 10), (7, 4)]);
    let first = next_segment(&stream, 1, 0).unwrap();
    assert_eq!(first, Segment { mode: 5, count: 0, start: 4, end: 4 });
    let second = next_segment(&stream, 1, 4).unwrap();
    assert_eq!(second, Segment { mode: 2, count: 2, start: 17, end: 28 });
    let third = next_segment(&stream, 1, 28).unwrap();
    assert_eq!(third, Segment { mode: 1, count: 1, start: 42, end: 46 });
    assert!(next_segment(&stream, 1, 46).is_none());
    // The count of a numeric segment is longer from version ten on.
    assert_eq!(next_segment(&packed(&[(1, 4), (3, 12)]), 10, 0).unwrap().start, 16);
    // One that says more than there is.
    assert!(next_segment(&packed(&[(4, 4), (200, 8)]), 1, 0).is_none());
}

#[test]
fn a_separator_with_nothing_before_it_is_not_read() {
    // Under FNC1, a percent sign in the first characters. The mirrored reading, of which no block
    // decodes, is the one that is told of.
    let stream = packed(&[(5, 4), (2, 4), (2, 9), PERCENT_A]);
    assert_eq!(
        read_stream(&stream).unwrap_err(),
        CleanError::Unrecoverable { blocks_total: 1, blocks_decoded: 0 }
    );
    // Without FNC1 it is a percent sign, and behind a digit a separator.
    let stream = packed(&[(2, 4), (2, 9), PERCENT_A]);
    assert_eq!(read_stream(&stream).unwrap().payload, "%A");
    let stream = packed(&[(5, 4), (1, 4), (1, 10), (7, 4), (2, 4), (2, 9), PERCENT_A]);
    assert_eq!(read_stream(&stream).unwrap().payload, "7\u{1d}A");
    let stream = packed(&[(5, 4), (2, 4), (2, 9), (10 * 45 + 11, 11)]);
    assert_eq!(read_stream(&stream).unwrap().payload, "AB");
}
