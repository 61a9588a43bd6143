//! All four symbologies, through the entry points that the camera uses.
use barclean::clean::any::{accept, recognise};
use barclean::clean::field::{exp_in, mul_in, DATA_MATRIX_POLYNOMIAL};
use barclean::clean::pdf417::{
    self, clean_reading, clean_scan, decode_rows, max_codeword_width, min_codeword_width, redraw, restore, CleanedPdf417,
    Pdf417Layout, RowBounds, RowScan,
};
use barclean::clean::{aztec, clean, clean_luma, datamatrix, CleanError, Fidelity};
use barclean::codec::datamatrix::{block_places, codeword_places, Sampled};
use barclean::codec::datamatrix_fit::room_of;
use barclean::codec::formats::Scan;
use barclean::codec::pdf417::{pattern_table, Located};
use barclean::feed::{decode_frame, Frame};
use barclean::render::{to_png, ModuleVerdict, Reconstructed};
use barclean::Symbology;
use rxing::common::BitMatrix;
use rxing::{BarcodeFormat, EncodeHints, MultiFormatWriter, Writer};

fn format_of(symbology: Symbology) -> BarcodeFormat {
    match symbology {
        Symbology::QrCode => BarcodeFormat::QR_CODE,
        Symbology::Aztec => BarcodeFormat::AZTEC,
        Symbology::Pdf417 => BarcodeFormat::PDF_417,
        Symbology::DataMatrix => BarcodeFormat::DATA_MATRIX,
    }
}

fn encode(format: BarcodeFormat, payload: &str) -> BitMatrix {
    MultiFormatWriter
        .encode_with_hints(payload, &format, 0, 0, &EncodeHints::default())
        .unwrap_or_else(|e| panic!("{format:?} encode failed: {e}"))
}

/// Encodes a symbol and renders it at `scale` pixels per module with a quiet zone of four.
fn render_luma(format: BarcodeFormat, payload: &str, scale: u32) -> (Vec<u8>, u32, u32) {
    let matrix = encode(format, payload);
    let (mw, mh) = (matrix.getWidth(), matrix.getHeight());
    let quiet = 4;
    let w = (mw + 2 * quiet) * scale;
    let h = (mh + 2 * quiet) * scale;
    let mut luma = vec![255u8; (w * h) as usize];
    for my in 0..mh {
        for mx in 0..mw {
            if !matrix.get(mx, my) {
                continue;
            }
            for dy in 0..scale {
                for dx in 0..scale {
                    let x = (mx + quiet) * scale + dx;
                    let y = (my + quiet) * scale + dy;
                    luma[(y * w + x) as usize] = 0;
                }
            }
        }
    }
    (luma, w, h)
}

fn blot(luma: &mut [u8], w: u32, h: u32, bx: u32, by: u32, bw: u32, bh: u32) {
    for y in by..(by + bh).min(h) {
        for x in bx..(bx + bw).min(w) {
            luma[(y * w + x) as usize] = 0;
        }
    }
}

fn negate(luma: &mut [u8]) {
    for p in luma.iter_mut() {
        *p = 255 - *p;
    }
}

fn stock(luma: Vec<u8>, w: u32, h: u32) -> String {
    rxing::helpers::detect_in_luma(luma, w, h, None).expect("must scan").getText().to_string()
}

// ---- any symbology ----
const ANY: &str = "barclean all formats 0123456789";

#[test]
fn every_symbology_cleans_and_restores() {
    for symbology in Symbology::ALL {
        let (luma, w, h) = render_luma(format_of(symbology), ANY, 8);
        let cleaned = clean(&luma, w, h)
            .unwrap_or_else(|e| panic!("{:?} did not clean: {}", symbology.name(), e.message()));

        assert_eq!(cleaned.symbology, symbology, "wrong symbology reported");
        assert_eq!(cleaned.payload, ANY, "{}: payload mismatch", symbology.name());
        assert!(!cleaned.source_inverted);
        assert!(!cleaned.needed_barclean());

        let expected = if symbology == Symbology::QrCode {
            Fidelity::Exact
        } else {
            Fidelity::Reencoded
        };
        assert_eq!(cleaned.fidelity, expected, "{}", symbology.name());
    }
}

#[test]
fn every_restoration_scans_back_to_the_original_payload() {
    for symbology in Symbology::ALL {
        let (luma, w, h) = render_luma(format_of(symbology), ANY, 8);
        let cleaned = clean(&luma, w, h).unwrap();

        let png = to_png(&cleaned.rebuilt, symbology, 8, false).unwrap();
        let img = image::load_from_memory(&png).unwrap().to_luma8();
        let (iw, ih) = img.dimensions();
        assert_eq!(stock(img.into_raw(), iw, ih), ANY, "{}", symbology.name());
    }
}

#[test]
fn inverted_sources_are_read_for_every_symbology() {
    for symbology in Symbology::ALL {
        let (mut luma, w, h) = render_luma(format_of(symbology), ANY, 8);
        negate(&mut luma);
        let cleaned = clean(&luma, w, h).unwrap_or_else(|e| {
            panic!("inverted {} did not clean: {}", symbology.name(), e.message())
        });
        assert_eq!(cleaned.payload, ANY);
        assert!(
            cleaned.source_inverted,
            "{} read via the inverted path but was not marked",
            symbology.name()
        );
    }
}

#[test]
fn only_qr_carries_a_comparable_sampled_matrix() {
    for symbology in Symbology::ALL {
        let (luma, w, h) = render_luma(format_of(symbology), ANY, 8);
        let cleaned = clean(&luma, w, h).unwrap();
        if symbology == Symbology::QrCode {
            let sampled = cleaned.sampled.as_ref().expect("QR must carry its sampled matrix");
            assert_eq!(sampled.len(), cleaned.rebuilt.modules().len());
        } else {
            assert!(cleaned.sampled.is_none(), "{}", symbology.name());
        }
    }
}

#[test]
fn any_a_blank_image_is_not_detected() {
    let luma = vec![255u8; 200 * 200];
    assert!(matches!(clean(&luma, 200, 200), Err(CleanError::NotDetected)));
}

#[test]
fn other_symbologies_are_not_accepted() {
    let (luma, w, h) = render_luma(BarcodeFormat::CODE_128, "not a matrix code", 4);
    assert!(matches!(clean(&luma, w, h), Err(CleanError::NotDetected)));
    let scan = Scan { symbology: None, payload: "x".to_string(), format: "y".to_string() };
    assert!(recognise(Some(scan), None).is_err());
}

#[test]
fn the_upright_reading_counts_before_the_negative() {
    let read = |payload: &str| Scan {
        symbology: Some(Symbology::Aztec),
        payload: payload.to_string(),
        format: "aztec".to_string(),
    };
    let (symbology, payload, inverted) = recognise(Some(read("a")), Some(read("b"))).unwrap();
    assert_eq!((symbology, payload.as_str(), inverted), (Symbology::Aztec, "a", false));
    let (_, payload, inverted) = recognise(None, Some(read("b"))).unwrap();
    assert_eq!((payload.as_str(), inverted), ("b", true));
    assert_eq!(recognise(None, None).unwrap_err(), CleanError::NotDetected);
}

#[test]
fn a_restoration_that_reads_otherwise_is_refused() {
    let symbol = || Reconstructed::from_modules(1, 1, vec![true]).unwrap();
    let read = |payload: &str| Scan {
        symbology: Some(Symbology::Aztec),
        payload: payload.to_string(),
        format: "aztec".to_string(),
    };
    let payload = "same".to_string();
    assert!(accept(&payload, symbol(), Some(read("same"))).is_ok());
    assert_eq!(accept(&payload, symbol(), Some(read("other"))).unwrap_err(), CleanError::Unreadable);
    assert_eq!(accept(&payload, symbol(), None).unwrap_err(), CleanError::Unreadable);
}

#[test]
fn labels_and_names_are_as_shown() {
    assert_eq!(Fidelity::Exact.label(), "exact restoration");
    assert_eq!(Fidelity::Reencoded.label(), "re-encoded");
    let names: Vec<&str> = Symbology::ALL.iter().map(|s| s.name()).collect();
    assert_eq!(names, vec!["QR Code", "Aztec", "PDF417", "DataMatrix"]);
    for s in Symbology::ALL {
        assert_eq!(s.centre_occlusion_breaks_detection(), s == Symbology::Aztec);
    }
}

// ---- the camera's entry point ----
const READ: &str = "barclean symbology coverage 0123456789";

#[test]
fn qr_goes_through_the_cleaner() {
    let (luma, w, h) = render_luma(BarcodeFormat::QR_CODE, READ, 6);
    let cleaned = clean_luma(&luma, w, h).expect("QR must decode through the cleaning path");
    assert_eq!(cleaned.payload, READ);
    assert!(cleaned.blocks_total > 0);
}

#[test]
fn aztec_is_read_even_though_cleaning_is_not_wired() {
    let (luma, w, h) = render_luma(BarcodeFormat::AZTEC, READ, 8);
    match clean_luma(&luma, w, h) {
        Ok(c) => panic!("unexpected: Aztec went through the QR cleaner as {:?}", c.payload),
        Err(e) => {
            let stock = rxing::helpers::detect_in_luma(luma, w, h, None).unwrap_or_else(|_| {
                panic!("stock decode must read a clean Aztec (cleaner said {})", e.message())
            });
            assert_eq!(stock.getText(), READ);
            assert_eq!(*stock.getBarcodeFormat(), BarcodeFormat::AZTEC);
        }
    }
}

#[test]
fn datamatrix_and_pdf417_are_read_by_the_fallback() {
    for (format, scale) in [(BarcodeFormat::DATA_MATRIX, 8u32), (BarcodeFormat::PDF_417, 6)] {
        let (luma, w, h) = render_luma(format, READ, scale);
        assert_eq!(stock(luma, w, h), READ, "{format:?} payload mismatch");
    }
}

#[test]
fn inverted_source_decodes_and_round_trips_polarity() {
    let (mut luma, w, h) = render_luma(BarcodeFormat::QR_CODE, READ, 6);
    negate(&mut luma);

    let cleaned = clean_luma(&luma, w, h).expect("a light-on-dark QR must still decode");
    assert_eq!(cleaned.payload, READ);
    assert!(
        cleaned.source_inverted,
        "the inverted path decoded it, so it must be recorded as inverted"
    );

    let rebuilt = cleaned.reconstruct().expect("reconstruct");
    let png =
        to_png(&rebuilt, Symbology::QrCode, 8, cleaned.source_inverted).expect("encode");
    let img = image::load_from_memory(&png).unwrap().to_luma8();
    assert_eq!(
        img.get_pixel(0, 0).0[0],
        0,
        "quiet zone should be dark for a light-on-dark restoration"
    );

    let (iw, ih) = img.dimensions();
    let rescanned =
        clean_luma(&img.into_raw(), iw, ih).expect("inverted export must round-trip");
    assert_eq!(rescanned.payload, READ);
    assert!(rescanned.source_inverted, "the export is light-on-dark");
}

#[test]
fn upright_export_is_readable_by_a_stock_decoder() {
    let (mut luma, w, h) = render_luma(BarcodeFormat::QR_CODE, READ, 6);
    negate(&mut luma);
    let cleaned = clean_luma(&luma, w, h).expect("decode");
    let rebuilt = cleaned.reconstruct().unwrap();

    let png = to_png(&rebuilt, Symbology::QrCode, 8, false).unwrap();
    let img = image::load_from_memory(&png).unwrap().to_luma8();
    let (iw, ih) = img.dimensions();
    assert_eq!(stock(img.into_raw(), iw, ih), READ);
}

#[test]
fn upright_sources_are_not_reported_as_inverted() {
    let (luma, w, h) = render_luma(BarcodeFormat::QR_CODE, READ, 6);
    let cleaned = clean_luma(&luma, w, h).expect("decode");
    assert!(!cleaned.source_inverted);
}

#[test]
fn images_without_pixels_hold_nothing() {
    for (w, h) in [(0, 0), (0, 5), (5, 0), (1, 1), (2, 3), (30, 1)] {
        let luma = vec![255u8; (w * h) as usize];
        assert_eq!(clean_luma(&luma, w, h).unwrap_err(), CleanError::NotDetected);
        assert_eq!(aztec::clean_luma(&luma, w, h).unwrap_err(), CleanError::NotDetected);
        assert_eq!(datamatrix::clean_luma(&luma, w, h).unwrap_err(), CleanError::NotDetected);
        assert_eq!(clean(&luma, w, h).unwrap_err(), CleanError::NotDetected);
    }
    let short = vec![255u8; 10];
    assert_eq!(aztec::clean_luma(&short, 4, 4).unwrap_err(), CleanError::NotDetected);
    assert_eq!(datamatrix::clean_luma(&short, 4, 4).unwrap_err(), CleanError::NotDetected);
    assert_eq!(clean(&short, 4, 4).unwrap_err(), CleanError::NotDetected);
}

// ---- Aztec ----
const AZTEC: &str = "barclean aztec exact restoration 0123456789";

#[test]
fn aztec_an_undamaged_symbol_rebuilds_to_itself() {
    let (luma, w, h) = render_luma(BarcodeFormat::AZTEC, AZTEC, 6);
    let cleaned = aztec::clean_luma(&luma, w, h).expect("clean Aztec must restore");

    assert_eq!(cleaned.payload, AZTEC);
    assert_eq!(cleaned.damaged_codewords, 0, "clean symbol reported damage");
    assert_eq!(
        cleaned.rebuilt.differences(&cleaned.sampled),
        Some(0),
        "an undamaged symbol must rebuild to exactly what was sampled"
    );
}

#[test]
fn damage_is_repaired_and_the_rest_is_left_alone() {
    let (mut luma, w, h) = render_luma(BarcodeFormat::AZTEC, AZTEC, 6);
    blot(&mut luma, w, h, w / 6, h / 6, 4 * 6, 4 * 6);

    let cleaned = aztec::clean_luma(&luma, w, h).expect("damaged Aztec must still recover");
    assert_eq!(cleaned.payload, AZTEC, "payload must survive the damage");
    assert!(cleaned.damaged_codewords > 0, "the blot should have damaged codewords");

    let differences = cleaned.rebuilt.differences(&cleaned.sampled).expect("same size");
    assert!(differences > 0, "the rebuild should differ from the damaged scan");
    assert!(
        differences < cleaned.dimension * cleaned.dimension / 4,
        "rebuild changed {differences} modules, far more than the blot covered"
    );

    let pristine = encode(BarcodeFormat::AZTEC, AZTEC);
    assert_eq!(
        cleaned.rebuilt.differences(&Vec::<bool>::from(&pristine)),
        Some(0),
        "what was rebuilt is the symbol as it was printed"
    );
}

#[test]
fn aztec_the_restoration_still_scans() {
    let (luma, w, h) = render_luma(BarcodeFormat::AZTEC, AZTEC, 6);
    let cleaned = aztec::clean_luma(&luma, w, h).unwrap();

    let (out, ow, oh) = cleaned.rebuilt.to_luma(6, 4);
    assert_eq!(stock(out, ow as u32, oh as u32), AZTEC);
}

#[test]
fn aztec_a_blank_image_is_not_detected() {
    let luma = vec![255u8; 200 * 200];
    assert!(matches!(aztec::clean_luma(&luma, 200, 200), Err(CleanError::NotDetected)));
}

#[test]
fn aztec_symbols_of_every_layer_count_rebuild_to_themselves() {
    for length in [1usize, 20, 60, 120, 250, 420] {
        let payload: String = (0..length).map(|i| (b'a' + (i * 7 % 26) as u8) as char).collect();
        let (luma, w, h) = render_luma(BarcodeFormat::AZTEC, &payload, 4);
        let cleaned = aztec::clean_luma(&luma, w, h).expect("readable");
        assert_eq!(cleaned.payload, payload);
        assert_eq!(cleaned.rebuilt.differences(&cleaned.sampled), Some(0), "{length} letters");
    }
}

#[test]
fn aztec_modules_are_counted_with_the_reference_grid() {
    assert_eq!(aztec::width_of(true, 1), 15);
    assert_eq!(aztec::width_of(true, 4), 27);
    assert_eq!(aztec::width_of(false, 4), 31);
    assert_eq!(aztec::width_of(false, 5), 37);
    assert_eq!(aztec::width_of(false, 32), 151);
    let places = aztec::bit_modules(true, 1);
    assert_eq!(places.len(), 104);
    assert_eq!(&places[..4], &[0, 1, 15, 16], "two modules of a row, then the row below");
}

// ---- DataMatrix ----
const MATRIX: &str = "barclean datamatrix exact restoration 0123456789 ABCDEFGH";

#[test]
fn datamatrix_an_undamaged_symbol_rebuilds_to_itself() {
    let (luma, w, h) = render_luma(BarcodeFormat::DATA_MATRIX, MATRIX, 8);
    let cleaned = datamatrix::clean_luma(&luma, w, h).expect("clean DataMatrix must restore");

    assert_eq!(cleaned.payload, MATRIX);
    assert_eq!(
        cleaned.rebuilt.differences(&cleaned.sampled),
        Some(0),
        "an undamaged symbol must rebuild to exactly what was sampled"
    );
    assert_eq!(cleaned.blocks_rescued(), 0, "nothing to rescue on a clean symbol");
}

#[test]
fn damage_is_repaired_and_confined() {
    let (mut luma, w, h) = render_luma(BarcodeFormat::DATA_MATRIX, MATRIX, 8);
    blot(&mut luma, w, h, w / 3, h / 4, 4 * 8, 4 * 8);

    let cleaned = datamatrix::clean_luma(&luma, w, h).expect("damaged DataMatrix must recover");
    assert_eq!(cleaned.payload, MATRIX, "payload must survive the damage");

    let differences = cleaned.rebuilt.differences(&cleaned.sampled).expect("same size");
    assert!(differences > 0, "the rebuild should differ from the damaged scan");
    assert!(
        differences < cleaned.width * cleaned.height / 4,
        "rebuild changed {differences} modules, far more than the blot covered"
    );

    let pristine = encode(BarcodeFormat::DATA_MATRIX, MATRIX);
    assert_eq!(cleaned.rebuilt.differences(&Vec::<bool>::from(&pristine)), Some(0));
}

#[test]
fn datamatrix_the_restoration_still_scans() {
    let (luma, w, h) = render_luma(BarcodeFormat::DATA_MATRIX, MATRIX, 8);
    let cleaned = datamatrix::clean_luma(&luma, w, h).unwrap();

    let (out, ow, oh) = cleaned.rebuilt.to_luma(8, 4);
    assert_eq!(stock(out, ow as u32, oh as u32), MATRIX);
}

#[test]
fn datamatrix_a_blank_image_is_not_detected() {
    let luma = vec![255u8; 200 * 200];
    assert!(matches!(datamatrix::clean_luma(&luma, 200, 200), Err(CleanError::NotDetected)));
}

#[test]
fn datamatrix_symbols_of_several_blocks_are_read_in_order() {
    let payload: String = (0..600).map(|i| (b'a' + (i * 11 % 26) as u8) as char).collect();
    let pristine = encode(BarcodeFormat::DATA_MATRIX, &payload);
    let (w, h) = (pristine.getWidth() as usize, pristine.getHeight() as usize);
    let modules = Vec::<bool>::from(&pristine);
    let cleaned =
        datamatrix::clean_matrix(Sampled { width: w, height: h, modules: modules.clone() })
            .expect("readable");
    assert!(cleaned.blocks_total > 1, "one block would prove nothing");
    assert_eq!(cleaned.payload, payload);

    // A square of damage inside one data region is spread over the blocks.
    let mut damaged = modules.clone();
    for y in 3..15 {
        for x in 3..15 {
            damaged[y * w + x] = true;
        }
    }
    let repaired = datamatrix::clean_matrix(Sampled { width: w, height: h, modules: damaged })
        .expect("repairable");
    assert_eq!(repaired.payload, payload);
    assert_eq!(repaired.rebuilt.differences(&modules), Some(0));
}

#[test]
fn datamatrix_modules_of_no_size_are_unreadable() {
    let found = Sampled { width: 11, height: 11, modules: vec![true; 121] };
    assert_eq!(datamatrix::clean_matrix(found).unwrap_err(), CleanError::Unreadable);
    let none = Sampled { width: 0, height: 0, modules: Vec::new() };
    assert_eq!(datamatrix::clean_matrix(none).unwrap_err(), CleanError::Unreadable);
}

#[test]
fn datamatrix_codewords_have_eight_modules_of_their_own() {
    let places = codeword_places(10, 10).expect("ten by ten exists");
    assert_eq!(places.len(), 8);
    let mut seen: Vec<usize> = places.iter().flatten().copied().collect();
    assert_eq!(seen.len(), 64);
    seen.sort_unstable();
    seen.dedup();
    assert_eq!(seen.len(), 64);
    // Nothing on the finder and timing border.
    assert!(seen.iter().all(|m| (1..9).contains(&(m % 10)) && (1..9).contains(&(m / 10))));
    assert!(codeword_places(11, 11).is_none());
}

#[test]
fn datamatrix_blocks_of_every_size_take_up_the_stream() {
    let mut sizes = 0;
    for h in (8..=144usize).step_by(2) {
        for w in (8..=144usize).step_by(2) {
            let Some(places) = codeword_places(w, h) else {
                continue;
            };
            sizes += 1;
            let mut modules: Vec<usize> = places.iter().flatten().copied().collect();
            assert_eq!(modules.len(), 8 * places.len(), "{w}x{h}");
            modules.sort_unstable();
            modules.dedup();
            assert_eq!(modules.len(), 8 * places.len(), "{w}x{h} reads a module twice");
            assert!(modules.iter().all(|&m| m < w * h));

            let blocks = block_places(w, h, places.len()).expect("blocks");
            let data: usize = blocks.iter().map(|b| b.0).sum();
            let mut taken = vec![false; places.len()];
            for (count, stream) in &blocks {
                assert!(*count <= stream.len() && stream.len() <= 255, "{w}x{h}");
                for (i, &g) in stream.iter().enumerate() {
                    assert!(!taken[g], "{w}x{h} deals {g} twice");
                    taken[g] = true;
                    assert_eq!(i < *count, g < data, "{w}x{h}: data leads the stream");
                }
            }
            assert!(taken.iter().all(|&t| t), "{w}x{h} leaves codewords out");
        }
    }
    assert!(sizes >= 30, "twenty-four squares and six rectangles at least, got {sizes}");
}

// ---- PDF417 ----
const ROWS: &str = "barclean pdf417 exact restoration 0123456789";

/// Reads the rows of a symbol that starts four modules and the writer's margin in.
fn scan_rows(symbol: &Located, scale: usize) -> Option<RowScan> {
    let pristine = encode(BarcodeFormat::PDF_417, ROWS);
    let margin = (0..pristine.getWidth()).find(|&x| {
        (0..pristine.getHeight()).any(|y| pristine.get(x, y))
    });
    let margin = margin.unwrap() as usize;
    let width = pristine.getWidth() as usize - 2 * margin;
    let columns = (width - 69) / 17;
    let table = pattern_table().expect("every codeword has one pattern");
    let dark = |x: usize, y: usize| {
        let px = (margin + 4 + x) * scale + scale / 2;
        let py = (4 + y) * scale + scale / 2;
        symbol.pixels[py * symbol.width + px]
    };
    let word = |x0: usize, y: usize| -> u32 {
        (0..17).fold(0u32, |acc, i| 2 * acc + dark(x0 + i, y) as u32)
    };
    let slot = |row_y: usize, slot: usize| -> Option<(usize, u32)> {
        let pattern = word(17 + 17 * slot, row_y);
        let v = table.iter().position(|p| *p == pattern)?;
        Some((v / 929, (v % 929) as u32))
    };

    // Runs of raster rows with the same left indicator are one row of the symbol.
    let mut tops: Vec<usize> = Vec::new();
    let mut last = None;
    for y in margin..pristine.getHeight() as usize - margin {
        let left = slot(y, 0);
        if left.is_some() && left != last {
            tops.push(y);
            last = left;
        }
    }
    let rows = tops.len();
    let level_of = |y: usize| slot(y, 0).map(|(_, c)| (c % 30) / 3);
    let ec_level = level_of(tops[1]).expect("the second row tells the level");

    let mut received: Vec<u32> = Vec::new();
    let mut erasures: Vec<usize> = Vec::new();
    for (row, &top) in tops.iter().enumerate() {
        for column in 0..columns {
            match slot(top + 1, column + 1) {
                Some((cluster, codeword)) if cluster == row % 3 => received.push(codeword),
                _ => {
                    erasures.push(received.len());
                    received.push(0);
                }
            }
        }
    }
    Some(RowScan { received, erasures, rows, columns, ec_level })
}

fn clean_rows(luma: &[u8], w: u32, h: u32) -> Result<CleanedPdf417, CleanError> {
    pdf417::clean_luma(luma, w, h, |symbol: &Located, _: &RowBounds| scan_rows(symbol, 4))
}

#[test]
fn an_undamaged_symbol_restores_and_reports_no_repair() {
    let (luma, w, h) = render_luma(BarcodeFormat::PDF_417, ROWS, 4);
    let cleaned = clean_rows(&luma, w, h).expect("clean PDF417 must restore");

    assert_eq!(cleaned.payload, ROWS);
    assert_eq!(cleaned.repaired_codewords, 0, "clean symbol reported repairs");
    assert!(cleaned.rows > 0 && cleaned.columns > 0);
    assert!(
        cleaned.verdicts.iter().all(|v| !v.recovered()),
        "an undamaged symbol should show nothing recovered"
    );
}

#[test]
fn pdf417_the_restoration_still_scans() {
    let (luma, w, h) = render_luma(BarcodeFormat::PDF_417, ROWS, 4);
    let cleaned = clean_rows(&luma, w, h).unwrap();

    let (out, ow, oh) = cleaned.rebuilt.to_luma(4, 4);
    assert_eq!(stock(out, ow as u32, oh as u32), ROWS);
}

#[test]
fn damage_is_repaired_and_marked() {
    let mut proved = false;

    for divisor in [24usize, 20, 16, 14, 12, 10] {
        let (mut luma, w, h) = render_luma(BarcodeFormat::PDF_417, ROWS, 4);
        blot(&mut luma, w, h, w / 3, h / 3, w / divisor as u32, h / divisor as u32);

        let Ok(cleaned) = clean_rows(&luma, w, h) else {
            continue;
        };
        if cleaned.repaired_codewords == 0 && cleaned.erasures == 0 {
            continue;
        }

        assert_eq!(cleaned.payload, ROWS, "payload must survive recoverable damage");
        assert!(
            cleaned.verdicts.iter().any(|v| v.recovered()) || cleaned.erasures > 0,
            "repaired codewords should be marked in the comparison"
        );

        let (out, ow, oh) = cleaned.rebuilt.to_luma(4, 4);
        assert_eq!(stock(out, ow as u32, oh as u32), ROWS);

        proved = true;
        break;
    }

    assert!(
        proved,
        "no blot size was both harmful and recoverable, so damage recovery went untested"
    );
}

#[test]
fn pdf417_a_blank_image_is_not_detected() {
    let luma = vec![255u8; 300 * 200];
    assert_eq!(clean_rows(&luma, 300, 200).unwrap_err(), CleanError::NotDetected);
    assert_eq!(clean_rows(&luma, 300, 201).unwrap_err(), CleanError::NotDetected);
}

#[test]
fn a_symbol_whose_rows_cannot_be_read_is_unrecoverable() {
    let (luma, w, h) = render_luma(BarcodeFormat::PDF_417, ROWS, 4);
    let unread = CleanError::Unrecoverable { blocks_total: 1, blocks_decoded: 0 };
    assert_eq!(pdf417::clean_luma(&luma, w, h, |_: &Located, _: &RowBounds| None).unwrap_err(), unread);
    assert_eq!(clean_reading(None).unwrap_err(), unread);
}

#[test]
fn the_scanner_is_handed_where_the_codewords_are() {
    let (luma, w, h) = render_luma(BarcodeFormat::PDF_417, ROWS, 4);
    let pristine = encode(BarcodeFormat::PDF_417, ROWS);
    let margin = (0..pristine.getWidth())
        .find(|&x| (0..pristine.getHeight()).any(|y| pristine.get(x, y)))
        .unwrap();
    let check = |symbol: &Located, bounds: &RowBounds| -> Option<RowScan> {
        assert_eq!((symbol.width, symbol.height), (w as usize, h as usize));
        assert_eq!(symbol.pixels.len(), (w * h) as usize);
        assert_eq!(symbol.corners.len(), 8);
        // Past the start pattern on the left, before the stop pattern on the right.
        assert_eq!(bounds.top_left, Some(((margin + 4 + 17) * 4, (margin + 4) * 4)));
        assert_eq!(bounds.top_left.map(|p| p.0), bounds.bottom_left.map(|p| p.0));
        assert_eq!(bounds.top_right.map(|p| p.0), Some((pristine.getWidth() - margin + 4 - 18) * 4));
        assert_eq!(bounds.max_codeword_width, 68, "seventeen modules of four pixels");
        assert!((60..=68).contains(&bounds.min_codeword_width));
        None
    };
    assert!(pdf417::clean_luma(&luma, w, h, check).is_err());
}

#[test]
fn the_rebuild_is_bit_identical_to_the_original_symbol() {
    let (luma, w, h) = render_luma(BarcodeFormat::PDF_417, ROWS, 4);
    let cleaned = clean_rows(&luma, w, h).expect("decode");

    let original = encode(BarcodeFormat::PDF_417, ROWS);
    let margin = (original.getWidth() as usize - cleaned.width) / 2;
    let v_scale = (original.getHeight() as usize - 2 * margin) / cleaned.rows;
    let band = cleaned.height / cleaned.rows;

    let mut differing = 0usize;
    for row in 0..cleaned.rows {
        for x in 0..cleaned.width {
            let mine = cleaned.rebuilt.get(x, row * band);
            let theirs = original.get((x + margin) as u32, (margin + row * v_scale) as u32);
            if mine != theirs {
                differing += 1;
            }
        }
    }
    assert_eq!(
        differing,
        0,
        "{differing} of {} modules differ from the original symbol",
        cleaned.width * cleaned.rows
    );
}

fn small_layout() -> Pdf417Layout {
    Pdf417Layout {
        received: vec![5, 453, 0, 900, 900, 200],
        codewords: vec![5, 453, 178, 900, 900, 200],
        erasures: vec![2],
        rows: 3,
        columns: 2,
        ec_level: 0,
    }
}

#[test]
fn exactly_the_repaired_codewords_are_marked() {
    let layout = small_layout();
    assert_eq!(layout.repaired(), vec![2]);
    let cleaned = restore("text".to_string(), &layout).unwrap();
    assert_eq!((cleaned.width, cleaned.height), (17 * 2 + 69, 9));
    assert_eq!((cleaned.repaired_codewords, cleaned.erasures), (1, 1));
    for y in 0..9 {
        for x in 0..cleaned.width {
            let marked = cleaned.verdicts[y * cleaned.width + x].recovered();
            assert_eq!(marked, (3..6).contains(&y) && (34..51).contains(&x), "({x},{y})");
        }
    }
    assert!(cleaned.verdicts.contains(&ModuleVerdict::RecoveredDark));
    assert!(cleaned.verdicts.contains(&ModuleVerdict::RecoveredLight));
}

#[test]
fn rows_start_and_stop_with_their_patterns() {
    let modules = redraw(&small_layout()).unwrap();
    let width = 17 * 2 + 69;
    let text = |y: usize, x0: usize, n: usize| -> String {
        (0..n).map(|i| if modules[y * width + x0 + i] { '1' } else { '0' }).collect()
    };
    for y in 0..9 {
        assert_eq!(text(y, 0, 17), "11111111010101000");
        assert_eq!(text(y, width - 18, 18), "111111101000101001");
    }
    assert_eq!(text(0, 0, width), text(2, 0, width), "a row is three modules tall");
    assert_ne!(text(2, 0, width), text(3, 0, width));
}

/// An image turned by a quarter.
fn quarter_turn(luma: &[u8], w: usize, h: usize) -> (Vec<u8>, usize, usize) {
    let mut turned = vec![255u8; w * h];
    for y in 0..h {
        for x in 0..w {
            turned[x * h + h - 1 - y] = luma[y * w + x];
        }
    }
    (turned, h, w)
}

#[test]
fn rows_that_claim_more_codewords_than_there_are_powers_are_not_read() {
    for (rows, columns) in [(50, 20), (40, 25), (90, 30)] {
        let codewords: Vec<u32> = (0..rows * columns).map(|i| (i * 37 + 11) as u32 % 900).collect();
        let layout = Pdf417Layout {
            received: codewords.clone(),
            codewords,
            erasures: vec![],
            rows,
            columns,
            ec_level: 8,
        };
        let drawn = restore("x".to_string(), &layout).unwrap().rebuilt;
        let (mut luma, mut w, mut h) = drawn.to_luma(2, 4);
        for y in 8..14 {
            luma[y * w + 2 * (4 + 34 + 17)..][..2 * 34].fill(255);
        }
        for left in [true, false] {
            if !left {
                for y in 0..h {
                    luma[y * w..][..2 * (4 + 17)].fill(255);
                }
            }
            for _ in 0..4 {
                let frame = Frame { luma: luma.clone(), width: w, height: h, rotation: 0 };
                assert!(decode_frame(&frame).1.is_none(), "{rows} rows of {columns}");
                (luma, w, h) = quarter_turn(&luma, w, h);
            }
        }
    }
}

#[test]
fn large_damaged_rows_are_read_from_either_side() {
    let text = "LARGE ROWS ".repeat(70);
    let (mut luma, mut w, mut h) = render_luma(BarcodeFormat::PDF_417, &text, 2);
    blot(&mut luma, w, h, 200, 60, 12, 9);
    for side in ["both", "right"] {
        if side == "right" {
            for y in 0..h as usize {
                luma[y * w as usize..][..2 * (4 + 30 + 9)].fill(255);
            }
        }
        for _ in 0..4 {
            let frame =
                Frame { luma: luma.clone(), width: w as usize, height: h as usize, rotation: 0 };
            let (_, result) = decode_frame(&frame);
            let (payload, format) = result.expect(side);
            assert_eq!((payload.as_str(), format.as_str()), (text.as_str(), "PDF_417"));
            let (turned, tw, th) = quarter_turn(&luma, w as usize, h as usize);
            (luma, w, h) = (turned, tw as u32, th as u32);
        }
    }
}

#[test]
fn layouts_of_no_symbol_are_unreadable() {
    let refused = |l: Pdf417Layout| {
        assert_eq!(restore("x".to_string(), &l).unwrap_err(), CleanError::Unreadable);
    };
    refused(Pdf417Layout { rows: 0, codewords: vec![], received: vec![], ..small_layout() });
    refused(Pdf417Layout { columns: 0, codewords: vec![], received: vec![], ..small_layout() });
    refused(Pdf417Layout { ec_level: 9, ..small_layout() });
    refused(Pdf417Layout { rows: 2, ..small_layout() });
    refused(Pdf417Layout { received: vec![1], ..small_layout() });
    refused(Pdf417Layout { codewords: vec![5, 453, 929, 900, 900, 200], ..small_layout() });
}

#[test]
fn codeword_widths_are_the_extremes_of_what_was_measured() {
    let at = |x: u32| Some((x, 0));
    let all = [at(10), at(10), at(272), at(236), at(44), at(40), at(200), at(200)];
    assert_eq!(max_codeword_width(&all), 68, "the stop pattern at the top, rescaled");
    assert_eq!(min_codeword_width(&all), 30, "the codeword at the bottom");
    let turned = [at(44), at(40), at(200), at(200), at(10), at(10), at(272), at(236)];
    assert_eq!(max_codeword_width(&turned), 68, "distances have no sign");
    assert_eq!(max_codeword_width(&[None; 8]), 0);
    assert_eq!(min_codeword_width(&[None; 8]) as u64, u32::MAX as u64 * 17 / 18);
}

// ---- what is refused ----
#[test]
fn images_too_large_for_a_reader_hold_nothing() {
    for (w, h) in [(32_768u32, 1u32), (1, 32_768), (1_862_192, 1), (1, 1_862_192)] {
        let luma = vec![0u8; (w * h) as usize];
        assert_eq!(clean_luma(&luma, w, h).unwrap_err(), CleanError::NotDetected);
        assert_eq!(aztec::clean_luma(&luma, w, h).unwrap_err(), CleanError::NotDetected);
        assert_eq!(datamatrix::clean_luma(&luma, w, h).unwrap_err(), CleanError::NotDetected);
        assert_eq!(clean_rows(&luma, w, h).unwrap_err(), CleanError::NotDetected);
        assert_eq!(clean(&luma, w, h).unwrap_err(), CleanError::NotDetected);
    }
}

#[test]
fn wide_images_are_read() {
    let (small, sw, sh) = render_luma(BarcodeFormat::QR_CODE, READ, 4);
    let (w, h) = (33_000u32, sh);
    let mut luma = vec![255u8; (w * h) as usize];
    for y in 0..sh {
        for x in 0..sw {
            luma[(y * w + 20_000 + x) as usize] = small[(y * sw + x) as usize];
        }
    }
    assert_eq!(clean_luma(&luma, w, h).unwrap().payload, READ);
}

/// The modules of the square DataMatrix symbol of one block with a stream and its check codewords in it.
fn square(side: usize, stream: &[u8]) -> Vec<bool> {
    let places = codeword_places(side, side).unwrap();
    let ecc = places.len() - stream.len();
    let mut generator = vec![1u8];
    for j in 0..ecc {
        let root = exp_in(DATA_MATRIX_POLYNOMIAL, 1 + j);
        let mut next = generator.clone();
        next.push(0);
        for (i, &c) in generator.iter().enumerate() {
            next[i + 1] ^= mul_in(DATA_MATRIX_POLYNOMIAL, c, root);
        }
        generator = next;
    }
    let mut codewords = stream.to_vec();
    codewords.extend(vec![0u8; ecc]);
    for i in 0..stream.len() {
        let lead = codewords[i];
        for (j, &g) in generator.iter().enumerate() {
            codewords[i + j] ^= mul_in(DATA_MATRIX_POLYNOMIAL, lead, g);
        }
    }
    codewords[..stream.len()].copy_from_slice(stream);
    let mut modules = vec![false; side * side];
    for (codeword, cells) in codewords.iter().zip(&places) {
        for (k, &cell) in cells.iter().enumerate() {
            modules[cell] = codeword >> (7 - k) & 1 == 1;
        }
    }
    // The solid borders, left and below, and the alternating ones.
    for k in 0..side {
        modules[k * side] = true;
        modules[(side - 1) * side + k] = true;
        modules[k] = k % 2 == 0;
        modules[k * side + side - 1] = k % 2 == 1;
    }
    modules
}

fn read_square(side: usize, stream: &[u8]) -> Result<String, CleanError> {
    let modules = square(side, stream);
    datamatrix::clean_matrix(Sampled { width: side, height: side, modules }).map(|c| c.payload)
}

#[test]
fn datamatrix_streams_that_count_below_nothing_are_unreadable() {
    // "AB" and padding, read as ASCII.
    assert_eq!(read_square(10, &[66, 67, 129]).unwrap(), "AB");
    // Two codewords of triplets that are both nothing.
    for latch in [230u8, 238, 239] {
        assert_eq!(read_square(10, &[latch, 0, 0]).unwrap_err(), CleanError::Unreadable);
    }
    // "AIM" in C40.
    assert_eq!(read_square(10, &[230, 91, 11]).unwrap(), "AIM");
    // A designator of nothing, and one of three codewords with nothing in the middle.
    assert_eq!(read_square(10, &[241, 0, 66]).unwrap_err(), CleanError::Unreadable);
    assert_eq!(read_square(12, &[241, 192, 0, 5, 66]).unwrap_err(), CleanError::Unreadable);
    // The designator of Latin-1.
    assert_eq!(read_square(10, &[241, 4, 66]).unwrap(), "A");
}

/// A picture of modules, at six pixels each, with a quiet zone of four.
fn picture(side: usize, modules: &[bool]) -> (Vec<u8>, u32, u32) {
    let w = (side + 8) * 6;
    let mut luma = vec![255u8; w * w];
    for y in 0..w {
        for x in 0..w {
            let (mx, my) = (x / 6, y / 6);
            if (4..side + 4).contains(&mx) && (4..side + 4).contains(&my) {
                if modules[(my - 4) * side + mx - 4] {
                    luma[y * w + x] = 0;
                }
            }
        }
    }
    (luma, w as u32, w as u32)
}

#[test]
fn pictures_of_streams_that_cannot_be_parsed_are_not_read() {
    let (luma, w, h) = picture(10, &square(10, &[66, 67, 129]));
    assert_eq!(clean(&luma, w, h).unwrap().payload, "AB");
    for stream in [[230u8, 0, 0], [241, 0, 129], [239, 0, 0]] {
        let (luma, w, h) = picture(10, &square(10, &stream));
        assert_eq!(datamatrix::clean_luma(&luma, w, h).unwrap_err(), CleanError::Unreadable);
        assert_eq!(clean(&luma, w, h).unwrap_err(), CleanError::NotDetected);
    }
}

#[test]
fn frames_fall_back_on_every_reader() {
    for (format, payload, name) in [
        (BarcodeFormat::DATA_MATRIX, READ, "DATA_MATRIX"),
        (BarcodeFormat::AZTEC, READ, "AZTEC"),
        (BarcodeFormat::PDF_417, READ, "PDF_417"),
        (BarcodeFormat::CODE_128, "barclean", "CODE_128"),
        (BarcodeFormat::CODE_39, "BARCLEAN", "CODE_39"),
        (BarcodeFormat::CODE_93, "BARCLEAN", "CODE_93"),
        (BarcodeFormat::ITF, "12345678", "ITF"),
        (BarcodeFormat::CODABAR, "A40156B", "CODABAR"),
        (BarcodeFormat::EAN_13, "4006381333931", "EAN_13"),
    ] {
        let (luma, w, h) = render_luma(format, payload, 4);
        let frame = Frame { luma, width: w as usize, height: h as usize, rotation: 0 };
        let (result, fallback) = decode_frame(&frame);
        assert!(result.is_err());
        let (text, format) = fallback.unwrap_or_else(|| panic!("{name} was not read"));
        let said = if name == "CODABAR" { "40156" } else { payload };
        assert_eq!((text.as_str(), format.as_str()), (said, name));
    }
}

#[test]
fn mirrored_datamatrix_symbols_are_scanned() {
    let (luma, w, h) = render_luma(BarcodeFormat::DATA_MATRIX, READ, 6);
    let mut mirrored = luma.clone();
    for row in mirrored.chunks_mut(w as usize) {
        row.reverse();
    }
    let frame = Frame { luma: mirrored, width: w as usize, height: h as usize, rotation: 0 };
    let (_, fallback) = decode_frame(&frame);
    assert_eq!(fallback, Some((READ.to_string(), "DATA_MATRIX".to_string())));
}

#[test]
fn long_and_latin_datamatrix_texts_are_re_encoded() {
    for text in ["0123456789".repeat(20), "a".repeat(775), "\u{e9}tude".to_string(), "caf\u{e9}".to_string()] {
        let (luma, w, h) = render_luma(BarcodeFormat::DATA_MATRIX, &text, 4);
        assert_eq!(clean(&luma, w, h).unwrap().payload, text);
    }
}

#[test]
fn texts_that_do_not_fit_a_datamatrix_symbol_are_told() {
    assert_eq!(room_of("123456"), Some(3));
    assert_eq!(room_of("1234567"), Some(5));
    assert_eq!(room_of(&"5".repeat(3116)), Some(1558));
    assert_eq!(room_of(&"5".repeat(3117)), None);
    assert_eq!(room_of(&"A".repeat(2335)), Some(1558));
    assert_eq!(room_of(&"A".repeat(2336)), None);
    assert_eq!(room_of(&"\u{ff}".repeat(1556)), Some(1558));
    assert_eq!(room_of(&"\u{ff}".repeat(1557)), None);
    assert_eq!(room_of("\u{20ac}"), None);
    // The header and the trailer of a shipping label are one codeword.
    assert_eq!(room_of("[)>\u{1e}05\u{1d}AB\u{1e}\u{4}"), Some(3));
    assert_eq!(room_of("abcdefg\u{e9}"), Some(10));
}

/// A text of runs of characters of the same sort.
fn patchwork(state: &mut u64, long: usize, sorts: u64) -> String {
    let mut next = |n: u64| {
        *state ^= *state << 13;
        *state ^= *state >> 7;
        *state ^= *state << 17;
        (*state >> 11) % n
    };
    let mut out: Vec<char> = Vec::new();
    while out.len() < long {
        let sort = next(sorts);
        for _ in 0..1 + next(9) {
            out.push(match sort {
                0 => (b'0' + next(10) as u8) as char,
                1 => (b'A' + next(26) as u8) as char,
                2 => (b'a' + next(26) as u8) as char,
                3 => ['\r', '*', '>', ' '][next(4) as usize],
                4 => (32 + next(63) as u8) as char,
                5 => next(128) as u8 as char,
                _ => next(256) as u8 as char,
            });
        }
    }
    out.truncate(long);
    out.into_iter().collect()
}

#[test]
fn the_room_of_a_text_is_that_of_its_symbol() {
    let mut state = 0x9E37_79B9_7F4A_7C15u64;
    let mut drawn = 0;
    for k in 0..1500usize {
        let text = patchwork(&mut state, 1 + k % 60, 1 + (k as u64 % 7));
        let Some(room) = room_of(&text) else {
            continue;
        };
        let symbol = encode(BarcodeFormat::DATA_MATRIX, &text);
        let (w, h) = (symbol.getWidth() as usize, symbol.getHeight() as usize);
        let total = codeword_places(w, h).unwrap().len();
        let data: usize = block_places(w, h, total).unwrap().iter().map(|b| b.0).sum();
        assert_eq!(data, room, "{text:?}");
        drawn += 1;
    }
    assert!(drawn > 1200, "only {drawn} were drawn");
}

#[test]
fn images_of_hardly_any_pixels_hold_nothing() {
    for (w, h) in
        [(0u32, 0u32), (0, 5), (5, 0), (1, 1), (1, 2), (2, 1), (3, 3), (1, 40), (40, 1), (41, 5), (7, 41)]
    {
        for kind in 0..3u32 {
            let luma: Vec<u8> = (0..w * h)
                .map(|i| match kind {
                    0 => 0,
                    1 => 255,
                    _ => (i.wrapping_mul(2_654_435_761) >> 24) as u8,
                })
                .collect();
            assert_eq!(clean_luma(&luma, w, h).unwrap_err(), CleanError::NotDetected);
            assert_eq!(aztec::clean_luma(&luma, w, h).unwrap_err(), CleanError::NotDetected);
            assert_eq!(datamatrix::clean_luma(&luma, w, h).unwrap_err(), CleanError::NotDetected);
            assert_eq!(clean_rows(&luma, w, h).unwrap_err(), CleanError::NotDetected);
            assert_eq!(clean(&luma, w, h).unwrap_err(), CleanError::NotDetected);
        }
    }
}

#[test]
fn rows_are_corrected_and_read() {
    let (luma, w, h) = render_luma(BarcodeFormat::PDF_417, ROWS, 4);
    let mut scan = None;
    let symbol = std::cell::RefCell::new(&mut scan);
    let _ = pdf417::clean_luma(&luma, w, h, |s: &Located, _: &RowBounds| {
        **symbol.borrow_mut() = scan_rows(s, 4);
        None
    });
    let scan = scan.unwrap();
    let (text, layout) = decode_rows(scan.clone()).unwrap();
    assert_eq!(text, ROWS);
    assert_eq!(layout.codewords, scan.received);

    // One codeword misread, and one not read at all.
    let mut damaged = scan.clone();
    damaged.received[3] = (damaged.received[3] + 1) % 929;
    damaged.received[5] = 0;
    damaged.erasures = vec![5];
    let (text, layout) = decode_rows(damaged.clone()).unwrap();
    assert_eq!(text, ROWS);
    assert_eq!(layout.codewords, scan.received);
    assert_eq!(layout.received, damaged.received);
    assert_eq!(clean_scan(Some(damaged.clone())).unwrap().repaired_codewords, layout.repaired().len());

    // What is not put to the corrector, or is beyond it.
    let unread = CleanError::Unrecoverable { blocks_total: 1, blocks_decoded: 0 };
    let refused = |s: RowScan| assert_eq!(clean_scan(Some(s)).unwrap_err(), unread);
    refused(RowScan { received: vec![], erasures: vec![], ..scan.clone() });
    refused(RowScan { ec_level: 9, ..scan.clone() });
    refused(RowScan { erasures: vec![scan.received.len()], ..scan.clone() });
    refused(RowScan { received: scan.received.iter().map(|c| c + 900).collect(), ..scan.clone() });
    refused(RowScan { received: scan.received.iter().rev().copied().collect(), ..scan.clone() });
    refused(RowScan { erasures: (0..scan.received.len()).collect(), ..scan.clone() });
    assert_eq!(clean_scan(None).unwrap_err(), unread);
    // A shape that the codewords do not have.
    assert_eq!(
        clean_scan(Some(RowScan { rows: scan.rows + 1, ..scan })).unwrap_err(),
        CleanError::Unreadable
    );
}
