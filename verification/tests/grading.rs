//! What the corpus defeats, what survives it, and what the loop wins back.
use barclean::clean::blocks::{decode_block, Code};
use barclean::clean::{bootstrap, BlockLayout, BootstrapParams};
use barclean::codec::qr::{block_places, provenance, EcLevel};
use barclean::corpus::symbol::{generate, Specimen};
use barclean::corpus::{composite, degrade, render, Degradation, Logo, LogoKind, Picture};
use barclean::Symbology;
use rxing::common::BitMatrix;
use rxing::qrcode::decoder::BitMatrixParser;

// ---- captures ----
/// Decodes with the stock path: the baseline.
fn stock_decode(img: &Picture) -> Option<String> {
    let luma: Vec<u8> = img
        .pixels
        .iter()
        .map(|&(r, g, b)| ((r as u32 * 299 + g as u32 * 587 + b as u32 * 114) / 1000) as u8)
        .collect();

    rxing::helpers::detect_in_luma(
        luma,
        img.width,
        img.height,
        Some(rxing::BarcodeFormat::QR_CODE),
    )
    .ok()
    .map(|r| r.getText().to_string())
}

/// Builds one specimen: encode, render, occlude, degrade.
fn specimen(payload: &str, ec: &str, kind: LogoKind, area: f32, deg: &Degradation) -> Picture {
    let spec = generate(Symbology::QrCode, payload, ec).expect("generate");
    let mut img = render(&spec, 8, 4);
    if area > 0.0 {
        let side = (img.width as f32 * img.height as f32 * area).sqrt() as u32;
        composite(&mut img, &Logo::new(kind, side));
    }
    degrade(&img, deg)
}

const PAYLOAD: &str = "https://example.com/barclean/corpus/specimen";

#[test]
fn clean_specimens_decode() {
    let img = specimen(PAYLOAD, "M", LogoKind::FlatColour, 0.0, &Degradation::pristine());
    assert_eq!(
        stock_decode(&img).as_deref(),
        Some(PAYLOAD),
        "an undamaged render must decode, or the corpus itself is broken"
    );
}

#[test]
fn realistic_capture_degradation_alone_does_not_break_decoding() {
    for (name, deg) in
        [("good", Degradation::good_capture()), ("poor", Degradation::poor_capture())]
    {
        let img = specimen(PAYLOAD, "M", LogoKind::FlatColour, 0.0, &deg);
        assert_eq!(
            stock_decode(&img).as_deref(),
            Some(PAYLOAD),
            "{name} capture degradation alone should not defeat decoding"
        );
    }
}

#[test]
fn small_occlusions_are_absorbed_by_plain_error_correction() {
    let img = specimen(PAYLOAD, "H", LogoKind::FlatColour, 0.02, &Degradation::pristine());
    assert_eq!(
        stock_decode(&img).as_deref(),
        Some(PAYLOAD),
        "a 2% occlusion at ECC-H is well inside the plain error budget"
    );
}

#[test]
fn locates_the_plain_decoding_failure_boundary() {
    let areas = [0.0f32, 0.05, 0.10, 0.15, 0.20, 0.25, 0.30, 0.35];

    for ec in ["L", "M", "Q", "H"] {
        let mut outcomes = Vec::new();
        for &area in &areas {
            let img =
                specimen(PAYLOAD, ec, LogoKind::FlatColour, area, &Degradation::good_capture());
            outcomes.push((area, stock_decode(&img).as_deref() == Some(PAYLOAD)));
        }

        let summary: Vec<String> = outcomes
            .iter()
            .map(|(a, ok)| format!("{:.0}%:{}", a * 100.0, if *ok { "ok" } else { "--" }))
            .collect();
        println!("ECC-{ec}  {}", summary.join("  "));

        assert!(outcomes[0].1, "ECC-{ec} must decode when unoccluded");
        assert!(
            !outcomes.last().unwrap().1,
            "ECC-{ec} still decoded at 35% occlusion: the corpus is too easy here"
        );
    }
}

#[test]
fn every_occlusion_kind_can_defeat_plain_decoding() {
    for kind in [LogoKind::FlatColour, LogoKind::Textured, LogoKind::NeutralFlat] {
        let img = specimen(PAYLOAD, "M", kind, 0.30, &Degradation::good_capture());
        assert!(
            stock_decode(&img).as_deref() != Some(PAYLOAD),
            "{kind:?} at 30% should defeat plain decoding"
        );
    }
}

// ---- module-level occlusion ----
/// A payload long enough to force a symbol of several blocks.
const LONG: &str = "https://example.com/barclean/partial-decode-localization-experiment?\
    id=0123456789abcdef&session=fedcba9876543210&token=aaaabbbbccccddddeeeeffff";

/// Overwrites a centred square of modules with `value`, the way an opaque logo does.
fn occlude(spec: &Specimen, area_fraction: f32, value: bool) -> BitMatrix {
    let n = spec.truth.width;
    let side = ((n * n) as f32 * area_fraction).sqrt() as usize;
    let x0 = n.saturating_sub(side) / 2;
    let y0 = n.saturating_sub(side) / 2;

    let mut m = BitMatrix::new(n as u32, n as u32).expect("bit matrix");
    for y in 0..n {
        for x in 0..n {
            let covered = x >= x0 && x < x0 + side && y >= y0 && y < y0 + side;
            let bit = if covered { value } else { spec.truth.get(x, y) };
            if bit {
                m.set(x as u32, y as u32);
            }
        }
    }
    m
}

struct Parsed {
    raw: Vec<u8>,
    provenance: Vec<Vec<usize>>,
    layouts: Vec<BlockLayout>,
    blocks: Vec<Vec<usize>>,
    dimension: usize,
}

fn parse(matrix: BitMatrix) -> Option<Parsed> {
    let dimension = matrix.getHeight() as usize;
    let mut parser = BitMatrixParser::new(matrix).ok()?;
    let version = parser.readVersion().ok()?.getVersionNumber();
    let ec = parser.readFormatInformation().ok()?.getErrorCorrectionLevel().get_value();
    let raw = parser.readCodewords().ok()?;
    let provenance = provenance(version)?;
    let places = block_places(version, ec, raw.len())?;
    let layouts =
        places.iter().map(|(data, globals)| BlockLayout::new(globals.len(), *data)).collect();
    let blocks = places.into_iter().map(|(_, globals)| globals).collect();
    Some(Parsed { raw, provenance, layouts, blocks, dimension })
}

impl Parsed {
    fn received(&self, b: usize) -> Vec<u8> {
        self.blocks[b].iter().map(|&g| self.raw[g]).collect()
    }

    fn decode(&self, b: usize, erasures: &[usize]) -> Option<(Vec<u8>, Vec<usize>)> {
        decode_block(Code::Qr, &self.received(b), self.layouts[b].ecc(), erasures)
    }

    /// Positions in the stream that the blocks which decode prove damaged.
    fn located(&self) -> (usize, Vec<usize>) {
        let mut survived = 0;
        let mut located = Vec::new();
        for b in 0..self.blocks.len() {
            if let Some((_, damaged)) = self.decode(b, &[]) {
                survived += 1;
                located.extend(damaged.iter().map(|&local| self.blocks[b][local]));
            }
        }
        (survived, located)
    }

    /// Runs the loop, and tells blocks `(rescued, initially, finally, total)`.
    fn run(&self) -> (usize, usize, usize, usize) {
        let decode = |b: usize, erasures: &[usize]| self.decode(b, erasures);
        let to_global = |b: usize, local: usize| self.blocks.get(b)?.get(local).copied();
        let out = bootstrap(
            &self.layouts,
            &to_global,
            &self.provenance,
            self.dimension,
            &decode,
            &BootstrapParams::default(),
        );
        (
            out.blocks_rescued(),
            out.blocks_decoded_initially,
            out.blocks_decoded_finally,
            out.blocks_total,
        )
    }
}

/// How many blocks survived, out of how many, and how many damaged codewords they pinned down.
fn survey(spec: &Specimen, area: f32, value: bool) -> (usize, usize, usize) {
    match parse(occlude(spec, area, value)) {
        Some(p) => {
            let (survived, located) = p.located();
            (survived, p.blocks.len(), located.len())
        }
        None => (0, 0, 0),
    }
}

#[test]
fn survivors_localize_damage_across_the_occlusion_range() {
    for ec in ["L", "M", "Q", "H"] {
        let spec = generate(Symbology::QrCode, LONG, ec).expect("generate");
        let (_, blocks, _) = survey(&spec, 0.0, true);
        println!(
            "--- ECC-{ec}  version {}  {} modules  {} blocks",
            spec.version, spec.truth.width, blocks
        );

        for area in [0.0f32, 0.05, 0.10, 0.15, 0.20, 0.25, 0.30] {
            let (survived, total, located) = survey(&spec, area, true);
            println!(
                "{:<6} {:>4} {:>6.0}%   {}/{}  ({} located)",
                ec,
                total,
                area * 100.0,
                survived,
                total,
                located
            );
        }
    }
}

#[test]
fn a_clean_symbol_reports_no_damage() {
    for ec in ["L", "M", "Q", "H"] {
        let spec = generate(Symbology::QrCode, LONG, ec).unwrap();
        let (survived, total, located) = survey(&spec, 0.0, true);
        assert!(total > 0, "ECC-{ec} produced no blocks");
        assert_eq!(survived, total, "ECC-{ec}: every block should decode");
        assert_eq!(located, 0, "ECC-{ec}: a clean symbol has nothing to report");
    }
}

#[test]
fn surviving_blocks_report_damage_when_the_symbol_is_occluded() {
    let mut bands: Vec<(String, f32, usize, usize, usize)> = Vec::new();

    for ec in ["L", "M", "Q", "H"] {
        let spec = generate(Symbology::QrCode, LONG, ec).unwrap();
        for step in 1..=48 {
            let area = step as f32 * 0.01;
            let (survived, total, located) = survey(&spec, area, true);
            if survived > 0 && survived < total {
                assert!(
                    located > 0,
                    "ECC-{ec} at {:.0}%: {survived}/{total} blocks decoded but located no damage",
                    area * 100.0
                );
                bands.push((ec.to_string(), area, survived, total, located));
            }
        }
    }

    assert!(
        !bands.is_empty(),
        "no occlusion level anywhere produced a partial decode, so survivor-based localization \
         would have nothing to work with"
    );
}

#[test]
fn located_damage_is_confined_to_genuinely_damaged_codewords() {
    let spec = generate(Symbology::QrCode, LONG, "H").unwrap();
    let clean = parse(occlude(&spec, 0.0, true)).unwrap();
    let damaged = parse(occlude(&spec, 0.15, true)).unwrap();

    let truly_damaged: Vec<usize> = clean
        .raw
        .iter()
        .zip(&damaged.raw)
        .enumerate()
        .filter(|(_, (a, b))| a != b)
        .map(|(i, _)| i)
        .collect();

    let (_, reported) = damaged.located();
    for r in &reported {
        assert!(
            truly_damaged.contains(r),
            "codeword {r} was reported damaged but is identical to the clean symbol"
        );
    }
}

#[test]
fn bootstrap_extends_the_recovery_range() {
    let mut total_rescued = 0usize;
    let mut extended_any = false;

    for ec in ["L", "M", "Q", "H"] {
        let spec = generate(Symbology::QrCode, LONG, ec).unwrap();
        for step in 1..=45 {
            let area = step as f32 * 0.01;
            let Some(p) = parse(occlude(&spec, area, true)) else {
                continue;
            };
            let (rescued, initially, finally, total) = p.run();
            if rescued > 0 {
                total_rescued += rescued;
                println!(
                    "ECC-{ec:<3} {:>4.0}%  {initially}/{total} -> {finally}/{total}",
                    area * 100.0
                );
                if finally == total && initially < total {
                    extended_any = true;
                }
            }
        }
    }

    assert!(
        total_rescued > 0,
        "the bootstrap loop never rescued a single block on real symbols"
    );
    assert!(
        extended_any,
        "blocks were rescued but no symbol was ever fully recovered"
    );
}

#[test]
fn bootstrap_never_loses_ground() {
    for ec in ["L", "M", "Q", "H"] {
        let spec = generate(Symbology::QrCode, LONG, ec).unwrap();
        for step in 0..=45 {
            let area = step as f32 * 0.01;
            let Some(p) = parse(occlude(&spec, area, true)) else {
                continue;
            };
            let (_, initially, finally, _) = p.run();
            assert!(
                finally >= initially,
                "ECC-{ec} at {:.0}%: bootstrapping dropped from {initially} to {finally} blocks",
                area * 100.0
            );
        }
    }
}

#[test]
fn clean_symbols_are_untouched() {
    for ec in ["L", "M", "Q", "H"] {
        let spec = generate(Symbology::QrCode, LONG, ec).unwrap();
        let p = parse(occlude(&spec, 0.0, true)).expect("parse clean symbol");
        let (rescued, initially, finally, total) = p.run();
        assert_eq!(initially, total, "ECC-{ec}: clean symbol must decode fully");
        assert_eq!(finally, total);
        assert_eq!(rescued, 0, "nothing to rescue on a clean symbol");
    }
}

#[test]
fn levels_have_letters_and_bits() {
    for (letter, bits, level) in
        [("L", 1, EcLevel::L), ("M", 0, EcLevel::M), ("Q", 3, EcLevel::Q), ("H", 2, EcLevel::H)]
    {
        assert_eq!(level.bits(), bits);
        assert_eq!(level.letter(), letter);
        assert_eq!(EcLevel::from_bits(bits), level);
        assert_eq!(EcLevel::from_letter(letter), Some(level));
    }
    assert_eq!(EcLevel::from_letter("X"), None);
    assert_eq!(EcLevel::from_letter("LL"), None);
    assert_eq!(EcLevel::from_letter(""), None);
}
