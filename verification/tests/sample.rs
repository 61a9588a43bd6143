//! Measuring modules, scoring them and locating what covers them.
use barclean::sample::confidence::{
    calibrate, calibration_sample, certain_damage, evaluate, Calibration, ConfidenceGrid,
    CHROMA_REF_FLOOR, LUMA_SCALE_FLOOR, VAR_REF_FLOOR,
};
use barclean::sample::morphology::{close, dilate, erode, open};
use barclean::sample::occlusion::{fit_region, locate, FitParams, OcclusionMask, OcclusionParams};
use barclean::sample::regions::filter_by_area;
use barclean::sample::{KnownModule, ModuleStats, StatsGrid};

fn stats(mean_luma: u8, var_luma: u16, chroma: u8, threshold: u8) -> ModuleStats {
    ModuleStats { mean_luma, var_luma, chroma, threshold, value: mean_luma < threshold }
}

/// A cell against the middle threshold.
fn cell(mean_luma: u8, var_luma: u16, chroma: u8) -> ModuleStats {
    stats(mean_luma, var_luma, chroma, 128)
}

/// Linear-interpolated percentile of sorted values.
fn percentile(values: &[u16], p: f32) -> f32 {
    if values.is_empty() {
        return 0.0;
    }
    let pos = p * (values.len() - 1) as f32;
    let lo = pos.floor() as usize;
    let hi = pos.ceil() as usize;
    let frac = pos - lo as f32;
    values[lo] as f32 * (1.0 - frac) + values[hi] as f32 * frac
}

fn calibration(grid: &StatsGrid, known: &[KnownModule]) -> Calibration {
    let sample = calibration_sample(grid, known);
    calibrate(
        &sample,
        percentile(&sample.margins, 0.25).to_bits(),
        (percentile(&sample.variances, 0.90) * 4.0).to_bits(),
        (percentile(&sample.chromas, 0.90) * 4.0).to_bits(),
    )
}

fn score(cell: ModuleStats, cal: &Calibration) -> f32 {
    let luma_scale = f32::from_bits(cal.luma_scale);
    let var_ref = f32::from_bits(cal.var_ref);
    let chroma_ref = f32::from_bits(cal.chroma_ref);
    let margin = (cell.margin() as f32 / luma_scale).clamp(0.0, 1.0);
    let flatness = var_ref / (var_ref + cell.var_luma as f32);
    let neutrality = chroma_ref / (chroma_ref + cell.chroma as f32);
    margin * flatness * neutrality
}

fn confidence(grid: &StatsGrid, known: &[KnownModule]) -> ConfidenceGrid {
    let cal = calibration(grid, known);
    let raw: Vec<u32> = grid.cells().iter().map(|&c| score(c, &cal).to_bits()).collect();
    evaluate(grid, known, cal, raw)
}

fn at(conf: &ConfidenceGrid, i: usize) -> f32 {
    f32::from_bits(conf.at(i))
}

/// A grid of clean, high-contrast, flat, neutral modules.
fn clean_grid(n: usize) -> StatsGrid {
    let cells =
        (0..n * n).map(|i| if i % 2 == 0 { cell(20, 4, 1) } else { cell(235, 4, 1) }).collect();
    StatsGrid::new(n, n, cells)
}

fn all_known(grid: &StatsGrid) -> Vec<KnownModule> {
    (0..grid.len()).map(|i| KnownModule::new(i, grid.at(i).value)).collect()
}

/// A clean symbol with a square of photographic content dropped on it.
fn grid_with_logo(ox: usize, oy: usize, size: usize) -> (StatsGrid, Vec<KnownModule>) {
    let n = 20;
    let mut cells: Vec<ModuleStats> =
        (0..n * n).map(|i| if i % 3 == 0 { cell(20, 4, 1) } else { cell(235, 4, 1) }).collect();
    for y in oy..oy + size {
        for x in ox..ox + size {
            cells[y * n + x] = cell(90, 9000, 150);
        }
    }
    let known: Vec<KnownModule> = (0..n * n)
        .filter(|i| {
            let (x, y) = (i % n, i / n);
            !(x >= ox && x < ox + size && y >= oy && y < oy + size)
        })
        .map(|i| KnownModule::new(i, cells[i].value))
        .collect();
    (StatsGrid::new(n, n, cells), known)
}

fn set(mask: &[bool]) -> usize {
    mask.iter().filter(|&&v| v).count()
}

// ---- modules ----
#[test]
fn margin_is_distance_from_threshold() {
    let dark = stats(20, 0, 0, 128);
    let light = stats(230, 0, 0, 128);
    let ambiguous = stats(126, 0, 0, 128);

    assert_eq!(dark.margin() as f32, 108.0);
    assert_eq!(light.margin() as f32, 102.0);
    assert_eq!(ambiguous.margin() as f32, 2.0);

    assert!(dark.signed_margin() > 0, "dark reads above threshold");
    assert!(light.signed_margin() < 0, "light reads below threshold");
    assert_eq!(dark.signed_margin(), 108);
    assert_eq!(light.signed_margin(), -102);
}

#[test]
fn grid_indexing_is_row_major() {
    let cells = (0..6).map(|i| stats(i * 10, 0, 0, 128)).collect();
    let grid = StatsGrid::new(3, 2, cells);

    assert_eq!(grid.get(0, 0).mean_luma, 0);
    assert_eq!(grid.get(2, 0).mean_luma, 20);
    assert_eq!(grid.get(0, 1).mean_luma, 30);
    assert_eq!(grid.get(2, 1).mean_luma, 50);
    assert_eq!(grid.at(4), grid.get(1, 1));
    assert_eq!(grid.values(), vec![true; 6]);
    assert!(!grid.is_empty());
}

// ---- confidence ----
#[test]
fn clean_modules_score_high() {
    let grid = clean_grid(10);
    let conf = confidence(&grid, &all_known(&grid));

    assert!(conf.calibration.is_well_founded());
    for i in 0..conf.len() {
        assert!(
            at(&conf, i) > 0.9,
            "clean module {i} scored {}, expected well above the 0.25 cut",
            at(&conf, i)
        );
    }
}

#[test]
fn textured_module_scores_low_despite_strong_margin() {
    let mut cells: Vec<ModuleStats> =
        (0..100).map(|i| if i % 2 == 0 { cell(20, 4, 1) } else { cell(235, 4, 1) }).collect();
    cells[55] = cell(20, 9000, 1);
    let grid = StatsGrid::new(10, 10, cells);
    let known: Vec<KnownModule> =
        (0..100).filter(|&i| i != 55).map(|i| KnownModule::new(i, grid.at(i).value)).collect();

    let conf = confidence(&grid, &known);
    assert!(at(&conf, 55) < 0.05, "textured module scored {}", at(&conf, 55));
}

#[test]
fn chromatic_module_scores_low_despite_strong_margin() {
    let mut cells: Vec<ModuleStats> =
        (0..100).map(|i| if i % 2 == 0 { cell(20, 4, 1) } else { cell(235, 4, 1) }).collect();
    cells[42] = cell(20, 4, 200);
    let grid = StatsGrid::new(10, 10, cells);
    let known: Vec<KnownModule> =
        (0..100).filter(|&i| i != 42).map(|i| KnownModule::new(i, grid.at(i).value)).collect();

    let conf = confidence(&grid, &known);
    assert!(at(&conf, 42) < 0.15, "coloured module scored {}", at(&conf, 42));
}

#[test]
fn ambiguous_module_scores_low() {
    let mut cells: Vec<ModuleStats> =
        (0..100).map(|i| if i % 2 == 0 { cell(20, 4, 1) } else { cell(235, 4, 1) }).collect();
    cells[13] = cell(127, 4, 1);
    let grid = StatsGrid::new(10, 10, cells);
    let known: Vec<KnownModule> =
        (0..100).filter(|&i| i != 13).map(|i| KnownModule::new(i, grid.at(i).value)).collect();

    let conf = confidence(&grid, &known);
    assert!(at(&conf, 13) < 0.2, "threshold-straddling module scored {}", at(&conf, 13));
}

#[test]
fn calibration_adapts_to_low_contrast() {
    let cells =
        (0..100).map(|i| if i % 2 == 0 { cell(120, 4, 1) } else { cell(136, 4, 1) }).collect();
    let grid = StatsGrid::new(10, 10, cells);
    let conf = confidence(&grid, &all_known(&grid));

    assert!(at(&conf, 0) > 0.9, "low-contrast module scored {}", at(&conf, 0));
}

#[test]
fn damaged_function_modules_are_excluded_from_calibration() {
    let mut cells: Vec<ModuleStats> = (0..100).map(|_| cell(20, 4, 1)).collect();
    for wrecked in cells.iter_mut().take(30) {
        *wrecked = cell(235, 9000, 180);
    }
    let grid = StatsGrid::new(10, 10, cells);
    let known: Vec<KnownModule> = (0..100).map(|i| KnownModule::new(i, true)).collect();

    let cal = calibration(&grid, &known);
    assert_eq!(cal.known_mismatched, 30);
    assert_eq!(cal.known_ok, 70);
    let rate = cal.known_mismatched as f32 / (cal.known_ok + cal.known_mismatched) as f32;
    assert!((rate - 0.3).abs() < 1e-6);
    assert_eq!(cal.var_ref, VAR_REF_FLOOR);
    assert_eq!(f32::from_bits(cal.var_ref), 256.0);
}

#[test]
fn mismatched_function_modules_are_forced_to_zero() {
    let cells: Vec<ModuleStats> = (0..100).map(|_| cell(20, 4, 1)).collect();
    let grid = StatsGrid::new(10, 10, cells);
    let mut known: Vec<KnownModule> = (0..100).map(|i| KnownModule::new(i, true)).collect();
    known[7] = KnownModule::new(7, false);

    let conf = confidence(&grid, &known);
    assert_eq!(at(&conf, 7), 0.0, "contradicted function module must score 0");
    assert!(at(&conf, 8) > 0.9, "its neighbour is unaffected");
    assert_eq!(certain_damage(&grid, &known), vec![7]);
}

#[test]
fn thin_reference_falls_back_to_floors() {
    let grid = clean_grid(10);
    let known: Vec<KnownModule> =
        (0..4).map(|i| KnownModule::new(i, grid.at(i).value)).collect();

    let cal = calibration(&grid, &known);
    assert!(!cal.is_well_founded());
    assert_eq!(cal.luma_scale, LUMA_SCALE_FLOOR);
    assert_eq!(cal.var_ref, VAR_REF_FLOOR);
    assert_eq!(cal.chroma_ref, CHROMA_REF_FLOOR);
    assert_eq!(f32::from_bits(LUMA_SCALE_FLOOR), 8.0);
    assert_eq!(f32::from_bits(CHROMA_REF_FLOOR), 24.0);
}

#[test]
fn an_uncalibrated_default_is_all_floors() {
    let cal = Calibration::default();
    assert_eq!(cal.luma_scale, LUMA_SCALE_FLOOR);
    assert_eq!(cal.var_ref, VAR_REF_FLOOR);
    assert_eq!(cal.chroma_ref, CHROMA_REF_FLOOR);
    assert_eq!((cal.known_ok, cal.known_mismatched), (0, 0));
}

#[test]
fn calibration_samples_are_sorted_and_hold_healthy_modules_only() {
    let mut cells: Vec<ModuleStats> =
        (0..30).map(|i| cell(100 - i, 30 - i as u16, i)).collect();
    cells[0] = cell(200, 1, 1);
    let grid = StatsGrid::new(6, 5, cells);
    let mut known: Vec<KnownModule> = (0..30).map(|i| KnownModule::new(i, true)).collect();
    known.push(KnownModule::new(30, true));

    let sample = calibration_sample(&grid, &known);
    assert_eq!(sample.margins, (29..=57).collect::<Vec<u16>>());
    assert_eq!(sample.variances, (1..=29).collect::<Vec<u16>>());
    assert_eq!(sample.chromas, (1..=29).collect::<Vec<u16>>());
    assert_eq!(sample.known_mismatched, 1);
}

#[test]
fn weakest_returns_worst_first() {
    let mut cells: Vec<ModuleStats> = (0..100).map(|_| cell(20, 4, 1)).collect();
    cells[10] = cell(127, 4, 1);
    cells[20] = cell(20, 500, 1);
    let grid = StatsGrid::new(10, 10, cells);
    let known: Vec<KnownModule> = (0..100)
        .filter(|&i| i != 10 && i != 20)
        .map(|i| KnownModule::new(i, true))
        .collect();

    let conf = confidence(&grid, &known);
    let weakest = conf.weakest(2);
    assert_eq!(weakest.len(), 2);
    assert_eq!(weakest[0], 10);
    assert_eq!(weakest[1], 20);
    assert_eq!(conf.weakest(3), vec![10, 20, 0], "ties go to the earlier module");
    assert_eq!(conf.weakest(1000).len(), 100);
}

// ---- morphology and regions ----
#[test]
fn dilate_and_erode_are_duals() {
    let mut m = vec![false; 25];
    m[12] = true;

    let d = dilate(&m, 5, 5, 1);
    assert_eq!(set(&d), 9, "3x3 block");

    let e = erode(&d, 5, 5, 1);
    assert_eq!(set(&e), 1, "back to the single cell");
    assert!(e[12]);
}

#[test]
fn opening_removes_isolated_speckle() {
    let mut m = vec![false; 100];
    m[11] = true;
    m[35] = true;
    m[77] = true;

    let opened = open(&m, 10, 10, 1);
    assert!(opened.iter().all(|&v| !v), "single-module speckle should not survive opening");
}

#[test]
fn closing_fills_holes_in_a_blob() {
    let mut m = vec![false; 100];
    for y in 2..8 {
        for x in 2..8 {
            m[y * 10 + x] = true;
        }
    }
    m[4 * 10 + 4] = false;
    m[5 * 10 + 5] = false;

    let closed = close(&m, 10, 10, 2);
    assert!(closed[4 * 10 + 4], "interior hole filled");
    assert!(closed[5 * 10 + 5], "interior hole filled");
}

#[test]
fn border_occlusion_survives_morphology() {
    let mut m = vec![false; 100];
    for y in 0..4 {
        for x in 0..4 {
            m[y * 10 + x] = true;
        }
    }
    let opened = open(&m, 10, 10, 1);
    assert!(opened[0], "corner blob survives opening");
    assert_eq!(set(&opened), 16);
}

#[test]
fn area_filter_drops_small_regions() {
    let mut m = vec![false; 100];
    m[0] = true;
    m[1] = true;
    m[10] = true;
    m[11] = true;
    for y in 5..8 {
        for x in 5..8 {
            m[y * 10 + x] = true;
        }
    }

    let (out, regions, largest) = filter_by_area(&m, 10, 10, 6);
    assert_eq!(regions, 1);
    assert_eq!(largest, 9);
    assert!(!out[0], "4-module region dropped");
    assert!(out[5 * 10 + 5], "9-module region kept");
}

#[test]
fn area_filter_treats_diagonals_as_connected() {
    let mut m = vec![false; 100];
    m[0] = true;
    m[1] = true;
    m[2] = true;
    m[13] = true;
    m[14] = true;
    m[15] = true;

    let (_, regions, largest) = filter_by_area(&m, 10, 10, 6);
    assert_eq!(regions, 1, "diagonal contact joins the regions");
    assert_eq!(largest, 6);
}

// ---- occlusion ----
#[test]
fn locates_a_logo_blob() {
    let (grid, known) = grid_with_logo(7, 7, 6);
    let conf = confidence(&grid, &known);
    let mask = locate(&conf, &[], &OcclusionParams::default());

    assert_eq!(mask.region_count, 1, "one logo, one region");
    assert!(
        mask.largest_region >= 30,
        "expected roughly the 36-module logo, got {}",
        mask.largest_region
    );

    for y in 7..13 {
        for x in 7..13 {
            assert!(mask.get(x, y), "logo module ({x},{y}) should be occluded");
        }
    }
    assert!(!mask.get(0, 0));
    assert!(!mask.get(19, 19));
}

#[test]
fn ignores_scattered_noise() {
    let n = 20;
    let mut cells: Vec<ModuleStats> =
        (0..n * n).map(|i| if i % 3 == 0 { cell(20, 4, 1) } else { cell(235, 4, 1) }).collect();
    for &i in &[5usize, 47, 111, 200, 333, 390] {
        cells[i] = cell(127, 4, 1);
    }
    let known: Vec<KnownModule> = (0..n * n)
        .filter(|i| ![5usize, 47, 111, 200, 333, 390].contains(i))
        .map(|i| KnownModule::new(i, cells[i].value))
        .collect();
    let grid = StatsGrid::new(n, n, cells);

    let conf = confidence(&grid, &known);
    let mask = locate(&conf, &[], &OcclusionParams::default());

    assert_eq!(mask.count(), 0, "scattered noise is not an occlusion");
    assert_eq!(mask.region_count, 0);
}

#[test]
fn certain_damage_bypasses_every_filter() {
    let n = 20;
    let cells: Vec<ModuleStats> = (0..n * n).map(|_| cell(20, 4, 1)).collect();
    let grid = StatsGrid::new(n, n, cells);
    let known: Vec<KnownModule> = (0..n * n).map(|i| KnownModule::new(i, true)).collect();
    let conf = confidence(&grid, &known);

    let mask = locate(&conf, &[123], &OcclusionParams::default());
    assert!(mask.at(123), "proven damage must survive morphology");
    assert_eq!(mask.count(), 1);
}

#[test]
fn fraction_reports_occluded_share() {
    let (grid, known) = grid_with_logo(7, 7, 6);
    let conf = confidence(&grid, &known);
    let mask = locate(&conf, &[], &OcclusionParams::default());

    let f = mask.count() as f32 / mask.as_slice().len() as f32;
    assert!(f > 0.07 && f < 0.12, "occluded fraction was {f}");
}

#[test]
fn masks_list_the_modules_they_cover() {
    let mut m = vec![false; 12];
    m[1] = true;
    m[10] = true;
    let mask = OcclusionMask::from_mask(4, 3, m);
    assert_eq!(mask.indices(), vec![1, 10]);
    assert_eq!(mask.count(), 2);
    assert!(mask.get(1, 0) && mask.get(2, 2));
}

#[test]
fn fitted_regions_fill_the_gaps_between_clustered_damage() {
    // Every other module of a square block, as erasures pulled out of interleaved blocks look.
    let n = 21;
    let mut damaged = Vec::new();
    for y in 6..14 {
        for x in 6..14 {
            if (x + y) % 2 == 0 {
                damaged.push(y * n + x);
            }
        }
    }
    let mask = fit_region(&damaged, n, n, &FitParams::default());
    for y in 7..13 {
        for x in 7..13 {
            assert!(mask.get(x, y), "({x},{y}) lies inside the blob");
        }
    }
    assert!(!mask.get(0, 0));
}

/// A grid of clean modules with these scores in front.
fn scored(n: usize, front: &[f32], rest: f32) -> ConfidenceGrid {
    let grid = clean_grid(n);
    let known = all_known(&grid);
    let cal = calibration(&grid, &known);
    let mut raw = vec![rest.to_bits(); n * n];
    for (i, s) in front.iter().enumerate() {
        raw[i] = s.to_bits();
    }
    evaluate(&grid, &known, cal, raw)
}

#[test]
fn weakest_orders_by_value() {
    let conf = scored(5, &[0.5, -0.25, 0.0, -2.0, 0.125], 0.75);
    assert_eq!(conf.weakest(6), vec![3, 1, 2, 4, 0, 5]);
}

#[test]
fn suspects_are_compared_by_value() {
    let params = |cut: f32| OcclusionParams {
        cut: cut.to_bits(),
        open_radius: 0,
        close_radius: 0,
        min_area: 1,
    };
    let conf = scored(5, &[-0.0, 0.0, -1.0, f32::NAN, 0.25], 0.75);
    assert_eq!(locate(&conf, &[], &params(0.0)).indices(), vec![0, 1, 2]);
    assert_eq!(locate(&conf, &[], &params(-0.0)).indices(), vec![0, 1, 2]);
    assert_eq!(locate(&conf, &[], &params(-0.5)).indices(), vec![2]);
    assert_eq!(locate(&conf, &[], &params(0.25)).indices(), vec![0, 1, 2, 4]);
    assert_eq!(locate(&conf, &[], &params(f32::NAN)).count(), 0);
}
