//! Spending the error-correction budget: plans, provenance and the bootstrap loop.
use barclean::clean::bootstrap::{plan_from_region, BlockState};
use barclean::clean::erasure::{codeword_confidence, plan_block};
use barclean::clean::{
    bootstrap, BlockLayout, BootstrapParams, CodewordProvenance, ErasurePlan,
};
use barclean::sample::occlusion::{fit_region, FitParams, OcclusionMask};

fn bits(values: &[f32]) -> Vec<u32> {
    values.iter().map(|v| v.to_bits()).collect()
}

fn cut() -> u32 {
    0.25f32.to_bits()
}

// ---- erasure plans ----
#[test]
fn ecc_capacity_arithmetic() {
    let l = BlockLayout::new(26, 16);
    assert_eq!(l.ecc(), 10);
    assert_eq!(l.max_errors(), 5, "5 errors, or 10 erasures: the 2x lever");
}

#[test]
fn codeword_confidence_takes_the_minimum() {
    let module_conf = bits(&[0.99, 0.98, 0.97, 0.02, 0.99, 0.98, 0.99, 0.97]);
    let prov = CodewordProvenance::from_lists(&[vec![0, 1, 2, 3, 4, 5, 6, 7]]);

    let cw = codeword_confidence(&module_conf, &prov);
    assert_eq!(cw.len(), 1);
    assert!(
        (f32::from_bits(cw[0]) - 0.02).abs() < 1e-6,
        "one damaged module must sink the codeword, got {}",
        f32::from_bits(cw[0])
    );
}

#[test]
fn provenance_handles_variable_codeword_widths() {
    let prov =
        CodewordProvenance::from_lists(&[vec![0, 1, 2, 3, 4, 5, 6, 7], (8..25).collect()]);
    assert_eq!(prov.len(), 2);
    assert_eq!(prov.modules_of(0).len(), 8);
    assert_eq!(prov.modules_of(1).len(), 17);
    assert_eq!(prov.modules_of(99), &[] as &[usize]);
    assert_eq!(prov.modules_of(1), (8..25).collect::<Vec<usize>>().as_slice());
    assert!(!prov.is_empty());
}

#[test]
fn missing_module_data_defaults_to_confident() {
    let prov = CodewordProvenance::from_lists(&[vec![]]);
    let cw = codeword_confidence(&[], &prov);
    assert_eq!(cw, bits(&[1.0]));
}

#[test]
fn marks_only_suspect_codewords() {
    let layout = BlockLayout::new(26, 16);
    let mut conf = vec![0.9f32; 26];
    conf[3] = 0.05;
    conf[7] = 0.10;
    conf[20] = 0.01;

    let plan = plan_block(&bits(&conf), layout, cut(), 0);
    assert_eq!(plan.positions, vec![3, 7, 20]);
    assert_eq!(plan.unmarked_suspects, 0);
    assert_eq!(plan.remaining_error_capacity, 3);
}

#[test]
fn healthy_block_gets_no_erasures() {
    let layout = BlockLayout::new(26, 16);
    let plan = plan_block(&bits(&vec![0.95f32; 26]), layout, cut(), 0);
    assert!(plan.is_empty(), "spending budget on a clean block is a net loss");
    assert_eq!(plan.remaining_error_capacity, 5);
}

#[test]
fn budget_caps_at_ecc_and_keeps_the_worst() {
    let layout = BlockLayout::new(26, 16);
    let mut conf = vec![0.9f32; 26];
    for (n, i) in (0..14).enumerate() {
        conf[i] = 0.01 * n as f32;
    }

    let plan = plan_block(&bits(&conf), layout, cut(), 0);
    assert_eq!(plan.positions.len(), 10, "capped at the ECC count");
    assert_eq!(plan.unmarked_suspects, 4, "caller must escalate");
    assert_eq!(plan.positions, (0..10).collect::<Vec<_>>());
    assert_eq!(plan.remaining_error_capacity, 0);
}

#[test]
fn reserving_error_capacity_costs_two_erasures_each() {
    let layout = BlockLayout::new(26, 16);
    let mut conf = vec![0.9f32; 26];
    for c in conf.iter_mut().take(10) {
        *c = 0.01;
    }

    let none = plan_block(&bits(&conf), layout, cut(), 0);
    assert_eq!(none.positions.len(), 10);

    let reserved = plan_block(&bits(&conf), layout, cut(), 2);
    assert_eq!(reserved.positions.len(), 6);
    assert_eq!(reserved.unmarked_suspects, 4);
    assert_eq!(reserved.remaining_error_capacity, 2);

    let all = plan_block(&bits(&conf), layout, cut(), usize::MAX);
    assert!(all.is_empty(), "nothing is left when more is reserved than there is");
    assert_eq!(all.unmarked_suspects, 10);
}

#[test]
fn positions_are_ascending_regardless_of_badness_order() {
    let layout = BlockLayout::new(26, 16);
    let mut conf = vec![0.9f32; 26];
    conf[20] = 0.01;
    conf[2] = 0.05;
    conf[11] = 0.10;

    let plan = plan_block(&bits(&conf), layout, cut(), 0);
    assert_eq!(plan.positions, vec![2, 11, 20], "sorted for the decoder");
}

#[test]
fn empty_plan_reports_full_error_capacity() {
    let layout = BlockLayout::new(26, 16);
    let plan = ErasurePlan::none(layout);
    assert!(plan.is_empty());
    assert_eq!(plan.remaining_error_capacity, 5);
}

#[test]
fn a_cut_below_zero_marks_nothing_healthy() {
    let layout = BlockLayout::new(26, 16);
    let plan = plan_block(&bits(&[0.5f32; 26]), layout, (-1.0f32).to_bits(), 0);
    assert!(plan.is_empty());
    assert_eq!(plan.unmarked_suspects, 0);
    assert_eq!(plan.remaining_error_capacity, 5);

    let mut conf = vec![0.5f32; 26];
    conf[4] = -1.0;
    conf[9] = -3.0;
    conf[11] = f32::NEG_INFINITY;
    conf[12] = f32::NAN;
    let plan = plan_block(&bits(&conf), layout, (-1.0f32).to_bits(), 0);
    assert_eq!(plan.positions, vec![4, 9, 11]);
    // Reserving four errors leaves two erasures: they go to the lowest.
    let plan = plan_block(&bits(&conf), layout, (-1.0f32).to_bits(), 4);
    assert_eq!(plan.positions, vec![9, 11]);
    assert_eq!(plan.unmarked_suspects, 1);
}

#[test]
fn zeros_of_either_sign_are_at_a_cut_of_zero() {
    let layout = BlockLayout::new(26, 16);
    let mut conf = vec![0.5f32; 26];
    conf[1] = 0.0;
    conf[2] = -0.0;
    for zero in [0.0f32, -0.0] {
        let plan = plan_block(&bits(&conf), layout, zero.to_bits(), 0);
        assert_eq!(plan.positions, vec![1, 2]);
    }
    let plan = plan_block(&bits(&conf), layout, f32::NAN.to_bits(), 0);
    assert!(plan.is_empty(), "nothing is at or below what is no number");
}

#[test]
fn codeword_confidence_orders_by_value() {
    let conf = bits(&[0.5, -0.25, f32::NAN, -2.0, f32::NEG_INFINITY, f32::INFINITY]);
    let prov = CodewordProvenance::from_lists(&[
        vec![0, 1],
        vec![0, 2],
        vec![1, 3, 0],
        vec![0, 4],
        vec![5],
        vec![2],
        vec![0, 99],
    ]);
    let expected = bits(&[-0.25, 0.5, -2.0, 1.0, 1.0, 1.0, 0.5]);
    assert_eq!(codeword_confidence(&conf, &prov), expected);
}

// ---- the loop ----
/// Blocks of 26 codewords, 16 data, 10 ECC.
fn layouts(n: usize) -> Vec<BlockLayout> {
    vec![BlockLayout::new(26, 16); n]
}

fn interleaved_to_global(blocks: usize) -> impl Fn(usize, usize) -> Option<usize> {
    move |b, local| Some(local * blocks + b)
}

/// Every codeword owns 8 consecutive modules.
fn simple_provenance(codewords: usize) -> Vec<Vec<usize>> {
    (0..codewords).map(|i| (i * 8..i * 8 + 8).collect()).collect()
}

#[test]
fn complete_first_round_decode_needs_no_bootstrapping() {
    let l = layouts(2);
    let prov = simple_provenance(52);
    let decode = |_b: usize, _e: &[usize]| Some((vec![0u8; 26], Vec::new()));

    let out = bootstrap(
        &l,
        &interleaved_to_global(2),
        &prov,
        32,
        &decode,
        &BootstrapParams::default(),
    );

    assert!(out.complete());
    assert_eq!(out.rounds, 1, "no refinement needed");
    assert_eq!(out.blocks_rescued(), 0);
    assert!(out.damaged_codeword_modules.is_empty());
}

#[test]
fn total_failure_terminates_without_spinning() {
    let l = layouts(4);
    let prov = simple_provenance(104);
    let decode = |_b: usize, _e: &[usize]| None;

    let out = bootstrap(
        &l,
        &interleaved_to_global(4),
        &prov,
        64,
        &decode,
        &BootstrapParams::default(),
    );

    assert!(!out.complete());
    assert_eq!(out.rounds, 1, "must stop on the first round, not iterate uselessly");
    assert_eq!(out.blocks_decoded_finally, 0);
    assert!(out.region.is_none());
}

#[test]
fn rescues_a_failed_block_using_a_survivor_s_evidence() {
    let l = layouts(2);
    let prov = simple_provenance(52);
    let damaged_locals: Vec<usize> = (4..12).collect();

    let decode = move |b: usize, erasures: &[usize]| -> Option<(Vec<u8>, Vec<usize>)> {
        if b == 0 {
            return Some((vec![0u8; 26], damaged_locals.clone()));
        }
        if erasures.is_empty() {
            None
        } else {
            Some((vec![1u8; 26], Vec::new()))
        }
    };

    let out = bootstrap(
        &l,
        &interleaved_to_global(2),
        &prov,
        32,
        &decode,
        &BootstrapParams::default(),
    );

    assert!(out.complete(), "the failed block should have been rescued");
    assert_eq!(out.blocks_decoded_initially, 1);
    assert_eq!(out.blocks_decoded_finally, 2);
    assert_eq!(out.blocks_rescued(), 1);
    assert!(out.rounds >= 2, "rescue requires at least one refinement round");
    let proven: Vec<usize> = (4..12).flat_map(|local| local * 16..local * 16 + 8).collect();
    let fitted = fit_region(&proven, 32, 32, &FitParams::default());
    let region = out.region.as_ref().expect("the region that the rescue was planned from");
    assert_eq!(region.occluded, fitted.occluded);
    assert_eq!((region.region_count, region.largest_region), (fitted.region_count, fitted.largest_region));
    let mut data = vec![0u8; 16];
    data.extend(vec![1u8; 16]);
    assert_eq!(out.data, Some(data));
}

#[test]
fn stops_when_a_round_rescues_nothing() {
    let l = layouts(2);
    let prov = simple_provenance(52);

    let decode = |b: usize, _e: &[usize]| -> Option<(Vec<u8>, Vec<usize>)> {
        if b == 0 {
            Some((vec![0u8; 26], vec![4, 5, 6]))
        } else {
            None
        }
    };

    let out = bootstrap(
        &l,
        &interleaved_to_global(2),
        &prov,
        32,
        &decode,
        &BootstrapParams::default(),
    );

    assert!(!out.complete());
    assert_eq!(out.blocks_decoded_finally, 1, "floor is plain decoding's result");
    assert_eq!(out.rounds, 2, "one round to gather evidence, one to find it stale");
    assert!(!out.damaged_codeword_modules.is_empty());
}

#[test]
fn erasure_budget_is_respected_per_block() {
    let states = vec![BlockState {
        index: 0,
        layout: BlockLayout::new(26, 16),
        damaged: Vec::new(),
        codewords: None,
    }];
    let prov = simple_provenance(26);
    let region = fit_region(&(0..208).collect::<Vec<_>>(), 32, 32, &FitParams::default());

    let plans = plan_from_region(&states, &|_b, local| Some(local), &prov, &region);
    assert!(
        plans[0].len() <= 10,
        "planned {} erasures against a 10-codeword budget",
        plans[0].len()
    );
    assert_eq!(plans[0], (0..10).collect::<Vec<_>>(), "of equally buried codewords the first");
}

#[test]
fn decoded_blocks_are_never_given_erasures() {
    let states = vec![BlockState {
        index: 0,
        layout: BlockLayout::new(26, 16),
        damaged: vec![1, 2],
        codewords: Some(vec![0u8; 26]),
    }];
    let prov = simple_provenance(26);
    let region = fit_region(&(0..208).collect::<Vec<_>>(), 32, 32, &FitParams::default());

    let plans = plan_from_region(&states, &|_b, local| Some(local), &prov, &region);
    assert!(
        plans[0].is_empty(),
        "a solved block must be left alone; erasing it could only lose information"
    );
}

#[test]
fn deeply_covered_codewords_are_preferred_over_rim_codewords() {
    let states = vec![BlockState {
        index: 0,
        layout: BlockLayout::new(6, 2),
        damaged: Vec::new(),
        codewords: None,
    }];
    let prov: Vec<Vec<usize>> = vec![
        vec![0, 1, 2, 3, 4, 5, 6, 7],
        vec![7, 100, 101, 102, 103, 104, 105, 106],
        vec![6, 110, 111, 112, 113, 114, 115, 116],
        vec![5, 120, 121, 122, 123, 124, 125, 126],
        vec![4, 130, 131, 132, 133, 134, 135, 136],
        vec![3, 140, 141, 142, 143, 144, 145, 146],
    ];
    let region = OcclusionMask::from_mask(32, 32, (0..32 * 32).map(|i| i < 8).collect());

    let plans = plan_from_region(&states, &|_b, local| Some(local), &prov, &region);
    assert!(
        plans[0].contains(&0),
        "the fully-buried codeword must make the cut, got {:?}",
        plans[0]
    );
    assert_eq!(plans[0].len(), 4, "capped at the 4-codeword ECC budget");
}

#[test]
fn a_block_that_decoded_keeps_its_answer_in_later_rounds() {
    // The second answer of block 0 would differ; it is never asked for.
    let l = layouts(2);
    let prov = simple_provenance(52);
    let asked = std::cell::Cell::new(0);
    let decode = |b: usize, erasures: &[usize]| -> Option<(Vec<u8>, Vec<usize>)> {
        if b == 0 {
            asked.set(asked.get() + 1);
            return Some((vec![asked.get(); 26], (4..12).collect()));
        }
        if erasures.is_empty() {
            None
        } else {
            Some((vec![9; 26], Vec::new()))
        }
    };
    let out = bootstrap(
        &l,
        &interleaved_to_global(2),
        &prov,
        32,
        &decode,
        &BootstrapParams::default(),
    );
    assert_eq!(asked.get(), 1);
    assert_eq!(out.blocks[0].codewords, Some(vec![1; 26]));
}

#[test]
fn one_round_is_run_even_when_none_is_asked_for() {
    let decode = |_b: usize, _e: &[usize]| Some((vec![0u8; 26], Vec::new()));
    let params = BootstrapParams { max_rounds: 0, ..BootstrapParams::default() };
    let out = bootstrap(
        &layouts(2),
        &interleaved_to_global(2),
        &simple_provenance(52),
        32,
        &decode,
        &params,
    );
    assert_eq!(out.rounds, 1);
    assert!(out.complete());
}
