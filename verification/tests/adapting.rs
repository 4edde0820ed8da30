//! Adaptive plan switching and eddies.

use morsel_engine::adaptive::{divergence, AdaptiveExecutor};
use morsel_engine::eddy::{next_stage_cells, selectivity_output_cells, Eddy, EddyOperator, DEFAULT_LEARNING_RATE};
use morsel_engine::error::Error;
use morsel_engine::float_bits::FloatOp;
use morsel_engine::kernel::{KernelParams, KernelResult, MemoryTier, Operator};
use morsel_engine::morsel::Morsel;
use morsel_engine::plan::{LogicalPlan, PlanNode};

fn fpu(op: FloatOp, a: u64, b: u64) -> u64 {
    let (x, y) = (f64::from_bits(a), f64::from_bits(b));
    match op {
        FloatOp::Add => (x + y).to_bits(),
        FloatOp::Sub => (x - y).to_bits(),
        FloatOp::Mul => (x * y).to_bits(),
        FloatOp::Div => (x / y).to_bits(),
        FloatOp::Min => x.min(y).to_bits(),
        FloatOp::Max => x.max(y).to_bits(),
        FloatOp::FromU64 => (a as f64).to_bits(),
        FloatOp::FromI64 => (a as i64 as f64).to_bits(),
        FloatOp::ToI64 => (x as i64) as u64,
        FloatOp::ToU64 => x as u64,
        FloatOp::FusedDiscount => x.mul_add(-y, x).to_bits(),
        FloatOp::Pow => x.powf(y).to_bits(),
        FloatOp::Near => ((x - y).abs() < 1e-9) as u64,
        FloatOp::LinearCount => (-256.0 * (1.0 - a as f64 / 256.0).ln()).round() as u64,
    }
}

fn good<T>(r: Result<T, Error>) -> T {
    match r {
        Ok(x) => x,
        Err(e) => panic!("{e:?}"),
    }
}

fn kernels(op: Operator, _tier: MemoryTier, cells: &Vec<u64>, p: KernelParams) -> Option<KernelResult> {
    let cells = &cells[..p.cell_count];
    match op {
        Operator::ScanEqU64 => {
            let count = cells.iter().filter(|&&c| c == p.target_u64).count() as u64;
            Some(KernelResult { count, sum_bits: 0 })
        }
        Operator::AggregateSumF64 => {
            let sum: f64 = cells.iter().map(|&c| f64::from_bits(c)).sum();
            Some(KernelResult { count: cells.len() as u64, sum_bits: sum.to_bits() })
        }
        _ => None,
    }
}

fn test_plan() -> LogicalPlan {
    LogicalPlan::new(PlanNode::Scan { region_id: 0, operator: Operator::ScanEqU64, params: KernelParams::default() })
}

fn monitor(estimated: Vec<usize>, threshold: f64) -> AdaptiveExecutor {
    AdaptiveExecutor::new(test_plan(), estimated, threshold.to_bits())
}

fn max_div(exec: &AdaptiveExecutor) -> f64 {
    f64::from_bits(exec.max_divergence(&fpu))
}

fn div(estimated: usize, observed: usize) -> f64 {
    f64::from_bits(divergence(estimated, observed, &fpu))
}

#[test]
fn adaptive_divergence_triggers_switch_at_threshold() {
    let mut exec = monitor(vec![100], 0.5);
    assert!(!exec.should_switch(), "no switch before any observation");
    let switched = exec.observe(0, 1000, &fpu);
    assert!(switched, "10x misestimate should trigger a switch");
    assert!(exec.should_switch());
    let div = max_div(&exec);
    assert!((div - 9.0).abs() < 1e-9, "divergence should be 9.0 (|1000-100|/100), got {div}");
}

#[test]
fn adaptive_no_switch_when_estimates_accurate() {
    let mut exec = monitor(vec![100], 0.5);
    let switched = exec.observe(0, 105, &fpu);
    assert!(!switched, "5% misestimate should not trigger a switch");
    assert!(!exec.should_switch());
    let div = max_div(&exec);
    assert!((div - 0.05).abs() < 1e-9, "divergence should be 0.05 (|105-100|/100), got {div}");
}

#[test]
fn adaptive_switch_is_sticky_once_triggered() {
    let mut exec = monitor(vec![100], 0.5);
    let s1 = exec.observe(0, 1000, &fpu);
    assert!(s1);
    let s2 = exec.observe(0, 100, &fpu);
    assert!(s2, "switch should stay sticky after being triggered");
    assert!(exec.should_switch());
}

#[test]
fn adaptive_max_divergence_takes_max_across_stages() {
    let mut exec = monitor(vec![100, 50], 0.5);
    exec.observe(0, 110, &fpu);
    exec.observe(1, 150, &fpu);
    let div = max_div(&exec);
    assert!((div - 2.0).abs() < 1e-9, "max divergence should be 2.0, got {div}");
}

#[test]
fn adaptive_zero_estimated_zero_observed_is_zero_divergence() {
    let mut exec = monitor(vec![0], 0.5);
    exec.observe(0, 0, &fpu);
    assert!((max_div(&exec) - 0.0).abs() < 1e-9);
    assert!(!exec.should_switch());
}

#[test]
fn adaptive_zero_estimated_nonzero_observed_is_large_divergence() {
    let mut exec = monitor(vec![0], 0.5);
    exec.observe(0, 100, &fpu);
    let div = max_div(&exec);
    assert!((div - 100.0).abs() < 1e-9, "divergence should be 100.0, got {div}");
    assert!(exec.should_switch());
}

#[test]
fn adaptive_observe_out_of_bounds_stage_is_noop() {
    let mut exec = monitor(vec![100], 0.5);
    let switched = exec.observe(5, 1000, &fpu);
    assert!(!switched, "out-of-bounds observation should be a no-op");
    assert!(!exec.should_switch());
}

#[test]
fn adaptive_underestimate_triggers_switch() {
    let mut exec = monitor(vec![1000], 0.5);
    let switched = exec.observe(0, 100, &fpu);
    assert!(switched, "90% underestimate should trigger a switch");
    let div = max_div(&exec);
    assert!((div - 0.9).abs() < 1e-9, "divergence should be 0.9, got {div}");
}

#[test]
fn adaptive_exact_match_is_zero_divergence() {
    let mut exec = monitor(vec![100, 200, 300], 0.5);
    exec.observe(0, 100, &fpu);
    exec.observe(1, 200, &fpu);
    exec.observe(2, 300, &fpu);
    assert!((max_div(&exec) - 0.0).abs() < 1e-9);
    assert!(!exec.should_switch());
}

#[test]
fn adaptive_threshold_zero_triggers_on_any_misestimate() {
    let mut exec = monitor(vec![100], 0.0);
    exec.observe(0, 101, &fpu);
    assert!(exec.should_switch(), "threshold 0 should trigger on any misestimate");
}

#[test]
fn adaptive_threshold_large_never_triggers() {
    let mut exec = monitor(vec![100], 1e9);
    exec.observe(0, 1_000_000, &fpu);
    assert!(!exec.should_switch(), "huge threshold should not trigger");
}

#[test]
fn adaptive_stage_count_matches_estimated_length() {
    let exec = monitor(vec![10, 20, 30], 0.5);
    assert_eq!(exec.stage_count(), 3);
}

#[test]
fn adaptive_estimated_and_observed_accessors() {
    let mut exec = monitor(vec![10, 20], 0.5);
    assert_eq!(exec.estimated(0), Some(10));
    assert_eq!(exec.estimated(1), Some(20));
    assert_eq!(exec.estimated(2), None);
    exec.observe(0, 15, &fpu);
    assert_eq!(exec.observed(0), Some(15));
    assert_eq!(exec.observed(1), None);
}

#[test]
fn adaptive_plan_accessor_returns_original_plan() {
    let exec = monitor(vec![10], 0.5);
    assert!(matches!(exec.plan().root, PlanNode::Scan { .. }));
}

#[test]
fn adaptive_switch_threshold_accessor() {
    let exec = monitor(vec![10], 0.42);
    assert!((f64::from_bits(exec.switch_threshold()) - 0.42).abs() < 1e-9);
}

#[test]
fn adaptive_debug_format_works() {
    let exec = monitor(vec![10, 20], 0.5);
    let threshold = format!("{:?}", f64::from_bits(exec.switch_threshold()));
    let divergence = format!("{:?}", max_div(&exec));
    let s = exec.debug_text(&threshold, &divergence);
    assert!(s.contains("AdaptiveExecutor"));
    assert!(s.contains("stage_count"));
    assert!(s.contains("switch_threshold"));
    assert!(s.contains("switched"));
    assert!(s.contains("max_divergence"));
    assert_eq!(
        s,
        "AdaptiveExecutor { stage_count: 2, switch_threshold: 0.5, switched: false, max_divergence: 0.0 }"
    );
}

#[test]
fn divergence_function_handles_typical_cases() {
    assert!((div(100, 100) - 0.0).abs() < 1e-9);
    assert!((div(100, 150) - 0.5).abs() < 1e-9);
    assert!((div(100, 50) - 0.5).abs() < 1e-9);
    assert!((div(100, 1000) - 9.0).abs() < 1e-9);
    assert!((div(1000, 100) - 0.9).abs() < 1e-9);
    assert!((div(0, 0) - 0.0).abs() < 1e-9);
    assert!((div(0, 50) - 50.0).abs() < 1e-9);
}

#[test]
fn adaptive_10x_misestimate_triggers_switch_at_threshold_1() {
    let mut exec = monitor(vec![100], 1.0);
    let switched = exec.observe(0, 1000, &fpu);
    assert!(switched, "10x misestimate should trigger switch at threshold 1.0");
    assert!((max_div(&exec) - 9.0).abs() < 1e-9);
}

fn f64_morsel(values: &[f64]) -> Morsel {
    let cells: Vec<u64> = values.iter().map(|v| v.to_bits()).collect();
    Morsel::new(0, 0, &cells)
}

fn estimates(eddy: &Eddy) -> Vec<f64> {
    eddy.selectivities().iter().map(|&b| f64::from_bits(b)).collect()
}

fn target(cell: u64) -> KernelParams {
    KernelParams { target_u64: cell, ..Default::default() }
}

#[test]
fn eddy_processes_morsel_through_three_operators_collects_all_results() {
    let ops = vec![Operator::ScanEqU64, Operator::AggregateSumF64, Operator::ScanEqU64];
    let mut eddy = Eddy::new(ops, DEFAULT_LEARNING_RATE);
    let morsel = f64_morsel(&[1.0, 2.0, 1.0, 3.0, 1.0, 4.0]);
    let results = good(eddy.process_morsel(&morsel, &kernels, &target(1.0_f64.to_bits()), &fpu));
    assert_eq!(results.len(), 3, "eddy should apply all 3 operators");
}

#[test]
fn eddy_most_selective_operator_applied_first() {
    let ops = vec![Operator::ScanEqU64, Operator::ScanRangeU64, Operator::ScanEqU64];
    let mut eddy = Eddy::new(ops, DEFAULT_LEARNING_RATE);
    eddy.operators[0].selectivity = 0.5f64.to_bits();
    eddy.operators[1].selectivity = 0.01f64.to_bits();
    eddy.operators[2].selectivity = 0.5f64.to_bits();
    let order = eddy.routing_order();
    assert_eq!(order[0], 1, "most selective operator (idx 1) should be first");
    assert!(order[1] != 1 && order[2] != 1);
}

#[test]
fn eddy_selectivity_updates_after_observation() {
    let mut eddy = Eddy::new(vec![Operator::ScanEqU64], 1.0f64.to_bits());
    let morsel = f64_morsel(&[1.0, 2.0, 1.0, 3.0, 1.0, 4.0]);
    assert!((estimates(&eddy)[0] - 1.0).abs() < 1e-9);
    let _ = good(eddy.process_morsel(&morsel, &kernels, &target(1.0_f64.to_bits()), &fpu));
    let sel = estimates(&eddy)[0];
    assert!((sel - 0.5).abs() < 1e-9, "selectivity should be 0.5 after one observation (lr=1.0), got {sel}");
    assert_eq!(eddy.operators[0].morsels_processed, 1);
    assert_eq!(eddy.operators[0].cells_output, 3);
}

#[test]
fn eddy_empty_morsel_after_first_filter_stops_early() {
    let ops = vec![Operator::ScanEqU64, Operator::AggregateSumF64, Operator::ScanEqU64];
    let mut eddy = Eddy::new(ops, 1.0f64.to_bits());
    eddy.operators[0].selectivity = 0.01f64.to_bits();
    eddy.operators[1].selectivity = 1.0f64.to_bits();
    eddy.operators[2].selectivity = 1.0f64.to_bits();
    let morsel = f64_morsel(&[1.0, 2.0, 3.0, 4.0, 5.0, 6.0]);
    let results = good(eddy.process_morsel(&morsel, &kernels, &target(99), &fpu));
    assert_eq!(results.len(), 1, "eddy should stop after the first filter empties the morsel");
    assert_eq!(results[0].count, 0);
}

#[test]
fn eddy_routing_order_on_fresh_eddy_is_declaration_order() {
    let ops = vec![Operator::ScanEqU64, Operator::ScanRangeU64, Operator::AggregateSumF64];
    let eddy = Eddy::new(ops, DEFAULT_LEARNING_RATE);
    let order = eddy.routing_order();
    assert_eq!(order, vec![0, 1, 2]);
}

#[test]
fn eddy_routing_order_picks_lowest_selectivity_first() {
    let ops = vec![Operator::ScanEqU64, Operator::ScanRangeU64, Operator::AggregateSumF64];
    let mut eddy = Eddy::new(ops, DEFAULT_LEARNING_RATE);
    eddy.operators[0].selectivity = 0.5f64.to_bits();
    eddy.operators[1].selectivity = 0.1f64.to_bits();
    eddy.operators[2].selectivity = 0.9f64.to_bits();
    let order = eddy.routing_order();
    assert_eq!(order, vec![1, 0, 2]);
}

#[test]
fn eddy_reset_clears_selectivities_and_counters() {
    let mut eddy = Eddy::new(vec![Operator::ScanEqU64], 1.0f64.to_bits());
    let morsel = f64_morsel(&[1.0, 1.0, 2.0]);
    let _ = good(eddy.process_morsel(&morsel, &kernels, &target(1.0_f64.to_bits()), &fpu));
    assert!((estimates(&eddy)[0] - 1.0).abs() > 1e-9);
    assert_eq!(eddy.operators[0].morsels_processed, 1);
    eddy.reset();
    assert!((estimates(&eddy)[0] - 1.0).abs() < 1e-9);
    assert_eq!(eddy.operators[0].morsels_processed, 0);
    assert_eq!(eddy.operators[0].cells_output, 0);
}

#[test]
fn eddy_learning_rate_zero_keeps_selectivity_at_one() {
    let mut eddy = Eddy::new(vec![Operator::ScanEqU64], 0.0f64.to_bits());
    let morsel = f64_morsel(&[1.0, 1.0, 2.0]);
    let _ = good(eddy.process_morsel(&morsel, &kernels, &target(1.0_f64.to_bits()), &fpu));
    assert!((estimates(&eddy)[0] - 1.0).abs() < 1e-9);
    assert_eq!(eddy.operators[0].morsels_processed, 1);
    assert_eq!(eddy.operators[0].cells_output, 2);
}

#[test]
fn eddy_empty_operator_list_returns_no_results() {
    let mut eddy = Eddy::new(vec![], DEFAULT_LEARNING_RATE);
    let morsel = Morsel::new(0, 0, &[1, 2, 3]);
    let results = good(eddy.process_morsel(&morsel, &kernels, &KernelParams::default(), &fpu));
    assert!(results.is_empty());
    assert_eq!(eddy.operator_count(), 0);
}

#[test]
fn eddy_learning_rate_clamped_to_unit_interval() {
    let mut hi = Eddy::new(vec![Operator::ScanEqU64], 5.0f64.to_bits());
    let mut lo = Eddy::new(vec![Operator::ScanEqU64], (-5.0f64).to_bits());
    let morsel = f64_morsel(&[1.0, 2.0]);
    let _ = good(hi.process_morsel(&morsel, &kernels, &target(1.0_f64.to_bits()), &fpu));
    let _ = good(lo.process_morsel(&morsel, &kernels, &target(1.0_f64.to_bits()), &fpu));
    assert!((estimates(&hi)[0] - 0.5).abs() < 1e-9);
    assert!((estimates(&lo)[0] - 1.0).abs() < 1e-9);
}

#[test]
fn eddy_exponential_weighting_converges_to_true_selectivity() {
    let mut eddy = Eddy::new(vec![Operator::ScanEqU64], 0.1f64.to_bits());
    let morsel = f64_morsel(&[1.0, 2.0, 1.0, 3.0]);
    for _ in 0..100 {
        let _ = good(eddy.process_morsel(&morsel, &kernels, &target(1.0_f64.to_bits()), &fpu));
    }
    let sel = estimates(&eddy)[0];
    assert!((sel - 0.5).abs() < 0.01, "after 100 observations, selectivity should be ~0.5, got {sel}");
}

#[test]
fn eddy_operator_observe_handles_empty_input() {
    let mut op = EddyOperator::new(Operator::ScanEqU64);
    let original_sel = f64::from_bits(op.selectivity);
    op.observe(0, 0, 0.1f64.to_bits(), &fpu);
    assert!((f64::from_bits(op.selectivity) - original_sel).abs() < 1e-9);
    assert_eq!(op.morsels_processed, 1);
}

#[test]
fn eddy_operator_observe_clamps_ratio_above_one() {
    let mut op = EddyOperator::new(Operator::ScanEqU64);
    op.observe(10, 20, 1.0f64.to_bits(), &fpu);
    assert!((f64::from_bits(op.selectivity) - 1.0).abs() < 1e-9);
}

#[test]
fn eddy_debug_format_works() {
    let eddy = Eddy::new(vec![Operator::ScanEqU64, Operator::ScanRangeU64], 0.1f64.to_bits());
    let s = eddy.debug_text(
        &format!("{:?}", f64::from_bits(eddy.learning_rate)),
        &format!("{:?}", estimates(&eddy)),
    );
    assert!(s.contains("Eddy"));
    assert!(s.contains("operator_count"));
    assert!(s.contains("learning_rate"));
    assert!(s.contains("selectivities"));
    assert_eq!(s, "Eddy { operator_count: 2, learning_rate: 0.1, selectivities: [1.0, 1.0] }");
}

#[test]
fn eddy_operator_count_matches_construction() {
    assert_eq!(Eddy::new(vec![], 0.1f64.to_bits()).operator_count(), 0);
    assert_eq!(
        Eddy::new(vec![Operator::ScanEqU64, Operator::ScanRangeU64], 0.1f64.to_bits()).operator_count(),
        2
    );
}

#[test]
fn eddy_operator_accessor_returns_some_for_valid_index() {
    let eddy = Eddy::new(vec![Operator::ScanEqU64, Operator::ScanRangeU64], 0.1f64.to_bits());
    assert!(eddy.operator(0).is_some());
    assert!(eddy.operator(1).is_some());
    assert!(eddy.operator(2).is_none());
}

#[test]
fn eddy_aggregate_operator_selectivity_stays_at_one() {
    let mut eddy = Eddy::new(vec![Operator::AggregateSumF64], 1.0f64.to_bits());
    let morsel = f64_morsel(&[1.0, 2.0, 3.0]);
    let _ = good(eddy.process_morsel(&morsel, &kernels, &KernelParams::default(), &fpu));
    assert!(
        (estimates(&eddy)[0] - 1.0).abs() < 1e-9,
        "aggregate selectivity should stay at 1.0, got {}",
        estimates(&eddy)[0]
    );
}

#[test]
fn default_learning_rate_is_a_tenth() {
    assert_eq!(f64::from_bits(DEFAULT_LEARNING_RATE), 0.1);
}

#[test]
fn operator_without_kernel_is_refused() {
    let mut eddy = Eddy::new(vec![Operator::HashProbe, Operator::ScanEqU64], DEFAULT_LEARNING_RATE);
    let r = eddy.process_morsel(&Morsel::new(0, 0, &[1, 1]), &kernels, &target(1), &fpu);
    assert!(matches!(r, Err(Error::Unsupported(m)) if m.starts_with("no kernel for operator ")));
    assert_eq!(eddy.operators[0].morsels_processed, 0);
    assert_eq!(eddy.operators[1].morsels_processed, 0);
    assert_eq!(eddy.applied, vec![false, false]);
    eddy.operators[1].selectivity = 0.5f64.to_bits();
    let r = eddy.process_morsel(&Morsel::new(0, 0, &[1, 1]), &kernels, &target(1), &fpu);
    assert!(r.is_err());
    assert_eq!(eddy.operators[1].morsels_processed, 1);
    assert_eq!(eddy.applied, vec![false, true]);
    let r = eddy.process_morsel(&Morsel::new(0, 0, &[2, 2]), &kernels, &target(1), &fpu);
    assert!(matches!(r, Ok(results) if results.len() == 1 && results[0].count == 0));
    let r = eddy.process_morsel(&Morsel::new(0, 0, &[]), &kernels, &target(1), &fpu);
    assert!(matches!(r, Ok(results) if results.is_empty()));
}

#[test]
fn a_kernel_may_report_more_matches_than_cells() {
    let many = |_: Operator, _: MemoryTier, _: &Vec<u64>, _: KernelParams| Some(KernelResult { count: 9, ..KernelResult::default() });
    let mut eddy = Eddy::new(vec![Operator::ScanEqU64], 1.0f64.to_bits());
    let results = good(eddy.process_morsel(&Morsel::new(0, 0, &[1, 1]), &many, &target(1), &fpu));
    assert_eq!(results.len(), 1);
    assert_eq!(eddy.operators[0].cells_output, 9);
    assert_eq!(estimates(&eddy)[0], 1.0);
}

#[test]
fn cells_flow_by_operator() {
    let result = KernelResult { count: 3, sum_bits: 0 };
    assert_eq!(selectivity_output_cells(Operator::ScanRangeU64, &result, 10), 3);
    assert_eq!(selectivity_output_cells(Operator::HashBuild, &result, 10), 10);
    assert_eq!(next_stage_cells(Operator::LeapfrogJoin, &result, 7, 10), 3);
    assert_eq!(next_stage_cells(Operator::AggregateCountDistinct, &result, 7, 10), 7);
    assert_eq!(next_stage_cells(Operator::AggregateSumF64, &result, 12, 10), 12);
    assert_eq!(next_stage_cells(Operator::HashBuild, &result, 12, 10), 12);
}

#[test]
fn a_missing_stage_changes_nothing_below_any_threshold() {
    let mut exec = monitor(vec![100], -1.0);
    assert!(!exec.observe(5, 1000, &fpu));
    assert!(!exec.should_switch());
    assert!(exec.observe(0, 100, &fpu));
}

#[test]
fn large_counts_are_far_from_small_ones() {
    assert_eq!(div(1, usize::MAX), 18446744073709551616.0);
    assert_eq!(div(usize::MAX, 1), 1.0);
}
