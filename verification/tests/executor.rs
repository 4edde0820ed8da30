//! Plans, morsels, dispatch, pipelines and the scheduler.

use morsel_engine::dispatcher::MorselDispatcher;
use morsel_engine::error::Error;
use morsel_engine::kernel::{KernelParams, KernelResult, MemoryTier, Operator};
use morsel_engine::morsel::{Morsel, MORSEL_SIZE};
use morsel_engine::pipeline::{Pipeline, PipelineBreaker};
use morsel_engine::plan::{lower_to_kernels, LogicalPlan, PlanNode, RegionId};
use morsel_engine::scheduler::{Region, Scheduler};

/// Kernels for scans, sums and similarity.
fn kernels(op: Operator, _tier: MemoryTier, cells: &Vec<u64>, p: KernelParams) -> Option<KernelResult> {
    let cells = &cells[..p.cell_count];
    match op {
        Operator::ScanEqU64 => {
            let count = cells.iter().filter(|&&c| c == p.target_u64).count() as u64;
            Some(KernelResult { count, sum_bits: 0 })
        }
        Operator::AggregateSumF64 => {
            let sum: f64 = cells.iter().map(|&c| f64::from_bits(c)).sum();
            Some(KernelResult { count: cells.len() as u64, sum_bits: sum.to_bits() })
        }
        Operator::SimilarityHamming => {
            let count = cells.iter().filter(|&&c| (c ^ p.target_u64).count_ones() <= p.max_distance).count() as u64;
            Some(KernelResult { count, sum_bits: 0 })
        }
        _ => None,
    }
}

#[test]
fn dispatcher_round_robin_three_workers_five_morsels() {
    let mut dispatcher = MorselDispatcher::new(3);
    assert_eq!(dispatcher.worker_count(), 3);

    let expected = [0_usize, 1, 2, 0, 1];
    for (i, &expected_worker) in expected.iter().enumerate() {
        let morsel = Morsel::new(0, i * 1024, &[i as u64; 16]);
        let chosen = dispatcher.dispatch(morsel);
        assert_eq!(chosen, expected_worker, "morsel {i} should go to worker {expected_worker}, got {chosen}");
    }
}

#[test]
fn dispatcher_single_worker_assigns_all_to_zero() {
    let mut dispatcher = MorselDispatcher::new(1);
    for i in 0..5 {
        let morsel = Morsel::new(0, i * 1024, &[i as u64]);
        let chosen = dispatcher.dispatch(morsel);
        assert_eq!(chosen, 0, "single-worker dispatcher should always pick 0");
    }
}

#[test]
fn dispatcher_worker_count_matches_construction() {
    assert_eq!(MorselDispatcher::new(1).worker_count(), 1);
    assert_eq!(MorselDispatcher::new(4).worker_count(), 4);
    assert_eq!(MorselDispatcher::new(16).worker_count(), 16);
}

#[test]
fn dispatcher_assigns_numa_node_heuristic() {
    let dispatcher = MorselDispatcher::new(16);
    assert_eq!(dispatcher.worker(0).unwrap().numa_node, 0);
    assert_eq!(dispatcher.worker(7).unwrap().numa_node, 0);
    assert_eq!(dispatcher.worker(8).unwrap().numa_node, 1);
    assert_eq!(dispatcher.worker(15).unwrap().numa_node, 1);
}

#[test]
fn dispatcher_worker_indexing_returns_none_out_of_range() {
    let dispatcher = MorselDispatcher::new(3);
    assert!(dispatcher.worker(0).is_some());
    assert!(dispatcher.worker(2).is_some());
    assert!(dispatcher.worker(3).is_none());
}

#[test]
fn dispatcher_default_has_one_worker() {
    let d = MorselDispatcher::default();
    assert_eq!(d.worker_count(), 1);
}

#[test]
fn dispatcher_round_robin_wraps_after_exactly_n_morsels() {
    let n = 4;
    let mut dispatcher = MorselDispatcher::new(n);
    for i in 0..n {
        let chosen = dispatcher.dispatch(Morsel::new(0, i, &[i as u64]));
        assert_eq!(chosen, i);
    }
    let chosen = dispatcher.dispatch(Morsel::new(0, n, &[n as u64]));
    assert_eq!(chosen, 0);
}

#[test]
fn morsel_from_large_slice_is_capped_at_1024() {
    let cells: Vec<u64> = (0..2000).collect();
    let morsel = Morsel::new(42, 0, &cells);
    assert_eq!(morsel.region_id, 42);
    assert_eq!(morsel.offset, 0);
    assert_eq!(morsel.len, MORSEL_SIZE);
    assert_eq!(morsel.len, 1024);
    assert_eq!(morsel.data.len(), 1024);
    assert_eq!(morsel.as_slice(), &cells[..1024]);
    assert_eq!(morsel.as_slice()[1023], 1023);
}

#[test]
fn morsel_from_short_slice_is_tail_morsel() {
    let cells: Vec<u64> = (0..500).collect();
    let morsel = Morsel::new(7, 4096, &cells);
    assert_eq!(morsel.region_id, 7);
    assert_eq!(morsel.offset, 4096);
    assert_eq!(morsel.len, 500);
    assert!(morsel.len < MORSEL_SIZE);
    assert_eq!(morsel.as_slice(), &cells[..]);
    assert!(!morsel.is_empty());
}

#[test]
fn morsel_empty_slice_is_empty() {
    let morsel = Morsel::new(0, 0, &[]);
    assert_eq!(morsel.len, 0);
    assert!(morsel.is_empty());
    assert_eq!(morsel.as_slice().len(), 0);
}

#[test]
fn morsel_size_is_exactly_1024_cells() {
    assert_eq!(MORSEL_SIZE, 1024);
    assert_eq!(MORSEL_SIZE * 8, 8 * 1024);
}

#[test]
fn morsel_default_is_empty() {
    let m = Morsel::default();
    assert!(m.is_empty());
    assert_eq!(m.len, 0);
    assert_eq!(m.region_id, 0);
}

#[test]
fn morsel_clone_preserves_data() {
    let cells: Vec<u64> = (0..50).collect();
    let m1 = Morsel::new(1, 100, &cells);
    let m2 = m1.clone();
    assert_eq!(m1.as_slice(), m2.as_slice());
    assert_eq!(m1.region_id, m2.region_id);
    assert_eq!(m1.offset, m2.offset);
    assert_eq!(m1.len, m2.len);
}

#[test]
fn pipeline_2_stage_produces_count_and_sum() {
    let stages = vec![Operator::ScanEqU64, Operator::AggregateSumF64];
    let mut pipeline = Pipeline::new(stages);

    let values = [1.0_f64, 2.0, 1.0, 3.0, 1.0, 4.0];
    let cells: Vec<u64> = values.iter().map(|v| v.to_bits()).collect();
    let morsel = Morsel::new(0, 0, &cells);

    let params = KernelParams { target_u64: 1.0_f64.to_bits(), ..Default::default() };
    pipeline.execute_morsel(&morsel, &kernels, &params).expect("pipeline executes");

    assert_eq!(pipeline.results().len(), 2);
    assert_eq!(pipeline.stage_count(), 2);

    let scan_result = pipeline.results()[0];
    assert_eq!(scan_result.count, 3, "ScanEq should find 3 ones");

    let agg_result = pipeline.results()[1];
    let expected_sum: f64 = values.iter().sum();
    let sum = f64::from_bits(agg_result.sum_bits);
    assert!((sum - expected_sum).abs() < 1e-9, "AggregateSum should be {expected_sum}, got {}", sum);
    assert_eq!(agg_result.count, cells.len() as u64);
}

#[test]
fn pipeline_reset_clears_results() {
    let stages = vec![Operator::ScanEqU64];
    let mut pipeline = Pipeline::new(stages);

    let cells = vec![1_u64, 2, 3, 1];
    let morsel = Morsel::new(0, 0, &cells);
    let params = KernelParams { target_u64: 1, ..Default::default() };
    pipeline.execute_morsel(&morsel, &kernels, &params).unwrap();
    assert_eq!(pipeline.results().len(), 1);

    pipeline.reset();
    assert!(pipeline.results().is_empty());

    let cells2 = vec![5_u64, 5, 5];
    let morsel2 = Morsel::new(1, 0, &cells2);
    pipeline.execute_morsel(&morsel2, &kernels, &params).unwrap();
    assert_eq!(pipeline.results().len(), 1);
}

#[test]
fn pipeline_accumulates_across_multiple_morsels() {
    let stages = vec![Operator::ScanEqU64];
    let mut pipeline = Pipeline::new(stages);

    let m1 = Morsel::new(0, 0, &[1_u64, 1, 1, 2]);
    let m2 = Morsel::new(0, 4, &[1_u64, 2, 2, 2]);
    let params = KernelParams { target_u64: 1, ..Default::default() };

    pipeline.execute_morsel(&m1, &kernels, &params).unwrap();
    pipeline.execute_morsel(&m2, &kernels, &params).unwrap();

    assert_eq!(pipeline.results().len(), 2);
    assert_eq!(pipeline.results()[0].count, 3);
    assert_eq!(pipeline.results()[1].count, 1);
    let total: u64 = pipeline.results().iter().map(|r| r.count).sum();
    assert_eq!(total, 4);
}

#[test]
fn pipeline_results_stand_by_morsel_and_stage() {
    let mut pipeline = Pipeline::new(vec![Operator::ScanEqU64, Operator::AggregateSumF64]);
    let params = KernelParams { target_u64: 1, ..Default::default() };
    for cells in [[1_u64, 1, 2], [2, 2, 2], [1, 2, 2]] {
        pipeline.execute_morsel(&Morsel::new(0, 0, &cells), &kernels, &params).unwrap();
    }
    assert_eq!(pipeline.results().len(), 6);
    let scans: Vec<u64> = pipeline.results().iter().step_by(2).map(|r| r.count).collect();
    assert_eq!(scans, vec![2, 0, 1]);
    for r in pipeline.results().iter().skip(1).step_by(2) {
        assert_eq!(r.count, 3);
    }
}

#[test]
fn pipeline_empty_stages_is_noop() {
    let mut pipeline = Pipeline::new(vec![]);
    let morsel = Morsel::new(0, 0, &[1_u64, 2, 3]);
    pipeline.execute_morsel(&morsel, &kernels, &KernelParams::default()).unwrap();
    assert!(pipeline.results().is_empty());
    assert_eq!(pipeline.stage_count(), 0);
}

#[test]
fn pipeline_without_kernel_reports_the_operator() {
    let mut pipeline = Pipeline::new(vec![Operator::ScanEqU64, Operator::HashBuild, Operator::ScanEqU64]);
    let morsel = Morsel::new(0, 0, &[1_u64, 2, 3]);
    let r = pipeline.execute_morsel(&morsel, &kernels, &KernelParams::default());
    match r {
        Err(Error::Unsupported(m)) => assert_eq!(m, "no kernel for operator HashBuild"),
        other => panic!("expected Unsupported, got {other:?}"),
    }
    assert_eq!(pipeline.results().len(), 1);
}

#[test]
fn pipeline_breaker_push_three_batches_drain_returns_all() {
    let mut breaker = PipelineBreaker::new();
    assert!(breaker.is_empty());
    assert_eq!(breaker.len(), 0);

    breaker.push(&[1_u64, 2, 3]);
    breaker.push(&[4_u64, 5]);
    breaker.push(&[6_u64, 7, 8, 9]);

    assert_eq!(breaker.len(), 9);
    assert!(!breaker.is_empty());

    let drained = breaker.drain();
    assert_eq!(drained, vec![1_u64, 2, 3, 4, 5, 6, 7, 8, 9]);

    assert!(breaker.is_empty());
    assert_eq!(breaker.len(), 0);
}

#[test]
fn pipeline_breaker_drain_on_empty_returns_empty_vec() {
    let mut breaker = PipelineBreaker::new();
    let drained = breaker.drain();
    assert!(drained.is_empty());
}

#[test]
fn pipeline_breaker_reusable_after_drain() {
    let mut breaker = PipelineBreaker::new();
    breaker.push(&[10_u64, 20]);
    let _ = breaker.drain();
    breaker.push(&[30_u64, 40, 50]);
    let drained = breaker.drain();
    assert_eq!(drained, vec![30_u64, 40, 50]);
}

#[test]
fn pipeline_debug_format_works() {
    let pipeline = Pipeline::new(vec![Operator::ScanEqU64, Operator::AggregateSumF64]);
    let s = pipeline.debug_text();
    assert!(s.contains("Pipeline"));
    assert!(s.contains("stages"));
    assert!(s.contains("result_count"));
    assert_eq!(s, "Pipeline { stages: [ScanEqU64, AggregateSumF64], result_count: 0 }");
}

#[test]
fn plan_scan_lowers_to_one_invocation() {
    let plan = LogicalPlan::new(PlanNode::Scan {
        region_id: 42,
        operator: Operator::ScanEqU64,
        params: KernelParams { target_u64: 99, cell_count: 504, ..Default::default() },
    });
    let invocations = lower_to_kernels(&plan);
    assert_eq!(invocations.len(), 1);
    assert_eq!(invocations[0].operator, Operator::ScanEqU64);
    assert_eq!(invocations[0].region_id, 42);
}

#[test]
fn plan_aggregate_lowers_to_two_invocations() {
    let plan = LogicalPlan::new(PlanNode::Aggregate {
        child: Box::new(PlanNode::Scan {
            region_id: 0,
            operator: Operator::ScanEqU64,
            params: KernelParams::default(),
        }),
        operator: Operator::AggregateSumF64,
    });
    let invocations = lower_to_kernels(&plan);
    assert_eq!(invocations.len(), 2);
}

#[test]
fn plan_join_lowers_children_first() {
    let scan = |id: RegionId| {
        Box::new(PlanNode::Scan { region_id: id, operator: Operator::ScanEqU64, params: KernelParams::default() })
    };
    let plan = LogicalPlan::new(PlanNode::Materialize {
        child: Box::new(PlanNode::Join { left: scan(1), right: scan(2), operator: Operator::HashProbe }),
        target_region: 9,
    });
    let regions: Vec<RegionId> = lower_to_kernels(&plan).iter().map(|i| i.region_id).collect();
    assert_eq!(regions, vec![1, 2, 0]);
}

fn make_region_with_cells(id: RegionId, tier: MemoryTier, cells: &[u64]) -> Region {
    let mut all = vec![0u64; 2 * 1024 * 1024 / 8];
    for (i, &c) in cells.iter().enumerate() {
        if i < all.len() {
            all[i] = c;
        }
    }
    Region { id, tier, cells: all }
}

#[test]
fn scheduler_scan_eq_works() {
    let mut sched = Scheduler::new();
    let cells: Vec<u64> = (0..1000).map(|i| i % 7).collect();
    sched.register_region(make_region_with_cells(0, MemoryTier::L3, &cells));

    let count = sched.scan_eq(0, 3, &kernels).unwrap();
    assert!(count >= 142 && count <= 143);
}

#[test]
fn scheduler_sum_f64_works() {
    let mut sched = Scheduler::new();
    let cells: Vec<u64> = (1..=100).map(|i| (i as f64).to_bits()).collect();
    sched.register_region(make_region_with_cells(0, MemoryTier::L3, &cells));

    let sum = f64::from_bits(sched.sum_f64(0, &kernels).unwrap());
    let expected: f64 = (1..=100).map(|i| i as f64).sum();
    assert!((sum - expected).abs() < 1e-6);
}

#[test]
fn scheduler_count_similar_works() {
    let mut sched = Scheduler::new();
    let cells: Vec<u64> = vec![0, 1, 2, 3, 4, 5, 6, 7];
    sched.register_region(make_region_with_cells(0, MemoryTier::L3, &cells));

    let count = sched.count_similar(0, 3, 0, &kernels).unwrap();
    assert_eq!(count, 1);
}

#[test]
fn scheduler_missing_region_returns_error() {
    let sched = Scheduler::new();
    let result = sched.scan_eq(999, 0, &kernels);
    assert!(result.is_err());
    match result {
        Err(Error::NotFound(m)) => assert_eq!(m, "region 999"),
        other => panic!("expected NotFound, got {other:?}"),
    }
}

#[test]
fn scheduler_runs_plans_step_by_step() {
    let mut sched = Scheduler::new();
    sched.register_region(Region { id: 5, tier: MemoryTier::Ddr5, cells: vec![1, 2, 1] });
    assert_eq!(sched.region_count(), 1);
    let scan = |id: RegionId, operator: Operator| {
        Box::new(PlanNode::Scan {
            region_id: id,
            operator,
            params: KernelParams { target_u64: 1, cell_count: 100, ..Default::default() },
        })
    };
    let plan = LogicalPlan::new(PlanNode::Join {
        left: scan(5, Operator::ScanEqU64),
        right: scan(6, Operator::ScanEqU64),
        operator: Operator::HashProbe,
    });
    let counts: Vec<u64> =
        sched.execute_plan(&plan, &kernels).unwrap().kernel_results.iter().map(|r| r.count).collect();
    assert_eq!(counts, vec![2, 0, 0]);
    let inv = lower_to_kernels(&LogicalPlan::new(*scan(5, Operator::HashBuild)));
    match sched.execute_invocation(&inv[0], &kernels) {
        Err(Error::Unsupported(m)) => assert_eq!(m, "no kernel for operator HashBuild on tier DDR5"),
        other => panic!("expected Unsupported, got {other:?}"),
    }
}

#[test]
fn scheduler_runs_on_region_zero_where_it_is_registered() {
    let mut sched = Scheduler::new();
    let plan = LogicalPlan::new(PlanNode::Scan {
        region_id: 0,
        operator: Operator::ScanEqU64,
        params: KernelParams { target_u64: 3, cell_count: 3, ..Default::default() },
    });
    assert_eq!(sched.execute_plan(&plan, &kernels).unwrap().kernel_results[0].count, 0);
    sched.register_region(Region { id: 0, tier: MemoryTier::L3, cells: vec![3, 3, 1] });
    let results = sched.execute_plan(&plan, &kernels).unwrap().kernel_results;
    assert_eq!(results.len(), 1);
    assert_eq!(results[0].count, 2);
}
