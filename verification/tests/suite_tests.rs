use jimvd::bench::{LatencyHistogram, OpResult};
use std::time::Duration;
use jimvd::suite::{
    count_mismatches, cross_validate, drift_after_load, drift_noted, drift_probe_due, operation_mismatch, validation_report, evolve_after_load, join_fanouts, scale_after_load, latencies_diverge, run_drift_simulation, run_join_explosion, run_long_term_evolution,
    run_scaling_wall, utilization_reached, DatabaseRunner, EngineMetrics, JimvdEngine,
};
use jimvd::workload::{generate_users, CorrelationConfig, Operation, Phase, WorkloadConfig, WorkloadGenerator};

fn mix(read: u64, write: u64, join: u64, total: usize) -> WorkloadConfig {
    WorkloadConfig { read_ratio: read, write_ratio: write, join_ratio: join, total_operations: total, rng_seed: 0 }
}

fn metrics_with(query: u64, write: u64, row: u64) -> EngineMetrics {
    EngineMetrics { query_factor_ops: query, write_factor_ops: write, row_ops: row, ..Default::default() }
}

#[test]
fn percentile_picks_rounded_position() {
    let mut h = LatencyHistogram::new();
    for us in [50u64, 10, 40, 20, 30] {
        h.record_micros(us);
    }
    assert_eq!(h.percentile(50), 30);
    assert_eq!(h.samples, vec![10, 20, 30, 40, 50]);
    assert_eq!(h.percentile(0), 10);
    assert_eq!(h.percentile(100), 50);
    // 95% of 4 positions is 3.8, rounded to 4; 99% likewise.
    assert_eq!(h.percentile(95), 50);
    // 60% of 4 positions is 2.4, rounded to 2.
    assert_eq!(h.percentile(60), 30);
}

#[test]
fn percentile_of_no_samples_is_zero() {
    let mut h = LatencyHistogram::new();
    assert_eq!(h.percentile(99), 0);
}

#[test]
fn percentile_rounds_half_up() {
    let mut h = LatencyHistogram::new();
    h.record_micros(7);
    h.record_micros(3);
    // 50% of 1 position is 0.5, rounded up to 1.
    assert_eq!(h.percentile(50), 7);
}

#[test]
fn utilization_threshold_compares_share() {
    // (6 + 3) / (6 + 3 + 1) = 0.9
    let m = metrics_with(6, 3, 1);
    assert!(utilization_reached(&m, 900_000));
    assert!(!utilization_reached(&m, 900_001));
    let empty = metrics_with(0, 0, 0);
    assert!(utilization_reached(&empty, 0));
    assert!(!utilization_reached(&empty, 1));
    let all = metrics_with(u64::MAX, u64::MAX, 0);
    assert!(utilization_reached(&all, 1_000_000));
    assert!(!utilization_reached(&all, 1_000_001));
}

#[test]
fn latency_divergence_is_tenfold() {
    assert!(!latencies_diverge(10, 100));
    assert!(latencies_diverge(10, 101));
    assert!(latencies_diverge(101, 10));
    // zero counts as one microsecond
    assert!(!latencies_diverge(0, 10));
    assert!(latencies_diverge(0, 11));
    assert!(!latencies_diverge(0, 0));
}

#[test]
fn generator_follows_shares() {
    let mut joins = WorkloadGenerator::new(mix(0, 0, 1_000_000, 10), Phase::IAM, 10);
    for _ in 0..20 {
        match joins.next_operation() {
            Operation::Join { left_table, right_table, join_attribute } => {
                assert_eq!(left_table, "users");
                assert_eq!(right_table, "permissions");
                assert_eq!(join_attribute, "role");
            }
            _ => panic!("expected a join"),
        }
    }
    let mut writes = WorkloadGenerator::new(mix(0, 1_000_000, 0, 10), Phase::IAM, 10);
    for _ in 0..20 {
        match writes.next_operation() {
            Operation::Update { user_id, .. } | Operation::Delete { user_id } => assert!(user_id < 10),
            _ => panic!("expected a write"),
        }
    }
    let mut reads = WorkloadGenerator::new(mix(1_000_000, 0, 0, 10), Phase::Security, 10);
    for _ in 0..20 {
        match reads.next_operation() {
            Operation::EqualityFilter { attribute, value } => {
                assert_eq!(attribute, "clearance");
                assert!(value == "Secret" || value == "TopSecret");
            }
            _ => panic!("expected a read"),
        }
    }
}

#[test]
fn engine_loads_runs_and_measures() {
    let users = generate_users(50, &CorrelationConfig::default());
    let mut e = JimvdEngine::new(3, 10_000);
    assert_eq!(e.name(), "jimvd");
    assert!(e.load_data(&users).is_ok());
    let op = Operation::EqualityFilter { attribute: "role".to_string(), value: "Admin".to_string() };
    let r = e.execute(&op).unwrap();
    assert_eq!(r.nodes_touched, 0);
    let m = e.collect_metrics();
    assert!(m.factor_count > 0);
    assert_eq!(m.graph_nodes, m.factor_count);
    assert_eq!(m.storage_bytes, 0);
    assert!(m.total_queries >= 1);
    e.reset_metrics();
    let m2 = e.collect_metrics();
    assert_eq!(m2.total_queries, 0);
    assert_eq!(m2.p50_latency_us, 0);
    assert_eq!(m2.uaf_updates, 0);
}

#[test]
fn engine_write_touches_factors() {
    let users = generate_users(30, &CorrelationConfig::default());
    let mut e = JimvdEngine::new(3, 10_000);
    e.load_data(&users).unwrap();
    let op = Operation::Delete { user_id: 3 };
    let r = e.execute(&op).unwrap();
    assert!(r.nodes_touched > 0);
    let m = e.collect_metrics();
    assert_eq!(m.uaf_updates, 1);
    assert_eq!(m.uaf_nodes, r.nodes_touched);
}

#[test]
fn scaling_wall_visits_ladder_up_to_max() {
    let mut e = JimvdEngine::new(3, 10_000);
    let results = run_scaling_wall(&mut e, &CorrelationConfig::default(), &mix(600_000, 400_000, 0, 20), Phase::IAM, 1_000);
    assert_eq!(results.len(), 1);
    assert_eq!(results[0].scale, 1_000);
    assert_eq!(results[0].runner_name, "jimvd");
    let none = run_scaling_wall(&mut e, &CorrelationConfig::default(), &mix(600_000, 400_000, 0, 5), Phase::IAM, 999);
    assert!(none.is_empty());
}

#[test]
fn drift_runs_six_phases() {
    let users = generate_users(100, &CorrelationConfig::default());
    let mut e = JimvdEngine::new(3, 10_000);
    let results = run_drift_simulation(&mut e, &users, 40, &mix(600_000, 400_000, 0, 40));
    assert_eq!(results.len(), 6);
    for (i, r) in results.iter().enumerate() {
        assert_eq!(r.phase_index, i);
    }
    assert!(matches!(results[1].phase, Phase::Compliance));
    assert!(matches!(results[4].phase, Phase::Security));
    // with 40 operations a phase the probe interval is 40: no probe falls inside
    for r in &results {
        assert_eq!(r.adaptation_latency_ops, None);
    }
}

#[test]
fn evolution_snapshots_at_multiples() {
    let users = generate_users(60, &CorrelationConfig::default());
    let mut e = JimvdEngine::new(3, 10_000);
    let snaps = run_long_term_evolution(&mut e, &users, 35, 10, 15, 600_000, 400_000);
    let ops: Vec<usize> = snaps.iter().map(|s| s.operations).collect();
    assert_eq!(ops, vec![10, 20, 30]);
    let none = run_long_term_evolution(&mut e, &users, 35, 0, 15, 600_000, 400_000);
    assert!(none.is_empty());
}

#[test]
fn join_explosion_one_result_per_fanout() {
    assert_eq!(join_fanouts(), vec![1, 5, 20, 100, 500]);
    let mut e = JimvdEngine::new(3, 10_000);
    let results = run_join_explosion(&mut e, 3, 5, &[1, 2]);
    let fanouts: Vec<usize> = results.iter().map(|r| r.avg_items_per_order).collect();
    assert_eq!(fanouts, vec![1, 2]);
    for r in &results {
        assert_eq!(r.runner_name, "jimvd");
        assert_eq!(r.metrics.total_queries, 3);
    }
}

#[test]
fn cross_validation_counts_all_ops() {
    let users = generate_users(20, &CorrelationConfig::default());
    let mut a = JimvdEngine::new(3, 10_000);
    let mut b = JimvdEngine::new(3, 10_000);
    let ops = vec![
        Operation::EqualityFilter { attribute: "role".to_string(), value: "Admin".to_string() },
        Operation::PointLookup { id: 2 },
    ];
    let report = cross_validate(&mut a, &mut b, &users, &ops);
    assert_eq!(report.total_ops, 2);
    assert!(report.mismatches <= 2);
}

#[test]
fn reported_percentiles_are_ordered() {
    let users = generate_users(40, &CorrelationConfig::default());
    let mut e = JimvdEngine::new(3, 10_000);
    e.load_data(&users).unwrap();
    let mut g = WorkloadGenerator::new(mix(600_000, 400_000, 0, 200), Phase::IAM, 40);
    for _ in 0..200 {
        let op = g.next_operation();
        e.execute(&op).unwrap();
    }
    let m = e.collect_metrics();
    assert!(m.p50_latency_us <= m.p95_latency_us);
    assert!(m.p95_latency_us <= m.p99_latency_us);
    let mut h = LatencyHistogram::new();
    for us in [9u64, 1, 8, 2, 7, 3, 6, 4, 5, 10, 11] {
        h.record_micros(us);
    }
    let (a, b, c) = (h.percentile(50), h.percentile(95), h.percentile(99));
    assert_eq!((a, b, c), (6, 11, 11));
}

#[test]
fn runs_after_a_failed_load_are_empty() {
    let mut e = JimvdEngine::new(3, 10_000);
    let failed = || Err(anyhow::Error::msg("load failed"));
    assert!(scale_after_load(&mut e, failed(), &mix(600_000, 400_000, 0, 5), &Phase::IAM, 1_000).is_none());
    assert!(drift_after_load(&mut e, failed(), 10, 5, &mix(600_000, 400_000, 0, 5)).is_empty());
    assert!(evolve_after_load(&mut e, failed(), 10, 35, 10, 15, 600_000, 400_000).is_empty());
}

#[test]
fn runs_after_a_good_load_are_complete() {
    let users = generate_users(30, &CorrelationConfig::default());
    let mut e = JimvdEngine::new(3, 10_000);
    let load = e.load_data(&users);
    assert!(load.is_ok());
    let r = scale_after_load(&mut e, load, &mix(600_000, 400_000, 0, 5), &Phase::IAM, 30).unwrap();
    assert_eq!(r.scale, 30);
    assert_eq!(drift_after_load(&mut e, Ok(()), 30, 5, &mix(600_000, 400_000, 0, 5)).len(), 6);
    let ops: Vec<usize> =
        evolve_after_load(&mut e, Ok(()), 30, 35, 10, 15, 600_000, 400_000).iter().map(|s| s.operations).collect();
    assert_eq!(ops, vec![10, 20, 30]);
    assert_eq!(e.name(), "jimvd");
    assert!(e.load_table("permissions", &users).is_ok());
}

fn outcome(us: u64) -> Result<OpResult, anyhow::Error> {
    Ok(OpResult { latency: Duration::from_micros(us), latency_us: us, nodes_touched: 0 })
}

fn failed() -> Result<OpResult, anyhow::Error> {
    Err(anyhow::Error::msg("refused"))
}

#[test]
fn mismatch_is_a_lone_failure_or_a_tenfold_latency() {
    assert!(!operation_mismatch(&outcome(10), &outcome(100)));
    assert!(operation_mismatch(&outcome(10), &outcome(101)));
    assert!(operation_mismatch(&outcome(101), &outcome(10)));
    assert!(operation_mismatch(&outcome(10), &failed()));
    assert!(operation_mismatch(&failed(), &outcome(10)));
    assert!(!operation_mismatch(&failed(), &failed()));
    assert!(!operation_mismatch(&outcome(0), &outcome(10)));
}

#[test]
fn drift_probes_at_multiples_until_reached() {
    assert!(!drift_probe_due(0, 5, None));
    assert!(!drift_probe_due(3, 5, None));
    assert!(drift_probe_due(5, 5, None));
    assert!(drift_probe_due(10, 5, None));
    assert!(!drift_probe_due(10, 5, Some(5)));
    let reached = metrics_with(9, 0, 1);
    let short = metrics_with(8, 0, 2);
    assert_eq!(drift_noted(None, 5, &reached), Some(5));
    assert_eq!(drift_noted(None, 5, &short), None);
    assert_eq!(drift_noted(Some(5), 10, &reached), Some(5));
}

#[test]
fn percentile_beyond_hundred_takes_the_largest() {
    let mut h = LatencyHistogram::new();
    for us in [50u64, 10, 40, 20, 30] {
        h.record_micros(us);
    }
    assert_eq!(h.percentile(150), 50);
    assert_eq!(h.percentile(u64::MAX), 50);
}

#[test]
fn mismatches_are_counted_over_the_outcomes() {
    let outcomes = vec![
        (outcome(10), outcome(100)),
        (outcome(10), outcome(101)),
        (failed(), outcome(5)),
        (failed(), failed()),
        (outcome(3), failed()),
    ];
    assert_eq!(count_mismatches(&outcomes), 3);
    let r = validation_report(&outcomes);
    assert_eq!((r.total_ops, r.mismatches), (5, 3));
    assert_eq!(count_mismatches(&vec![]), 0);
}

#[test]
fn drawn_point_picks_the_operation_kind() {
    let mut g = WorkloadGenerator::new(mix(600_000, 300_000, 100_000, 10), Phase::IAM, 10);
    match g.operation_at(99_999) {
        Operation::Join { .. } => {}
        _ => panic!("expected the join"),
    }
    for r in [100_000u64, 250_000, 399_999] {
        match g.operation_at(r) {
            Operation::Update { .. } | Operation::Delete { .. } | Operation::Insert { .. } => {}
            _ => panic!("expected a write"),
        }
    }
    for r in [400_000u64, 999_999] {
        match g.operation_at(r) {
            Operation::Join { .. } | Operation::Update { .. } | Operation::Delete { .. } | Operation::Insert { .. } => panic!("expected a read"),
            _ => {}
        }
    }
}
