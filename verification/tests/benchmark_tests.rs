use jimvd::benchmark::{
    def_ready, make_generator, sample_attr_value, seed_table, signed_decimal_string, template_ready, weighted_index,
    weighted_sample_attr, weighted_sample_hot, weighted_sample_values, BenchmarkRunner, Query,
};
use jimvd::config::{
    AdaptationConfig, AttributeDef, AttributeSpec, HotValue, QueryTemplate, RunOptions, TableSpec, WorkloadConfig, WriteMix,
};
use jimvd::oplog::{gen_log_op, gen_query_op, gen_write_op, log_op_at, write_op_at, mix_ready, sample_eq_value, spec_attr_value, table_ready, write_mix_ready, LoggedOp};
use jimvd::strmap::StrMap;
use jimvd::workload::{biased_code, generate_users, generate_users_seeded, CorrelationConfig};
use jimvd::types::QueryFilter;

fn strings(v: &[&str]) -> Vec<String> {
    v.iter().map(|s| s.to_string()).collect()
}

fn table(initial: usize) -> TableSpec {
    let mut attributes = StrMap::new();
    attributes.insert("role".to_string(), AttributeDef::Simple(strings(&["Admin", "Viewer"])));
    attributes.insert(
        "region".to_string(),
        AttributeDef::Extended(AttributeSpec::Categorical { values: strings(&["EU", "US"]), weights: None, null_millionths: 0 }),
    );
    attributes.insert(
        "age".to_string(),
        AttributeDef::Extended(AttributeSpec::Continuous { min: 20, max: 29, null_millionths: 0 }),
    );
    TableSpec { attributes, initial_objects: initial, correlation_hint: "low".to_string(), factorize_attributes: None }
}

fn config(initial: usize, total: usize, interval: usize, rates: (u64, u64, u64)) -> WorkloadConfig {
    let mut tables = StrMap::new();
    tables.insert("employees".to_string(), table(initial));
    WorkloadConfig {
        workload_name: "test".to_string(),
        description: String::new(),
        tables,
        query_mix: vec![
            QueryTemplate::Eq {
                weight: 2,
                attribute: "role".to_string(),
                values: strings(&["Admin"]),
                table: "employees".to_string(),
                hot_values: vec![],
            },
            QueryTemplate::And { weight: 1, attributes: strings(&["role", "region"]), table: "employees".to_string() },
        ],
        write_mix: WriteMix {
            insert_rate: rates.0,
            update_rate: rates.1,
            delete_rate: rates.2,
            attributes: strings(&["role", "region"]),
            table: "employees".to_string(),
            attribute_weights: None,
        },
        run_options: RunOptions { total_operations: total, metrics_interval_ops: interval, warmup_ops: 0, adaptation_enabled: true },
        adaptation: AdaptationConfig { materialization_threshold: 3, eviction_ticks: 500 },
        rng_seed: 42,
    }
}

#[test]
fn new_runner_starts_empty() {
    let r = BenchmarkRunner::new(config(5, 10, 5, (0, 0, 0)));
    assert_eq!(r.next_object_id, 0);
    assert_eq!(r.next_delta_id, 1);
    assert_eq!(r.next_eviction_tick, 500);
    assert_eq!(r.total_ops_executed, 0);
    assert!(r.snapshots.is_empty());
    assert!(r.fanout_log.is_empty());
    assert_eq!(r.multi.tables.len(), 0);
    assert_eq!(r.metrics.total_queries, 0);
}

#[test]
fn weighted_index_follows_running_totals() {
    let w = vec![1u64, 2, 3];
    assert_eq!(weighted_index(&w, 3, 0), 0);
    assert_eq!(weighted_index(&w, 3, 1), 1);
    assert_eq!(weighted_index(&w, 3, 2), 1);
    assert_eq!(weighted_index(&w, 3, 3), 2);
    assert_eq!(weighted_index(&w, 3, 5), 2);
    // All weights zero: the first value.
    assert_eq!(weighted_index(&vec![0u64, 0], 2, 0), 0);
    // More values than weights: a draw past the weights' prefix gives the last value.
    assert_eq!(weighted_index(&vec![1u64, 1, 1], 2, 2), 1);
    assert_eq!(weighted_index(&vec![5u64], 3, 4), 0);
}

#[test]
fn signed_decimals() {
    assert_eq!(signed_decimal_string(-42), "-42");
    assert_eq!(signed_decimal_string(0), "0");
    assert_eq!(signed_decimal_string(1234), "1234");
    assert_eq!(signed_decimal_string(i64::MIN), "-9223372036854775808");
}

#[test]
fn sampled_attribute_values() {
    let mut rng = make_generator(7);
    let simple = AttributeDef::Simple(strings(&["a"]));
    assert_eq!(sample_attr_value(&simple, &mut rng), "a");
    let salary = AttributeDef::Simple(vec![]);
    for _ in 0..20 {
        let v: u64 = sample_attr_value(&salary, &mut rng).parse().unwrap();
        assert!((30_000..150_000).contains(&v));
    }
    let always_null = AttributeDef::Extended(AttributeSpec::Categorical {
        values: strings(&["x"]),
        weights: None,
        null_millionths: 1_000_000,
    });
    assert_eq!(sample_attr_value(&always_null, &mut rng), "__NULL__");
    let fixed = AttributeDef::Extended(AttributeSpec::Continuous { min: -3, max: -3, null_millionths: 0 });
    assert_eq!(sample_attr_value(&fixed, &mut rng), "-3");
    let weighted = AttributeDef::Extended(AttributeSpec::Categorical {
        values: strings(&["x", "y"]),
        weights: Some(vec![0, 1_000_000]),
        null_millionths: 0,
    });
    for _ in 0..10 {
        assert_eq!(sample_attr_value(&weighted, &mut rng), "y");
    }
    let empty = AttributeDef::Extended(AttributeSpec::Categorical { values: vec![], weights: Some(vec![1]), null_millionths: 0 });
    assert_eq!(sample_attr_value(&empty, &mut rng), "");
}

#[test]
fn weighted_samplers() {
    let mut rng = make_generator(3);
    assert_eq!(weighted_sample_values(&strings(&["a", "b"]), &vec![0, 0], &mut rng), "a");
    assert_eq!(weighted_sample_values(&vec![], &vec![3], &mut rng), "");
    let hot = vec![
        HotValue { value: "cold".to_string(), weight: 0 },
        HotValue { value: "hot".to_string(), weight: 5 },
    ];
    assert_eq!(weighted_sample_hot(&hot, &mut rng), "hot");
    assert_eq!(weighted_sample_hot(&vec![], &mut rng), "");
    let mut w = StrMap::new();
    w.insert("role".to_string(), 0u64);
    // "region" has no weight and counts as one whole.
    assert_eq!(weighted_sample_attr(&strings(&["role", "region"]), &w, &mut rng), "region");
}

#[test]
fn readiness_checks() {
    assert!(def_ready(&AttributeDef::Simple(vec![])));
    let no_values = AttributeDef::Extended(AttributeSpec::Categorical { values: vec![], weights: None, null_millionths: 0 });
    assert!(!def_ready(&no_values));
    let always_null = AttributeDef::Extended(AttributeSpec::Categorical { values: vec![], weights: None, null_millionths: 1_000_000 });
    assert!(def_ready(&always_null));
    let bad_range = AttributeDef::Extended(AttributeSpec::Continuous { min: 5, max: 4, null_millionths: 0 });
    assert!(!def_ready(&bad_range));
    let or_without_attr = QueryTemplate::Or {
        weight: 1,
        attributes: vec![],
        values: strings(&["x"]),
        table: "employees".to_string(),
        hot_values: vec![],
    };
    assert!(!template_ready(&or_without_attr));
    let nested_join = QueryTemplate::Join {
        weight: 1,
        left_table: "a".to_string(),
        right_table: "b".to_string(),
        join_attribute: "k".to_string(),
        left_filters: vec![QueryTemplate::Join {
            weight: 1,
            left_table: "a".to_string(),
            right_table: "b".to_string(),
            join_attribute: "k".to_string(),
            left_filters: vec![],
            right_filters: vec![],
        }],
        right_filters: vec![],
    };
    assert!(!template_ready(&nested_join));
    let r = BenchmarkRunner::new(config(3, 1, 1, (0, 0, 0)));
    assert!(r.config_ready());
    assert!(!r.tables_ready_now());
    assert!(!r.writes_ready());
}

#[test]
fn seeded_table_covers_its_rows() {
    let mut rng = make_generator(11);
    let t = table(12);
    let (g, _) = seed_table(&t, 4, 100, &mut rng);
    assert_eq!(g.materialization_threshold, 4);
    assert_eq!(g.objects.len(), 12);
    for id in 100u32..112 {
        let row = g.objects.get(&id).unwrap();
        assert!(["Admin", "Viewer"].contains(&row.get("role").unwrap().as_str()));
        assert!(["EU", "US"].contains(&row.get("region").unwrap().as_str()));
        let age: i64 = row.get("age").unwrap().parse().unwrap();
        assert!((20..=29).contains(&age));
        // Every factorised atom of the row lies in exactly one factor holding the row.
        for attr in ["role", "region"] {
            let atom = format!("{}={}", attr, row.get(attr).unwrap());
            let n = g.factors.values().filter(|f| f.extent.contains(&id) && f.intent.contains(&atom)).count();
            assert_eq!(n, 1);
        }
    }
    // The continuous attribute is not factorised.
    assert!(g.factors.values().all(|f| f.is_structural && f.intent.iter().all(|a| !a.starts_with("age="))));
}

#[test]
fn initialize_then_run_takes_snapshots() {
    let mut r = BenchmarkRunner::new(config(10, 20, 5, (300_000, 300_000, 100_000)));
    r.current_phase_name = "A".to_string();
    r.initialize();
    assert_eq!(r.next_object_id, 10);
    assert_eq!(r.multi.table("employees").objects.len(), 10);
    assert!(r.tables_ready_now());
    assert!(r.writes_ready());
    r.run();
    assert_eq!(r.total_ops_executed, 20);
    let idx: Vec<usize> = r.snapshots.iter().map(|(i, _)| *i).collect();
    assert_eq!(idx, vec![5, 10, 15]);
    assert!(r.snapshots.iter().all(|(_, s)| s.phase_name == "A"));
    assert!(r.fanout_log.len() <= 20);
    assert!(r.next_delta_id as usize <= 21);
    r.run();
    assert_eq!(r.total_ops_executed, 40);
    let idx: Vec<usize> = r.snapshots.iter().map(|(i, _)| *i).collect();
    assert_eq!(idx, vec![5, 10, 15, 25, 30, 35]);
}

#[test]
fn change_workload_resets_snapshots_and_thresholds() {
    let mut r = BenchmarkRunner::new(config(4, 6, 2, (500_000, 0, 0)));
    r.initialize();
    r.run();
    assert!(!r.snapshots.is_empty());
    let t = r.multi.max_tick();
    let mut c = config(4, 6, 2, (500_000, 0, 0));
    c.adaptation = AdaptationConfig { materialization_threshold: 9, eviction_ticks: 7 };
    r.change_workload(c);
    assert!(r.snapshots.is_empty());
    assert_eq!(r.next_eviction_tick, t + 7);
    assert_eq!(r.multi.table("employees").materialization_threshold, 9);
    assert_eq!(r.config.adaptation.eviction_ticks, 7);
}

#[test]
fn writes_with_zero_rates_do_nothing() {
    let mut r = BenchmarkRunner::new(config(3, 1, 1, (0, 0, 0)));
    r.initialize();
    let mut rng = make_generator(5);
    r.do_write(&mut rng);
    assert_eq!(r.next_delta_id, 1);
    assert!(r.fanout_log.is_empty());
    assert_eq!(r.metrics.objects_updated, 0);
}

#[test]
fn inserts_take_fresh_ids() {
    let mut r = BenchmarkRunner::new(config(3, 1, 1, (1_000_000, 0, 0)));
    r.initialize();
    let mut rng = make_generator(5);
    r.do_write(&mut rng);
    r.do_write(&mut rng);
    assert_eq!(r.next_object_id, 5);
    assert_eq!(r.next_delta_id, 3);
    assert_eq!(r.fanout_log.len(), 2);
    let g = r.multi.table("employees");
    assert_eq!(g.objects.len(), 5);
    let row = g.objects.get(&4).unwrap();
    assert!(["Admin", "Viewer"].contains(&row.get("role").unwrap().as_str()));
    assert!(row.get("age").is_none());
}

#[test]
fn updates_keep_the_row_and_change_one_attribute() {
    let mut r = BenchmarkRunner::new(config(1, 1, 1, (0, 1_000_000, 0)));
    r.initialize();
    let before = r.multi.table("employees").objects.get(&0).unwrap().clone_map();
    let mut rng = make_generator(9);
    r.do_write(&mut rng);
    let after = r.multi.table("employees").objects.get(&0).unwrap();
    assert_eq!(after.len(), before.len());
    assert_eq!(after.get("age"), before.get("age"));
    assert_eq!(r.metrics.objects_updated, 1);
}

#[test]
fn deletes_remove_a_handed_out_object() {
    let mut r = BenchmarkRunner::new(config(1, 1, 1, (0, 0, 1_000_000)));
    r.initialize();
    let mut rng = make_generator(9);
    r.do_write(&mut rng);
    assert!(r.multi.table("employees").objects.is_empty());
    let mut empty = BenchmarkRunner::new(config(0, 1, 1, (0, 0, 1_000_000)));
    empty.initialize();
    empty.do_write(&mut rng);
    assert_eq!(empty.next_delta_id, 1);
}

#[test]
fn queries_from_templates() {
    let mut r = BenchmarkRunner::new(config(6, 1, 1, (0, 0, 0)));
    r.initialize();
    let mut rng = make_generator(1);
    assert!(r.select_query(3, &mut rng).is_none());
    match r.select_query(0, &mut rng) {
        Some(Query::Filter { table, filter: QueryFilter::Eq { attribute, value } }) => {
            assert_eq!(table, "employees");
            assert_eq!(attribute, "role");
            assert_eq!(value, "Admin");
        },
        _ => panic!("expected the equality template"),
    }
    match r.select_query(2, &mut rng) {
        Some(Query::Filter { filter: QueryFilter::And(subs), .. }) => assert_eq!(subs.len(), 2),
        _ => panic!("expected the conjunction template"),
    }
    let or = QueryTemplate::Or {
        weight: 1,
        attributes: strings(&["region"]),
        values: strings(&["EU", "US"]),
        table: "employees".to_string(),
        hot_values: vec![],
    };
    match r.build_filter_only(&or, &mut rng) {
        QueryFilter::Or(subs) => {
            assert_eq!(subs.len(), 2);
            assert!(matches!(&subs[1], QueryFilter::Eq { attribute, value } if attribute == "region" && value == "US"));
        },
        _ => panic!("expected a disjunction"),
    }
}

#[test]
fn sampled_values_fall_back_to_known_atoms_then_unknown() {
    let mut r = BenchmarkRunner::new(config(6, 1, 1, (0, 0, 0)));
    r.initialize();
    let mut rng = make_generator(2);
    assert_eq!(r.sample_value("nothing", &mut rng), "unknown");
    let drawn = r.sample_value("region", &mut rng);
    assert!(drawn == "EU" || drawn == "US");
    // With no table describing an attribute, its values come from the factors' atoms.
    r.config.tables = StrMap::new();
    let v = r.sample_value("role", &mut rng);
    assert!(v == "Admin" || v == "Viewer");
    assert_eq!(r.sample_value("age", &mut rng), "unknown");
}

#[test]
fn reads_run_queries() {
    let mut r = BenchmarkRunner::new(config(6, 1, 1, (0, 0, 0)));
    r.initialize();
    let mut rng = make_generator(4);
    r.do_read(&mut rng, 0);
    assert_eq!(r.metrics.total_queries, 0);
    r.do_read(&mut rng, 3);
    assert_eq!(r.metrics.total_queries, 1);
    assert_eq!(r.multi.table("employees").current_tick, 1);
}

#[test]
fn op_log_entries() {
    let c = config(3, 1, 1, (1_000_000, 0, 0));
    let t = table(3);
    assert!(table_ready(&t));
    assert!(mix_ready(&c.query_mix));
    assert!(write_mix_ready(&c));
    let mut rng = make_generator(8);
    assert!(gen_query_op(&c, &t, 0, &mut rng).is_none());
    match gen_query_op(&c, &t, 1, &mut rng) {
        Some(LoggedOp::QueryEq { attribute, value }) => assert_eq!((attribute.as_str(), value.as_str()), ("role", "Admin")),
        _ => panic!("expected the equality entry"),
    }
    let mut next = 3u32;
    match gen_write_op(&c, &t, &mut next, &mut rng) {
        Some(LoggedOp::Insert { id, values }) => {
            assert_eq!(id, 3);
            assert_eq!(values.len(), 3);
        },
        _ => panic!("expected an insert"),
    }
    assert_eq!(next, 4);
    let del = config(3, 1, 1, (0, 0, 5));
    let mut none = 0u32;
    assert!(gen_write_op(&del, &t, &mut none, &mut rng).is_none());
    let mut some = 2u32;
    match gen_write_op(&del, &t, &mut some, &mut rng) {
        Some(LoggedOp::Delete { id }) => assert!(id < 2),
        _ => panic!("expected a delete"),
    }
    let upd = config(3, 1, 1, (0, 7, 0));
    let mut n = 5u32;
    match gen_write_op(&upd, &t, &mut n, &mut rng) {
        Some(LoggedOp::Update { id, attribute, value }) => {
            assert!(id < 5);
            assert!(attribute == "role" || attribute == "region");
            assert!(["Admin", "Viewer", "EU", "US"].contains(&value.as_str()));
        },
        _ => panic!("expected an update"),
    }
    assert_eq!(sample_eq_value(&vec![], &vec![], &mut rng), "unknown");
    assert_eq!(sample_eq_value(&strings(&["a"]), &vec![], &mut rng), "a");
    assert_eq!(spec_attr_value(&t, "missing", &mut rng), None);
    let age: i64 = spec_attr_value(&t, "age", &mut rng).unwrap().parse().unwrap();
    assert!((20..=29).contains(&age));
}

#[test]
fn generated_users_follow_certain_biases() {
    let sure = CorrelationConfig { role_department_bias: 1_000_000, region_clearance_bias: 1_000_000, tenant_role_bias: 1_000_000 };
    let users = generate_users_seeded(50, &sure, 3);
    assert_eq!(users.len(), 50);
    for (i, u) in users.iter().enumerate() {
        assert_eq!(u.id, i as u64);
        assert!(u.tenant < 100 && u.region < 3);
        assert_eq!(u.role as u32, (u.tenant * 3) % 4);
        assert_eq!(u.department, u.role);
        assert_eq!(u.clearance, u.region);
        match u.manager {
            None => assert!(u.role == 0 || i == 0),
            Some(m) => assert!(m < i as u64 && u.role != 0),
        }
    }
    let again = generate_users_seeded(50, &sure, 3);
    assert!(users.iter().zip(again.iter()).all(|(a, b)| a.tenant == b.tenant && a.manager == b.manager));
    let d = CorrelationConfig::default();
    assert_eq!((d.role_department_bias, d.region_clearance_bias, d.tenant_role_bias), (700_000, 500_000, 800_000));
    let loose = generate_users(20, &d);
    assert!(loose.iter().all(|u| u.role < 4 && u.department < 4 && u.clearance < 4));
}

#[test]
fn log_entries_follow_write_share() {
    let t = table(3);
    let mut rng = make_generator(11);
    // all writes: every entry is an insert of the next id
    let writes = config(3, 1, 1, (1_000_000, 0, 0));
    let mut next = 3u32;
    for expected in 3..8u32 {
        match gen_log_op(&writes, &t, 3, &mut next, &mut rng) {
            Some(LoggedOp::Insert { id, .. }) => assert_eq!(id, expected),
            _ => panic!("expected an insert"),
        }
    }
    assert_eq!(next, 8);
    // no writes: every entry is a query and the next id stays
    let reads = config(3, 1, 1, (0, 0, 0));
    for _ in 0..10 {
        match gen_log_op(&reads, &t, 3, &mut next, &mut rng) {
            Some(LoggedOp::QueryEq { .. }) | Some(LoggedOp::QueryAnd { .. }) => {}
            _ => panic!("expected a query"),
        }
    }
    assert_eq!(next, 8);
    assert!(gen_log_op(&reads, &t, 0, &mut next, &mut rng).is_none());
}

#[test]
fn write_roll_picks_the_kind() {
    // insert below 3, update below 3 + 2, delete from 5 to 6
    let mut r = BenchmarkRunner::new(config(2, 1, 1, (3, 2, 1)));
    r.initialize();
    let mut rng = make_generator(4);
    r.apply_write(2, &mut rng);
    assert_eq!(r.next_object_id, 3);
    assert_eq!(r.multi.table("employees").objects.len(), 3);
    r.apply_write(3, &mut rng);
    assert_eq!(r.next_object_id, 3);
    assert_eq!(r.multi.table("employees").objects.len(), 3);
    assert_eq!(r.metrics.objects_updated, 2);
    r.apply_write(5, &mut rng);
    assert_eq!(r.next_object_id, 3);
    assert_eq!(r.multi.table("employees").objects.len(), 2);
    let mut empty = BenchmarkRunner::new(config(0, 1, 1, (3, 2, 1)));
    empty.initialize();
    empty.apply_write(4, &mut rng);
    assert_eq!(empty.next_delta_id, 1);
}

#[test]
fn run_evicts_and_snapshots_along_the_way() {
    let mut r = BenchmarkRunner::new(config(6, 12, 4, (0, 0, 0)));
    r.initialize();
    r.config.adaptation.eviction_ticks = 3;
    r.next_eviction_tick = 3;
    r.run();
    let idx: Vec<usize> = r.snapshots.iter().map(|(i, _)| *i).collect();
    assert_eq!(idx, vec![4, 8]);
    // reads advance the table tick by one each, so evictions came due
    assert!(r.next_eviction_tick > 3);
    // the snapshot labelled 8 follows operations 0 to 8
    assert_eq!(r.snapshots[0].1.total_queries, 5);
    assert_eq!(r.snapshots[1].1.total_queries, 9);
}

#[test]
fn log_coin_and_roll_pick_the_entry() {
    let t = table(3);
    let mut rng = make_generator(12);
    let c = config(3, 1, 1, (3, 2, 1));
    let mut next = 3u32;
    match write_op_at(&c, &t, &mut next, 0, &mut rng) {
        Some(LoggedOp::Insert { id, .. }) => assert_eq!(id, 3),
        _ => panic!("expected an insert"),
    }
    match write_op_at(&c, &t, &mut next, 4, &mut rng) {
        Some(LoggedOp::Update { id, .. }) => assert!(id < 4),
        _ => panic!("expected an update"),
    }
    match write_op_at(&c, &t, &mut next, 5, &mut rng) {
        Some(LoggedOp::Delete { id }) => assert!(id < 4),
        _ => panic!("expected a delete"),
    }
    assert_eq!(next, 4);
    match log_op_at(&c, &t, 3, &mut next, 2, &mut rng) {
        Some(LoggedOp::Update { .. }) | Some(LoggedOp::Insert { .. }) | Some(LoggedOp::Delete { .. }) => {}
        _ => panic!("expected a write"),
    }
    match log_op_at(&c, &t, 3, &mut next, 6, &mut rng) {
        Some(LoggedOp::QueryEq { .. }) | Some(LoggedOp::QueryAnd { .. }) => {}
        _ => panic!("expected a query"),
    }
}

#[test]
fn biased_code_prefers_below_the_bias() {
    let mut rng = make_generator(13);
    assert_eq!(biased_code(&mut rng, 4, 7, 500_000, 499_999), 3);
    assert!(biased_code(&mut rng, 4, 7, 500_000, 500_000) < 4);
    assert!(biased_code(&mut rng, 4, 7, 0, 0) < 4);
}

#[test]
fn join_pool_repeats_each_template_by_weight() {
    let mut r = BenchmarkRunner::new(config(4, 1, 1, (0, 0, 0)));
    r.initialize();
    let mut rng = make_generator(99);
    let pool = r.join_pool(&vec![2, 3], &mut rng);
    assert_eq!(pool.len(), 5);
    for q in &pool[..2] {
        match q {
            Query::Filter { table, filter: QueryFilter::Eq { attribute, value } } => {
                assert_eq!((table.as_str(), attribute.as_str(), value.as_str()), ("employees", "role", "Admin"));
            }
            _ => panic!("expected the equality"),
        }
    }
    for q in &pool[2..] {
        match q {
            Query::Filter { table, filter: QueryFilter::And(_) } => assert_eq!(table, "employees"),
            _ => panic!("expected the conjunction"),
        }
    }
    assert!(r.join_pool(&vec![0, 0], &mut rng).is_empty());
}

#[test]
fn join_step_writes_below_the_rates_and_queries_above() {
    let mut r = BenchmarkRunner::new(config(4, 1, 1, (3, 2, 1)));
    r.initialize();
    let mut rng = make_generator(7);
    let pool = r.join_pool(&vec![1, 0], &mut rng);
    r.join_step_at(&pool, 0, &mut rng);
    assert_eq!(r.next_object_id, 5);
    assert_eq!(r.metrics.total_queries, 0);
    let tick = r.multi.current_tick;
    r.join_step_at(&pool, 999_999, &mut rng);
    assert_eq!(r.metrics.total_queries, 1);
    assert_eq!(r.multi.current_tick, tick + 1);
    assert_eq!(r.next_object_id, 5);
    let empty: Vec<Query> = Vec::new();
    let before = r.metrics.total_queries;
    r.join_step_at(&empty, 999_999, &mut rng);
    assert_eq!(r.metrics.total_queries, before);
}
