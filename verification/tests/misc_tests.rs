use jimvd::bench::{LatencyHistogram, UafTracker};
use jimvd::config::{default_correlation, default_eviction_ticks, default_materialization_threshold, default_query_table, AdaptationConfig, QueryTemplate};
use jimvd::cover::{structural_factors, GreedyCover};
use jimvd::graph::FactorGraph;
use jimvd::lifecycle::{dedup_lifecycles, sort_lifecycles};
use jimvd::metrics::Metrics;
use jimvd::multi::MultiTableGraph;
use jimvd::orchestrate::{MainEventAction, MainEventInput, MainEventRun};
use jimvd::plan::{pick_template, scales_up_to};
use jimvd::sql::{
    build_where_clause, conjunction_select, count_and_sql, count_eq_sql, count_or_sql, csv_escape, delete_sql, equality_select,
    insert_sql, pred_to_sql, sql_str, update_sql, update_statement,
};
use jimvd::storage::{decode_blocks, encode_blocks, VirtualDisk};
use jimvd::strmap::StrMap;
use jimvd::text::decimal_string;
use jimvd::types::{Delta, DeltaType, DetailValue, Factor, FactorLifecycle, PropMap, QueryFilter};
use jimvd::workload::{
    clearance_name, dept_name, drift_schedule, join_operation, main_event_schedule, read_operation, region_name, role_name,
    write_operation, FilterPredicate, Operation, Phase, ReadDraw, WriteDraw,
};
use std::collections::HashSet;
use std::time::Duration;

fn p(a: &str, v: &str) -> FilterPredicate {
    FilterPredicate::Eq { attribute: a.to_string(), value: v.to_string() }
}

#[test]
fn sql_statements() {
    assert_eq!(equality_select("role", "Admin"), "SELECT * FROM users WHERE role = 'Admin'");
    let pred = FilterPredicate::And(vec![p("a", "1"), FilterPredicate::Or(vec![p("b", "2"), p("c", "3")])]);
    assert_eq!(pred_to_sql(&pred), "(a = '1' AND (b = '2' OR c = '3'))");
    assert_eq!(build_where_clause(&[]), "");
    assert_eq!(build_where_clause(&[p("a", "1"), p("b", "2")]), "a = '1' AND b = '2'");
    assert_eq!(conjunction_select(&[p("a", "1")]), "SELECT * FROM users WHERE a = '1'");
    assert_eq!(update_statement("role", "Admin", 5), "UPDATE users SET role = 'Admin' WHERE id = 5");
    assert_eq!(count_eq_sql("role", "O'Neil"), "SELECT COUNT(*) FROM employees WHERE \"role\" = 'O''Neil'");
    let filters = vec![("a".to_string(), "1".to_string()), ("b".to_string(), "2".to_string())];
    assert_eq!(
        count_and_sql(&filters),
        "SELECT COUNT(*) FROM (SELECT id FROM employees WHERE \"a\" = '1') t0 JOIN (SELECT id FROM employees WHERE \"b\" = '2') t1 USING (id)"
    );
    assert_eq!(
        count_or_sql("r", &vec!["x".to_string(), "y".to_string()]),
        "SELECT COUNT(*) FROM employees WHERE \"r\" IN ('x', 'y')"
    );
    assert_eq!(update_sql(3, "r", "x"), "UPDATE employees SET \"r\" = 'x' WHERE id = 3");
    assert_eq!(delete_sql(4), "DELETE FROM employees WHERE id = 4");
    let cells = vec![("r".to_string(), "x".to_string()), ("s".to_string(), "y'z".to_string())];
    assert_eq!(insert_sql(1, &cells), "INSERT INTO employees (id, \"r\", \"s\") VALUES (1, 'x', 'y''z')");
    assert_eq!(sql_str("it's"), "'it''s'");
}

#[test]
fn csv_cells() {
    assert_eq!(csv_escape("plain"), "plain");
    assert_eq!(csv_escape("a,b"), "\"a,b\"");
    assert_eq!(csv_escape("say \"hi\""), "\"say \"\"hi\"\"\"");
    assert_eq!(csv_escape("two\nlines"), "\"two\nlines\"");
}

#[test]
fn scaling_ladder() {
    assert!(scales_up_to(0).is_empty());
    assert_eq!(scales_up_to(500), vec![500]);
    assert_eq!(scales_up_to(7_000), vec![1_000, 5_000, 7_000]);
    assert_eq!(scales_up_to(10_000), vec![1_000, 5_000, 10_000]);
    assert_eq!(scales_up_to(200_000), vec![1_000, 5_000, 10_000, 50_000, 100_000, 200_000]);
}

#[test]
fn template_picks() {
    let w = vec![2u32, 0, 1];
    assert_eq!(pick_template(&w, 0), Some(0));
    assert_eq!(pick_template(&w, 1), Some(0));
    assert_eq!(pick_template(&w, 2), Some(2));
    assert_eq!(pick_template(&w, 3), None);
    assert_eq!(pick_template(&vec![], 0), None);
}

#[test]
fn code_names() {
    assert_eq!(role_name(3), "Admin");
    assert_eq!(role_name(0), "Viewer");
    assert_eq!(region_name(2), "APAC");
    assert_eq!(region_name(7), "US");
    assert_eq!(dept_name(9), "Engineering");
    assert_eq!(dept_name(2), "HR");
    assert_eq!(clearance_name(3), "TopSecret");
    assert_eq!(clearance_name(0), "Public");
}

#[test]
fn schedules() {
    for s in [drift_schedule(), main_event_schedule()] {
        assert_eq!(s.len(), 6);
        assert!(matches!(s[0], Phase::IAM));
        assert!(matches!(s[1], Phase::Compliance));
        assert!(matches!(s[2], Phase::Tenant));
        assert!(matches!(s[4], Phase::Security));
    }
}

fn eq_pred(q: &FilterPredicate) -> (String, String) {
    match q {
        FilterPredicate::Eq { attribute, value } => (attribute.clone(), value.clone()),
        _ => panic!("not an equality"),
    }
}

#[test]
fn reads_from_draws() {
    let op = read_operation(&Phase::IAM, 10, &ReadDraw { first: 3, second: 1, narrow: false, third: 2 });
    match op {
        Operation::MultiAttributeFilter { predicates } => {
            let got: Vec<(String, String)> = predicates.iter().map(eq_pred).collect();
            assert_eq!(got, vec![
                ("role".to_string(), "Admin".to_string()),
                ("region".to_string(), "EU".to_string()),
                ("clearance".to_string(), "Secret".to_string()),
            ]);
        },
        _ => panic!("expected a multi-attribute filter"),
    }
    match read_operation(&Phase::IAM, 10, &ReadDraw { first: 0, second: 2, narrow: true, third: 0 }) {
        Operation::MultiAttributeFilter { predicates } => assert_eq!(predicates.len(), 2),
        _ => panic!("expected a multi-attribute filter"),
    }
    match read_operation(&Phase::Tenant, 10, &ReadDraw { first: 42, second: 1, narrow: false, third: 0 }) {
        Operation::MultiAttributeFilter { predicates } => {
            assert_eq!(eq_pred(&predicates[0]), ("tenant".to_string(), "42".to_string()));
            assert_eq!(eq_pred(&predicates[1]), ("feature".to_string(), "Analytics".to_string()));
        },
        _ => panic!("expected a multi-attribute filter"),
    }
    match read_operation(&Phase::Compliance, 10, &ReadDraw { first: 2, second: 3, narrow: false, third: 0 }) {
        Operation::MultiAttributeFilter { predicates } => {
            assert_eq!(eq_pred(&predicates[0]), ("region".to_string(), "APAC".to_string()));
            assert_eq!(eq_pred(&predicates[1]), ("policy".to_string(), "SOX".to_string()));
        },
        _ => panic!("expected a multi-attribute filter"),
    }
    match read_operation(&Phase::Security, 10, &ReadDraw { first: 1, second: 0, narrow: false, third: 0 }) {
        Operation::EqualityFilter { attribute, value } => {
            assert_eq!(attribute, "clearance");
            assert_eq!(value, "TopSecret");
        },
        _ => panic!("expected an equality filter"),
    }
    match read_operation(&Phase::Custom("x".to_string()), 10, &ReadDraw { first: 7, second: 0, narrow: false, third: 0 }) {
        Operation::PointLookup { id } => assert_eq!(id, 7),
        _ => panic!("expected a point lookup"),
    }
}

#[test]
fn writes_from_draws() {
    match write_operation(&WriteDraw { user_id: 5, delete: false, role: true, pick: 2 }) {
        Operation::Update { user_id, attribute, new_value } => {
            assert_eq!((user_id, attribute.as_str(), new_value.as_str()), (5, "role", "Manager"));
        },
        _ => panic!("expected an update"),
    }
    match write_operation(&WriteDraw { user_id: 6, delete: false, role: false, pick: 1 }) {
        Operation::Update { attribute, new_value, .. } => assert_eq!((attribute.as_str(), new_value.as_str()), ("region", "EU")),
        _ => panic!("expected an update"),
    }
    assert!(matches!(write_operation(&WriteDraw { user_id: 1, delete: true, role: false, pick: 0 }), Operation::Delete { user_id: 1 }));
    match join_operation() {
        Operation::Join { left_table, right_table, join_attribute } => {
            assert_eq!((left_table.as_str(), right_table.as_str(), join_attribute.as_str()), ("users", "permissions", "role"));
        },
        _ => panic!("expected a join"),
    }
}

#[test]
fn main_event_state_machine() {
    let mut run = MainEventRun::new(2, 3, 2);
    let mut log = Vec::new();
    let mut input = MainEventInput::Done;
    for _ in 0..40 {
        let a = run.step(input);
        log.push(a);
        input = match a {
            MainEventAction::Poll => MainEventInput::Polled(false),
            MainEventAction::Snapshot { ops_into_phase, .. } => MainEventInput::Measured(ops_into_phase == 2),
            MainEventAction::Finish { .. } => break,
            _ => MainEventInput::Done,
        };
    }
    assert_eq!(log, vec![
        MainEventAction::StartPhase { phase_index: 0 },
        MainEventAction::Poll,
        MainEventAction::Execute { op: 1 },
        MainEventAction::Poll,
        MainEventAction::Execute { op: 2 },
        MainEventAction::Snapshot { phase_index: 0, ops_into_phase: 2, total_ops: 2 },
        MainEventAction::Poll,
        MainEventAction::Execute { op: 3 },
        MainEventAction::Snapshot { phase_index: 0, ops_into_phase: 3, total_ops: 3 },
        MainEventAction::Record { phase_index: 0, latency_ops: Some(2) },
        MainEventAction::StartPhase { phase_index: 1 },
        MainEventAction::Poll,
        MainEventAction::Execute { op: 1 },
        MainEventAction::Poll,
        MainEventAction::Execute { op: 2 },
        MainEventAction::Snapshot { phase_index: 1, ops_into_phase: 2, total_ops: 5 },
        MainEventAction::Poll,
        MainEventAction::Execute { op: 3 },
        MainEventAction::Snapshot { phase_index: 1, ops_into_phase: 3, total_ops: 6 },
        MainEventAction::Record { phase_index: 1, latency_ops: Some(2) },
        MainEventAction::Finish { interrupted: false },
    ]);
}

#[test]
fn main_event_stops_when_asked() {
    let mut run = MainEventRun::new(3, 5, 5);
    assert_eq!(run.step(MainEventInput::Done), MainEventAction::StartPhase { phase_index: 0 });
    assert_eq!(run.step(MainEventInput::Done), MainEventAction::Poll);
    assert_eq!(run.step(MainEventInput::Polled(false)), MainEventAction::Execute { op: 1 });
    assert_eq!(run.step(MainEventInput::Done), MainEventAction::Poll);
    assert_eq!(
        run.step(MainEventInput::Polled(true)),
        MainEventAction::Snapshot { phase_index: 0, ops_into_phase: 2, total_ops: 2 }
    );
    assert_eq!(run.step(MainEventInput::Measured(false)), MainEventAction::Record { phase_index: 0, latency_ops: None });
    assert_eq!(run.step(MainEventInput::Done), MainEventAction::Finish { interrupted: true });
    assert_eq!(run.step(MainEventInput::Done), MainEventAction::Finish { interrupted: true });
}

fn lc(id: u64, created: u64) -> FactorLifecycle {
    FactorLifecycle { factor_id: id, is_structural: false, created_at_tick: created, last_accessed_tick: created, evicted_at_tick: None }
}

#[test]
fn lifecycle_records_sort_and_dedup() {
    let v = vec![lc(3, 0), lc(1, 1), lc(3, 2), lc(2, 3)];
    let s = sort_lifecycles(&v);
    let ids: Vec<(u64, u64)> = s.iter().map(|l| (l.factor_id, l.created_at_tick)).collect();
    assert_eq!(ids, vec![(1, 1), (2, 3), (3, 0), (3, 2)]);
    let d = dedup_lifecycles(&s);
    let ids: Vec<(u64, u64)> = d.iter().map(|l| (l.factor_id, l.created_at_tick)).collect();
    assert_eq!(ids, vec![(1, 1), (2, 3), (3, 0)]);
}

#[test]
fn decimals() {
    assert_eq!(decimal_string(0), "0");
    assert_eq!(decimal_string(1_234_567), "1234567");
    assert_eq!(decimal_string(u64::MAX), "18446744073709551615");
}

#[test]
fn block_columns_round_trip() {
    let d = VirtualDisk::new("/tmp/blocks");
    assert_eq!(d.base_path, "/tmp/blocks");
    let blocks = vec![
        Factor {
            id: 1,
            extent: vec![3, 1],
            intent: vec!["role=Admin".to_string(), "region=EU".to_string()],
            is_structural: true,
            access_count: 4,
            created_at: "t0".to_string(),
            last_accessed: "t9".to_string(),
        },
        Factor {
            id: 7,
            extent: vec![],
            intent: vec![],
            is_structural: false,
            access_count: 0,
            created_at: String::new(),
            last_accessed: String::new(),
        },
    ];
    let c = encode_blocks(&blocks);
    assert_eq!(c.ids, vec![1, 7]);
    let back = decode_blocks(&c).unwrap();
    assert_eq!(back.len(), 2);
    for (a, b) in back.iter().zip(blocks.iter()) {
        assert_eq!(
            (a.id, &a.extent, &a.intent, a.is_structural, a.access_count, &a.created_at, &a.last_accessed),
            (b.id, &b.extent, &b.intent, b.is_structural, b.access_count, &b.created_at, &b.last_accessed)
        );
    }
    let mut broken = encode_blocks(&blocks);
    broken.structural.pop();
    assert!(decode_blocks(&broken).is_none());
    assert!(decode_blocks(&encode_blocks(&[])).unwrap().is_empty());
}

#[test]
fn trackers_and_histograms() {
    let mut t = UafTracker::new();
    t.record_update(3);
    t.record_update(0);
    assert_eq!((t.total_updates, t.total_nodes_touched), (2, 3));
    t.reset();
    assert_eq!((t.total_updates, t.total_nodes_touched), (0, 0));
    let mut h = LatencyHistogram::new();
    h.record_micros(5);
    h.record(Duration::from_micros(7));
    assert_eq!(h.count(), 2);
    assert_eq!(h.samples, vec![5, 7]);
}

#[test]
fn configuration_defaults() {
    let a = AdaptationConfig::default();
    assert_eq!((a.materialization_threshold, a.eviction_ticks), (3, 500));
    assert_eq!(default_materialization_threshold(), 3);
    assert_eq!(default_eviction_ticks(), 500);
    assert_eq!(default_correlation(), "low");
    assert_eq!(default_query_table(), "employees");
    let t = QueryTemplate::And { weight: 4, attributes: vec![], table: "t".to_string() };
    assert_eq!(t.weight(), 4);
}

#[test]
fn metrics_reset_to_zero() {
    let mut m = Metrics::new();
    m.total_queries = 9;
    m.row_ops = 2;
    m.reset();
    assert_eq!((m.total_queries, m.row_ops, m.write_propagation_nodes), (0, 0, 0));
}

fn details(entries: Vec<(&str, DetailValue)>) -> StrMap<DetailValue> {
    let mut d = StrMap::new();
    for (k, v) in entries {
        d.insert(k.to_string(), v);
    }
    d
}

fn delta(d: StrMap<DetailValue>) -> Delta {
    Delta {
        delta_id: 1,
        db_id: 1,
        base_version: "v1".to_string(),
        sequence: 1,
        delta_type: DeltaType::Insert,
        table_name: "users".to_string(),
        codomain_ids: vec![],
        contact_ids: vec![],
        operation_details: d,
    }
}

#[test]
fn delta_fields() {
    let d = delta(details(vec![
        ("id", DetailValue::UInt(5)),
        ("role", DetailValue::Str("Admin".to_string())),
        ("flag", DetailValue::Other),
    ]));
    assert_eq!(d.get_object_id(), 5);
    let props = d.get_properties();
    assert_eq!(props.len(), 1);
    assert_eq!(props.get("role").map(|s| s.as_str()), Some("Admin"));
    let wide = delta(details(vec![("id", DetailValue::UInt((1u64 << 32) + 9))]));
    assert_eq!(wide.get_object_id(), 9);
    let text_id = delta(details(vec![("id", DetailValue::Str("5".to_string()))]));
    assert_eq!(text_id.get_object_id(), 0);
    assert_eq!(delta(StrMap::new()).get_object_id(), 0);
}

fn props(entries: &[(&str, &str)]) -> PropMap {
    let mut m = StrMap::new();
    for (k, v) in entries {
        m.insert(k.to_string(), v.to_string());
    }
    m
}

#[test]
fn structural_cover_is_exact() {
    let objs = vec![
        (1u32, props(&[("a", "x"), ("b", "y")])),
        (2u32, props(&[("a", "x"), ("b", "z")])),
        (3u32, props(&[("a", "w"), ("b", "y")])),
    ];
    let fs = structural_factors(objs.clone_vec());
    let ids: Vec<u64> = fs.iter().map(|f| f.id).collect();
    assert_eq!(ids, (1..=fs.len() as u64).collect::<Vec<_>>());
    let mut pairs: Vec<(u32, String)> = Vec::new();
    for f in &fs {
        assert!(f.is_structural);
        for o in &f.extent {
            for a in &f.intent {
                pairs.push((*o, a.clone()));
            }
        }
    }
    pairs.sort();
    let mut want: Vec<(u32, String)> = vec![
        (1, "a=x".into()), (1, "b=y".into()), (2, "a=x".into()), (2, "b=z".into()), (3, "a=w".into()), (3, "b=y".into()),
    ];
    want.sort();
    assert_eq!(pairs, want);
}

trait CloneVec {
    fn clone_vec(&self) -> Vec<(u32, PropMap)>;
}

impl CloneVec for Vec<(u32, PropMap)> {
    fn clone_vec(&self) -> Vec<(u32, PropMap)> {
        self.iter().map(|(o, p)| (*o, p.clone_map())).collect()
    }
}

#[test]
fn greedy_cover_takes_the_largest_rectangle_first() {
    let objs = vec![
        (1u32, props(&[("a", "x"), ("b", "y")])),
        (2u32, props(&[("a", "x"), ("b", "y")])),
        (3u32, props(&[("a", "w"), ("b", "y")])),
    ];
    let c = GreedyCover::new(objs);
    let (ext, intent) = c.largest_rectangle().unwrap();
    // b=y is shared by all three objects.
    assert_eq!(ext, [1u32, 2, 3].into_iter().collect::<HashSet<u32>>());
    assert_eq!(intent, vec!["b=y".to_string()]);
}

fn graph(objects: &[(u32, &str)], factors: &[(u64, &[u32], &str)]) -> FactorGraph {
    let mut g = FactorGraph::new();
    for (id, dept) in objects {
        g.objects.insert(*id, props(&[("dept", dept)]));
    }
    for (id, ext, atom) in factors {
        g.add_factor(Factor {
            id: *id,
            extent: ext.to_vec(),
            intent: vec![atom.to_string()],
            is_structural: true,
            access_count: 0,
            created_at: String::new(),
            last_accessed: String::new(),
        });
    }
    g
}

#[test]
fn joins_in_factor_space_and_on_rows() {
    let mut m = MultiTableGraph::new();
    m.add_table("l".to_string(), graph(&[(1, "HR"), (2, "IT")], &[(1, &[1], "dept=HR"), (2, &[2], "dept=IT")]));
    m.add_table("r".to_string(), graph(&[(10, "HR"), (11, "HR"), (12, "Sales")], &[(1, &[10, 11], "dept=HR"), (2, &[12], "dept=Sales")]));
    m.add_table("bare".to_string(), graph(&[(10, "HR"), (11, "HR"), (12, "Sales")], &[]));
    let mut metrics = Metrics::new();
    let (pairs, used) = m.factor_join("l", "r", "dept", &[], &[], &mut metrics);
    let got: HashSet<(u32, u32)> = pairs.into_iter().collect();
    assert_eq!(got, [(1u32, 10u32), (1, 11)].into_iter().collect());
    assert!(!used);
    assert_eq!((metrics.query_factor_ops, metrics.row_ops, metrics.total_queries), (1, 0, 1));
    assert_eq!(m.current_tick, 1);
    let (pairs, used) = m.factor_join("l", "bare", "dept", &[], &[], &mut metrics);
    assert_eq!(m.current_tick, 2);
    let got: HashSet<(u32, u32)> = pairs.into_iter().collect();
    assert_eq!(got, [(1u32, 10u32), (1, 11)].into_iter().collect());
    assert!(used);
    assert_eq!((metrics.query_factor_ops, metrics.row_ops, metrics.total_queries), (1, 1, 2));
    let only_eleven = [QueryFilter::Eq { attribute: "dept".to_string(), value: "HR".to_string() }];
    let (l, used) = m.eval_table_filter("r", &only_eleven, &metrics);
    assert_eq!(l, [10u32, 11].into_iter().collect());
    assert!(!used);
    let (all, used) = m.eval_table_filter("l", &[], &metrics);
    assert_eq!(all, [1u32, 2].into_iter().collect());
    assert!(!used);
    let by_row = [QueryFilter::Eq { attribute: "dept".to_string(), value: "Sales".to_string() }];
    let (s, used) = m.eval_table_filter("bare", &by_row, &metrics);
    assert_eq!(s, [12u32].into_iter().collect());
    assert!(used);
}

#[test]
fn greedy_cover_joins_identical_objects_into_one_factor() {
    let objs = vec![
        (1u32, props(&[("a", "x"), ("b", "y")])),
        (2u32, props(&[("a", "x"), ("b", "y")])),
    ];
    let mut c = GreedyCover::new(objs);
    let fs = c.build_factors();
    assert_eq!(fs.len(), 1);
    let f = &fs[0];
    assert_eq!(f.id, 1);
    assert_eq!(f.extent.iter().copied().collect::<HashSet<u32>>(), [1u32, 2].into_iter().collect::<HashSet<u32>>());
    assert_eq!(f.intent.iter().cloned().collect::<HashSet<String>>(), ["a=x".to_string(), "b=y".to_string()].into_iter().collect::<HashSet<String>>());
    assert!(f.is_structural);
    assert_eq!(f.access_count, 0);
}

#[test]
fn greedy_cover_takes_the_shared_atom_then_the_rest() {
    let objs = vec![
        (1u32, props(&[("a", "x")])),
        (2u32, props(&[("a", "x"), ("b", "y")])),
    ];
    let mut c = GreedyCover::new(objs);
    let fs = c.build_factors();
    assert_eq!(fs.len(), 2);
    assert_eq!(fs[0].id, 1);
    assert_eq!(fs[0].extent.iter().copied().collect::<HashSet<u32>>(), [1u32, 2].into_iter().collect::<HashSet<u32>>());
    assert_eq!(fs[0].intent, vec!["a=x".to_string()]);
    assert_eq!(fs[1].id, 2);
    assert_eq!(fs[1].extent, vec![2u32]);
    assert_eq!(fs[1].intent, vec!["b=y".to_string()]);
    assert!(fs[0].is_structural && fs[1].is_structural);
    assert!(c.uncovered.iter().all(|s| s.is_empty()));
}

#[test]
fn main_event_runs_only_after_a_good_load() {
    let failed: Result<(), anyhow::Error> = Err(anyhow::Error::msg("no database"));
    assert!(MainEventRun::after_load(&failed, 5, 10, 2).is_none());
    let r = MainEventRun::after_load(&Ok(()), 5, 10, 2).unwrap();
    assert_eq!(r, MainEventRun::new(5, 10, 2));
}

#[test]
fn main_event_run_counts_operations_and_records() {
    let mut run = MainEventRun::new(3, 4, 3);
    let mut input = MainEventInput::Done;
    let (mut executes, mut records) = (0usize, 0usize);
    loop {
        match run.step(input) {
            MainEventAction::Poll => input = MainEventInput::Polled(false),
            MainEventAction::Snapshot { .. } => input = MainEventInput::Measured(false),
            MainEventAction::Execute { .. } => {
                executes += 1;
                input = MainEventInput::Done;
            }
            MainEventAction::Record { .. } => {
                records += 1;
                input = MainEventInput::Done;
            }
            MainEventAction::StartPhase { .. } => input = MainEventInput::Done,
            MainEventAction::Finish { interrupted } => {
                assert!(!interrupted);
                break;
            }
        }
    }
    assert_eq!(executes, 12);
    assert_eq!(records, 3);
}

#[test]
fn main_event_interval_matters_only_for_operations() {
    let failed: Result<(), anyhow::Error> = Err(anyhow::Error::msg("no database"));
    assert!(MainEventRun::after_load(&failed, 5, 10, 0).is_none());
    let mut run = MainEventRun::after_load(&Ok(()), 2, 0, 0).unwrap();
    let mut input = MainEventInput::Done;
    let mut records = 0usize;
    loop {
        match run.step(input) {
            MainEventAction::Execute { .. } => panic!("no operations were asked for"),
            MainEventAction::Record { .. } => records += 1,
            MainEventAction::Finish { interrupted } => {
                assert!(!interrupted);
                break;
            }
            _ => {}
        }
        input = MainEventInput::Done;
    }
    assert_eq!(records, 2);
}
