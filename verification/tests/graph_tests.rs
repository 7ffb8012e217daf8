use jimvd::graph::FactorGraph;
use jimvd::metrics::Metrics;
use jimvd::strmap::StrMap;
use jimvd::types::{Delta, DeltaType, DetailValue, Factor, PropMap, QueryFilter};
use std::collections::HashSet;

fn details(id: u64, props: &[(&str, &str)]) -> StrMap<DetailValue> {
    let mut d = StrMap::new();
    d.insert("id".to_string(), DetailValue::UInt(id));
    for (k, v) in props {
        d.insert(k.to_string(), DetailValue::Str(v.to_string()));
    }
    d
}

fn delta(dt: DeltaType, id: u64, props: &[(&str, &str)]) -> Delta {
    Delta {
        delta_id: 1,
        db_id: 1,
        base_version: "v1".to_string(),
        sequence: 1,
        delta_type: dt,
        table_name: "users".to_string(),
        codomain_ids: vec![],
        contact_ids: vec![],
        operation_details: details(id, props),
    }
}

fn factor(id: u64, extent: &[u32], intent: &[&str], structural: bool) -> Factor {
    Factor {
        id,
        extent: extent.to_vec(),
        intent: intent.iter().map(|s| s.to_string()).collect(),
        is_structural: structural,
        access_count: 0,
        created_at: String::new(),
        last_accessed: String::new(),
    }
}

fn eq(a: &str, v: &str) -> QueryFilter {
    QueryFilter::Eq { attribute: a.to_string(), value: v.to_string() }
}

fn set(ids: &[u32]) -> HashSet<u32> {
    ids.iter().copied().collect()
}

#[test]
fn add_and_remove_factor_keep_indexes() {
    let mut g = FactorGraph::new();
    g.add_factor(factor(7, &[1, 2], &["role=Admin"], true));
    assert_eq!(g.factors_with_property("role=Admin"), [7u64].into_iter().collect());
    assert_eq!(g.factors_for_object(1), [7u64].into_iter().collect());
    assert_eq!(g.lifecycles.len(), 1);
    g.remove_factor(7);
    assert!(g.factors_with_property("role=Admin").is_empty());
    assert!(g.factors_for_object(2).is_empty());
    assert!(g.factors.is_empty());
    assert_eq!(g.completed_lifecycles.len(), 1);
    assert_eq!(g.completed_lifecycles[0].factor_id, 7);
    assert_eq!(g.completed_lifecycles[0].evicted_at_tick, Some(0));
    // removing an unknown id changes nothing
    g.remove_factor(99);
    assert_eq!(g.completed_lifecycles.len(), 1);
}

#[test]
fn insert_attaches_object_to_satisfied_factors() {
    let mut g = FactorGraph::new();
    let mut m = Metrics::new();
    g.add_factor(factor(1, &[], &["role=Admin", "region=EU"], true));
    g.add_factor(factor(2, &[], &["role=Admin", "region=US"], true));
    g.apply_delta(&delta(DeltaType::Insert, 5, &[("role", "Admin"), ("region", "EU")]), &mut m);
    assert_eq!(g.factors[&1].extent, vec![5]);
    assert!(g.factors[&2].extent.is_empty());
    assert_eq!(g.factors_for_object(5), [1u64].into_iter().collect());
    assert_eq!(m.write_factor_ops, 1);
    assert_eq!(m.write_propagation_nodes, 1);
    assert_eq!(m.objects_updated, 1);
    assert_eq!(g.factors[&1].access_count, 1);
}

#[test]
fn update_moves_object_between_factors() {
    let mut g = FactorGraph::new();
    let mut m = Metrics::new();
    g.add_factor(factor(1, &[], &["role=Admin"], true));
    g.add_factor(factor(2, &[], &["role=Viewer"], true));
    g.apply_delta(&delta(DeltaType::Insert, 3, &[("role", "Admin")]), &mut m);
    g.apply_delta(&delta(DeltaType::Update, 3, &[("role", "Viewer")]), &mut m);
    assert!(g.factors[&1].extent.is_empty());
    assert_eq!(g.factors[&2].extent, vec![3]);
    assert_eq!(g.factors_for_object(3), [2u64].into_iter().collect());
    assert_eq!(m.write_propagation_nodes, 3);
    assert_eq!(m.objects_updated, 2);
    let p: &PropMap = g.objects.get(&3).unwrap();
    assert_eq!(p.get("role").unwrap(), "Viewer");
}

#[test]
fn delete_removes_object_everywhere() {
    let mut g = FactorGraph::new();
    let mut m = Metrics::new();
    g.add_factor(factor(1, &[], &["role=Admin"], true));
    g.apply_delta(&delta(DeltaType::Insert, 3, &[("role", "Admin")]), &mut m);
    g.apply_delta(&delta(DeltaType::Delete, 3, &[]), &mut m);
    assert!(g.factors[&1].extent.is_empty());
    assert!(g.factors_for_object(3).is_empty());
    assert!(g.objects.get(&3).is_none());
    assert_eq!(m.objects_updated, 2);
}

#[test]
fn eval_filter_combines_extents() {
    let mut g = FactorGraph::new();
    g.add_factor(factor(1, &[1, 2, 3], &["role=Admin"], true));
    g.add_factor(factor(2, &[2, 3, 4], &["region=EU"], true));
    assert_eq!(g.eval_filter(&eq("role", "Admin")), set(&[1, 2, 3]));
    assert_eq!(g.eval_filter(&QueryFilter::And(vec![eq("role", "Admin"), eq("region", "EU")])), set(&[2, 3]));
    assert_eq!(g.eval_filter(&QueryFilter::Or(vec![eq("role", "Admin"), eq("region", "EU")])), set(&[1, 2, 3, 4]));
    assert!(g.eval_filter(&QueryFilter::And(vec![])).is_empty());
    assert!(g.eval_filter(&eq("role", "Nobody")).is_empty());
}

#[test]
fn fallback_scans_rows_for_unknown_atoms() {
    let mut g = FactorGraph::new();
    let mut m = Metrics::new();
    g.apply_delta(&delta(DeltaType::Insert, 1, &[("tenant", "7")]), &mut m);
    g.apply_delta(&delta(DeltaType::Insert, 2, &[("tenant", "8")]), &mut m);
    let (r, used) = g.eval_filter_with_fallback(&eq("tenant", "7"));
    assert_eq!(r, set(&[1]));
    assert!(used);
    let r2 = g.query_with_fallback(&eq("tenant", "8"), &mut m);
    assert_eq!(r2, set(&[2]));
    assert_eq!(m.row_ops, 1);
    assert_eq!(m.total_queries, 1);
    assert_eq!(m.query_factor_ops, 1);
    assert_eq!(g.current_tick, 1);
}

#[test]
fn conjunction_is_materialised_at_threshold() {
    let mut g = FactorGraph::new();
    let mut m = Metrics::new();
    g.add_factor(factor(1, &[1, 2], &["role=Admin"], true));
    g.add_factor(factor(2, &[2, 3], &["region=EU"], true));
    let q = QueryFilter::And(vec![eq("role", "Admin"), eq("region", "EU")]);
    for _ in 0..2 {
        assert_eq!(g.query(&q, &mut m), set(&[2]));
        assert_eq!(g.factors.len(), 2);
    }
    assert_eq!(g.query(&q, &mut m), set(&[2]));
    assert_eq!(g.factors.len(), 3);
    let f = &g.factors[&3];
    assert!(!f.is_structural);
    assert_eq!(f.extent, vec![2]);
    assert_eq!(f.intent, vec!["region=EU".to_string(), "role=Admin".to_string()]);
    // a further hit does not materialise it again
    g.query(&q, &mut m);
    assert_eq!(g.factors.len(), 3);
}

#[test]
fn eviction_keeps_structural_and_recent_factors() {
    let mut g = FactorGraph::new();
    let mut m = Metrics::new();
    g.add_factor(factor(1, &[1], &["role=Admin"], true));
    g.add_factor(factor(2, &[1], &["region=EU"], false));
    for _ in 0..5 {
        g.query(&eq("role", "Admin"), &mut m);
    }
    g.evict_operational_factors(3);
    assert!(g.factors.contains_key(&1));
    assert!(!g.factors.contains_key(&2));
    assert_eq!(g.completed_lifecycles.len(), 1);
    assert_eq!(g.completed_lifecycles[0].evicted_at_tick, Some(5));
}

#[test]
fn rows_are_rebuilt_from_objects_or_factors() {
    let mut g = FactorGraph::new();
    let mut m = Metrics::new();
    g.apply_delta(&delta(DeltaType::Insert, 4, &[("role", "Admin")]), &mut m);
    g.add_factor(factor(9, &[8], &["region=EU"], true));
    let rows = g.reconstruct_rows(&set(&[4, 8]), &mut m);
    assert_eq!(rows.len(), 2);
    assert_eq!(m.row_ops, 1);
    for row in &rows {
        let id = row.get("id").unwrap().clone();
        if id == "4" {
            assert_eq!(row.get("role").unwrap(), "Admin");
            assert_eq!(row.len(), 2);
        } else {
            assert_eq!(id, "8");
            assert_eq!(row.get("region").unwrap(), "EU");
            assert_eq!(row.len(), 2);
        }
    }
}

#[test]
fn metrics_report_counts_and_sorts() {
    let mut g = FactorGraph::new();
    let m = Metrics::new();
    g.add_factor(factor(5, &[1], &["a=1"], true));
    g.add_factor(factor(2, &[1], &["b=1"], false));
    g.add_factor(factor(9, &[1], &["c=1"], true));
    g.remove_factor(9);
    let r = g.gather_metrics(&m);
    assert_eq!(r.structural_factor_count, 1);
    assert_eq!(r.operational_factor_count, 1);
    let ids: Vec<u64> = r.active_factors.iter().map(|l| l.factor_id).collect();
    assert_eq!(ids, vec![2, 5]);
    assert_eq!(r.evicted_factors.len(), 1);
    assert_eq!(r.evicted_factors[0].factor_id, 9);
}

fn row_pairs(p: &PropMap) -> Vec<(String, String)> {
    let mut v: Vec<(String, String)> = (0..p.len()).map(|i| (p.key_at(i).clone(), p.value_at(i).clone())).collect();
    v.sort();
    v
}

#[test]
fn reading_back_a_write_gives_the_written_row() {
    let mut g = FactorGraph::new();
    let mut m = Metrics::new();
    g.add_factor(factor(1, &[], &["role=Admin"], true));
    g.apply_delta(&delta(DeltaType::Insert, 5, &[("role", "Admin"), ("region", "EU")]), &mut m);
    assert_eq!(
        row_pairs(&g.reconstruct_row(5)),
        vec![
            ("id".to_string(), "5".to_string()),
            ("region".to_string(), "EU".to_string()),
            ("role".to_string(), "Admin".to_string()),
        ]
    );
    g.apply_delta(&delta(DeltaType::Update, 5, &[("role", "Viewer")]), &mut m);
    assert_eq!(
        row_pairs(&g.reconstruct_row(5)),
        vec![("id".to_string(), "5".to_string()), ("role".to_string(), "Viewer".to_string())]
    );
    g.apply_delta(&delta(DeltaType::Delete, 5, &[]), &mut m);
    assert_eq!(row_pairs(&g.reconstruct_row(5)), vec![("id".to_string(), "5".to_string())]);
}

#[test]
fn added_factor_stays_listed_through_deltas_and_queries() {
    let mut g = FactorGraph::new();
    let mut m = Metrics::new();
    g.add_factor(factor(4, &[1], &["role=Admin", "region=EU"], true));
    g.apply_delta(&delta(DeltaType::Insert, 1, &[("role", "Admin"), ("region", "EU")]), &mut m);
    g.apply_delta(&delta(DeltaType::Insert, 2, &[("role", "Admin"), ("region", "EU")]), &mut m);
    g.apply_delta(&delta(DeltaType::Update, 2, &[("role", "Viewer"), ("region", "EU")]), &mut m);
    g.query_with_fallback(&eq("role", "Admin"), &mut m);
    assert_eq!(g.factors_with_property("role=Admin"), [4u64].into_iter().collect());
    assert_eq!(g.factors_with_property("region=EU"), [4u64].into_iter().collect());
    assert_eq!(g.factors_for_object(1), [4u64].into_iter().collect());
    assert!(g.factors_for_object(2).is_empty());
}

#[test]
fn conjunction_counter_ignores_sub_filter_order() {
    let mut g = FactorGraph::new();
    let mut m = Metrics::new();
    g.add_factor(factor(1, &[1, 2], &["a=x"], true));
    g.add_factor(factor(2, &[2, 3], &["b=y"], true));
    let q1 = QueryFilter::And(vec![eq("a", "x"), eq("b", "y")]);
    let q2 = QueryFilter::And(vec![eq("b", "y"), eq("a", "x")]);
    g.query_with_fallback(&q1, &mut m);
    g.query_with_fallback(&q2, &mut m);
    assert_eq!(g.conjunction_hits.get("a=x&b=y"), Some(&2));
    assert_eq!(g.conjunction_hits.len(), 1);
    g.query_with_fallback(&q2, &mut m);
    let f = &g.factors[&3];
    assert_eq!(f.intent, vec!["a=x".to_string(), "b=y".to_string()]);
}
