use jimvd::graph::FactorGraph;
use jimvd::metrics::Metrics;
use jimvd::runner::JimvdRunner;
use jimvd::strmap::StrMap;
use jimvd::types::{Delta, DeltaType, DetailValue, Factor, QueryFilter};
use jimvd::workload::{clearance_name, dept_name, region_name, role_name, User};
use std::collections::HashSet;

fn user(id: u64, role: u16, region: u16, department: u16, clearance: u16, tenant: u32) -> User {
    User { id, tenant, department, role, region, clearance, manager: None }
}

fn sample_users() -> Vec<User> {
    vec![
        user(0, 3, 1, 0, 2, 7),
        user(1, 3, 1, 1, 0, 7),
        user(2, 1, 0, 0, 1, 8),
        user(3, 3, 0, 2, 2, 9),
        user(4, 2, 2, 3, 3, 7),
        user(5, 1, 1, 0, 0, 8),
        user(6, 3, 1, 0, 1, 9),
    ]
}

fn field(u: &User, attr: &str) -> String {
    match attr {
        "role" => role_name(u.role).to_string(),
        "region" => region_name(u.region).to_string(),
        "department" => dept_name(u.department).to_string(),
        "clearance" => clearance_name(u.clearance).to_string(),
        _ => u.tenant.to_string(),
    }
}

fn eq(a: &str, v: &str) -> QueryFilter {
    QueryFilter::Eq { attribute: a.to_string(), value: v.to_string() }
}

fn rows(users: &[User], f: &QueryFilter) -> HashSet<u32> {
    users.iter().filter(|u| matches(u, f)).map(|u| u.id as u32).collect()
}

fn matches(u: &User, f: &QueryFilter) -> bool {
    match f {
        QueryFilter::Eq { attribute, value } => field(u, attribute) == *value,
        QueryFilter::And(subs) => !subs.is_empty() && subs.iter().all(|s| matches(u, s)),
        QueryFilter::Or(subs) => subs.iter().any(|s| matches(u, s)),
    }
}

fn loaded() -> (JimvdRunner, Vec<User>) {
    let users = sample_users();
    let mut r = JimvdRunner::new(3, 500);
    r.load_data(&users);
    (r, users)
}

fn query(r: &mut JimvdRunner, f: &QueryFilter) -> HashSet<u32> {
    let mut m = Metrics::new();
    r.graph.query_table("users", f, &mut m)
}

fn filters() -> Vec<QueryFilter> {
    vec![
        eq("role", "Admin"),
        eq("region", "EU"),
        eq("department", "Engineering"),
        eq("clearance", "Secret"),
        eq("tenant", "7"),
        QueryFilter::And(vec![eq("role", "Admin"), eq("region", "EU")]),
        QueryFilter::And(vec![eq("role", "Admin"), eq("clearance", "Secret")]),
        QueryFilter::Or(vec![eq("region", "US"), eq("role", "Manager")]),
        QueryFilter::And(vec![]),
        eq("role", "Nobody"),
    ]
}

#[test]
fn loaded_graph_answers_exactly_the_matching_rows() {
    let (mut r, users) = loaded();
    for f in filters() {
        assert_eq!(query(&mut r, &f), rows(&users, &f), "filter {:?}", pretty(&f));
    }
}

#[test]
fn materialised_conjunction_keeps_answers_exact() {
    let (mut r, users) = loaded();
    let f = QueryFilter::And(vec![eq("role", "Admin"), eq("region", "EU")]);
    let before = r.graph.table("users").factors.len();
    for _ in 0..3 {
        assert_eq!(query(&mut r, &f), rows(&users, &f));
    }
    let g = r.graph.table("users");
    let want = vec!["region=EU".to_string(), "role=Admin".to_string()];
    let had = g.factors.values().any(|f| f.is_structural && {
        let mut i = f.intent.clone();
        i.sort();
        i == want
    });
    let op: Vec<&Factor> = g.factors.values().filter(|f| !f.is_structural).collect();
    if had {
        assert_eq!(g.factors.len(), before);
        assert!(op.is_empty());
    } else {
        assert_eq!(g.factors.len(), before + 1);
        assert_eq!(op.len(), 1);
        assert_eq!(op[0].intent, want);
        let ext: HashSet<u32> = op[0].extent.iter().copied().collect();
        assert_eq!(ext, rows(&users, &f));
    }
    for f in filters() {
        assert_eq!(query(&mut r, &f), rows(&users, &f));
    }
}

#[test]
fn eviction_keeps_structural_factors_and_exact_answers() {
    let (mut r, users) = loaded();
    let f = QueryFilter::And(vec![eq("role", "Admin"), eq("region", "EU")]);
    for _ in 0..3 {
        query(&mut r, &f);
    }
    let structural: HashSet<u64> =
        r.graph.table("users").factors.values().filter(|f| f.is_structural).map(|f| f.id).collect();
    let operational = r.graph.table("users").factors.len() - structural.len();
    for _ in 0..5 {
        query(&mut r, &eq("clearance", "Public"));
    }
    r.graph.evict_all(2);
    let g = r.graph.table("users");
    let left: HashSet<u64> = g.factors.keys().copied().collect();
    assert_eq!(left, structural);
    assert_eq!(r.graph.completed_lifecycles.len(), operational);
    assert!(r.graph.completed_lifecycles.iter().all(|lc| lc.evicted_at_tick.is_some() && !lc.is_structural));
    for f in filters() {
        assert_eq!(query(&mut r, &f), rows(&users, &f));
    }
}

fn write(g: &mut FactorGraph, dt: DeltaType, id: u64, props: &[(&str, &str)]) -> u64 {
    let mut d = StrMap::new();
    d.insert("id".to_string(), DetailValue::UInt(id));
    for (k, v) in props {
        d.insert(k.to_string(), DetailValue::Str(v.to_string()));
    }
    let delta = Delta {
        delta_id: 1,
        db_id: 1,
        base_version: "v1".to_string(),
        sequence: 1,
        delta_type: dt,
        table_name: "users".to_string(),
        codomain_ids: vec![],
        contact_ids: vec![],
        operation_details: d,
    };
    let mut m = Metrics::new();
    g.apply_delta(&delta, &mut m);
    m.write_propagation_nodes
}

#[test]
fn writes_never_add_wrong_answers() {
    let (mut r, mut users) = loaded();
    let nfactors = r.graph.table("users").factors.len() as u64;
    {
        let g = r.graph.table_mut("users");
        let touched = write(g, DeltaType::Update, 2, &[
            ("role", "Admin"), ("region", "EU"), ("department", "Engineering"), ("clearance", "Secret"), ("tenant", "8"),
        ]);
        assert!(touched <= nfactors);
        write(g, DeltaType::Delete, 4, &[]);
        write(g, DeltaType::Insert, 9, &[
            ("role", "Viewer"), ("region", "APAC"), ("department", "HR"), ("clearance", "Public"), ("tenant", "1"),
        ]);
    }
    users[2] = user(2, 3, 1, 0, 2, 8);
    users.retain(|u| u.id != 4);
    users.push(user(9, 0, 2, 2, 0, 1));
    for f in filters() {
        let got = query(&mut r, &f);
        let want = rows(&users, &f);
        assert!(got.is_subset(&want), "filter {:?}: {:?} not within {:?}", pretty(&f), got, want);
    }
    // Attributes that no factor covers are answered from the rows themselves.
    assert_eq!(query(&mut r, &eq("tenant", "1")), [9u32].into_iter().collect());
    assert_eq!(query(&mut r, &eq("clearance", "Secret")), rows(&users, &eq("clearance", "Secret")));
}

#[test]
fn insert_touches_only_factors_it_satisfies() {
    let mut g = FactorGraph::new();
    g.add_factor(Factor {
        id: 1,
        extent: vec![1],
        intent: vec!["role=Admin".to_string(), "region=EU".to_string()],
        is_structural: true,
        access_count: 0,
        created_at: String::new(),
        last_accessed: String::new(),
    });
    write(&mut g, DeltaType::Insert, 1, &[("role", "Admin"), ("region", "EU")]);
    let touched = write(&mut g, DeltaType::Insert, 2, &[("role", "Admin"), ("region", "US")]);
    assert_eq!(touched, 0);
    let mut m = Metrics::new();
    // The factor reached through role=Admin does not hold object 2: the index
    // knows the atom, so the answer comes from factor space alone.
    assert_eq!(g.query_with_fallback(&eq("role", "Admin"), &mut m), [1u32].into_iter().collect());
    let touched = write(&mut g, DeltaType::Insert, 3, &[("role", "Admin"), ("region", "EU")]);
    assert_eq!(touched, 1);
    assert_eq!(g.query_with_fallback(&eq("role", "Admin"), &mut m), [1u32, 3].into_iter().collect());
}

fn pretty(f: &QueryFilter) -> String {
    match f {
        QueryFilter::Eq { attribute, value } => format!("{}={}", attribute, value),
        QueryFilter::And(s) => format!("AND({})", s.iter().map(pretty).collect::<Vec<_>>().join(",")),
        QueryFilter::Or(s) => format!("OR({})", s.iter().map(pretty).collect::<Vec<_>>().join(",")),
    }
}
