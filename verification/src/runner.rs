use vstd::prelude::*;
use crate::bench::{LatencyHistogram, UafTracker};
use crate::cover::{exact_cover, rect, structural_factors};
use crate::graph::FactorGraph;
use crate::metrics::Metrics;
use crate::multi::MultiTableGraph;
use crate::strmap::StrMap;
use crate::text::{atom_attr, atom_of, atom_splits, atom_value, decimal, decimal_string, lemma_atom_roundtrip};
use crate::laws::{complete, plain_keys, sound, law_add_factor_keeps_sound};
use crate::index::set_at;
use crate::graph::{prop_atoms, satisfies};
use crate::graph::props_at;
use crate::types::{props_view, strings_view, Factor, spec_object_id, spec_properties, Delta, DeltaType, DetailValue, QueryFilter};
use crate::workload::{
    clearance_name, clearance_text, dept_name, dept_text, region_name, region_text, role_name, role_text, FilterPredicate, Operation, User,
};

verus! {

/// The name of the table that the runner loads users into.
pub open spec fn users_key() -> Seq<char> {
    seq!['u', 's', 'e', 'r', 's']
}

/// The properties a user is stored with: its role, region, department and
/// clearance names and its tenant number.
pub open spec fn user_props(u: User) -> Map<Seq<char>, Seq<char>> {
    Map::<Seq<char>, Seq<char>>::empty()
        .insert("role"@, role_text(u.role))
        .insert("region"@, region_text(u.region))
        .insert("department"@, dept_text(u.department))
        .insert("clearance"@, clearance_text(u.clearance))
        .insert("tenant"@, decimal(u.tenant as nat))
}

/// The delta details of a user: its id (the low 32 bits) and its properties.
pub fn user_details(u: &User) -> (d: StrMap<DetailValue>)
    ensures
        d.wf(),
        spec_object_id(d@) == u.id as u32,
        spec_properties(d@) == user_props(*u),
{
    let mut d: StrMap<DetailValue> = StrMap::new();
    let id32: u32 = #[verifier::truncate] (u.id as u32);
    d.insert("id".to_owned(), DetailValue::UInt(id32 as u64));
    d.insert("role".to_owned(), DetailValue::Str(role_name(u.role).to_owned()));
    d.insert("region".to_owned(), DetailValue::Str(region_name(u.region).to_owned()));
    d.insert("department".to_owned(), DetailValue::Str(dept_name(u.department).to_owned()));
    d.insert("clearance".to_owned(), DetailValue::Str(clearance_name(u.clearance).to_owned()));
    d.insert("tenant".to_owned(), DetailValue::Str(decimal_string(u.tenant as u64)));
    proof {
        reveal_strlit("id");
        reveal_strlit("role");
        reveal_strlit("region");
        reveal_strlit("department");
        reveal_strlit("clearance");
        reveal_strlit("tenant");
        assert("id"@ =~= seq!['i', 'd']);
        let x = id32 as u64;
        assert((x as u32) == id32) by (bit_vector)
            requires x == id32 as u64;
        let want = user_props(*u);
        assert forall|k: Seq<char>| #[trigger] spec_properties(d@).contains_key(k) <==> want.contains_key(k) by {}
        assert(spec_properties(d@) =~= want);
    }
    d
}

/// No attribute name a user is stored with holds `=`.
proof fn lemma_user_props_plain(u: User)
    ensures
        plain_keys(user_props(u)),
{
    reveal_strlit("role");
    reveal_strlit("region");
    reveal_strlit("department");
    reveal_strlit("clearance");
    reveal_strlit("tenant");
    assert forall|k: Seq<char>| #[trigger] user_props(u).contains_key(k) implies !k.contains('=') by {
        if k.contains('=') {
            let j = choose|j: int| 0 <= j < k.len() && k[j] == '=';
        }
    }
}

/// `q` is the query filter made from the predicate `p`, part for part.
pub open spec fn converted(q: QueryFilter, p: FilterPredicate) -> bool
    decreases p,
{
    match p {
        FilterPredicate::Eq { attribute, value } => q matches QueryFilter::Eq { attribute: a, value: v } && a@ == attribute@
            && v@ == value@,
        FilterPredicate::And(ps) => q matches QueryFilter::And(qs) && converted_list(qs@, ps@),
        FilterPredicate::Or(ps) => q matches QueryFilter::Or(qs) && converted_list(qs@, ps@),
    }
}

/// Each filter of `qs` is made from the predicate at the same place in `ps`.
pub open spec fn converted_list(qs: Seq<QueryFilter>, ps: Seq<FilterPredicate>) -> bool
    decreases ps,
{
    &&& qs.len() == ps.len()
    &&& ps.len() > 0 ==> converted_list(qs.drop_last(), ps.drop_last()) && converted(qs.last(), ps.last())
}

/// Converts a list of predicates (see `converted_list`).
fn convert_list(ps: &[FilterPredicate]) -> (qs: Vec<QueryFilter>)
    ensures
        converted_list(qs@, ps@),
    decreases ps@,
{
    let mut qs: Vec<QueryFilter> = Vec::new();
    let n = ps.len();
    proof {
        assert(ps@.take(0) =~= Seq::<FilterPredicate>::empty());
    }
    for i in 0..n
        invariant
            n == ps@.len(),
            converted_list(qs@, ps@.take(i as int)),
    {
        proof {
            assert(decreases_to!(ps@ => ps@[i as int]));
        }
        let q = JimvdRunner::convert_filter(&ps[i]);
        let ghost before = qs@;
        qs.push(q);
        proof {
            let t = ps@.take(i + 1);
            assert(t.drop_last() =~= ps@.take(i as int));
            assert(qs@.drop_last() =~= before);
        }
    }
    proof {
        assert(ps@.take(n as int) =~= ps@);
    }
    qs
}

/// The stored properties an update writes: the current ones (without any
/// `id`), with `attr` set to `value` unless `attr` is `id`.
pub open spec fn updated_props(existing: Map<Seq<char>, Seq<char>>, attr: Seq<char>, value: Seq<char>) -> Map<Seq<char>, Seq<char>> {
    if attr == seq!['i', 'd'] {
        existing.remove(seq!['i', 'd'])
    } else {
        existing.remove(seq!['i', 'd']).insert(attr, value)
    }
}

/// The object id an update's details carry: the user's (low 32 bits) unless
/// `id` is overwritten by a string.
pub open spec fn updated_id(existing: Map<Seq<char>, Seq<char>>, attr: Seq<char>, uid: u64) -> u32 {
    if attr == seq!['i', 'd'] || existing.contains_key(seq!['i', 'd']) {
        0
    } else {
        uid as u32
    }
}

/// The details of an update of user `uid`: its id, its current properties,
/// and `attr` set to `value`.
fn update_details(existing: &crate::types::PropMap, uid: u64, attr: &String, value: &String) -> (d: StrMap<DetailValue>)
    requires
        existing.wf(),
    ensures
        d.wf(),
        spec_object_id(d@) == updated_id(props_view(*existing), attr@, uid),
        spec_properties(d@) == updated_props(props_view(*existing), attr@, value@),
{
    let mut d: StrMap<DetailValue> = StrMap::new();
    let id32: u32 = #[verifier::truncate] (uid as u32);
    let id_key = "id".to_owned();
    proof {
        reveal_strlit("id");
        assert(id_key@ =~= seq!['i', 'd']);
    }
    d.insert(id_key, DetailValue::UInt(id32 as u64));
    let keys = existing.keys();
    let n = existing.len();
    let ghost pv = props_view(*existing);
    for i in 0..n
        invariant
            existing.wf(),
            d.wf(),
            pv == props_view(*existing),
            n == existing.keys_seq().len(),
            keys@.len() == n,
            forall|j: int| 0 <= j < n ==> #[trigger] keys@[j]@ == existing.keys_seq()[j],
            forall|k: Seq<char>| #[trigger] d@.contains_key(k) <==>
                (k == seq!['i', 'd'] || exists|j: int| 0 <= j < i && existing.keys_seq()[j] == k),
            forall|k: Seq<char>| #[trigger] d@.contains_key(k) ==> if exists|j: int| 0 <= j < i && existing.keys_seq()[j] == k {
                d@[k] matches DetailValue::Str(s) && s@ == pv[k]
            } else {
                d@[k] == DetailValue::UInt(id32 as u64)
            },
    {
        proof {
            existing.lemma_entry(i as int);
        }
        let ghost k0 = keys@[i as int]@;
        let ghost before = d@;
        d.insert(keys[i].clone(), DetailValue::Str(existing.value_at(i).clone()));
        proof {
            assert(k0 == existing.keys_seq()[i as int]);
            assert forall|k: Seq<char>| #[trigger] d@.contains_key(k) <==>
                (k == seq!['i', 'd'] || exists|j: int| 0 <= j < i + 1 && existing.keys_seq()[j] == k) by {
                if k != k0 && exists|j: int| 0 <= j < i + 1 && existing.keys_seq()[j] == k {
                    let j = choose|j: int| 0 <= j < i + 1 && existing.keys_seq()[j] == k;
                    assert(j != i);
                }
            }
            assert forall|k: Seq<char>| #[trigger] d@.contains_key(k) implies if exists|j: int| 0 <= j < i + 1 && existing.keys_seq()[j] == k {
                d@[k] matches DetailValue::Str(s) && s@ == pv[k]
            } else {
                d@[k] == DetailValue::UInt(id32 as u64)
            } by {
                if k != k0 {
                    if exists|j: int| 0 <= j < i + 1 && existing.keys_seq()[j] == k {
                        let j = choose|j: int| 0 <= j < i + 1 && existing.keys_seq()[j] == k;
                        assert(j != i);
                        assert(exists|j2: int| 0 <= j2 < i && existing.keys_seq()[j2] == k);
                    }
                } else {
                    assert(existing.keys_seq()[i as int] == k);
                }
            }
        }
    }
    let ghost before_attr = d@;
    d.insert(attr.clone(), DetailValue::Str(value.clone()));
    proof {
        let idk = seq!['i', 'd'];
        assert forall|k: Seq<char>| pv.contains_key(k) <==> exists|j: int| 0 <= j < n && existing.keys_seq()[j] == k by {
            if pv.contains_key(k) {
                let j = existing.lemma_key_position(k);
            }
            if exists|j: int| 0 <= j < n && existing.keys_seq()[j] == k {
                let j = choose|j: int| 0 <= j < n && existing.keys_seq()[j] == k;
                existing.lemma_entry(j);
            }
        }
        let x = id32 as u64;
        assert((x as u32) == id32) by (bit_vector)
            requires x == id32 as u64;
        assert(spec_properties(d@) =~= updated_props(pv, attr@, value@));
    }
    d
}

/// The details of a delete of user `uid`: its id (the low 32 bits).
fn delete_details(uid: u64) -> (d: StrMap<DetailValue>)
    ensures
        d.wf(),
        spec_object_id(d@) == uid as u32,
        spec_properties(d@) == Map::<Seq<char>, Seq<char>>::empty(),
{
    let mut d: StrMap<DetailValue> = StrMap::new();
    let id32: u32 = #[verifier::truncate] (uid as u32);
    let id_key = "id".to_owned();
    proof {
        reveal_strlit("id");
        assert(id_key@ =~= seq!['i', 'd']);
    }
    d.insert(id_key, DetailValue::UInt(id32 as u64));
    proof {
        let x = id32 as u64;
        assert((x as u32) == id32) by (bit_vector)
            requires x == id32 as u64;
        assert(spec_properties(d@) =~= Map::<Seq<char>, Seq<char>>::empty());
    }
    d
}

/// `f` is the equality `attr = value`.
pub open spec fn eq_filter_of(f: QueryFilter, attr: Seq<char>, value: Seq<char>) -> bool {
    f matches QueryFilter::Eq { attribute, value: v } && attribute@ == attr && v@ == value
}

/// `f` is the conjunction of the filters made from `preds`.
pub open spec fn and_filter_of(f: QueryFilter, preds: Seq<FilterPredicate>) -> bool {
    f matches QueryFilter::And(subs) && converted_list(subs@, preds)
}

/// The attributes that structural factors are built over.
pub open spec fn is_iam(k: Seq<char>) -> bool {
    k == "role"@ || k == "region"@ || k == "department"@
}

/// The (object, atom) pairs of the stored objects over the IAM attributes.
pub open spec fn iam_pairs(objects: Map<u32, Map<Seq<char>, Seq<char>>>) -> Set<(u32, Seq<char>)> {
    Set::new(|p: (u32, Seq<char>)| exists|attr: Seq<char>| {
        &&& objects.contains_key(p.0)
        &&& #[trigger] objects[p.0].contains_key(attr)
        &&& is_iam(attr)
        &&& p.1 == atom_of(attr, objects[p.0][attr])
    })
}

/// No IAM attribute name holds `=`.
proof fn lemma_iam_plain(k: Seq<char>)
    requires
        is_iam(k),
    ensures
        !k.contains('='),
{
    reveal_strlit("role");
    reveal_strlit("region");
    reveal_strlit("department");
    if k.contains('=') {
        let j = choose|j: int| 0 <= j < k.len() && k[j] == '=';
    }
}

/// An IAM pair names a stored object and an atom that splits into an IAM
/// attribute and the value the object gives it.
proof fn lemma_iam_pair(objects: Map<u32, Map<Seq<char>, Seq<char>>>, o: u32, a: Seq<char>)
    requires
        iam_pairs(objects).contains((o, a)),
    ensures
        objects.contains_key(o),
        atom_splits(a),
        is_iam(atom_attr(a)),
        objects[o].contains_key(atom_attr(a)),
        objects[o][atom_attr(a)] == atom_value(a),
{
    let attr = choose|attr: Seq<char>| {
        &&& objects.contains_key(o)
        &&& #[trigger] objects[o].contains_key(attr)
        &&& is_iam(attr)
        &&& a == atom_of(attr, objects[o][attr])
    };
    lemma_iam_plain(attr);
    lemma_atom_roundtrip(attr, objects[o][attr]);
}

/// The stored objects after the users were inserted in order.
pub open spec fn with_users(objects: Map<u32, Map<Seq<char>, Seq<char>>>, users: Seq<User>) -> Map<u32, Map<Seq<char>, Seq<char>>>
    decreases users.len(),
{
    if users.len() == 0 {
        objects
    } else {
        with_users(objects, users.drop_last()).insert(users.last().id as u32, user_props(users.last()))
    }
}

/// The properties restricted to the IAM attributes.
fn iam_restrict(p: &crate::types::PropMap) -> (r: crate::types::PropMap)
    requires
        p.wf(),
    ensures
        r.wf(),
        props_view(r) == props_view(*p).restrict(Set::new(|k: Seq<char>| is_iam(k))),
{
    let mut r: crate::types::PropMap = StrMap::new();
    let role = "role".to_owned();
    let region = "region".to_owned();
    let department = "department".to_owned();
    match p.get("role") {
        Some(v) => r.insert(role, v.clone()),
        None => {},
    }
    match p.get("region") {
        Some(v) => r.insert(region, v.clone()),
        None => {},
    }
    match p.get("department") {
        Some(v) => r.insert(department, v.clone()),
        None => {},
    }
    proof {
        assert(props_view(r) =~= props_view(*p).restrict(Set::new(|k: Seq<char>| is_iam(k))));
    }
    r
}

/// The stored objects of a graph with their IAM properties.
fn iam_seed(g: &FactorGraph) -> (seed: Vec<(u32, crate::types::PropMap)>)
    requires
        g.wf(),
    ensures
        forall|k: int| 0 <= k < seed@.len() ==> (#[trigger] seed@[k]).1.wf(),
        crate::cover::object_pairs(seed@) == iam_pairs(g.objects_view()),
{
    let ids = crate::index::keys_u32(&g.objects);
    let mut seed: Vec<(u32, crate::types::PropMap)> = Vec::new();
    let n = ids.len();
    for i in 0..n
        invariant
            g.wf(),
            n == ids@.len(),
            ids@.to_set() == g.objects@.dom(),
            seed@.len() == i,
            forall|k: int| 0 <= k < i ==> (#[trigger] seed@[k]).1.wf() && seed@[k].0 == ids@[k]
                && props_view(seed@[k].1) == g.objects_view()[ids@[k]].restrict(Set::new(|a: Seq<char>| is_iam(a))),
    {
        let o = ids[i];
        proof {
            assert(ids@.to_set().contains(o));
        }
        match g.objects.get(&o) {
            Some(p) => {
                let r = iam_restrict(p);
                seed.push((o, r));
            },
            None => {
                proof {
                    assert(false);
                }
            },
        }
    }
    proof {
        let want = iam_pairs(g.objects_view());
        let got = crate::cover::object_pairs(seed@);
        assert forall|p: (u32, Seq<char>)| got.contains(p) implies want.contains(p) by {
            let (k, attr) = choose|k: int, attr: Seq<char>| 0 <= k < seed@.len() && seed@[k].0 == p.0
                && #[trigger] props_view(seed@[k].1).contains_key(attr) && p.1 == atom_of(attr, props_view(seed@[k].1)[attr]);
            assert(ids@.to_set().contains(ids@[k]));
            assert(g.objects_view()[p.0].contains_key(attr));
        }
        assert forall|p: (u32, Seq<char>)| want.contains(p) implies got.contains(p) by {
            let attr = choose|attr: Seq<char>| {
                &&& g.objects_view().contains_key(p.0)
                &&& #[trigger] g.objects_view()[p.0].contains_key(attr)
                &&& is_iam(attr)
                &&& p.1 == atom_of(attr, g.objects_view()[p.0][attr])
            };
            assert(ids@.to_set().contains(p.0));
            let k = choose|k: int| 0 <= k < ids@.len() && ids@[k] == p.0;
            assert(props_view(seed@[k].1).contains_key(attr));
        }
        assert(got =~= want);
    }
    seed
}

/// A graph as `FactorGraph::new` makes it.
pub open spec fn fresh_graph(g: FactorGraph) -> bool {
    &&& g.wf()
    &&& g.boi_view() == Map::<u32, Set<u64>>::empty()
    &&& g.bpi_view() == Map::<Seq<char>, Set<u64>>::empty()
    &&& g.factors@ == Map::<u64, crate::types::Factor>::empty()
    &&& g.objects@ == Map::<u32, crate::types::PropMap>::empty()
    &&& g.conjunction_hits@ == Map::<Seq<char>, u64>::empty()
    &&& g.factor_last_access@ == Map::<u64, u64>::empty()
    &&& g.current_tick == 0
    &&& g.materialization_threshold == 3
    &&& g.lifecycles@ == Map::<u64, crate::types::FactorLifecycle>::empty()
    &&& g.completed_lifecycles@ == Seq::<crate::types::FactorLifecycle>::empty()
}

/// A new, empty graph.
fn empty_graph() -> (g: FactorGraph)
    ensures
        fresh_graph(g),
{
    let g = FactorGraph::new();
    assert(g.boi_view() =~= Map::<u32, Set<u64>>::empty());
    assert(g.bpi_view() =~= Map::<Seq<char>, Set<u64>>::empty());
    g
}

/// The factor-graph engine behind the benchmark runner interface: one
/// multi-table graph with a `users` table, its counters, and the latency and
/// update-amplification trackers.
pub struct JimvdRunner {
    pub graph: MultiTableGraph,
    pub jmetrics: Metrics,
    pub uaf_tracker: UafTracker,
    pub latencies: LatencyHistogram,
    pub dataset_size: usize,
    pub next_delta_id: i64,
    pub table_ready: bool,
}

impl JimvdRunner {
    /// The graph and every table are well formed, and once the users table
    /// is marked ready it exists.
    pub open spec fn wf(&self) -> bool {
        &&& self.graph.wf()
        &&& self.graph.tables_wf()
        &&& self.table_ready ==> self.graph.tables@.contains_key(users_key())
    }

    /// Everything but the graph is as in `old`.
    pub open spec fn same_but_graph(&self, old: &JimvdRunner) -> bool {
        &&& self.jmetrics == old.jmetrics
        &&& self.uaf_tracker == old.uaf_tracker
        &&& self.latencies == old.latencies
        &&& self.dataset_size == old.dataset_size
        &&& self.next_delta_id == old.next_delta_id
    }

    /// The adaptation parameters are accepted for the interface's sake; the
    /// graph uses its own defaults.
    pub fn new(materialization_threshold: usize, eviction_ticks: u64) -> (r: Self)
        ensures
            r.wf(),
            r.graph.tables@ == Map::<Seq<char>, FactorGraph>::empty(),
            r.graph.current_tick == 0,
            r.jmetrics == Metrics::zeroed(),
            r.uaf_tracker.total_updates == 0,
            r.uaf_tracker.total_nodes_touched == 0,
            r.latencies.samples@ == Seq::<u64>::empty(),
            r.dataset_size == 0,
            r.next_delta_id == 1,
            !r.table_ready,
    {
        JimvdRunner {
            graph: MultiTableGraph::new(),
            jmetrics: Metrics::new(),
            uaf_tracker: UafTracker::new(),
            latencies: LatencyHistogram::new(),
            dataset_size: 0,
            next_delta_id: 1,
            table_ready: false,
        }
    }

    /// Adds an empty `users` table the first time.
    pub fn ensure_table(&mut self)
        requires
            old(self).wf(),
        ensures
            final(self).wf(),
            final(self).table_ready,
            final(self).same_but_graph(old(self)),
            final(self).graph.current_tick == old(self).graph.current_tick,
            final(self).graph.completed_lifecycles@ == old(self).graph.completed_lifecycles@,
            old(self).table_ready ==> final(self).graph.tables@ == old(self).graph.tables@,
            !old(self).table_ready ==> final(self).graph.tables@.dom() == old(self).graph.tables@.dom().insert(users_key())
                && final(self).graph.tables@ == old(self).graph.tables@.insert(users_key(), final(self).graph.tables@[users_key()])
                && fresh_graph(final(self).graph.tables@[users_key()]),
    {
        if !self.table_ready {
            let name = "users".to_owned();
            proof {
                reveal_strlit("users");
                assert(name@ =~= users_key());
            }
            self.graph.add_table(name, empty_graph());
            self.table_ready = true;
        }
    }

    /// Adds an empty table `name` unless one exists.
    pub fn ensure_named_table(&mut self, name: &str)
        requires
            old(self).wf(),
        ensures
            final(self).wf(),
            final(self).table_ready == old(self).table_ready,
            final(self).same_but_graph(old(self)),
            final(self).graph.current_tick == old(self).graph.current_tick,
            final(self).graph.completed_lifecycles@ == old(self).graph.completed_lifecycles@,
            old(self).graph.tables@.contains_key(name@) ==> final(self).graph.tables@ == old(self).graph.tables@,
            !old(self).graph.tables@.contains_key(name@) ==> final(self).graph.tables@ == old(self).graph.tables@.insert(name@, final(self).graph.tables@[name@])
                && fresh_graph(final(self).graph.tables@[name@]),
    {
        if !self.graph.tables.contains_key(name) {
            self.graph.add_table(name.to_owned(), empty_graph());
        }
    }

    /// A delta of the `users` table with the next delta id.
    pub fn make_delta(&mut self, dt: DeltaType, details: StrMap<DetailValue>) -> (d: Delta)
        requires
            old(self).next_delta_id < i64::MAX,
        ensures
            d.delta_id == old(self).next_delta_id,
            d.delta_type == dt,
            d.operation_details == details,
            d.table_name@ == users_key(),
            d.db_id == 1,
            final(self).next_delta_id == old(self).next_delta_id + 1,
            final(self).graph == old(self).graph,
            final(self).table_ready == old(self).table_ready,
            final(self).jmetrics == old(self).jmetrics,
            final(self).uaf_tracker == old(self).uaf_tracker,
            final(self).latencies == old(self).latencies,
            final(self).dataset_size == old(self).dataset_size,
    {
        let id = self.next_delta_id;
        self.next_delta_id = self.next_delta_id + 1;
        let table_name = "users".to_owned();
        proof {
            reveal_strlit("users");
            assert(table_name@ =~= users_key());
        }
        Delta {
            delta_id: id,
            db_id: 1,
            base_version: "v1".to_owned(),
            sequence: #[verifier::truncate] (id as i32),
            delta_type: dt,
            table_name,
            codomain_ids: Vec::new(),
            contact_ids: Vec::new(),
            operation_details: details,
        }
    }

    /// The query filter made from a predicate (see `converted`).
    pub fn convert_filter(pred: &FilterPredicate) -> (q: QueryFilter)
        ensures
            converted(q, *pred),
        decreases pred,
    {
        match pred {
            FilterPredicate::Eq { attribute, value } => QueryFilter::Eq { attribute: attribute.clone(), value: value.clone() },
            FilterPredicate::And(subs) => {
                proof {
                    assert(decreases_to!(*pred => (*pred)->And_0));
                    assert(decreases_to!(*subs => subs@));
                }
                QueryFilter::And(convert_list(subs.as_slice()))
            },
            FilterPredicate::Or(subs) => {
                proof {
                    assert(decreases_to!(*pred => (*pred)->Or_0));
                    assert(decreases_to!(*subs => subs@));
                }
                QueryFilter::Or(convert_list(subs.as_slice()))
            },
        }
    }

    /// Clears the counters and the trackers.
    pub fn reset_metrics(&mut self)
        ensures
            final(self).jmetrics == Metrics::zeroed(),
            final(self).uaf_tracker.total_updates == 0,
            final(self).uaf_tracker.total_nodes_touched == 0,
            final(self).latencies.samples@ == Seq::<u64>::empty(),
            final(self).graph == old(self).graph,
            final(self).table_ready == old(self).table_ready,
            final(self).dataset_size == old(self).dataset_size,
            final(self).next_delta_id == old(self).next_delta_id,
    {
        self.jmetrics.reset();
        self.uaf_tracker.reset();
        self.latencies = LatencyHistogram::new();
    }

    /// The users table.
    pub open spec fn users(&self) -> FactorGraph {
        self.graph.tables@[users_key()]
    }

    /// A bound on the factors of the users table (none when it is missing).
    pub open spec fn users_factor_count(&self) -> nat {
        if self.graph.tables@.contains_key(users_key()) { self.users().factors@.dom().len() } else { 0 }
    }

    /// `self` is `old` after `ensure_table`.
    pub open spec fn readied_from(&self, old: &JimvdRunner) -> bool {
        &&& self.wf()
        &&& self.table_ready
        &&& self.same_but_graph(old)
        &&& self.graph.current_tick == old.graph.current_tick
        &&& self.graph.completed_lifecycles@ == old.graph.completed_lifecycles@
        &&& old.table_ready ==> self.graph.tables@ == old.graph.tables@
        &&& !old.table_ready ==> self.graph.tables@ == old.graph.tables@.insert(users_key(), self.users()) && fresh_graph(self.users())
    }

    /// `self` is `old` with the users table replaced by `g` and the global tick one further.
    pub open spec fn users_replaced(&self, old: &JimvdRunner, g: FactorGraph) -> bool {
        &&& self.graph.tables@ == old.graph.tables@.insert(users_key(), g)
        &&& self.graph.tables.keys_seq() == old.graph.tables.keys_seq()
        &&& self.graph.current_tick == old.graph.current_tick + 1
        &&& self.graph.completed_lifecycles@ == old.graph.completed_lifecycles@
        &&& self.table_ready == old.table_ready
        &&& self.dataset_size == old.dataset_size
        &&& self.latencies == old.latencies
    }

    /// `self` is `old` after a query of the users table with `filter`
    /// (see `fallback_queried`); nothing counts as touched by a write.
    pub open spec fn queried(&self, old: &JimvdRunner, filter: QueryFilter) -> bool {
        &&& self.users_replaced(old, self.users())
        &&& exists|r: Set<u32>| #[trigger] self.users().fallback_queried(&old.users(), filter, r, self.jmetrics, old.jmetrics)
        &&& self.uaf_tracker == old.uaf_tracker
        &&& self.next_delta_id == old.next_delta_id
    }

    /// `self` is `old` after a write of the users table with a delta of type
    /// `dt` whose details carry the object id `oid` and the properties
    /// `props` (see `delta_applied`); `nodes` factors were touched (0 when the
    /// counter of touched nodes wrapped around), and a write that touched any
    /// is counted by the update-amplification tracker.
    pub open spec fn wrote(&self, old: &JimvdRunner, dt: DeltaType, oid: u32, props: Map<Seq<char>, Seq<char>>, nodes: usize) -> bool {
        &&& self.users_replaced(old, self.users())
        &&& self.next_delta_id == old.next_delta_id + 1
        &&& exists|d: Delta| {
            &&& d.delta_type == dt
            &&& spec_object_id(d.operation_details@) == oid
            &&& spec_properties(d.operation_details@) == props
            &&& #[trigger] self.users().delta_applied(&old.users(), d, self.jmetrics, old.jmetrics)
            &&& nodes == (if old.jmetrics.write_propagation_nodes + old.users().touch_count(d) <= u64::MAX {
                old.users().touch_count(d)
            } else {
                0
            })
        }
        &&& nodes > 0 ==> self.uaf_tracker.total_updates == old.uaf_tracker.total_updates + 1
            && self.uaf_tracker.total_nodes_touched == old.uaf_tracker.total_nodes_touched + nodes
        &&& nodes == 0 ==> self.uaf_tracker == old.uaf_tracker
    }

    /// `self` is `old` after a join of the tables `left` and `right` on
    /// `attr` (missing tables added empty first; see `joined`).
    pub open spec fn join_ran(&self, old: &JimvdRunner, left: Seq<char>, right: Seq<char>, attr: Seq<char>) -> bool {
        &&& forall|k: Seq<char>| #[trigger] self.graph.tables@.contains_key(k) <==> (old.graph.tables@.contains_key(k) || k == left || k == right)
        &&& forall|k: Seq<char>| #[trigger] old.graph.tables@.contains_key(k) ==> self.graph.tables@[k] == old.graph.tables@[k]
        &&& forall|k: Seq<char>| #[trigger] self.graph.tables@.contains_key(k) && !old.graph.tables@.contains_key(k) ==> fresh_graph(self.graph.tables@[k])
        &&& self.graph.current_tick == old.graph.current_tick + 1
        &&& self.graph.completed_lifecycles@ == old.graph.completed_lifecycles@
        &&& exists|pairs: Seq<(u32, u32)>, used: bool| #[trigger] self.graph.joined(left, right, attr, Seq::empty(), Seq::empty(), pairs, used, self.jmetrics, old.jmetrics)
        &&& self.table_ready == old.table_ready
        &&& self.dataset_size == old.dataset_size
        &&& self.latencies == old.latencies
        &&& self.uaf_tracker == old.uaf_tracker
        &&& self.next_delta_id == old.next_delta_id
    }

    /// `self` is `old` (whose users table is ready) after running `op`,
    /// which touched `nodes` factors.
    pub open spec fn ran(&self, old: &JimvdRunner, op: Operation, nodes: usize) -> bool {
        match op {
            Operation::PointLookup { id } => nodes == 0 && exists|f: QueryFilter| #[trigger] self.queried(old, f)
                && eq_filter_of(f, seq!['i', 'd'], decimal(id as nat)),
            Operation::EqualityFilter { attribute, value } => nodes == 0 && exists|f: QueryFilter| #[trigger] self.queried(old, f)
                && eq_filter_of(f, attribute@, value@),
            Operation::MultiAttributeFilter { predicates } => nodes == 0 && exists|f: QueryFilter| #[trigger] self.queried(old, f)
                && and_filter_of(f, predicates@),
            Operation::Insert { user } => self.wrote(old, DeltaType::Insert, user.id as u32, user_props(user), nodes),
            Operation::Update { user_id, attribute, new_value } => {
                let existing = props_at(old.users().objects_view(), user_id as u32);
                self.wrote(old, DeltaType::Update, updated_id(existing, attribute@, user_id),
                    updated_props(existing, attribute@, new_value@), nodes)
            },
            Operation::Delete { user_id } => self.wrote(old, DeltaType::Delete, user_id as u32, Map::empty(), nodes),
            Operation::Join { left_table, right_table, join_attribute } => nodes == 0
                && self.join_ran(old, left_table@, right_table@, join_attribute@),
        }
    }

    /// Queries the users table with `filter`.
    fn run_query(&mut self, filter: &QueryFilter) -> (nodes: usize)
        requires
            old(self).wf(),
            old(self).table_ready,
            old(self).graph.current_tick < u64::MAX,
            old(self).users().current_tick < u64::MAX,
        ensures
            final(self).wf(),
            final(self).queried(old(self), *filter),
            nodes == 0,
    {
        let name = "users".to_owned();
        proof {
            reveal_strlit("users");
            assert(name@ =~= users_key());
        }
        let r = self.graph.query_table(name.as_str(), filter, &mut self.jmetrics);
        proof {
            assert(self.users().fallback_queried(&old(self).users(), *filter, r@, self.jmetrics, old(self).jmetrics));
        }
        0
    }

    /// Applies a delta of type `dt` with `details` to the users table and
    /// counts the touched factors.
    fn run_write(&mut self, dt: DeltaType, details: StrMap<DetailValue>) -> (nodes: usize)
        requires
            old(self).wf(),
            old(self).table_ready,
            details.wf(),
            old(self).next_delta_id < i64::MAX,
            old(self).graph.current_tick < u64::MAX,
            old(self).uaf_tracker.total_updates < usize::MAX,
            old(self).uaf_tracker.total_nodes_touched + old(self).users_factor_count() <= usize::MAX,
        ensures
            final(self).wf(),
            final(self).wrote(old(self), dt, spec_object_id(details@), spec_properties(details@), nodes),
    {
        let name = "users".to_owned();
        proof {
            reveal_strlit("users");
            assert(name@ =~= users_key());
        }
        let before = self.jmetrics.write_propagation_nodes;
        let delta = self.make_delta(dt, details);
        let ghost mid = *self;
        self.graph.apply_delta(name.as_str(), &delta, &mut self.jmetrics);
        let after = self.jmetrics.write_propagation_nodes;
        let diff = after.saturating_sub(before);
        proof {
            let t = mid.users().touch_count(delta);
            mid.users().lemma_touch_count_bound(delta);
            assert(after == crate::metrics::advance(before, t));
            if before + t <= u64::MAX {
                assert((before as int + t) % 0x1_0000_0000_0000_0000 == before + t) by (nonlinear_arith)
                    requires 0 <= before + t < 0x1_0000_0000_0000_0000;
                assert(diff == t);
            } else {
                assert(t <= u64::MAX);
                assert((before as int + t) % 0x1_0000_0000_0000_0000 == before + t - 0x1_0000_0000_0000_0000) by (nonlinear_arith)
                    requires 0x1_0000_0000_0000_0000 <= before + t < 2 * 0x1_0000_0000_0000_0000;
                assert(after < before);
                assert(diff == 0);
            }
        }
        proof {
            mid.users().lemma_touch_count_bound(delta);
            assert(diff <= old(self).users_factor_count());
        }
        let nodes = diff as usize;
        if nodes > 0 {
            self.uaf_tracker.record_update(nodes);
        }
        proof {
            assert(mid.users() == old(self).users());
            assert(self.users().delta_applied(&old(self).users(), delta, self.jmetrics, old(self).jmetrics));
            assert(delta.operation_details == details);
        }
        nodes
    }

    /// Joins two tables on an attribute, adding either table empty if missing.
    fn run_join(&mut self, left: &String, right: &String, attr: &String) -> (nodes: usize)
        requires
            old(self).wf(),
            old(self).graph.current_tick < u64::MAX,
        ensures
            final(self).wf(),
            final(self).join_ran(old(self), left@, right@, attr@),
            nodes == 0,
    {
        self.ensure_named_table(left.as_str());
        let ghost a = *self;
        self.ensure_named_table(right.as_str());
        let ghost b = *self;
        proof {
            assert forall|k: Seq<char>| #[trigger] b.graph.tables@.contains_key(k) <==>
                (old(self).graph.tables@.contains_key(k) || k == left@ || k == right@) by {}
            assert forall|k: Seq<char>| #[trigger] old(self).graph.tables@.contains_key(k) implies
                b.graph.tables@[k] == old(self).graph.tables@[k] by {}
            assert forall|k: Seq<char>| #[trigger] b.graph.tables@.contains_key(k) && !old(self).graph.tables@.contains_key(k) implies
                fresh_graph(b.graph.tables@[k]) by {
                if k == right@ && !a.graph.tables@.contains_key(k) {
                } else {
                    assert(a.graph.tables@.contains_key(k));
                }
            }
        }
        let none: Vec<QueryFilter> = Vec::new();
        let r = self.graph.factor_join(left.as_str(), right.as_str(), attr.as_str(), none.as_slice(), none.as_slice(), &mut self.jmetrics);
        proof {
            assert(none@ =~= Seq::<QueryFilter>::empty());
            assert(b.graph.joined(left@, right@, attr@, Seq::empty(), Seq::empty(), r.0@, r.1, self.jmetrics, old(self).jmetrics));
            assert(self.graph.tables == b.graph.tables);
            assert(self.graph.joined(left@, right@, attr@, Seq::empty(), Seq::empty(), r.0@, r.1, self.jmetrics, old(self).jmetrics));
        }
        0
    }

    /// Runs one operation against the users table (made ready first) and
    /// returns how many factors it touched (see `ran`).
    pub fn execute_op(&mut self, op: &Operation) -> (nodes: usize)
        requires
            old(self).wf(),
            old(self).next_delta_id < i64::MAX,
            old(self).graph.current_tick < u64::MAX,
            old(self).table_ready ==> old(self).users().current_tick < u64::MAX,
            old(self).uaf_tracker.total_updates < usize::MAX,
            old(self).uaf_tracker.total_nodes_touched + old(self).users_factor_count() <= usize::MAX,
        ensures
            final(self).wf(),
            exists|mid: JimvdRunner| #[trigger] mid.readied_from(old(self)) && final(self).ran(&mid, *op, nodes),
    {
        self.ensure_table();
        let ghost mid = *self;
        proof {
            if !old(self).table_ready {
                assert(self.users_factor_count() == 0);
            }
        }
        let nodes = match op {
            Operation::PointLookup { id } => {
                let f = QueryFilter::Eq { attribute: "id".to_owned(), value: decimal_string(*id) };
                proof {
                    reveal_strlit("id");
                    assert("id"@ =~= seq!['i', 'd']);
                }
                let n = self.run_query(&f);
                proof {
                    assert(self.queried(&mid, f));
                    assert(eq_filter_of(f, seq!['i', 'd'], decimal(*id as nat)));
                    assert(self.ran(&mid, *op, n));
                }
                n
            },
            Operation::EqualityFilter { attribute, value } => {
                let f = QueryFilter::Eq { attribute: attribute.clone(), value: value.clone() };
                let n = self.run_query(&f);
                proof {
                    assert(self.queried(&mid, f));
                    assert(self.ran(&mid, *op, n));
                }
                n
            },
            Operation::MultiAttributeFilter { predicates } => {
                let f = QueryFilter::And(convert_list(predicates.as_slice()));
                let n = self.run_query(&f);
                proof {
                    assert(self.queried(&mid, f));
                    assert(self.ran(&mid, *op, n));
                }
                n
            },
            Operation::Insert { user } => {
                let details = user_details(user);
                let n = self.run_write(DeltaType::Insert, details);
                proof {
                    assert(self.ran(&mid, *op, n));
                }
                n
            },
            Operation::Update { user_id, attribute, new_value } => {
                let name = "users".to_owned();
                proof {
                    reveal_strlit("users");
                    assert(name@ =~= users_key());
                }
                let oid: u32 = #[verifier::truncate] (*user_id as u32);
                let existing = match self.graph.table(name.as_str()).objects.get(&oid) {
                    Some(p) => crate::types::clone_props(p),
                    None => StrMap::new(),
                };
                proof {
                    assert(props_view(existing) =~= props_at(mid.users().objects_view(), oid));
                }
                let details = update_details(&existing, *user_id, attribute, new_value);
                let n = self.run_write(DeltaType::Update, details);
                proof {
                    assert(oid == #[verifier::truncate] (*user_id as u32));
                    assert(self.ran(&mid, *op, n));
                }
                n
            },
            Operation::Delete { user_id } => {
                let details = delete_details(*user_id);
                let n = self.run_write(DeltaType::Delete, details);
                proof {
                    assert(self.ran(&mid, *op, n));
                }
                n
            },
            Operation::Join { left_table, right_table, join_attribute } => {
                let n = self.run_join(left_table, right_table, join_attribute);
                proof {
                    assert(self.ran(&mid, *op, n));
                }
                n
            },
        };
        proof {
            assert(mid.readied_from(old(self)));
        }
        nodes
    }


    /// Loads users: inserts each into the `users` table (made ready first)
    /// as a delta, then adds the structural factors of the table's objects
    /// over role, region and department, which cover those (object, atom)
    /// pairs exactly.
    pub fn load_data(&mut self, users: &[User])
        requires
            old(self).wf(),
            old(self).next_delta_id + users@.len() <= i64::MAX,
            old(self).graph.current_tick + users@.len() <= u64::MAX,
        ensures
            final(self).wf(),
            final(self).table_ready,
            final(self).dataset_size == users@.len(),
            final(self).next_delta_id == old(self).next_delta_id + users@.len(),
            final(self).graph.current_tick == old(self).graph.current_tick + users@.len(),
            final(self).users().objects_view() == with_users(
                if old(self).table_ready { old(self).users().objects_view() } else { Map::empty() },
                users@,
            ),
            exists|fs: Seq<Factor>| {
                &&& #[trigger] exact_cover(iam_pairs(final(self).users().objects_view()), fs)
                &&& forall|i: int| 0 <= i < fs.len() ==> (#[trigger] fs[i]).is_structural
                    && final(self).users().factors@.contains_key(fs[i].id) && final(self).users().factors@[fs[i].id] == fs[i]
                &&& !old(self).table_ready ==> final(self).users().factors@.dom() == Set::new(|k: u64| exists|i: int| 0 <= i < fs.len() && fs[i].id == k)
            },
            final(self).jmetrics.objects_updated == crate::metrics::advance(old(self).jmetrics.objects_updated, users@.len()),
            final(self).jmetrics.total_queries == old(self).jmetrics.total_queries,
            final(self).jmetrics.query_factor_ops == old(self).jmetrics.query_factor_ops,
            final(self).jmetrics.row_ops == old(self).jmetrics.row_ops,
            final(self).jmetrics.join_fallbacks == old(self).jmetrics.join_fallbacks,
            final(self).uaf_tracker == old(self).uaf_tracker,
            final(self).latencies == old(self).latencies,
            !old(self).table_ready ==> sound(final(self).users()) && complete(final(self).users()),
    {
        self.ensure_table();
        self.dataset_size = users.len();
        let name = "users".to_owned();
        proof {
            reveal_strlit("users");
            assert(name@ =~= users_key());
            crate::metrics::lemma_advance_zero(old(self).jmetrics.objects_updated);
            assert(users@.take(0) =~= Seq::<User>::empty());
        }
        let ghost s0 = *self;
        let ghost base = if old(self).table_ready { old(self).users().objects_view() } else { Map::empty() };
        proof {
            if !old(self).table_ready {
                assert(self.users().objects_view() =~= Map::<u32, Map<Seq<char>, Seq<char>>>::empty());
            }
        }
        let n = users.len();
        for i in 0..n
            invariant
                n == users@.len(),
                name@ == users_key(),
                self.wf(),
                self.table_ready,
                self.dataset_size == n,
                self.next_delta_id == s0.next_delta_id + i,
                s0.next_delta_id + n <= i64::MAX,
                self.graph.current_tick == s0.graph.current_tick + i,
                s0.graph.current_tick + n <= u64::MAX,
                s0.next_delta_id == old(self).next_delta_id,
                s0.graph.current_tick == old(self).graph.current_tick,
                self.users().objects_view() == with_users(base, users@.take(i as int)),
                !old(self).table_ready ==> self.users().factors@.dom() == Set::<u64>::empty(),
                !old(self).table_ready ==> {
                    &&& self.users().bpi_view() == Map::<Seq<char>, Set<u64>>::empty()
                    &&& self.users().boi_view() == Map::<u32, Set<u64>>::empty()
                    &&& forall|o: u32| #[trigger] self.users().objects_view().contains_key(o) ==> plain_keys(self.users().objects_view()[o])
                },
                self.jmetrics.objects_updated == crate::metrics::advance(old(self).jmetrics.objects_updated, i as nat),
                self.jmetrics.total_queries == old(self).jmetrics.total_queries,
                self.jmetrics.query_factor_ops == old(self).jmetrics.query_factor_ops,
                self.jmetrics.row_ops == old(self).jmetrics.row_ops,
                self.jmetrics.join_fallbacks == old(self).jmetrics.join_fallbacks,
                self.uaf_tracker == old(self).uaf_tracker,
                self.latencies == old(self).latencies,
        {
            let details = user_details(&users[i]);
            let delta = self.make_delta(DeltaType::Insert, details);
            let ghost before = *self;
            self.graph.apply_delta(name.as_str(), &delta, &mut self.jmetrics);
            proof {
                crate::metrics::lemma_advance_step(old(self).jmetrics.objects_updated, i as nat);
                let t = users@.take(i + 1);
                assert(t.drop_last() =~= users@.take(i as int));
                assert(t.last() == users@[i as int]);
                if !old(self).table_ready {
                    assert(self.users().factors@.dom() =~= Set::<u64>::empty());
                    let ub = before.users();
                    let ua = self.users();
                    let o = spec_object_id(delta.operation_details@);
                    let pv = spec_properties(delta.operation_details@);
                    assert(ub.attach_set(o, pv, prop_atoms(pv)) =~= Set::<u64>::empty());
                    lemma_user_props_plain(users@[i as int]);
                    assert forall|x: u32| #[trigger] ua.objects_view().contains_key(x) implies plain_keys(ua.objects_view()[x]) by {
                        if x != o {
                            assert(ub.objects_view().contains_key(x));
                        }
                    }
                }
            }
        }
        proof {
            assert(users@.take(n as int) =~= users@);
            if !old(self).table_ready {
                let u = self.users();
                assert forall|a: Seq<char>, k: u64| #[trigger] set_at(u.bpi_view(), a).contains(k) <==> {
                    &&& u.factors@.contains_key(k)
                    &&& strings_view(u.factors@[k].intent@).contains(a)
                } by {
                    assert(!u.factors@.dom().contains(k));
                }
                assert forall|o: u32, k: u64| #[trigger] set_at(u.boi_view(), o).contains(k) <==> {
                    &&& u.factors@.contains_key(k)
                    &&& u.factors@[k].extent@.contains(o)
                } by {
                    assert(!u.factors@.dom().contains(k));
                }
                assert(sound(u));
            }
        }
        let seed = iam_seed(self.graph.table(name.as_str()));
        let fs = structural_factors(seed);
        let ghost fsv = fs@;
        let ghost s1 = *self;
        let nfs = fs.len();
        proof {
            assert forall|k1: int, k2: int| 0 <= k1 < fsv.len() && 0 <= k2 < fsv.len() && k1 != k2 implies
                #[trigger] fsv[k1].id != #[trigger] fsv[k2].id by {
                assert(fsv[k1].id as int == (k1 + 1) % 0x1_0000_0000_0000_0000);
                assert(fsv[k2].id as int == (k2 + 1) % 0x1_0000_0000_0000_0000);
                vstd::arithmetic::div_mod::lemma_small_mod((k1 + 1) as nat, 0x1_0000_0000_0000_0000);
                vstd::arithmetic::div_mod::lemma_small_mod((k2 + 1) as nat, 0x1_0000_0000_0000_0000);
            }
        }
        let ghost mut idx: int = 0;
        for f in it: fs.into_iter()
            invariant
                it.seq() == fsv,
                idx == it.index(),
                name@ == users_key(),
                self.wf(),
                self.table_ready,
                self.dataset_size == s1.dataset_size,
                self.next_delta_id == s1.next_delta_id,
                self.graph.current_tick == s1.graph.current_tick,
                self.jmetrics == s1.jmetrics,
                self.uaf_tracker == s1.uaf_tracker,
                self.latencies == s1.latencies,
                self.users().objects_view() == s1.users().objects_view(),
                forall|k1: int, k2: int| 0 <= k1 < fsv.len() && 0 <= k2 < fsv.len() && k1 != k2 ==>
                    #[trigger] fsv[k1].id != #[trigger] fsv[k2].id,
                forall|j: int| 0 <= j < idx ==> self.users().factors@.contains_key(#[trigger] fsv[j].id)
                    && self.users().factors@[fsv[j].id] == fsv[j],
                forall|k: u64| #[trigger] self.users().factors@.contains_key(k) <==>
                    (s1.users().factors@.contains_key(k) || exists|j: int| 0 <= j < idx && fsv[j].id == k),
                exact_cover(iam_pairs(s1.users().objects_view()), fsv),
                forall|j: int| 0 <= j < fsv.len() ==> (#[trigger] fsv[j]).extent@.len() > 0 && fsv[j].intent@.len() > 0,
                !old(self).table_ready ==> s1.users().factors@.dom() == Set::<u64>::empty(),
                !old(self).table_ready ==> sound(self.users()),
                !old(self).table_ready ==> forall|a: Seq<char>| #[trigger] self.users().bpi_view().contains_key(a) ==>
                    exists|k: u64| self.users().factors@.contains_key(k) && strings_view(self.users().factors@[k].intent@).contains(a),
        {
            let ghost before = self.users();
            let g = self.graph.table_mut(name.as_str());
            g.add_factor(f);
            proof {
                if !old(self).table_ready {
                    let objs = s1.users().objects_view();
                    assert(f == fsv[idx]);
                    if before.factors@.contains_key(f.id) {
                        let j = choose|j: int| 0 <= j < idx && fsv[j].id == f.id;
                        assert(fsv[j].id != fsv[idx].id);
                    }
                    let iv = strings_view(f.intent@);
                    assert(rect(fsv[idx]).subset_of(iam_pairs(objs)));
                    assert forall|o: u32| #[trigger] f.extent@.contains(o) implies before.objects_view().contains_key(o)
                        && satisfies(strings_view(f.intent@), before.objects_view()[o]) by {
                        assert(rect(f).contains((o, iv[0])));
                        lemma_iam_pair(objs, o, iv[0]);
                        assert forall|i: int| 0 <= i < iv.len() implies {
                            &&& atom_splits(#[trigger] iv[i])
                            &&& objs[o].contains_key(atom_attr(iv[i]))
                            &&& objs[o][atom_attr(iv[i])] == atom_value(iv[i])
                        } by {
                            assert(rect(f).contains((o, iv[i])));
                            lemma_iam_pair(objs, o, iv[i]);
                        }
                    }
                    law_add_factor_keeps_sound(before, self.users(), f);
                    let ua = self.users();
                    assert forall|a: Seq<char>| #[trigger] ua.bpi_view().contains_key(a) implies
                        exists|k: u64| ua.factors@.contains_key(k) && strings_view(ua.factors@[k].intent@).contains(a) by {
                        if iv.contains(a) {
                            assert(ua.factors@.contains_key(f.id) && strings_view(ua.factors@[f.id].intent@).contains(a));
                        } else {
                            assert(before.bpi_view().contains_key(a));
                            let k = choose|k: u64| before.factors@.contains_key(k) && strings_view(before.factors@[k].intent@).contains(a);
                            assert(k != f.id);
                            assert(ua.factors@.contains_key(k) && strings_view(ua.factors@[k].intent@).contains(a));
                        }
                    }
                }
            }
            proof {
                assert(f == fsv[idx]);
                assert(self.users().objects_view() =~= s1.users().objects_view());
                assert forall|k: u64| #[trigger] self.users().factors@.contains_key(k) <==>
                    (s1.users().factors@.contains_key(k) || exists|j: int| 0 <= j < idx + 1 && fsv[j].id == k) by {
                    if k == f.id {
                        assert(fsv[idx].id == k);
                    } else if exists|j: int| 0 <= j < idx + 1 && fsv[j].id == k {
                        let j = choose|j: int| 0 <= j < idx + 1 && fsv[j].id == k;
                        assert(j != idx);
                    }
                }
            }
            proof {
                idx = idx + 1;
            }
        }
        proof {
            assert(idx == fsv.len());
            assert(exact_cover(iam_pairs(self.users().objects_view()), fsv));
            if !old(self).table_ready {
                assert(self.users().factors@.dom() =~= Set::new(|k: u64| exists|i: int| 0 <= i < fsv.len() && fsv[i].id == k));
                let u = self.users();
                let objs = u.objects_view();
                assert forall|o: u32, a: Seq<char>| objs.contains_key(o) && #[trigger] prop_atoms(objs[o]).contains(a)
                    && u.bpi_view().contains_key(a) implies exists|k: u64| {
                        &&& #[trigger] set_at(u.bpi_view(), a).contains(k)
                        &&& u.factors@.contains_key(k)
                        &&& u.factors@[k].extent@.contains(o)
                    } by {
                    let k0 = choose|k: u64| u.factors@.contains_key(k) && strings_view(u.factors@[k].intent@).contains(a);
                    let j = choose|j: int| 0 <= j < fsv.len() && fsv[j].id == k0;
                    assert(u.factors@[k0] == fsv[j]);
                    let o2 = fsv[j].extent@[0];
                    assert(rect(fsv[j]).contains((o2, a)));
                    assert(objs == s1.users().objects_view());
                    assert(rect(fsv[j]).subset_of(iam_pairs(objs)));
                    lemma_iam_pair(objs, o2, a);
                    let kk = choose|kk: Seq<char>| #[trigger] objs[o].contains_key(kk) && a == atom_of(kk, objs[o][kk]);
                    assert(plain_keys(objs[o]));
                    lemma_atom_roundtrip(kk, objs[o][kk]);
                    assert(atom_attr(a) == kk);
                    assert(is_iam(kk));
                    assert(objs.contains_key(o) && objs[o].contains_key(kk) && is_iam(kk) && a == atom_of(kk, objs[o][kk]));
                    assert(iam_pairs(objs).contains((o, a)));
                    let j2 = choose|j2: int| 0 <= j2 < fsv.len() && #[trigger] rect(fsv[j2]).contains((o, a));
                    assert(u.factors@[fsv[j2].id] == fsv[j2]);
                    assert(set_at(u.bpi_view(), a).contains(fsv[j2].id));
                }
                assert(complete(u));
            }
        }
    }

}

} // verus!
