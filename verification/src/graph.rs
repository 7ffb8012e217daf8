use std::collections::{HashMap, HashSet};
use vstd::prelude::*;
use crate::index::{
    boi_add, boi_drop, bpi_add, bpi_drop, copy_ids, extend_objs, ids_to_vec, objs_to_vec, intersect, keys_u32, keys_u64, remove_all, union_into, index_add, index_remove, lemma_index_add_empty,
    lemma_index_add_more, lemma_index_remove_empty, lemma_index_remove_more, set_at, sets_map, without,
};
use crate::metrics::{advance, Metrics};
use crate::lifecycle::{sort_by_id, sort_lifecycles};
use crate::strmap::StrMap;
use crate::text::{atom_attr, atom_of, decimal, decimal_string, atom_splits, atom_value, join_strings, join_strs, make_atom, sort_strings, sort_strs};
use crate::types::{
    clone_props, props_view, spec_object_id, spec_properties, strings_view, Delta, DeltaType, DependencyGraph, Factor, FactorLifecycle, MetricsReport, ObjectId, PropMap, QueryFilter,
};

verus! {

broadcast use vstd::std_specs::hash::group_hash_axioms;

/// Object -> ids of the factors whose extent holds it.
pub type BOI = HashMap<ObjectId, HashSet<u64>>;

/// Property atom -> ids of the factors whose intent holds it.
pub type BPI = StrMap<HashSet<u64>>;

pub struct FactorGraph {
    pub graph: DependencyGraph,
    pub boi: BOI,
    pub bpi: BPI,
    pub factors: HashMap<u64, Factor>,
    pub objects: HashMap<ObjectId, PropMap>,
    /// adaptive materialisation
    pub conjunction_hits: StrMap<u64>,
    pub factor_last_access: HashMap<u64, u64>,
    pub current_tick: u64,
    pub materialization_threshold: u64,
    /// lifecycle tracking for metrics: active factors
    pub lifecycles: HashMap<u64, FactorLifecycle>,
    /// lifecycle tracking for metrics: evicted factors
    pub completed_lifecycles: Vec<FactorLifecycle>,
}

/// The lifecycle record a factor starts with when added at `tick`.
pub open spec fn new_lifecycle(f: Factor, tick: u64) -> FactorLifecycle {
    FactorLifecycle {
        factor_id: f.id,
        is_structural: f.is_structural,
        created_at_tick: tick,
        last_accessed_tick: tick,
        evicted_at_tick: None,
    }
}

/// A factor whose access count has been advanced by `n`.
pub open spec fn with_accesses(f: Factor, n: nat) -> Factor {
    Factor { access_count: advance(f.access_count, n), ..f }
}

/// A lifecycle record as it stands after an access at `tick`.
pub open spec fn touched_lifecycle(lc: FactorLifecycle, tick: u64) -> FactorLifecycle {
    FactorLifecycle { last_accessed_tick: tick, ..lc }
}

/// The objects in the extents of the factors with the given ids.
pub open spec fn factor_union(factors: Map<u64, Factor>, ids: Set<u64>) -> Set<u32> {
    Set::new(|o: u32| exists|fid: u64| ids.contains(fid) && factors.contains_key(fid) && #[trigger] factors[fid].extent@.contains(o))
}

/// The objects whose stored properties give `attr` the value `value`.
pub open spec fn rows_with(objects: Map<u32, Map<Seq<char>, Seq<char>>>, attr: Seq<char>, value: Seq<char>) -> Set<u32> {
    Set::new(|o: u32| objects.contains_key(o) && objects[o].contains_key(attr) && objects[o][attr] == value)
}

/// The atoms of the equality filters of a list, in order (other filters contribute nothing).
pub open spec fn eq_atom_list(s: Seq<QueryFilter>) -> Seq<Seq<char>>
    decreases s.len(),
{
    if s.len() == 0 {
        Seq::empty()
    } else {
        eq_atom_list(s.drop_last()) + match s.last() {
            QueryFilter::Eq { attribute, value } => seq![atom_of(attribute@, value@)],
            _ => Seq::empty(),
        }
    }
}

/// The key under which a conjunction of equalities is counted: its atoms
/// sorted and joined with `&`.
pub open spec fn conj_key(subs: Seq<QueryFilter>) -> Seq<char> {
    join_strs(sort_strs(eq_atom_list(subs)), seq!['&'])
}

/// `m` is the largest element of `ks`, or 0 when `ks` is empty.
pub open spec fn is_max_key(ks: Set<u64>, m: u64) -> bool {
    (ks.is_empty() && m == 0) || (ks.contains(m) && forall|k: u64| #[trigger] ks.contains(k) ==> k <= m)
}

/// How many equality leaves of a filter name an atom whose index entry holds `fid`.
pub open spec fn filter_hits(bpi: Map<Seq<char>, Set<u64>>, f: QueryFilter, fid: u64) -> nat
    decreases f,
{
    match f {
        QueryFilter::Eq { attribute, value } => if set_at(bpi, atom_of(attribute@, value@)).contains(fid) {
            1
        } else {
            0
        },
        QueryFilter::And(subs) => list_hits(bpi, subs@, fid),
        QueryFilter::Or(subs) => list_hits(bpi, subs@, fid),
    }
}

pub open spec fn list_hits(bpi: Map<Seq<char>, Set<u64>>, s: Seq<QueryFilter>, fid: u64) -> nat
    decreases s,
{
    if s.len() == 0 {
        0
    } else {
        list_hits(bpi, s.drop_last(), fid) + filter_hits(bpi, s.last(), fid)
    }
}

pub proof fn lemma_advance_add(c: u64, a: nat, b: nat)
    ensures
        advance(advance(c, a), b) == advance(c, a + b),
{
    let m: int = 0x1_0000_0000_0000_0000;
    let x = (c as int + a) % m;
    assert(0 <= x < m);
    vstd::arithmetic::div_mod::lemma_add_mod_noop(c as int + a, b as int, m);
    vstd::arithmetic::div_mod::lemma_mod_twice(b as int, m);
    vstd::arithmetic::div_mod::lemma_add_mod_noop(x, b as int, m);
    vstd::arithmetic::div_mod::lemma_small_mod(x as nat, m as nat);
}

/// Every atom of an intent splits into an attribute and a value, and the
/// properties give that attribute that value.
pub open spec fn satisfies(intent: Seq<Seq<char>>, props: Map<Seq<char>, Seq<char>>) -> bool {
    forall|i: int| 0 <= i < intent.len() ==> {
        &&& atom_splits(#[trigger] intent[i])
        &&& props.contains_key(atom_attr(intent[i]))
        &&& props[atom_attr(intent[i])] == atom_value(intent[i])
    }
}

/// Whether the object properties satisfy every atom of the factor's intent.
pub fn factor_is_satisfied_by(factor: &Factor, object_props: &PropMap) -> (r: bool)
    requires
        object_props.wf(),
    ensures
        r == satisfies(strings_view(factor.intent@), props_view(*object_props)),
{
    let n = factor.intent.len();
    for i in 0..n
        invariant
            n == factor.intent@.len(),
            object_props.wf(),
            forall|j: int| 0 <= j < i ==> {
                &&& atom_splits(#[trigger] strings_view(factor.intent@)[j])
                &&& props_view(*object_props).contains_key(atom_attr(strings_view(factor.intent@)[j]))
                &&& props_view(*object_props)[atom_attr(strings_view(factor.intent@)[j])] == atom_value(strings_view(factor.intent@)[j])
            },
    {
        let ghost a = strings_view(factor.intent@)[i as int];
        match crate::text::split_atom(factor.intent[i].as_str()) {
            Some((attr, val)) => {
                match object_props.get(attr.as_str()) {
                    Some(v) => {
                        if !(*v == val) {
                            return false;
                        }
                    },
                    None => {
                        return false;
                    },
                }
            },
            None => {
                return false;
            },
        }
    }
    true
}

/// The atoms `attr=value` of a property map.
pub open spec fn prop_atoms(props: Map<Seq<char>, Seq<char>>) -> Set<Seq<char>> {
    Set::new(|a: Seq<char>| exists|k: Seq<char>| #[trigger] props.contains_key(k) && a == atom_of(k, props[k]))
}

/// `f2` is `f1` with `o` appended to its extent and one more access.
pub open spec fn extended(f2: Factor, f1: Factor, o: u32) -> bool {
    &&& f2.id == f1.id
    &&& f2.intent == f1.intent
    &&& f2.is_structural == f1.is_structural
    &&& f2.created_at == f1.created_at
    &&& f2.last_accessed == f1.last_accessed
    &&& f2.extent@ == f1.extent@.push(o)
    &&& f2.access_count == advance(f1.access_count, 1)
}

/// The distinct atoms of a property map.
pub fn prop_atom_list(props: &PropMap) -> (atoms: Vec<String>)
    requires
        props.wf(),
    ensures
        strings_view(atoms@).to_set() == prop_atoms(props_view(*props)),
        strings_view(atoms@).no_duplicates(),
{
    let keys = props.keys();
    let n = props.len();
    let mut atoms: Vec<String> = Vec::new();
    let ghost pv = props_view(*props);
    for i in 0..n
        invariant
            props.wf(),
            pv == props_view(*props),
            n == props.keys_seq().len(),
            keys@.len() == n,
            forall|j: int| 0 <= j < n ==> #[trigger] keys@[j]@ == props.keys_seq()[j],
            strings_view(atoms@).no_duplicates(),
            forall|a: Seq<char>| strings_view(atoms@).contains(a) <==> exists|j: int| 0 <= j < i
                && a == #[trigger] atom_of(props.keys_seq()[j], pv[props.keys_seq()[j]]),
    {
        proof {
            props.lemma_entry(i as int);
        }
        let atom = make_atom(keys[i].as_str(), props.value_at(i).as_str());
        let ghost before = strings_view(atoms@);
        let mut found = false;
        let m = atoms.len();
        for j in 0..m
            invariant
                m == atoms@.len(),
                found ==> before.contains(atom@),
                !found ==> forall|q: int| 0 <= q < j ==> atoms@[q]@ != atom@,
                before == strings_view(atoms@),
        {
            if atoms[j] == atom {
                found = true;
                assert(before[j as int] == atom@);
            }
        }
        if !found {
            atoms.push(atom);
            proof {
                assert(strings_view(atoms@) =~= before.push(atom@));
                assert forall|x: int, y: int| 0 <= x < strings_view(atoms@).len() && 0 <= y < strings_view(atoms@).len() && x != y
                    implies strings_view(atoms@)[x] != strings_view(atoms@)[y] by {
                    if x == before.len() {
                        assert(before[y] == atoms@[y]@);
                    } else if y == before.len() {
                        assert(before[x] == atoms@[x]@);
                    }
                }
            }
        }
        proof {
            let k = props.keys_seq()[i as int];
            assert(atom@ == atom_of(k, pv[k]));
            assert forall|a: Seq<char>| strings_view(atoms@).contains(a) <==> exists|j: int| 0 <= j < i + 1
                && a == #[trigger] atom_of(props.keys_seq()[j], pv[props.keys_seq()[j]]) by {
                if strings_view(atoms@).contains(a) && a != atom@ {
                    let q = choose|q: int| 0 <= q < strings_view(atoms@).len() && strings_view(atoms@)[q] == a;
                    if !found {
                        assert(q < before.len());
                    }
                    assert(before.contains(a));
                }
                if a == atom@ {
                    if !found {
                        assert(strings_view(atoms@)[before.len() as int] == a);
                    }
                }
                if exists|j: int| 0 <= j < i && a == #[trigger] atom_of(props.keys_seq()[j], pv[props.keys_seq()[j]]) {
                    assert(before.contains(a));
                    let q = choose|q: int| 0 <= q < before.len() && before[q] == a;
                    assert(strings_view(atoms@)[q] == a);
                }
            }
        }
    }
    proof {
        assert forall|a: Seq<char>| strings_view(atoms@).to_set().contains(a) <==> prop_atoms(pv).contains(a) by {
            if prop_atoms(pv).contains(a) {
                let k = choose|k: Seq<char>| #[trigger] pv.contains_key(k) && a == atom_of(k, pv[k]);
                let j = props.lemma_key_position(k);
                assert(a == atom_of(props.keys_seq()[j], pv[props.keys_seq()[j]]));
            }
            if strings_view(atoms@).contains(a) {
                let j = choose|j: int| 0 <= j < n && a == #[trigger] atom_of(props.keys_seq()[j], pv[props.keys_seq()[j]]);
                props.lemma_entry(j);
                assert(pv.contains_key(props.keys_seq()[j]));
            }
        }
        assert(strings_view(atoms@).to_set() =~= prop_atoms(pv));
    }
    atoms
}

/// Whether `v` holds `x`.
pub fn vec_contains(v: &Vec<u32>, x: u32) -> (r: bool)
    ensures
        r == v@.contains(x),
{
    let n = v.len();
    for i in 0..n
        invariant
            n == v@.len(),
            forall|j: int| 0 <= j < i ==> v@[j] != x,
    {
        if v[i] == x {
            return true;
        }
    }
    false
}

/// `f2` is `f1` without `o` in its extent and with one more access.
pub open spec fn shrunk(f2: Factor, f1: Factor, o: u32) -> bool {
    &&& f2.id == f1.id
    &&& f2.intent == f1.intent
    &&& f2.is_structural == f1.is_structural
    &&& f2.created_at == f1.created_at
    &&& f2.last_accessed == f1.last_accessed
    &&& f2.extent@ == without(f1.extent@, o)
    &&& f2.access_count == advance(f1.access_count, 1)
}

/// The properties stored for `o` (none when `o` is not stored).
pub open spec fn props_at(objects: Map<u32, Map<Seq<char>, Seq<char>>>, o: u32) -> Map<Seq<char>, Seq<char>> {
    if objects.contains_key(o) {
        objects[o]
    } else {
        Map::empty()
    }
}

/// Whether `v` holds a string equal to `s`.
pub fn strings_contain(v: &Vec<String>, s: &String) -> (r: bool)
    ensures
        r == strings_view(v@).contains(s@),
{
    let n = v.len();
    for i in 0..n
        invariant
            n == v@.len(),
            forall|j: int| 0 <= j < i ==> v@[j]@ != s@,
    {
        if v[i] == *s {
            assert(strings_view(v@)[i as int] == s@);
            return true;
        }
    }
    proof {
        if strings_view(v@).contains(s@) {
            let j = choose|j: int| 0 <= j < strings_view(v@).len() && strings_view(v@)[j] == s@;
            assert(v@[j]@ == s@);
        }
    }
    false
}

/// The strings of `a` that `b` does not hold, in the order of `a`.
pub fn strings_minus(a: &Vec<String>, b: &Vec<String>) -> (r: Vec<String>)
    ensures
        strings_view(r@).to_set() == strings_view(a@).to_set().difference(strings_view(b@).to_set()),
{
    let mut r: Vec<String> = Vec::new();
    let n = a.len();
    for i in 0..n
        invariant
            n == a@.len(),
            strings_view(r@).to_set() == strings_view(a@).take(i as int).to_set().difference(strings_view(b@).to_set()),
    {
        let ghost before = strings_view(r@);
        proof {
            crate::index::lemma_take_to_set_step(strings_view(a@), i as int);
        }
        if !strings_contain(b, &a[i]) {
            r.push(a[i].clone());
            proof {
                assert(strings_view(r@) =~= before.push(a@[i as int]@));
                assert(strings_view(r@).to_set() =~= before.to_set().insert(a@[i as int]@)) by {
                    assert forall|x: Seq<char>| strings_view(r@).to_set().contains(x) implies before.to_set().insert(a@[i as int]@).contains(x) by {
                        let q = choose|q: int| 0 <= q < strings_view(r@).len() && strings_view(r@)[q] == x;
                        if q < before.len() {
                            assert(before[q] == x);
                        }
                    }
                    assert forall|x: Seq<char>| before.to_set().insert(a@[i as int]@).contains(x) implies strings_view(r@).to_set().contains(x) by {
                        if x == a@[i as int]@ {
                            assert(strings_view(r@)[before.len() as int] == x);
                        } else {
                            let q = choose|q: int| 0 <= q < before.len() && before[q] == x;
                            assert(strings_view(r@)[q] == x);
                        }
                    }
                }
            }
        }
        proof {
            assert(strings_view(a@)[i as int] == a@[i as int]@);
            assert(strings_view(r@).to_set() =~= strings_view(a@).take(i + 1).to_set().difference(strings_view(b@).to_set()));
        }
    }
    proof {
        assert(strings_view(a@).take(n as int) =~= strings_view(a@));
    }
    r
}

/// The ids of `ids` whose factor holds `o` in its extent.
pub open spec fn ids_holding_object(factors: Map<u64, Factor>, ids: Set<u64>, o: u32) -> Set<u64> {
    Set::new(|fid: u64| ids.contains(fid) && factors.contains_key(fid) && factors[fid].extent@.contains(o))
}

/// The ids of `ids` whose factor holds `a` in its intent.
pub open spec fn ids_holding_atom(factors: Map<u64, Factor>, ids: Set<u64>, a: Seq<char>) -> Set<u64> {
    Set::new(|fid: u64| ids.contains(fid) && factors.contains_key(fid) && strings_view(factors[fid].intent@).contains(a))
}

/// The object index without the factors of `ids` under the objects of their extents.
pub open spec fn strip_objects(idx: Map<u32, Set<u64>>, factors: Map<u64, Factor>, ids: Set<u64>) -> Map<u32, Set<u64>> {
    Map::new(|o: u32| idx.contains_key(o), |o: u32| idx[o].difference(ids_holding_object(factors, ids, o)))
}

/// The property index without the factors of `ids` under the atoms of their intents.
pub open spec fn strip_atoms(idx: Map<Seq<char>, Set<u64>>, factors: Map<u64, Factor>, ids: Set<u64>) -> Map<Seq<char>, Set<u64>> {
    Map::new(|a: Seq<char>| idx.contains_key(a), |a: Seq<char>| idx[a].difference(ids_holding_atom(factors, ids, a)))
}

/// A lifecycle record closed at `tick`.
pub open spec fn evicted_record(lc: FactorLifecycle, tick: u64) -> FactorLifecycle {
    FactorLifecycle { evicted_at_tick: Some(tick), ..lc }
}

/// The closed lifecycle records of the factors `ids`, in that order.
pub open spec fn evicted_records(lcs: Map<u64, FactorLifecycle>, ids: Seq<u64>, tick: u64) -> Seq<FactorLifecycle> {
    ids.map_values(|k: u64| evicted_record(lcs[k], tick))
}

/// The key under which a rebuilt row carries the object id.
pub open spec fn id_key() -> Seq<char> {
    seq!['i', 'd']
}

/// The atoms that split and that the intents of the factors `fids` hold.
pub open spec fn intent_atoms(factors: Map<u64, Factor>, fids: Set<u64>) -> Set<Seq<char>> {
    Set::new(|a: Seq<char>| atom_splits(a) && exists|fid: u64| #[trigger] fids.contains(fid) && factors.contains_key(fid)
        && strings_view(factors[fid].intent@).contains(a))
}

/// `row` was rebuilt from the atoms `atoms` over a row that held only the
/// id `id_text`: it has the attribute of each atom, with the value of one of
/// the atoms of that attribute, and the id unless an atom set it.
pub open spec fn row_from_atoms(row: Map<Seq<char>, Seq<char>>, id_text: Seq<char>, atoms: Set<Seq<char>>) -> bool {
    &&& forall|k: Seq<char>| #[trigger] row.contains_key(k) <==>
        (k == id_key() || exists|a: Seq<char>| #[trigger] atoms.contains(a) && atom_attr(a) == k)
    &&& forall|k: Seq<char>| #[trigger] row.contains_key(k) ==>
        (exists|a: Seq<char>| #[trigger] atoms.contains(a) && atom_attr(a) == k && row[k] == atom_value(a))
        || (k == id_key() && row[k] == id_text && !exists|a: Seq<char>| #[trigger] atoms.contains(a) && atom_attr(a) == k)
}

/// Setting the attribute of one more atom keeps a row rebuilt from atoms.
pub proof fn lemma_row_from_atoms_step(row: Map<Seq<char>, Seq<char>>, id_text: Seq<char>, atoms: Set<Seq<char>>, a: Seq<char>)
    requires
        row_from_atoms(row, id_text, atoms),
    ensures
        row_from_atoms(row.insert(atom_attr(a), atom_value(a)), id_text, atoms.insert(a)),
{
    let r2 = row.insert(atom_attr(a), atom_value(a));
    let s2 = atoms.insert(a);
    assert forall|k: Seq<char>| #[trigger] r2.contains_key(k) <==>
        (k == id_key() || exists|b: Seq<char>| #[trigger] s2.contains(b) && atom_attr(b) == k) by {
        if k == atom_attr(a) {
            assert(s2.contains(a));
        } else {
            assert(r2.contains_key(k) == row.contains_key(k));
            if exists|b: Seq<char>| #[trigger] s2.contains(b) && atom_attr(b) == k {
                let b = choose|b: Seq<char>| #[trigger] s2.contains(b) && atom_attr(b) == k;
                assert(atoms.contains(b));
                assert(row.contains_key(k));
            }
            if row.contains_key(k) && k != id_key() {
                let b = choose|b: Seq<char>| #[trigger] atoms.contains(b) && atom_attr(b) == k;
                assert(s2.contains(b));
            }
            if k == id_key() {
                assert(row.contains_key(k));
            }
        }
    }
    assert forall|k: Seq<char>| #[trigger] r2.contains_key(k) implies
        (exists|b: Seq<char>| #[trigger] s2.contains(b) && atom_attr(b) == k && r2[k] == atom_value(b))
        || (k == id_key() && r2[k] == id_text && !exists|b: Seq<char>| #[trigger] s2.contains(b) && atom_attr(b) == k) by {
        if k == atom_attr(a) {
            assert(s2.contains(a));
        } else {
            assert(row.contains_key(k));
            if exists|b: Seq<char>| #[trigger] atoms.contains(b) && atom_attr(b) == k && row[k] == atom_value(b) {
                let b = choose|b: Seq<char>| #[trigger] atoms.contains(b) && atom_attr(b) == k && row[k] == atom_value(b);
                assert(s2.contains(b));
            } else {
                assert(!exists|b: Seq<char>| #[trigger] s2.contains(b) && atom_attr(b) == k) by {
                    if exists|b: Seq<char>| #[trigger] s2.contains(b) && atom_attr(b) == k {
                        let b = choose|b: Seq<char>| #[trigger] s2.contains(b) && atom_attr(b) == k;
                        assert(atoms.contains(b));
                    }
                }
            }
        }
    }
}

/// The ids of the factors that are structural (`structural`) or operational (`!structural`).
pub open spec fn kind_set(factors: Map<u64, Factor>, structural: bool) -> Set<u64> {
    Set::new(|k: u64| factors.contains_key(k) && factors[k].is_structural == structural)
}

/// The lifecycle records of the ids `order`, in that order.
pub open spec fn records_of(lcs: Map<u64, FactorLifecycle>, order: Seq<u64>) -> Seq<FactorLifecycle> {
    order.map_values(|k: u64| lcs[k])
}

/// `filter_hits` as a function of the factor id.
pub open spec fn hits_fn(bpi: Map<Seq<char>, Set<u64>>, f: QueryFilter) -> spec_fn(u64) -> nat {
    |k: u64| filter_hits(bpi, f, k)
}

/// The counters after a query: one more query and one more factor-space
/// operation, and one more row operation when `used_rows`.
pub open spec fn counted_query(m: Metrics, old: Metrics, used_rows: bool) -> bool {
    &&& m.total_queries == advance(old.total_queries, 1)
    &&& m.query_factor_ops == advance(old.query_factor_ops, 1)
    &&& m.row_ops == (if used_rows { advance(old.row_ops, 1) } else { old.row_ops })
    &&& m.write_factor_ops == old.write_factor_ops
    &&& m.write_propagation_nodes == old.write_propagation_nodes
    &&& m.objects_updated == old.objects_updated
    &&& m.join_fallbacks == old.join_fallbacks
}

impl FactorGraph {
    /// The graph with its tick advanced by one.
    pub open spec fn ticked(&self) -> FactorGraph {
        FactorGraph { current_tick: (self.current_tick + 1) as u64, ..*self }
    }

    /// Objects a filter selects in factor space: an equality selects the
    /// extents of the factors indexed under its atom, a conjunction the
    /// intersection of its parts (none when it has no parts), a disjunction
    /// their union.
    pub open spec fn eval_spec(&self, f: QueryFilter) -> Set<u32>
        decreases f,
    {
        match f {
            QueryFilter::Eq { attribute, value } => factor_union(
                self.factors@,
                set_at(self.bpi_view(), atom_of(attribute@, value@)),
            ),
            QueryFilter::And(subs) => self.eval_all_spec(subs@),
            QueryFilter::Or(subs) => self.eval_any_spec(subs@),
        }
    }

    pub open spec fn eval_all_spec(&self, s: Seq<QueryFilter>) -> Set<u32>
        decreases s,
    {
        if s.len() == 0 {
            Set::empty()
        } else if s.len() == 1 {
            self.eval_spec(s[0])
        } else {
            self.eval_all_spec(s.drop_last()).intersect(self.eval_spec(s.last()))
        }
    }

    pub open spec fn eval_any_spec(&self, s: Seq<QueryFilter>) -> Set<u32>
        decreases s,
    {
        if s.len() == 0 {
            Set::empty()
        } else {
            self.eval_any_spec(s.drop_last()).union(self.eval_spec(s.last()))
        }
    }

    /// Like `eval_spec`, but an equality whose atom the property index does
    /// not know is answered by scanning the stored rows; the flag says
    /// whether any part of the filter had to do so.
    pub open spec fn eval_fb_spec(&self, f: QueryFilter) -> (Set<u32>, bool)
        decreases f,
    {
        match f {
            QueryFilter::Eq { attribute, value } => if self.bpi_view().contains_key(atom_of(attribute@, value@)) {
                (factor_union(self.factors@, self.bpi_view()[atom_of(attribute@, value@)]), false)
            } else {
                (rows_with(self.objects_view(), attribute@, value@), true)
            },
            QueryFilter::And(subs) => self.fb_all_spec(subs@),
            QueryFilter::Or(subs) => self.fb_any_spec(subs@),
        }
    }

    pub open spec fn fb_all_spec(&self, s: Seq<QueryFilter>) -> (Set<u32>, bool)
        decreases s,
    {
        if s.len() == 0 {
            (Set::empty(), false)
        } else if s.len() == 1 {
            self.eval_fb_spec(s[0])
        } else {
            let a = self.fb_all_spec(s.drop_last());
            let b = self.eval_fb_spec(s.last());
            (a.0.intersect(b.0), a.1 || b.1)
        }
    }

    pub open spec fn fb_any_spec(&self, s: Seq<QueryFilter>) -> (Set<u32>, bool)
        decreases s,
    {
        if s.len() == 0 {
            (Set::empty(), false)
        } else {
            let a = self.fb_any_spec(s.drop_last());
            let b = self.eval_fb_spec(s.last());
            (a.0.union(b.0), a.1 || b.1)
        }
    }

    pub open spec fn boi_view(&self) -> Map<u32, Set<u64>> {
        sets_map(self.boi@)
    }

    pub open spec fn bpi_view(&self) -> Map<Seq<char>, Set<u64>> {
        sets_map(self.bpi@)
    }

    pub open spec fn objects_view(&self) -> Map<u32, Map<Seq<char>, Seq<char>>> {
        self.objects@.map_values(|p: PropMap| props_view(p))
    }

    /// The factor with id `fid`, if any.
    pub open spec fn has_factor(&self, fid: u64) -> bool {
        self.factors@.contains_key(fid)
    }

    pub open spec fn wf(&self) -> bool {
        &&& self.bpi.wf()
        &&& self.conjunction_hits.wf()
        &&& forall|o: u32| #[trigger] self.objects@.contains_key(o) ==> self.objects@[o].wf()
        &&& forall|k: u64| #[trigger] self.factors@.contains_key(k) ==> self.factors@[k].id == k
        &&& forall|k: u64| #[trigger] self.factor_last_access@.contains_key(k) ==> self.factor_last_access@[k] <= self.current_tick
    }

    /// Every field but the factors, the indexes, the access times and the lifecycles is as in `other`.
    pub open spec fn same_data(&self, other: &FactorGraph) -> bool {
        &&& self.objects@ == other.objects@
        &&& self.conjunction_hits@ == other.conjunction_hits@
        &&& self.current_tick == other.current_tick
        &&& self.materialization_threshold == other.materialization_threshold
        &&& self.graph.nodes@ == other.graph.nodes@
    }

    /// All fields but the two indexes are as in `other`.
    pub open spec fn same_but_indexes(&self, other: &FactorGraph) -> bool {
        &&& self.same_data(other)
        &&& self.factors@ == other.factors@
        &&& self.factor_last_access@ == other.factor_last_access@
        &&& self.lifecycles@ == other.lifecycles@
        &&& self.completed_lifecycles@ == other.completed_lifecycles@
    }

    /// `self` is `old` after `add_factor(f)`, leaving the conjunction counters aside.
    pub open spec fn added_from(&self, old: &FactorGraph, f: Factor) -> bool {
        &&& self.objects@ == old.objects@
        &&& self.current_tick == old.current_tick
        &&& self.materialization_threshold == old.materialization_threshold
        &&& self.graph.nodes@ == old.graph.nodes@
        &&& self.factors@ == old.factors@.insert(f.id, f)
        &&& self.boi_view() == index_add(old.boi_view(), f.extent@.to_set(), f.id)
        &&& self.bpi_view() == index_add(old.bpi_view(), strings_view(f.intent@).to_set(), f.id)
        &&& self.factor_last_access@ == old.factor_last_access@.insert(f.id, old.current_tick)
        &&& self.lifecycles@ == old.lifecycles@.insert(f.id, new_lifecycle(f, old.current_tick))
        &&& self.completed_lifecycles@ == old.completed_lifecycles@
    }

    /// Every field but the conjunction counters is as in `other`, as far as the views tell.
    pub open spec fn same_but_hits(&self, other: &FactorGraph) -> bool {
        &&& self.objects@ == other.objects@
        &&& self.current_tick == other.current_tick
        &&& self.materialization_threshold == other.materialization_threshold
        &&& self.graph.nodes@ == other.graph.nodes@
        &&& self.factors@ == other.factors@
        &&& self.factor_last_access@ == other.factor_last_access@
        &&& self.lifecycles@ == other.lifecycles@
        &&& self.completed_lifecycles@ == other.completed_lifecycles@
        &&& self.boi_view() == other.boi_view()
        &&& self.bpi_view() == other.bpi_view()
    }

    /// Every field is as in `other`, as far as the views tell.
    pub open spec fn same_state(&self, other: &FactorGraph) -> bool {
        &&& self.same_but_hits(other)
        &&& self.conjunction_hits@ == other.conjunction_hits@
    }

    /// A conjunction of equalities is materialised: every sub-filter is an
    /// equality, its counter has just reached the threshold, and no factor has
    /// the same intent (compared sorted).
    pub open spec fn materializes(&self, subs: Seq<QueryFilter>) -> bool {
        &&& eq_atom_list(subs).len() == subs.len()
        &&& advance(self.hits_of(conj_key(subs)), 1) == self.materialization_threshold
        &&& !exists|k: u64| #[trigger] self.factors@.contains_key(k)
            && sort_strs(strings_view(self.factors@[k].intent@)) == sort_strs(eq_atom_list(subs))
    }

    /// The counter of a conjunction key (0 when absent).
    pub open spec fn hits_of(&self, key: Seq<char>) -> u64 {
        if self.conjunction_hits@.contains_key(key) { self.conjunction_hits@[key] } else { 0 }
    }

    /// `self` is `old` after `adapt_conjunction(subs, extent)`.
    pub open spec fn adapted_from(&self, old: &FactorGraph, subs: Seq<QueryFilter>, extent: Set<u32>) -> bool {
        if eq_atom_list(subs).len() != subs.len() {
            self.same_state(old)
        } else {
            let key = conj_key(subs);
            &&& self.conjunction_hits@ == old.conjunction_hits@.insert(key, advance(old.hits_of(key), 1))
            &&& if old.materializes(subs) {
                exists|f: Factor| {
                    &&& #[trigger] self.added_from(old, f)
                    &&& exists|m: u64| is_max_key(old.factors@.dom(), m) && f.id == advance(m, 1)
                    &&& f.extent@.to_set() == extent
                    &&& f.extent@.no_duplicates()
                    &&& strings_view(f.intent@) == sort_strs(eq_atom_list(subs))
                    &&& !f.is_structural
                    &&& f.access_count == 0
                    &&& f.created_at@.len() == 0
                    &&& f.last_accessed@.len() == 0
                }
            } else {
                self.same_but_hits(old)
            }
        }
    }

    /// `self` is `old` after every factor `k` was accessed `hits(k)` times at the current tick.
    pub open spec fn accessed_from(&self, old: &FactorGraph, hits: spec_fn(u64) -> nat) -> bool {
        &&& self.same_data(old)
        &&& self.completed_lifecycles@ == old.completed_lifecycles@
        &&& self.boi_view() == old.boi_view()
        &&& self.bpi_view() == old.bpi_view()
        &&& self.factors@.dom() == old.factors@.dom()
        &&& forall|k: u64| #[trigger] old.factors@.contains_key(k) ==> self.factors@[k] == with_accesses(old.factors@[k], hits(k))
        &&& forall|k: u64| #[trigger] self.factor_last_access@.contains_key(k) <==> (old.factor_last_access@.contains_key(k) || hits(k) > 0)
        &&& forall|k: u64| #[trigger] self.factor_last_access@.contains_key(k) ==>
            self.factor_last_access@[k] == (if hits(k) > 0 { self.current_tick } else { old.factor_last_access@[k] })
        &&& self.lifecycles@.dom() == old.lifecycles@.dom()
        &&& forall|k: u64| #[trigger] old.lifecycles@.contains_key(k) ==>
            self.lifecycles@[k] == (if hits(k) > 0 { touched_lifecycle(old.lifecycles@[k], self.current_tick) } else { old.lifecycles@[k] })
    }

    /// `self` is `old` after a query with fallback for `filter` answered `r`:
    /// the answer is that of `eval_fb_spec`, the counters go from `m0` to `m`
    /// as `counted_query` says, the tick advanced by one, every factor of an
    /// equality of the filter was accessed once per occurrence, and a
    /// conjunction that stayed in factor space adapted.
    pub open spec fn fallback_queried(&self, old: &FactorGraph, filter: QueryFilter, r: Set<u32>, m: Metrics, m0: Metrics) -> bool {
        &&& self.wf()
        &&& r == old.eval_fb_spec(filter).0
        &&& counted_query(m, m0, old.eval_fb_spec(filter).1)
        &&& self.current_tick == old.current_tick + 1
        &&& exists|mid: FactorGraph| {
            &&& #[trigger] mid.accessed_from(&old.ticked(), hits_fn(old.bpi_view(), filter))
            &&& mid.wf()
            &&& if !old.eval_fb_spec(filter).1 && filter is And {
                self.adapted_from(&mid, filter->And_0@, r)
            } else {
                self.same_state(&mid)
            }
        }
    }

    /// How many factors applying `delta` to `self` touches: those that take
    /// the object in (insert), that let it go or take it in (update), or that
    /// the object index lists for it (delete).
    pub open spec fn touch_count(&self, delta: Delta) -> nat {
        let o = spec_object_id(delta.operation_details@);
        let pv = spec_properties(delta.operation_details@);
        let before = props_at(self.objects_view(), o);
        match delta.delta_type {
            DeltaType::Insert => self.attach_set(o, pv, prop_atoms(pv)).len(),
            DeltaType::Update => self.detach_set(o, pv, prop_atoms(before).difference(prop_atoms(pv))).len()
                + self.attach_set(o, pv, prop_atoms(pv).difference(prop_atoms(before))).len(),
            DeltaType::Delete => set_at(self.boi_view(), o).intersect(self.factors@.dom()).len(),
        }
    }

    /// A delta touches no more factors than there are.
    pub proof fn lemma_touch_count_bound(&self, delta: Delta)
        ensures
            self.touch_count(delta) <= self.factors@.dom().len(),
    {
        broadcast use vstd::std_specs::hash::axiom_hashmap_view_finite_dom;
        let o = spec_object_id(delta.operation_details@);
        let pv = spec_properties(delta.operation_details@);
        let before = props_at(self.objects_view(), o);
        let dom = self.factors@.dom();
        match delta.delta_type {
            DeltaType::Insert => {
                let g = self.attach_set(o, pv, prop_atoms(pv));
                assert(g.subset_of(dom));
                vstd::set_lib::lemma_len_subset(g, dom);
            },
            DeltaType::Update => {
                let d = self.detach_set(o, pv, prop_atoms(before).difference(prop_atoms(pv)));
                let a = self.attach_set(o, pv, prop_atoms(pv).difference(prop_atoms(before)));
                assert(d.subset_of(dom));
                assert(a.subset_of(dom));
                assert(d.disjoint(a));
                vstd::set_lib::lemma_set_subset_finite(dom, d);
                vstd::set_lib::lemma_set_subset_finite(dom, a);
                vstd::set_lib::lemma_set_disjoint_lens(d, a);
                assert(d.union(a).subset_of(dom));
                vstd::set_lib::lemma_len_subset(d.union(a), dom);
            },
            DeltaType::Delete => {
                let g = set_at(self.boi_view(), o).intersect(dom);
                assert(g.subset_of(dom));
                vstd::set_lib::lemma_len_subset(g, dom);
            },
        }
    }

    /// `self` is `old` after applying `delta`, with the counters going from
    /// `m0` to `m` (see `handle_insert`, `handle_update`, `handle_delete`).
    pub open spec fn delta_applied(&self, old: &FactorGraph, delta: Delta, m: Metrics, m0: Metrics) -> bool {
        let o = spec_object_id(delta.operation_details@);
        let pv = spec_properties(delta.operation_details@);
        &&& self.wf()
        &&& self.objects_view() == match delta.delta_type {
            DeltaType::Insert | DeltaType::Update => old.objects_view().insert(o, pv),
            DeltaType::Delete => old.objects_view().remove(o),
        }
        &&& m.objects_updated == advance(m0.objects_updated, 1)
        &&& m.write_factor_ops == advance(m0.write_factor_ops, old.touch_count(delta))
        &&& m.write_propagation_nodes == advance(m0.write_propagation_nodes, old.touch_count(delta))
        &&& m.total_queries == m0.total_queries
        &&& m.query_factor_ops == m0.query_factor_ops
        &&& m.row_ops == m0.row_ops
        &&& m.join_fallbacks == m0.join_fallbacks
        &&& delta.delta_type == DeltaType::Insert ==> {
            let g = old.attach_set(o, pv, prop_atoms(pv));
            &&& self.attached_from(old, o, g)
            &&& m.write_factor_ops == advance(m0.write_factor_ops, g.len())
            &&& m.write_propagation_nodes == advance(m0.write_propagation_nodes, g.len())
        }
        &&& delta.delta_type == DeltaType::Update ==> {
            let before = props_at(old.objects_view(), o);
            let d = old.detach_set(o, pv, prop_atoms(before).difference(prop_atoms(pv)));
            let a = old.attach_set(o, pv, prop_atoms(pv).difference(prop_atoms(before)));
            &&& exists|mid: FactorGraph| #[trigger] mid.detached_from(old, o, d) && self.attached_from(&mid, o, a)
            &&& m.write_factor_ops == advance(m0.write_factor_ops, d.len() + a.len())
            &&& m.write_propagation_nodes == advance(m0.write_propagation_nodes, d.len() + a.len())
        }
        &&& delta.delta_type == DeltaType::Delete ==> {
            let g = set_at(old.boi_view(), o).intersect(old.factors@.dom());
            &&& self.shrunk_from(old, o, g)
            &&& self.boi_view() == old.boi_view().remove(o)
            &&& m.write_factor_ops == advance(m0.write_factor_ops, g.len())
            &&& m.write_propagation_nodes == advance(m0.write_propagation_nodes, g.len())
        }
    }

    pub fn new() -> (g: Self)
        ensures
            g.wf(),
            g.graph.nodes@ == Map::<crate::types::NodeType, crate::types::GraphNode>::empty(),
            g.boi@ == Map::<u32, HashSet<u64>>::empty(),
            g.bpi@ == Map::<Seq<char>, HashSet<u64>>::empty(),
            g.factors@ == Map::<u64, Factor>::empty(),
            g.objects@ == Map::<u32, PropMap>::empty(),
            g.conjunction_hits@ == Map::<Seq<char>, u64>::empty(),
            g.factor_last_access@ == Map::<u64, u64>::empty(),
            g.current_tick == 0,
            g.materialization_threshold == 3,
            g.lifecycles@ == Map::<u64, FactorLifecycle>::empty(),
            g.completed_lifecycles@ == Seq::<FactorLifecycle>::empty(),
    {
        FactorGraph {
            graph: DependencyGraph::new(),
            boi: HashMap::new(),
            bpi: StrMap::new(),
            factors: HashMap::new(),
            objects: HashMap::new(),
            conjunction_hits: StrMap::new(),
            factor_last_access: HashMap::new(),
            current_tick: 0,
            materialization_threshold: 3,
            lifecycles: HashMap::new(),
            completed_lifecycles: Vec::new(),
        }
    }

    /// Adds a factor: indexes its extent and intent, stamps its access time and
    /// opens its lifecycle record.
    pub fn add_factor(&mut self, factor: Factor)
        requires
            old(self).wf(),
        ensures
            final(self).wf(),
            final(self).same_data(old(self)),
            final(self).factors@ == old(self).factors@.insert(factor.id, factor),
            final(self).boi_view() == index_add(old(self).boi_view(), factor.extent@.to_set(), factor.id),
            final(self).bpi_view() == index_add(old(self).bpi_view(), strings_view(factor.intent@).to_set(), factor.id),
            final(self).factor_last_access@ == old(self).factor_last_access@.insert(factor.id, old(self).current_tick),
            final(self).lifecycles@ == old(self).lifecycles@.insert(factor.id, new_lifecycle(factor, old(self).current_tick)),
            final(self).completed_lifecycles@ == old(self).completed_lifecycles@,
            final(self).added_from(old(self), factor),
    {
        let id = factor.id;
        let n = factor.extent.len();
        let ghost boi0 = self.boi_view();
        let ghost pre = *self;
        proof {
            lemma_index_add_empty(boi0, id);
        }
        for i in 0..n
            invariant
                n == factor.extent@.len(),
                id == factor.id,
                self.wf(),
                self.same_but_indexes(&pre),
                self.bpi_view() == pre.bpi_view(),
                boi0 == pre.boi_view(),
                self.boi_view() == index_add(boi0, factor.extent@.take(i as int).to_set(), id),
        {
            let ghost before = self.boi_view();
            boi_add(&mut self.boi, factor.extent[i], id);
            proof {
                lemma_index_add_more(boi0, factor.extent@.take(i as int).to_set(), factor.extent@[i as int], id);
                crate::index::lemma_take_to_set_step(factor.extent@, i as int);
            }
        }
        proof {
            assert(factor.extent@.take(n as int) =~= factor.extent@);
        }
        let m = factor.intent.len();
        let ghost bpi0 = self.bpi_view();
        proof {
            lemma_index_add_empty(bpi0, id);
            assert(strings_view(factor.intent@).take(0) =~= Seq::<Seq<char>>::empty());
        }
        for i in 0..m
            invariant
                m == factor.intent@.len(),
                id == factor.id,
                self.wf(),
                self.same_but_indexes(&pre),
                bpi0 == pre.bpi_view(),
                self.boi_view() == index_add(pre.boi_view(), factor.extent@.to_set(), id),
                self.bpi_view() == index_add(bpi0, strings_view(factor.intent@).take(i as int).to_set(), id),
        {
            bpi_add(&mut self.bpi, &factor.intent[i], id);
            proof {
                lemma_index_add_more(bpi0, strings_view(factor.intent@).take(i as int).to_set(), factor.intent@[i as int]@, id);
                crate::index::lemma_take_to_set_step(strings_view(factor.intent@), i as int);
            }
        }
        proof {
            assert(strings_view(factor.intent@).take(m as int) =~= strings_view(factor.intent@));
        }
        self.factor_last_access.insert(id, self.current_tick);
        let lc = FactorLifecycle {
            factor_id: id,
            is_structural: factor.is_structural,
            created_at_tick: self.current_tick,
            last_accessed_tick: self.current_tick,
            evicted_at_tick: None,
        };
        self.lifecycles.insert(id, lc);
        self.factors.insert(id, factor);
    }

    /// Removes a factor: drops it from both indexes and the access times, and
    /// moves its lifecycle record to the completed list, stamped with the
    /// current tick.  Does nothing when there is no factor with that id.
    pub fn remove_factor(&mut self, factor_id: u64)
        requires
            old(self).wf(),
        ensures
            final(self).wf(),
            final(self).same_data(old(self)),
            !old(self).factors@.contains_key(factor_id) ==> {
                &&& final(self).factors@ == old(self).factors@
                &&& final(self).boi_view() == old(self).boi_view()
                &&& final(self).bpi_view() == old(self).bpi_view()
                &&& final(self).factor_last_access@ == old(self).factor_last_access@
                &&& final(self).lifecycles@ == old(self).lifecycles@
                &&& final(self).completed_lifecycles@ == old(self).completed_lifecycles@
            },
            old(self).factors@.contains_key(factor_id) ==> {
                let f = old(self).factors@[factor_id];
                &&& final(self).factors@ == old(self).factors@.remove(factor_id)
                &&& final(self).boi_view() == index_remove(old(self).boi_view(), f.extent@.to_set(), factor_id)
                &&& final(self).bpi_view() == index_remove(old(self).bpi_view(), strings_view(f.intent@).to_set(), factor_id)
                &&& final(self).factor_last_access@ == old(self).factor_last_access@.remove(factor_id)
                &&& final(self).lifecycles@ == old(self).lifecycles@.remove(factor_id)
                &&& final(self).completed_lifecycles@ == (if old(self).lifecycles@.contains_key(factor_id) {
                    old(self).completed_lifecycles@.push(FactorLifecycle {
                        evicted_at_tick: Some(old(self).current_tick),
                        ..old(self).lifecycles@[factor_id]
                    })
                } else {
                    old(self).completed_lifecycles@
                })
            },
    {
        match self.factors.remove(&factor_id) {
            Some(factor) => {
                let n = factor.extent.len();
                let ghost boi0 = self.boi_view();
                let ghost pre = *self;
                proof {
                    lemma_index_remove_empty(boi0, factor_id);
                }
                for i in 0..n
                    invariant
                        n == factor.extent@.len(),
                        self.wf(),
                        self.same_but_indexes(&pre),
                        self.bpi_view() == pre.bpi_view(),
                        boi0 == pre.boi_view(),
                        self.boi_view() == index_remove(boi0, factor.extent@.take(i as int).to_set(), factor_id),
                {
                    boi_drop(&mut self.boi, factor.extent[i], factor_id);
                    proof {
                        lemma_index_remove_more(boi0, factor.extent@.take(i as int).to_set(), factor.extent@[i as int], factor_id);
                        crate::index::lemma_take_to_set_step(factor.extent@, i as int);
                    }
                }
                proof {
                    assert(factor.extent@.take(n as int) =~= factor.extent@);
                }
                let m = factor.intent.len();
                let ghost bpi0 = self.bpi_view();
                proof {
                    lemma_index_remove_empty(bpi0, factor_id);
                    assert(strings_view(factor.intent@).take(0) =~= Seq::<Seq<char>>::empty());
                }
                for i in 0..m
                    invariant
                        m == factor.intent@.len(),
                        self.wf(),
                        self.same_but_indexes(&pre),
                        bpi0 == pre.bpi_view(),
                        self.boi_view() == index_remove(pre.boi_view(), factor.extent@.to_set(), factor_id),
                        self.bpi_view() == index_remove(bpi0, strings_view(factor.intent@).take(i as int).to_set(), factor_id),
                {
                    bpi_drop(&mut self.bpi, &factor.intent[i], factor_id);
                    proof {
                        lemma_index_remove_more(bpi0, strings_view(factor.intent@).take(i as int).to_set(), factor.intent@[i as int]@, factor_id);
                        crate::index::lemma_take_to_set_step(strings_view(factor.intent@), i as int);
                    }
                }
                proof {
                    assert(strings_view(factor.intent@).take(m as int) =~= strings_view(factor.intent@));
                }
                self.factor_last_access.remove(&factor_id);
                match self.lifecycles.remove(&factor_id) {
                    Some(lc) => {
                        let done = FactorLifecycle { evicted_at_tick: Some(self.current_tick), ..lc };
                        self.completed_lifecycles.push(done);
                    },
                    None => {},
                }
            },
            None => {},
        }
    }

    /// The ids of the factors whose intent holds `prop`.
    pub fn factors_with_property(&self, prop: &str) -> (r: HashSet<u64>)
        requires
            self.wf(),
        ensures
            r@ == set_at(self.bpi_view(), prop@),
    {
        match self.bpi.get(prop) {
            Some(s) => copy_ids(s),
            None => HashSet::new(),
        }
    }

    /// The ids of the factors whose extent holds `obj_id`.
    pub fn factors_for_object(&self, obj_id: ObjectId) -> (r: HashSet<u64>)
        ensures
            r@ == set_at(self.boi_view(), obj_id),
    {
        match self.boi.get(&obj_id) {
            Some(s) => copy_ids(s),
            None => HashSet::new(),
        }
    }

    /// Records one access to a factor at the current tick.
    pub fn record_factor_access(&mut self, factor_id: u64)
        requires
            old(self).wf(),
        ensures
            final(self).wf(),
            final(self).accessed_from(old(self), |k: u64| if k == factor_id { 1nat } else { 0nat }),
    {
        match self.factors.remove(&factor_id) {
            Some(f) => {
                let f2 = Factor { access_count: f.access_count.wrapping_add(1), ..f };
                self.factors.insert(factor_id, f2);
            },
            None => {},
        }
        self.factor_last_access.insert(factor_id, self.current_tick);
        match self.lifecycles.remove(&factor_id) {
            Some(lc) => {
                let lc2 = FactorLifecycle { last_accessed_tick: self.current_tick, ..lc };
                self.lifecycles.insert(factor_id, lc2);
            },
            None => {},
        }
        proof {
            let hits = |k: u64| if k == factor_id { 1nat } else { 0nat };
            crate::metrics::lemma_advance_zero(0);
            assert forall|k: u64| #[trigger] old(self).factors@.contains_key(k) implies self.factors@[k] == with_accesses(old(self).factors@[k], hits(k)) by {
                crate::metrics::lemma_advance_zero(old(self).factors@[k].access_count);
                crate::metrics::lemma_advance_step(old(self).factors@[k].access_count, 0);
            }
            assert(self.factors@.dom() =~= old(self).factors@.dom());
            assert(self.lifecycles@.dom() =~= old(self).lifecycles@.dom());
        }
    }

    /// The objects in the extents of the factors indexed under `attribute=value`.
    pub fn eq_union(&self, attribute: &String, value: &String) -> (r: HashSet<ObjectId>)
        requires
            self.wf(),
        ensures
            r@ == factor_union(self.factors@, set_at(self.bpi_view(), atom_of(attribute@, value@))),
    {
        let atom = make_atom(attribute.as_str(), value.as_str());
        let mut result: HashSet<u32> = HashSet::new();
        let ghost ids = set_at(self.bpi_view(), atom_of(attribute@, value@));
        match self.bpi.get(atom.as_str()) {
            Some(fids) => {
                let v = ids_to_vec(fids);
                let n = v.len();
                proof {
                    assert(v@.take(0).to_set() =~= Set::<u64>::empty());
                    assert(factor_union(self.factors@, Set::empty()) =~= Set::<u32>::empty());
                }
                for i in 0..n
                    invariant
                        n == v@.len(),
                        result@ == factor_union(self.factors@, v@.take(i as int).to_set()),
                {
                    let ghost before = result@;
                    match self.factors.get(&v[i]) {
                        Some(f) => {
                            extend_objs(&mut result, &f.extent);
                        },
                        None => {},
                    }
                    proof {
                        crate::index::lemma_take_to_set_step(v@, i as int);
                        let ks = v@.take(i as int).to_set();
                        let fid = v@[i as int];
                        assert forall|o: u32| result@.contains(o) <==> factor_union(self.factors@, ks.insert(fid)).contains(o) by {
                            if factor_union(self.factors@, ks.insert(fid)).contains(o) {
                                let g = choose|g: u64| ks.insert(fid).contains(g) && self.factors@.contains_key(g)
                                    && #[trigger] self.factors@[g].extent@.contains(o);
                                if g != fid {
                                    assert(before.contains(o));
                                } else {
                                    assert(self.factors@[fid].extent@.to_set().contains(o));
                                }
                            }
                            if before.contains(o) {
                                let g = choose|g: u64| ks.contains(g) && self.factors@.contains_key(g)
                                    && #[trigger] self.factors@[g].extent@.contains(o);
                                assert(ks.insert(fid).contains(g));
                            }
                            if self.factors@.contains_key(fid) && self.factors@[fid].extent@.to_set().contains(o) {
                                assert(self.factors@[fid].extent@.contains(o));
                            }
                        }
                        assert(result@ =~= factor_union(self.factors@, ks.insert(fid)));
                    }
                }
                proof {
                    assert(v@.take(n as int) =~= v@);
                }
            },
            None => {
                assert(factor_union(self.factors@, ids) =~= Set::<u32>::empty());
            },
        }
        result
    }

    /// Evaluates a filter purely in factor space.
    pub fn eval_filter(&self, filter: &QueryFilter) -> (r: HashSet<ObjectId>)
        requires
            self.wf(),
        ensures
            r@ == self.eval_spec(*filter),
        decreases filter,
    {
        match filter {
            QueryFilter::Eq { attribute, value } => self.eq_union(attribute, value),
            QueryFilter::And(subs) => {
                let n = subs.len();
                if n == 0 {
                    return HashSet::new();
                }
                let mut result = self.eval_filter(&subs[0]);
                proof {
                    assert(subs@.take(1).drop_last() =~= Seq::<QueryFilter>::empty());
                }
                for i in 1..n
                    invariant
                        self.wf(),
                        n == subs@.len(),
                        *filter == QueryFilter::And(*subs),
                        result@ == self.eval_all_spec(subs@.take(i as int)),
                {
                    proof {
                        assert(decreases_to!(*filter => (*filter)->And_0));
                        assert(decreases_to!(*subs => subs@));
                        assert(decreases_to!(subs@ => subs@[i as int]));
                        assert(decreases_to!(*filter => subs@[i as int]));
                    }
                    let r = self.eval_filter(&subs[i]);
                    result = intersect(&result, &r);
                    proof {
                        assert(subs@.take(i + 1).drop_last() =~= subs@.take(i as int));
                    }
                }
                proof {
                    assert(subs@.take(n as int) =~= subs@);
                }
                result
            },
            QueryFilter::Or(subs) => {
                let n = subs.len();
                let mut result: HashSet<u32> = HashSet::new();
                proof {
                    assert(subs@.take(0) =~= Seq::<QueryFilter>::empty());
                }
                for i in 0..n
                    invariant
                        self.wf(),
                        n == subs@.len(),
                        *filter == QueryFilter::Or(*subs),
                        result@ == self.eval_any_spec(subs@.take(i as int)),
                {
                    proof {
                        assert(decreases_to!(*filter => (*filter)->Or_0));
                        assert(decreases_to!(*subs => subs@));
                        assert(decreases_to!(subs@ => subs@[i as int]));
                        assert(decreases_to!(*filter => subs@[i as int]));
                    }
                    let r = self.eval_filter(&subs[i]);
                    union_into(&mut result, &r);
                    proof {
                        assert(subs@.take(i + 1).drop_last() =~= subs@.take(i as int));
                    }
                }
                proof {
                    assert(subs@.take(n as int) =~= subs@);
                }
                result
            },
        }
    }

    /// The stored objects whose property `attribute` equals `value` (a row scan).
    pub fn scan_rows(&self, attribute: &String, value: &String) -> (r: HashSet<ObjectId>)
        requires
            self.wf(),
        ensures
            r@ == rows_with(self.objects_view(), attribute@, value@),
    {
        let ids = keys_u32(&self.objects);
        let n = ids.len();
        let mut result: HashSet<u32> = HashSet::new();
        let ghost ov = self.objects_view();
        for i in 0..n
            invariant
                self.wf(),
                n == ids@.len(),
                ids@.to_set() == self.objects@.dom(),
                ov == self.objects_view(),
                result@ == rows_with(ov, attribute@, value@).intersect(ids@.take(i as int).to_set()),
        {
            let id = ids[i];
            proof {
                assert(ids@.to_set().contains(ids@[i as int]));
                crate::index::lemma_take_to_set_step(ids@, i as int);
            }
            let matched = match self.objects.get(&id) {
                Some(props) => match props.get(attribute.as_str()) {
                    Some(v) => *v == *value,
                    None => false,
                },
                None => false,
            };
            if matched {
                result.insert(id);
            }
            proof {
                assert(result@ =~= rows_with(ov, attribute@, value@).intersect(ids@.take(i + 1).to_set()));
            }
        }
        proof {
            assert(ids@.take(n as int) =~= ids@);
            assert(result@ =~= rows_with(ov, attribute@, value@));
        }
        result
    }

    /// Evaluates a filter, scanning rows for equalities that the property
    /// index does not know; the flag reports whether any scan happened.
    pub fn eval_filter_with_fallback(&self, filter: &QueryFilter) -> (r: (HashSet<ObjectId>, bool))
        requires
            self.wf(),
        ensures
            r.0@ == self.eval_fb_spec(*filter).0,
            r.1 == self.eval_fb_spec(*filter).1,
        decreases filter,
    {
        match filter {
            QueryFilter::Eq { attribute, value } => {
                let atom = make_atom(attribute.as_str(), value.as_str());
                if self.bpi.contains_key(atom.as_str()) {
                    (self.eq_union(attribute, value), false)
                } else {
                    (self.scan_rows(attribute, value), true)
                }
            },
            QueryFilter::And(subs) => {
                let n = subs.len();
                if n == 0 {
                    return (HashSet::new(), false);
                }
                let (mut result, mut used_rows) = self.eval_filter_with_fallback(&subs[0]);
                proof {
                    assert(subs@.take(1).drop_last() =~= Seq::<QueryFilter>::empty());
                }
                for i in 1..n
                    invariant
                        self.wf(),
                        n == subs@.len(),
                        *filter == QueryFilter::And(*subs),
                        result@ == self.fb_all_spec(subs@.take(i as int)).0,
                        used_rows == self.fb_all_spec(subs@.take(i as int)).1,
                {
                    proof {
                        assert(decreases_to!(*filter => (*filter)->And_0));
                        assert(decreases_to!(*subs => subs@));
                        assert(decreases_to!(subs@ => subs@[i as int]));
                    }
                    let (r, used) = self.eval_filter_with_fallback(&subs[i]);
                    result = intersect(&result, &r);
                    used_rows = used_rows || used;
                    proof {
                        assert(subs@.take(i + 1).drop_last() =~= subs@.take(i as int));
                    }
                }
                proof {
                    assert(subs@.take(n as int) =~= subs@);
                }
                (result, used_rows)
            },
            QueryFilter::Or(subs) => {
                let n = subs.len();
                let mut result: HashSet<u32> = HashSet::new();
                let mut used_rows = false;
                proof {
                    assert(subs@.take(0) =~= Seq::<QueryFilter>::empty());
                }
                for i in 0..n
                    invariant
                        self.wf(),
                        n == subs@.len(),
                        *filter == QueryFilter::Or(*subs),
                        result@ == self.fb_any_spec(subs@.take(i as int)).0,
                        used_rows == self.fb_any_spec(subs@.take(i as int)).1,
                {
                    proof {
                        assert(decreases_to!(*filter => (*filter)->Or_0));
                        assert(decreases_to!(*subs => subs@));
                        assert(decreases_to!(subs@ => subs@[i as int]));
                    }
                    let (r, used) = self.eval_filter_with_fallback(&subs[i]);
                    union_into(&mut result, &r);
                    used_rows = used_rows || used;
                    proof {
                        assert(subs@.take(i + 1).drop_last() =~= subs@.take(i as int));
                    }
                }
                proof {
                    assert(subs@.take(n as int) =~= subs@);
                }
                (result, used_rows)
            },
        }
    }

    pub proof fn lemma_accessed_refl(&self)
        ensures
            self.accessed_from(self, |k: u64| 0nat),
    {
        assert forall|k: u64| #[trigger] self.factors@.contains_key(k) implies self.factors@[k] == with_accesses(self.factors@[k], 0) by {
            crate::metrics::lemma_advance_zero(self.factors@[k].access_count);
        }
    }

    pub proof fn lemma_accessed_trans(g0: &FactorGraph, g1: &FactorGraph, g2: &FactorGraph, h1: spec_fn(u64) -> nat, h2: spec_fn(u64) -> nat)
        requires
            g1.accessed_from(g0, h1),
            g2.accessed_from(g1, h2),
        ensures
            g2.accessed_from(g0, |k: u64| h1(k) + h2(k)),
    {
        let h = |k: u64| h1(k) + h2(k);
        assert forall|k: u64| #[trigger] g0.factors@.contains_key(k) implies g2.factors@[k] == with_accesses(g0.factors@[k], h(k)) by {
            lemma_advance_add(g0.factors@[k].access_count, h1(k), h2(k));
        }
        assert forall|k: u64| #[trigger] g0.lifecycles@.contains_key(k) implies
            g2.lifecycles@[k] == (if h(k) > 0 { touched_lifecycle(g0.lifecycles@[k], g2.current_tick) } else { g0.lifecycles@[k] }) by {
        }
    }

    pub proof fn lemma_accessed_ext(g0: &FactorGraph, g1: &FactorGraph, h1: spec_fn(u64) -> nat, h2: spec_fn(u64) -> nat)
        requires
            g1.accessed_from(g0, h1),
            forall|k: u64| #[trigger] h1(k) == h2(k),
        ensures
            g1.accessed_from(g0, h2),
    {
        assert forall|k: u64| #[trigger] g0.factors@.contains_key(k) implies g1.factors@[k] == with_accesses(g0.factors@[k], h2(k)) by {
            assert(h1(k) == h2(k));
        }
        assert forall|k: u64| #[trigger] g1.factor_last_access@.contains_key(k) <==> (g0.factor_last_access@.contains_key(k) || h2(k) > 0) by {
            assert(h1(k) == h2(k));
        }
        assert forall|k: u64| #[trigger] g1.factor_last_access@.contains_key(k) implies
            g1.factor_last_access@[k] == (if h2(k) > 0 { g1.current_tick } else { g0.factor_last_access@[k] }) by {
            assert(h1(k) == h2(k));
        }
        assert forall|k: u64| #[trigger] g0.lifecycles@.contains_key(k) implies
            g1.lifecycles@[k] == (if h2(k) > 0 { touched_lifecycle(g0.lifecycles@[k], g1.current_tick) } else { g0.lifecycles@[k] }) by {
            assert(h1(k) == h2(k));
        }
    }

    /// Records an access to every factor that an equality leaf of the filter
    /// reaches through the property index, once per leaf.
    pub fn record_factor_access_for_filter(&mut self, filter: &QueryFilter)
        requires
            old(self).wf(),
        ensures
            final(self).wf(),
            final(self).accessed_from(old(self), |k: u64| filter_hits(old(self).bpi_view(), *filter, k)),
        decreases filter,
    {
        let ghost g0 = *self;
        let ghost bpi0 = self.bpi_view();
        match filter {
            QueryFilter::Eq { attribute, value } => {
                let atom = make_atom(attribute.as_str(), value.as_str());
                let fids: Vec<u64> = match self.bpi.get(atom.as_str()) {
                    Some(s) => ids_to_vec(s),
                    None => Vec::new(),
                };
                proof {
                    assert(fids@.to_set() =~= set_at(bpi0, atom@));
                    self.lemma_accessed_refl();
                    assert(fids@.take(0).to_set() =~= Set::<u64>::empty());
                    Self::lemma_accessed_ext(&g0, self, |k: u64| 0nat,
                        |k: u64| if fids@.take(0).to_set().contains(k) { 1nat } else { 0nat });
                }
                let n = fids.len();
                for i in 0..n
                    invariant
                        self.wf(),
                        n == fids@.len(),
                        fids@.no_duplicates(),
                        bpi0 == g0.bpi_view(),
                        self.accessed_from(&g0, |k: u64| if fids@.take(i as int).to_set().contains(k) { 1nat } else { 0nat }),
                {
                    let ghost g1 = *self;
                    self.record_factor_access(fids[i]);
                    proof {
                        let h1 = |k: u64| if fids@.take(i as int).to_set().contains(k) { 1nat } else { 0nat };
                        let h2 = |k: u64| if k == fids@[i as int] { 1nat } else { 0nat };
                        Self::lemma_accessed_trans(&g0, &g1, self, h1, h2);
                        crate::index::lemma_take_to_set_step(fids@, i as int);
                        let h = |k: u64| h1(k) + h2(k);
                        let h3 = |k: u64| if fids@.take(i + 1).to_set().contains(k) { 1nat } else { 0nat };
                        assert forall|k: u64| #[trigger] h(k) == h3(k) by {
                            if k == fids@[i as int] {
                                assert(!fids@.take(i as int).to_set().contains(k)) by {
                                    if fids@.take(i as int).to_set().contains(k) {
                                        let j = choose|j: int| 0 <= j < i && #[trigger] fids@.take(i as int)[j] == k;
                                        assert(fids@[j] == fids@[i as int]);
                                    }
                                }
                            }
                        }
                        Self::lemma_accessed_ext(&g0, self, h, h3);
                    }
                }
                proof {
                    assert(fids@.take(n as int) =~= fids@);
                    Self::lemma_accessed_ext(&g0, self, |k: u64| if fids@.take(n as int).to_set().contains(k) { 1nat } else { 0nat },
                        |k: u64| filter_hits(bpi0, *filter, k));
                }
            },
            QueryFilter::And(subs) | QueryFilter::Or(subs) => {
                let n = subs.len();
                proof {
                    self.lemma_accessed_refl();
                    assert(subs@.take(0) =~= Seq::<QueryFilter>::empty());
                    Self::lemma_accessed_ext(&g0, self, |k: u64| 0nat, |k: u64| list_hits(bpi0, subs@.take(0), k));
                }
                for i in 0..n
                    invariant
                        self.wf(),
                        n == subs@.len(),
                        *filter == QueryFilter::And(*subs) || *filter == QueryFilter::Or(*subs),
                        bpi0 == g0.bpi_view(),
                        self.accessed_from(&g0, |k: u64| list_hits(bpi0, subs@.take(i as int), k)),
                {
                    proof {
                        if *filter == QueryFilter::And(*subs) {
                            assert(decreases_to!(*filter => (*filter)->And_0));
                        } else {
                            assert(decreases_to!(*filter => (*filter)->Or_0));
                        }
                        assert(decreases_to!(*subs => subs@));
                        assert(decreases_to!(subs@ => subs@[i as int]));
                    }
                    let ghost g1 = *self;
                    self.record_factor_access_for_filter(&subs[i]);
                    proof {
                        assert(g1.bpi_view() == bpi0);
                        let h1 = |k: u64| list_hits(bpi0, subs@.take(i as int), k);
                        let h2 = |k: u64| filter_hits(bpi0, subs@[i as int], k);
                        Self::lemma_accessed_trans(&g0, &g1, self, h1, h2);
                        assert(subs@.take(i + 1).drop_last() =~= subs@.take(i as int));
                        let h = |k: u64| h1(k) + h2(k);
                        let h3 = |k: u64| list_hits(bpi0, subs@.take(i + 1), k);
                        assert forall|k: u64| #[trigger] h(k) == h3(k) by {
                        }
                        Self::lemma_accessed_ext(&g0, self, h, h3);
                    }
                }
                proof {
                    assert(subs@.take(n as int) =~= subs@);
                    Self::lemma_accessed_ext(&g0, self, |k: u64| list_hits(bpi0, subs@.take(n as int), k),
                        |k: u64| filter_hits(bpi0, *filter, k));
                }
            },
        }
    }

    /// The atoms of the equality sub-filters, in order.
    fn eq_atoms(sub_filters: &Vec<QueryFilter>) -> (atoms: Vec<String>)
        ensures
            strings_view(atoms@) == eq_atom_list(sub_filters@),
    {
        let mut atoms: Vec<String> = Vec::new();
        let n = sub_filters.len();
        proof {
            assert(sub_filters@.take(0) =~= Seq::<QueryFilter>::empty());
            assert(strings_view(atoms@) =~= Seq::<Seq<char>>::empty());
        }
        for i in 0..n
            invariant
                n == sub_filters@.len(),
                strings_view(atoms@) == eq_atom_list(sub_filters@.take(i as int)),
        {
            let ghost before = strings_view(atoms@);
            match &sub_filters[i] {
                QueryFilter::Eq { attribute, value } => {
                    atoms.push(make_atom(attribute.as_str(), value.as_str()));
                },
                _ => {},
            }
            proof {
                assert(sub_filters@.take(i + 1).drop_last() =~= sub_filters@.take(i as int));
                assert(sub_filters@.take(i + 1).last() == sub_filters@[i as int]);
                assert(strings_view(atoms@) =~= eq_atom_list(sub_filters@.take(i + 1)));
            }
        }
        proof {
            assert(sub_filters@.take(n as int) =~= sub_filters@);
        }
        atoms
    }

    /// Whether two lists of strings are equal element by element.
    fn strings_eq(a: &Vec<String>, b: &Vec<String>) -> (r: bool)
        ensures
            r == (strings_view(a@) == strings_view(b@)),
    {
        if a.len() != b.len() {
            assert(strings_view(a@).len() != strings_view(b@).len());
            return false;
        }
        let n = a.len();
        for i in 0..n
            invariant
                n == a@.len(),
                n == b@.len(),
                forall|j: int| 0 <= j < i ==> a@[j]@ == b@[j]@,
        {
            if !(a[i] == b[i]) {
                assert(strings_view(a@)[i as int] != strings_view(b@)[i as int]);
                return false;
            }
        }
        assert(strings_view(a@) =~= strings_view(b@));
        true
    }

    /// Whether some factor's intent, sorted, equals `sorted`.
    fn intent_exists(&self, sorted: &Vec<String>) -> (r: bool)
        ensures
            r == exists|k: u64| #[trigger] self.factors@.contains_key(k)
                && sort_strs(strings_view(self.factors@[k].intent@)) == strings_view(sorted@),
    {
        let ids = keys_u64(&self.factors);
        let n = ids.len();
        for i in 0..n
            invariant
                n == ids@.len(),
                ids@.to_set() == self.factors@.dom(),
                forall|j: int| 0 <= j < i ==> !(sort_strs(strings_view(self.factors@[#[trigger] ids@[j]].intent@)) == strings_view(sorted@)),
        {
            proof {
                assert(ids@.to_set().contains(ids@[i as int]));
            }
            match self.factors.get(&ids[i]) {
                Some(f) => {
                    let si = sort_strings(&f.intent);
                    if Self::strings_eq(&si, sorted) {
                        return true;
                    }
                },
                None => {},
            }
        }
        proof {
            if exists|k: u64| #[trigger] self.factors@.contains_key(k)
                && sort_strs(strings_view(self.factors@[k].intent@)) == strings_view(sorted@) {
                let k = choose|k: u64| #[trigger] self.factors@.contains_key(k)
                    && sort_strs(strings_view(self.factors@[k].intent@)) == strings_view(sorted@);
                assert(ids@.to_set().contains(k));
                let j = choose|j: int| 0 <= j < ids@.len() && ids@[j] == k;
            }
        }
        false
    }

    /// The largest factor id, or 0 when there is no factor.
    fn max_factor_id(&self) -> (m: u64)
        ensures
            is_max_key(self.factors@.dom(), m),
    {
        let ids = keys_u64(&self.factors);
        let n = ids.len();
        let mut m: u64 = 0;
        for i in 0..n
            invariant
                n == ids@.len(),
                ids@.to_set() == self.factors@.dom(),
                forall|j: int| 0 <= j < i ==> #[trigger] ids@[j] <= m,
                i > 0 ==> ids@.take(i as int).contains(m),
                i == 0 ==> m == 0,
        {
            if ids[i] > m {
                m = ids[i];
            }
            proof {
                if i > 0 && m != ids@[i as int] {
                    let j = choose|j: int| 0 <= j < i && ids@.take(i as int)[j] == m;
                    assert(ids@.take(i + 1)[j] == m);
                }
                assert(ids@.take(i + 1)[i as int] == ids@[i as int]);
            }
        }
        proof {
            if n == 0 {
                assert(self.factors@.dom() =~= Set::<u64>::empty());
            } else {
                let j = choose|j: int| 0 <= j < n && ids@.take(n as int)[j] == m;
                assert(ids@[j] == m);
                assert(ids@.to_set().contains(m));
                assert forall|k: u64| #[trigger] self.factors@.dom().contains(k) implies k <= m by {
                    assert(ids@.to_set().contains(k));
                    let j2 = choose|j2: int| 0 <= j2 < ids@.len() && ids@[j2] == k;
                }
            }
        }
        m
    }

    /// Counts a conjunction of equalities and, when its count reaches the
    /// threshold and no factor has the same intent yet, materialises an
    /// operational factor whose extent is the conjunction's current result.
    pub fn adapt_conjunction(&mut self, sub_filters: &Vec<QueryFilter>, current_extent: &HashSet<ObjectId>)
        requires
            old(self).wf(),
        ensures
            final(self).wf(),
            final(self).adapted_from(old(self), sub_filters@, current_extent@),
    {
        let atoms = Self::eq_atoms(sub_filters);
        if atoms.len() != sub_filters.len() {
            return;
        }
        let sorted = sort_strings(&atoms);
        let key = join_strings(&sorted, "&");
        proof {
            reveal_strlit("&");
            assert("&"@ =~= seq!['&']);
        }
        let hits: u64 = match self.conjunction_hits.get(key.as_str()) {
            Some(h) => h.wrapping_add(1),
            None => 1,
        };
        proof {
            crate::metrics::lemma_advance_step(0, 0);
            crate::metrics::lemma_advance_zero(0);
            crate::metrics::lemma_advance_zero(self.hits_of(key@));
            crate::metrics::lemma_advance_step(self.hits_of(key@), 0);
            assert(hits == advance(self.hits_of(key@), 1));
        }
        self.conjunction_hits.insert(key, hits);
        let ghost mid = *self;
        if hits == self.materialization_threshold {
            let already_exists = self.intent_exists(&sorted);
            if !already_exists {
                let m = self.max_factor_id();
                let new_id = m.wrapping_add(1);
                proof {
                    crate::metrics::lemma_advance_zero(m);
                    crate::metrics::lemma_advance_step(m, 0);
                }
                let extent_vec = crate::index::objs_to_vec(current_extent);
                let factor = Factor {
                    id: new_id,
                    extent: extent_vec,
                    intent: sorted,
                    is_structural: false,
                    access_count: 0,
                    created_at: String::new(),
                    last_accessed: String::new(),
                };
                let ghost fv = factor;
                self.add_factor(factor);
                proof {
                    assert(key@ == conj_key(sub_filters@));
                    assert(old(self).materializes(sub_filters@));
                    assert(self.added_from(old(self), fv));
                    assert(exists|mm: u64| is_max_key(old(self).factors@.dom(), mm) && fv.id == advance(mm, 1));
                    assert(self.conjunction_hits@ == old(self).conjunction_hits@.insert(conj_key(sub_filters@), advance(old(self).hits_of(conj_key(sub_filters@)), 1)));
                }
            } else {
                proof {
                    assert(!old(self).materializes(sub_filters@));
                }
            }
        } else {
            proof {
                assert(key@ == conj_key(sub_filters@));
                assert(!old(self).materializes(sub_filters@));
                assert(self.same_but_hits(old(self)));
            }
        }
    }

    /// Query with row-scan fallback for attributes that are not factorised.
    /// Advances the tick, counts the query (and a row operation when a scan was
    /// needed), records the factor accesses, and lets a conjunction answered
    /// entirely in factor space adapt.
    pub fn query_with_fallback(&mut self, filter: &QueryFilter, metrics: &mut Metrics) -> (r: HashSet<ObjectId>)
        requires
            old(self).wf(),
            old(self).current_tick < u64::MAX,
        ensures
            final(self).fallback_queried(old(self), *filter, r@, *final(metrics), *old(metrics)),
    {
        let (result, used_rows) = self.eval_filter_with_fallback(filter);
        self.current_tick = self.current_tick + 1;
        metrics.query_factor_ops = metrics.query_factor_ops.wrapping_add(1);
        metrics.total_queries = metrics.total_queries.wrapping_add(1);
        if used_rows {
            metrics.row_ops = metrics.row_ops.wrapping_add(1);
        }
        proof {
            crate::metrics::lemma_advance_zero(old(metrics).query_factor_ops);
            crate::metrics::lemma_advance_step(old(metrics).query_factor_ops, 0);
            crate::metrics::lemma_advance_zero(old(metrics).total_queries);
            crate::metrics::lemma_advance_step(old(metrics).total_queries, 0);
            crate::metrics::lemma_advance_zero(old(metrics).row_ops);
            crate::metrics::lemma_advance_step(old(metrics).row_ops, 0);
        }
        let ghost t = *self;
        proof {
            assert(t == old(self).ticked());
        }
        self.record_factor_access_for_filter(filter);
        let ghost mid = *self;
        proof {
            assert(mid.accessed_from(&old(self).ticked(), hits_fn(old(self).bpi_view(), *filter)));
        }
        if !used_rows {
            match filter {
                QueryFilter::And(sub_filters) => {
                    self.adapt_conjunction(sub_filters, &result);
                },
                _ => {},
            }
        }
        result
    }

    /// Query purely in factor space.  Advances the tick, counts the query,
    /// records the factor accesses, and lets a conjunction adapt.
    pub fn query(&mut self, filter: &QueryFilter, metrics: &mut Metrics) -> (r: HashSet<ObjectId>)
        requires
            old(self).wf(),
            old(self).current_tick < u64::MAX,
        ensures
            final(self).wf(),
            r@ == old(self).eval_spec(*filter),
            counted_query(*final(metrics), *old(metrics), false),
            final(self).current_tick == old(self).current_tick + 1,
            exists|mid: FactorGraph| {
                &&& #[trigger] mid.accessed_from(&old(self).ticked(), hits_fn(old(self).bpi_view(), *filter))
                &&& mid.wf()
                &&& if filter is And {
                    final(self).adapted_from(&mid, filter->And_0@, r@)
                } else {
                    final(self).same_state(&mid)
                }
            },
    {
        let result = self.eval_filter(filter);
        self.current_tick = self.current_tick + 1;
        metrics.query_factor_ops = metrics.query_factor_ops.wrapping_add(1);
        metrics.total_queries = metrics.total_queries.wrapping_add(1);
        proof {
            crate::metrics::lemma_advance_zero(old(metrics).query_factor_ops);
            crate::metrics::lemma_advance_step(old(metrics).query_factor_ops, 0);
            crate::metrics::lemma_advance_zero(old(metrics).total_queries);
            crate::metrics::lemma_advance_step(old(metrics).total_queries, 0);
        }
        let ghost t = *self;
        proof {
            assert(t == old(self).ticked());
        }
        self.record_factor_access_for_filter(filter);
        let ghost mid = *self;
        proof {
            assert(mid.accessed_from(&old(self).ticked(), hits_fn(old(self).bpi_view(), *filter)));
        }
        match filter {
            QueryFilter::And(sub_filters) => {
                self.adapt_conjunction(sub_filters, &result);
            },
            _ => {},
        }
        result
    }

    /// Factor `fid` takes `o` into its extent when an object with properties
    /// `props` arrives through the atoms `atoms`: it exists, does not hold `o`
    /// yet, its intent is satisfied by `props`, and the property index lists it
    /// under one of the atoms.
    pub open spec fn attaches(&self, fid: u64, o: u32, props: Map<Seq<char>, Seq<char>>, atoms: Set<Seq<char>>) -> bool {
        &&& self.factors@.contains_key(fid)
        &&& !self.factors@[fid].extent@.contains(o)
        &&& satisfies(strings_view(self.factors@[fid].intent@), props)
        &&& exists|a: Seq<char>| atoms.contains(a) && #[trigger] set_at(self.bpi_view(), a).contains(fid)
    }

    /// All factors that `attaches` names.
    pub open spec fn attach_set(&self, o: u32, props: Map<Seq<char>, Seq<char>>, atoms: Set<Seq<char>>) -> Set<u64> {
        Set::new(|fid: u64| self.attaches(fid, o, props, atoms))
    }

    /// `self` is `old` after every factor of `g` took `o` into its extent,
    /// with one recorded access each; the stored objects are left aside.
    pub open spec fn attached_from(&self, old: &FactorGraph, o: u32, g: Set<u64>) -> bool {
        &&& self.conjunction_hits@ == old.conjunction_hits@
        &&& self.current_tick == old.current_tick
        &&& self.materialization_threshold == old.materialization_threshold
        &&& self.graph.nodes@ == old.graph.nodes@
        &&& self.bpi_view() == old.bpi_view()
        &&& self.completed_lifecycles@ == old.completed_lifecycles@
        &&& self.factors@.dom() == old.factors@.dom()
        &&& forall|k: u64| #[trigger] old.factors@.contains_key(k) ==> if g.contains(k) {
            extended(self.factors@[k], old.factors@[k], o)
        } else {
            self.factors@[k] == old.factors@[k]
        }
        &&& self.boi_view() == (if g.is_empty() {
            old.boi_view()
        } else {
            old.boi_view().insert(o, set_at(old.boi_view(), o).union(g))
        })
        &&& forall|k: u64| #[trigger] self.factor_last_access@.contains_key(k) <==> (old.factor_last_access@.contains_key(k) || g.contains(k))
        &&& forall|k: u64| #[trigger] self.factor_last_access@.contains_key(k) ==>
            self.factor_last_access@[k] == (if g.contains(k) { self.current_tick } else { old.factor_last_access@[k] })
        &&& self.lifecycles@.dom() == old.lifecycles@.dom()
        &&& forall|k: u64| #[trigger] old.lifecycles@.contains_key(k) ==>
            self.lifecycles@[k] == (if g.contains(k) { touched_lifecycle(old.lifecycles@[k], self.current_tick) } else { old.lifecycles@[k] })
    }

    proof fn lemma_attached_refl(&self, o: u32)
        ensures
            self.attached_from(self, o, Set::empty()),
    {
    }

    /// Attaches `o` to the factors of `atoms` that accept it, counting each
    /// attachment as a write-path factor operation and a touched node.
    fn attach_object(&mut self, o: u32, props: &PropMap, atoms: &Vec<String>, metrics: &mut Metrics)
        requires
            old(self).wf(),
            props.wf(),
        ensures
            final(self).wf(),
            final(self).objects@ == old(self).objects@,
            final(self).attached_from(old(self), o, old(self).attach_set(o, props_view(*props), strings_view(atoms@).to_set())),
            old(self).attach_set(o, props_view(*props), strings_view(atoms@).to_set()).finite(),
            final(metrics).write_factor_ops == advance(old(metrics).write_factor_ops,
                old(self).attach_set(o, props_view(*props), strings_view(atoms@).to_set()).len()),
            final(metrics).write_propagation_nodes == advance(old(metrics).write_propagation_nodes,
                old(self).attach_set(o, props_view(*props), strings_view(atoms@).to_set()).len()),
            final(metrics).total_queries == old(metrics).total_queries,
            final(metrics).query_factor_ops == old(metrics).query_factor_ops,
            final(metrics).row_ops == old(metrics).row_ops,
            final(metrics).objects_updated == old(metrics).objects_updated,
            final(metrics).join_fallbacks == old(metrics).join_fallbacks,
    {
        let ghost g1 = *self;
        let ghost pv = props_view(*props);
        let ghost av = strings_view(atoms@);
        let ghost m0 = *metrics;
        let ghost mut done: Set<u64> = Set::empty();
        proof {
            self.lemma_attached_refl(o);
            crate::metrics::lemma_advance_zero(metrics.write_factor_ops);
            crate::metrics::lemma_advance_zero(metrics.write_propagation_nodes);
            assert(av.take(0).to_set() =~= Set::<Seq<char>>::empty());
        }
        let n = atoms.len();
        let mut i: usize = 0;
        while i < n
            invariant
                i <= n,
                self.wf(),
                props.wf(),
                pv == props_view(*props),
                av == strings_view(atoms@),
                n == atoms@.len(),
                self.objects@ == g1.objects@,
                g1.wf(),
                self.attached_from(&g1, o, done),
                done.finite(),
                done.subset_of(g1.attach_set(o, pv, av.to_set())),
                forall|k: u64| #[trigger] g1.attaches(k, o, pv, av.take(i as int).to_set()) ==> done.contains(k),
                metrics.write_factor_ops == advance(m0.write_factor_ops, done.len()),
                metrics.write_propagation_nodes == advance(m0.write_propagation_nodes, done.len()),
                metrics.total_queries == m0.total_queries,
                metrics.query_factor_ops == m0.query_factor_ops,
                metrics.row_ops == m0.row_ops,
                metrics.objects_updated == m0.objects_updated,
                metrics.join_fallbacks == m0.join_fallbacks,
            decreases n - i,
        {
            let ghost a = av[i as int];
            let fids: Vec<u64> = match self.bpi.get(atoms[i].as_str()) {
                Some(ids) => ids_to_vec(ids),
                None => Vec::new(),
            };
            proof {
                assert(fids@.to_set() =~= set_at(g1.bpi_view(), a));
                crate::index::lemma_take_to_set_step(av, i as int);
            }
            let nf = fids.len();
            let mut j: usize = 0;
            while j < nf
                invariant
                    j <= nf,
                    self.wf(),
                    props.wf(),
                    pv == props_view(*props),
                    av == strings_view(atoms@),
                    i < n,
                    n == atoms@.len(),
                    a == av[i as int],
                    nf == fids@.len(),
                    fids@.to_set() == set_at(g1.bpi_view(), a),
                    self.objects@ == g1.objects@,
                    g1.wf(),
                    self.attached_from(&g1, o, done),
                    done.finite(),
                    done.subset_of(g1.attach_set(o, pv, av.to_set())),
                    forall|k: u64| #[trigger] g1.attaches(k, o, pv, av.take(i as int).to_set()) ==> done.contains(k),
                    forall|jj: int| 0 <= jj < j && g1.attaches(fids@[jj], o, pv, set![a]) ==> done.contains(#[trigger] fids@[jj]),
                    metrics.write_factor_ops == advance(m0.write_factor_ops, done.len()),
                    metrics.write_propagation_nodes == advance(m0.write_propagation_nodes, done.len()),
                    metrics.total_queries == m0.total_queries,
                    metrics.query_factor_ops == m0.query_factor_ops,
                    metrics.row_ops == m0.row_ops,
                    metrics.objects_updated == m0.objects_updated,
                    metrics.join_fallbacks == m0.join_fallbacks,
                decreases nf - j,
            {
                let fid = fids[j];
                proof {
                    assert(fids@.to_set().contains(fid));
                    assert(set_at(g1.bpi_view(), a).contains(fid));
                }
                let attach = match self.factors.get(&fid) {
                    Some(f) => !vec_contains(&f.extent, o) && factor_is_satisfied_by(f, props),
                    None => false,
                };
                proof {
                    if done.contains(fid) {
                        assert(g1.attaches(fid, o, pv, av.to_set()));
                        assert(self.factors@[fid].extent@ == g1.factors@[fid].extent@.push(o));
                        assert(self.factors@[fid].extent@[g1.factors@[fid].extent@.len() as int] == o);
                        assert(!attach);
                    } else if g1.factors@.contains_key(fid) {
                        assert(self.factors@[fid] == g1.factors@[fid]);
                        assert(av.to_set().contains(a));
                        assert(attach == g1.attaches(fid, o, pv, set![a]));
                        if attach {
                            assert(g1.attaches(fid, o, pv, av.to_set()));
                        }
                    } else {
                        assert(!attach);
                        assert(!g1.attaches(fid, o, pv, set![a]));
                    }
                }
                if attach {
                    let ghost before = *self;
                    match self.factors.remove(&fid) {
                        Some(mut f) => {
                            f.extent.push(o);
                            self.factors.insert(fid, f);
                        },
                        None => {},
                    }
                    boi_add(&mut self.boi, o, fid);
                    metrics.write_factor_ops = metrics.write_factor_ops.wrapping_add(1);
                    metrics.write_propagation_nodes = metrics.write_propagation_nodes.wrapping_add(1);
                    let ghost before_access = *self;
                    self.record_factor_access(fid);
                    proof {
                        crate::metrics::lemma_advance_step(m0.write_factor_ops, done.len());
                        crate::metrics::lemma_advance_step(m0.write_propagation_nodes, done.len());
                        let nd = done.insert(fid);
                        assert(nd.len() == done.len() + 1);
                        assert(self.boi_view() =~= g1.boi_view().insert(o, set_at(g1.boi_view(), o).union(nd))) by {
                            if done.is_empty() {
                                assert(set_at(g1.boi_view(), o).union(nd) =~= set_at(g1.boi_view(), o).insert(fid));
                            } else {
                                assert(set_at(g1.boi_view(), o).union(done).insert(fid) =~= set_at(g1.boi_view(), o).union(nd));
                            }
                        }
                        assert forall|k: u64| #[trigger] g1.factors@.contains_key(k) implies (if nd.contains(k) {
                            extended(self.factors@[k], g1.factors@[k], o)
                        } else {
                            self.factors@[k] == g1.factors@[k]
                        }) by {
                            if k == fid {
                                crate::metrics::lemma_advance_zero(g1.factors@[k].access_count);
                                crate::metrics::lemma_advance_step(g1.factors@[k].access_count, 0);
                            }
                        }
                        assert forall|k: u64| #[trigger] self.factor_last_access@.contains_key(k) <==> (g1.factor_last_access@.contains_key(k) || nd.contains(k)) by {}
                        assert forall|k: u64| #[trigger] g1.lifecycles@.contains_key(k) implies
                            self.lifecycles@[k] == (if nd.contains(k) { touched_lifecycle(g1.lifecycles@[k], self.current_tick) } else { g1.lifecycles@[k] }) by {}
                        assert(self.factors@.dom() =~= g1.factors@.dom());
                        assert(!nd.is_empty());
                        done = nd;
                    }
                }
                j = j + 1;
            }
            proof {
                assert forall|k: u64| #[trigger] g1.attaches(k, o, pv, av.take(i + 1).to_set()) implies done.contains(k) by {
                    let b = choose|b: Seq<char>| av.take(i + 1).to_set().contains(b) && #[trigger] set_at(g1.bpi_view(), b).contains(k);
                    if b == a {
                        assert(fids@.to_set().contains(k));
                        let jj = choose|jj: int| 0 <= jj < fids@.len() && fids@[jj] == k;
                        assert(g1.attaches(fids@[jj], o, pv, set![a]));
                    } else {
                        assert(av.take(i as int).to_set().contains(b));
                        assert(g1.attaches(k, o, pv, av.take(i as int).to_set()));
                    }
                }
            }
            i = i + 1;
        }
        proof {
            assert(av.take(n as int) =~= av);
            assert(done =~= g1.attach_set(o, pv, av.to_set())) by {
                assert forall|k: u64| g1.attach_set(o, pv, av.to_set()).contains(k) implies done.contains(k) by {
                    assert(g1.attaches(k, o, pv, av.take(n as int).to_set()));
                }
            }
        }
    }

    /// Inserts the delta's object, then attaches it to every factor that one
    /// of its atoms reaches and whose intent it satisfies.
    pub fn handle_insert(&mut self, delta: &Delta, metrics: &mut Metrics)
        requires
            old(self).wf(),
            delta.operation_details.wf(),
        ensures
            final(self).wf(),
            ({
                let o = spec_object_id(delta.operation_details@);
                let pv = spec_properties(delta.operation_details@);
                let g = old(self).attach_set(o, pv, prop_atoms(pv));
                &&& final(self).objects_view() == old(self).objects_view().insert(o, pv)
                &&& final(self).attached_from(old(self), o, g)
                &&& g.finite()
                &&& final(metrics).write_factor_ops == advance(old(metrics).write_factor_ops, g.len())
                &&& final(metrics).write_propagation_nodes == advance(old(metrics).write_propagation_nodes, g.len())
                &&& final(metrics).objects_updated == advance(old(metrics).objects_updated, 1)
                &&& final(metrics).total_queries == old(metrics).total_queries
                &&& final(metrics).query_factor_ops == old(metrics).query_factor_ops
                &&& final(metrics).row_ops == old(metrics).row_ops
                &&& final(metrics).join_fallbacks == old(metrics).join_fallbacks
            }),
    {
        let obj_id = delta.get_object_id();
        let props = delta.get_properties();
        let copy = clone_props(&props);
        let ghost g0 = *self;
        self.objects.insert(obj_id, copy);
        let ghost g1 = *self;
        proof {
            assert(self.objects_view() =~= g0.objects_view().insert(obj_id, props_view(props)));
            assert(g1.bpi_view() == g0.bpi_view());
            assert(g1.factors@ == g0.factors@);
            assert(g1.attach_set(obj_id, props_view(props), prop_atoms(props_view(props)))
                =~= g0.attach_set(obj_id, props_view(props), prop_atoms(props_view(props))));
        }
        let atoms = prop_atom_list(&props);
        self.attach_object(obj_id, &props, &atoms, metrics);
        metrics.objects_updated = metrics.objects_updated.wrapping_add(1);
        proof {
            crate::metrics::lemma_advance_zero(old(metrics).objects_updated);
            crate::metrics::lemma_advance_step(old(metrics).objects_updated, 0);
        }
    }


    /// Factor `fid` lets go of `o` when the object's properties become `props`
    /// and lose the atoms `atoms`: it exists, holds `o`, its intent is no
    /// longer satisfied, and the property index lists it under one of the atoms.
    pub open spec fn detaches(&self, fid: u64, o: u32, props: Map<Seq<char>, Seq<char>>, atoms: Set<Seq<char>>) -> bool {
        &&& self.factors@.contains_key(fid)
        &&& self.factors@[fid].extent@.contains(o)
        &&& !satisfies(strings_view(self.factors@[fid].intent@), props)
        &&& exists|a: Seq<char>| atoms.contains(a) && #[trigger] set_at(self.bpi_view(), a).contains(fid)
    }

    /// All factors that `detaches` names.
    pub open spec fn detach_set(&self, o: u32, props: Map<Seq<char>, Seq<char>>, atoms: Set<Seq<char>>) -> Set<u64> {
        Set::new(|fid: u64| self.detaches(fid, o, props, atoms))
    }

    /// `self` is `old` after every factor of `g` let go of `o`, with one
    /// recorded access each; the index by object and the stored objects are
    /// left aside.
    pub open spec fn shrunk_from(&self, old: &FactorGraph, o: u32, g: Set<u64>) -> bool {
        &&& self.conjunction_hits@ == old.conjunction_hits@
        &&& self.current_tick == old.current_tick
        &&& self.materialization_threshold == old.materialization_threshold
        &&& self.graph.nodes@ == old.graph.nodes@
        &&& self.bpi_view() == old.bpi_view()
        &&& self.completed_lifecycles@ == old.completed_lifecycles@
        &&& self.factors@.dom() == old.factors@.dom()
        &&& forall|k: u64| #[trigger] old.factors@.contains_key(k) ==> if g.contains(k) {
            shrunk(self.factors@[k], old.factors@[k], o)
        } else {
            self.factors@[k] == old.factors@[k]
        }
        &&& forall|k: u64| #[trigger] self.factor_last_access@.contains_key(k) <==> (old.factor_last_access@.contains_key(k) || g.contains(k))
        &&& forall|k: u64| #[trigger] self.factor_last_access@.contains_key(k) ==>
            self.factor_last_access@[k] == (if g.contains(k) { self.current_tick } else { old.factor_last_access@[k] })
        &&& self.lifecycles@.dom() == old.lifecycles@.dom()
        &&& forall|k: u64| #[trigger] old.lifecycles@.contains_key(k) ==>
            self.lifecycles@[k] == (if g.contains(k) { touched_lifecycle(old.lifecycles@[k], self.current_tick) } else { old.lifecycles@[k] })
    }

    /// `shrunk_from`, with the factors of `g` also dropped from the ids kept under `o`.
    pub open spec fn detached_from(&self, old: &FactorGraph, o: u32, g: Set<u64>) -> bool {
        &&& self.shrunk_from(old, o, g)
        &&& self.boi_view() == (if old.boi_view().contains_key(o) {
            old.boi_view().insert(o, old.boi_view()[o].difference(g))
        } else {
            old.boi_view()
        })
    }

    proof fn lemma_detached_refl(&self, o: u32)
        ensures
            self.detached_from(self, o, Set::empty()),
    {
        if self.boi_view().contains_key(o) {
            assert(self.boi_view()[o].difference(Set::empty()) =~= self.boi_view()[o]);
            assert(self.boi_view().insert(o, self.boi_view()[o].difference(Set::empty())) =~= self.boi_view());
        }
    }

    /// Letting factors go of `o` does not change which factors take it in
    /// under the same properties.
    proof fn lemma_attach_after_detach(&self, old: &FactorGraph, o: u32, props: Map<Seq<char>, Seq<char>>, gone: Set<Seq<char>>, came: Set<Seq<char>>)
        requires
            self.detached_from(old, o, old.detach_set(o, props, gone)),
        ensures
            self.attach_set(o, props, came) == old.attach_set(o, props, came),
    {
        assert forall|fid: u64| #[trigger] self.attach_set(o, props, came).contains(fid) == old.attach_set(o, props, came).contains(fid) by {
            if old.factors@.contains_key(fid) && old.detach_set(o, props, gone).contains(fid) {
                assert(!satisfies(strings_view(old.factors@[fid].intent@), props));
                assert(self.factors@[fid].intent == old.factors@[fid].intent);
            }
        }
        assert(self.attach_set(o, props, came) =~= old.attach_set(o, props, came));
    }

    /// Lets go of `o` in the factors of `atoms` whose intent `props` no
    /// longer satisfies, counting each as a write-path factor operation and a
    /// touched node.
    fn detach_object(&mut self, o: u32, props: &PropMap, atoms: &Vec<String>, metrics: &mut Metrics)
        requires
            old(self).wf(),
            props.wf(),
        ensures
            final(self).wf(),
            final(self).objects@ == old(self).objects@,
            final(self).detached_from(old(self), o, old(self).detach_set(o, props_view(*props), strings_view(atoms@).to_set())),
            old(self).detach_set(o, props_view(*props), strings_view(atoms@).to_set()).finite(),
            final(metrics).write_factor_ops == advance(old(metrics).write_factor_ops,
                old(self).detach_set(o, props_view(*props), strings_view(atoms@).to_set()).len()),
            final(metrics).write_propagation_nodes == advance(old(metrics).write_propagation_nodes,
                old(self).detach_set(o, props_view(*props), strings_view(atoms@).to_set()).len()),
            final(metrics).total_queries == old(metrics).total_queries,
            final(metrics).query_factor_ops == old(metrics).query_factor_ops,
            final(metrics).row_ops == old(metrics).row_ops,
            final(metrics).objects_updated == old(metrics).objects_updated,
            final(metrics).join_fallbacks == old(metrics).join_fallbacks,
    {
        broadcast use vstd::seq_lib::group_filter_ensures;
        let ghost g1 = *self;
        let ghost pv = props_view(*props);
        let ghost av = strings_view(atoms@);
        let ghost m0 = *metrics;
        let ghost mut done: Set<u64> = Set::empty();
        proof {
            self.lemma_detached_refl(o);
            crate::metrics::lemma_advance_zero(metrics.write_factor_ops);
            crate::metrics::lemma_advance_zero(metrics.write_propagation_nodes);
            assert(av.take(0).to_set() =~= Set::<Seq<char>>::empty());
        }
        let n = atoms.len();
        let mut i: usize = 0;
        while i < n
            invariant
                i <= n,
                self.wf(),
                props.wf(),
                pv == props_view(*props),
                av == strings_view(atoms@),
                n == atoms@.len(),
                self.objects@ == g1.objects@,
                g1.wf(),
                self.detached_from(&g1, o, done),
                done.finite(),
                done.subset_of(g1.detach_set(o, pv, av.to_set())),
                forall|k: u64| #[trigger] g1.detaches(k, o, pv, av.take(i as int).to_set()) ==> done.contains(k),
                metrics.write_factor_ops == advance(m0.write_factor_ops, done.len()),
                metrics.write_propagation_nodes == advance(m0.write_propagation_nodes, done.len()),
                metrics.total_queries == m0.total_queries,
                metrics.query_factor_ops == m0.query_factor_ops,
                metrics.row_ops == m0.row_ops,
                metrics.objects_updated == m0.objects_updated,
                metrics.join_fallbacks == m0.join_fallbacks,
            decreases n - i,
        {
            let ghost a = av[i as int];
            let fids: Vec<u64> = match self.bpi.get(atoms[i].as_str()) {
                Some(ids) => ids_to_vec(ids),
                None => Vec::new(),
            };
            proof {
                assert(fids@.to_set() =~= set_at(g1.bpi_view(), a));
                crate::index::lemma_take_to_set_step(av, i as int);
            }
            let nf = fids.len();
            let mut j: usize = 0;
            while j < nf
                invariant
                    j <= nf,
                    self.wf(),
                    props.wf(),
                    pv == props_view(*props),
                    av == strings_view(atoms@),
                    i < n,
                    n == atoms@.len(),
                    a == av[i as int],
                    nf == fids@.len(),
                    fids@.to_set() == set_at(g1.bpi_view(), a),
                    self.objects@ == g1.objects@,
                    g1.wf(),
                    self.detached_from(&g1, o, done),
                    done.finite(),
                    done.subset_of(g1.detach_set(o, pv, av.to_set())),
                    forall|k: u64| #[trigger] g1.detaches(k, o, pv, av.take(i as int).to_set()) ==> done.contains(k),
                    forall|jj: int| 0 <= jj < j && g1.detaches(fids@[jj], o, pv, set![a]) ==> done.contains(#[trigger] fids@[jj]),
                    metrics.write_factor_ops == advance(m0.write_factor_ops, done.len()),
                    metrics.write_propagation_nodes == advance(m0.write_propagation_nodes, done.len()),
                    metrics.total_queries == m0.total_queries,
                    metrics.query_factor_ops == m0.query_factor_ops,
                    metrics.row_ops == m0.row_ops,
                    metrics.objects_updated == m0.objects_updated,
                    metrics.join_fallbacks == m0.join_fallbacks,
                decreases nf - j,
            {
                let fid = fids[j];
                proof {
                    assert(fids@.to_set().contains(fid));
                    assert(set_at(g1.bpi_view(), a).contains(fid));
                }
                let detach = match self.factors.get(&fid) {
                    Some(f) => vec_contains(&f.extent, o) && !factor_is_satisfied_by(f, props),
                    None => false,
                };
                proof {
                    if done.contains(fid) {
                        assert(g1.detaches(fid, o, pv, av.to_set()));
                        let ext = without(g1.factors@[fid].extent@, o);
                        assert(self.factors@[fid].extent@ == ext);
                        if ext.contains(o) {
                            let q = choose|q: int| 0 <= q < ext.len() && ext[q] == o;
                            assert((|y: u32| y != o)(ext[q]));
                        }
                        assert(!detach);
                    } else if g1.factors@.contains_key(fid) {
                        assert(self.factors@[fid] == g1.factors@[fid]);
                        assert(av.to_set().contains(a));
                        assert(detach == g1.detaches(fid, o, pv, set![a]));
                        if detach {
                            assert(g1.detaches(fid, o, pv, av.to_set()));
                        }
                    } else {
                        assert(!detach);
                        assert(!g1.detaches(fid, o, pv, set![a]));
                    }
                }
                if detach {
                    match self.factors.remove(&fid) {
                        Some(mut f) => {
                            remove_all(&mut f.extent, o);
                            self.factors.insert(fid, f);
                        },
                        None => {},
                    }
                    boi_drop(&mut self.boi, o, fid);
                    metrics.write_factor_ops = metrics.write_factor_ops.wrapping_add(1);
                    metrics.write_propagation_nodes = metrics.write_propagation_nodes.wrapping_add(1);
                    self.record_factor_access(fid);
                    proof {
                        crate::metrics::lemma_advance_step(m0.write_factor_ops, done.len());
                        crate::metrics::lemma_advance_step(m0.write_propagation_nodes, done.len());
                        let nd = done.insert(fid);
                        assert(nd.len() == done.len() + 1);
                        if g1.boi_view().contains_key(o) {
                            assert(g1.boi_view()[o].difference(done).remove(fid) =~= g1.boi_view()[o].difference(nd));
                            assert(self.boi_view() =~= g1.boi_view().insert(o, g1.boi_view()[o].difference(nd)));
                        } else {
                            assert(self.boi_view() =~= g1.boi_view());
                        }
                        assert forall|k: u64| #[trigger] g1.factors@.contains_key(k) implies (if nd.contains(k) {
                            shrunk(self.factors@[k], g1.factors@[k], o)
                        } else {
                            self.factors@[k] == g1.factors@[k]
                        }) by {
                            if k == fid {
                                crate::metrics::lemma_advance_zero(g1.factors@[k].access_count);
                                crate::metrics::lemma_advance_step(g1.factors@[k].access_count, 0);
                            }
                        }
                        assert forall|k: u64| #[trigger] self.factor_last_access@.contains_key(k) <==> (g1.factor_last_access@.contains_key(k) || nd.contains(k)) by {}
                        assert forall|k: u64| #[trigger] g1.lifecycles@.contains_key(k) implies
                            self.lifecycles@[k] == (if nd.contains(k) { touched_lifecycle(g1.lifecycles@[k], self.current_tick) } else { g1.lifecycles@[k] }) by {}
                        assert(self.factors@.dom() =~= g1.factors@.dom());
                        done = nd;
                    }
                }
                j = j + 1;
            }
            proof {
                assert forall|k: u64| #[trigger] g1.detaches(k, o, pv, av.take(i + 1).to_set()) implies done.contains(k) by {
                    let b = choose|b: Seq<char>| av.take(i + 1).to_set().contains(b) && #[trigger] set_at(g1.bpi_view(), b).contains(k);
                    if b == a {
                        assert(fids@.to_set().contains(k));
                        let jj = choose|jj: int| 0 <= jj < fids@.len() && fids@[jj] == k;
                        assert(g1.detaches(fids@[jj], o, pv, set![a]));
                    } else {
                        assert(av.take(i as int).to_set().contains(b));
                        assert(g1.detaches(k, o, pv, av.take(i as int).to_set()));
                    }
                }
            }
            i = i + 1;
        }
        proof {
            assert(av.take(n as int) =~= av);
            assert(done =~= g1.detach_set(o, pv, av.to_set())) by {
                assert forall|k: u64| g1.detach_set(o, pv, av.to_set()).contains(k) implies done.contains(k) by {
                    assert(g1.detaches(k, o, pv, av.take(n as int).to_set()));
                }
            }
        }
    }

    /// Replaces the delta's object by its new properties: the factors reached
    /// through the atoms it lost and no longer satisfied let go of it, then
    /// the factors reached through the atoms it gained and now satisfied take
    /// it in.
    pub fn handle_update(&mut self, delta: &Delta, metrics: &mut Metrics)
        requires
            old(self).wf(),
            delta.operation_details.wf(),
        ensures
            final(self).wf(),
            ({
                let o = spec_object_id(delta.operation_details@);
                let pv = spec_properties(delta.operation_details@);
                let before = props_at(old(self).objects_view(), o);
                let gone = prop_atoms(before).difference(prop_atoms(pv));
                let came = prop_atoms(pv).difference(prop_atoms(before));
                let d = old(self).detach_set(o, pv, gone);
                let a = old(self).attach_set(o, pv, came);
                &&& d.finite()
                &&& a.finite()
                &&& final(self).objects_view() == old(self).objects_view().insert(o, pv)
                &&& exists|mid: FactorGraph| #[trigger] mid.detached_from(old(self), o, d) && final(self).attached_from(&mid, o, a)
                &&& final(metrics).write_factor_ops == advance(old(metrics).write_factor_ops, d.len() + a.len())
                &&& final(metrics).write_propagation_nodes == advance(old(metrics).write_propagation_nodes, d.len() + a.len())
                &&& final(metrics).objects_updated == advance(old(metrics).objects_updated, 1)
                &&& final(metrics).total_queries == old(metrics).total_queries
                &&& final(metrics).query_factor_ops == old(metrics).query_factor_ops
                &&& final(metrics).row_ops == old(metrics).row_ops
                &&& final(metrics).join_fallbacks == old(metrics).join_fallbacks
            }),
    {
        let obj_id = delta.get_object_id();
        let new_props = delta.get_properties();
        let old_props: PropMap = match self.objects.get(&obj_id) {
            Some(p) => clone_props(p),
            None => StrMap::new(),
        };
        let ghost pv = props_view(new_props);
        let ghost before = props_at(self.objects_view(), obj_id);
        proof {
            assert(props_view(old_props) =~= before);
        }
        let old_atoms = prop_atom_list(&old_props);
        let new_atoms = prop_atom_list(&new_props);
        let added = strings_minus(&new_atoms, &old_atoms);
        let removed = strings_minus(&old_atoms, &new_atoms);
        let ghost g0 = *self;
        let ghost m0 = *metrics;
        self.detach_object(obj_id, &new_props, &removed, metrics);
        let ghost mid = *self;
        let ghost m1 = *metrics;
        proof {
            let gone = prop_atoms(before).difference(prop_atoms(pv));
            let came = prop_atoms(pv).difference(prop_atoms(before));
            assert(strings_view(removed@).to_set() == gone);
            assert(strings_view(added@).to_set() == came);
            mid.lemma_attach_after_detach(&g0, obj_id, pv, gone, came);
        }
        self.attach_object(obj_id, &new_props, &added, metrics);
        self.objects.insert(obj_id, new_props);
        metrics.objects_updated = metrics.objects_updated.wrapping_add(1);
        proof {
            let gone = prop_atoms(before).difference(prop_atoms(pv));
            let came = prop_atoms(pv).difference(prop_atoms(before));
            let d = g0.detach_set(obj_id, pv, gone);
            let a = g0.attach_set(obj_id, pv, came);
            crate::metrics::lemma_advance_zero(m0.objects_updated);
            crate::metrics::lemma_advance_step(m0.objects_updated, 0);
            lemma_advance_add(m0.write_factor_ops, d.len(), a.len());
            lemma_advance_add(m0.write_propagation_nodes, d.len(), a.len());
            assert(self.objects_view() =~= g0.objects_view().insert(obj_id, pv));
            assert(mid.detached_from(&g0, obj_id, d));
            assert(self.attached_from(&mid, obj_id, a));
        }
    }

    /// Removes the delta's object: every factor the object index lists for it
    /// lets go of it, then its index entry and its stored properties go.
    pub fn handle_delete(&mut self, delta: &Delta, metrics: &mut Metrics)
        requires
            old(self).wf(),
            delta.operation_details.wf(),
        ensures
            final(self).wf(),
            ({
                let o = spec_object_id(delta.operation_details@);
                let g = set_at(old(self).boi_view(), o).intersect(old(self).factors@.dom());
                &&& g.finite()
                &&& final(self).shrunk_from(old(self), o, g)
                &&& final(self).boi_view() == old(self).boi_view().remove(o)
                &&& final(self).objects_view() == old(self).objects_view().remove(o)
                &&& final(metrics).write_factor_ops == advance(old(metrics).write_factor_ops, g.len())
                &&& final(metrics).write_propagation_nodes == advance(old(metrics).write_propagation_nodes, g.len())
                &&& final(metrics).objects_updated == advance(old(metrics).objects_updated, 1)
                &&& final(metrics).total_queries == old(metrics).total_queries
                &&& final(metrics).query_factor_ops == old(metrics).query_factor_ops
                &&& final(metrics).row_ops == old(metrics).row_ops
                &&& final(metrics).join_fallbacks == old(metrics).join_fallbacks
            }),
    {
        let o = delta.get_object_id();
        let fids: Vec<u64> = match self.boi.get(&o) {
            Some(ids) => ids_to_vec(ids),
            None => Vec::new(),
        };
        let ghost g1 = *self;
        let ghost m0 = *metrics;
        let ghost mut done: Set<u64> = Set::empty();
        proof {
            assert(fids@.to_set() =~= set_at(g1.boi_view(), o));
            assert(fids@.take(0).to_set() =~= Set::<u64>::empty());
            crate::metrics::lemma_advance_zero(metrics.write_factor_ops);
            crate::metrics::lemma_advance_zero(metrics.write_propagation_nodes);
            assert(self.shrunk_from(&g1, o, done));
        }
        let n = fids.len();
        for i in 0..n
            invariant
                n == fids@.len(),
                fids@.no_duplicates(),
                fids@.to_set() == set_at(g1.boi_view(), o),
                self.wf(),
                g1.wf(),
                self.objects@ == g1.objects@,
                self.boi_view() == g1.boi_view(),
                self.shrunk_from(&g1, o, done),
                done == fids@.take(i as int).to_set().intersect(g1.factors@.dom()),
                done.finite(),
                metrics.write_factor_ops == advance(m0.write_factor_ops, done.len()),
                metrics.write_propagation_nodes == advance(m0.write_propagation_nodes, done.len()),
                metrics.total_queries == m0.total_queries,
                metrics.query_factor_ops == m0.query_factor_ops,
                metrics.row_ops == m0.row_ops,
                metrics.objects_updated == m0.objects_updated,
                metrics.join_fallbacks == m0.join_fallbacks,
        {
            let fid = fids[i];
            let ghost pre_i = *self;
            proof {
                crate::index::lemma_take_to_set_step(fids@, i as int);
                if done.contains(fid) {
                    let q = choose|q: int| 0 <= q < i && #[trigger] fids@.take(i as int)[q] == fid;
                    assert(fids@[q] == fids@[i as int]);
                }
            }
            match self.factors.remove(&fid) {
                Some(mut f) => {
                    remove_all(&mut f.extent, o);
                    self.factors.insert(fid, f);
                    metrics.write_factor_ops = metrics.write_factor_ops.wrapping_add(1);
                    metrics.write_propagation_nodes = metrics.write_propagation_nodes.wrapping_add(1);
                    self.record_factor_access(fid);
                    proof {
                        crate::metrics::lemma_advance_step(m0.write_factor_ops, done.len());
                        crate::metrics::lemma_advance_step(m0.write_propagation_nodes, done.len());
                        let nd = done.insert(fid);
                        assert(nd.len() == done.len() + 1);
                        assert forall|k: u64| #[trigger] g1.factors@.contains_key(k) implies (if nd.contains(k) {
                            shrunk(self.factors@[k], g1.factors@[k], o)
                        } else {
                            self.factors@[k] == g1.factors@[k]
                        }) by {
                            if k == fid {
                                crate::metrics::lemma_advance_zero(g1.factors@[k].access_count);
                                crate::metrics::lemma_advance_step(g1.factors@[k].access_count, 0);
                            }
                        }
                        assert forall|k: u64| #[trigger] self.factor_last_access@.contains_key(k) <==> (g1.factor_last_access@.contains_key(k) || nd.contains(k)) by {}
                        assert forall|k: u64| #[trigger] g1.lifecycles@.contains_key(k) implies
                            self.lifecycles@[k] == (if nd.contains(k) { touched_lifecycle(g1.lifecycles@[k], self.current_tick) } else { g1.lifecycles@[k] }) by {}
                        assert(self.factors@.dom() =~= g1.factors@.dom());
                        assert(nd =~= fids@.take(i + 1).to_set().intersect(g1.factors@.dom()));
                        done = nd;
                    }
                },
                None => {
                    proof {
                        assert(self.factors@ =~= pre_i.factors@);
                        assert(done =~= fids@.take(i + 1).to_set().intersect(g1.factors@.dom()));
                    }
                },
            }
        }
        proof {
            assert(fids@.take(n as int) =~= fids@);
        }
        self.boi.remove(&o);
        self.objects.remove(&o);
        metrics.objects_updated = metrics.objects_updated.wrapping_add(1);
        proof {
            crate::metrics::lemma_advance_zero(m0.objects_updated);
            crate::metrics::lemma_advance_step(m0.objects_updated, 0);
            assert(self.boi_view() =~= g1.boi_view().remove(o));
            assert(self.objects_view() =~= g1.objects_view().remove(o));
        }
    }

    /// Applies one delta: an insert, an update or a delete of one object.
    pub fn apply_delta(&mut self, delta: &Delta, metrics: &mut Metrics)
        requires
            old(self).wf(),
            delta.operation_details.wf(),
        ensures
            final(self).delta_applied(old(self), *delta, *final(metrics), *old(metrics)),
    {
        match delta.delta_type {
            DeltaType::Insert => self.handle_insert(delta, metrics),
            DeltaType::Update => self.handle_update(delta, metrics),
            DeltaType::Delete => self.handle_delete(delta, metrics),
        }
    }


    /// Factor `k` is operational and stale: it was never accessed, or its
    /// last access lies more than `threshold` ticks back.
    pub open spec fn is_stale(&self, k: u64, threshold: u64) -> bool {
        &&& self.factors@.contains_key(k)
        &&& !self.factors@[k].is_structural
        &&& (!self.factor_last_access@.contains_key(k) || self.current_tick - self.factor_last_access@[k] > threshold)
    }

    /// The stale operational factors.
    pub open spec fn stale_set(&self, threshold: u64) -> Set<u64> {
        Set::new(|k: u64| self.is_stale(k, threshold))
    }

    /// `self` is `old` after the factors of `ids` were removed one by one in
    /// the order `order` (the lifecycle records are closed in that order).
    pub open spec fn evicted_from(&self, old: &FactorGraph, ids: Set<u64>, order: Seq<u64>) -> bool {
        &&& self.same_data(old)
        &&& self.factors@ == old.factors@.remove_keys(ids)
        &&& self.boi_view() == strip_objects(old.boi_view(), old.factors@, ids)
        &&& self.bpi_view() == strip_atoms(old.bpi_view(), old.factors@, ids)
        &&& self.factor_last_access@ == old.factor_last_access@.remove_keys(ids)
        &&& self.lifecycles@ == old.lifecycles@.remove_keys(ids)
        &&& order.no_duplicates()
        &&& order.to_set() == ids.intersect(old.lifecycles@.dom())
        &&& self.completed_lifecycles@ == old.completed_lifecycles@ + evicted_records(old.lifecycles@, order, old.current_tick)
    }

    /// Removes every stale operational factor (see `is_stale`); structural
    /// factors always stay.
    pub fn evict_operational_factors(&mut self, ticks_threshold: u64)
        requires
            old(self).wf(),
        ensures
            final(self).wf(),
            old(self).stale_set(ticks_threshold).finite(),
            exists|order: Seq<u64>| #[trigger] final(self).evicted_from(old(self), old(self).stale_set(ticks_threshold), order),
    {
        let keys = keys_u64(&self.factors);
        let mut to_remove: Vec<u64> = Vec::new();
        let ghost g0 = *self;
        let ghost stale = g0.stale_set(ticks_threshold);
        let nk = keys.len();
        for i in 0..nk
            invariant
                nk == keys@.len(),
                keys@.to_set() == g0.factors@.dom(),
                keys@.no_duplicates(),
                *self == g0,
                g0.wf(),
                stale == g0.stale_set(ticks_threshold),
                to_remove@.no_duplicates(),
                to_remove@.to_set() == keys@.take(i as int).to_set().intersect(stale),
        {
            let k = keys[i];
            proof {
                crate::index::lemma_take_to_set_step(keys@, i as int);
                assert(keys@.to_set().contains(k));
            }
            let remove = match self.factors.get(&k) {
                Some(f) => !f.is_structural && match self.factor_last_access.get(&k) {
                    Some(last) => self.current_tick - *last > ticks_threshold,
                    None => true,
                },
                None => false,
            };
            let ghost before = to_remove@;
            if remove {
                proof {
                    if before.contains(k) {
                        let q = choose|q: int| 0 <= q < before.len() && before[q] == k;
                        assert(before.to_set().contains(k));
                        let p = choose|p: int| 0 <= p < i && #[trigger] keys@.take(i as int)[p] == k;
                        assert(keys@[p] == keys@[i as int]);
                    }
                }
                to_remove.push(k);
            }
            proof {
                assert(remove == stale.contains(k));
                assert(to_remove@.to_set() =~= keys@.take(i + 1).to_set().intersect(stale)) by {
                    if remove {
                        assert(to_remove@ == before.push(k));
                        assert forall|x: u64| to_remove@.to_set().contains(x) implies before.to_set().insert(k).contains(x) by {
                            let q = choose|q: int| 0 <= q < to_remove@.len() && to_remove@[q] == x;
                            if q < before.len() {
                                assert(before[q] == x);
                            }
                        }
                        assert forall|x: u64| before.to_set().insert(k).contains(x) implies to_remove@.to_set().contains(x) by {
                            if x == k {
                                assert(to_remove@[before.len() as int] == k);
                            } else {
                                let q = choose|q: int| 0 <= q < before.len() && before[q] == x;
                                assert(to_remove@[q] == x);
                            }
                        }
                    }
                }
            }
        }
        proof {
            assert(keys@.take(nk as int) =~= keys@);
            assert(stale.subset_of(g0.factors@.dom()));
            assert(to_remove@.to_set() =~= stale);
            vstd::set_lib::lemma_set_subset_finite(g0.factors@.dom(), stale);
        }
        let ghost mut order: Seq<u64> = Seq::empty();
        proof {
            assert(g0.factors@.remove_keys(Set::empty()) =~= g0.factors@);
            assert(g0.factor_last_access@.remove_keys(Set::empty()) =~= g0.factor_last_access@);
            assert(g0.lifecycles@.remove_keys(Set::empty()) =~= g0.lifecycles@);
            assert(strip_objects(g0.boi_view(), g0.factors@, Set::empty()) =~= g0.boi_view()) by {
                assert forall|o: u32| #[trigger] g0.boi_view().contains_key(o) implies
                    strip_objects(g0.boi_view(), g0.factors@, Set::empty())[o] == g0.boi_view()[o] by {
                    assert(g0.boi_view()[o].difference(ids_holding_object(g0.factors@, Set::empty(), o)) =~= g0.boi_view()[o]);
                }
            }
            assert(strip_atoms(g0.bpi_view(), g0.factors@, Set::empty()) =~= g0.bpi_view()) by {
                assert forall|a: Seq<char>| #[trigger] g0.bpi_view().contains_key(a) implies
                    strip_atoms(g0.bpi_view(), g0.factors@, Set::empty())[a] == g0.bpi_view()[a] by {
                    assert(g0.bpi_view()[a].difference(ids_holding_atom(g0.factors@, Set::empty(), a)) =~= g0.bpi_view()[a]);
                }
            }
            assert(evicted_records(g0.lifecycles@, order, g0.current_tick) =~= Seq::<FactorLifecycle>::empty());
            assert(g0.completed_lifecycles@ + Seq::<FactorLifecycle>::empty() =~= g0.completed_lifecycles@);
            assert(to_remove@.take(0).to_set() =~= Set::<u64>::empty());
            assert(order.to_set() =~= Set::<u64>::empty().intersect(g0.lifecycles@.dom()));
        }
        let nr = to_remove.len();
        for i in 0..nr
            invariant
                nr == to_remove@.len(),
                to_remove@.no_duplicates(),
                to_remove@.to_set() == stale,
                stale == g0.stale_set(ticks_threshold),
                g0.wf(),
                self.wf(),
                self.evicted_from(&g0, to_remove@.take(i as int).to_set(), order),
        {
            let fid = to_remove[i];
            let ghost done = to_remove@.take(i as int).to_set();
            let ghost before = *self;
            proof {
                crate::index::lemma_take_to_set_step(to_remove@, i as int);
                assert(!done.contains(fid)) by {
                    if done.contains(fid) {
                        let p = choose|p: int| 0 <= p < i && #[trigger] to_remove@.take(i as int)[p] == fid;
                        assert(to_remove@[p] == to_remove@[i as int]);
                    }
                }
                assert(stale.contains(fid)) by {
                    assert(to_remove@.to_set().contains(fid));
                }
                assert(self.factors@.contains_key(fid));
                assert(self.factors@[fid] == g0.factors@[fid]);
            }
            self.remove_factor(fid);
            proof {
                let nd = done.insert(fid);
                let f = g0.factors@[fid];
                assert(self.factors@ =~= g0.factors@.remove_keys(nd));
                assert(self.factor_last_access@ =~= g0.factor_last_access@.remove_keys(nd));
                assert(self.lifecycles@ =~= g0.lifecycles@.remove_keys(nd));
                assert(self.boi_view() =~= strip_objects(g0.boi_view(), g0.factors@, nd)) by {
                    assert forall|o: u32| #[trigger] self.boi_view().contains_key(o) implies
                        self.boi_view()[o] == strip_objects(g0.boi_view(), g0.factors@, nd)[o] by {
                        assert(ids_holding_object(g0.factors@, nd, o) =~= if f.extent@.contains(o) {
                            ids_holding_object(g0.factors@, done, o).insert(fid)
                        } else {
                            ids_holding_object(g0.factors@, done, o)
                        });
                        if f.extent@.contains(o) {
                            assert(f.extent@.to_set().contains(o));
                            assert(g0.boi_view()[o].difference(ids_holding_object(g0.factors@, done, o)).remove(fid)
                                =~= g0.boi_view()[o].difference(ids_holding_object(g0.factors@, nd, o)));
                        }
                    }
                }
                assert(self.bpi_view() =~= strip_atoms(g0.bpi_view(), g0.factors@, nd)) by {
                    assert forall|a: Seq<char>| #[trigger] self.bpi_view().contains_key(a) implies
                        self.bpi_view()[a] == strip_atoms(g0.bpi_view(), g0.factors@, nd)[a] by {
                        assert(ids_holding_atom(g0.factors@, nd, a) =~= if strings_view(f.intent@).contains(a) {
                            ids_holding_atom(g0.factors@, done, a).insert(fid)
                        } else {
                            ids_holding_atom(g0.factors@, done, a)
                        });
                        if strings_view(f.intent@).contains(a) {
                            assert(strings_view(f.intent@).to_set().contains(a));
                            assert(g0.bpi_view()[a].difference(ids_holding_atom(g0.factors@, done, a)).remove(fid)
                                =~= g0.bpi_view()[a].difference(ids_holding_atom(g0.factors@, nd, a)));
                        }
                    }
                }
                if g0.lifecycles@.contains_key(fid) {
                    let no = order.push(fid);
                    assert(before.lifecycles@.contains_key(fid));
                    assert(before.lifecycles@[fid] == g0.lifecycles@[fid]);
                    assert(evicted_records(g0.lifecycles@, no, g0.current_tick)
                        =~= evicted_records(g0.lifecycles@, order, g0.current_tick).push(evicted_record(g0.lifecycles@[fid], g0.current_tick)));
                    assert(self.completed_lifecycles@ =~= g0.completed_lifecycles@ + evicted_records(g0.lifecycles@, no, g0.current_tick));
                    assert(!order.contains(fid)) by {
                        if order.contains(fid) {
                            assert(order.to_set().contains(fid));
                        }
                    }
                    order.lemma_push_to_set_commute(fid);
                    assert(no.to_set() =~= order.to_set().insert(fid));
                    assert(no.to_set() =~= nd.intersect(g0.lifecycles@.dom()));
                    order = no;
                } else {
                    assert(!before.lifecycles@.contains_key(fid));
                    assert(order.to_set() =~= nd.intersect(g0.lifecycles@.dom()));
                }
            }
        }
        proof {
            assert(to_remove@.take(nr as int) =~= to_remove@);
            assert(self.evicted_from(&g0, stale, order));
        }
    }


    /// `row` is the row rebuilt for object `o`: the stored properties with the
    /// id, or, for an object that is not stored, the attributes of the atoms
    /// of the factors that the object index lists for it.
    pub open spec fn row_of(&self, o: u32, row: Map<Seq<char>, Seq<char>>) -> bool {
        if self.objects@.contains_key(o) {
            row == Map::<Seq<char>, Seq<char>>::empty().insert(id_key(), decimal(o as nat)).union_prefer_right(self.objects_view()[o])
        } else {
            row_from_atoms(row, decimal(o as nat), intent_atoms(self.factors@, set_at(self.boi_view(), o)))
        }
    }

    /// Rebuilds the row of one object (see `row_of`).
    pub fn reconstruct_row(&self, oid: ObjectId) -> (row: PropMap)
        requires
            self.wf(),
        ensures
            row.wf(),
            self.row_of(oid, props_view(row)),
    {
        let mut row: PropMap = StrMap::new();
        let id_text = decimal_string(oid as u64);
        let id_name = String::from_str("id");
        proof {
            reveal_strlit("id");
            assert(id_name@ =~= id_key());
        }
        row.insert(id_name, id_text);
        let ghost dec = decimal(oid as nat);
        match self.objects.get(&oid) {
            Some(props) => {
                let keys = props.keys();
                let n = props.len();
                let ghost pv = props_view(*props);
                for i in 0..n
                    invariant
                        props.wf(),
                        row.wf(),
                        pv == props_view(*props),
                        n == props.keys_seq().len(),
                        keys@.len() == n,
                        forall|j: int| 0 <= j < n ==> #[trigger] keys@[j]@ == props.keys_seq()[j],
                        forall|k: Seq<char>| #[trigger] row@.contains_key(k) <==>
                            (k == id_key() || exists|j: int| 0 <= j < i && props.keys_seq()[j] == k),
                        forall|k: Seq<char>| #[trigger] row@.contains_key(k) ==> row@[k]@ ==
                            (if exists|j: int| 0 <= j < i && props.keys_seq()[j] == k { pv[k] } else { dec }),
                {
                    proof {
                        props.lemma_entry(i as int);
                    }
                    let ghost k0 = keys@[i as int]@;
                    let ghost before = row@;
                    row.insert(keys[i].clone(), props.value_at(i).clone());
                    proof {
                        assert(k0 == props.keys_seq()[i as int]);
                        assert(pv.contains_key(k0));
                        assert(row@[k0]@ == pv[k0]);
                        assert forall|k: Seq<char>| #[trigger] row@.contains_key(k) <==>
                            (k == id_key() || exists|j: int| 0 <= j < i + 1 && props.keys_seq()[j] == k) by {
                            if k != k0 && exists|j: int| 0 <= j < i + 1 && props.keys_seq()[j] == k {
                                let j = choose|j: int| 0 <= j < i + 1 && props.keys_seq()[j] == k;
                                assert(j != i);
                            }
                        }
                        assert forall|k: Seq<char>| #[trigger] row@.contains_key(k) implies row@[k]@ ==
                            (if exists|j: int| 0 <= j < i + 1 && props.keys_seq()[j] == k { pv[k] } else { dec }) by {
                            if k != k0 {
                                if exists|j: int| 0 <= j < i + 1 && props.keys_seq()[j] == k {
                                    let j = choose|j: int| 0 <= j < i + 1 && props.keys_seq()[j] == k;
                                    assert(j != i);
                                    assert(exists|j2: int| 0 <= j2 < i && props.keys_seq()[j2] == k);
                                }
                            } else {
                                assert(props.keys_seq()[i as int] == k);
                            }
                        }
                    }
                }
                proof {
                    let want = Map::<Seq<char>, Seq<char>>::empty().insert(id_key(), dec).union_prefer_right(pv);
                    assert forall|k: Seq<char>| pv.contains_key(k) implies exists|j: int| 0 <= j < n && props.keys_seq()[j] == k by {
                        let j = props.lemma_key_position(k);
                    }
                    assert forall|k: Seq<char>| (exists|j: int| 0 <= j < n && props.keys_seq()[j] == k) implies pv.contains_key(k) by {
                        let j = choose|j: int| 0 <= j < n && props.keys_seq()[j] == k;
                        props.lemma_entry(j);
                    }
                    assert(props_view(row) =~= want);
                    assert(self.objects_view()[oid] == pv);
                }
            },
            None => {
                let fids: Vec<u64> = match self.boi.get(&oid) {
                    Some(ids) => ids_to_vec(ids),
                    None => Vec::new(),
                };
                let ghost target = intent_atoms(self.factors@, set_at(self.boi_view(), oid));
                let ghost mut seen: Set<Seq<char>> = Set::empty();
                proof {
                    assert(fids@.to_set() =~= set_at(self.boi_view(), oid));
                    assert(row_from_atoms(props_view(row), dec, seen)) by {
                        assert forall|k: Seq<char>| #[trigger] props_view(row).contains_key(k) implies
                            (exists|a: Seq<char>| #[trigger] seen.contains(a) && atom_attr(a) == k && props_view(row)[k] == atom_value(a))
                            || (k == id_key() && props_view(row)[k] == dec && !exists|a: Seq<char>| #[trigger] seen.contains(a) && atom_attr(a) == k) by {
                        }
                    }
                }
                let nf = fids.len();
                for j in 0..nf
                    invariant
                        self.wf(),
                        row.wf(),
                        nf == fids@.len(),
                        fids@.to_set() == set_at(self.boi_view(), oid),
                        target == intent_atoms(self.factors@, set_at(self.boi_view(), oid)),
                        row_from_atoms(props_view(row), dec, seen),
                        seen.subset_of(target),
                        forall|jj: int, a: Seq<char>| 0 <= jj < j && atom_splits(a) && #[trigger] self.factors@.contains_key(fids@[jj])
                            && #[trigger] strings_view(self.factors@[fids@[jj]].intent@).contains(a) ==> seen.contains(a),
                {
                    let fid = fids[j];
                    proof {
                        assert(fids@.to_set().contains(fid));
                    }
                    match self.factors.get(&fid) {
                        Some(f) => {
                            let ni = f.intent.len();
                            for q in 0..ni
                                invariant
                                    self.wf(),
                                    row.wf(),
                                    self.factors@.contains_key(fid),
                                    *f == self.factors@[fid],
                                    ni == f.intent@.len(),
                                    set_at(self.boi_view(), oid).contains(fid),
                                    target == intent_atoms(self.factors@, set_at(self.boi_view(), oid)),
                                    row_from_atoms(props_view(row), dec, seen),
                                    seen.subset_of(target),
                                    forall|jj: int, a: Seq<char>| 0 <= jj < j && atom_splits(a) && #[trigger] self.factors@.contains_key(fids@[jj])
                                        && #[trigger] strings_view(self.factors@[fids@[jj]].intent@).contains(a) ==> seen.contains(a),
                                    forall|qq: int| 0 <= qq < q && atom_splits(#[trigger] f.intent@[qq]@) ==> seen.contains(f.intent@[qq]@),
                            {
                                let ghost a = f.intent@[q as int]@;
                                match crate::text::split_atom(f.intent[q].as_str()) {
                                    Some((attr, val)) => {
                                        let ghost before = props_view(row);
                                        row.insert(attr, val);
                                        proof {
                                            assert(props_view(row) =~= before.insert(atom_attr(a), atom_value(a)));
                                            lemma_row_from_atoms_step(before, dec, seen, a);
                                            assert(strings_view(f.intent@)[q as int] == a);
                                            assert(target.contains(a));
                                            seen = seen.insert(a);
                                        }
                                    },
                                    None => {},
                                }
                            }
                            proof {
                                assert forall|a: Seq<char>| atom_splits(a) && strings_view(f.intent@).contains(a) implies seen.contains(a) by {
                                    let qq = choose|qq: int| 0 <= qq < strings_view(f.intent@).len() && strings_view(f.intent@)[qq] == a;
                                    assert(f.intent@[qq]@ == a);
                                }
                            }
                        },
                        None => {},
                    }
                }
                proof {
                    assert(seen =~= target) by {
                        assert forall|a: Seq<char>| target.contains(a) implies seen.contains(a) by {
                            let fid = choose|fid: u64| #[trigger] set_at(self.boi_view(), oid).contains(fid) && self.factors@.contains_key(fid)
                                && strings_view(self.factors@[fid].intent@).contains(a);
                            assert(fids@.to_set().contains(fid));
                            let jj = choose|jj: int| 0 <= jj < fids@.len() && fids@[jj] == fid;
                            assert(self.factors@.contains_key(fids@[jj]));
                        }
                    }
                }
            },
        }
        row
    }

    /// Rebuilds the rows of the given objects (see `row_of`), one per object,
    /// and counts one row operation.
    pub fn reconstruct_rows(&self, object_ids: &HashSet<ObjectId>, metrics: &mut Metrics) -> (rows: Vec<PropMap>)
        requires
            self.wf(),
        ensures
            exists|order: Seq<u32>| {
                &&& order.no_duplicates()
                &&& #[trigger] order.to_set() == object_ids@
                &&& rows@.len() == order.len()
                &&& forall|i: int| 0 <= i < order.len() ==> (#[trigger] rows@[i]).wf() && self.row_of(order[i], props_view(rows@[i]))
            },
            final(metrics).row_ops == advance(old(metrics).row_ops, 1),
            final(metrics).total_queries == old(metrics).total_queries,
            final(metrics).query_factor_ops == old(metrics).query_factor_ops,
            final(metrics).write_factor_ops == old(metrics).write_factor_ops,
            final(metrics).write_propagation_nodes == old(metrics).write_propagation_nodes,
            final(metrics).objects_updated == old(metrics).objects_updated,
            final(metrics).join_fallbacks == old(metrics).join_fallbacks,
    {
        metrics.row_ops = metrics.row_ops.wrapping_add(1);
        proof {
            crate::metrics::lemma_advance_zero(old(metrics).row_ops);
            crate::metrics::lemma_advance_step(old(metrics).row_ops, 0);
        }
        let ids = objs_to_vec(object_ids);
        let mut rows: Vec<PropMap> = Vec::new();
        let n = ids.len();
        for i in 0..n
            invariant
                self.wf(),
                n == ids@.len(),
                rows@.len() == i,
                forall|j: int| 0 <= j < i ==> (#[trigger] rows@[j]).wf() && self.row_of(ids@[j], props_view(rows@[j])),
        {
            let row = self.reconstruct_row(ids[i]);
            rows.push(row);
        }
        proof {
            assert(ids@.to_set() == object_ids@);
        }
        rows
    }


    /// The number of structural and of operational factors.
    pub fn count_kinds(&self) -> (r: (usize, usize))
        ensures
            kind_set(self.factors@, true).finite(),
            kind_set(self.factors@, false).finite(),
            r.0 == kind_set(self.factors@, true).len(),
            r.1 == kind_set(self.factors@, false).len(),
    {
        let keys = keys_u64(&self.factors);
        let mut structural: usize = 0;
        let mut operational: usize = 0;
        let ghost mut seen_s: Set<u64> = Set::empty();
        let ghost mut seen_o: Set<u64> = Set::empty();
        let n = keys.len();
        proof {
            assert(keys@.take(0).to_set() =~= Set::<u64>::empty());
        }
        for i in 0..n
            invariant
                n == keys@.len(),
                keys@.to_set() == self.factors@.dom(),
                keys@.no_duplicates(),
                seen_s.finite(),
                seen_o.finite(),
                seen_s == keys@.take(i as int).to_set().intersect(kind_set(self.factors@, true)),
                seen_o == keys@.take(i as int).to_set().intersect(kind_set(self.factors@, false)),
                structural == seen_s.len(),
                operational == seen_o.len(),
                structural + operational == i,
        {
            let k = keys[i];
            proof {
                crate::index::lemma_take_to_set_step(keys@, i as int);
                assert(keys@.to_set().contains(k));
                assert(!keys@.take(i as int).to_set().contains(k)) by {
                    if keys@.take(i as int).to_set().contains(k) {
                        let p = choose|p: int| 0 <= p < i && #[trigger] keys@.take(i as int)[p] == k;
                        assert(keys@[p] == keys@[i as int]);
                    }
                }
            }
            let is_structural = match self.factors.get(&k) {
                Some(f) => f.is_structural,
                None => false,
            };
            if is_structural {
                structural = structural + 1;
                proof {
                    assert(seen_s.insert(k) =~= keys@.take(i + 1).to_set().intersect(kind_set(self.factors@, true)));
                    assert(seen_o =~= keys@.take(i + 1).to_set().intersect(kind_set(self.factors@, false)));
                    seen_s = seen_s.insert(k);
                }
            } else {
                operational = operational + 1;
                proof {
                    assert(seen_o.insert(k) =~= keys@.take(i + 1).to_set().intersect(kind_set(self.factors@, false)));
                    assert(seen_s =~= keys@.take(i + 1).to_set().intersect(kind_set(self.factors@, true)));
                    seen_o = seen_o.insert(k);
                }
            }
        }
        proof {
            assert(keys@.take(n as int) =~= keys@);
            assert(seen_s =~= kind_set(self.factors@, true));
            assert(seen_o =~= kind_set(self.factors@, false));
        }
        (structural, operational)
    }

    /// The lifecycle records of the active factors, in the order the map
    /// of lifecycles is walked.
    pub fn active_records(&self) -> (v: Vec<FactorLifecycle>)
        ensures
            exists|order: Seq<u64>| {
                &&& order.no_duplicates()
                &&& #[trigger] order.to_set() == self.lifecycles@.dom()
                &&& v@ == records_of(self.lifecycles@, order)
            },
    {
        let keys = keys_u64(&self.lifecycles);
        let mut active: Vec<FactorLifecycle> = Vec::new();
        let n = keys.len();
        for i in 0..n
            invariant
                n == keys@.len(),
                keys@.to_set() == self.lifecycles@.dom(),
                active@ == records_of(self.lifecycles@, keys@.take(i as int)),
        {
            let k = keys[i];
            proof {
                assert(keys@.to_set().contains(k));
            }
            match self.lifecycles.get(&k) {
                Some(lc) => active.push(*lc),
                None => {},
            }
            proof {
                assert(records_of(self.lifecycles@, keys@.take(i + 1)) =~= records_of(self.lifecycles@, keys@.take(i as int)).push(self.lifecycles@[k]));
            }
        }
        proof {
            assert(keys@.take(n as int) =~= keys@);
        }
        active
    }

    /// A snapshot of the counters and of the factors: how many are
    /// structural and operational, and the lifecycle records of the active and
    /// of the evicted factors, each sorted by factor id.  The resident size and
    /// the storage estimate are left at zero for the caller to fill.
    pub fn gather_metrics(&self, metrics: &Metrics) -> (r: MetricsReport)
        ensures
            r.total_queries == metrics.total_queries,
            r.query_factor_ops == metrics.query_factor_ops,
            r.write_factor_ops == metrics.write_factor_ops,
            r.row_ops == metrics.row_ops,
            r.write_propagation_nodes == metrics.write_propagation_nodes,
            r.objects_updated == metrics.objects_updated,
            r.current_tick == self.current_tick,
            r.structural_factor_count == kind_set(self.factors@, true).len(),
            r.operational_factor_count == kind_set(self.factors@, false).len(),
            r.memory_bytes == 0,
            r.storage_bytes == 0,
            r.phase_name@ == Seq::<char>::empty(),
            r.evicted_factors@ == sort_by_id(self.completed_lifecycles@),
            exists|order: Seq<u64>| {
                &&& order.no_duplicates()
                &&& #[trigger] order.to_set() == self.lifecycles@.dom()
                &&& r.active_factors@ == sort_by_id(records_of(self.lifecycles@, order))
            },
    {
        let active = self.active_records();
        let active_sorted = sort_lifecycles(&active);
        let evicted_sorted = sort_lifecycles(&self.completed_lifecycles);
        let (structural, operational) = self.count_kinds();
        MetricsReport {
            total_queries: metrics.total_queries,
            query_factor_ops: metrics.query_factor_ops,
            write_factor_ops: metrics.write_factor_ops,
            row_ops: metrics.row_ops,
            write_propagation_nodes: metrics.write_propagation_nodes,
            objects_updated: metrics.objects_updated,
            current_tick: self.current_tick,
            structural_factor_count: structural,
            operational_factor_count: operational,
            memory_bytes: 0,
            storage_bytes: 0,
            active_factors: active_sorted,
            evicted_factors: evicted_sorted,
            phase_name: String::new(),
        }
    }

}

} // verus!
