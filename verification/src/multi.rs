use std::collections::HashSet;
use vstd::prelude::*;
use crate::graph::{factor_union, kind_set, records_of, rows_with, FactorGraph};
use crate::lifecycle::{dedup_by_id, dedup_lifecycles, extend_lifecycles, sort_by_id, sort_lifecycles};
use crate::index::{intersect, key_set, keys_u64, objs_to_vec, set_at, union_into, PairSet};
use crate::text::{atom_of, atom_value, lemma_first_index_of, make_atom, split_atom, starts_with};
use crate::metrics::{advance, Metrics};
use crate::strmap::StrMap;
use crate::types::{props_view, strings_view, Delta, Factor, FactorLifecycle, MetricsReport, ObjectId, QueryFilter};

verus! {

broadcast use vstd::std_specs::hash::group_hash_axioms;

/// Coordinates one factor graph per table, for joins across tables.
pub struct MultiTableGraph {
    pub tables: StrMap<FactorGraph>,
    /// Global tick: advanced by `apply_delta`, `query_table` and `factor_join`.
    pub current_tick: u64,
    /// Lifecycle records of the factors evicted from any table.
    pub completed_lifecycles: Vec<FactorLifecycle>,
}

/// What filtering the stored objects of `g` by `f` alone keeps (before the
/// intersection with the stored objects that a filter list applies), and
/// whether a row scan was needed: an equality whose atom the property index
/// knows is answered from the factors, any other by scanning the rows; a
/// conjunction is the filter list of its parts; a disjunction unites the
/// stored objects each part keeps.
pub open spec fn table_one(g: FactorGraph, f: QueryFilter) -> (Set<u32>, bool)
    decreases f,
{
    match f {
        QueryFilter::Eq { attribute, value } => if g.bpi_view().contains_key(atom_of(attribute@, value@)) {
            (factor_union(g.factors@, g.bpi_view()[atom_of(attribute@, value@)]), false)
        } else {
            (rows_with(g.objects_view(), attribute@, value@), true)
        },
        QueryFilter::And(subs) => table_all(g, subs@),
        QueryFilter::Or(subs) => table_any(g, subs@),
    }
}

/// The stored objects of `g` that every filter of `s` keeps (all stored
/// objects for an empty list), and whether a row scan was needed.
pub open spec fn table_all(g: FactorGraph, s: Seq<QueryFilter>) -> (Set<u32>, bool)
    decreases s,
{
    if s.len() == 0 {
        (g.objects@.dom(), false)
    } else {
        let a = table_all(g, s.drop_last());
        let b = table_one(g, s.last());
        (a.0.intersect(b.0), a.1 || b.1)
    }
}

/// The stored objects of `g` that some filter of `s` keeps, and whether a
/// row scan was needed.
pub open spec fn table_any(g: FactorGraph, s: Seq<QueryFilter>) -> (Set<u32>, bool)
    decreases s,
{
    if s.len() == 0 {
        (Set::empty(), false)
    } else {
        let a = table_any(g, s.drop_last());
        let b = table_one(g, s.last());
        (a.0.union(g.objects@.dom().intersect(b.0)), a.1 || b.1)
    }
}

/// A disjunction keeps exactly the stored objects that some alternative
/// keeps, and needs a row scan exactly when some alternative does.
pub proof fn law_or_unites_alternatives(g: FactorGraph, subs: Seq<QueryFilter>)
    ensures
        forall|o: u32| table_any(g, subs).0.contains(o) <==> (g.objects@.dom().contains(o)
            && exists|k: int| 0 <= k < subs.len() && #[trigger] table_one(g, subs[k]).0.contains(o)),
        table_any(g, subs).1 <==> exists|k: int| 0 <= k < subs.len() && #[trigger] table_one(g, subs[k]).1,
    decreases subs.len(),
{
    if subs.len() > 0 {
        let t = subs.drop_last();
        law_or_unites_alternatives(g, t);
        let b = table_one(g, subs.last());
        assert(table_any(g, subs).0 == table_any(g, t).0.union(g.objects@.dom().intersect(b.0)));
        assert(table_any(g, subs).1 == (table_any(g, t).1 || b.1));
        assert(subs.last() == subs[subs.len() - 1]);
        assert forall|o: u32| table_any(g, subs).0.contains(o) <==> (g.objects@.dom().contains(o)
            && exists|k: int| 0 <= k < subs.len() && #[trigger] table_one(g, subs[k]).0.contains(o)) by {
            if exists|k: int| 0 <= k < subs.len() && #[trigger] table_one(g, subs[k]).0.contains(o) {
                let k = choose|k: int| 0 <= k < subs.len() && #[trigger] table_one(g, subs[k]).0.contains(o);
                if k < t.len() {
                    assert(t[k] == subs[k]);
                }
            }
            if exists|k: int| 0 <= k < t.len() && #[trigger] table_one(g, t[k]).0.contains(o) {
                let k = choose|k: int| 0 <= k < t.len() && #[trigger] table_one(g, t[k]).0.contains(o);
                assert(t[k] == subs[k]);
            }
        }
        if exists|k: int| 0 <= k < subs.len() && #[trigger] table_one(g, subs[k]).1 {
            let k = choose|k: int| 0 <= k < subs.len() && #[trigger] table_one(g, subs[k]).1;
            if k < t.len() {
                assert(t[k] == subs[k]);
            }
        }
        if exists|k: int| 0 <= k < t.len() && #[trigger] table_one(g, t[k]).1 {
            let k = choose|k: int| 0 <= k < t.len() && #[trigger] table_one(g, t[k]).1;
            assert(t[k] == subs[k]);
        }
    }
}

/// A filter list keeps exactly the stored objects that every filter of it
/// keeps, and needs a row scan exactly when some filter does.
pub proof fn law_filters_intersect(g: FactorGraph, s: Seq<QueryFilter>)
    ensures
        forall|o: u32| table_all(g, s).0.contains(o) <==> (g.objects@.dom().contains(o)
            && forall|k: int| 0 <= k < s.len() ==> #[trigger] table_one(g, s[k]).0.contains(o)),
        table_all(g, s).1 <==> exists|k: int| 0 <= k < s.len() && #[trigger] table_one(g, s[k]).1,
    decreases s.len(),
{
    if s.len() > 0 {
        let t = s.drop_last();
        law_filters_intersect(g, t);
        let b = table_one(g, s.last());
        assert(table_all(g, s).0 == table_all(g, t).0.intersect(b.0));
        assert(table_all(g, s).1 == (table_all(g, t).1 || b.1));
        assert(s.last() == s[s.len() - 1]);
        assert forall|o: u32| table_all(g, s).0.contains(o) <==> (g.objects@.dom().contains(o)
            && forall|k: int| 0 <= k < s.len() ==> #[trigger] table_one(g, s[k]).0.contains(o)) by {
            if table_all(g, s).0.contains(o) {
                assert forall|k: int| 0 <= k < s.len() implies #[trigger] table_one(g, s[k]).0.contains(o) by {
                    if k < t.len() {
                        assert(t[k] == s[k]);
                        assert(table_one(g, t[k]).0.contains(o));
                    }
                }
            }
            if g.objects@.dom().contains(o) && forall|k: int| 0 <= k < s.len() ==> #[trigger] table_one(g, s[k]).0.contains(o) {
                assert forall|k: int| 0 <= k < t.len() implies #[trigger] table_one(g, t[k]).0.contains(o) by {
                    assert(t[k] == s[k]);
                    assert(table_one(g, s[k]).0.contains(o));
                }
                assert(table_one(g, s[s.len() - 1]).0.contains(o));
            }
        }
        if exists|k: int| 0 <= k < s.len() && #[trigger] table_one(g, s[k]).1 {
            let k = choose|k: int| 0 <= k < s.len() && #[trigger] table_one(g, s[k]).1;
            if k < t.len() {
                assert(t[k] == s[k]);
            }
        }
        if exists|k: int| 0 <= k < t.len() && #[trigger] table_one(g, t[k]).1 {
            let k = choose|k: int| 0 <= k < t.len() && #[trigger] table_one(g, t[k]).1;
            assert(t[k] == s[k]);
        }
    }
}

/// A table filter list made of one disjunction (as a join side can be)
/// keeps exactly the stored objects that some alternative keeps: so
/// `eval_table_filter`, and the side of `factor_join` it filters, loses no
/// object any alternative selects.
pub proof fn law_table_filter_or(g: FactorGraph, f: QueryFilter)
    requires
        f is Or,
    ensures
        forall|o: u32| table_all(g, seq![f]).0.contains(o) <==> (g.objects@.dom().contains(o)
            && exists|k: int| 0 <= k < f->Or_0@.len() && #[trigger] table_one(g, f->Or_0@[k]).0.contains(o)),
{
    law_filters_intersect(g, seq![f]);
    law_or_unites_alternatives(g, f->Or_0@);
    assert forall|o: u32| table_all(g, seq![f]).0.contains(o) <==> (g.objects@.dom().contains(o)
        && exists|k: int| 0 <= k < f->Or_0@.len() && #[trigger] table_one(g, f->Or_0@[k]).0.contains(o)) by {
        assert(seq![f][0] == f);
        assert(table_one(g, f) == table_any(g, f->Or_0@));
    }
}

/// Filters the stored objects of `g` by `f` alone (see `table_one`).
fn table_eval_one(g: &FactorGraph, f: &QueryFilter) -> (r: (HashSet<ObjectId>, bool))
    requires
        g.wf(),
    ensures
        r.0@ == table_one(*g, *f).0,
        r.1 == table_one(*g, *f).1,
    decreases f,
{
    match f {
        QueryFilter::Eq { attribute, value } => {
            let atom = make_atom(attribute.as_str(), value.as_str());
            if g.bpi.contains_key(atom.as_str()) {
                let r = g.eq_union(attribute, value);
                proof {
                    assert(set_at(g.bpi_view(), atom@) == g.bpi_view()[atom@]);
                }
                (r, false)
            } else {
                (g.scan_rows(attribute, value), true)
            }
        },
        QueryFilter::And(subs) => {
            let n = subs.len();
            let mut result = key_set(&g.objects);
            let mut used_rows = false;
            proof {
                assert(subs@.take(0) =~= Seq::<QueryFilter>::empty());
            }
            for i in 0..n
                invariant
                    g.wf(),
                    n == subs@.len(),
                    *f == QueryFilter::And(*subs),
                    result@ == table_all(*g, subs@.take(i as int)).0,
                    used_rows == table_all(*g, subs@.take(i as int)).1,
            {
                proof {
                    assert(decreases_to!(*f => (*f)->And_0));
                    assert(decreases_to!(*subs => subs@));
                    assert(decreases_to!(subs@ => subs@[i as int]));
                }
                let (r, used) = table_eval_one(g, &subs[i]);
                result = intersect(&result, &r);
                used_rows = used_rows || used;
                proof {
                    assert(subs@.take(i + 1).drop_last() =~= subs@.take(i as int));
                }
            }
            proof {
                assert(subs@.take(n as int) =~= subs@);
            }
            (result, used_rows)
        },
        QueryFilter::Or(subs) => {
            let n = subs.len();
            let all = key_set(&g.objects);
            let mut result: HashSet<u32> = HashSet::new();
            let mut used_rows = false;
            proof {
                assert(subs@.take(0) =~= Seq::<QueryFilter>::empty());
            }
            for i in 0..n
                invariant
                    g.wf(),
                    n == subs@.len(),
                    all@ == g.objects@.dom(),
                    *f == QueryFilter::Or(*subs),
                    result@ == table_any(*g, subs@.take(i as int)).0,
                    used_rows == table_any(*g, subs@.take(i as int)).1,
            {
                proof {
                    assert(decreases_to!(*f => (*f)->Or_0));
                    assert(decreases_to!(*subs => subs@));
                    assert(decreases_to!(subs@ => subs@[i as int]));
                }
                let (r, used) = table_eval_one(g, &subs[i]);
                let part = intersect(&all, &r);
                union_into(&mut result, &part);
                used_rows = used_rows || used;
                proof {
                    assert(subs@.take(i + 1).drop_last() =~= subs@.take(i as int));
                }
            }
            proof {
                assert(subs@.take(n as int) =~= subs@);
            }
            (result, used_rows)
        },
    }
}

/// Filters the stored objects of `g` by every filter of `filters` (see `table_all`).
fn table_eval_all(g: &FactorGraph, filters: &[QueryFilter]) -> (r: (HashSet<ObjectId>, bool))
    requires
        g.wf(),
    ensures
        r.0@ == table_all(*g, filters@).0,
        r.1 == table_all(*g, filters@).1,
{
    let n = filters.len();
    let mut result = key_set(&g.objects);
    let mut used_rows = false;
    proof {
        assert(filters@.take(0) =~= Seq::<QueryFilter>::empty());
    }
    for i in 0..n
        invariant
            g.wf(),
            n == filters@.len(),
            result@ == table_all(*g, filters@.take(i as int)).0,
            used_rows == table_all(*g, filters@.take(i as int)).1,
    {
        let (r, used) = table_eval_one(g, &filters[i]);
        result = intersect(&result, &r);
        used_rows = used_rows || used;
        proof {
            assert(filters@.take(i + 1).drop_last() =~= filters@.take(i as int));
        }
    }
    proof {
        assert(filters@.take(n as int) =~= filters@);
    }
    (result, used_rows)
}

/// `s` begins with `p`.
pub open spec fn begins_with(s: Seq<char>, p: Seq<char>) -> bool {
    p.len() <= s.len() && s.take(p.len() as int) == p
}

/// `i` is the position of the first atom of `intent` that begins with `p`.
pub open spec fn is_first_prefixed(intent: Seq<Seq<char>>, p: Seq<char>, i: int) -> bool {
    &&& 0 <= i < intent.len()
    &&& begins_with(intent[i], p)
    &&& forall|j: int| 0 <= j < i ==> !begins_with(#[trigger] intent[j], p)
}

/// Some atom of the factor's intent begins with `p`.
pub open spec fn joins_on(f: Factor, p: Seq<char>) -> bool {
    exists|i: int| 0 <= i < f.intent@.len() && begins_with(#[trigger] strings_view(f.intent@)[i], p)
}

/// The value part of the first atom of the factor's intent that begins with `p`.
pub open spec fn join_value(f: Factor, p: Seq<char>) -> Seq<char> {
    let iv = strings_view(f.intent@);
    atom_value(iv[choose|i: int| is_first_prefixed(iv, p, i)])
}

/// The factors of `g` with an atom that begins with `p`.
pub open spec fn join_factor_ids(g: FactorGraph, p: Seq<char>) -> Set<u64> {
    Set::new(|k: u64| g.factors@.contains_key(k) && joins_on(g.factors@[k], p))
}

/// The pairs that a factor-level join finds: a left and a right factor with
/// the same join value, the left object in the left factor's extent and in
/// `lu`, the right object in the right factor's extent and in `ru`.
pub open spec fn factor_pairs(lg: FactorGraph, rg: FactorGraph, p: Seq<char>, lu: Set<u32>, ru: Set<u32>) -> Set<(u32, u32)> {
    Set::new(|q: (u32, u32)| exists|lk: u64, rk: u64| {
        &&& #[trigger] join_factor_ids(lg, p).contains(lk)
        &&& #[trigger] join_factor_ids(rg, p).contains(rk)
        &&& join_value(lg.factors@[lk], p) == join_value(rg.factors@[rk], p)
        &&& lg.factors@[lk].extent@.contains(q.0) && lu.contains(q.0)
        &&& rg.factors@[rk].extent@.contains(q.1) && ru.contains(q.1)
    })
}

/// The pairs that a row-level join finds: a left object of `lu` and a right
/// object of `ru`, both stored, with the same value for `attr`.
pub open spec fn row_pairs(lg: FactorGraph, rg: FactorGraph, attr: Seq<char>, lu: Set<u32>, ru: Set<u32>) -> Set<(u32, u32)> {
    Set::new(|q: (u32, u32)| {
        &&& lu.contains(q.0) && ru.contains(q.1)
        &&& lg.objects_view().contains_key(q.0) && lg.objects_view()[q.0].contains_key(attr)
        &&& rg.objects_view().contains_key(q.1) && rg.objects_view()[q.1].contains_key(attr)
        &&& rg.objects_view()[q.1][attr] == lg.objects_view()[q.0][attr]
    })
}

/// The pairs that the factor entries `i < a` (with any right entry) and
/// `i == a` (with right entries `j < b`) give.
pub open spec fn entry_pairs(lg: FactorGraph, rg: FactorGraph, ls: Seq<(u64, String)>, rs: Seq<(u64, String)>,
    lu: Set<u32>, ru: Set<u32>, a: int, b: int) -> Set<(u32, u32)> {
    Set::new(|q: (u32, u32)| exists|i: int, j: int| {
        &&& ((0 <= i < a && 0 <= j < rs.len()) || (i == a && 0 <= j < b))
        &&& #[trigger] ls[i].1@ == #[trigger] rs[j].1@
        &&& lg.factors@[ls[i].0].extent@.contains(q.0) && lu.contains(q.0)
        &&& rg.factors@[rs[j].0].extent@.contains(q.1) && ru.contains(q.1)
    })
}

proof fn lemma_first_prefixed_unique(intent: Seq<Seq<char>>, p: Seq<char>, i: int, j: int)
    requires
        is_first_prefixed(intent, p, i),
        is_first_prefixed(intent, p, j),
    ensures
        i == j,
{
    if i < j {
        assert(!begins_with(intent[i], p));
    }
    if j < i {
        assert(!begins_with(intent[j], p));
    }
}

/// The value of the first atom of the factor's intent that begins with
/// `prefix` (which ends in `=`), if any atom does.
fn join_atom_value(f: &Factor, prefix: &String) -> (r: Option<String>)
    requires
        prefix@.len() > 0,
        prefix@.last() == '=',
    ensures
        match r {
            Some(v) => joins_on(*f, prefix@) && v@ == join_value(*f, prefix@),
            None => !joins_on(*f, prefix@),
        },
{
    let n = f.intent.len();
    let ghost iv = strings_view(f.intent@);
    let mut i: usize = 0;
    while i < n
        invariant
            n == f.intent@.len(),
            iv == strings_view(f.intent@),
            prefix@.len() > 0,
            prefix@.last() == '=',
            i <= n,
            forall|j: int| 0 <= j < i ==> !begins_with(#[trigger] iv[j], prefix@),
        decreases n - i,
    {
        let atom = &f.intent[i];
        let begins = starts_with(atom.as_str(), prefix.as_str());
        if begins {
            let ghost a = iv[i as int];
            proof {
                assert(a == atom@);
                assert(begins_with(a, prefix@));
                assert(is_first_prefixed(iv, prefix@, i as int));
                let c = choose|c: int| is_first_prefixed(iv, prefix@, c);
                lemma_first_prefixed_unique(iv, prefix@, i as int, c);
                assert(a[prefix@.len() - 1] == a.take(prefix@.len() as int)[prefix@.len() - 1]);
                assert(a.contains('='));
                lemma_first_index_of(a, '=');
            }
            match split_atom(atom.as_str()) {
                Some((_attr, value)) => {
                    return Some(value);
                },
                None => {
                    return None;
                },
            }
        }
        i = i + 1;
    }
    None
}

/// The factors of `g` with an atom that begins with `prefix`, each with its
/// join value (see `join_value`).
fn joining_factors(g: &FactorGraph, prefix: &String) -> (v: Vec<(u64, String)>)
    requires
        g.wf(),
        prefix@.len() > 0,
        prefix@.last() == '=',
    ensures
        forall|i: int| 0 <= i < v@.len() ==> {
            &&& join_factor_ids(*g, prefix@).contains(#[trigger] v@[i].0)
            &&& v@[i].1@ == join_value(g.factors@[v@[i].0], prefix@)
        },
        forall|k: u64| join_factor_ids(*g, prefix@).contains(k) ==> exists|i: int| 0 <= i < v@.len() && #[trigger] v@[i].0 == k,
{
    let keys = keys_u64(&g.factors);
    let mut v: Vec<(u64, String)> = Vec::new();
    let n = keys.len();
    for i in 0..n
        invariant
            g.wf(),
            prefix@.len() > 0,
            prefix@.last() == '=',
            n == keys@.len(),
            keys@.to_set() == g.factors@.dom(),
            forall|j: int| 0 <= j < v@.len() ==> {
                &&& join_factor_ids(*g, prefix@).contains(#[trigger] v@[j].0)
                &&& v@[j].1@ == join_value(g.factors@[v@[j].0], prefix@)
            },
            forall|j: int| 0 <= j < i && join_factor_ids(*g, prefix@).contains(#[trigger] keys@[j]) ==>
                exists|q: int| 0 <= q < v@.len() && #[trigger] v@[q].0 == keys@[j],
    {
        let k = keys[i];
        proof {
            assert(keys@.to_set().contains(k));
        }
        let ghost before = v@;
        match g.factors.get(&k) {
            Some(f) => {
                match join_atom_value(f, prefix) {
                    Some(val) => {
                        v.push((k, val));
                        proof {
                            assert(v@[before.len() as int].0 == k);
                        }
                    },
                    None => {},
                }
            },
            None => {},
        }
        proof {
            assert forall|j: int| 0 <= j < i + 1 && join_factor_ids(*g, prefix@).contains(#[trigger] keys@[j]) implies
                exists|q: int| 0 <= q < v@.len() && #[trigger] v@[q].0 == keys@[j] by {
                if j < i {
                    let q = choose|q: int| 0 <= q < before.len() && #[trigger] before[q].0 == keys@[j];
                    assert(v@[q] == before[q]);
                } else {
                    assert(v@[before.len() as int].0 == k);
                }
            }
        }
    }
    proof {
        assert forall|k: u64| join_factor_ids(*g, prefix@).contains(k) implies exists|i: int| 0 <= i < v@.len() && #[trigger] v@[i].0 == k by {
            assert(keys@.to_set().contains(k));
            let j = choose|j: int| 0 <= j < keys@.len() && keys@[j] == k;
            assert(join_factor_ids(*g, prefix@).contains(keys@[j]));
        }
    }
    v
}

/// The objects of `ext` that `u` holds.
fn within(ext: &Vec<u32>, u: &HashSet<u32>) -> (r: Vec<u32>)
    ensures
        r@.to_set() == ext@.to_set().intersect(u@),
{
    let mut r: Vec<u32> = Vec::new();
    let n = ext.len();
    proof {
        assert(ext@.take(0).to_set() =~= Set::<u32>::empty());
        assert(r@.to_set() =~= Set::<u32>::empty());
    }
    for i in 0..n
        invariant
            n == ext@.len(),
            r@.to_set() == ext@.take(i as int).to_set().intersect(u@),
    {
        let ghost before = r@;
        proof {
            crate::index::lemma_take_to_set_step(ext@, i as int);
        }
        if u.contains(&ext[i]) {
            r.push(ext[i]);
            proof {
                before.lemma_push_to_set_commute(ext@[i as int]);
            }
        }
        proof {
            assert(r@.to_set() =~= ext@.take(i + 1).to_set().intersect(u@));
        }
    }
    proof {
        assert(ext@.take(n as int) =~= ext@);
    }
    r
}

/// Adds every pair of an object of `xs` and an object of `ys`.
fn insert_product(pairs: &mut PairSet, xs: &Vec<u32>, ys: &Vec<u32>)
    requires
        old(pairs).wf(),
    ensures
        final(pairs).wf(),
        final(pairs)@ == old(pairs)@.union(Set::new(|q: (u32, u32)| xs@.to_set().contains(q.0) && ys@.to_set().contains(q.1))),
{
    let n = xs.len();
    let m = ys.len();
    proof {
        assert(xs@.take(0).to_set() =~= Set::<u32>::empty());
        assert(pairs@ =~= old(pairs)@.union(Set::new(|q: (u32, u32)| xs@.take(0).to_set().contains(q.0) && ys@.to_set().contains(q.1))));
    }
    for i in 0..n
        invariant
            n == xs@.len(),
            m == ys@.len(),
            pairs.wf(),
            pairs@ == old(pairs)@.union(Set::new(|q: (u32, u32)| xs@.take(i as int).to_set().contains(q.0) && ys@.to_set().contains(q.1))),
    {
        let ghost base = pairs@;
        proof {
            assert(ys@.take(0).to_set() =~= Set::<u32>::empty());
            assert(pairs@ =~= base.union(Set::new(|q: (u32, u32)| q.0 == xs@[i as int] && ys@.take(0).to_set().contains(q.1))));
        }
        for j in 0..m
            invariant
                n == xs@.len(),
                m == ys@.len(),
                i < n,
                pairs.wf(),
                pairs@ == base.union(Set::new(|q: (u32, u32)| q.0 == xs@[i as int] && ys@.take(j as int).to_set().contains(q.1))),
        {
            proof {
                crate::index::lemma_take_to_set_step(ys@, j as int);
            }
            pairs.insert(xs[i], ys[j]);
            proof {
                assert(pairs@ =~= base.union(Set::new(|q: (u32, u32)| q.0 == xs@[i as int] && ys@.take(j + 1).to_set().contains(q.1))));
            }
        }
        proof {
            assert(ys@.take(m as int) =~= ys@);
            crate::index::lemma_take_to_set_step(xs@, i as int);
            assert(pairs@ =~= old(pairs)@.union(Set::new(|q: (u32, u32)| xs@.take(i + 1).to_set().contains(q.0) && ys@.to_set().contains(q.1))));
        }
    }
    proof {
        assert(xs@.take(n as int) =~= xs@);
        assert(pairs@ =~= old(pairs)@.union(Set::new(|q: (u32, u32)| xs@.to_set().contains(q.0) && ys@.to_set().contains(q.1))));
    }
}

/// The pairs that the factor entries `a` and `b` give.
pub open spec fn entry_match(lg: FactorGraph, rg: FactorGraph, ls: Seq<(u64, String)>, rs: Seq<(u64, String)>,
    lu: Set<u32>, ru: Set<u32>, a: int, b: int) -> Set<(u32, u32)> {
    Set::new(|q: (u32, u32)| {
        &&& ls[a].1@ == rs[b].1@
        &&& lg.factors@[ls[a].0].extent@.contains(q.0) && lu.contains(q.0)
        &&& rg.factors@[rs[b].0].extent@.contains(q.1) && ru.contains(q.1)
    })
}

proof fn lemma_entry_step(lg: FactorGraph, rg: FactorGraph, ls: Seq<(u64, String)>, rs: Seq<(u64, String)>,
    lu: Set<u32>, ru: Set<u32>, a: int, b: int)
    requires
        0 <= a < ls.len(),
        0 <= b < rs.len(),
    ensures
        entry_pairs(lg, rg, ls, rs, lu, ru, a, b + 1)
            == entry_pairs(lg, rg, ls, rs, lu, ru, a, b).union(entry_match(lg, rg, ls, rs, lu, ru, a, b)),
{
    let x = entry_pairs(lg, rg, ls, rs, lu, ru, a, b + 1);
    let y = entry_pairs(lg, rg, ls, rs, lu, ru, a, b).union(entry_match(lg, rg, ls, rs, lu, ru, a, b));
    assert forall|q: (u32, u32)| x.contains(q) implies y.contains(q) by {
        let (i, j) = choose|i: int, j: int| {
            &&& ((0 <= i < a && 0 <= j < rs.len()) || (i == a && 0 <= j < b + 1))
            &&& #[trigger] ls[i].1@ == #[trigger] rs[j].1@
            &&& lg.factors@[ls[i].0].extent@.contains(q.0) && lu.contains(q.0)
            &&& rg.factors@[rs[j].0].extent@.contains(q.1) && ru.contains(q.1)
        };
        if !(i == a && j == b) {
            assert(entry_pairs(lg, rg, ls, rs, lu, ru, a, b).contains(q));
        }
    }
    assert forall|q: (u32, u32)| y.contains(q) implies x.contains(q) by {
        if entry_match(lg, rg, ls, rs, lu, ru, a, b).contains(q) {
            assert(ls[a].1@ == rs[b].1@);
        } else {
            let (i, j) = choose|i: int, j: int| {
                &&& ((0 <= i < a && 0 <= j < rs.len()) || (i == a && 0 <= j < b))
                &&& #[trigger] ls[i].1@ == #[trigger] rs[j].1@
                &&& lg.factors@[ls[i].0].extent@.contains(q.0) && lu.contains(q.0)
                &&& rg.factors@[rs[j].0].extent@.contains(q.1) && ru.contains(q.1)
            };
            assert(ls[i].1@ == rs[j].1@);
        }
    }
    assert(x =~= y);
}

proof fn lemma_entry_row(lg: FactorGraph, rg: FactorGraph, ls: Seq<(u64, String)>, rs: Seq<(u64, String)>,
    lu: Set<u32>, ru: Set<u32>, a: int)
    requires
        0 <= a < ls.len(),
    ensures
        entry_pairs(lg, rg, ls, rs, lu, ru, a, rs.len() as int) == entry_pairs(lg, rg, ls, rs, lu, ru, a + 1, 0),
{
    let x = entry_pairs(lg, rg, ls, rs, lu, ru, a, rs.len() as int);
    let y = entry_pairs(lg, rg, ls, rs, lu, ru, a + 1, 0);
    assert forall|q: (u32, u32)| x.contains(q) implies y.contains(q) by {
        let (i, j) = choose|i: int, j: int| {
            &&& ((0 <= i < a && 0 <= j < rs.len()) || (i == a && 0 <= j < rs.len()))
            &&& #[trigger] ls[i].1@ == #[trigger] rs[j].1@
            &&& lg.factors@[ls[i].0].extent@.contains(q.0) && lu.contains(q.0)
            &&& rg.factors@[rs[j].0].extent@.contains(q.1) && ru.contains(q.1)
        };
        assert(ls[i].1@ == rs[j].1@);
    }
    assert forall|q: (u32, u32)| y.contains(q) implies x.contains(q) by {
        let (i, j) = choose|i: int, j: int| {
            &&& ((0 <= i < a + 1 && 0 <= j < rs.len()) || (i == a + 1 && 0 <= j < 0))
            &&& #[trigger] ls[i].1@ == #[trigger] rs[j].1@
            &&& lg.factors@[ls[i].0].extent@.contains(q.0) && lu.contains(q.0)
            &&& rg.factors@[rs[j].0].extent@.contains(q.1) && ru.contains(q.1)
        };
        assert(ls[i].1@ == rs[j].1@);
    }
    assert(x =~= y);
}

proof fn lemma_entry_skip(lg: FactorGraph, rg: FactorGraph, ls: Seq<(u64, String)>, rs: Seq<(u64, String)>,
    lu: Set<u32>, ru: Set<u32>, a: int)
    requires
        0 <= a < ls.len(),
        forall|x: u32| !(lg.factors@[ls[a].0].extent@.contains(x) && lu.contains(x)),
    ensures
        entry_pairs(lg, rg, ls, rs, lu, ru, a, 0) == entry_pairs(lg, rg, ls, rs, lu, ru, a + 1, 0),
{
    let x = entry_pairs(lg, rg, ls, rs, lu, ru, a, 0);
    let y = entry_pairs(lg, rg, ls, rs, lu, ru, a + 1, 0);
    assert forall|q: (u32, u32)| x.contains(q) implies y.contains(q) by {
        let (i, j) = choose|i: int, j: int| {
            &&& ((0 <= i < a && 0 <= j < rs.len()) || (i == a && 0 <= j < 0))
            &&& #[trigger] ls[i].1@ == #[trigger] rs[j].1@
            &&& lg.factors@[ls[i].0].extent@.contains(q.0) && lu.contains(q.0)
            &&& rg.factors@[rs[j].0].extent@.contains(q.1) && ru.contains(q.1)
        };
        assert(ls[i].1@ == rs[j].1@);
    }
    assert forall|q: (u32, u32)| y.contains(q) implies x.contains(q) by {
        let (i, j) = choose|i: int, j: int| {
            &&& ((0 <= i < a + 1 && 0 <= j < rs.len()) || (i == a + 1 && 0 <= j < 0))
            &&& #[trigger] ls[i].1@ == #[trigger] rs[j].1@
            &&& lg.factors@[ls[i].0].extent@.contains(q.0) && lu.contains(q.0)
            &&& rg.factors@[rs[j].0].extent@.contains(q.1) && ru.contains(q.1)
        };
        assert(i != a);
        assert(ls[i].1@ == rs[j].1@);
    }
    assert(x =~= y);
}

proof fn lemma_entry_all(lg: FactorGraph, rg: FactorGraph, p: Seq<char>, ls: Seq<(u64, String)>, rs: Seq<(u64, String)>,
    lu: Set<u32>, ru: Set<u32>)
    requires
        forall|i: int| 0 <= i < ls.len() ==> {
            &&& join_factor_ids(lg, p).contains(#[trigger] ls[i].0)
            &&& ls[i].1@ == join_value(lg.factors@[ls[i].0], p)
        },
        forall|k: u64| join_factor_ids(lg, p).contains(k) ==> exists|i: int| 0 <= i < ls.len() && #[trigger] ls[i].0 == k,
        forall|j: int| 0 <= j < rs.len() ==> {
            &&& join_factor_ids(rg, p).contains(#[trigger] rs[j].0)
            &&& rs[j].1@ == join_value(rg.factors@[rs[j].0], p)
        },
        forall|k: u64| join_factor_ids(rg, p).contains(k) ==> exists|j: int| 0 <= j < rs.len() && #[trigger] rs[j].0 == k,
    ensures
        entry_pairs(lg, rg, ls, rs, lu, ru, ls.len() as int, 0) == factor_pairs(lg, rg, p, lu, ru),
{
    let x = entry_pairs(lg, rg, ls, rs, lu, ru, ls.len() as int, 0);
    let y = factor_pairs(lg, rg, p, lu, ru);
    assert forall|q: (u32, u32)| x.contains(q) implies y.contains(q) by {
        let (i, j) = choose|i: int, j: int| {
            &&& ((0 <= i < ls.len() && 0 <= j < rs.len()) || (i == ls.len() && 0 <= j < 0))
            &&& #[trigger] ls[i].1@ == #[trigger] rs[j].1@
            &&& lg.factors@[ls[i].0].extent@.contains(q.0) && lu.contains(q.0)
            &&& rg.factors@[rs[j].0].extent@.contains(q.1) && ru.contains(q.1)
        };
        assert(join_factor_ids(lg, p).contains(ls[i].0));
        assert(join_factor_ids(rg, p).contains(rs[j].0));
    }
    assert forall|q: (u32, u32)| y.contains(q) implies x.contains(q) by {
        let (lk, rk) = choose|lk: u64, rk: u64| {
            &&& #[trigger] join_factor_ids(lg, p).contains(lk)
            &&& #[trigger] join_factor_ids(rg, p).contains(rk)
            &&& join_value(lg.factors@[lk], p) == join_value(rg.factors@[rk], p)
            &&& lg.factors@[lk].extent@.contains(q.0) && lu.contains(q.0)
            &&& rg.factors@[rk].extent@.contains(q.1) && ru.contains(q.1)
        };
        let i = choose|i: int| 0 <= i < ls.len() && #[trigger] ls[i].0 == lk;
        let j = choose|j: int| 0 <= j < rs.len() && #[trigger] rs[j].0 == rk;
        assert(ls[i].1@ == rs[j].1@);
    }
    assert(x =~= y);
}

/// The pairs of a row-level join (see `row_pairs`).
fn row_join(lg: &FactorGraph, rg: &FactorGraph, attr: &str, lu: &HashSet<u32>, ru: &HashSet<u32>) -> (p: PairSet)
    requires
        lg.wf(),
        rg.wf(),
    ensures
        p.wf(),
        p@ == row_pairs(*lg, *rg, attr@, lu@, ru@),
{
    let lv = objs_to_vec(lu);
    let rv = objs_to_vec(ru);
    let ghost want = row_pairs(*lg, *rg, attr@, lu@, ru@);
    let mut pairs = PairSet::new();
    let n = lv.len();
    let m = rv.len();
    proof {
        assert(lv@.take(0).to_set() =~= Set::<u32>::empty());
        assert(pairs@ =~= Set::new(|q: (u32, u32)| want.contains(q) && lv@.take(0).to_set().contains(q.0)));
    }
    for i in 0..n
        invariant
            lg.wf(),
            rg.wf(),
            n == lv@.len(),
            m == rv@.len(),
            lv@.to_set() == lu@,
            rv@.to_set() == ru@,
            want == row_pairs(*lg, *rg, attr@, lu@, ru@),
            pairs.wf(),
            pairs@ == Set::new(|q: (u32, u32)| want.contains(q) && lv@.take(i as int).to_set().contains(q.0)),
    {
        let l = lv[i];
        let ghost base = pairs@;
        proof {
            crate::index::lemma_take_to_set_step(lv@, i as int);
            assert(lv@.to_set().contains(l));
        }
        match lg.objects.get(&l) {
            Some(props) => {
                match props.get(attr) {
                    Some(lval) => {
                        proof {
                            assert(rv@.take(0).to_set() =~= Set::<u32>::empty());
                            assert(pairs@ =~= base.union(Set::new(|q: (u32, u32)| q.0 == l && want.contains(q) && rv@.take(0).to_set().contains(q.1))));
                            assert(lg.objects_view()[l] == props_view(*props));
                        }
                        for j in 0..m
                            invariant
                                lg.wf(),
                                rg.wf(),
                                m == rv@.len(),
                                rv@.to_set() == ru@,
                                lu@.contains(l),
                                want == row_pairs(*lg, *rg, attr@, lu@, ru@),
                                lg.objects_view().contains_key(l),
                                lg.objects_view()[l].contains_key(attr@),
                                lg.objects_view()[l][attr@] == lval@,
                                pairs.wf(),
                                pairs@ == base.union(Set::new(|q: (u32, u32)| q.0 == l && want.contains(q) && rv@.take(j as int).to_set().contains(q.1))),
                        {
                            let r = rv[j];
                            proof {
                                crate::index::lemma_take_to_set_step(rv@, j as int);
                                assert(rv@.to_set().contains(r));
                            }
                            let hit = match rg.objects.get(&r) {
                                Some(rp) => match rp.get(attr) {
                                    Some(rval) => *rval == *lval,
                                    None => false,
                                },
                                None => false,
                            };
                            proof {
                                assert(hit == want.contains((l, r))) by {
                                    if rg.objects@.contains_key(r) {
                                        assert(rg.objects_view()[r] == props_view(rg.objects@[r]));
                                    }
                                }
                            }
                            if hit {
                                pairs.insert(l, r);
                            }
                            proof {
                                assert(pairs@ =~= base.union(Set::new(|q: (u32, u32)| q.0 == l && want.contains(q) && rv@.take(j + 1).to_set().contains(q.1))));
                            }
                        }
                        proof {
                            assert(rv@.take(m as int) =~= rv@);
                            assert(pairs@ =~= Set::new(|q: (u32, u32)| want.contains(q) && lv@.take(i + 1).to_set().contains(q.0)));
                        }
                    },
                    None => {
                        proof {
                            assert(pairs@ =~= Set::new(|q: (u32, u32)| want.contains(q) && lv@.take(i + 1).to_set().contains(q.0)));
                        }
                    },
                }
            },
            None => {
                proof {
                    assert(pairs@ =~= Set::new(|q: (u32, u32)| want.contains(q) && lv@.take(i + 1).to_set().contains(q.0)));
                }
            },
        }
    }
    proof {
        assert(lv@.take(n as int) =~= lv@);
        assert(pairs@ =~= want);
    }
    pairs
}

/// The number of structural (`structural`) or operational factors of the
/// tables `keys`, summed in that order.
pub open spec fn kind_total(tables: Map<Seq<char>, FactorGraph>, keys: Seq<Seq<char>>, structural: bool) -> nat
    decreases keys.len(),
{
    if keys.len() == 0 {
        0
    } else {
        kind_total(tables, keys.drop_last(), structural) + kind_set(tables[keys.last()].factors@, structural).len()
    }
}

/// The closed lifecycle records of the tables `keys`, one table after the other.
pub open spec fn completed_all(tables: Map<Seq<char>, FactorGraph>, keys: Seq<Seq<char>>) -> Seq<FactorLifecycle>
    decreases keys.len(),
{
    if keys.len() == 0 {
        Seq::empty()
    } else {
        completed_all(tables, keys.drop_last()) + tables[keys.last()].completed_lifecycles@
    }
}

/// The active lifecycle records of the tables `keys`, one table after the
/// other, each table's records in the order `orders` gives.
pub open spec fn active_all(tables: Map<Seq<char>, FactorGraph>, keys: Seq<Seq<char>>, orders: Seq<Seq<u64>>) -> Seq<FactorLifecycle>
    decreases keys.len(),
{
    if keys.len() == 0 || orders.len() == 0 {
        Seq::empty()
    } else {
        active_all(tables, keys.drop_last(), orders.drop_last()) + records_of(tables[keys.last()].lifecycles@, orders.last())
    }
}

/// The sum over a prefix of the tables is at most the sum over all of them.
proof fn lemma_kind_total_prefix(tables: Map<Seq<char>, FactorGraph>, keys: Seq<Seq<char>>, i: int, structural: bool)
    requires
        0 <= i <= keys.len(),
    ensures
        kind_total(tables, keys.take(i), structural) <= kind_total(tables, keys, structural),
    decreases keys.len() - i,
{
    if i < keys.len() {
        lemma_kind_total_prefix(tables, keys, i + 1, structural);
        assert(keys.take(i + 1).drop_last() =~= keys.take(i));
    } else {
        assert(keys.take(i) =~= keys);
    }
}

/// `new` is `old` after its stale operational factors were evicted (see
/// `evict_operational_factors`) and its closed lifecycle records `part` were
/// handed over, leaving its own list empty.
pub open spec fn harvested(new: FactorGraph, old: FactorGraph, t: u64, part: Seq<FactorLifecycle>) -> bool {
    &&& new.completed_lifecycles@ == Seq::<FactorLifecycle>::empty()
    &&& exists|g: FactorGraph, order: Seq<u64>| {
        &&& #[trigger] g.evicted_from(&old, old.stale_set(t), order)
        &&& part == g.completed_lifecycles@
        &&& new.graph == g.graph
        &&& new.boi == g.boi
        &&& new.bpi == g.bpi
        &&& new.factors == g.factors
        &&& new.objects == g.objects
        &&& new.conjunction_hits == g.conjunction_hits
        &&& new.factor_last_access == g.factor_last_access
        &&& new.current_tick == g.current_tick
        &&& new.materialization_threshold == g.materialization_threshold
        &&& new.lifecycles == g.lifecycles
    }
}

/// `r` is the report `gather_metrics` gives for `m` and the counters
/// `metrics`, leaving its phase label aside: the counters copied, the
/// largest tick, the factors counted by kind, no memory or storage
/// figure, the closed lifecycle records sorted by id without repeats, and
/// the open ones sorted by id.
pub open spec fn gathered(m: MultiTableGraph, metrics: Metrics, r: MetricsReport) -> bool {
    &&& r.total_queries == metrics.total_queries
    &&& r.query_factor_ops == metrics.query_factor_ops
    &&& r.write_factor_ops == metrics.write_factor_ops
    &&& r.row_ops == metrics.row_ops
    &&& r.write_propagation_nodes == metrics.write_propagation_nodes
    &&& r.objects_updated == metrics.objects_updated
    &&& m.is_max_tick(r.current_tick)
    &&& r.structural_factor_count == kind_total(m.tables@, m.tables.keys_seq(), true)
    &&& r.operational_factor_count == kind_total(m.tables@, m.tables.keys_seq(), false)
    &&& r.memory_bytes == 0
    &&& r.storage_bytes == 0
    &&& r.evicted_factors@ == dedup_by_id(sort_by_id(m.completed_lifecycles@ + completed_all(m.tables@, m.tables.keys_seq())))
    &&& exists|orders: Seq<Seq<u64>>| {
        &&& orders.len() == m.tables.keys_seq().len()
        &&& forall|i: int| 0 <= i < orders.len() ==> {
            &&& (#[trigger] orders[i]).no_duplicates()
            &&& orders[i].to_set() == m.tables@[m.tables.keys_seq()[i]].lifecycles@.dom()
        }
        &&& r.active_factors@ == sort_by_id(active_all(m.tables@, m.tables.keys_seq(), orders))
    }
}

/// `new` is `old` after `evict_all(t)`: the stale operational factors of
/// every table evicted, and the closed lifecycle records moved, table by
/// table in storage order, to the global list.
pub open spec fn evicted_all(old: MultiTableGraph, new: MultiTableGraph, t: u64) -> bool {
    &&& new.wf()
    &&& new.tables_wf()
    &&& new.current_tick == old.current_tick
    &&& new.tables.keys_seq() == old.tables.keys_seq()
    &&& new.tables@.dom() == old.tables@.dom()
    &&& exists|parts: Seq<Seq<FactorLifecycle>>| {
        &&& parts.len() == old.tables.keys_seq().len()
        &&& forall|j: int| 0 <= j < parts.len() ==> {
            let k = #[trigger] old.tables.keys_seq()[j];
            harvested(new.tables@[k], old.tables@[k], t, parts[j])
        }
        &&& new.completed_lifecycles@ == old.completed_lifecycles@ + parts.flatten()
    }
}

impl MultiTableGraph {
    pub open spec fn wf(&self) -> bool {
        self.tables.wf()
    }

    /// The table `name` exists and its graph is well formed.
    pub open spec fn has_table(&self, name: Seq<char>) -> bool {
        &&& self.tables@.contains_key(name)
        &&& self.tables@[name].wf()
    }

    /// `t` is the largest of the global tick and the ticks of all tables.
    pub open spec fn is_max_tick(&self, t: u64) -> bool {
        &&& t >= self.current_tick
        &&& forall|n: Seq<char>| #[trigger] self.tables@.contains_key(n) ==> t >= self.tables@[n].current_tick
        &&& (t == self.current_tick || exists|n: Seq<char>| #[trigger] self.tables@.contains_key(n) && t == self.tables@[n].current_tick)
    }

    pub fn new() -> (m: Self)
        ensures
            m.wf(),
            m.tables@ == Map::<Seq<char>, FactorGraph>::empty(),
            m.current_tick == 0,
            m.completed_lifecycles@ == Seq::<FactorLifecycle>::empty(),
    {
        MultiTableGraph { tables: StrMap::new(), current_tick: 0, completed_lifecycles: Vec::new() }
    }

    /// Adds a table, replacing any table of the same name.
    pub fn add_table(&mut self, name: String, graph: FactorGraph)
        requires
            old(self).wf(),
        ensures
            final(self).wf(),
            final(self).tables@ == old(self).tables@.insert(name@, graph),
            final(self).current_tick == old(self).current_tick,
            final(self).completed_lifecycles@ == old(self).completed_lifecycles@,
    {
        self.tables.insert(name, graph);
    }

    /// The graph of table `name`, which must exist.
    pub fn table(&self, name: &str) -> (g: &FactorGraph)
        requires
            self.wf(),
            self.tables@.contains_key(name@),
        ensures
            *g == self.tables@[name@],
    {
        self.tables.value_of(name)
    }

    /// The graph of table `name`, which must exist, to change in place.
    pub fn table_mut(&mut self, name: &str) -> (g: &mut FactorGraph)
        requires
            old(self).wf(),
            old(self).tables@.contains_key(name@),
        ensures
            *g == old(self).tables@[name@],
            final(self).wf(),
            final(self).tables@ == old(self).tables@.insert(name@, *final(g)),
            final(self).tables.keys_seq() == old(self).tables.keys_seq(),
            final(self).current_tick == old(self).current_tick,
            final(self).completed_lifecycles@ == old(self).completed_lifecycles@,
    {
        self.tables.get_mut(name)
    }

    /// The effective global tick: the largest of the global tick and the
    /// ticks of all tables.
    pub fn max_tick(&self) -> (t: u64)
        requires
            self.wf(),
        ensures
            self.is_max_tick(t),
    {
        let mut best: u64 = 0;
        let mut any = false;
        let n = self.tables.len();
        for i in 0..n
            invariant
                self.wf(),
                n == self.tables.keys_seq().len(),
                any <==> i > 0,
                forall|j: int| 0 <= j < i ==> best >= #[trigger] self.tables.vals_seq()[j].current_tick,
                any ==> exists|j: int| 0 <= j < i && best == #[trigger] self.tables.vals_seq()[j].current_tick,
        {
            let t = self.tables.value_at(i).current_tick;
            if !any || t > best {
                best = t;
            }
            any = true;
        }
        let r = if !any || self.current_tick > best { self.current_tick } else { best };
        proof {
            assert forall|k: Seq<char>| #[trigger] self.tables@.contains_key(k) implies r >= self.tables@[k].current_tick by {
                let j = self.tables.lemma_key_position(k);
                self.tables.lemma_entry(j);
            }
            if r != self.current_tick {
                let j = choose|j: int| 0 <= j < n && best == #[trigger] self.tables.vals_seq()[j].current_tick;
                self.tables.lemma_entry(j);
                let k = self.tables.keys_seq()[j];
                assert(self.tables@.contains_key(k) && r == self.tables@[k].current_tick);
            }
        }
        r
    }

    /// Advances the global tick and applies a delta to one table.
    pub fn apply_delta(&mut self, table: &str, delta: &Delta, metrics: &mut Metrics)
        requires
            old(self).wf(),
            old(self).has_table(table@),
            delta.operation_details.wf(),
            old(self).current_tick < u64::MAX,
        ensures
            final(self).wf(),
            final(self).current_tick == old(self).current_tick + 1,
            final(self).completed_lifecycles@ == old(self).completed_lifecycles@,
            final(self).tables.keys_seq() == old(self).tables.keys_seq(),
            final(self).tables@.contains_key(table@),
            final(self).tables@ == old(self).tables@.insert(table@, final(self).tables@[table@]),
            final(self).tables@[table@].delta_applied(&old(self).tables@[table@], *delta, *final(metrics), *old(metrics)),
    {
        self.current_tick = self.current_tick + 1;
        self.table_mut(table).apply_delta(delta, metrics);
    }

    /// Advances the global tick and runs a query with fallback on one table.
    pub fn query_table(&mut self, table: &str, filter: &QueryFilter, metrics: &mut Metrics) -> (r: HashSet<ObjectId>)
        requires
            old(self).wf(),
            old(self).has_table(table@),
            old(self).tables@[table@].current_tick < u64::MAX,
            old(self).current_tick < u64::MAX,
        ensures
            final(self).wf(),
            final(self).current_tick == old(self).current_tick + 1,
            final(self).completed_lifecycles@ == old(self).completed_lifecycles@,
            final(self).tables.keys_seq() == old(self).tables.keys_seq(),
            final(self).tables@.contains_key(table@),
            final(self).tables@ == old(self).tables@.insert(table@, final(self).tables@[table@]),
            final(self).tables@[table@].fallback_queried(&old(self).tables@[table@], *filter, r@, *final(metrics), *old(metrics)),
    {
        self.current_tick = self.current_tick + 1;
        self.table_mut(table).query_with_fallback(filter, metrics)
    }

    /// Every table's graph is well formed.
    pub open spec fn tables_wf(&self) -> bool {
        forall|n: Seq<char>| #[trigger] self.tables@.contains_key(n) ==> self.tables@[n].wf()
    }

    /// Evicts the stale operational factors of every table (in the order the
    /// tables are stored) and moves each table's closed lifecycle records to
    /// the global list.
    pub fn evict_all(&mut self, ticks_threshold: u64)
        requires
            old(self).wf(),
            old(self).tables_wf(),
        ensures
            final(self).wf(),
            final(self).tables_wf(),
            final(self).current_tick == old(self).current_tick,
            final(self).tables.keys_seq() == old(self).tables.keys_seq(),
            final(self).tables@.dom() == old(self).tables@.dom(),
            exists|parts: Seq<Seq<FactorLifecycle>>| {
                &&& parts.len() == old(self).tables.keys_seq().len()
                &&& forall|j: int| 0 <= j < parts.len() ==> {
                    let k = #[trigger] old(self).tables.keys_seq()[j];
                    harvested(final(self).tables@[k], old(self).tables@[k], ticks_threshold, parts[j])
                }
                &&& final(self).completed_lifecycles@ == old(self).completed_lifecycles@ + parts.flatten()
            },
            evicted_all(*old(self), *final(self), ticks_threshold),
    {
        let ghost m0 = *self;
        let ghost keys = self.tables.keys_seq();
        let ghost mut parts: Seq<Seq<FactorLifecycle>> = Seq::empty();
        let n = self.tables.len();
        proof {
            assert(self.completed_lifecycles@ =~= m0.completed_lifecycles@ + parts.flatten());
        }
        for i in 0..n
            invariant
                n == keys.len(),
                self.wf(),
                m0.wf(),
                m0.tables_wf(),
                keys == m0.tables.keys_seq(),
                self.tables.keys_seq() == keys,
                self.tables@.dom() == m0.tables@.dom(),
                self.current_tick == m0.current_tick,
                parts.len() == i,
                forall|j: int| 0 <= j < i ==> {
                    let k = #[trigger] keys[j];
                    harvested(self.tables@[k], m0.tables@[k], ticks_threshold, parts[j])
                },
                forall|j: int| i <= j < n ==> #[trigger] self.tables@[keys[j]] == m0.tables@[keys[j]],
                forall|k: Seq<char>| #[trigger] self.tables@.contains_key(k) ==> self.tables@[k].wf(),
                self.completed_lifecycles@ == m0.completed_lifecycles@ + parts.flatten(),
        {
            let name = self.tables.key_at(i).clone();
            proof {
                m0.tables.lemma_entry(i as int);
                assert(name@ == keys[i as int]);
            }
            let ghost before = self.tables@;
            let g = self.tables.get_mut(name.as_str());
            let ghost g0 = *g;
            g.evict_operational_factors(ticks_threshold);
            let ghost g1 = *g;
            self.completed_lifecycles.append(&mut g.completed_lifecycles);
            proof {
                let k = keys[i as int];
                assert(g0 == m0.tables@[k]);
                let order = choose|order: Seq<u64>| #[trigger] g1.evicted_from(&g0, g0.stale_set(ticks_threshold), order);
                assert(harvested(self.tables@[k], m0.tables@[k], ticks_threshold, g1.completed_lifecycles@));
                let prev = parts;
                prev.lemma_flatten_push(g1.completed_lifecycles@);
                parts = prev.push(g1.completed_lifecycles@);
                assert(self.completed_lifecycles@ =~= m0.completed_lifecycles@ + prev.flatten() + g1.completed_lifecycles@);
                assert(self.completed_lifecycles@ =~= m0.completed_lifecycles@ + parts.flatten());
                assert forall|j: int| 0 <= j < i + 1 implies {
                    let kj = #[trigger] keys[j];
                    harvested(self.tables@[kj], m0.tables@[kj], ticks_threshold, parts[j])
                } by {
                    if j < i {
                        m0.tables.lemma_entry(j);
                        assert(keys[j] != k);
                        assert(self.tables@[keys[j]] == before[keys[j]]);
                    }
                }
                assert forall|j: int| i + 1 <= j < n implies #[trigger] self.tables@[keys[j]] == m0.tables@[keys[j]] by {
                    m0.tables.lemma_entry(j);
                    assert(keys[j] != k);
                }
                assert(self.tables@.dom() =~= m0.tables@.dom());
            }
        }
    }


    /// Filters the stored objects of one table by a list of filters (see
    /// `table_all`); the flag says whether any row scan was needed.
    pub fn eval_table_filter(&self, table: &str, filters: &[QueryFilter], metrics: &Metrics) -> (r: (HashSet<ObjectId>, bool))
        requires
            self.wf(),
            self.has_table(table@),
        ensures
            r.0@ == table_all(self.tables@[table@], filters@).0,
            r.1 == table_all(self.tables@[table@], filters@).1,
    {
        let tg = self.table(table);
        table_eval_all(tg, filters)
    }


    /// A join of `left` and `right` on `attr`, each side filtered by its
    /// filter list, answered `pairs` (each once) with the flag `used_rows`,
    /// and moved the counters from `m0` to `m`: in factor space (see
    /// `factor_pairs`) when both tables have factors with an atom of the
    /// attribute, over the stored rows (see `row_pairs`) otherwise; one more
    /// query either way, and one more factor-space or row operation.
    pub open spec fn joined(&self, left: Seq<char>, right: Seq<char>, attr: Seq<char>, lf: Seq<QueryFilter>, rf: Seq<QueryFilter>,
        pairs: Seq<(u32, u32)>, used_rows: bool, m: Metrics, m0: Metrics) -> bool {
        let lg = self.tables@[left];
        let rg = self.tables@[right];
        let p = attr.push('=');
        let lu = table_all(lg, lf);
        let ru = table_all(rg, rf);
        &&& pairs.no_duplicates()
        &&& if join_factor_ids(lg, p).is_empty() || join_factor_ids(rg, p).is_empty() {
            &&& pairs.to_set() == row_pairs(lg, rg, attr, lu.0, ru.0)
            &&& used_rows
            &&& m.row_ops == advance(m0.row_ops, 1)
            &&& m.query_factor_ops == m0.query_factor_ops
        } else {
            &&& pairs.to_set() == factor_pairs(lg, rg, p, lu.0, ru.0)
            &&& used_rows == (lu.1 || ru.1)
            &&& m.query_factor_ops == advance(m0.query_factor_ops, 1)
            &&& m.row_ops == m0.row_ops
        }
        &&& m.total_queries == advance(m0.total_queries, 1)
        &&& m.write_factor_ops == m0.write_factor_ops
        &&& m.write_propagation_nodes == m0.write_propagation_nodes
        &&& m.objects_updated == m0.objects_updated
        &&& m.join_fallbacks == m0.join_fallbacks
    }

    /// Equi-join of two tables on a shared attribute, advancing the global
    /// tick by one; the join itself is that of `join_tables`.
    pub fn factor_join(
        &mut self,
        left_table: &str,
        right_table: &str,
        join_attr: &str,
        left_filters: &[QueryFilter],
        right_filters: &[QueryFilter],
        metrics: &mut Metrics,
    ) -> (r: (Vec<(ObjectId, ObjectId)>, bool))
        requires
            old(self).wf(),
            old(self).has_table(left_table@),
            old(self).has_table(right_table@),
            old(self).current_tick < u64::MAX,
        ensures
            *final(self) == (MultiTableGraph { current_tick: (old(self).current_tick + 1) as u64, ..*old(self) }),
            old(self).joined(left_table@, right_table@, join_attr@, left_filters@, right_filters@, r.0@, r.1, *final(metrics), *old(metrics)),
    {
        let r = self.join_tables(left_table, right_table, join_attr, left_filters, right_filters, metrics);
        self.current_tick = self.current_tick + 1;
        r
    }

    /// Equi-join of two tables on a shared attribute.  When both tables have
    /// factors with an atom of the join attribute, the join stays in factor
    /// space (see `factor_pairs`) and counts a factor-space operation;
    /// otherwise it joins the stored rows (see `row_pairs`) and counts a row
    /// operation.  Either way it counts a query.  The flag says whether rows
    /// were used.  Each pair comes once.
    fn join_tables(
        &self,
        left_table: &str,
        right_table: &str,
        join_attr: &str,
        left_filters: &[QueryFilter],
        right_filters: &[QueryFilter],
        metrics: &mut Metrics,
    ) -> (r: (Vec<(ObjectId, ObjectId)>, bool))
        requires
            self.wf(),
            self.has_table(left_table@),
            self.has_table(right_table@),
        ensures
            self.joined(left_table@, right_table@, join_attr@, left_filters@, right_filters@, r.0@, r.1, *final(metrics), *old(metrics)),
    {
        let (lu, lrow) = self.eval_table_filter(left_table, left_filters, metrics);
        let (ru, rrow) = self.eval_table_filter(right_table, right_filters, metrics);
        let used_rows = lrow || rrow;
        let lg = self.table(left_table);
        let rg = self.table(right_table);
        let mut prefix = join_attr.to_owned();
        prefix.append("=");
        proof {
            reveal_strlit("=");
            assert(prefix@ =~= join_attr@.push('='));
        }
        let ghost p = prefix@;
        let lf = joining_factors(lg, &prefix);
        let rf = joining_factors(rg, &prefix);
        proof {
            crate::metrics::lemma_advance_zero(old(metrics).total_queries);
            crate::metrics::lemma_advance_step(old(metrics).total_queries, 0);
            crate::metrics::lemma_advance_zero(old(metrics).row_ops);
            crate::metrics::lemma_advance_step(old(metrics).row_ops, 0);
            crate::metrics::lemma_advance_zero(old(metrics).query_factor_ops);
            crate::metrics::lemma_advance_step(old(metrics).query_factor_ops, 0);
        }
        if lf.len() == 0 || rf.len() == 0 {
            proof {
                if lf.len() == 0 {
                    assert(join_factor_ids(*lg, p) =~= Set::<u64>::empty()) by {
                        assert forall|k: u64| !join_factor_ids(*lg, p).contains(k) by {
                            if join_factor_ids(*lg, p).contains(k) {
                                let i = choose|i: int| 0 <= i < lf@.len() && #[trigger] lf@[i].0 == k;
                            }
                        }
                    }
                } else {
                    assert(join_factor_ids(*rg, p) =~= Set::<u64>::empty()) by {
                        assert forall|k: u64| !join_factor_ids(*rg, p).contains(k) by {
                            if join_factor_ids(*rg, p).contains(k) {
                                let i = choose|i: int| 0 <= i < rf@.len() && #[trigger] rf@[i].0 == k;
                            }
                        }
                    }
                }
            }
            metrics.row_ops = metrics.row_ops.wrapping_add(1);
            metrics.total_queries = metrics.total_queries.wrapping_add(1);
            let pairs = row_join(lg, rg, join_attr, &lu, &ru);
            return (pairs.into_vec(), true);
        }
        proof {
            assert(join_factor_ids(*lg, p).contains(lf@[0].0));
            assert(join_factor_ids(*rg, p).contains(rf@[0].0));
        }
        let mut pairs = PairSet::new();
        let nl = lf.len();
        let nr = rf.len();
        proof {
            assert(pairs@ =~= entry_pairs(*lg, *rg, lf@, rf@, lu@, ru@, 0, 0));
        }
        for a in 0..nl
            invariant
                lg.wf(),
                rg.wf(),
                nl == lf@.len(),
                nr == rf@.len(),
                forall|i: int| 0 <= i < lf@.len() ==> join_factor_ids(*lg, p).contains(#[trigger] lf@[i].0),
                forall|j: int| 0 <= j < rf@.len() ==> join_factor_ids(*rg, p).contains(#[trigger] rf@[j].0),
                pairs.wf(),
                pairs@ == entry_pairs(*lg, *rg, lf@, rf@, lu@, ru@, a as int, 0),
        {
            let lk = lf[a].0;
            proof {
                assert(join_factor_ids(*lg, p).contains(lf@[a as int].0));
            }
            if let Some(lfac) = lg.factors.get(&lk) {
                let l_ext = within(&lfac.extent, &lu);
                if l_ext.len() == 0 {
                    proof {
                        assert forall|x: u32| !(lg.factors@[lf@[a as int].0].extent@.contains(x) && lu@.contains(x)) by {
                            if lg.factors@[lf@[a as int].0].extent@.contains(x) && lu@.contains(x) {
                                assert(lfac.extent@.to_set().contains(x));
                                assert(l_ext@.to_set().contains(x));
                            }
                        }
                        lemma_entry_skip(*lg, *rg, lf@, rf@, lu@, ru@, a as int);
                    }
                } else {
                    for b in 0..nr
                        invariant
                            lg.wf(),
                            rg.wf(),
                            a < nl,
                            nl == lf@.len(),
                            nr == rf@.len(),
                            forall|j: int| 0 <= j < rf@.len() ==> join_factor_ids(*rg, p).contains(#[trigger] rf@[j].0),
                            *lfac == lg.factors@[lf@[a as int].0],
                            l_ext@.to_set() == lfac.extent@.to_set().intersect(lu@),
                            pairs.wf(),
                            pairs@ == entry_pairs(*lg, *rg, lf@, rf@, lu@, ru@, a as int, b as int),
                    {
                        proof {
                            lemma_entry_step(*lg, *rg, lf@, rf@, lu@, ru@, a as int, b as int);
                        }
                        let ghost m = entry_match(*lg, *rg, lf@, rf@, lu@, ru@, a as int, b as int);
                        if lf[a].1 != rf[b].1 {
                            proof {
                                assert(m =~= Set::<(u32, u32)>::empty());
                                assert(pairs@ =~= entry_pairs(*lg, *rg, lf@, rf@, lu@, ru@, a as int, b + 1));
                            }
                        } else {
                            let rk = rf[b].0;
                            proof {
                                assert(join_factor_ids(*rg, p).contains(rf@[b as int].0));
                            }
                            if let Some(rfac) = rg.factors.get(&rk) {
                                let r_ext = within(&rfac.extent, &ru);
                                if r_ext.len() == 0 {
                                    proof {
                                        assert forall|q: (u32, u32)| !m.contains(q) by {
                                            if m.contains(q) {
                                                assert(rfac.extent@.to_set().contains(q.1));
                                                assert(r_ext@.to_set().contains(q.1));
                                            }
                                        }
                                        assert(m =~= Set::<(u32, u32)>::empty());
                                        assert(pairs@ =~= entry_pairs(*lg, *rg, lf@, rf@, lu@, ru@, a as int, b + 1));
                                    }
                                } else {
                                    insert_product(&mut pairs, &l_ext, &r_ext);
                                    proof {
                                        assert(Set::new(|q: (u32, u32)| l_ext@.to_set().contains(q.0) && r_ext@.to_set().contains(q.1)) =~= m) by {
                                            assert forall|q: (u32, u32)| m.contains(q) implies l_ext@.to_set().contains(q.0) && r_ext@.to_set().contains(q.1) by {
                                                assert(lfac.extent@.to_set().contains(q.0));
                                                assert(rfac.extent@.to_set().contains(q.1));
                                            }
                                        }
                                    }
                                }
                            } else {
                                proof {
                                    assert(false);
                                }
                            }
                        }
                    }
                    proof {
                        lemma_entry_row(*lg, *rg, lf@, rf@, lu@, ru@, a as int);
                    }
                }
            } else {
                proof {
                    assert(false);
                }
            }
        }
        proof {
            lemma_entry_all(*lg, *rg, p, lf@, rf@, lu@, ru@);
        }
        metrics.query_factor_ops = metrics.query_factor_ops.wrapping_add(1);
        metrics.total_queries = metrics.total_queries.wrapping_add(1);
        (pairs.into_vec(), used_rows)
    }


    /// Whether the structural and the operational factors of all tables can
    /// each be counted in a `usize` (what `gather_metrics` asks).
    pub fn kind_totals_fit(&self) -> (b: bool)
        requires
            self.wf(),
        ensures
            b == (kind_total(self.tables@, self.tables.keys_seq(), true) <= usize::MAX
                && kind_total(self.tables@, self.tables.keys_seq(), false) <= usize::MAX),
    {
        let ghost keys = self.tables.keys_seq();
        let mut structural: usize = 0;
        let mut operational: usize = 0;
        let n = self.tables.len();
        proof {
            assert(keys.take(0) =~= Seq::<Seq<char>>::empty());
        }
        for i in 0..n
            invariant
                self.wf(),
                n == keys.len(),
                keys == self.tables.keys_seq(),
                structural == kind_total(self.tables@, keys.take(i as int), true),
                operational == kind_total(self.tables@, keys.take(i as int), false),
        {
            let g = self.tables.value_at(i);
            proof {
                self.tables.lemma_entry(i as int);
                assert(keys.take(i + 1).drop_last() =~= keys.take(i as int));
                assert(keys.take(i + 1).last() == keys[i as int]);
            }
            let (s, o) = g.count_kinds();
            match structural.checked_add(s) {
                Some(x) => {
                    structural = x;
                },
                None => {
                    proof {
                        lemma_kind_total_prefix(self.tables@, keys, i + 1, true);
                    }
                    return false;
                },
            }
            match operational.checked_add(o) {
                Some(x) => {
                    operational = x;
                },
                None => {
                    proof {
                        lemma_kind_total_prefix(self.tables@, keys, i + 1, false);
                    }
                    return false;
                },
            }
        }
        proof {
            assert(keys.take(n as int) =~= keys);
        }
        true
    }

    /// A snapshot over all tables: the counters, the largest tick, how many
    /// factors are structural and operational, the active lifecycle records
    /// sorted by factor id, and the closed ones (the global list, then each
    /// table's) sorted by factor id with one record per factor id.  The
    /// resident size and the storage estimate are left at zero for the caller
    /// to fill.
    pub fn gather_metrics(&self, metrics: &Metrics) -> (r: MetricsReport)
        requires
            self.wf(),
            kind_total(self.tables@, self.tables.keys_seq(), true) <= usize::MAX,
            kind_total(self.tables@, self.tables.keys_seq(), false) <= usize::MAX,
        ensures
            r.total_queries == metrics.total_queries,
            r.query_factor_ops == metrics.query_factor_ops,
            r.write_factor_ops == metrics.write_factor_ops,
            r.row_ops == metrics.row_ops,
            r.write_propagation_nodes == metrics.write_propagation_nodes,
            r.objects_updated == metrics.objects_updated,
            self.is_max_tick(r.current_tick),
            r.structural_factor_count == kind_total(self.tables@, self.tables.keys_seq(), true),
            r.operational_factor_count == kind_total(self.tables@, self.tables.keys_seq(), false),
            r.memory_bytes == 0,
            r.storage_bytes == 0,
            r.phase_name@ == Seq::<char>::empty(),
            r.evicted_factors@ == dedup_by_id(sort_by_id(self.completed_lifecycles@ + completed_all(self.tables@, self.tables.keys_seq()))),
            exists|orders: Seq<Seq<u64>>| {
                &&& orders.len() == self.tables.keys_seq().len()
                &&& forall|i: int| 0 <= i < orders.len() ==> {
                    &&& (#[trigger] orders[i]).no_duplicates()
                    &&& orders[i].to_set() == self.tables@[self.tables.keys_seq()[i]].lifecycles@.dom()
                }
                &&& r.active_factors@ == sort_by_id(active_all(self.tables@, self.tables.keys_seq(), orders))
            },
            gathered(*self, *metrics, r),
    {
        let ghost keys = self.tables.keys_seq();
        let ghost mut orders: Seq<Seq<u64>> = Seq::empty();
        let mut structural: usize = 0;
        let mut operational: usize = 0;
        let mut active: Vec<FactorLifecycle> = Vec::new();
        let mut evicted: Vec<FactorLifecycle> = Vec::new();
        extend_lifecycles(&mut evicted, &self.completed_lifecycles);
        let n = self.tables.len();
        proof {
            assert(evicted@ =~= self.completed_lifecycles@ + completed_all(self.tables@, keys.take(0)));
            assert(active@ =~= active_all(self.tables@, keys.take(0), orders));
        }
        for i in 0..n
            invariant
                self.wf(),
                n == keys.len(),
                keys == self.tables.keys_seq(),
                kind_total(self.tables@, keys, true) <= usize::MAX,
                kind_total(self.tables@, keys, false) <= usize::MAX,
                structural == kind_total(self.tables@, keys.take(i as int), true),
                operational == kind_total(self.tables@, keys.take(i as int), false),
                evicted@ == self.completed_lifecycles@ + completed_all(self.tables@, keys.take(i as int)),
                orders.len() == i,
                forall|j: int| 0 <= j < orders.len() ==> {
                    &&& (#[trigger] orders[j]).no_duplicates()
                    &&& orders[j].to_set() == self.tables@[keys[j]].lifecycles@.dom()
                },
                active@ == active_all(self.tables@, keys.take(i as int), orders),
        {
            let g = self.tables.value_at(i);
            proof {
                self.tables.lemma_entry(i as int);
                assert(keys.take(i + 1).drop_last() =~= keys.take(i as int));
                assert(keys.take(i + 1).last() == keys[i as int]);
                lemma_kind_total_prefix(self.tables@, keys, i as int + 1, true);
                lemma_kind_total_prefix(self.tables@, keys, i as int + 1, false);
            }
            let (s, o) = g.count_kinds();
            structural = structural + s;
            operational = operational + o;
            let part = g.active_records();
            let ghost order = choose|order: Seq<u64>| {
                &&& order.no_duplicates()
                &&& #[trigger] order.to_set() == g.lifecycles@.dom()
                &&& part@ == records_of(g.lifecycles@, order)
            };
            extend_lifecycles(&mut active, &part);
            extend_lifecycles(&mut evicted, &g.completed_lifecycles);
            proof {
                let prev = orders;
                orders = prev.push(order);
                assert(orders.drop_last() =~= prev);
                assert(evicted@ =~= self.completed_lifecycles@ + completed_all(self.tables@, keys.take(i + 1)));
                assert(active@ =~= active_all(self.tables@, keys.take(i + 1), orders));
            }
        }
        proof {
            assert(keys.take(n as int) =~= keys);
        }
        let active_sorted = sort_lifecycles(&active);
        let evicted_sorted = sort_lifecycles(&evicted);
        let evicted_unique = dedup_lifecycles(&evicted_sorted);
        let tick = self.max_tick();
        MetricsReport {
            total_queries: metrics.total_queries,
            query_factor_ops: metrics.query_factor_ops,
            write_factor_ops: metrics.write_factor_ops,
            row_ops: metrics.row_ops,
            write_propagation_nodes: metrics.write_propagation_nodes,
            objects_updated: metrics.objects_updated,
            current_tick: tick,
            structural_factor_count: structural,
            operational_factor_count: operational,
            memory_bytes: 0,
            storage_bytes: 0,
            active_factors: active_sorted,
            evicted_factors: evicted_unique,
            phase_name: String::new(),
        }
    }

}

} // verus!
