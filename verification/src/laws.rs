use vstd::prelude::*;
use crate::graph::{eq_atom_list, factor_union, ids_holding_atom, ids_holding_object, is_max_key, prop_atoms, props_at, rows_with, satisfies, strip_atoms, strip_objects, FactorGraph};
use crate::index::{index_add, set_at, without};
use crate::metrics::Metrics;
use crate::text::{atom_attr, atom_of, atom_splits, atom_value, first_index_of, lemma_atom_roundtrip, lemma_first_index_of, lemma_sort_strs_contains, sort_strs};
use crate::types::{spec_object_id, spec_properties, strings_view, Delta, DeltaType, Factor, QueryFilter};

verus! {

/// No attribute name of the properties holds `=`.
pub open spec fn plain_keys(p: Map<Seq<char>, Seq<char>>) -> bool {
    forall|k: Seq<char>| #[trigger] p.contains_key(k) ==> !k.contains('=')
}

/// The graph is sound: every factor's extent holds only stored objects
/// that satisfy its intent, the property index lists each factor under
/// exactly the atoms of its intent, the object index lists each factor under
/// exactly the objects of its extent, and no stored attribute name holds `=`.
pub open spec fn sound(g: FactorGraph) -> bool {
    &&& g.wf()
    &&& forall|k: u64, o: u32| #[trigger] g.factors@.contains_key(k) && #[trigger] g.factors@[k].extent@.contains(o) ==> {
        &&& g.objects_view().contains_key(o)
        &&& satisfies(strings_view(g.factors@[k].intent@), g.objects_view()[o])
    }
    &&& forall|a: Seq<char>, k: u64| #[trigger] set_at(g.bpi_view(), a).contains(k) <==> {
        &&& g.factors@.contains_key(k)
        &&& strings_view(g.factors@[k].intent@).contains(a)
    }
    &&& forall|o: u32, k: u64| #[trigger] set_at(g.boi_view(), o).contains(k) <==> {
        &&& g.factors@.contains_key(k)
        &&& g.factors@[k].extent@.contains(o)
    }
    &&& forall|o: u32| #[trigger] g.objects_view().contains_key(o) ==> plain_keys(g.objects_view()[o])
}

/// An atom that splits is the atom of its two parts, and its attribute
/// part holds no `=`.
pub proof fn lemma_split_rejoin(b: Seq<char>)
    requires
        atom_splits(b),
    ensures
        atom_of(atom_attr(b), atom_value(b)) == b,
        !atom_attr(b).contains('='),
{
    lemma_first_index_of(b, '=');
    let i = first_index_of(b, '=');
    assert(atom_of(atom_attr(b), atom_value(b)) =~= b);
    if atom_attr(b).contains('=') {
        let j = choose|j: int| 0 <= j < atom_attr(b).len() && atom_attr(b)[j] == '=';
        assert(b[j] == '=');
    }
}

/// With attribute names free of `=`, an atom that splits is an atom of the
/// properties exactly when they give its attribute its value.
pub proof fn lemma_atom_member(p: Map<Seq<char>, Seq<char>>, b: Seq<char>)
    requires
        plain_keys(p),
        atom_splits(b),
    ensures
        prop_atoms(p).contains(b) <==> (p.contains_key(atom_attr(b)) && p[atom_attr(b)] == atom_value(b)),
{
    lemma_split_rejoin(b);
    if prop_atoms(p).contains(b) {
        let k = choose|k: Seq<char>| #[trigger] p.contains_key(k) && b == atom_of(k, p[k]);
        lemma_atom_roundtrip(k, p[k]);
    }
    if p.contains_key(atom_attr(b)) && p[atom_attr(b)] == atom_value(b) {
        assert(p.contains_key(atom_attr(b)) && b == atom_of(atom_attr(b), p[atom_attr(b)]));
    }
}

/// An intent satisfied by properties with `=`-free names has all its
/// atoms among theirs.
pub proof fn lemma_satisfied_atoms(intent: Seq<Seq<char>>, p: Map<Seq<char>, Seq<char>>, b: Seq<char>)
    requires
        plain_keys(p),
        satisfies(intent, p),
        intent.contains(b),
    ensures
        atom_splits(b),
        prop_atoms(p).contains(b),
{
    let i = choose|i: int| 0 <= i < intent.len() && intent[i] == b;
    assert(atom_splits(intent[i]));
    lemma_atom_member(p, b);
}

/// An intent not satisfied by `=`-free properties has an atom outside
/// theirs, or an atom that does not split.
pub proof fn lemma_unsatisfied_atom(intent: Seq<Seq<char>>, p: Map<Seq<char>, Seq<char>>) -> (b: Seq<char>)
    requires
        plain_keys(p),
        !satisfies(intent, p),
    ensures
        intent.contains(b),
        !atom_splits(b) || !prop_atoms(p).contains(b),
{
    let i = choose|i: int| 0 <= i < intent.len() && !{
        &&& atom_splits(#[trigger] intent[i])
        &&& p.contains_key(atom_attr(intent[i]))
        &&& p[atom_attr(intent[i])] == atom_value(intent[i])
    };
    let b = intent[i];
    if atom_splits(b) {
        lemma_atom_member(p, b);
    }
    b
}

/// Inserting an object that is not stored yet keeps the graph sound.
proof fn lemma_insert_sound(old: FactorGraph, new: FactorGraph, o: u32, pv: Map<Seq<char>, Seq<char>>)
    requires
        sound(old),
        !old.objects_view().contains_key(o),
        plain_keys(pv),
        new.wf(),
        new.objects_view() == old.objects_view().insert(o, pv),
        new.attached_from(&old, o, old.attach_set(o, pv, prop_atoms(pv))),
    ensures
        sound(new),
{
    let g = old.attach_set(o, pv, prop_atoms(pv));
    assert forall|k: u64, x: u32| #[trigger] new.factors@.contains_key(k) && #[trigger] new.factors@[k].extent@.contains(x) implies {
        &&& new.objects_view().contains_key(x)
        &&& satisfies(strings_view(new.factors@[k].intent@), new.objects_view()[x])
    } by {
        assert(old.factors@.contains_key(k));
        if g.contains(k) {
            if x != o {
                assert(new.factors@[k].extent@ == old.factors@[k].extent@.push(o));
                let i = choose|i: int| 0 <= i < new.factors@[k].extent@.len() && new.factors@[k].extent@[i] == x;
                assert(old.factors@[k].extent@[i] == x);
                assert(old.factors@[k].extent@.contains(x));
            }
        } else {
            assert(old.factors@[k].extent@.contains(x));
            assert(x != o);
        }
    }
    assert forall|a: Seq<char>, k: u64| #[trigger] set_at(new.bpi_view(), a).contains(k) <==> {
        &&& new.factors@.contains_key(k)
        &&& strings_view(new.factors@[k].intent@).contains(a)
    } by {
        if old.factors@.contains_key(k) {
            assert(new.factors@[k].intent == old.factors@[k].intent);
        }
    }
    assert forall|k: u64| #[trigger] set_at(old.boi_view(), o).contains(k) implies false by {
        assert(old.factors@.contains_key(k) && old.factors@[k].extent@.contains(o));
    }
    assert forall|x: u32, k: u64| #[trigger] set_at(new.boi_view(), x).contains(k) <==> {
        &&& new.factors@.contains_key(k)
        &&& new.factors@[k].extent@.contains(x)
    } by {
        let in_new_ext = new.factors@.contains_key(k) && new.factors@[k].extent@.contains(x);
        let in_old_ext = old.factors@.contains_key(k) && old.factors@[k].extent@.contains(x);
        if old.factors@.contains_key(k) {
            if g.contains(k) {
                let e = old.factors@[k].extent@;
                assert(new.factors@[k].extent@ == e.push(o));
                assert(e.push(o)[e.len() as int] == o);
                if x != o && e.push(o).contains(x) {
                    let i = choose|i: int| 0 <= i < e.push(o).len() && e.push(o)[i] == x;
                    assert(e[i] == x);
                }
                if e.contains(x) {
                    let i = choose|i: int| 0 <= i < e.len() && e[i] == x;
                    assert(e.push(o)[i] == x);
                }
                assert(x != o ==> (in_new_ext == in_old_ext));
                assert(x == o ==> in_new_ext);
            } else {
                assert(new.factors@[k] == old.factors@[k]);
                assert(in_new_ext == in_old_ext);
                if x == o && in_old_ext {
                    assert(set_at(old.boi_view(), o).contains(k));
                }
            }
        } else {
            assert(!g.contains(k));
            assert(!in_new_ext);
        }
        if x == o {
            if g.is_empty() {
                assert(set_at(new.boi_view(), o) == set_at(old.boi_view(), o));
            } else {
                assert(set_at(new.boi_view(), o) == set_at(old.boi_view(), o).union(g));
            }
            assert(set_at(new.boi_view(), o).contains(k) == g.contains(k));
        } else {
            assert(set_at(new.boi_view(), x) == set_at(old.boi_view(), x));
        }
    }
    assert forall|x: u32| #[trigger] new.objects_view().contains_key(x) implies plain_keys(new.objects_view()[x]) by {
        if x != o {
            assert(old.objects_view().contains_key(x));
        }
    }
}

/// Removing an object from every factor the object index lists for it, and
/// then from the indexes and the store, keeps the graph sound.
proof fn lemma_delete_sound(old: FactorGraph, new: FactorGraph, o: u32)
    requires
        sound(old),
        new.wf(),
        new.shrunk_from(&old, o, set_at(old.boi_view(), o).intersect(old.factors@.dom())),
        new.boi_view() == old.boi_view().remove(o),
        new.objects_view() == old.objects_view().remove(o),
    ensures
        sound(new),
{
    broadcast use vstd::seq_lib::group_filter_ensures;
    let g = set_at(old.boi_view(), o).intersect(old.factors@.dom());
    assert forall|k: u64, x: u32| #[trigger] new.factors@.contains_key(k) && #[trigger] new.factors@[k].extent@.contains(x) implies
        old.factors@.contains_key(k) && old.factors@[k].extent@.contains(x) && x != o by {
        assert(old.factors@.contains_key(k));
        if g.contains(k) {
            let e = old.factors@[k].extent@;
            assert(new.factors@[k].extent@ == without(e, o));
            crate::index::lemma_without(e, o);
        } else {
            assert(new.factors@[k] == old.factors@[k]);
            if x == o {
                assert(set_at(old.boi_view(), o).contains(k));
            }
        }
    }
    assert forall|k: u64, x: u32| #[trigger] new.factors@.contains_key(k) && #[trigger] new.factors@[k].extent@.contains(x) implies {
        &&& new.objects_view().contains_key(x)
        &&& satisfies(strings_view(new.factors@[k].intent@), new.objects_view()[x])
    } by {
        assert(old.factors@[k].extent@.contains(x) && x != o);
        if g.contains(k) {
            assert(new.factors@[k].intent == old.factors@[k].intent);
        }
    }
    assert forall|a: Seq<char>, k: u64| #[trigger] set_at(new.bpi_view(), a).contains(k) <==> {
        &&& new.factors@.contains_key(k)
        &&& strings_view(new.factors@[k].intent@).contains(a)
    } by {
        if old.factors@.contains_key(k) && g.contains(k) {
            assert(new.factors@[k].intent == old.factors@[k].intent);
        }
    }
    assert forall|x: u32, k: u64| #[trigger] set_at(new.boi_view(), x).contains(k) <==> {
        &&& new.factors@.contains_key(k)
        &&& new.factors@[k].extent@.contains(x)
    } by {
        let in_new_ext = new.factors@.contains_key(k) && new.factors@[k].extent@.contains(x);
        if in_new_ext {
            assert(old.factors@[k].extent@.contains(x) && x != o);
        }
        if x == o {
            assert(set_at(new.boi_view(), o) =~= Set::<u64>::empty());
            assert(!in_new_ext);
        } else {
            assert(set_at(new.boi_view(), x) == set_at(old.boi_view(), x));
            if old.factors@.contains_key(k) {
                if g.contains(k) {
                    crate::index::lemma_without(old.factors@[k].extent@, o);
                } else {
                    assert(new.factors@[k] == old.factors@[k]);
                }
            }
        }
    }
    assert forall|x: u32| #[trigger] new.objects_view().contains_key(x) implies plain_keys(new.objects_view()[x]) by {
        assert(old.objects_view().contains_key(x));
    }
}

/// Replacing the properties of an object by a full set of `=`-free
/// properties (letting go of it where they no longer satisfy the intent,
/// taking it in where they newly do) keeps the graph sound.
proof fn lemma_update_sound(old: FactorGraph, mid: FactorGraph, new: FactorGraph, o: u32, pv: Map<Seq<char>, Seq<char>>)
    requires
        sound(old),
        plain_keys(pv),
        new.wf(),
        mid.detached_from(&old, o, old.detach_set(o, pv, prop_atoms(props_at(old.objects_view(), o)).difference(prop_atoms(pv)))),
        new.attached_from(&mid, o, old.attach_set(o, pv, prop_atoms(pv).difference(prop_atoms(props_at(old.objects_view(), o))))),
        new.objects_view() == old.objects_view().insert(o, pv),
    ensures
        sound(new),
{
    let before = props_at(old.objects_view(), o);
    let gone = prop_atoms(before).difference(prop_atoms(pv));
    let came = prop_atoms(pv).difference(prop_atoms(before));
    let d = old.detach_set(o, pv, gone);
    let a = old.attach_set(o, pv, came);
    assert forall|k: u64| #[trigger] old.factors@.contains_key(k) implies {
        &&& new.factors@.contains_key(k)
        &&& new.factors@[k].intent == old.factors@[k].intent
        &&& (d.contains(k) ==> new.factors@[k].extent@ == without(old.factors@[k].extent@, o))
        &&& (a.contains(k) ==> new.factors@[k].extent@ == old.factors@[k].extent@.push(o))
        &&& (!d.contains(k) && !a.contains(k) ==> new.factors@[k].extent@ == old.factors@[k].extent@)
        &&& !(d.contains(k) && a.contains(k))
    } by {
        assert(mid.factors@.contains_key(k));
        if d.contains(k) && a.contains(k) {
            assert(!satisfies(strings_view(old.factors@[k].intent@), pv));
        }
    }
    assert(new.factors@.dom() == old.factors@.dom());
    assert forall|k: u64, x: u32| #[trigger] new.factors@.contains_key(k) && #[trigger] new.factors@[k].extent@.contains(x) implies {
        &&& new.objects_view().contains_key(x)
        &&& satisfies(strings_view(new.factors@[k].intent@), new.objects_view()[x])
    } by {
        assert(old.factors@.contains_key(k));
        let e = old.factors@[k].extent@;
        let intent = strings_view(old.factors@[k].intent@);
        assert(strings_view(new.factors@[k].intent@) == intent);
        if x != o {
            assert(new.objects_view()[x] == old.objects_view()[x]);
        }
        if d.contains(k) {
            crate::index::lemma_without(e, o);
            assert(e.contains(x) && x != o);
            assert(old.factors@.contains_key(k) && old.factors@[k].extent@.contains(x));
        } else if a.contains(k) {
            if x != o {
                let i = choose|i: int| 0 <= i < e.push(o).len() && e.push(o)[i] == x;
                assert(e[i] == x);
                assert(old.factors@.contains_key(k) && old.factors@[k].extent@.contains(x));
            } else {
                assert(old.attaches(k, o, pv, came));
            }
        } else {
            assert(old.factors@.contains_key(k) && old.factors@[k].extent@.contains(x));
            assert(e.contains(x));
            if x == o {
                assert(old.objects_view().contains_key(o));
                assert(before == old.objects_view()[o]);
                if !satisfies(intent, pv) {
                    let b = lemma_unsatisfied_atom(intent, pv);
                    lemma_satisfied_atoms(intent, before, b);
                    assert(gone.contains(b));
                    assert(set_at(old.bpi_view(), b).contains(k));
                    assert(old.detaches(k, o, pv, gone));
                    assert(d.contains(k));
                }
            }
        }
    }
    assert forall|b: Seq<char>, k: u64| #[trigger] set_at(new.bpi_view(), b).contains(k) <==> {
        &&& new.factors@.contains_key(k)
        &&& strings_view(new.factors@[k].intent@).contains(b)
    } by {
        assert(new.bpi_view() == old.bpi_view());
    }
    assert forall|k: u64| #[trigger] set_at(mid.boi_view(), o).contains(k) <==> (set_at(old.boi_view(), o).contains(k) && !d.contains(k)) by {
        if !old.boi_view().contains_key(o) {
            assert(!set_at(old.boi_view(), o).contains(k));
        }
    }
    assert forall|x: u32, k: u64| #[trigger] set_at(new.boi_view(), x).contains(k) <==> {
        &&& new.factors@.contains_key(k)
        &&& new.factors@[k].extent@.contains(x)
    } by {
        if x == o {
            if a.is_empty() {
                assert(set_at(new.boi_view(), o) == set_at(mid.boi_view(), o));
            } else {
                assert(set_at(new.boi_view(), o) == set_at(mid.boi_view(), o).union(a));
            }
            if old.factors@.contains_key(k) {
                let e = old.factors@[k].extent@;
                if d.contains(k) {
                    crate::index::lemma_without(e, o);
                } else if a.contains(k) {
                    assert(e.push(o)[e.len() as int] == o);
                }
            }
        } else {
            assert(set_at(mid.boi_view(), x) == set_at(old.boi_view(), x));
            assert(set_at(new.boi_view(), x) == set_at(mid.boi_view(), x));
            if old.factors@.contains_key(k) {
                let e = old.factors@[k].extent@;
                if d.contains(k) {
                    crate::index::lemma_without(e, o);
                } else if a.contains(k) {
                    if e.push(o).contains(x) {
                        let i = choose|i: int| 0 <= i < e.push(o).len() && e.push(o)[i] == x;
                        assert(e[i] == x);
                    }
                    if e.contains(x) {
                        let i = choose|i: int| 0 <= i < e.len() && e[i] == x;
                        assert(e.push(o)[i] == x);
                    }
                }
            }
        }
    }
    assert forall|x: u32| #[trigger] new.objects_view().contains_key(x) implies plain_keys(new.objects_view()[x]) by {
        if x != o {
            assert(old.objects_view().contains_key(x));
        }
    }
}

/// Applying a delta keeps the graph sound (see `sound`), provided the
/// delta's attribute names hold no `=` and an insert brings an object that
/// is not stored yet.
pub proof fn law_delta_keeps_sound(old: FactorGraph, new: FactorGraph, delta: Delta, m: Metrics, m0: Metrics)
    requires
        sound(old),
        new.delta_applied(&old, delta, m, m0),
        plain_keys(spec_properties(delta.operation_details@)),
        delta.delta_type == DeltaType::Insert ==> !old.objects_view().contains_key(spec_object_id(delta.operation_details@)),
    ensures
        sound(new),
{
    let o = spec_object_id(delta.operation_details@);
    let pv = spec_properties(delta.operation_details@);
    match delta.delta_type {
        DeltaType::Insert => {
            lemma_insert_sound(old, new, o, pv);
        },
        DeltaType::Update => {
            let before = props_at(old.objects_view(), o);
            let d = old.detach_set(o, pv, prop_atoms(before).difference(prop_atoms(pv)));
            let a = old.attach_set(o, pv, prop_atoms(pv).difference(prop_atoms(before)));
            let mid = choose|mid: FactorGraph| #[trigger] mid.detached_from(&old, o, d) && new.attached_from(&mid, o, a);
            lemma_update_sound(old, mid, new, o, pv);
        },
        DeltaType::Delete => {
            lemma_delete_sound(old, new, o);
        },
    }
}


/// The objects whose stored rows match a filter: an equality where the
/// attribute has the value, a conjunction where every part matches (no
/// object for an empty one), a disjunction where some part does.
pub open spec fn row_answer(objs: Map<u32, Map<Seq<char>, Seq<char>>>, f: QueryFilter) -> Set<u32>
    decreases f,
{
    match f {
        QueryFilter::Eq { attribute, value } => rows_with(objs, attribute@, value@),
        QueryFilter::And(subs) => rows_all(objs, subs@),
        QueryFilter::Or(subs) => rows_any(objs, subs@),
    }
}

pub open spec fn rows_all(objs: Map<u32, Map<Seq<char>, Seq<char>>>, s: Seq<QueryFilter>) -> Set<u32>
    decreases s,
{
    if s.len() == 0 {
        Set::empty()
    } else if s.len() == 1 {
        row_answer(objs, s[0])
    } else {
        rows_all(objs, s.drop_last()).intersect(row_answer(objs, s.last()))
    }
}

pub open spec fn rows_any(objs: Map<u32, Map<Seq<char>, Seq<char>>>, s: Seq<QueryFilter>) -> Set<u32>
    decreases s,
{
    if s.len() == 0 {
        Set::empty()
    } else {
        rows_any(objs, s.drop_last()).union(row_answer(objs, s.last()))
    }
}

/// No equality of the filter names an attribute holding `=`.
pub open spec fn plain_filter(f: QueryFilter) -> bool
    decreases f,
{
    match f {
        QueryFilter::Eq { attribute, value } => !attribute@.contains('='),
        QueryFilter::And(subs) => plain_list(subs@),
        QueryFilter::Or(subs) => plain_list(subs@),
    }
}

pub open spec fn plain_list(s: Seq<QueryFilter>) -> bool
    decreases s,
{
    if s.len() == 0 {
        true
    } else {
        plain_list(s.drop_last()) && plain_filter(s.last())
    }
}

/// Every atom of every stored object lies in the intent of a factor whose
/// extent holds the object (as the structural cover leaves it).
pub open spec fn covered(g: FactorGraph) -> bool {
    forall|o: u32, a: Seq<char>| g.objects_view().contains_key(o) && #[trigger] prop_atoms(g.objects_view()[o]).contains(a) ==>
        exists|k: u64| {
            &&& #[trigger] g.factors@.contains_key(k)
            &&& strings_view(g.factors@[k].intent@).contains(a)
            &&& g.factors@[k].extent@.contains(o)
        }
}

/// Every atom of a stored object that the property index knows leads, through
/// the index, to a factor whose extent holds the object.
pub open spec fn complete(g: FactorGraph) -> bool {
    forall|o: u32, a: Seq<char>| g.objects_view().contains_key(o) && #[trigger] prop_atoms(g.objects_view()[o]).contains(a)
        && g.bpi_view().contains_key(a) ==>
        exists|k: u64| {
            &&& #[trigger] set_at(g.bpi_view(), a).contains(k)
            &&& g.factors@.contains_key(k)
            &&& g.factors@[k].extent@.contains(o)
        }
}

/// What an equality is answered from the factors it reaches through the
/// index: only matching rows; all of them when the graph is covered, or when
/// it is complete and the index knows the atom.
proof fn lemma_eq_answer(g: FactorGraph, attr: Seq<char>, val: Seq<char>)
    requires
        sound(g),
        !attr.contains('='),
    ensures
        factor_union(g.factors@, set_at(g.bpi_view(), atom_of(attr, val))).subset_of(rows_with(g.objects_view(), attr, val)),
        covered(g) ==> factor_union(g.factors@, set_at(g.bpi_view(), atom_of(attr, val))) == rows_with(g.objects_view(), attr, val),
        complete(g) && g.bpi_view().contains_key(atom_of(attr, val)) ==>
            factor_union(g.factors@, set_at(g.bpi_view(), atom_of(attr, val))) == rows_with(g.objects_view(), attr, val),
{
    let a = atom_of(attr, val);
    let objs = g.objects_view();
    let fu = factor_union(g.factors@, set_at(g.bpi_view(), a));
    let rw = rows_with(objs, attr, val);
    lemma_atom_roundtrip(attr, val);
    assert forall|o: u32| fu.contains(o) implies rw.contains(o) by {
        let k = choose|k: u64| set_at(g.bpi_view(), a).contains(k) && g.factors@.contains_key(k) && #[trigger] g.factors@[k].extent@.contains(o);
        let intent = strings_view(g.factors@[k].intent@);
        assert(intent.contains(a));
        let i = choose|i: int| 0 <= i < intent.len() && intent[i] == a;
        assert(satisfies(intent, objs[o]));
        assert(atom_splits(intent[i]));
    }
    assert forall|o: u32| rw.contains(o) implies prop_atoms(objs[o]).contains(a) && objs.contains_key(o) by {
        assert(objs[o].contains_key(attr) && a == atom_of(attr, objs[o][attr]));
    }
    if covered(g) {
        assert forall|o: u32| rw.contains(o) implies fu.contains(o) by {
            assert(prop_atoms(objs[o]).contains(a));
            let k = choose|k: u64| {
                &&& #[trigger] g.factors@.contains_key(k)
                &&& strings_view(g.factors@[k].intent@).contains(a)
                &&& g.factors@[k].extent@.contains(o)
            };
            assert(set_at(g.bpi_view(), a).contains(k));
        }
        assert(fu =~= rw);
    }
    if complete(g) && g.bpi_view().contains_key(a) {
        assert forall|o: u32| rw.contains(o) implies fu.contains(o) by {
            assert(prop_atoms(objs[o]).contains(a));
            let k = choose|k: u64| {
                &&& #[trigger] set_at(g.bpi_view(), a).contains(k)
                &&& g.factors@.contains_key(k)
                &&& g.factors@[k].extent@.contains(o)
            };
        }
        assert(fu =~= rw);
    }
}

/// Answers in factor space and with fallback match rows only (`part`), and
/// all of them under `covered` (factor space) or `complete` (fallback).
proof fn lemma_filter_answer(g: FactorGraph, f: QueryFilter)
    requires
        sound(g),
        plain_filter(f),
    ensures
        g.eval_spec(f).subset_of(row_answer(g.objects_view(), f)),
        g.eval_fb_spec(f).0.subset_of(row_answer(g.objects_view(), f)),
        covered(g) ==> g.eval_spec(f) == row_answer(g.objects_view(), f),
        complete(g) ==> g.eval_fb_spec(f).0 == row_answer(g.objects_view(), f),
    decreases f,
{
    match f {
        QueryFilter::Eq { attribute, value } => {
            lemma_eq_answer(g, attribute@, value@);
        },
        QueryFilter::And(subs) => {
            lemma_all_answer(g, subs@);
        },
        QueryFilter::Or(subs) => {
            lemma_any_answer(g, subs@);
        },
    }
}

proof fn lemma_all_answer(g: FactorGraph, s: Seq<QueryFilter>)
    requires
        sound(g),
        plain_list(s),
    ensures
        g.eval_all_spec(s).subset_of(rows_all(g.objects_view(), s)),
        g.fb_all_spec(s).0.subset_of(rows_all(g.objects_view(), s)),
        covered(g) ==> g.eval_all_spec(s) == rows_all(g.objects_view(), s),
        complete(g) ==> g.fb_all_spec(s).0 == rows_all(g.objects_view(), s),
    decreases s,
{
    if s.len() == 0 {
    } else if s.len() == 1 {
        assert(s.drop_last().len() == 0);
        assert(s[0] == s.last());
        lemma_filter_answer(g, s[0]);
    } else {
        lemma_all_answer(g, s.drop_last());
        lemma_filter_answer(g, s.last());
        let objs = g.objects_view();
        if covered(g) {
            assert(g.eval_all_spec(s) =~= rows_all(objs, s));
        }
        if complete(g) {
            assert(g.fb_all_spec(s).0 =~= rows_all(objs, s));
        }
    }
}

proof fn lemma_any_answer(g: FactorGraph, s: Seq<QueryFilter>)
    requires
        sound(g),
        plain_list(s),
    ensures
        g.eval_any_spec(s).subset_of(rows_any(g.objects_view(), s)),
        g.fb_any_spec(s).0.subset_of(rows_any(g.objects_view(), s)),
        covered(g) ==> g.eval_any_spec(s) == rows_any(g.objects_view(), s),
        complete(g) ==> g.fb_any_spec(s).0 == rows_any(g.objects_view(), s),
    decreases s,
{
    if s.len() > 0 {
        lemma_any_answer(g, s.drop_last());
        lemma_filter_answer(g, s.last());
        let objs = g.objects_view();
        if covered(g) {
            assert(g.eval_any_spec(s) =~= rows_any(objs, s));
        }
        if complete(g) {
            assert(g.fb_any_spec(s).0 =~= rows_any(objs, s));
        }
    }
}

/// A query answered in factor space (`query`) returns only objects whose
/// stored rows match the filter, and exactly those when every atom of every
/// stored object is covered by a factor holding it; filters whose equalities
/// name attributes holding `=` are left out.
pub proof fn law_query_answers_rows(g: FactorGraph, f: QueryFilter)
    requires
        sound(g),
        plain_filter(f),
    ensures
        g.eval_spec(f).subset_of(row_answer(g.objects_view(), f)),
        covered(g) ==> g.eval_spec(f) == row_answer(g.objects_view(), f),
{
    lemma_filter_answer(g, f);
}

/// A query with fallback (`query_with_fallback`) returns only objects whose
/// stored rows match the filter, and exactly those when every atom the
/// property index knows leads each stored object holding it to a factor that
/// holds the object; filters whose equalities name attributes holding `=` are
/// left out.
pub proof fn law_fallback_answers_rows(g: FactorGraph, f: QueryFilter)
    requires
        sound(g),
        plain_filter(f),
    ensures
        g.eval_fb_spec(f).0.subset_of(row_answer(g.objects_view(), f)),
        complete(g) ==> g.eval_fb_spec(f).0 == row_answer(g.objects_view(), f),
{
    lemma_filter_answer(g, f);
}


/// Adding a factor under an id no factor has, whose extent holds only stored
/// objects satisfying its intent, keeps the graph sound (the views as
/// `add_factor` leaves them).
proof fn lemma_add_sound(old: FactorGraph, new: FactorGraph, f: Factor)
    requires
        sound(old),
        new.wf(),
        new.objects@ == old.objects@,
        new.factors@ == old.factors@.insert(f.id, f),
        new.boi_view() == index_add(old.boi_view(), f.extent@.to_set(), f.id),
        new.bpi_view() == index_add(old.bpi_view(), strings_view(f.intent@).to_set(), f.id),
        !old.factors@.contains_key(f.id),
        forall|o: u32| #[trigger] f.extent@.contains(o) ==> old.objects_view().contains_key(o) && satisfies(strings_view(f.intent@), old.objects_view()[o]),
    ensures
        sound(new),
{
    assert(new.objects_view() == old.objects_view());
    assert forall|a: Seq<char>, k: u64| #[trigger] set_at(new.bpi_view(), a).contains(k) <==> {
        &&& new.factors@.contains_key(k)
        &&& strings_view(new.factors@[k].intent@).contains(a)
    } by {
        if set_at(old.bpi_view(), a).contains(f.id) {
            assert(old.factors@.contains_key(f.id));
        }
    }
    assert forall|o: u32, k: u64| #[trigger] set_at(new.boi_view(), o).contains(k) <==> {
        &&& new.factors@.contains_key(k)
        &&& new.factors@[k].extent@.contains(o)
    } by {
        if set_at(old.boi_view(), o).contains(f.id) {
            assert(old.factors@.contains_key(f.id));
        }
    }
}

/// Adding a factor (`add_factor`) under an id no factor has, whose extent
/// holds only stored objects that satisfy its intent, keeps the graph sound.
pub proof fn law_add_factor_keeps_sound(old: FactorGraph, new: FactorGraph, f: Factor)
    requires
        sound(old),
        new.wf(),
        new.added_from(&old, f),
        !old.factors@.contains_key(f.id),
        forall|o: u32| #[trigger] f.extent@.contains(o) ==> old.objects_view().contains_key(o) && satisfies(strings_view(f.intent@), old.objects_view()[o]),
    ensures
        sound(new),
{
    lemma_add_sound(old, new, f);
}

/// Removing the stale operational factors (`evict_operational_factors`)
/// keeps the graph sound, and every structural factor stays as it was.
pub proof fn law_evict_keeps_sound(old: FactorGraph, new: FactorGraph, threshold: u64, order: Seq<u64>)
    requires
        sound(old),
        new.wf(),
        new.evicted_from(&old, old.stale_set(threshold), order),
    ensures
        sound(new),
        forall|k: u64| #[trigger] old.factors@.contains_key(k) && old.factors@[k].is_structural ==>
            new.factors@.contains_key(k) && new.factors@[k] == old.factors@[k],
{
    let ids = old.stale_set(threshold);
    assert(new.objects_view() == old.objects_view());
    assert forall|a: Seq<char>, k: u64| #[trigger] set_at(new.bpi_view(), a).contains(k) <==> {
        &&& new.factors@.contains_key(k)
        &&& strings_view(new.factors@[k].intent@).contains(a)
    } by {
        if new.factors@.contains_key(k) {
            assert(!ids.contains(k) && old.factors@.contains_key(k) && new.factors@[k] == old.factors@[k]);
        }
        if set_at(new.bpi_view(), a).contains(k) {
            assert(old.bpi_view().contains_key(a));
            assert(set_at(old.bpi_view(), a).contains(k));
            assert(!ids_holding_atom(old.factors@, ids, a).contains(k));
            assert(!ids.contains(k));
            assert(new.factors@.contains_key(k));
        }
        if new.factors@.contains_key(k) && strings_view(new.factors@[k].intent@).contains(a) {
            assert(set_at(old.bpi_view(), a).contains(k));
            assert(!ids_holding_atom(old.factors@, ids, a).contains(k));
        }
    }
    assert forall|o: u32, k: u64| #[trigger] set_at(new.boi_view(), o).contains(k) <==> {
        &&& new.factors@.contains_key(k)
        &&& new.factors@[k].extent@.contains(o)
    } by {
        if new.factors@.contains_key(k) {
            assert(!ids.contains(k) && old.factors@.contains_key(k) && new.factors@[k] == old.factors@[k]);
        }
        if set_at(new.boi_view(), o).contains(k) {
            assert(old.boi_view().contains_key(o));
            assert(set_at(old.boi_view(), o).contains(k));
            assert(!ids_holding_object(old.factors@, ids, o).contains(k));
            assert(!ids.contains(k));
            assert(new.factors@.contains_key(k));
        }
        if new.factors@.contains_key(k) && new.factors@[k].extent@.contains(o) {
            assert(set_at(old.boi_view(), o).contains(k));
            assert(!ids_holding_object(old.factors@, ids, o).contains(k));
        }
    }
}

/// When as many equalities as there are filters come out of a list, every
/// filter is an equality and gives the atom at its place.
proof fn lemma_eq_atom_list(s: Seq<QueryFilter>)
    ensures
        eq_atom_list(s).len() <= s.len(),
        eq_atom_list(s).len() == s.len() ==> forall|i: int| 0 <= i < s.len() ==> {
            &&& #[trigger] s[i] is Eq
            &&& eq_atom_list(s)[i] == atom_of(s[i]->Eq_attribute@, s[i]->Eq_value@)
        },
    decreases s.len(),
{
    if s.len() > 0 {
        let t = s.drop_last();
        lemma_eq_atom_list(t);
        if eq_atom_list(s).len() == s.len() {
            assert(s.last() is Eq);
            assert forall|i: int| 0 <= i < s.len() implies {
                &&& #[trigger] s[i] is Eq
                &&& eq_atom_list(s)[i] == atom_of(s[i]->Eq_attribute@, s[i]->Eq_value@)
            } by {
                if i < t.len() {
                    assert(s[i] == t[i]);
                } else {
                    assert(s[i] == s.last());
                }
            }
        }
    }
}

/// The objects a conjunction of equalities selects in factor space (no part
/// falling back to rows) satisfy each of its atoms.
proof fn lemma_conj_extent(g: FactorGraph, s: Seq<QueryFilter>, o: u32)
    requires
        sound(g),
        eq_atom_list(s).len() == s.len(),
        !g.fb_all_spec(s).1,
        g.fb_all_spec(s).0.contains(o),
    ensures
        g.objects_view().contains_key(o),
        satisfies(eq_atom_list(s), g.objects_view()[o]),
    decreases s.len(),
{
    lemma_eq_atom_list(s);
    let objs = g.objects_view();
    let last = s.last();
    let a = eq_atom_list(s)[s.len() - 1];
    assert(s[s.len() - 1] == last);
    assert(last is Eq);
    let b = g.eval_fb_spec(last);
    if s.len() == 1 {
        assert(b == g.fb_all_spec(s));
    } else {
        let t = s.drop_last();
        lemma_eq_atom_list(t);
        assert(eq_atom_list(s) == eq_atom_list(t).push(a));
        lemma_conj_extent(g, t, o);
    }
    assert(!b.1 && b.0.contains(o));
    assert(g.bpi_view().contains_key(a));
    assert(set_at(g.bpi_view(), a) == g.bpi_view()[a]);
    let k = choose|k: u64| set_at(g.bpi_view(), a).contains(k) && g.factors@.contains_key(k) && #[trigger] g.factors@[k].extent@.contains(o);
    let intent = strings_view(g.factors@[k].intent@);
    assert(intent.contains(a));
    let j = choose|j: int| 0 <= j < intent.len() && intent[j] == a;
    assert(satisfies(intent, objs[o]));
    assert(atom_splits(intent[j]));
    assert forall|i: int| 0 <= i < eq_atom_list(s).len() implies {
        &&& atom_splits(#[trigger] eq_atom_list(s)[i])
        &&& objs[o].contains_key(atom_attr(eq_atom_list(s)[i]))
        &&& objs[o][atom_attr(eq_atom_list(s)[i])] == atom_value(eq_atom_list(s)[i])
    } by {
        if i < s.len() - 1 {
            let t = s.drop_last();
            assert(eq_atom_list(s)[i] == eq_atom_list(t)[i]);
        }
    }
}

/// Sound graphs stay sound when only access counts, access times and
/// lifecycle records change.
proof fn lemma_accessed_sound(old: FactorGraph, mid: FactorGraph, hits: spec_fn(u64) -> nat)
    requires
        sound(old),
        mid.wf(),
        mid.accessed_from(&old.ticked(), hits),
    ensures
        sound(mid),
{
    let t = old.ticked();
    assert(mid.objects_view() == old.objects_view());
    assert(t.bpi_view() == old.bpi_view());
    assert(t.boi_view() == old.boi_view());
    assert forall|k: u64| #[trigger] mid.factors@.contains_key(k) implies mid.factors@[k].intent == old.factors@[k].intent
        && mid.factors@[k].extent == old.factors@[k].extent by {
        assert(old.factors@.contains_key(k));
    }
}

/// A query with fallback (`query_with_fallback`) keeps the graph sound: a
/// conjunction it materialises holds, in its extent, only objects that
/// satisfy its atoms.  Graphs holding a factor with the largest id are left
/// out (the next id would not be fresh).
pub proof fn law_query_keeps_sound(old: FactorGraph, new: FactorGraph, filter: QueryFilter, r: Set<u32>, m: Metrics, m0: Metrics)
    requires
        sound(old),
        !old.factors@.contains_key(u64::MAX),
        new.fallback_queried(&old, filter, r, m, m0),
    ensures
        sound(new),
{
    let mid = choose|mid: FactorGraph| {
        &&& #[trigger] mid.accessed_from(&old.ticked(), crate::graph::hits_fn(old.bpi_view(), filter))
        &&& mid.wf()
        &&& if !old.eval_fb_spec(filter).1 && filter is And {
            new.adapted_from(&mid, filter->And_0@, r)
        } else {
            new.same_state(&mid)
        }
    };
    lemma_accessed_sound(old, mid, crate::graph::hits_fn(old.bpi_view(), filter));
    if !old.eval_fb_spec(filter).1 && filter is And {
        let subs = filter->And_0@;
        if eq_atom_list(subs).len() == subs.len() && mid.materializes(subs) {
            let f = choose|f: Factor| {
                &&& #[trigger] new.added_from(&mid, f)
                &&& exists|mx: u64| is_max_key(mid.factors@.dom(), mx) && f.id == crate::metrics::advance(mx, 1)
                &&& f.extent@.to_set() == r
                &&& f.extent@.no_duplicates()
                &&& strings_view(f.intent@) == sort_strs(eq_atom_list(subs))
                &&& !f.is_structural
                &&& f.access_count == 0
                &&& f.created_at@.len() == 0
                &&& f.last_accessed@.len() == 0
            };
            let mx = choose|mx: u64| is_max_key(mid.factors@.dom(), mx) && f.id == crate::metrics::advance(mx, 1);
            assert(mid.factors@.dom() == old.factors@.dom());
            assert(mx < u64::MAX);
            assert(f.id == mx + 1);
            assert(!mid.factors@.contains_key(f.id));
            assert forall|o: u32| #[trigger] f.extent@.contains(o) implies mid.objects_view().contains_key(o)
                && satisfies(strings_view(f.intent@), mid.objects_view()[o]) by {
                assert(r.contains(o));
                assert(old.eval_fb_spec(filter) == old.fb_all_spec(subs));
                lemma_conj_extent(old, subs, o);
                assert(mid.objects_view() == old.objects_view());
                let p = old.objects_view()[o];
                let l = eq_atom_list(subs);
                let iv = strings_view(f.intent@);
                assert forall|i: int| 0 <= i < iv.len() implies {
                    &&& atom_splits(#[trigger] iv[i])
                    &&& p.contains_key(atom_attr(iv[i]))
                    &&& p[atom_attr(iv[i])] == atom_value(iv[i])
                } by {
                    lemma_sort_strs_contains(l, iv[i]);
                    assert(iv.contains(iv[i]));
                    let j = choose|j: int| 0 <= j < l.len() && l[j] == iv[i];
                    assert(atom_splits(l[j]));
                }
            }
            lemma_add_sound(mid, new, f);
        } else if eq_atom_list(subs).len() == subs.len() {
            assert(new.same_but_hits(&mid));
        } else {
            assert(new.same_state(&mid));
        }
    }
}


/// Every atom of a conjunction of equalities answered in factor space (no
/// part falling back to rows) is known to the property index.
proof fn lemma_conj_known(g: FactorGraph, s: Seq<QueryFilter>)
    requires
        eq_atom_list(s).len() == s.len(),
        !g.fb_all_spec(s).1,
    ensures
        forall|i: int| 0 <= i < s.len() ==> g.bpi_view().contains_key(#[trigger] eq_atom_list(s)[i]),
    decreases s.len(),
{
    lemma_eq_atom_list(s);
    if s.len() > 0 {
        let last = s.last();
        assert(s[s.len() - 1] == last);
        let b = g.eval_fb_spec(last);
        if s.len() == 1 {
            assert(b == g.fb_all_spec(s));
        } else {
            let t = s.drop_last();
            lemma_eq_atom_list(t);
            lemma_conj_known(g, t);
            assert forall|i: int| 0 <= i < t.len() implies eq_atom_list(s)[i] == eq_atom_list(t)[i] by {}
        }
        assert(!b.1);
        assert(g.bpi_view().contains_key(eq_atom_list(s)[s.len() - 1]));
        if s.len() > 1 {
            let t = s.drop_last();
            assert forall|i: int| 0 <= i < s.len() implies g.bpi_view().contains_key(#[trigger] eq_atom_list(s)[i]) by {
                if i < t.len() {
                    assert(eq_atom_list(s)[i] == eq_atom_list(t)[i]);
                }
            }
        }
    }
}

/// A query with fallback (`query_with_fallback`) keeps a sound graph
/// complete (see `complete`): access bookkeeping changes no extent, and a
/// materialised conjunction only names atoms the index already knows.
/// Graphs holding a factor with the largest id are left out.
pub proof fn law_query_keeps_complete(old: FactorGraph, new: FactorGraph, filter: QueryFilter, r: Set<u32>, m: Metrics, m0: Metrics)
    requires
        sound(old),
        complete(old),
        !old.factors@.contains_key(u64::MAX),
        new.fallback_queried(&old, filter, r, m, m0),
    ensures
        complete(new),
{
    let mid = choose|mid: FactorGraph| {
        &&& #[trigger] mid.accessed_from(&old.ticked(), crate::graph::hits_fn(old.bpi_view(), filter))
        &&& mid.wf()
        &&& if !old.eval_fb_spec(filter).1 && filter is And {
            new.adapted_from(&mid, filter->And_0@, r)
        } else {
            new.same_state(&mid)
        }
    };
    let t = old.ticked();
    assert(mid.objects_view() == old.objects_view());
    assert(t.bpi_view() == old.bpi_view());
    assert forall|k: u64| #[trigger] mid.factors@.contains_key(k) implies mid.factors@[k].extent == old.factors@[k].extent by {
        assert(old.factors@.contains_key(k));
    }
    assert(complete(mid));
    if !old.eval_fb_spec(filter).1 && filter is And {
        let subs = filter->And_0@;
        if eq_atom_list(subs).len() == subs.len() && mid.materializes(subs) {
            let f = choose|f: Factor| {
                &&& #[trigger] new.added_from(&mid, f)
                &&& exists|mx: u64| is_max_key(mid.factors@.dom(), mx) && f.id == crate::metrics::advance(mx, 1)
                &&& f.extent@.to_set() == r
                &&& f.extent@.no_duplicates()
                &&& strings_view(f.intent@) == sort_strs(eq_atom_list(subs))
                &&& !f.is_structural
                &&& f.access_count == 0
                &&& f.created_at@.len() == 0
                &&& f.last_accessed@.len() == 0
            };
            let mx = choose|mx: u64| is_max_key(mid.factors@.dom(), mx) && f.id == crate::metrics::advance(mx, 1);
            assert(mid.factors@.dom() == old.factors@.dom());
            assert(mx < u64::MAX);
            assert(!mid.factors@.contains_key(f.id));
            assert(old.eval_fb_spec(filter) == old.fb_all_spec(subs));
            lemma_conj_known(old, subs);
            let objs = new.objects_view();
            assert(objs == mid.objects_view());
            assert forall|o: u32, a: Seq<char>| objs.contains_key(o) && #[trigger] prop_atoms(objs[o]).contains(a)
                && new.bpi_view().contains_key(a) implies exists|k: u64| {
                    &&& #[trigger] set_at(new.bpi_view(), a).contains(k)
                    &&& new.factors@.contains_key(k)
                    &&& new.factors@[k].extent@.contains(o)
                } by {
                if !mid.bpi_view().contains_key(a) {
                    let l = eq_atom_list(subs);
                    assert(strings_view(f.intent@).to_set().contains(a));
                    assert(strings_view(f.intent@).contains(a));
                    lemma_sort_strs_contains(l, a);
                    let j = choose|j: int| 0 <= j < l.len() && l[j] == a;
                    assert(mid.bpi_view().contains_key(l[j]));
                }
                let k = choose|k: u64| {
                    &&& #[trigger] set_at(mid.bpi_view(), a).contains(k)
                    &&& mid.factors@.contains_key(k)
                    &&& mid.factors@[k].extent@.contains(o)
                };
                assert(k != f.id);
                assert(set_at(new.bpi_view(), a).contains(k));
            }
        } else if eq_atom_list(subs).len() == subs.len() {
            assert(new.same_but_hits(&mid));
        } else {
            assert(new.same_state(&mid));
        }
    }
}

/// Two ascending arrangements of the same samples are the same sequence.
proof fn lemma_ascending_unique(a: Seq<u64>, b: Seq<u64>)
    requires
        crate::bench::ascending(a),
        crate::bench::ascending(b),
        a.to_multiset() == b.to_multiset(),
    ensures
        a == b,
    decreases a.len(),
{
    a.to_multiset_ensures();
    b.to_multiset_ensures();
    if a.len() == 0 {
        assert(b.len() == 0);
        assert(a =~= b);
    } else {
        assert(b.len() == a.len());
        assert(a.contains(a[0]));
        assert(b.to_multiset().count(a[0]) > 0);
        assert(b.contains(a[0]));
        let j = choose|j: int| 0 <= j < b.len() && b[j] == a[0];
        assert(b[0] <= a[0]);
        assert(b.contains(b[0]));
        assert(a.to_multiset().count(b[0]) > 0);
        assert(a.contains(b[0]));
        let i = choose|i: int| 0 <= i < a.len() && a[i] == b[0];
        assert(a[0] <= b[0]);
        let ra = a.remove(0);
        let rb = b.remove(0);
        assert(ra.to_multiset() =~= a.to_multiset().remove(a[0]));
        assert(rb.to_multiset() =~= b.to_multiset().remove(b[0]));
        assert(crate::bench::ascending(ra)) by {
            assert forall|x: int, y: int| 0 <= x <= y < ra.len() implies ra[x] <= ra[y] by {
                assert(ra[x] == a[x + 1] && ra[y] == a[y + 1]);
            }
        }
        assert(crate::bench::ascending(rb)) by {
            assert forall|x: int, y: int| 0 <= x <= y < rb.len() implies rb[x] <= rb[y] by {
                assert(rb[x] == b[x + 1] && rb[y] == b[y + 1]);
            }
        }
        lemma_ascending_unique(ra, rb);
        assert forall|k: int| 0 <= k < a.len() implies a[k] == b[k] by {
            if k > 0 {
                assert(a[k] == ra[k - 1] && b[k] == rb[k - 1]);
            }
        }
        assert(a =~= b);
    }
}

/// The percentiles of one sample set are ordered like their ranks: the
/// `p`th is at most the `q`th when `p <= q` (so the reported p50 is at most
/// the p95, which is at most the p99).
pub proof fn law_percentiles_ordered(s: Seq<u64>, p: int, q: int, x: u64, y: u64)
    requires
        0 <= p <= q,
        crate::suite::is_percentile(x, s, p),
        crate::suite::is_percentile(y, s, q),
    ensures
        x <= y,
{
    if s.len() > 0 {
        let v = choose|v: Seq<u64>| #[trigger] crate::suite::arranged(v, s) && v.len() == s.len()
            && x == v[crate::bench::percentile_index(p, s.len() as int)];
        let w = choose|w: Seq<u64>| #[trigger] crate::suite::arranged(w, s) && w.len() == s.len()
            && y == w[crate::bench::percentile_index(q, s.len() as int)];
        lemma_ascending_unique(v, w);
        let n = s.len() as int;
        crate::bench::lemma_percentile_index_mono(p, q, n);
        crate::bench::lemma_percentile_index(p, n);
        crate::bench::lemma_percentile_index(q, n);
    }
}

/// Reading back a write: once an insert or update of object `o` with
/// properties `P` is applied (`apply_delta`), the row rebuilt for `o`
/// (`reconstruct_row`) is its id followed by `P`, the written values winning
/// over an `id` among them.
pub proof fn law_read_after_write(
    old: FactorGraph,
    new: FactorGraph,
    delta: Delta,
    m: Metrics,
    m0: Metrics,
    row: Map<Seq<char>, Seq<char>>,
)
    requires
        new.delta_applied(&old, delta, m, m0),
        delta.delta_type != DeltaType::Delete,
        new.row_of(spec_object_id(delta.operation_details@), row),
    ensures
        row == Map::<Seq<char>, Seq<char>>::empty().insert(crate::graph::id_key(), crate::text::decimal(spec_object_id(delta.operation_details@) as nat))
            .union_prefer_right(spec_properties(delta.operation_details@)),
{
    let o = spec_object_id(delta.operation_details@);
    assert(new.objects_view().contains_key(o));
    assert(new.objects@.contains_key(o));
    assert(new.objects_view()[o] == spec_properties(delta.operation_details@));
}

/// Reading back a delete: once the delete of object `o` is applied, the row
/// rebuilt for `o` holds nothing but its id.
pub proof fn law_read_after_delete(
    old: FactorGraph,
    new: FactorGraph,
    delta: Delta,
    m: Metrics,
    m0: Metrics,
    row: Map<Seq<char>, Seq<char>>,
)
    requires
        new.delta_applied(&old, delta, m, m0),
        delta.delta_type == DeltaType::Delete,
        new.row_of(spec_object_id(delta.operation_details@), row),
    ensures
        row == Map::<Seq<char>, Seq<char>>::empty().insert(crate::graph::id_key(), crate::text::decimal(spec_object_id(delta.operation_details@) as nat)),
{
    let o = spec_object_id(delta.operation_details@);
    assert(!new.objects_view().contains_key(o));
    assert(!new.objects@.contains_key(o));
    assert(!new.boi_view().contains_key(o));
    assert(set_at(new.boi_view(), o) =~= Set::<u64>::empty());
    let atoms = crate::graph::intent_atoms(new.factors@, set_at(new.boi_view(), o));
    assert(atoms =~= Set::<Seq<char>>::empty());
    let want = Map::<Seq<char>, Seq<char>>::empty().insert(crate::graph::id_key(), crate::text::decimal(o as nat));
    assert forall|k: Seq<char>| #[trigger] row.contains_key(k) implies k == crate::graph::id_key() by {
        if k != crate::graph::id_key() {
            assert(exists|a: Seq<char>| #[trigger] atoms.contains(a) && atom_attr(a) == k);
        }
    }
    assert(row.contains_key(crate::graph::id_key()));
    assert(row =~= want);
}

} // verus!
