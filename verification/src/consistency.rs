use vstd::prelude::*;
use crate::graph::{extended, ids_holding_atom, ids_holding_object, shrunk, strip_atoms, strip_objects, FactorGraph};
use crate::index::{index_remove, set_at, without};
use crate::metrics::Metrics;
use crate::types::{spec_object_id, strings_view, Delta, DeltaType, Factor, QueryFilter};

verus! {

/// The property index lists a factor under exactly the atoms of its intent.
pub open spec fn atoms_agree(g: FactorGraph) -> bool {
    forall|a: Seq<char>, k: u64| #[trigger] set_at(g.bpi_view(), a).contains(k) <==> {
        &&& g.factors@.contains_key(k)
        &&& strings_view(g.factors@[k].intent@).contains(a)
    }
}

/// The object index lists a factor under exactly the objects of its extent.
pub open spec fn objects_agree(g: FactorGraph) -> bool {
    forall|o: u32, k: u64| #[trigger] set_at(g.boi_view(), o).contains(k) <==> {
        &&& g.factors@.contains_key(k)
        &&& g.factors@[k].extent@.contains(o)
    }
}

/// Both indexes agree with the factors the graph holds.
pub open spec fn indexed(g: FactorGraph) -> bool {
    &&& g.wf()
    &&& atoms_agree(g)
    &&& objects_agree(g)
}

/// Every factor of `old` is still there in `new`, with the same intent.
pub open spec fn factors_kept(old: FactorGraph, new: FactorGraph) -> bool {
    forall|k: u64| #[trigger] old.factors@.contains_key(k) ==> {
        &&& new.factors@.contains_key(k)
        &&& new.factors@[k].intent == old.factors@[k].intent
    }
}

/// No factor's extent holds an object twice.
pub open spec fn extents_distinct(g: FactorGraph) -> bool {
    forall|k: u64| #[trigger] g.factors@.contains_key(k) ==> g.factors@[k].extent@.no_duplicates()
}

/// Dropping an object from an extent with no repeats leaves none.
proof fn lemma_without_distinct(s: Seq<u32>, x: u32)
    requires
        s.no_duplicates(),
    ensures
        without(s, x).no_duplicates(),
    decreases s.len(),
{
    if s.len() > 0 {
        let t = s.drop_last();
        assert(t.no_duplicates());
        lemma_without_distinct(t, x);
        crate::index::lemma_without(t, x);
        reveal_with_fuel(Seq::filter, 1);
        assert(without(s, x) == if s.last() != x { without(t, x).push(s.last()) } else { without(t, x) });
        if s.last() != x {
            assert(!t.contains(s.last()));
            assert(!without(t, x).contains(s.last()));
            let w = without(t, x).push(s.last());
            assert forall|i: int, j: int| 0 <= i < w.len() && 0 <= j < w.len() && i != j implies w[i] != w[j] by {
                if i < w.len() - 1 && j < w.len() - 1 {
                    assert(w[i] == without(t, x)[i] && w[j] == without(t, x)[j]);
                } else if i < w.len() - 1 {
                    assert(without(t, x).contains(w[i]));
                } else if j < w.len() - 1 {
                    assert(without(t, x).contains(w[j]));
                }
            }
        }
    }
}

/// Taking `o` into extents that do not hold it, or letting it go, keeps
/// every extent free of repeats.
proof fn lemma_attach_distinct(old: FactorGraph, new: FactorGraph, o: u32, g: Set<u64>)
    requires
        extents_distinct(old),
        new.attached_from(&old, o, g),
        forall|k: u64| #[trigger] g.contains(k) ==> old.factors@.contains_key(k) && !old.factors@[k].extent@.contains(o),
    ensures
        extents_distinct(new),
{
    assert forall|k: u64| #[trigger] new.factors@.contains_key(k) implies new.factors@[k].extent@.no_duplicates() by {
        assert(old.factors@.contains_key(k));
        if g.contains(k) {
            let e = old.factors@[k].extent@;
            assert(extended(new.factors@[k], old.factors@[k], o));
            let w = e.push(o);
            assert forall|i: int, j: int| 0 <= i < w.len() && 0 <= j < w.len() && i != j implies w[i] != w[j] by {
                if i < e.len() && j < e.len() {
                    assert(w[i] == e[i] && w[j] == e[j]);
                } else if i < e.len() {
                    assert(e.contains(w[i]));
                } else if j < e.len() {
                    assert(e.contains(w[j]));
                }
            }
        }
    }
}

/// Letting go of `o` in the factors of `g` keeps every extent free of repeats.
proof fn lemma_shrink_distinct(old: FactorGraph, new: FactorGraph, o: u32, g: Set<u64>)
    requires
        extents_distinct(old),
        new.shrunk_from(&old, o, g),
    ensures
        extents_distinct(new),
{
    assert forall|k: u64| #[trigger] new.factors@.contains_key(k) implies new.factors@[k].extent@.no_duplicates() by {
        assert(old.factors@.contains_key(k));
        if g.contains(k) {
            assert(shrunk(new.factors@[k], old.factors@[k], o));
            lemma_without_distinct(old.factors@[k].extent@, o);
        }
    }
}

/// Taking `o` into the extents of factors that do not hold it yet keeps
/// both indexes in agreement.
proof fn lemma_attach_agrees(old: FactorGraph, new: FactorGraph, o: u32, g: Set<u64>)
    requires
        atoms_agree(old),
        objects_agree(old),
        new.attached_from(&old, o, g),
        forall|k: u64| #[trigger] g.contains(k) ==> old.factors@.contains_key(k) && !old.factors@[k].extent@.contains(o),
    ensures
        atoms_agree(new),
        objects_agree(new),
        factors_kept(old, new),
        new.factors@.dom() == old.factors@.dom(),
{
    assert forall|k: u64| #[trigger] old.factors@.contains_key(k) implies new.factors@[k].intent == old.factors@[k].intent by {
        if g.contains(k) {
            assert(extended(new.factors@[k], old.factors@[k], o));
        }
    }
    assert forall|a: Seq<char>, k: u64| #[trigger] set_at(new.bpi_view(), a).contains(k) <==> {
        &&& new.factors@.contains_key(k)
        &&& strings_view(new.factors@[k].intent@).contains(a)
    } by {
        if old.factors@.contains_key(k) {
            assert(new.factors@[k].intent == old.factors@[k].intent);
        }
    }
    assert forall|x: u32, k: u64| #[trigger] set_at(new.boi_view(), x).contains(k) <==> {
        &&& new.factors@.contains_key(k)
        &&& new.factors@[k].extent@.contains(x)
    } by {
        let in_new = new.factors@.contains_key(k) && new.factors@[k].extent@.contains(x);
        let in_old = old.factors@.contains_key(k) && old.factors@[k].extent@.contains(x);
        if old.factors@.contains_key(k) && g.contains(k) {
            let e = old.factors@[k].extent@;
            assert(extended(new.factors@[k], old.factors@[k], o));
            assert(new.factors@[k].extent@ == e.push(o));
            assert(e.push(o)[e.len() as int] == o);
            if x != o && e.push(o).contains(x) {
                let i = choose|i: int| 0 <= i < e.push(o).len() && e.push(o)[i] == x;
                assert(e[i] == x);
            }
            if e.contains(x) {
                let i = choose|i: int| 0 <= i < e.len() && e[i] == x;
                assert(e.push(o)[i] == x);
            }
            assert(x != o ==> (in_new == in_old));
            assert(x == o ==> in_new);
        } else if old.factors@.contains_key(k) {
            assert(new.factors@[k] == old.factors@[k]);
        }
        if x == o {
            if g.is_empty() {
                assert(set_at(new.boi_view(), o) == set_at(old.boi_view(), o));
            } else {
                assert(set_at(new.boi_view(), o) == set_at(old.boi_view(), o).union(g));
            }
        } else {
            assert(set_at(new.boi_view(), x) == set_at(old.boi_view(), x));
        }
    }
}

/// Letting go of `o` in the factors of `g`, and dropping them from the ids
/// kept under `o`, keeps both indexes in agreement.
proof fn lemma_detach_agrees(old: FactorGraph, new: FactorGraph, o: u32, g: Set<u64>)
    requires
        atoms_agree(old),
        objects_agree(old),
        new.detached_from(&old, o, g),
    ensures
        atoms_agree(new),
        objects_agree(new),
        factors_kept(old, new),
        new.factors@.dom() == old.factors@.dom(),
{
    assert forall|k: u64| #[trigger] old.factors@.contains_key(k) implies new.factors@[k].intent == old.factors@[k].intent by {
        if g.contains(k) {
            assert(shrunk(new.factors@[k], old.factors@[k], o));
        }
    }
    assert forall|a: Seq<char>, k: u64| #[trigger] set_at(new.bpi_view(), a).contains(k) <==> {
        &&& new.factors@.contains_key(k)
        &&& strings_view(new.factors@[k].intent@).contains(a)
    } by {
        if old.factors@.contains_key(k) {
            assert(new.factors@[k].intent == old.factors@[k].intent);
        }
    }
    assert forall|x: u32, k: u64| #[trigger] set_at(new.boi_view(), x).contains(k) <==> {
        &&& new.factors@.contains_key(k)
        &&& new.factors@[k].extent@.contains(x)
    } by {
        let in_new = new.factors@.contains_key(k) && new.factors@[k].extent@.contains(x);
        let in_old = old.factors@.contains_key(k) && old.factors@[k].extent@.contains(x);
        if old.factors@.contains_key(k) {
            if g.contains(k) {
                assert(shrunk(new.factors@[k], old.factors@[k], o));
                crate::index::lemma_without(old.factors@[k].extent@, o);
                assert(in_new == (in_old && x != o));
            } else {
                assert(new.factors@[k] == old.factors@[k]);
                assert(in_new == in_old);
            }
        } else {
            assert(!new.factors@.contains_key(k));
            assert(!in_new && !in_old);
        }
        assert(in_old == set_at(old.boi_view(), x).contains(k));
        if x == o {
            if old.boi_view().contains_key(o) {
                assert(set_at(new.boi_view(), o) == old.boi_view()[o].difference(g));
                assert(set_at(old.boi_view(), o) == old.boi_view()[o]);
            } else {
                assert(set_at(new.boi_view(), o) == set_at(old.boi_view(), o));
                assert(!in_old);
                if g.contains(k) && old.factors@.contains_key(k) {
                    assert(in_new == in_old);
                }
            }
        } else {
            assert(set_at(new.boi_view(), x) == set_at(old.boi_view(), x));
        }
    }
}

/// Letting go of `o` in every factor the object index lists for it, and
/// dropping `o` from the object index, keeps both indexes in agreement.
proof fn lemma_delete_agrees(old: FactorGraph, new: FactorGraph, o: u32)
    requires
        atoms_agree(old),
        objects_agree(old),
        new.shrunk_from(&old, o, set_at(old.boi_view(), o).intersect(old.factors@.dom())),
        new.boi_view() == old.boi_view().remove(o),
    ensures
        atoms_agree(new),
        objects_agree(new),
        factors_kept(old, new),
{
    let g = set_at(old.boi_view(), o).intersect(old.factors@.dom());
    assert forall|k: u64| #[trigger] old.factors@.contains_key(k) implies new.factors@[k].intent == old.factors@[k].intent by {
        if g.contains(k) {
            assert(shrunk(new.factors@[k], old.factors@[k], o));
        }
    }
    assert forall|a: Seq<char>, k: u64| #[trigger] set_at(new.bpi_view(), a).contains(k) <==> {
        &&& new.factors@.contains_key(k)
        &&& strings_view(new.factors@[k].intent@).contains(a)
    } by {
        if old.factors@.contains_key(k) {
            assert(new.factors@[k].intent == old.factors@[k].intent);
        }
    }
    assert forall|x: u32, k: u64| #[trigger] set_at(new.boi_view(), x).contains(k) <==> {
        &&& new.factors@.contains_key(k)
        &&& new.factors@[k].extent@.contains(x)
    } by {
        if old.factors@.contains_key(k) {
            if g.contains(k) {
                assert(shrunk(new.factors@[k], old.factors@[k], o));
                crate::index::lemma_without(old.factors@[k].extent@, o);
            } else {
                assert(new.factors@[k] == old.factors@[k]);
                if x == o && old.factors@[k].extent@.contains(o) {
                    assert(set_at(old.boi_view(), o).contains(k));
                }
            }
        }
        if x == o {
            assert(set_at(new.boi_view(), o) =~= Set::<u64>::empty());
        } else {
            assert(set_at(new.boi_view(), x) == set_at(old.boi_view(), x));
        }
    }
}

/// Adding a factor under a fresh id keeps both indexes in agreement.
proof fn lemma_add_agrees(old: FactorGraph, new: FactorGraph, f: Factor)
    requires
        atoms_agree(old),
        objects_agree(old),
        new.added_from(&old, f),
        !old.factors@.contains_key(f.id),
    ensures
        atoms_agree(new),
        objects_agree(new),
        factors_kept(old, new),
{
    assert forall|a: Seq<char>, k: u64| #[trigger] set_at(new.bpi_view(), a).contains(k) <==> {
        &&& new.factors@.contains_key(k)
        &&& strings_view(new.factors@[k].intent@).contains(a)
    } by {
        let keys = strings_view(f.intent@).to_set();
        if keys.contains(a) {
            assert(set_at(new.bpi_view(), a) == set_at(old.bpi_view(), a).insert(f.id));
        } else {
            assert(set_at(new.bpi_view(), a) == set_at(old.bpi_view(), a));
        }
    }
    assert forall|x: u32, k: u64| #[trigger] set_at(new.boi_view(), x).contains(k) <==> {
        &&& new.factors@.contains_key(k)
        &&& new.factors@[k].extent@.contains(x)
    } by {
        let keys = f.extent@.to_set();
        if keys.contains(x) {
            assert(set_at(new.boi_view(), x) == set_at(old.boi_view(), x).insert(f.id));
        } else {
            assert(set_at(new.boi_view(), x) == set_at(old.boi_view(), x));
        }
    }
}

/// A new graph (`FactorGraph::new`) has both indexes in agreement with its
/// (no) factors, and no extent with a repeat.
pub proof fn law_new_graph_indexed(g: FactorGraph)
    requires
        g.wf(),
        g.boi@ == Map::<u32, std::collections::HashSet<u64>>::empty(),
        g.bpi@ == Map::<Seq<char>, std::collections::HashSet<u64>>::empty(),
        g.factors@ == Map::<u64, Factor>::empty(),
    ensures
        indexed(g),
        extents_distinct(g),
{
    assert(g.boi_view() =~= Map::<u32, Set<u64>>::empty());
    assert(g.bpi_view() =~= Map::<Seq<char>, Set<u64>>::empty());
}

/// The factors and indexes of `new` are those of `old` after
/// `remove_factor(id)`: the factor and its index entries gone, or nothing
/// changed when there is no such factor.
pub open spec fn removed_from(old: FactorGraph, new: FactorGraph, id: u64) -> bool {
    &&& !old.factors@.contains_key(id) ==> {
        &&& new.factors@ == old.factors@
        &&& new.boi_view() == old.boi_view()
        &&& new.bpi_view() == old.bpi_view()
    }
    &&& old.factors@.contains_key(id) ==> {
        let f = old.factors@[id];
        &&& new.factors@ == old.factors@.remove(id)
        &&& new.boi_view() == index_remove(old.boi_view(), f.extent@.to_set(), id)
        &&& new.bpi_view() == index_remove(old.bpi_view(), strings_view(f.intent@).to_set(), id)
    }
}

/// `new` is `old` after one of the graph's operations: adding a factor
/// under a fresh id with an extent free of repeats, removing a factor,
/// applying a delta, evicting the stale operational factors, or a query
/// with fallback (on a graph holding no factor with the largest id).
pub open spec fn graph_step(old: FactorGraph, new: FactorGraph) -> bool {
    ||| new.wf() && exists|f: Factor| #[trigger] new.added_from(&old, f) && !old.factors@.contains_key(f.id) && f.extent@.no_duplicates()
    ||| new.wf() && exists|id: u64| #[trigger] removed_from(old, new, id)
    ||| exists|delta: Delta, m: Metrics, m0: Metrics| #[trigger] new.delta_applied(&old, delta, m, m0)
    ||| new.wf() && exists|t: u64, order: Seq<u64>| #[trigger] new.evicted_from(&old, old.stale_set(t), order)
    ||| !old.factors@.contains_key(u64::MAX) && exists|f: QueryFilter, r: Set<u32>, m: Metrics, m0: Metrics|
        #[trigger] new.fallback_queried(&old, f, r, m, m0)
}

/// A graph whose indexes agree with its factors lists every factor under
/// each atom of its intent and each object of its extent: so a factor that
/// `add_factor` brought in is found by `factors_with_property` under each
/// of its atoms for as long as it stays.
pub proof fn law_factor_listed(g: FactorGraph, k: u64)
    requires
        indexed(g),
        g.factors@.contains_key(k),
    ensures
        forall|a: Seq<char>| #[trigger] strings_view(g.factors@[k].intent@).contains(a) ==> set_at(g.bpi_view(), a).contains(k),
        forall|o: u32| #[trigger] g.factors@[k].extent@.contains(o) ==> set_at(g.boi_view(), o).contains(k),
{
}

/// `add_factor` under an id no factor has keeps both indexes in agreement
/// with the factors, and lists the new factor under each atom of its intent;
/// with an extent free of repeats, it keeps every extent so.
pub proof fn law_add_factor_keeps_indexed(old: FactorGraph, new: FactorGraph, f: Factor)
    requires
        indexed(old),
        new.wf(),
        new.added_from(&old, f),
        !old.factors@.contains_key(f.id),
    ensures
        indexed(new),
        factors_kept(old, new),
        forall|a: Seq<char>| #[trigger] strings_view(f.intent@).contains(a) ==> set_at(new.bpi_view(), a).contains(f.id),
        extents_distinct(old) && f.extent@.no_duplicates() ==> extents_distinct(new),
{
    lemma_add_agrees(old, new, f);
}

/// `remove_factor` keeps both indexes in agreement with the factors and the
/// extents free of repeats, and every other factor stays with its intent.
pub proof fn law_remove_factor_keeps_indexed(old: FactorGraph, new: FactorGraph, id: u64)
    requires
        indexed(old),
        new.wf(),
        removed_from(old, new, id),
    ensures
        indexed(new),
        forall|k: u64| #[trigger] old.factors@.contains_key(k) && k != id ==> {
            &&& new.factors@.contains_key(k)
            &&& new.factors@[k].intent == old.factors@[k].intent
        },
        extents_distinct(old) ==> extents_distinct(new),
{
    if old.factors@.contains_key(id) {
        let f = old.factors@[id];
        assert forall|a: Seq<char>, k: u64| #[trigger] set_at(new.bpi_view(), a).contains(k) <==> {
            &&& new.factors@.contains_key(k)
            &&& strings_view(new.factors@[k].intent@).contains(a)
        } by {
            if old.bpi_view().contains_key(a) && strings_view(f.intent@).to_set().contains(a) {
                assert(set_at(new.bpi_view(), a) == set_at(old.bpi_view(), a).remove(id));
            } else {
                assert(set_at(new.bpi_view(), a) == set_at(old.bpi_view(), a));
                if k == id && strings_view(f.intent@).contains(a) {
                    assert(set_at(old.bpi_view(), a).contains(id));
                }
            }
        }
        assert forall|x: u32, k: u64| #[trigger] set_at(new.boi_view(), x).contains(k) <==> {
            &&& new.factors@.contains_key(k)
            &&& new.factors@[k].extent@.contains(x)
        } by {
            if old.boi_view().contains_key(x) && f.extent@.to_set().contains(x) {
                assert(set_at(new.boi_view(), x) == set_at(old.boi_view(), x).remove(id));
            } else {
                assert(set_at(new.boi_view(), x) == set_at(old.boi_view(), x));
                if k == id && f.extent@.contains(x) {
                    assert(set_at(old.boi_view(), x).contains(id));
                }
            }
        }
    }
}

/// Applying a delta (`apply_delta`) keeps both indexes in agreement with
/// the factors and the extents free of repeats, whatever the delta, and
/// keeps every factor with its intent.
pub proof fn law_delta_keeps_indexed(old: FactorGraph, new: FactorGraph, delta: Delta, m: Metrics, m0: Metrics)
    requires
        indexed(old),
        new.delta_applied(&old, delta, m, m0),
    ensures
        indexed(new),
        factors_kept(old, new),
        extents_distinct(old) ==> extents_distinct(new),
{
    let o = spec_object_id(delta.operation_details@);
    let pv = crate::types::spec_properties(delta.operation_details@);
    match delta.delta_type {
        DeltaType::Insert => {
            let g = old.attach_set(o, pv, crate::graph::prop_atoms(pv));
            lemma_attach_agrees(old, new, o, g);
            if extents_distinct(old) {
                lemma_attach_distinct(old, new, o, g);
            }
        },
        DeltaType::Update => {
            let before = crate::graph::props_at(old.objects_view(), o);
            let d = old.detach_set(o, pv, crate::graph::prop_atoms(before).difference(crate::graph::prop_atoms(pv)));
            let a = old.attach_set(o, pv, crate::graph::prop_atoms(pv).difference(crate::graph::prop_atoms(before)));
            let mid = choose|mid: FactorGraph| #[trigger] mid.detached_from(&old, o, d) && new.attached_from(&mid, o, a);
            lemma_detach_agrees(old, mid, o, d);
            assert forall|k: u64| #[trigger] a.contains(k) implies mid.factors@.contains_key(k) && !mid.factors@[k].extent@.contains(o) by {
                assert(old.attaches(k, o, pv, crate::graph::prop_atoms(pv).difference(crate::graph::prop_atoms(before))));
                assert(!d.contains(k));
                assert(mid.factors@[k] == old.factors@[k]);
            }
            lemma_attach_agrees(mid, new, o, a);
            if extents_distinct(old) {
                lemma_shrink_distinct(old, mid, o, d);
                lemma_attach_distinct(mid, new, o, a);
            }
        },
        DeltaType::Delete => {
            lemma_delete_agrees(old, new, o);
            if extents_distinct(old) {
                lemma_shrink_distinct(old, new, o, set_at(old.boi_view(), o).intersect(old.factors@.dom()));
            }
        },
    }
}

/// Removing the stale operational factors (`evict_operational_factors`)
/// keeps both indexes in agreement with the factors and the extents free of
/// repeats.
pub proof fn law_evict_keeps_indexed(old: FactorGraph, new: FactorGraph, threshold: u64, order: Seq<u64>)
    requires
        indexed(old),
        new.wf(),
        new.evicted_from(&old, old.stale_set(threshold), order),
    ensures
        indexed(new),
        extents_distinct(old) ==> extents_distinct(new),
{
    let ids = old.stale_set(threshold);
    assert forall|a: Seq<char>, k: u64| #[trigger] set_at(new.bpi_view(), a).contains(k) <==> {
        &&& new.factors@.contains_key(k)
        &&& strings_view(new.factors@[k].intent@).contains(a)
    } by {
        if new.factors@.contains_key(k) {
            assert(!ids.contains(k) && old.factors@.contains_key(k) && new.factors@[k] == old.factors@[k]);
        }
        if set_at(new.bpi_view(), a).contains(k) {
            assert(old.bpi_view().contains_key(a));
            assert(set_at(old.bpi_view(), a).contains(k));
            assert(!ids_holding_atom(old.factors@, ids, a).contains(k));
            assert(!ids.contains(k));
            assert(new.factors@.contains_key(k));
        }
        if new.factors@.contains_key(k) && strings_view(new.factors@[k].intent@).contains(a) {
            assert(set_at(old.bpi_view(), a).contains(k));
            assert(!ids_holding_atom(old.factors@, ids, a).contains(k));
        }
    }
    assert forall|x: u32, k: u64| #[trigger] set_at(new.boi_view(), x).contains(k) <==> {
        &&& new.factors@.contains_key(k)
        &&& new.factors@[k].extent@.contains(x)
    } by {
        if new.factors@.contains_key(k) {
            assert(!ids.contains(k) && old.factors@.contains_key(k) && new.factors@[k] == old.factors@[k]);
        }
        if set_at(new.boi_view(), x).contains(k) {
            assert(old.boi_view().contains_key(x));
            assert(set_at(old.boi_view(), x).contains(k));
            assert(!ids_holding_object(old.factors@, ids, x).contains(k));
            assert(!ids.contains(k));
            assert(new.factors@.contains_key(k));
        }
        if new.factors@.contains_key(k) && new.factors@[k].extent@.contains(x) {
            assert(set_at(old.boi_view(), x).contains(k));
            assert(!ids_holding_object(old.factors@, ids, x).contains(k));
        }
    }
}

/// A query with fallback (`query_with_fallback`) keeps both indexes in
/// agreement with the factors and the extents free of repeats, and keeps
/// every factor with its intent.
/// Graphs holding a factor with the largest id are left out (the id of a
/// materialised conjunction would not be fresh).
pub proof fn law_query_keeps_indexed(old: FactorGraph, new: FactorGraph, filter: QueryFilter, r: Set<u32>, m: Metrics, m0: Metrics)
    requires
        indexed(old),
        !old.factors@.contains_key(u64::MAX),
        new.fallback_queried(&old, filter, r, m, m0),
    ensures
        indexed(new),
        factors_kept(old, new),
        extents_distinct(old) ==> extents_distinct(new),
{
    let mid = choose|mid: FactorGraph| {
        &&& #[trigger] mid.accessed_from(&old.ticked(), crate::graph::hits_fn(old.bpi_view(), filter))
        &&& mid.wf()
        &&& if !old.eval_fb_spec(filter).1 && filter is And {
            new.adapted_from(&mid, filter->And_0@, r)
        } else {
            new.same_state(&mid)
        }
    };
    assert(old.ticked().factors@ == old.factors@);
    assert(old.ticked().bpi_view() == old.bpi_view());
    assert(old.ticked().boi_view() == old.boi_view());
    assert forall|k: u64| #[trigger] old.factors@.contains_key(k) implies {
        &&& mid.factors@.contains_key(k)
        &&& mid.factors@[k].intent == old.factors@[k].intent
        &&& mid.factors@[k].extent == old.factors@[k].extent
    } by {
        assert(mid.factors@[k] == crate::graph::with_accesses(old.factors@[k], crate::graph::hits_fn(old.bpi_view(), filter)(k)));
    }
    assert(atoms_agree(mid));
    assert(objects_agree(mid));
    if !old.eval_fb_spec(filter).1 && filter is And {
        let subs = filter->And_0@;
        if crate::graph::eq_atom_list(subs).len() == subs.len() && mid.materializes(subs) {
            let f = choose|f: Factor| {
                &&& #[trigger] new.added_from(&mid, f)
                &&& exists|mx: u64| crate::graph::is_max_key(mid.factors@.dom(), mx) && f.id == crate::metrics::advance(mx, 1)
                &&& f.extent@.to_set() == r
                &&& f.extent@.no_duplicates()
                &&& strings_view(f.intent@) == crate::text::sort_strs(crate::graph::eq_atom_list(subs))
                &&& !f.is_structural
                &&& f.access_count == 0
                &&& f.created_at@.len() == 0
                &&& f.last_accessed@.len() == 0
            };
            let mx = choose|mx: u64| crate::graph::is_max_key(mid.factors@.dom(), mx) && f.id == crate::metrics::advance(mx, 1);
            assert(mid.factors@.dom() == old.factors@.dom());
            assert(mx < u64::MAX);
            assert(f.id == mx + 1);
            assert(!mid.factors@.contains_key(f.id));
            lemma_add_agrees(mid, new, f);
        }
    }
    if extents_distinct(old) {
        assert(extents_distinct(mid));
    }
}


/// Every graph reached from a new graph by the graph's operations (see
/// `graph_step`) has both indexes in agreement with its factors and no
/// extent with a repeat; so `factors_with_property` lists each factor it
/// holds under every atom of its intent (see `law_factor_listed`).
pub proof fn law_reached_graphs_indexed(gs: Seq<FactorGraph>)
    requires
        gs.len() >= 1,
        gs[0].wf(),
        gs[0].boi@ == Map::<u32, std::collections::HashSet<u64>>::empty(),
        gs[0].bpi@ == Map::<Seq<char>, std::collections::HashSet<u64>>::empty(),
        gs[0].factors@ == Map::<u64, Factor>::empty(),
        forall|k: int| 0 <= k < gs.len() - 1 ==> #[trigger] graph_step(gs[k], gs[k + 1]),
    ensures
        forall|k: int| 0 <= k < gs.len() ==> indexed(#[trigger] gs[k]) && extents_distinct(gs[k]),
    decreases gs.len(),
{
    if gs.len() == 1 {
        law_new_graph_indexed(gs[0]);
    } else {
        let t = gs.drop_last();
        assert forall|k: int| 0 <= k < t.len() - 1 implies #[trigger] graph_step(t[k], t[k + 1]) by {
            assert(graph_step(gs[k], gs[k + 1]));
        }
        law_reached_graphs_indexed(t);
        let n = gs.len() - 1;
        let a = gs[n - 1];
        let b = gs[n];
        assert(t[n - 1] == a);
        assert(indexed(a) && extents_distinct(a));
        assert(graph_step(gs[n - 1], gs[(n - 1) + 1]));
        if b.wf() && exists|f: Factor| #[trigger] b.added_from(&a, f) && !a.factors@.contains_key(f.id) && f.extent@.no_duplicates() {
            let f = choose|f: Factor| #[trigger] b.added_from(&a, f) && !a.factors@.contains_key(f.id) && f.extent@.no_duplicates();
            law_add_factor_keeps_indexed(a, b, f);
        } else if b.wf() && exists|id: u64| #[trigger] removed_from(a, b, id) {
            let id = choose|id: u64| #[trigger] removed_from(a, b, id);
            law_remove_factor_keeps_indexed(a, b, id);
        } else if exists|delta: Delta, m: Metrics, m0: Metrics| #[trigger] b.delta_applied(&a, delta, m, m0) {
            let (delta, m, m0) = choose|delta: Delta, m: Metrics, m0: Metrics| #[trigger] b.delta_applied(&a, delta, m, m0);
            law_delta_keeps_indexed(a, b, delta, m, m0);
        } else if b.wf() && exists|t: u64, order: Seq<u64>| #[trigger] b.evicted_from(&a, a.stale_set(t), order) {
            let (th, order) = choose|t: u64, order: Seq<u64>| #[trigger] b.evicted_from(&a, a.stale_set(t), order);
            law_evict_keeps_indexed(a, b, th, order);
        } else {
            let (f, r, m, m0) = choose|f: QueryFilter, r: Set<u32>, m: Metrics, m0: Metrics| #[trigger] b.fallback_queried(&a, f, r, m, m0);
            law_query_keeps_indexed(a, b, f, r, m, m0);
        }
        assert forall|k: int| 0 <= k < gs.len() implies indexed(#[trigger] gs[k]) && extents_distinct(gs[k]) by {
            if k < n {
                assert(gs[k] == t[k]);
            }
        }
    }
}


/// A factor held before and after one of the graph's operations keeps its
/// intent.
proof fn lemma_step_keeps_intent(a: FactorGraph, b: FactorGraph, id: u64)
    requires
        indexed(a),
        graph_step(a, b),
        a.factors@.contains_key(id),
        b.factors@.contains_key(id),
    ensures
        b.factors@[id].intent == a.factors@[id].intent,
{
    if b.wf() && exists|f: Factor| #[trigger] b.added_from(&a, f) && !a.factors@.contains_key(f.id) && f.extent@.no_duplicates() {
        let f = choose|f: Factor| #[trigger] b.added_from(&a, f) && !a.factors@.contains_key(f.id) && f.extent@.no_duplicates();
        assert(f.id != id);
    } else if b.wf() && exists|r: u64| #[trigger] removed_from(a, b, r) {
        let r = choose|r: u64| #[trigger] removed_from(a, b, r);
    } else if exists|delta: Delta, m: Metrics, m0: Metrics| #[trigger] b.delta_applied(&a, delta, m, m0) {
        let (delta, m, m0) = choose|delta: Delta, m: Metrics, m0: Metrics| #[trigger] b.delta_applied(&a, delta, m, m0);
        law_delta_keeps_indexed(a, b, delta, m, m0);
    } else if b.wf() && exists|t: u64, order: Seq<u64>| #[trigger] b.evicted_from(&a, a.stale_set(t), order) {
        let (th, order) = choose|t: u64, order: Seq<u64>| #[trigger] b.evicted_from(&a, a.stale_set(t), order);
    } else {
        let (f, r, m, m0) = choose|f: QueryFilter, r: Set<u32>, m: Metrics, m0: Metrics| #[trigger] b.fallback_queried(&a, f, r, m, m0);
        law_query_keeps_indexed(a, b, f, r, m, m0);
    }
}

/// A factor that `add_factor` brought into a graph reached from a new graph
/// stays listed under each atom of its intent (so `factors_with_property`
/// finds it there) for as long as the graph holds it, whatever operations
/// follow (see `graph_step`).
pub proof fn law_added_factor_stays_listed(gs: Seq<FactorGraph>, j: int, f: Factor)
    requires
        gs.len() >= 1,
        gs[0].wf(),
        gs[0].boi@ == Map::<u32, std::collections::HashSet<u64>>::empty(),
        gs[0].bpi@ == Map::<Seq<char>, std::collections::HashSet<u64>>::empty(),
        gs[0].factors@ == Map::<u64, Factor>::empty(),
        forall|k: int| 0 <= k < gs.len() - 1 ==> #[trigger] graph_step(gs[k], gs[k + 1]),
        0 <= j < gs.len() - 1,
        gs[j + 1].added_from(&gs[j], f),
        forall|k: int| j < k < gs.len() ==> (#[trigger] gs[k]).factors@.contains_key(f.id),
    ensures
        forall|k: int, a: Seq<char>| j < k < gs.len() && #[trigger] strings_view(f.intent@).contains(a)
            ==> set_at((#[trigger] gs[k]).bpi_view(), a).contains(f.id),
{
    law_reached_graphs_indexed(gs);
    assert forall|k: int, a: Seq<char>| j < k < gs.len() && #[trigger] strings_view(f.intent@).contains(a)
        implies set_at((#[trigger] gs[k]).bpi_view(), a).contains(f.id) by {
        lemma_intent_since(gs, j, f, k);
        assert(indexed(gs[k]));
    }
}

/// From its addition on, the graphs of a run hold the factor with the
/// intent it was added with.
proof fn lemma_intent_since(gs: Seq<FactorGraph>, j: int, f: Factor, k: int)
    requires
        forall|k: int| 0 <= k < gs.len() - 1 ==> #[trigger] graph_step(gs[k], gs[k + 1]),
        forall|k: int| 0 <= k < gs.len() ==> indexed(#[trigger] gs[k]) && extents_distinct(gs[k]),
        0 <= j < gs.len() - 1,
        gs[j + 1].added_from(&gs[j], f),
        forall|k: int| j < k < gs.len() ==> (#[trigger] gs[k]).factors@.contains_key(f.id),
        j < k < gs.len(),
    ensures
        gs[k].factors@[f.id].intent == f.intent,
    decreases k,
{
    if k > j + 1 {
        lemma_intent_since(gs, j, f, k - 1);
        assert(graph_step(gs[k - 1], gs[(k - 1) + 1]));
        assert(gs[k - 1].factors@.contains_key(f.id));
        lemma_step_keeps_intent(gs[k - 1], gs[k], f.id);
    } else {
        assert(gs[k].factors@ == gs[j].factors@.insert(f.id, f));
    }
}

} // verus!
