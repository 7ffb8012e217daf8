use std::collections::{HashMap, HashSet};
use vstd::prelude::*;
use vstd::std_specs::iter::IteratorSpec;
use crate::text::{atom_of, make_atom};
use crate::types::{clone_props, strings_view, props_view, Factor, ObjectId, PropMap, PropertyAtom};

verus! {

broadcast use vstd::std_specs::hash::group_hash_axioms;

/// The set a `HashSet` holds is finite.
pub proof fn lemma_hashset_finite(s: &HashSet<u32>)
    ensures
        s@.finite(),
{
    broadcast use vstd::seq_lib::seq_to_set_is_finite;

    let r = vstd::std_specs::hash::spec_hash_keys_iter(s).remaining();
    assert(r.unref().to_set().finite());
}

/// Total number of elements over a sequence of sets.
pub open spec fn total(s: Seq<Set<u32>>) -> nat
    decreases s.len(),
{
    if s.len() == 0 {
        0
    } else {
        total(s.drop_last()) + s.last().len()
    }
}

pub proof fn lemma_total_update(s: Seq<Set<u32>>, i: int, t: Set<u32>)
    requires
        0 <= i < s.len(),
    ensures
        total(s.update(i, t)) == total(s) - s[i].len() + t.len(),
    decreases s.len(),
{
    let u = s.update(i, t);
    if i == s.len() - 1 {
        assert(u.drop_last() =~= s.drop_last());
    } else {
        assert(u.drop_last() =~= s.drop_last().update(i, t));
        lemma_total_update(s.drop_last(), i, t);
    }
}

/// The views of a sequence of hash sets.
pub open spec fn sets_view(v: Seq<HashSet<u32>>) -> Seq<Set<u32>> {
    v.map_values(|h: HashSet<u32>| h@)
}

/// The (object, atom) pairs recorded per atom: `sets[i]` holds the objects
/// paired with `atoms[i]`.
pub open spec fn pairs_of(atoms: Seq<Seq<char>>, sets: Seq<Set<u32>>) -> Set<(u32, Seq<char>)> {
    Set::new(
        |p: (u32, Seq<char>)|
            exists|i: int| 0 <= i < atoms.len() && i < sets.len() && atoms[i] == p.1 && sets[i].contains(p.0),
    )
}

/// With distinct atoms, removing one object from one atom's set removes exactly that pair.
pub proof fn lemma_pairs_remove(atoms: Seq<Seq<char>>, sets: Seq<Set<u32>>, i: int, o: u32)
    requires
        atoms.no_duplicates(),
        atoms.len() == sets.len(),
        0 <= i < sets.len(),
    ensures
        pairs_of(atoms, sets.update(i, sets[i].remove(o))) == pairs_of(atoms, sets).remove((o, atoms[i])),
{
    let u = sets.update(i, sets[i].remove(o));
    assert forall|p: (u32, Seq<char>)| pairs_of(atoms, u).contains(p) <==> pairs_of(atoms, sets).remove((o, atoms[i])).contains(p) by {
        if pairs_of(atoms, u).contains(p) {
            let j = choose|j: int| 0 <= j < atoms.len() && j < u.len() && atoms[j] == p.1 && u[j].contains(p.0);
            assert(sets[j].contains(p.0));
            if p == (o, atoms[i]) {
                assert(j == i);
            }
        }
        if pairs_of(atoms, sets).remove((o, atoms[i])).contains(p) {
            let j = choose|j: int| 0 <= j < atoms.len() && j < sets.len() && atoms[j] == p.1 && sets[j].contains(p.0);
            if j == i {
                assert(p.0 != o);
            }
            assert(u[j].contains(p.0));
        }
    }
    assert(pairs_of(atoms, u) =~= pairs_of(atoms, sets).remove((o, atoms[i])));
}

/// The (object, atom) pairs that a factor's rectangle covers.
pub open spec fn rect(f: Factor) -> Set<(u32, Seq<char>)> {
    Set::new(|p: (u32, Seq<char>)| f.extent@.contains(p.0) && f.intent_view().contains(p.1))
}

/// Pairs `(ext[j2], iv[m2])` taken in row-major order strictly before `(j, m)`.
pub open spec fn done_pairs(ext: Seq<u32>, iv: Seq<Seq<char>>, j: int, m: int) -> Set<(u32, Seq<char>)> {
    Set::new(
        |p: (u32, Seq<char>)|
            exists|j2: int, m2: int|
                0 <= j2 < ext.len() && 0 <= m2 < iv.len() && ext[j2] == p.0 && iv[m2] == p.1 && (j2 < j || (j2 == j
                    && m2 < m)),
    )
}

/// The (object, atom) pairs of a list of objects with their properties.
pub open spec fn object_pairs(objs: Seq<(ObjectId, PropMap)>) -> Set<(u32, Seq<char>)> {
    Set::new(
        |p: (u32, Seq<char>)|
            exists|k: int, attr: Seq<char>|
                0 <= k < objs.len() && objs[k].0 == p.0 && #[trigger] props_view(objs[k].1).contains_key(attr)
                    && p.1 == atom_of(attr, props_view(objs[k].1)[attr]),
    )
}

/// The objects of a list keyed by id; a later entry replaces an earlier one.
pub open spec fn objects_map(objs: Seq<(ObjectId, PropMap)>) -> Map<u32, Map<Seq<char>, Seq<char>>>
    decreases objs.len(),
{
    if objs.len() == 0 {
        Map::empty()
    } else {
        objects_map(objs.drop_last()).insert(objs.last().0, props_view(objs.last().1))
    }
}

/// Every set holds some object.
pub open spec fn all_nonempty(sets: Seq<Set<u32>>) -> bool {
    forall|i: int| 0 <= i < sets.len() ==> #[trigger] has_some(sets[i])
}

/// Some pair holds the atom `a`.
pub open spec fn atom_in_pairs(pairs: Set<(u32, Seq<char>)>, a: Seq<char>) -> bool {
    exists|o: u32| pairs.contains((o, a))
}

/// The set holds some object.
pub open spec fn has_some(s: Set<u32>) -> bool {
    exists|o: u32| s.contains(o)
}

/// One greedy step from cover `a` to cover `b`: factor `f` is the largest
/// rectangle left in `a` (see `is_rectangle_from`), and `b` is `a` with the
/// pairs of `f` covered.
pub open spec fn greedy_step(a: GreedyCover, b: GreedyCover, f: Factor) -> bool {
    &&& a.wf()
    &&& b.atoms@ == a.atoms@
    &&& exists|i: int| #[trigger] a.is_rectangle_from(i, f.extent@.to_set(), f.intent_view())
    &&& b.uncovered_pairs() == a.uncovered_pairs().difference(rect(f))
}

/// The factors were built greedily: `steps[k]` is the cover before factor
/// `k` and `steps[k + 1]` the cover after it, from `first` to `last`.
pub open spec fn greedy_run(steps: Seq<GreedyCover>, factors: Seq<Factor>, first: GreedyCover, last: GreedyCover) -> bool {
    &&& steps.len() == factors.len() + 1
    &&& steps[0] == first
    &&& steps[factors.len() as int] == last
    &&& forall|k: int| 0 <= k < factors.len() ==> #[trigger] greedy_step(steps[k], steps[k + 1], factors[k])
}

/// `fs` is what the greedy cover builds from a relation of `pairs`, all of
/// them uncovered to begin with (see `greedy_run`).
pub open spec fn greedy_cover_of(pairs: Set<(u32, Seq<char>)>, fs: Seq<Factor>) -> bool {
    exists|c: GreedyCover, steps: Seq<GreedyCover>, last: GreedyCover| {
        &&& c.relation_pairs() == pairs
        &&& c.uncovered_pairs() == c.relation_pairs()
        &&& #[trigger] greedy_run(steps, fs, c, last)
    }
}

/// Greedy biclique cover of the object/atom relation.
pub struct GreedyCover {
    /// All objects: object_id -> (attribute -> value)
    pub objects: HashMap<ObjectId, PropMap>,
    /// The distinct property atoms (e.g. "Role=Admin")
    pub atoms: Vec<PropertyAtom>,
    /// Binary relation, per atom: `relation[i]` holds the objects that have `atoms[i]`
    pub relation: Vec<HashSet<ObjectId>>,
    /// Pairs not yet covered by any factor, per atom
    pub uncovered: Vec<HashSet<ObjectId>>,
}

/// Index of `a` in `atoms`, if present.
fn find_atom(atoms: &Vec<String>, a: &String) -> (r: Option<usize>)
    ensures
        match r {
            Some(i) => i < atoms@.len() && atoms@[i as int]@ == a@,
            None => forall|i: int| 0 <= i < atoms@.len() ==> atoms@[i]@ != a@,
        },
{
    let n = atoms.len();
    for i in 0..n
        invariant
            n == atoms@.len(),
            forall|j: int| 0 <= j < i ==> atoms@[j]@ != a@,
    {
        if atoms[i] == *a {
            return Some(i);
        }
    }
    None
}

impl GreedyCover {
    pub open spec fn atoms_view(&self) -> Seq<Seq<char>> {
        strings_view(self.atoms@)
    }

    /// All (object, atom) pairs of the relation.
    pub open spec fn relation_pairs(&self) -> Set<(u32, Seq<char>)> {
        pairs_of(self.atoms_view(), sets_view(self.relation@))
    }

    /// The pairs that no factor covers yet.
    pub open spec fn uncovered_pairs(&self) -> Set<(u32, Seq<char>)> {
        pairs_of(self.atoms_view(), sets_view(self.uncovered@))
    }

    pub open spec fn wf(&self) -> bool {
        &&& self.atoms_view().no_duplicates()
        &&& self.relation@.len() == self.atoms@.len()
        &&& self.uncovered@.len() == self.atoms@.len()
        &&& forall|i: int| 0 <= i < self.atoms@.len() ==> #[trigger] self.uncovered@[i]@.subset_of(self.relation@[i]@)
    }

    /// `b` is an atom whose set of uncovered objects is non-empty and of maximal size.
    pub open spec fn is_largest(&self, b: int) -> bool {
        &&& 0 <= b < self.uncovered@.len()
        &&& !self.uncovered@[b]@.is_empty()
        &&& forall|i: int| 0 <= i < self.uncovered@.len() ==> #[trigger] self.uncovered@[i]@.len() <= self.uncovered@[b]@.len()
    }

    /// `(ext, intent)` is the rectangle grown from atom `b`: its extent is the
    /// set of objects that still have `atoms[b]` uncovered, and its intent is
    /// `atoms[b]` followed by every other atom that every object of the extent
    /// still has uncovered.
    pub open spec fn is_rectangle_from(&self, b: int, ext: Set<u32>, intent: Seq<Seq<char>>) -> bool {
        &&& self.is_largest(b)
        &&& ext == self.uncovered@[b]@
        &&& intent.len() >= 1
        &&& intent[0] == self.atoms_view()[b]
        &&& intent.no_duplicates()
        &&& forall|a: Seq<char>| #[trigger] intent.contains(a) <==> (a == self.atoms_view()[b] || exists|i: int|
            0 <= i < self.atoms@.len() && i != b && self.atoms_view()[i] == a && ext.subset_of(self.uncovered@[i]@))
    }

    /// Initialise from a list of objects (object_id, properties).
    pub fn new(objects: Vec<(ObjectId, PropMap)>) -> (c: Self)
        requires
            forall|k: int| 0 <= k < objects@.len() ==> (#[trigger] objects@[k]).1.wf(),
        ensures
            c.wf(),
            c.relation_pairs() == object_pairs(objects@),
            sets_view(c.uncovered@) == sets_view(c.relation@),
            c.uncovered_pairs() == c.relation_pairs(),
            forall|i: int| 0 <= i < c.atoms@.len() ==> #[trigger] atom_in_pairs(c.relation_pairs(), c.atoms_view()[i]),
            forall|o: u32| #[trigger] c.objects@.contains_key(o) ==> c.objects@[o].wf(),
            c.objects@.map_values(|p: PropMap| props_view(p)) == objects_map(objects@),
    {
        let mut all_objects: HashMap<ObjectId, PropMap> = HashMap::new();
        let mut atoms: Vec<String> = Vec::new();
        let mut relation: Vec<HashSet<u32>> = Vec::new();
        let mut uncovered: Vec<HashSet<u32>> = Vec::new();
        let n = objects.len();
        for k in 0..n
            invariant
                n == objects@.len(),
                forall|k2: int| 0 <= k2 < objects@.len() ==> (#[trigger] objects@[k2]).1.wf(),
                strings_view(atoms@).no_duplicates(),
                relation@.len() == atoms@.len(),
                uncovered@.len() == atoms@.len(),
                sets_view(uncovered@) == sets_view(relation@),
                all_nonempty(sets_view(relation@)),
                pairs_of(strings_view(atoms@), sets_view(relation@)) == object_pairs(objects@.take(k as int)),
                forall|o: u32| #[trigger] all_objects@.contains_key(o) ==> all_objects@[o].wf(),
                all_objects@.map_values(|p: PropMap| props_view(p)) == objects_map(objects@.take(k as int)),
        {
            let oid = objects[k].0;
            let props = &objects[k].1;
            let keys = props.keys();
            let m = props.len();
            let ghost prev = object_pairs(objects@.take(k as int));
            for j in 0..m
                invariant
                    n == objects@.len(),
                    k < n,
                    oid == objects@[k as int].0,
                    *props == objects@[k as int].1,
                    props.wf(),
                    m == props.keys_seq().len(),
                    keys@.len() == m,
                    forall|j2: int| 0 <= j2 < m ==> #[trigger] keys@[j2]@ == props.keys_seq()[j2],
                    prev == object_pairs(objects@.take(k as int)),
                    strings_view(atoms@).no_duplicates(),
                    relation@.len() == atoms@.len(),
                    uncovered@.len() == atoms@.len(),
                    sets_view(uncovered@) == sets_view(relation@),
                    all_nonempty(sets_view(relation@)),
                    pairs_of(strings_view(atoms@), sets_view(relation@)) == prev.union(
                        Set::new(|p: (u32, Seq<char>)| p.0 == oid && exists|j2: int| 0 <= j2 < j
                            && p.1 == #[trigger] atom_of(props.keys_seq()[j2], props_view(*props)[props.keys_seq()[j2]]))),
            {
                let attr = &keys[j];
                proof {
                    props.lemma_entry(j as int);
                }
                let val = props.value_at(j);
                let atom = make_atom(attr.as_str(), val.as_str());
                let ghost av = strings_view(atoms@);
                let ghost rv = sets_view(relation@);
                let idx = match find_atom(&atoms, &atom) {
                    Some(i) => i,
                    None => {
                        atoms.push(atom);
                        relation.push(HashSet::new());
                        uncovered.push(HashSet::new());
                        proof {
                            let av2 = strings_view(atoms@);
                            assert(av2 =~= av.push(atom_of(attr@, val@)));
                            assert forall|x: int, y: int| 0 <= x < av2.len() && 0 <= y < av2.len() && x != y
                                implies av2[x] != av2[y] by {
                                if x < av.len() && y < av.len() {
                                } else if x == av.len() {
                                    assert(atoms@[y]@ != atom_of(attr@, val@));
                                } else {
                                    assert(atoms@[x]@ != atom_of(attr@, val@));
                                }
                            }
                            assert(sets_view(relation@) =~= rv.push(Set::empty()));
                            assert(sets_view(uncovered@) =~= sets_view(relation@));
                            assert forall|p: (u32, Seq<char>)| pairs_of(av2, sets_view(relation@)).contains(p)
                                <==> pairs_of(av, rv).contains(p) by {
                                if pairs_of(av2, sets_view(relation@)).contains(p) {
                                    let i = choose|i: int| 0 <= i < av2.len() && i < sets_view(relation@).len()
                                        && av2[i] == p.1 && sets_view(relation@)[i].contains(p.0);
                                    assert(i < av.len());
                                    assert(rv[i].contains(p.0));
                                }
                                if pairs_of(av, rv).contains(p) {
                                    let i = choose|i: int| 0 <= i < av.len() && i < rv.len() && av[i] == p.1 && rv[i].contains(p.0);
                                    assert(av2[i] == p.1);
                                    assert(sets_view(relation@)[i].contains(p.0));
                                }
                            }
                            assert(pairs_of(av2, sets_view(relation@)) =~= pairs_of(av, rv));
                        }
                        atoms.len() - 1
                    },
                };
                let ghost av3 = strings_view(atoms@);
                let ghost rv3 = sets_view(relation@);
                let ghost pr3 = pairs_of(av3, rv3);
                relation[idx].insert(oid);
                uncovered[idx].insert(oid);
                proof {
                    let av4 = strings_view(atoms@);
                    assert(av4 == av3);
                    let a_new = atom_of(props.keys_seq()[j as int], props_view(*props)[props.keys_seq()[j as int]]);
                    assert(a_new == atom_of(attr@, val@));
                    assert(av3[idx as int] == a_new);
                    assert(sets_view(relation@) =~= rv3.update(idx as int, rv3[idx as int].insert(oid)));
                    assert(rv3 == rv || (rv3 == rv.push(Set::empty()) && idx == rv.len()));
                    assert forall|i: int| 0 <= i < sets_view(relation@).len() implies #[trigger] has_some(sets_view(relation@)[i]) by {
                        if i == idx {
                            assert(sets_view(relation@)[i].contains(oid));
                        } else {
                            assert(sets_view(relation@)[i] == rv[i]);
                            assert(has_some(rv[i]));
                        }
                    }
                    assert(sets_view(uncovered@) =~= sets_view(relation@));
                    assert forall|p: (u32, Seq<char>)| pairs_of(av4, sets_view(relation@)).contains(p)
                        <==> pr3.insert((oid, a_new)).contains(p) by {
                        if pairs_of(av4, sets_view(relation@)).contains(p) {
                            let i = choose|i: int| 0 <= i < av4.len() && i < sets_view(relation@).len()
                                && av4[i] == p.1 && sets_view(relation@)[i].contains(p.0);
                            if i != idx || p.0 != oid {
                                assert(rv3[i].contains(p.0));
                            }
                        }
                        if pr3.contains(p) {
                            let i = choose|i: int| 0 <= i < av3.len() && i < rv3.len() && av3[i] == p.1 && rv3[i].contains(p.0);
                            assert(sets_view(relation@)[i].contains(p.0));
                        }
                        if p == (oid, a_new) {
                            assert(sets_view(relation@)[idx as int].contains(oid));
                        }
                    }
                    assert(pairs_of(av4, sets_view(relation@)) =~= pr3.insert((oid, a_new)));
                    let jset = Set::new(|p: (u32, Seq<char>)| p.0 == oid && exists|j2: int| 0 <= j2 < j + 1
                        && p.1 == #[trigger] atom_of(props.keys_seq()[j2], props_view(*props)[props.keys_seq()[j2]]));
                    let jold = Set::new(|p: (u32, Seq<char>)| p.0 == oid && exists|j2: int| 0 <= j2 < j
                        && p.1 == #[trigger] atom_of(props.keys_seq()[j2], props_view(*props)[props.keys_seq()[j2]]));
                    assert forall|p: (u32, Seq<char>)| jset.contains(p) <==> jold.insert((oid, a_new)).contains(p) by {
                        if jset.contains(p) {
                            let j2 = choose|j2: int| 0 <= j2 < j + 1
                                && p.1 == #[trigger] atom_of(props.keys_seq()[j2], props_view(*props)[props.keys_seq()[j2]]);
                            if j2 < j {
                                assert(jold.contains(p));
                            }
                        }
                    }
                    assert(jset =~= jold.insert((oid, a_new)));
                    assert(pairs_of(av4, sets_view(relation@)) =~= prev.union(jset));
                }
            }
            proof {
                let tk1 = objects@.take(k + 1);
                let tk = objects@.take(k as int);
                assert(tk1.drop_last() =~= tk);
                let jall = Set::new(|p: (u32, Seq<char>)| p.0 == oid && exists|j2: int| 0 <= j2 < m
                    && p.1 == #[trigger] atom_of(props.keys_seq()[j2], props_view(*props)[props.keys_seq()[j2]]));
                assert forall|p: (u32, Seq<char>)| object_pairs(tk1).contains(p) <==> prev.union(jall).contains(p) by {
                    if object_pairs(tk1).contains(p) {
                        let (kk, attr) = choose|kk: int, attr: Seq<char>|
                            0 <= kk < tk1.len() && tk1[kk].0 == p.0 && #[trigger] props_view(tk1[kk].1).contains_key(attr)
                                && p.1 == atom_of(attr, props_view(tk1[kk].1)[attr]);
                        if kk < k {
                            assert(tk[kk] == tk1[kk]);
                            assert(object_pairs(tk).contains(p));
                        } else {
                            assert(props@.contains_key(attr));
                            let jj = props.lemma_key_position(attr);
                            assert(jall.contains(p));
                        }
                    }
                    if prev.contains(p) {
                        let (kk, attr) = choose|kk: int, attr: Seq<char>|
                            0 <= kk < tk.len() && tk[kk].0 == p.0 && #[trigger] props_view(tk[kk].1).contains_key(attr)
                                && p.1 == atom_of(attr, props_view(tk[kk].1)[attr]);
                        assert(tk1[kk] == tk[kk]);
                    }
                    if jall.contains(p) {
                        let j2 = choose|j2: int| 0 <= j2 < m
                            && p.1 == #[trigger] atom_of(props.keys_seq()[j2], props_view(*props)[props.keys_seq()[j2]]);
                        props.lemma_entry(j2);
                        assert(tk1[k as int] == objects@[k as int]);
                        assert(props_view(tk1[k as int].1).contains_key(props.keys_seq()[j2]));
                    }
                }
                assert(object_pairs(tk1) =~= prev.union(jall));
            }
            let copy = clone_props(props);
            let ghost ao = all_objects@;
            all_objects.insert(oid, copy);
            proof {
                let tk1 = objects@.take(k + 1);
                let tk = objects@.take(k as int);
                assert(tk1.drop_last() =~= tk);
                assert(tk1.last() == objects@[k as int]);
                assert(all_objects@.map_values(|p: PropMap| props_view(p)) =~= ao.map_values(|p: PropMap| props_view(p)).insert(oid, props_view(*props)));
            }
        }
        proof {
            assert(objects@.take(n as int) =~= objects@);
            assert forall|i: int| 0 <= i < atoms@.len() implies
                #[trigger] atom_in_pairs(pairs_of(strings_view(atoms@), sets_view(relation@)), strings_view(atoms@)[i]) by {
                assert(has_some(sets_view(relation@)[i]));
                let o = choose|o: u32| sets_view(relation@)[i].contains(o);
                assert(pairs_of(strings_view(atoms@), sets_view(relation@)).contains((o, strings_view(atoms@)[i])));
            }
        }
        let c = GreedyCover { objects: all_objects, atoms, relation, uncovered };
        proof {
            assert forall|i: int| 0 <= i < c.atoms@.len() implies #[trigger] c.uncovered@[i]@.subset_of(c.relation@[i]@) by {
                assert(sets_view(c.uncovered@)[i] == sets_view(c.relation@)[i]);
            }
        }
        c
    }

    /// Find the largest rectangle that covers uncovered pairs.
    /// Returns (extent, intent), or None when every pair is covered.
    pub fn largest_rectangle(&self) -> (r: Option<(HashSet<ObjectId>, Vec<PropertyAtom>)>)
        requires
            self.wf(),
        ensures
            r is None <==> (forall|i: int| 0 <= i < self.uncovered@.len() ==> #[trigger] self.uncovered@[i]@.is_empty()),
            r is None <==> self.uncovered_pairs().is_empty(),
            r is Some ==> exists|b: int|
                #[trigger] self.is_rectangle_from(b, r->Some_0.0@, strings_view(r->Some_0.1@)),
    {
        let n = self.uncovered.len();
        let mut best: Option<usize> = None;
        let mut best_len: usize = 0;
        for i in 0..n
            invariant
                n == self.uncovered@.len(),
                match best {
                    Some(b) => b < i && best_len == self.uncovered@[b as int]@.len() && best_len > 0
                        && forall|j: int| 0 <= j < i ==> #[trigger] self.uncovered@[j]@.len() <= best_len,
                    None => forall|j: int| 0 <= j < i ==> #[trigger] self.uncovered@[j]@.is_empty(),
                },
        {
            let l = self.uncovered[i].len();
            proof {
                lemma_hashset_finite(&self.uncovered@[i as int]);
                vstd::set_lib::lemma_set_empty_equivalency_len(self.uncovered@[i as int]@);
            }
            let ghost old_best = best;
            if l > 0 {
                if best.is_none() || l > best_len {
                    proof {
                        assert forall|j: int| 0 <= j < i + 1 implies #[trigger] self.uncovered@[j]@.len() <= l by {
                            if j < i {
                                if old_best is None {
                                    assert(self.uncovered@[j]@.is_empty());
                                    assert(self.uncovered@[j]@ =~= Set::<u32>::empty());
                                }
                            }
                        }
                    }
                    best = Some(i);
                    best_len = l;
                }
            } else {
                assert(self.uncovered@[i as int]@ =~= Set::empty());
            }
        }
        match best {
            None => {
                proof {
                    assert forall|p: (u32, Seq<char>)| !self.uncovered_pairs().contains(p) by {
                        if self.uncovered_pairs().contains(p) {
                            let i = choose|i: int| 0 <= i < self.atoms_view().len() && i < sets_view(self.uncovered@).len()
                                && self.atoms_view()[i] == p.1 && sets_view(self.uncovered@)[i].contains(p.0);
                            assert(self.uncovered@[i]@.is_empty());
                        }
                    }
                    assert(self.uncovered_pairs() =~= Set::empty());
                }
                None
            },
            Some(b) => {
                proof {
                    lemma_hashset_finite(&self.uncovered@[b as int]);
                    assert(!self.uncovered@[b as int]@.is_empty());
                    let o = self.uncovered@[b as int]@.choose();
                    assert(self.uncovered@[b as int]@.contains(o));
                    assert(sets_view(self.uncovered@)[b as int].contains(o));
                    assert(self.uncovered_pairs().contains((o, self.atoms_view()[b as int])));
                }
                let extent = copy_set(&self.uncovered[b]);
                let ext_vec = set_to_vec(&self.uncovered[b]);
                let mut intent: Vec<String> = Vec::new();
                intent.push(self.atoms[b].clone());
                let ghost ext = self.uncovered@[b as int]@;
                let ghost av = self.atoms_view();
                proof {
                    assert(strings_view(intent@) =~= seq![av[b as int]]);
                    assert forall|a: Seq<char>| #[trigger] strings_view(intent@).contains(a) <==> a == av[b as int] by {
                        if a == av[b as int] {
                            assert(strings_view(intent@)[0] == a);
                        }
                    }
                }
                for i in 0..n
                    invariant
                        self.wf(),
                        n == self.atoms@.len(),
                        b < n,
                        ext == self.uncovered@[b as int]@,
                        ext_vec@.to_set() == ext,
                        av == self.atoms_view(),
                        intent@.len() >= 1,
                        intent@[0]@ == av[b as int],
                        strings_view(intent@).no_duplicates(),
                        forall|a: Seq<char>| #[trigger] strings_view(intent@).contains(a) <==> (a == av[b as int]
                            || exists|j: int| 0 <= j < i && j != b && av[j] == a && ext.subset_of(self.uncovered@[j]@)),
                {
                    let ghost iv = strings_view(intent@);
                    if i != b {
                        if all_in(&ext_vec, &self.uncovered[i]) {
                            intent.push(self.atoms[i].clone());
                            proof {
                                let iv2 = strings_view(intent@);
                                assert(iv2 =~= iv.push(av[i as int]));
                                assert(!iv.contains(av[i as int])) by {
                                    if iv.contains(av[i as int]) {
                                        if av[i as int] == av[b as int] {
                                        } else {
                                            let j = choose|j: int| 0 <= j < i && j != b && av[j] == av[i as int]
                                                && ext.subset_of(self.uncovered@[j]@);
                                        }
                                    }
                                }
                                assert forall|x: int, y: int| 0 <= x < iv2.len() && 0 <= y < iv2.len() && x != y
                                    implies iv2[x] != iv2[y] by {
                                    if x == iv.len() {
                                        assert(iv.contains(iv2[y]));
                                    } else if y == iv.len() {
                                        assert(iv.contains(iv2[x]));
                                    }
                                }
                                assert forall|a: Seq<char>| #[trigger] iv2.contains(a) <==> (a == av[b as int]
                                    || exists|j: int| 0 <= j < i + 1 && j != b && av[j] == a && ext.subset_of(self.uncovered@[j]@)) by {
                                    if iv2.contains(a) && a != av[i as int] {
                                        let k = choose|k: int| 0 <= k < iv2.len() && iv2[k] == a;
                                        assert(iv.contains(a));
                                    }
                                    if iv.contains(a) {
                                        let k = choose|k: int| 0 <= k < iv.len() && iv[k] == a;
                                        assert(iv2[k] == a);
                                    }
                                    if a == av[i as int] {
                                        assert(iv2[iv.len() as int] == a);
                                    }
                                    if exists|j: int| 0 <= j < i && j != b && av[j] == a && ext.subset_of(self.uncovered@[j]@) {
                                        assert(iv.contains(a));
                                        let k = choose|k: int| 0 <= k < iv.len() && iv[k] == a;
                                        assert(iv2[k] == a);
                                    }
                                }
                            }
                        } else {
                            proof {
                                assert forall|a: Seq<char>| #[trigger] iv.contains(a) <==> (a == av[b as int]
                                    || exists|j: int| 0 <= j < i + 1 && j != b && av[j] == a && ext.subset_of(self.uncovered@[j]@)) by {
                                    if exists|j: int| 0 <= j < i + 1 && j != b && av[j] == a && ext.subset_of(self.uncovered@[j]@) {
                                        let j = choose|j: int| 0 <= j < i + 1 && j != b && av[j] == a && ext.subset_of(self.uncovered@[j]@);
                                        assert(j != i);
                                    }
                                }
                            }
                        }
                    }
                }
                proof {
                    assert(self.is_largest(b as int));
                    assert(self.is_rectangle_from(b as int, extent@, strings_view(intent@)));
                }
                let r = Some((extent, intent));
                assert(r is Some);
                assert(self.is_rectangle_from(b as int, r->Some_0.0@, strings_view(r->Some_0.1@)));
                r
            },
        }
    }

    /// Build factors greedily until everything is covered.
    pub fn build_factors(&mut self) -> (factors: Vec<Factor>)
        requires
            old(self).wf(),
        ensures
            final(self).wf(),
            final(self).atoms@ == old(self).atoms@,
            final(self).relation@ == old(self).relation@,
            final(self).objects@ == old(self).objects@,
            final(self).uncovered_pairs().is_empty(),
            forall|i: int| 0 <= i < final(self).uncovered@.len() ==> #[trigger] final(self).uncovered@[i]@.is_empty(),
            forall|k: int| 0 <= k < factors@.len() ==> #[trigger] factors@[k].id as int == (k + 1) % 0x1_0000_0000_0000_0000,
            forall|k: int| 0 <= k < factors@.len() ==> (#[trigger] factors@[k]).is_structural && factors@[k].access_count == 0
                && factors@[k].created_at@.len() == 0 && factors@[k].last_accessed@.len() == 0,
            forall|k: int| 0 <= k < factors@.len() ==> (#[trigger] factors@[k]).extent@.len() > 0
                && factors@[k].extent@.no_duplicates() && factors@[k].intent@.len() > 0
                && strings_view(factors@[k].intent@).no_duplicates(),
            forall|k: int| 0 <= k < factors@.len() ==> #[trigger] rect(factors@[k]).subset_of(old(self).uncovered_pairs()),
            forall|k1: int, k2: int| 0 <= k1 < factors@.len() && 0 <= k2 < factors@.len() && k1 != k2
                ==> #[trigger] rect(factors@[k1]).disjoint(#[trigger] rect(factors@[k2])),
            forall|p: (u32, Seq<char>)| #[trigger] old(self).uncovered_pairs().contains(p)
                ==> exists|k: int| 0 <= k < factors@.len() && #[trigger] rect(factors@[k]).contains(p),
            exists|steps: Seq<GreedyCover>| #[trigger] greedy_run(steps, factors@, *old(self), *final(self)),
    {
        let mut factors: Vec<Factor> = Vec::new();
        let ghost mut steps: Seq<GreedyCover> = seq![*self];
        let mut next_id: u64 = 1;
        let ghost u0 = self.uncovered_pairs();
        let ghost atoms0 = self.atoms@;
        let ghost relation0 = self.relation@;
        let ghost objects0 = self.objects@;
        let mut cur = self.largest_rectangle();
        while cur.is_some()
            invariant
                self.wf(),
                self.atoms@ == atoms0,
                self.relation@ == relation0,
                self.objects@ == objects0,
                u0 == old(self).uncovered_pairs(),
                atoms0 == old(self).atoms@,
                relation0 == old(self).relation@,
                objects0 == old(self).objects@,
                cur is None <==> self.uncovered_pairs().is_empty(),
                cur is None <==> (forall|i: int| 0 <= i < self.uncovered@.len() ==> #[trigger] self.uncovered@[i]@.is_empty()),
                cur is Some ==> exists|b: int|
                    #[trigger] self.is_rectangle_from(b, cur->Some_0.0@, strings_view(cur->Some_0.1@)),
                self.uncovered_pairs().subset_of(u0),
                next_id as int == (factors@.len() + 1) % 0x1_0000_0000_0000_0000,
                forall|k: int| 0 <= k < factors@.len() ==> #[trigger] factors@[k].id as int == (k + 1) % 0x1_0000_0000_0000_0000,
                forall|k: int| 0 <= k < factors@.len() ==> (#[trigger] factors@[k]).is_structural && factors@[k].access_count == 0
                    && factors@[k].created_at@.len() == 0 && factors@[k].last_accessed@.len() == 0,
                forall|k: int| 0 <= k < factors@.len() ==> (#[trigger] factors@[k]).extent@.len() > 0
                    && factors@[k].extent@.no_duplicates() && factors@[k].intent@.len() > 0
                    && strings_view(factors@[k].intent@).no_duplicates(),
                forall|k: int| 0 <= k < factors@.len() ==> #[trigger] rect(factors@[k]).subset_of(u0),
                forall|k: int| 0 <= k < factors@.len() ==> #[trigger] rect(factors@[k]).disjoint(self.uncovered_pairs()),
                forall|k1: int, k2: int| 0 <= k1 < factors@.len() && 0 <= k2 < factors@.len() && k1 != k2
                    ==> #[trigger] rect(factors@[k1]).disjoint(#[trigger] rect(factors@[k2])),
                forall|p: (u32, Seq<char>)| #[trigger] u0.contains(p) ==> self.uncovered_pairs().contains(p)
                    || exists|k: int| 0 <= k < factors@.len() && #[trigger] rect(factors@[k]).contains(p),
                greedy_run(steps, factors@, *old(self), *self),
            decreases total(sets_view(self.uncovered@)),
        {
            let ghost pre = *self;
            let (extent, intent) = match cur {
                Some(r) => r,
                None => { return factors; },
            };
            let ghost b = choose|b: int| #[trigger] self.is_rectangle_from(b, extent@, strings_view(intent@));
            let ghost iv = strings_view(intent@);
            let ghost start_sets = sets_view(self.uncovered@);
            let ghost start_pairs = self.uncovered_pairs();
            let ext_vec = set_to_vec(&extent);
            let ghost ev = ext_vec@;
            proof {
                assert(self.is_rectangle_from(b, extent@, iv));
                assert forall|p: (u32, Seq<char>)| ev.contains(p.0) && iv.contains(p.1) implies start_pairs.contains(p) by {
                    assert(ev.to_set().contains(p.0));
                    if p.1 == self.atoms_view()[b] {
                        assert(sets_view(self.uncovered@)[b].contains(p.0));
                    } else {
                        let i = choose|i: int| 0 <= i < self.atoms@.len() && i != b && self.atoms_view()[i] == p.1
                            && extent@.subset_of(self.uncovered@[i]@);
                        assert(sets_view(self.uncovered@)[i].contains(p.0));
                    }
                }
                lemma_hashset_finite(&self.uncovered@[b]);
                assert(ev.len() > 0) by {
                    let o = extent@.choose();
                    assert(extent@.contains(o));
                    assert(ev.to_set().contains(o));
                }
                assert(done_pairs(ev, iv, 0, 0) =~= Set::empty());
                assert(start_pairs =~= start_pairs.difference(done_pairs(ev, iv, 0, 0)));
                assert forall|a: Seq<char>| #[trigger] iv.contains(a) implies self.atoms_view().contains(a) by {
                    if a == self.atoms_view()[b] {
                    } else {
                        let i = choose|i: int| 0 <= i < self.atoms@.len() && i != b && self.atoms_view()[i] == a
                            && extent@.subset_of(self.uncovered@[i]@);
                    }
                }
            }
            let ne = ext_vec.len();
            let ni = intent.len();
            for j in 0..ne
                invariant
                    self.wf(),
                    self.atoms@ == atoms0,
                    self.relation@ == relation0,
                    self.objects@ == objects0,
                    ne == ev.len(),
                    ev == ext_vec@,
                    ne > 0,
                    ni == iv.len(),
                    iv == strings_view(intent@),
                    iv.no_duplicates(),
                    ni >= 1,
                    iv[0] == self.atoms_view()[b],
                    0 <= b < self.atoms@.len(),
                    ev.no_duplicates(),
                    ev.to_set() == start_sets[b],
                    start_sets.len() == self.uncovered@.len(),
                    forall|a: Seq<char>| #[trigger] iv.contains(a) ==> self.atoms_view().contains(a),
                    self.uncovered_pairs() == start_pairs.difference(done_pairs(ev, iv, j as int, 0)),
                    total(sets_view(self.uncovered@)) <= total(start_sets),
                    j > 0 ==> total(sets_view(self.uncovered@)) < total(start_sets),
                    j == 0 ==> sets_view(self.uncovered@) == start_sets,
            {
                for m in 0..ni
                    invariant
                        self.wf(),
                        self.atoms@ == atoms0,
                        self.relation@ == relation0,
                        self.objects@ == objects0,
                        ne == ev.len(),
                        ev == ext_vec@,
                        j < ne,
                        ni == iv.len(),
                        iv == strings_view(intent@),
                        iv.no_duplicates(),
                        ni >= 1,
                        iv[0] == self.atoms_view()[b],
                        0 <= b < self.atoms@.len(),
                        ev.no_duplicates(),
                        ev.to_set() == start_sets[b],
                        start_sets.len() == self.uncovered@.len(),
                        forall|a: Seq<char>| #[trigger] iv.contains(a) ==> self.atoms_view().contains(a),
                        self.uncovered_pairs() == start_pairs.difference(done_pairs(ev, iv, j as int, m as int)),
                        total(sets_view(self.uncovered@)) <= total(start_sets),
                        (j > 0 || m > 0) ==> total(sets_view(self.uncovered@)) < total(start_sets),
                        (j == 0 && m == 0) ==> sets_view(self.uncovered@) == start_sets,
                {
                    let oid = ext_vec[j];
                    proof {
                        assert(iv.contains(iv[m as int]));
                    }
                    match find_atom(&self.atoms, &intent[m]) {
                        Some(idx) => {
                            let ghost before_sets = sets_view(self.uncovered@);
                            let ghost before_pairs = self.uncovered_pairs();
                            proof {
                                lemma_hashset_finite(&self.uncovered@[idx as int]);
                                lemma_total_update(before_sets, idx as int, before_sets[idx as int].remove(oid));
                                assert forall|i: int| 0 <= i < self.atoms@.len() implies #[trigger] before_sets[i].subset_of(self.relation@[i]@) by {
                                    assert(self.uncovered@[i]@.subset_of(self.relation@[i]@));
                                }
                            }
                            self.uncovered[idx].remove(&oid);
                            proof {
                                assert(sets_view(self.uncovered@) =~= before_sets.update(idx as int, before_sets[idx as int].remove(oid)));
                                lemma_pairs_remove(self.atoms_view(), before_sets, idx as int, oid);
                                assert(self.atoms_view()[idx as int] == iv[m as int]);
                                assert forall|q: (u32, Seq<char>)| done_pairs(ev, iv, j as int, m + 1).contains(q)
                                    <==> done_pairs(ev, iv, j as int, m as int).insert((oid, iv[m as int])).contains(q) by {
                                    if done_pairs(ev, iv, j as int, m + 1).contains(q) {
                                        let (j2, m2) = choose|j2: int, m2: int| 0 <= j2 < ev.len() && 0 <= m2 < iv.len()
                                            && ev[j2] == q.0 && iv[m2] == q.1 && (j2 < j || (j2 == j && m2 < m + 1));
                                        if !(j2 == j && m2 == m) {
                                            assert(done_pairs(ev, iv, j as int, m as int).contains(q));
                                        }
                                    }
                                    if q == (oid, iv[m as int]) {
                                        assert(done_pairs(ev, iv, j as int, m + 1).contains(q));
                                    }
                                    if done_pairs(ev, iv, j as int, m as int).contains(q) {
                                        let (j2, m2) = choose|j2: int, m2: int| 0 <= j2 < ev.len() && 0 <= m2 < iv.len()
                                            && ev[j2] == q.0 && iv[m2] == q.1 && (j2 < j || (j2 == j && m2 < m));
                                        assert(done_pairs(ev, iv, j as int, m + 1).contains(q));
                                    }
                                }
                                assert(self.uncovered_pairs() =~= start_pairs.difference(done_pairs(ev, iv, j as int, m + 1)));
                                if j == 0 && m == 0 {
                                    assert(self.atoms_view()[idx as int] == self.atoms_view()[b]);
                                    assert(idx == b);
                                    assert(ev.to_set().contains(ev[0]));
                                    assert(before_sets[idx as int].contains(oid));
                                }
                                assert forall|i: int| 0 <= i < self.atoms@.len() implies #[trigger] self.uncovered@[i]@.subset_of(self.relation@[i]@) by {
                                    assert(sets_view(self.uncovered@)[i].subset_of(before_sets[i]));
                                    assert(before_sets[i].subset_of(self.relation@[i]@));
                                }
                            }
                        },
                        None => {
                            proof {
                                let a = iv[m as int];
                                let i = choose|i: int| 0 <= i < self.atoms_view().len() && self.atoms_view()[i] == a;
                                assert(self.atoms@[i]@ == intent@[m as int]@);
                            }
                        },
                    }
                }
                proof {
                    assert forall|q: (u32, Seq<char>)| done_pairs(ev, iv, j as int, ni as int).contains(q)
                        <==> done_pairs(ev, iv, j + 1, 0).contains(q) by {
                        if done_pairs(ev, iv, j + 1, 0).contains(q) {
                            let (j2, m2) = choose|j2: int, m2: int| 0 <= j2 < ev.len() && 0 <= m2 < iv.len()
                                && ev[j2] == q.0 && iv[m2] == q.1 && (j2 < j + 1 || (j2 == j + 1 && m2 < 0));
                            assert(done_pairs(ev, iv, j as int, ni as int).contains(q));
                        }
                    }
                    assert(done_pairs(ev, iv, j as int, ni as int) =~= done_pairs(ev, iv, j + 1, 0));
                }
            }
            let f = Factor {
                id: next_id,
                extent: ext_vec,
                intent,
                is_structural: true,
                access_count: 0,
                created_at: String::new(),
                last_accessed: String::new(),
            };
            let ghost fr = rect(f);
            proof {
                assert forall|q: (u32, Seq<char>)| fr.contains(q) <==> done_pairs(ev, iv, ne as int, 0).contains(q) by {
                    if fr.contains(q) {
                        let j2 = choose|j2: int| 0 <= j2 < ev.len() && ev[j2] == q.0;
                        let m2 = choose|m2: int| 0 <= m2 < iv.len() && iv[m2] == q.1;
                        assert(done_pairs(ev, iv, ne as int, 0).contains(q));
                    }
                    if done_pairs(ev, iv, ne as int, 0).contains(q) {
                        let (j2, m2) = choose|j2: int, m2: int| 0 <= j2 < ev.len() && 0 <= m2 < iv.len()
                            && ev[j2] == q.0 && iv[m2] == q.1 && (j2 < ne || (j2 == ne && m2 < 0));
                        assert(ev.contains(q.0));
                        assert(iv.contains(q.1));
                    }
                }
                assert(fr =~= done_pairs(ev, iv, ne as int, 0));
                assert(fr.subset_of(start_pairs));
            }
            let ghost old_factors = factors@;
            factors.push(f);
            next_id = next_id.wrapping_add(1);
            proof {
                let fl = factors@.len() - 1;
                assert(factors@[fl] == f);
                assert forall|k: int| 0 <= k < factors@.len() implies #[trigger] rect(factors@[k]).disjoint(self.uncovered_pairs()) by {
                    if k < fl {
                        assert(factors@[k] == old_factors[k]);
                        assert(rect(old_factors[k]).disjoint(start_pairs));
                    }
                }
                assert forall|k1: int, k2: int| 0 <= k1 < factors@.len() && 0 <= k2 < factors@.len() && k1 != k2
                    implies #[trigger] rect(factors@[k1]).disjoint(#[trigger] rect(factors@[k2])) by {
                    if k1 == fl {
                        assert(factors@[k2] == old_factors[k2]);
                        assert(rect(old_factors[k2]).disjoint(start_pairs));
                    } else if k2 == fl {
                        assert(factors@[k1] == old_factors[k1]);
                        assert(rect(old_factors[k1]).disjoint(start_pairs));
                    } else {
                        assert(factors@[k1] == old_factors[k1]);
                        assert(factors@[k2] == old_factors[k2]);
                    }
                }
                assert forall|p: (u32, Seq<char>)| #[trigger] u0.contains(p) implies self.uncovered_pairs().contains(p)
                    || exists|k: int| 0 <= k < factors@.len() && #[trigger] rect(factors@[k]).contains(p) by {
                    if start_pairs.contains(p) {
                        if !self.uncovered_pairs().contains(p) {
                            assert(fr.contains(p));
                            assert(rect(factors@[fl]).contains(p));
                        }
                    } else {
                        let k = choose|k: int| 0 <= k < old_factors.len() && #[trigger] rect(old_factors[k]).contains(p);
                        assert(factors@[k] == old_factors[k]);
                        assert(rect(factors@[k]).contains(p));
                    }
                }
                assert forall|k: int| 0 <= k < factors@.len() implies #[trigger] factors@[k].id as int == (k + 1) % 0x1_0000_0000_0000_0000 by {
                    if k < fl {
                        assert(factors@[k] == old_factors[k]);
                    }
                }
                assert forall|k: int| 0 <= k < factors@.len() implies #[trigger] rect(factors@[k]).subset_of(u0) by {
                    if k < fl {
                        assert(factors@[k] == old_factors[k]);
                    }
                }
                let old_steps = steps;
                assert(f.extent@.to_set() == extent@);
                assert(f.intent_view() == iv);
                assert(pre.is_rectangle_from(b, f.extent@.to_set(), f.intent_view()));
                assert(self.uncovered_pairs() =~= pre.uncovered_pairs().difference(rect(f)));
                assert(greedy_step(pre, *self, f));
                steps = steps.push(*self);
                assert forall|k: int| 0 <= k < factors@.len() implies #[trigger] greedy_step(steps[k], steps[k + 1], factors@[k]) by {
                    if k < fl {
                        assert(factors@[k] == old_factors[k]);
                        assert(steps[k] == old_steps[k]);
                        assert(steps[k + 1] == old_steps[k + 1]);
                    }
                }
            }
            cur = self.largest_rectangle();
        }
        factors
    }

}

/// The elements of a hash set, as a vector without repeats.
fn set_to_vec(s: &HashSet<u32>) -> (v: Vec<u32>)
    ensures
        v@.to_set() == s@,
        v@.no_duplicates(),
        v@.len() == s@.len(),
{
    let mut v: Vec<u32> = Vec::new();
    let ghost r = vstd::std_specs::hash::spec_hash_keys_iter(s).remaining();
    for x in it: s.iter()
        invariant
            it.seq() == r,
            v@ == it.seq().take(it.index() as int).unref(),
    {
        v.push(*x);
    }
    proof {
        assert(v@ =~= r.unref());
        r.unref().unique_seq_to_set();
    }
    v
}

/// A copy of a hash set.
fn copy_set(s: &HashSet<u32>) -> (c: HashSet<u32>)
    ensures
        c@ == s@,
{
    let v = set_to_vec(s);
    let mut c: HashSet<u32> = HashSet::new();
    let n = v.len();
    for i in 0..n
        invariant
            n == v@.len(),
            forall|x: u32| #[trigger] c@.contains(x) <==> exists|j: int| 0 <= j < i && v@[j] == x,
    {
        c.insert(v[i]);
        proof {
            assert forall|x: u32| #[trigger] c@.contains(x) <==> exists|j: int| 0 <= j < i + 1 && v@[j] == x by {
                if x == v@[i as int] {
                } else if exists|j: int| 0 <= j < i + 1 && v@[j] == x {
                    let j = choose|j: int| 0 <= j < i + 1 && v@[j] == x;
                    assert(j < i);
                }
            }
        }
    }
    proof {
        assert forall|x: u32| c@.contains(x) <==> s@.contains(x) by {
            if s@.contains(x) {
                assert(v@.to_set().contains(x));
            }
        }
        assert(c@ =~= s@);
    }
    c
}

/// Whether every element of `v` lies in `s`.
fn all_in(v: &Vec<u32>, s: &HashSet<u32>) -> (b: bool)
    ensures
        b == v@.to_set().subset_of(s@),
{
    let n = v.len();
    for i in 0..n
        invariant
            n == v@.len(),
            forall|j: int| 0 <= j < i ==> s@.contains(v@[j]),
    {
        if !s.contains(&v[i]) {
            assert(v@.to_set().contains(v@[i as int]));
            return false;
        }
    }
    proof {
        assert forall|x: u32| v@.to_set().contains(x) implies s@.contains(x) by {
            let j = choose|j: int| 0 <= j < v@.len() && v@[j] == x;
        }
    }
    true
}
/// The factors cover `pairs` exactly: every factor's rectangle lies in
/// `pairs`, no two rectangles share a pair, and every pair lies in one.
pub open spec fn exact_cover(pairs: Set<(u32, Seq<char>)>, fs: Seq<Factor>) -> bool {
    &&& forall|k: int| 0 <= k < fs.len() ==> #[trigger] rect(fs[k]).subset_of(pairs)
    &&& forall|k1: int, k2: int| 0 <= k1 < fs.len() && 0 <= k2 < fs.len() && k1 != k2
        ==> #[trigger] rect(fs[k1]).disjoint(#[trigger] rect(fs[k2]))
    &&& forall|p: (u32, Seq<char>)| #[trigger] pairs.contains(p) ==> exists|k: int| 0 <= k < fs.len() && #[trigger] rect(fs[k]).contains(p)
}

/// The structural factors of a set of objects: the greedy cover of their
/// object/atom relation, which covers it exactly, with ids 1, 2, ...
pub fn structural_factors(objects: Vec<(ObjectId, PropMap)>) -> (fs: Vec<Factor>)
    requires
        forall|k: int| 0 <= k < objects@.len() ==> (#[trigger] objects@[k]).1.wf(),
    ensures
        exact_cover(object_pairs(objects@), fs@),
        forall|k: int| 0 <= k < fs@.len() ==> #[trigger] fs@[k].id as int == (k + 1) % 0x1_0000_0000_0000_0000,
        forall|k: int| 0 <= k < fs@.len() ==> (#[trigger] fs@[k]).is_structural && fs@[k].access_count == 0,
        forall|k: int| 0 <= k < fs@.len() ==> (#[trigger] fs@[k]).extent@.len() > 0 && fs@[k].intent@.len() > 0,
        exists|c: GreedyCover, steps: Seq<GreedyCover>, last: GreedyCover| {
            &&& c.relation_pairs() == object_pairs(objects@)
            &&& c.uncovered_pairs() == c.relation_pairs()
            &&& #[trigger] greedy_run(steps, fs@, c, last)
        },
{
    let ghost objs = objects@;
    let mut cover = GreedyCover::new(objects);
    let ghost c0 = cover;
    let fs = cover.build_factors();
    proof {
        assert(exact_cover(object_pairs(objs), fs@));
        let steps = choose|steps: Seq<GreedyCover>| #[trigger] greedy_run(steps, fs@, c0, cover);
        assert(greedy_run(steps, fs@, c0, cover));
    }
    fs
}

} // verus!
