use std::collections::{HashMap, HashSet};
use vstd::prelude::*;
use vstd::std_specs::iter::IteratorSpec;
use crate::strmap::StrMap;

verus! {

broadcast use vstd::std_specs::hash::group_hash_axioms;

/// The sets a map of hash sets holds.
pub open spec fn sets_map<K>(m: Map<K, HashSet<u64>>) -> Map<K, Set<u64>> {
    m.map_values(|s: HashSet<u64>| s@)
}

/// The ids an index keeps under `k` (none when `k` is absent).
pub open spec fn set_at<K>(idx: Map<K, Set<u64>>, k: K) -> Set<u64> {
    if idx.contains_key(k) {
        idx[k]
    } else {
        Set::empty()
    }
}

/// The index with `id` added under every key of `keys` (creating entries as needed).
pub open spec fn index_add<K>(idx: Map<K, Set<u64>>, keys: Set<K>, id: u64) -> Map<K, Set<u64>> {
    Map::new(
        |k: K| idx.contains_key(k) || keys.contains(k),
        |k: K| if keys.contains(k) { set_at(idx, k).insert(id) } else { idx[k] },
    )
}

/// The index with `id` removed under every key of `keys` that has an entry.
pub open spec fn index_remove<K>(idx: Map<K, Set<u64>>, keys: Set<K>, id: u64) -> Map<K, Set<u64>> {
    Map::new(
        |k: K| idx.contains_key(k),
        |k: K| if keys.contains(k) { idx[k].remove(id) } else { idx[k] },
    )
}

pub proof fn lemma_index_add_empty<K>(idx: Map<K, Set<u64>>, id: u64)
    ensures
        index_add(idx, Set::empty(), id) == idx,
{
    assert(index_add(idx, Set::empty(), id) =~= idx);
}

pub proof fn lemma_index_add_more<K>(idx: Map<K, Set<u64>>, keys: Set<K>, k: K, id: u64)
    ensures
        index_add(index_add(idx, keys, id), set![k], id) == index_add(idx, keys.insert(k), id),
{
    let a = index_add(index_add(idx, keys, id), set![k], id);
    let b = index_add(idx, keys.insert(k), id);
    assert forall|q: K| #[trigger] a.contains_key(q) implies a[q] == b[q] by {
        if q == k {
            if keys.contains(k) {
                assert(set_at(idx, k).insert(id).insert(id) =~= set_at(idx, k).insert(id));
            }
        }
    }
    assert(a =~= b);
}

pub proof fn lemma_index_remove_empty<K>(idx: Map<K, Set<u64>>, id: u64)
    ensures
        index_remove(idx, Set::empty(), id) == idx,
{
    assert(index_remove(idx, Set::empty(), id) =~= idx);
}

pub proof fn lemma_index_remove_more<K>(idx: Map<K, Set<u64>>, keys: Set<K>, k: K, id: u64)
    ensures
        index_remove(index_remove(idx, keys, id), set![k], id) == index_remove(idx, keys.insert(k), id),
{
    let a = index_remove(index_remove(idx, keys, id), set![k], id);
    let b = index_remove(idx, keys.insert(k), id);
    assert forall|q: K| #[trigger] a.contains_key(q) implies a[q] == b[q] by {
        if q == k && keys.contains(k) {
            assert(idx[k].remove(id).remove(id) =~= idx[k].remove(id));
        }
    }
    assert(a =~= b);
}

pub proof fn lemma_take_to_set_step<A>(v: Seq<A>, i: int)
    requires
        0 <= i < v.len(),
    ensures
        v.take(i + 1).to_set() == v.take(i).to_set().insert(v[i]),
{
    assert forall|x: A| v.take(i + 1).to_set().contains(x) implies v.take(i).to_set().insert(v[i]).contains(x) by {
        let j = choose|j: int| 0 <= j < i + 1 && #[trigger] v.take(i + 1)[j] == x;
        if j < i {
            assert(v.take(i)[j] == x);
        }
    }
    assert forall|x: A| v.take(i).to_set().insert(v[i]).contains(x) implies v.take(i + 1).to_set().contains(x) by {
        if x == v[i] {
            assert(v.take(i + 1)[i] == x);
        } else {
            let j = choose|j: int| 0 <= j < i && #[trigger] v.take(i)[j] == x;
            assert(v.take(i + 1)[j] == x);
        }
    }
    assert(v.take(i + 1).to_set() =~= v.take(i).to_set().insert(v[i]));
}

/// Adds `id` to the set kept under `o`.
pub fn boi_add(boi: &mut HashMap<u32, HashSet<u64>>, o: u32, id: u64)
    ensures
        sets_map(final(boi)@) == index_add(sets_map(old(boi)@), set![o], id),
{
    let mut s = match boi.remove(&o) {
        Some(s) => s,
        None => HashSet::new(),
    };
    s.insert(id);
    boi.insert(o, s);
    assert(sets_map(boi@) =~= index_add(sets_map(old(boi)@), set![o], id));
}

/// Removes `id` from the set kept under `o`, if `o` has one.
pub fn boi_drop(boi: &mut HashMap<u32, HashSet<u64>>, o: u32, id: u64)
    ensures
        sets_map(final(boi)@) == index_remove(sets_map(old(boi)@), set![o], id),
{
    match boi.remove(&o) {
        Some(mut s) => {
            s.remove(&id);
            boi.insert(o, s);
        },
        None => {},
    }
    assert(sets_map(boi@) =~= index_remove(sets_map(old(boi)@), set![o], id));
}

/// Adds `id` to the set kept under the key `a`.
pub fn bpi_add(bpi: &mut StrMap<HashSet<u64>>, a: &String, id: u64)
    requires
        old(bpi).wf(),
    ensures
        final(bpi).wf(),
        sets_map(final(bpi)@) == index_add(sets_map(old(bpi)@), set![a@], id),
{
    let mut s = match bpi.remove(a.as_str()) {
        Some(s) => s,
        None => HashSet::new(),
    };
    s.insert(id);
    bpi.insert(a.clone(), s);
    assert(sets_map(bpi@) =~= index_add(sets_map(old(bpi)@), set![a@], id));
}

/// Removes `id` from the set kept under the key `a`, if `a` has one.
pub fn bpi_drop(bpi: &mut StrMap<HashSet<u64>>, a: &String, id: u64)
    requires
        old(bpi).wf(),
    ensures
        final(bpi).wf(),
        sets_map(final(bpi)@) == index_remove(sets_map(old(bpi)@), set![a@], id),
{
    match bpi.remove(a.as_str()) {
        Some(mut s) => {
            s.remove(&id);
            bpi.insert(a.clone(), s);
        },
        None => {},
    }
    assert(sets_map(bpi@) =~= index_remove(sets_map(old(bpi)@), set![a@], id));
}

/// The elements of a hash set of ids, as a vector without repeats.
pub fn ids_to_vec(s: &HashSet<u64>) -> (v: Vec<u64>)
    ensures
        v@.to_set() == s@,
        v@.no_duplicates(),
{
    let mut v: Vec<u64> = Vec::new();
    let ghost r = vstd::std_specs::hash::spec_hash_keys_iter(s).remaining();
    for x in it: s.iter()
        invariant
            it.seq() == r,
            v@ == it.seq().take(it.index() as int).unref(),
    {
        v.push(*x);
    }
    proof {
        assert(v@ =~= r.unref());
        r.unref().unique_seq_to_set();
    }
    v
}

/// A copy of a hash set of ids.
pub fn copy_ids(s: &HashSet<u64>) -> (c: HashSet<u64>)
    ensures
        c@ == s@,
{
    let v = ids_to_vec(s);
    let mut c: HashSet<u64> = HashSet::new();
    let n = v.len();
    for i in 0..n
        invariant
            n == v@.len(),
            forall|x: u64| #[trigger] c@.contains(x) <==> exists|j: int| 0 <= j < i && v@[j] == x,
    {
        c.insert(v[i]);
        proof {
            assert forall|x: u64| #[trigger] c@.contains(x) <==> exists|j: int| 0 <= j < i + 1 && v@[j] == x by {
                if x == v@[i as int] {
                } else if exists|j: int| 0 <= j < i + 1 && v@[j] == x {
                    let j = choose|j: int| 0 <= j < i + 1 && v@[j] == x;
                    assert(j < i);
                }
            }
        }
    }
    proof {
        assert forall|x: u64| c@.contains(x) <==> s@.contains(x) by {
            if s@.contains(x) {
                assert(v@.to_set().contains(x));
            }
        }
        assert(c@ =~= s@);
    }
    c
}

/// The elements of a hash set of object ids, as a vector without repeats.
pub fn objs_to_vec(s: &HashSet<u32>) -> (v: Vec<u32>)
    ensures
        v@.to_set() == s@,
        v@.no_duplicates(),
{
    let mut v: Vec<u32> = Vec::new();
    let ghost r = vstd::std_specs::hash::spec_hash_keys_iter(s).remaining();
    for x in it: s.iter()
        invariant
            it.seq() == r,
            v@ == it.seq().take(it.index() as int).unref(),
    {
        v.push(*x);
    }
    proof {
        assert(v@ =~= r.unref());
        r.unref().unique_seq_to_set();
    }
    v
}

/// Adds every element of `v` to `s`.
pub fn extend_objs(s: &mut HashSet<u32>, v: &Vec<u32>)
    ensures
        final(s)@ == old(s)@.union(v@.to_set()),
{
    let n = v.len();
    for i in 0..n
        invariant
            n == v@.len(),
            s@ == old(s)@.union(v@.take(i as int).to_set()),
    {
        s.insert(v[i]);
        proof {
            lemma_take_to_set_step(v@, i as int);
            assert(s@ =~= old(s)@.union(v@.take(i + 1).to_set()));
        }
    }
    assert(v@.take(n as int) =~= v@);
}

/// Adds every element of `t` to `s`.
pub fn union_into(s: &mut HashSet<u32>, t: &HashSet<u32>)
    ensures
        final(s)@ == old(s)@.union(t@),
{
    let v = objs_to_vec(t);
    extend_objs(s, &v);
}

/// The elements of `a` that are also in `b`.
pub fn intersect(a: &HashSet<u32>, b: &HashSet<u32>) -> (r: HashSet<u32>)
    ensures
        r@ == a@.intersect(b@),
{
    let v = objs_to_vec(a);
    let mut r: HashSet<u32> = HashSet::new();
    let n = v.len();
    for i in 0..n
        invariant
            n == v@.len(),
            r@ == v@.take(i as int).to_set().intersect(b@),
    {
        if b.contains(&v[i]) {
            r.insert(v[i]);
        }
        proof {
            lemma_take_to_set_step(v@, i as int);
            assert(r@ =~= v@.take(i + 1).to_set().intersect(b@));
        }
    }
    assert(v@.take(n as int) =~= v@);
    r
}

/// The keys of a map keyed by object id, as a vector without repeats.
pub fn keys_u32<V>(m: &HashMap<u32, V>) -> (v: Vec<u32>)
    ensures
        v@.to_set() == m@.dom(),
        v@.no_duplicates(),
{
    let mut v: Vec<u32> = Vec::new();
    let ghost r = vstd::std_specs::hash::spec_keys_iter(m).remaining();
    for x in it: m.keys()
        invariant
            it.seq() == r,
            v@ == it.seq().take(it.index() as int).unref(),
    {
        v.push(*x);
    }
    proof {
        assert(v@ =~= r.unref());
        r.unref().unique_seq_to_set();
    }
    v
}

/// The keys of a map keyed by factor id, as a vector without repeats.
pub fn keys_u64<V>(m: &HashMap<u64, V>) -> (v: Vec<u64>)
    ensures
        v@.to_set() == m@.dom(),
        v@.no_duplicates(),
{
    let mut v: Vec<u64> = Vec::new();
    let ghost r = vstd::std_specs::hash::spec_keys_iter(m).remaining();
    for x in it: m.keys()
        invariant
            it.seq() == r,
            v@ == it.seq().take(it.index() as int).unref(),
    {
        v.push(*x);
    }
    proof {
        assert(v@ =~= r.unref());
        r.unref().unique_seq_to_set();
    }
    v
}

/// `s` without any occurrence of `x`, in order.
pub open spec fn without(s: Seq<u32>, x: u32) -> Seq<u32> {
    s.filter(|y: u32| y != x)
}

/// What `without` keeps: exactly the elements other than `x`.
pub proof fn lemma_without(s: Seq<u32>, x: u32)
    ensures
        forall|y: u32| #[trigger] without(s, x).contains(y) <==> (s.contains(y) && y != x),
{
    broadcast use vstd::seq_lib::group_filter_ensures;
    broadcast use vstd::prelude::Seq::lemma_filter_contains_rev;
    assert forall|y: u32| #[trigger] without(s, x).contains(y) <==> (s.contains(y) && y != x) by {
        if without(s, x).contains(y) {
            let i = choose|i: int| 0 <= i < without(s, x).len() && without(s, x)[i] == y;
        }
        if s.contains(y) && y != x {
            let i = choose|i: int| 0 <= i < s.len() && s[i] == y;
        }
    }
}

/// Removes every occurrence of `x` from `v`, keeping the order of the rest.
pub fn remove_all(v: &mut Vec<u32>, x: u32)
    ensures
        final(v)@ == without(old(v)@, x),
{
    let mut kept: Vec<u32> = Vec::new();
    let n = v.len();
    proof {
        reveal(Seq::filter);
        assert(v@.take(0) =~= Seq::<u32>::empty());
    }
    for i in 0..n
        invariant
            n == v@.len(),
            kept@ == without(v@.take(i as int), x),
    {
        proof {
            reveal(Seq::filter);
            assert(v@.take(i + 1).drop_last() =~= v@.take(i as int));
            assert(v@.take(i + 1).last() == v@[i as int]);
        }
        if v[i] != x {
            kept.push(v[i]);
        }
    }
    proof {
        assert(v@.take(n as int) =~= v@);
    }
    *v = kept;
}

/// The keys of a map keyed by object id, as a set.
pub fn key_set<V>(m: &HashMap<u32, V>) -> (s: HashSet<u32>)
    ensures
        s@ == m@.dom(),
{
    let keys = keys_u32(m);
    let mut s: HashSet<u32> = HashSet::new();
    let n = keys.len();
    proof {
        assert(keys@.take(0).to_set() =~= Set::<u32>::empty());
    }
    for i in 0..n
        invariant
            n == keys@.len(),
            s@ == keys@.take(i as int).to_set(),
    {
        s.insert(keys[i]);
        proof {
            lemma_take_to_set_step(keys@, i as int);
        }
    }
    proof {
        assert(keys@.take(n as int) =~= keys@);
    }
    s
}

/// A set of pairs of object ids, kept in the order they first came in.
pub struct PairSet {
    firsts: HashMap<u32, HashSet<u32>>,
    pairs: Vec<(u32, u32)>,
}

impl View for PairSet {
    type V = Set<(u32, u32)>;

    closed spec fn view(&self) -> Set<(u32, u32)> {
        self.pairs@.to_set()
    }
}

impl PairSet {
    /// No pair is kept twice, and the index by first component lists exactly the kept pairs.
    pub closed spec fn wf(&self) -> bool {
        &&& self.pairs@.no_duplicates()
        &&& forall|l: u32, r: u32| #[trigger] self.pairs@.contains((l, r)) <==>
            (self.firsts@.contains_key(l) && self.firsts@[l]@.contains(r))
    }

    pub fn new() -> (p: Self)
        ensures
            p.wf(),
            p@ == Set::<(u32, u32)>::empty(),
    {
        let p = PairSet { firsts: HashMap::new(), pairs: Vec::new() };
        assert(p@ =~= Set::<(u32, u32)>::empty());
        p
    }

    /// Adds the pair `(l, r)`.
    pub fn insert(&mut self, l: u32, r: u32)
        requires
            old(self).wf(),
        ensures
            final(self).wf(),
            final(self)@ == old(self)@.insert((l, r)),
    {
        let present = match self.firsts.get(&l) {
            Some(s) => s.contains(&r),
            None => false,
        };
        if present {
            assert(self.pairs@.contains((l, r)));
            assert(self@ =~= old(self)@.insert((l, r)));
        } else {
            let ghost prev = self.pairs@;
            let mut s = match self.firsts.remove(&l) {
                Some(s) => s,
                None => HashSet::new(),
            };
            s.insert(r);
            self.firsts.insert(l, s);
            self.pairs.push((l, r));
            proof {
                assert(!prev.contains((l, r)));
                assert forall|a: int, b: int| 0 <= a < b < self.pairs@.len() implies self.pairs@[a] != self.pairs@[b] by {
                    if b == prev.len() {
                        assert(prev[a] == self.pairs@[a]);
                    }
                }
                assert forall|x: u32, y: u32| #[trigger] self.pairs@.contains((x, y)) <==>
                    (self.firsts@.contains_key(x) && self.firsts@[x]@.contains(y)) by {
                    if self.pairs@.contains((x, y)) && (x, y) != (l, r) {
                        let q = choose|q: int| 0 <= q < self.pairs@.len() && self.pairs@[q] == (x, y);
                        assert(prev[q] == (x, y));
                        assert(prev.contains((x, y)));
                    }
                    if (x, y) == (l, r) {
                        assert(self.pairs@[prev.len() as int] == (l, r));
                    } else if self.firsts@.contains_key(x) && self.firsts@[x]@.contains(y) {
                        assert(old(self).firsts@.contains_key(x) && old(self).firsts@[x]@.contains(y));
                        assert(prev.contains((x, y)));
                        let q = choose|q: int| 0 <= q < prev.len() && prev[q] == (x, y);
                        assert(self.pairs@[q] == (x, y));
                    }
                }
                assert(self.pairs@ == prev.push((l, r)));
                prev.lemma_push_to_set_commute((l, r));
                assert(self@ =~= old(self)@.insert((l, r)));
            }
        }
    }

    /// The pairs, each once, in the order they first came in.
    pub fn into_vec(self) -> (v: Vec<(u32, u32)>)
        requires
            self.wf(),
        ensures
            v@.no_duplicates(),
            v@.to_set() == self@,
    {
        self.pairs
    }
}

} // verus!
