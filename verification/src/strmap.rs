use vstd::prelude::*;

verus! {

/// A small map keyed by strings, kept as an association list whose keys are
/// pairwise distinct.  Its view is a `Map` from the keys' characters to the
/// stored values.
pub struct StrMap<V> {
    entries: Vec<(String, V)>,
}

impl<V> StrMap<V> {
    /// The keys, in storage order.
    pub closed spec fn keys_seq(&self) -> Seq<Seq<char>> {
        Seq::new(self.entries@.len(), |i: int| self.entries@[i].0@)
    }

    /// The values, in storage order (parallel to `keys_seq`).
    pub closed spec fn vals_seq(&self) -> Seq<V> {
        Seq::new(self.entries@.len(), |i: int| self.entries@[i].1)
    }

    /// Keys are pairwise distinct.
    pub closed spec fn wf(&self) -> bool {
        forall|i: int, j: int|
            0 <= i < self.entries@.len() && 0 <= j < self.entries@.len() && i != j
                ==> self.entries@[i].0@ != self.entries@[j].0@
    }

    pub closed spec fn has(&self, k: Seq<char>) -> bool {
        exists|i: int| 0 <= i < self.entries@.len() && self.entries@[i].0@ == k
    }

    pub closed spec fn map_view(&self) -> Map<Seq<char>, V> {
        Map::new(
            |k: Seq<char>| self.has(k),
            |k: Seq<char>|
                self.entries@[choose|i: int| 0 <= i < self.entries@.len() && self.entries@[i].0@ == k].1,
        )
    }

    /// The entry at position `i` is the one the view reports for its key.
    pub proof fn lemma_entry(&self, i: int)
        requires
            self.wf(),
            0 <= i < self.keys_seq().len(),
        ensures
            forall|j: int| 0 <= j < self.keys_seq().len() && j != i ==> self.keys_seq()[j] != self.keys_seq()[i],
            self@.contains_key(self.keys_seq()[i]),
            self@[self.keys_seq()[i]] == self.vals_seq()[i],
    {
        let k = self.entries@[i].0@;
        assert(self.has(k));
        let j = choose|j: int| 0 <= j < self.entries@.len() && self.entries@[j].0@ == k;
        assert(j == i);
    }

    /// Every key of the view sits at some position.
    pub proof fn lemma_key_position(&self, k: Seq<char>) -> (i: int)
        requires
            self.wf(),
            self@.contains_key(k),
        ensures
            0 <= i < self.keys_seq().len(),
            self.keys_seq()[i] == k,
            self@[k] == self.vals_seq()[i],
    {
        let i = choose|i: int| 0 <= i < self.entries@.len() && self.entries@[i].0@ == k;
        self.lemma_entry(i);
        i
    }

    /// The view's domain is exactly the set of stored keys.
    pub proof fn lemma_dom(&self)
        requires
            self.wf(),
        ensures
            self@.dom() == self.keys_seq().to_set(),
            self.keys_seq().no_duplicates(),
            self@.dom().finite(),
            self@.dom().len() == self.keys_seq().len(),
    {
        assert forall|k: Seq<char>| self@.dom().contains(k) <==> self.keys_seq().to_set().contains(k) by {
            if self@.dom().contains(k) {
                let i = self.lemma_key_position(k);
                assert(self.keys_seq()[i] == k);
            }
            if self.keys_seq().to_set().contains(k) {
                let i = choose|i: int| 0 <= i < self.keys_seq().len() && self.keys_seq()[i] == k;
                assert(self.has(k));
            }
        }
        assert(self@.dom() =~= self.keys_seq().to_set());
        self.keys_seq().unique_seq_to_set();
    }

    pub fn new() -> (m: Self)
        ensures
            m.wf(),
            m@ == Map::<Seq<char>, V>::empty(),
            m.keys_seq() == Seq::<Seq<char>>::empty(),
    {
        let m = StrMap { entries: Vec::new() };
        assert(m@ =~= Map::<Seq<char>, V>::empty());
        assert(m.keys_seq() =~= Seq::<Seq<char>>::empty());
        m
    }

    pub fn len(&self) -> (n: usize)
        requires
            self.wf(),
        ensures
            n == self@.dom().len(),
            n == self.keys_seq().len(),
    {
        proof {
            self.lemma_dom();
        }
        self.entries.len()
    }

    /// The position of a key, if present.
    pub fn find(&self, k: &str) -> (r: Option<usize>)
        requires
            self.wf(),
        ensures
            match r {
                Some(i) => i < self.keys_seq().len() && self.keys_seq()[i as int] == k@
                    && self@.contains_key(k@) && self@[k@] == self.vals_seq()[i as int],
                None => !self@.contains_key(k@),
            },
    {
        let key: String = k.to_owned();
        let n = self.entries.len();
        let mut i: usize = 0;
        while i < n
            invariant
                self.wf(),
                n == self.entries@.len(),
                i <= n,
                key@ == k@,
                forall|j: int| 0 <= j < i ==> self.entries@[j].0@ != k@,
            decreases n - i,
        {
            if self.entries[i].0 == key {
                proof {
                    self.lemma_entry(i as int);
                }
                return Some(i);
            }
            i = i + 1;
        }
        None
    }

    pub fn contains_key(&self, k: &str) -> (b: bool)
        requires
            self.wf(),
        ensures
            b == self@.contains_key(k@),
    {
        self.find(k).is_some()
    }

    pub fn get(&self, k: &str) -> (r: Option<&V>)
        requires
            self.wf(),
        ensures
            match r {
                Some(v) => self@.contains_key(k@) && *v == self@[k@],
                None => !self@.contains_key(k@),
            },
    {
        match self.find(k) {
            Some(i) => Some(&self.entries[i].1),
            None => None,
        }
    }

    /// The value kept under `k`, which must be present.
    pub fn value_of(&self, k: &str) -> (v: &V)
        requires
            self.wf(),
            self@.contains_key(k@),
        ensures
            *v == self@[k@],
    {
        match self.find(k) {
            Some(i) => &self.entries[i].1,
            None => {
                proof {
                    assert(false);
                }
                &self.entries[0].1
            },
        }
    }

    /// The key stored at position `i`.
    pub fn key_at(&self, i: usize) -> (k: &String)
        requires
            i < self.keys_seq().len(),
        ensures
            k@ == self.keys_seq()[i as int],
    {
        &self.entries[i].0
    }

    /// The value stored at position `i`.
    pub fn value_at(&self, i: usize) -> (v: &V)
        requires
            i < self.keys_seq().len(),
        ensures
            *v == self.vals_seq()[i as int],
    {
        &self.entries[i].1
    }

    /// Associates `v` with `k`, replacing any earlier value.
    pub fn insert(&mut self, k: String, v: V)
        requires
            old(self).wf(),
        ensures
            final(self).wf(),
            final(self)@ == old(self)@.insert(k@, v),
    {
        let ghost kv = k@;
        match self.find(k.as_str()) {
            Some(i) => {
                let ghost prev = self.entries@;
                self.entries.set(i, (k, v));
                proof {
                    assert(self.wf());
                    assert forall|q: Seq<char>| self@.contains_key(q) <==> old(self)@.insert(kv, v).contains_key(q) by {
                        if old(self)@.contains_key(q) {
                            let j = old(self).lemma_key_position(q);
                            assert(self.entries@[j].0@ == q);
                            assert(self.has(q));
                        }
                        if self.has(q) {
                            let j = choose|j: int| 0 <= j < self.entries@.len() && self.entries@[j].0@ == q;
                            if j != i {
                                assert(prev[j].0@ == q);
                                assert(old(self).has(q));
                            }
                        }
                    }
                    assert forall|q: Seq<char>| self@.contains_key(q) implies self@[q] == old(self)@.insert(kv, v)[q] by {
                        let j = self.lemma_key_position(q);
                        if j != i {
                            assert(old(self).keys_seq()[j] == q);
                            old(self).lemma_entry(j);
                        }
                    }
                    assert(self@ =~= old(self)@.insert(kv, v));
                }
            }
            None => {
                let ghost prev = self.entries@;
                self.entries.push((k, v));
                proof {
                    assert(self.entries@[prev.len() as int].0@ == kv);
                    assert forall|a: int, b: int|
                        0 <= a < self.entries@.len() && 0 <= b < self.entries@.len() && a != b
                        implies self.entries@[a].0@ != self.entries@[b].0@ by {
                        if a == prev.len() {
                            assert(old(self).keys_seq()[b] == prev[b].0@);
                            if prev[b].0@ == kv {
                                old(self).lemma_entry(b);
                            }
                        } else if b == prev.len() {
                            assert(old(self).keys_seq()[a] == prev[a].0@);
                            if prev[a].0@ == kv {
                                old(self).lemma_entry(a);
                            }
                        }
                    }
                    assert(self.wf());
                    assert forall|q: Seq<char>| self@.contains_key(q) <==> old(self)@.insert(kv, v).contains_key(q) by {
                        if old(self)@.contains_key(q) {
                            let j = old(self).lemma_key_position(q);
                            assert(self.entries@[j].0@ == q);
                            assert(self.has(q));
                        }
                        if q == kv {
                            assert(self.has(q));
                        }
                        if self.has(q) {
                            let j = choose|j: int| 0 <= j < self.entries@.len() && self.entries@[j].0@ == q;
                            if j < prev.len() {
                                assert(prev[j].0@ == q);
                                assert(old(self).has(q));
                            }
                        }
                    }
                    assert forall|q: Seq<char>| self@.contains_key(q) implies self@[q] == old(self)@.insert(kv, v)[q] by {
                        let j = self.lemma_key_position(q);
                        if j < prev.len() {
                            assert(old(self).keys_seq()[j] == q);
                            old(self).lemma_entry(j);
                        }
                    }
                    assert(self@ =~= old(self)@.insert(kv, v));
                }
            }
        }
    }

    /// Replacing the value at position `i` replaces the value of its key.
    proof fn lemma_set_value(&self, i: int)
        requires
            self.wf(),
            0 <= i < self.entries@.len(),
        ensures
            forall|e: StrMap<V>, t: (String, V)| #![trigger e.entries@, self.entries@.update(i, t)]
                t.0 == self.entries@[i].0 && e.entries@ == self.entries@.update(i, t) ==> {
                &&& e.wf()
                &&& e@ == self@.insert(t.0@, t.1)
                &&& e.keys_seq() == self.keys_seq()
            },
    {
        assert forall|e: StrMap<V>, t: (String, V)| #![trigger e.entries@, self.entries@.update(i, t)]
            t.0 == self.entries@[i].0 && e.entries@ == self.entries@.update(i, t) implies {
            &&& e.wf()
            &&& e@ == self@.insert(t.0@, t.1)
            &&& e.keys_seq() == self.keys_seq()
        } by {
            assert(e.keys_seq() =~= self.keys_seq());
            let kv = self.entries@[i].0@;
            let v = t.1;
            assert forall|a: int, b: int|
                0 <= a < e.entries@.len() && 0 <= b < e.entries@.len() && a != b
                implies e.entries@[a].0@ != e.entries@[b].0@ by {
                assert(e.entries@[a].0@ == self.entries@[a].0@);
                assert(e.entries@[b].0@ == self.entries@[b].0@);
            }
            assert forall|q: Seq<char>| e@.contains_key(q) <==> self@.insert(kv, v).contains_key(q) by {
                if self@.contains_key(q) {
                    let j = self.lemma_key_position(q);
                    assert(e.entries@[j].0@ == q);
                    assert(e.has(q));
                }
                if q == kv {
                    assert(e.entries@[i].0@ == q);
                    assert(e.has(q));
                }
                if e.has(q) {
                    let j = choose|j: int| 0 <= j < e.entries@.len() && e.entries@[j].0@ == q;
                    assert(self.entries@[j].0@ == q);
                    assert(self.has(q));
                }
            }
            assert forall|q: Seq<char>| e@.contains_key(q) implies e@[q] == self@.insert(kv, v)[q] by {
                let j = e.lemma_key_position(q);
                if j != i {
                    assert(self.keys_seq()[j] == q);
                    self.lemma_entry(j);
                } else {
                    e.lemma_entry(i);
                }
            }
            assert(e@ =~= self@.insert(kv, v));
        }
    }

    /// The value kept under `k`, to change in place.
    pub fn get_mut(&mut self, k: &str) -> (r: &mut V)
        requires
            old(self).wf(),
            old(self)@.contains_key(k@),
        ensures
            *r == old(self)@[k@],
            final(self).wf(),
            final(self)@ == old(self)@.insert(k@, *final(r)),
            final(self).keys_seq() == old(self).keys_seq(),
    {
        let i = match self.find(k) {
            Some(i) => i,
            None => {
                proof {
                    assert(false);
                }
                0
            },
        };
        proof {
            self.lemma_set_value(i as int);
            assert(self.entries@[i as int].0@ == k@);
        }
        &mut self.entries[i].1
    }

    /// Removes `k`, returning its value if it was present.
    pub fn remove(&mut self, k: &str) -> (r: Option<V>)
        requires
            old(self).wf(),
        ensures
            final(self).wf(),
            final(self)@ == old(self)@.remove(k@),
            match r {
                Some(v) => old(self)@.contains_key(k@) && v == old(self)@[k@],
                None => !old(self)@.contains_key(k@),
            },
    {
        match self.find(k) {
            Some(i) => {
                let ghost prev = self.entries@;
                let (_key, v) = self.entries.remove(i);
                proof {
                    assert forall|a: int| 0 <= a < self.entries@.len() implies
                        self.entries@[a] == (if a < i { prev[a] } else { prev[a + 1] }) by {}
                    assert(self.wf());
                    assert forall|q: Seq<char>| self@.contains_key(q) <==> old(self)@.remove(k@).contains_key(q) by {
                        if self.has(q) {
                            let j = choose|j: int| 0 <= j < self.entries@.len() && self.entries@[j].0@ == q;
                            let jj = if j < i { j } else { j + 1 };
                            assert(prev[jj].0@ == q);
                            assert(old(self).has(q));
                            assert(jj != i);
                        }
                        if old(self)@.remove(k@).contains_key(q) {
                            let j = old(self).lemma_key_position(q);
                            assert(j != i);
                            let jj = if j < i { j } else { j - 1 };
                            assert(self.entries@[jj].0@ == q);
                            assert(self.has(q));
                        }
                    }
                    assert forall|q: Seq<char>| self@.contains_key(q) implies self@[q] == old(self)@.remove(k@)[q] by {
                        let j = self.lemma_key_position(q);
                        let jj = if j < i { j } else { j + 1 };
                        assert(old(self).keys_seq()[jj] == q);
                        old(self).lemma_entry(jj);
                    }
                    assert(self@ =~= old(self)@.remove(k@));
                }
                Some(v)
            }
            None => {
                assert(self@ =~= old(self)@.remove(k@));
                None
            }
        }
    }

    /// A copy of the keys, in storage order.
    pub fn keys(&self) -> (ks: Vec<String>)
        ensures
            ks@.len() == self.keys_seq().len(),
            forall|i: int| 0 <= i < ks@.len() ==> #[trigger] ks@[i]@ == self.keys_seq()[i],
    {
        let mut ks: Vec<String> = Vec::new();
        let n = self.entries.len();
        for i in 0..n
            invariant
                n == self.entries@.len(),
                ks@.len() == i,
                forall|j: int| 0 <= j < i ==> #[trigger] ks@[j]@ == self.keys_seq()[j],
        {
            ks.push(self.entries[i].0.clone());
        }
        ks
    }
}

impl<V> View for StrMap<V> {
    type V = Map<Seq<char>, V>;

    closed spec fn view(&self) -> Map<Seq<char>, V> {
        self.map_view()
    }
}

impl<V: Clone> StrMap<V> {
    /// A copy of the map; values are copied with their own `clone`.
    pub fn clone_map(&self) -> (m: Self)
        requires
            self.wf(),
        ensures
            m.wf(),
            m.keys_seq() == self.keys_seq(),
            m@.dom() == self@.dom(),
            forall|i: int| 0 <= i < self.keys_seq().len() ==> cloned::<V>(self.vals_seq()[i], #[trigger] m.vals_seq()[i]),
    {
        let mut entries: Vec<(String, V)> = Vec::new();
        let n = self.entries.len();
        for i in 0..n
            invariant
                n == self.entries@.len(),
                entries@.len() == i,
                forall|j: int| 0 <= j < i ==> #[trigger] entries@[j].0@ == self.entries@[j].0@,
                forall|j: int| 0 <= j < i ==> cloned::<V>(self.entries@[j].1, #[trigger] entries@[j].1),
        {
            let k = self.entries[i].0.clone();
            let v = self.entries[i].1.clone();
            entries.push((k, v));
        }
        let m = StrMap { entries };
        proof {
            assert(m.keys_seq() =~= self.keys_seq());
            assert forall|q: Seq<char>| m.has(q) <==> self.has(q) by {
                if m.has(q) {
                    let j = choose|j: int| 0 <= j < m.entries@.len() && m.entries@[j].0@ == q;
                    assert(self.entries@[j].0@ == q);
                }
                if self.has(q) {
                    let j = choose|j: int| 0 <= j < self.entries@.len() && self.entries@[j].0@ == q;
                    assert(m.entries@[j].0@ == q);
                }
            }
            assert(m@.dom() =~= self@.dom());
        }
        m
    }
}

} // verus!
