use vstd::prelude::*;
use crate::types::FactorLifecycle;

verus! {

/// `x` placed into `s` after every element whose factor id is not greater.
pub open spec fn insert_by_id(s: Seq<FactorLifecycle>, x: FactorLifecycle) -> Seq<FactorLifecycle>
    decreases s.len(),
{
    if s.len() == 0 {
        seq![x]
    } else if x.factor_id < s.last().factor_id {
        insert_by_id(s.drop_last(), x).push(s.last())
    } else {
        s.push(x)
    }
}

/// The records sorted by factor id; records with the same id keep their order.
pub open spec fn sort_by_id(s: Seq<FactorLifecycle>) -> Seq<FactorLifecycle>
    decreases s.len(),
{
    if s.len() == 0 {
        s
    } else {
        insert_by_id(sort_by_id(s.drop_last()), s.last())
    }
}

/// The records are in ascending order of factor id.
pub open spec fn sorted_by_id(s: Seq<FactorLifecycle>) -> bool {
    forall|i: int, j: int| 0 <= i < j < s.len() ==> s[i].factor_id <= s[j].factor_id
}

proof fn lemma_insert_by_id_at(s: Seq<FactorLifecycle>, x: FactorLifecycle, i: int)
    requires
        0 <= i <= s.len(),
        forall|j: int| i <= j < s.len() ==> x.factor_id < #[trigger] s[j].factor_id,
        i == 0 || s[i - 1].factor_id <= x.factor_id,
    ensures
        insert_by_id(s, x) == s.take(i) + seq![x] + s.skip(i),
    decreases s.len(),
{
    if s.len() == 0 {
        assert(s.take(i) + seq![x] + s.skip(i) =~= seq![x]);
    } else if i == s.len() {
        assert(s.take(i) + seq![x] + s.skip(i) =~= s.push(x));
    } else {
        let t = s.drop_last();
        assert forall|j: int| i <= j < t.len() implies x.factor_id < #[trigger] t[j].factor_id by {
            assert(t[j] == s[j]);
        }
        lemma_insert_by_id_at(t, x, i);
        assert(insert_by_id(t, x).push(s.last()) =~= s.take(i) + seq![x] + s.skip(i));
    }
}

/// Inserting into a sorted sequence keeps it sorted and adds exactly `x`.
pub proof fn lemma_insert_by_id(s: Seq<FactorLifecycle>, x: FactorLifecycle)
    requires
        sorted_by_id(s),
    ensures
        sorted_by_id(insert_by_id(s, x)),
        insert_by_id(s, x).to_multiset() == s.to_multiset().insert(x),
    decreases s.len(),
{
    broadcast use vstd::seq_lib::group_to_multiset_ensures;
    if s.len() == 0 {
        assert(seq![x] =~= Seq::<FactorLifecycle>::empty().push(x));
    } else if x.factor_id < s.last().factor_id {
        let t = s.drop_last();
        lemma_insert_by_id(t, x);
        let r = insert_by_id(t, x);
        assert(s =~= t.push(s.last()));
        assert forall|i: int, j: int| 0 <= i < j < r.push(s.last()).len() implies
            r.push(s.last())[i].factor_id <= r.push(s.last())[j].factor_id by {
            if j == r.len() {
                if i < r.len() {
                    assert(r.to_multiset().contains(r[i]));
                    assert(t.to_multiset().insert(x).contains(r[i]));
                    if r[i] != x {
                        assert(t.to_multiset().contains(r[i]));
                        assert(t.contains(r[i]));
                        let k = choose|k: int| 0 <= k < t.len() && t[k] == r[i];
                        assert(s[k] == t[k]);
                    }
                }
            }
        }
    } else {
    }
}

/// Sorting by insertion gives a sorted permutation.
pub proof fn lemma_sort_by_id(s: Seq<FactorLifecycle>)
    ensures
        sorted_by_id(sort_by_id(s)),
        sort_by_id(s).to_multiset() == s.to_multiset(),
    decreases s.len(),
{
    broadcast use vstd::seq_lib::group_to_multiset_ensures;
    if s.len() > 0 {
        lemma_sort_by_id(s.drop_last());
        lemma_insert_by_id(sort_by_id(s.drop_last()), s.last());
        assert(s =~= s.drop_last().push(s.last()));
    }
}

/// Inserts `x` into `v` at the place `insert_by_id` gives it.
fn insert_lifecycle(v: &mut Vec<FactorLifecycle>, x: FactorLifecycle)
    ensures
        final(v)@ == insert_by_id(old(v)@, x),
{
    let ghost s = v@;
    let mut i = v.len();
    while i > 0 && x.factor_id < v[i - 1].factor_id
        invariant
            i <= v@.len(),
            s == v@,
            forall|j: int| i <= j < v@.len() ==> x.factor_id < #[trigger] s[j].factor_id,
        decreases i,
    {
        i = i - 1;
    }
    proof {
        lemma_insert_by_id_at(s, x, i as int);
    }
    v.insert(i, x);
    assert(v@ =~= s.take(i as int) + seq![x] + s.skip(i as int));
}

/// The records sorted by factor id, records with equal ids in their
/// original order (as a stable sort leaves them).
pub fn sort_lifecycles(v: &Vec<FactorLifecycle>) -> (r: Vec<FactorLifecycle>)
    ensures
        r@ == sort_by_id(v@),
{
    let mut r: Vec<FactorLifecycle> = Vec::new();
    let n = v.len();
    proof {
        assert(v@.take(0) =~= Seq::<FactorLifecycle>::empty());
    }
    for i in 0..n
        invariant
            n == v@.len(),
            r@ == sort_by_id(v@.take(i as int)),
    {
        insert_lifecycle(&mut r, v[i]);
        proof {
            assert(v@.take(i + 1).drop_last() =~= v@.take(i as int));
            assert(v@.take(i + 1).last() == v@[i as int]);
        }
    }
    proof {
        assert(v@.take(n as int) =~= v@);
    }
    r
}

/// The records with every run of records of the same factor id cut down to
/// its first record.
pub open spec fn dedup_by_id(s: Seq<FactorLifecycle>) -> Seq<FactorLifecycle>
    decreases s.len(),
{
    if s.len() == 0 {
        s
    } else if s.len() > 1 && s[s.len() - 2].factor_id == s.last().factor_id {
        dedup_by_id(s.drop_last())
    } else {
        dedup_by_id(s.drop_last()).push(s.last())
    }
}

/// Appends the records of `src` to `dst`.
pub fn extend_lifecycles(dst: &mut Vec<FactorLifecycle>, src: &Vec<FactorLifecycle>)
    ensures
        final(dst)@ == old(dst)@ + src@,
{
    let n = src.len();
    for i in 0..n
        invariant
            n == src@.len(),
            dst@ == old(dst)@ + src@.take(i as int),
    {
        dst.push(src[i]);
        proof {
            assert(src@.take(i + 1) =~= src@.take(i as int).push(src@[i as int]));
        }
    }
    proof {
        assert(src@.take(n as int) =~= src@);
    }
}

/// Cuts every run of records of the same factor id down to its first record
/// (as a dedup by factor id does).
pub fn dedup_lifecycles(v: &Vec<FactorLifecycle>) -> (r: Vec<FactorLifecycle>)
    ensures
        r@ == dedup_by_id(v@),
{
    let mut r: Vec<FactorLifecycle> = Vec::new();
    let n = v.len();
    proof {
        assert(v@.take(0) =~= Seq::<FactorLifecycle>::empty());
    }
    for i in 0..n
        invariant
            n == v@.len(),
            r@ == dedup_by_id(v@.take(i as int)),
    {
        if i == 0 || v[i - 1].factor_id != v[i].factor_id {
            r.push(v[i]);
        }
        proof {
            let t = v@.take(i + 1);
            assert(t.drop_last() =~= v@.take(i as int));
            assert(t.last() == v@[i as int]);
            if i > 0 {
                assert(t[t.len() - 2] == v@[i - 1]);
            }
        }
    }
    proof {
        assert(v@.take(n as int) =~= v@);
    }
    r
}

} // verus!
