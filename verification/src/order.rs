use vstd::prelude::*;
use crate::graph::{conj_key, eq_atom_list, FactorGraph};
use crate::metrics::{advance, Metrics};
use crate::text::{insert_sorted, sort_strs, str_lt};
use crate::types::QueryFilter;

verus! {

broadcast use vstd::seq_lib::group_to_multiset_ensures;

/// No element sorts strictly before an earlier one.
pub open spec fn sorted_strs(s: Seq<Seq<char>>) -> bool {
    forall|i: int, j: int| 0 <= i < j < s.len() ==> !str_lt(#[trigger] s[j], #[trigger] s[i])
}

/// Nothing sorts strictly before itself.
proof fn lemma_str_lt_irreflexive(a: Seq<char>)
    ensures
        !str_lt(a, a),
    decreases a.len(),
{
    if a.len() > 0 {
        lemma_str_lt_irreflexive(a.drop_first());
    }
}

/// Different characters have different codes.
proof fn lemma_char_code_injective(c: char, d: char)
    requires
        c != d,
    ensures
        (c as u32) != (d as u32),
{
    assert(0 <= (c as int) <= 0x10FFFF);
    assert((c as int) != (d as int));
    assert((c as u32) as int == (c as int));
}

/// Of two different sequences, one sorts strictly before the other.
proof fn lemma_str_lt_total(a: Seq<char>, b: Seq<char>)
    requires
        a != b,
    ensures
        str_lt(a, b) || str_lt(b, a),
    decreases a.len(),
{
    if a.len() > 0 && b.len() > 0 {
        if a[0] == b[0] {
            let a1 = a.drop_first();
            let b1 = b.drop_first();
            assert(a1.len() == a.len() - 1 && b1.len() == b.len() - 1);
            if a1 == b1 {
                assert(a.len() == b.len());
                assert forall|i: int| 0 <= i < a.len() implies a[i] == b[i] by {
                    if i > 0 {
                        assert(a[i] == a1[i - 1]);
                        assert(b[i] == b1[i - 1]);
                    }
                }
                assert(a =~= b);
            }
            lemma_str_lt_total(a.drop_first(), b.drop_first());
        } else {
            lemma_char_code_injective(a[0], b[0]);
        }
    } else if a.len() == 0 && b.len() == 0 {
        assert(a =~= b);
    }
}

/// `str_lt` is transitive.
proof fn lemma_str_lt_transitive(a: Seq<char>, b: Seq<char>, c: Seq<char>)
    requires
        str_lt(a, b),
        str_lt(b, c),
    ensures
        str_lt(a, c),
    decreases a.len(),
{
    if a.len() > 0 && a[0] == b[0] && b[0] == c[0] {
        lemma_str_lt_transitive(a.drop_first(), b.drop_first(), c.drop_first());
    }
}

/// No two sequences sort strictly before each other.
proof fn lemma_str_lt_asymmetric(a: Seq<char>, b: Seq<char>)
    ensures
        str_lt(a, b) ==> !str_lt(b, a),
{
    if str_lt(a, b) && str_lt(b, a) {
        lemma_str_lt_transitive(a, b, a);
        lemma_str_lt_irreflexive(a);
    }
}

/// Inserting into a sorted sequence keeps it sorted and adds the element.
proof fn lemma_insert_sorted_sorted(s: Seq<Seq<char>>, x: Seq<char>)
    requires
        sorted_strs(s),
    ensures
        sorted_strs(insert_sorted(s, x)),
        insert_sorted(s, x).to_multiset() == s.to_multiset().insert(x),
    decreases s.len(),
{
    if s.len() == 0 {
        assert(insert_sorted(s, x) =~= s.push(x));
    } else if !str_lt(x, s.last()) {
        let r = s.push(x);
        assert forall|i: int, j: int| 0 <= i < j < r.len() implies !str_lt(#[trigger] r[j], #[trigger] r[i]) by {
            if j == s.len() {
                assert(r[i] == s[i]);
                if i < s.len() - 1 {
                    assert(!str_lt(s[s.len() - 1], s[i]));
                    if s[i] != s.last() {
                        lemma_str_lt_total(s[i], s.last());
                        if str_lt(x, s[i]) {
                            lemma_str_lt_transitive(x, s[i], s.last());
                        }
                    }
                }
            } else {
                assert(r[i] == s[i] && r[j] == s[j]);
            }
        }
    } else {
        let t = s.drop_last();
        let l = s.last();
        assert(sorted_strs(t)) by {
            assert forall|i: int, j: int| 0 <= i < j < t.len() implies !str_lt(#[trigger] t[j], #[trigger] t[i]) by {
                assert(t[i] == s[i] && t[j] == s[j]);
            }
        }
        lemma_insert_sorted_sorted(t, x);
        let u = insert_sorted(t, x);
        let r = u.push(l);
        assert(insert_sorted(s, x) == r);
        assert forall|i: int, j: int| 0 <= i < j < r.len() implies !str_lt(#[trigger] r[j], #[trigger] r[i]) by {
            if j == u.len() {
                assert(r[j] == l);
                assert(r[i] == u[i]);
                assert(u.contains(u[i]));
                crate::text::lemma_insert_sorted_contains(t, x, u[i]);
                if u[i] == x {
                    lemma_str_lt_asymmetric(x, l);
                } else {
                    let k = choose|k: int| 0 <= k < t.len() && t[k] == u[i];
                    assert(s[k] == t[k]);
                    assert(!str_lt(s[s.len() - 1], s[k]));
                }
            } else {
                assert(r[i] == u[i] && r[j] == u[j]);
            }
        }
        assert(s =~= t.push(l));
        assert(r.to_multiset() == u.to_multiset().insert(l));
        assert(u.to_multiset().insert(l) =~= t.to_multiset().insert(l).insert(x));
    }
}

/// Sorting by insertion gives a sorted arrangement of the same elements.
proof fn lemma_sort_strs_sorted(s: Seq<Seq<char>>)
    ensures
        sorted_strs(sort_strs(s)),
        sort_strs(s).to_multiset() == s.to_multiset(),
    decreases s.len(),
{
    if s.len() == 0 {
        assert(sort_strs(s).to_multiset() =~= s.to_multiset());
    } else {
        let t = s.drop_last();
        lemma_sort_strs_sorted(t);
        lemma_insert_sorted_sorted(sort_strs(t), s.last());
        assert(s =~= t.push(s.last()));
    }
}

/// Two sorted arrangements of the same elements are the same sequence.
proof fn lemma_sorted_unique(a: Seq<Seq<char>>, b: Seq<Seq<char>>)
    requires
        sorted_strs(a),
        sorted_strs(b),
        a.to_multiset() == b.to_multiset(),
    ensures
        a == b,
    decreases a.len(),
{
    a.to_multiset_ensures();
    b.to_multiset_ensures();
    assert(a.len() == b.len());
    if a.len() == 0 {
        assert(a =~= b);
    } else {
        let n = a.len() - 1;
        let x = a[n];
        let y = b[n];
        assert(a.contains(x));
        assert(b.to_multiset().count(x) > 0);
        assert(b.contains(x));
        let j = choose|j: int| 0 <= j < b.len() && b[j] == x;
        if j < n {
            assert(!str_lt(b[n], b[j]));
        }
        assert(b.contains(y));
        assert(b.to_multiset().count(y) > 0);
        assert(a.to_multiset().count(y) > 0);
        assert(a.contains(y));
        let i = choose|i: int| 0 <= i < a.len() && a[i] == y;
        if i < n {
            assert(!str_lt(a[n], a[i]));
        }
        if x != y {
            lemma_str_lt_total(x, y);
        }
        assert(x == y);
        let a1 = a.drop_last();
        let b1 = b.drop_last();
        assert(a =~= a1.push(x));
        assert(b =~= b1.push(x));
        assert(a1.to_multiset() =~= a.to_multiset().remove(x)) by {
            assert(a1.to_multiset().insert(x) == a.to_multiset());
        }
        assert(b1.to_multiset() =~= b.to_multiset().remove(x)) by {
            assert(b1.to_multiset().insert(x) == b.to_multiset());
        }
        assert(sorted_strs(a1)) by {
            assert forall|p: int, q: int| 0 <= p < q < a1.len() implies !str_lt(#[trigger] a1[q], #[trigger] a1[p]) by {
                assert(a1[p] == a[p] && a1[q] == a[q]);
            }
        }
        assert(sorted_strs(b1)) by {
            assert forall|p: int, q: int| 0 <= p < q < b1.len() implies !str_lt(#[trigger] b1[q], #[trigger] b1[p]) by {
                assert(b1[p] == b[p] && b1[q] == b[q]);
            }
        }
        lemma_sorted_unique(a1, b1);
    }
}

/// The key under which a conjunction of equalities is counted, and the
/// intent of the factor it materialises as, do not depend on the order of
/// its equalities: two conjunctions with the same equality atoms, counted
/// with multiplicity, share both.
pub proof fn law_conjunction_key_ignores_order(s1: Seq<QueryFilter>, s2: Seq<QueryFilter>)
    requires
        eq_atom_list(s1).to_multiset() == eq_atom_list(s2).to_multiset(),
    ensures
        sort_strs(eq_atom_list(s1)) == sort_strs(eq_atom_list(s2)),
        conj_key(s1) == conj_key(s2),
{
    lemma_sort_strs_sorted(eq_atom_list(s1));
    lemma_sort_strs_sorted(eq_atom_list(s2));
    lemma_sorted_unique(sort_strs(eq_atom_list(s1)), sort_strs(eq_atom_list(s2)));
}


/// A query with fallback for a conjunction of equalities answered in factor
/// space advances the counter of its key by one and touches no other.
proof fn lemma_query_counts(old: FactorGraph, new: FactorGraph, f: QueryFilter, r: Set<u32>, m: Metrics, m0: Metrics)
    requires
        f is And,
        eq_atom_list(f->And_0@).len() == f->And_0@.len(),
        !old.eval_fb_spec(f).1,
        new.fallback_queried(&old, f, r, m, m0),
    ensures
        new.conjunction_hits@ == old.conjunction_hits@.insert(conj_key(f->And_0@), advance(old.hits_of(conj_key(f->And_0@)), 1)),
{
    let mid = choose|mid: FactorGraph| {
        &&& #[trigger] mid.accessed_from(&old.ticked(), crate::graph::hits_fn(old.bpi_view(), f))
        &&& mid.wf()
        &&& if !old.eval_fb_spec(f).1 && f is And {
            new.adapted_from(&mid, f->And_0@, r)
        } else {
            new.same_state(&mid)
        }
    };
    assert(mid.conjunction_hits@ == old.conjunction_hits@);
    assert(mid.hits_of(conj_key(f->And_0@)) == old.hits_of(conj_key(f->And_0@)));
}

/// Two conjunctions of the same equality atoms (counted with multiplicity),
/// in whatever order, each answered in factor space by
/// `query_with_fallback` one after the other, count on one counter: it goes
/// up by two, and every other counter stays as it was.
pub proof fn law_both_orders_one_counter(
    g0: FactorGraph,
    g1: FactorGraph,
    g2: FactorGraph,
    f1: QueryFilter,
    f2: QueryFilter,
    r1: Set<u32>,
    r2: Set<u32>,
    m0: Metrics,
    m1: Metrics,
    m2: Metrics,
)
    requires
        f1 is And,
        f2 is And,
        eq_atom_list(f1->And_0@).len() == f1->And_0@.len(),
        eq_atom_list(f2->And_0@).len() == f2->And_0@.len(),
        eq_atom_list(f1->And_0@).to_multiset() == eq_atom_list(f2->And_0@).to_multiset(),
        !g0.eval_fb_spec(f1).1,
        !g1.eval_fb_spec(f2).1,
        g1.fallback_queried(&g0, f1, r1, m1, m0),
        g2.fallback_queried(&g1, f2, r2, m2, m1),
    ensures
        conj_key(f1->And_0@) == conj_key(f2->And_0@),
        g2.hits_of(conj_key(f1->And_0@)) == advance(g0.hits_of(conj_key(f1->And_0@)), 2),
        g2.conjunction_hits@.dom() == g0.conjunction_hits@.dom().insert(conj_key(f1->And_0@)),
        forall|k: Seq<char>| k != conj_key(f1->And_0@) ==> #[trigger] g2.hits_of(k) == g0.hits_of(k),
{
    law_conjunction_key_ignores_order(f1->And_0@, f2->And_0@);
    lemma_query_counts(g0, g1, f1, r1, m1, m0);
    lemma_query_counts(g1, g2, f2, r2, m2, m1);
    let key = conj_key(f1->And_0@);
    crate::graph::lemma_advance_add(g0.hits_of(key), 1, 1);
    assert(g2.conjunction_hits@.dom() =~= g0.conjunction_hits@.dom().insert(key));
}

} // verus!
