use vstd::prelude::*;

verus! {

/// Position of the first `c` in `s`, or -1 when `s` holds none.
pub open spec fn first_index_of(s: Seq<char>, c: char) -> int
    decreases s.len(),
{
    if s.len() == 0 {
        -1
    } else if s[0] == c {
        0
    } else {
        let r = first_index_of(s.drop_first(), c);
        if r < 0 {
            -1
        } else {
            r + 1
        }
    }
}

pub proof fn lemma_first_index_of(s: Seq<char>, c: char)
    ensures
        -1 <= first_index_of(s, c) < s.len(),
        first_index_of(s, c) == -1 <==> !s.contains(c),
        first_index_of(s, c) >= 0 ==> s[first_index_of(s, c)] == c,
        forall|j: int| 0 <= j < first_index_of(s, c) ==> s[j] != c,
        first_index_of(s, c) == -1 ==> forall|j: int| 0 <= j < s.len() ==> s[j] != c,
    decreases s.len(),
{
    if s.len() > 0 {
        lemma_first_index_of(s.drop_first(), c);
        if s[0] != c {
            assert forall|j: int| 1 <= j < s.len() implies s[j] == s.drop_first()[j - 1] by {}
            if first_index_of(s.drop_first(), c) < 0 {
                assert forall|j: int| 0 <= j < s.len() implies s[j] != c by {
                    if j > 0 {
                        assert(s[j] == s.drop_first()[j - 1]);
                    }
                }
            } else {
                assert(s.drop_first().contains(c));
                assert(s.contains(c));
            }
            if s.contains(c) {
                let k = choose|k: int| 0 <= k < s.len() && s[k] == c;
                assert(k > 0);
                assert(s.drop_first()[k - 1] == c);
            }
        } else {
            assert(s.contains(c));
        }
    }
}

/// If `i` holds `c` and nothing before it does, `i` is the first position of `c`.
pub proof fn lemma_first_index_at(s: Seq<char>, c: char, i: int)
    requires
        0 <= i < s.len(),
        s[i] == c,
        forall|j: int| 0 <= j < i ==> s[j] != c,
    ensures
        first_index_of(s, c) == i,
{
    lemma_first_index_of(s, c);
    assert(s.contains(c));
    let f = first_index_of(s, c);
    if f < i {
        assert(s[f] == c);
    }
    if f > i {
        assert(s[i] != c);
    }
}

/// The characters of the atom `attr=value`.
pub open spec fn atom_of(attr: Seq<char>, value: Seq<char>) -> Seq<char> {
    attr + seq!['='] + value
}

/// The attribute part of an atom: everything before its first `=`.
pub open spec fn atom_attr(s: Seq<char>) -> Seq<char> {
    s.take(first_index_of(s, '='))
}

/// The value part of an atom: everything after its first `=`.
pub open spec fn atom_value(s: Seq<char>) -> Seq<char> {
    s.skip(first_index_of(s, '=') + 1)
}

/// An atom can be split at `=` when it holds one.
pub open spec fn atom_splits(s: Seq<char>) -> bool {
    first_index_of(s, '=') >= 0
}

/// An atom built from an attribute without `=` splits back into its parts.
pub proof fn lemma_atom_roundtrip(attr: Seq<char>, value: Seq<char>)
    requires
        !attr.contains('='),
    ensures
        atom_splits(atom_of(attr, value)),
        atom_attr(atom_of(attr, value)) == attr,
        atom_value(atom_of(attr, value)) == value,
{
    let s = atom_of(attr, value);
    assert(s[attr.len() as int] == '=');
    assert forall|j: int| 0 <= j < attr.len() implies s[j] != '=' by {
        assert(s[j] == attr[j]);
    }
    lemma_first_index_at(s, '=', attr.len() as int);
    assert(s.take(attr.len() as int) =~= attr);
    assert(s.skip(attr.len() as int + 1) =~= value);
}

/// Builds the atom `attr=value`.
pub fn make_atom(attr: &str, value: &str) -> (s: String)
    ensures
        s@ == atom_of(attr@, value@),
{
    let mut s = attr.to_owned();
    s.append("=");
    s.append(value);
    proof {
        reveal_strlit("=");
    }
    assert(s@ =~= atom_of(attr@, value@));
    s
}

/// Splits an atom at its first `=` into attribute and value.
pub fn split_atom(atom: &str) -> (r: Option<(String, String)>)
    ensures
        match r {
            Some((a, v)) => atom_splits(atom@) && a@ == atom_attr(atom@) && v@ == atom_value(atom@),
            None => !atom_splits(atom@),
        },
{
    proof {
        lemma_first_index_of(atom@, '=');
    }
    let n = atom.unicode_len();
    let mut i: usize = 0;
    while i < n
        invariant
            n == atom@.len(),
            i <= n,
            forall|j: int| 0 <= j < i ==> atom@[j] != '=',
        decreases n - i,
    {
        if atom.get_char(i) == '=' {
            proof {
                lemma_first_index_at(atom@, '=', i as int);
            }
            let a = atom.substring_char(0, i).to_owned();
            let v = atom.substring_char(i + 1, n).to_owned();
            assert(a@ =~= atom_attr(atom@));
            assert(v@ =~= atom_value(atom@));
            return Some((a, v));
        }
        i = i + 1;
    }
    None
}

/// Whether `s` begins with `prefix`.
pub fn starts_with(s: &str, prefix: &str) -> (b: bool)
    ensures
        b == (prefix@.len() <= s@.len() && s@.take(prefix@.len() as int) == prefix@),
{
    let n = s.unicode_len();
    let m = prefix.unicode_len();
    if m > n {
        return false;
    }
    let mut i: usize = 0;
    while i < m
        invariant
            n == s@.len(),
            m == prefix@.len(),
            m <= n,
            i <= m,
            forall|j: int| 0 <= j < i ==> s@[j] == prefix@[j],
        decreases m - i,
    {
        if s.get_char(i) != prefix.get_char(i) {
            assert(s@.take(m as int)[i as int] != prefix@[i as int]);
            return false;
        }
        i = i + 1;
    }
    assert(s@.take(m as int) =~= prefix@);
    true
}

/// Lexicographic order on character sequences (by code point), the order
/// in which Rust compares strings.
pub open spec fn str_lt(a: Seq<char>, b: Seq<char>) -> bool
    decreases a.len(),
{
    if a.len() == 0 {
        b.len() > 0
    } else if b.len() == 0 {
        false
    } else if a[0] != b[0] {
        (a[0] as u32) < (b[0] as u32)
    } else {
        str_lt(a.drop_first(), b.drop_first())
    }
}

/// Whether `a` sorts strictly before `b`.
pub fn str_less(a: &String, b: &String) -> (r: bool)
    ensures
        r == str_lt(a@, b@),
{
    let sa = a.as_str();
    let sb = b.as_str();
    let n = sa.unicode_len();
    let m = sb.unicode_len();
    let mut i: usize = 0;
    assert(a@.skip(0) =~= a@);
    assert(b@.skip(0) =~= b@);
    while i < n && i < m
        invariant
            n == a@.len(),
            m == b@.len(),
            i <= n,
            i <= m,
            sa@ == a@,
            sb@ == b@,
            str_lt(a@, b@) == str_lt(a@.skip(i as int), b@.skip(i as int)),
        decreases n - i,
    {
        let ca = sa.get_char(i);
        let cb = sb.get_char(i);
        assert(a@.skip(i as int)[0] == ca);
        assert(b@.skip(i as int)[0] == cb);
        if ca != cb {
            return (ca as u32) < (cb as u32);
        }
        assert(a@.skip(i as int).drop_first() =~= a@.skip(i + 1));
        assert(b@.skip(i as int).drop_first() =~= b@.skip(i + 1));
        i = i + 1;
    }
    assert(a@.skip(i as int).len() == n - i);
    assert(b@.skip(i as int).len() == m - i);
    n == i && m > i
}

/// `x` placed into the sorted sequence `s` after every element that does not sort after it.
pub open spec fn insert_sorted(s: Seq<Seq<char>>, x: Seq<char>) -> Seq<Seq<char>>
    decreases s.len(),
{
    if s.len() == 0 {
        seq![x]
    } else if !str_lt(x, s.last()) {
        s.push(x)
    } else {
        insert_sorted(s.drop_last(), x).push(s.last())
    }
}

/// The sequence sorted by insertion.
pub open spec fn sort_strs(s: Seq<Seq<char>>) -> Seq<Seq<char>>
    decreases s.len(),
{
    if s.len() == 0 {
        Seq::empty()
    } else {
        insert_sorted(sort_strs(s.drop_last()), s.last())
    }
}

proof fn lemma_insert_at(s: Seq<Seq<char>>, x: Seq<char>, i: int)
    requires
        0 <= i <= s.len(),
        forall|j: int| i <= j < s.len() ==> str_lt(x, #[trigger] s[j]),
        i == 0 || !str_lt(x, s[i - 1]),
    ensures
        insert_sorted(s, x) == s.take(i) + seq![x] + s.skip(i),
    decreases s.len(),
{
    if s.len() == 0 {
        assert(s.take(i) + seq![x] + s.skip(i) =~= seq![x]);
    } else if i == s.len() {
        assert(s.take(i) + seq![x] + s.skip(i) =~= s.push(x));
    } else {
        assert(str_lt(x, s.last()));
        let t = s.drop_last();
        assert forall|j: int| i <= j < t.len() implies str_lt(x, #[trigger] t[j]) by {
            assert(t[j] == s[j]);
        }
        lemma_insert_at(t, x, i);
        assert(insert_sorted(t, x).push(s.last()) =~= s.take(i) + seq![x] + s.skip(i));
    }
}

/// Sorting keeps the elements: the sorted sequence holds exactly what the
/// sequence holds.
pub proof fn lemma_sort_strs_contains(s: Seq<Seq<char>>, x: Seq<char>)
    ensures
        sort_strs(s).contains(x) <==> s.contains(x),
    decreases s.len(),
{
    if s.len() > 0 {
        let t = s.drop_last();
        lemma_sort_strs_contains(t, x);
        lemma_insert_sorted_contains(sort_strs(t), s.last(), x);
        if t.contains(x) {
            let i = choose|i: int| 0 <= i < t.len() && t[i] == x;
            assert(s[i] == x);
        }
        if s.contains(x) && x != s.last() {
            let i = choose|i: int| 0 <= i < s.len() && s[i] == x;
            assert(t[i] == x);
        }
        assert(s[s.len() - 1] == s.last());
    }
}

pub proof fn lemma_insert_sorted_contains(s: Seq<Seq<char>>, y: Seq<char>, x: Seq<char>)
    ensures
        insert_sorted(s, y).contains(x) <==> (s.contains(x) || x == y),
    decreases s.len(),
{
    if s.len() == 0 {
        assert(insert_sorted(s, y)[0] == y);
    } else if !str_lt(y, s.last()) {
        let r = s.push(y);
        assert(r[s.len() as int] == y);
        if s.contains(x) {
            let i = choose|i: int| 0 <= i < s.len() && s[i] == x;
            assert(r[i] == x);
        }
        if r.contains(x) && x != y {
            let i = choose|i: int| 0 <= i < r.len() && r[i] == x;
            assert(s[i] == x);
        }
    } else {
        let t = s.drop_last();
        lemma_insert_sorted_contains(t, y, x);
        let u = insert_sorted(t, y);
        let r = u.push(s.last());
        assert(r[u.len() as int] == s.last());
        assert(s[s.len() - 1] == s.last());
        if u.contains(x) {
            let i = choose|i: int| 0 <= i < u.len() && u[i] == x;
            assert(r[i] == x);
        }
        if r.contains(x) && x != s.last() {
            let i = choose|i: int| 0 <= i < r.len() && r[i] == x;
            assert(u[i] == x);
        }
        if t.contains(x) {
            let i = choose|i: int| 0 <= i < t.len() && t[i] == x;
            assert(s[i] == x);
        }
        if s.contains(x) && x != s.last() {
            let i = choose|i: int| 0 <= i < s.len() && s[i] == x;
            assert(t[i] == x);
        }
    }
}

/// Inserts `x` into `v` at the place `insert_sorted` gives it.
fn insert_into_sorted(v: &mut Vec<String>, x: String)
    ensures
        crate::types::strings_view(final(v)@) == insert_sorted(crate::types::strings_view(old(v)@), x@),
{
    let ghost sv = crate::types::strings_view(v@);
    let mut i = v.len();
    while i > 0 && str_less(&x, &v[i - 1])
        invariant
            i <= v@.len(),
            sv == crate::types::strings_view(v@),
            forall|j: int| i <= j < v@.len() ==> str_lt(x@, #[trigger] sv[j]),
        decreases i,
    {
        i = i - 1;
    }
    proof {
        lemma_insert_at(sv, x@, i as int);
    }
    v.insert(i, x);
    assert(crate::types::strings_view(v@) =~= sv.take(i as int) + seq![x@] + sv.skip(i as int));
}

/// The strings sorted (as Rust sorts them).
pub fn sort_strings(v: &Vec<String>) -> (r: Vec<String>)
    ensures
        crate::types::strings_view(r@) == sort_strs(crate::types::strings_view(v@)),
{
    let mut r: Vec<String> = Vec::new();
    let n = v.len();
    proof {
        assert(crate::types::strings_view(v@).take(0) =~= Seq::<Seq<char>>::empty());
        assert(crate::types::strings_view(r@) =~= Seq::<Seq<char>>::empty());
    }
    for i in 0..n
        invariant
            n == v@.len(),
            crate::types::strings_view(r@) == sort_strs(crate::types::strings_view(v@).take(i as int)),
    {
        insert_into_sorted(&mut r, v[i].clone());
        proof {
            let sv = crate::types::strings_view(v@);
            assert(sv.take(i + 1).drop_last() =~= sv.take(i as int));
            assert(sv.take(i + 1).last() == v@[i as int]@);
        }
    }
    proof {
        assert(crate::types::strings_view(v@).take(n as int) =~= crate::types::strings_view(v@));
    }
    r
}

/// The parts joined with `sep` between consecutive parts.
pub open spec fn join_strs(s: Seq<Seq<char>>, sep: Seq<char>) -> Seq<char>
    decreases s.len(),
{
    if s.len() == 0 {
        Seq::empty()
    } else if s.len() == 1 {
        s[0]
    } else {
        join_strs(s.drop_last(), sep) + sep + s.last()
    }
}

/// Joins the strings with `sep` between consecutive ones.
pub fn join_strings(v: &Vec<String>, sep: &str) -> (r: String)
    ensures
        r@ == join_strs(crate::types::strings_view(v@), sep@),
{
    let mut r = String::new();
    let n = v.len();
    proof {
        assert(crate::types::strings_view(v@).take(0) =~= Seq::<Seq<char>>::empty());
    }
    for i in 0..n
        invariant
            n == v@.len(),
            r@ == join_strs(crate::types::strings_view(v@).take(i as int), sep@),
    {
        let ghost sv = crate::types::strings_view(v@);
        if i > 0 {
            r.append(sep);
        }
        r.append(v[i].as_str());
        proof {
            assert(sv.take(i + 1).drop_last() =~= sv.take(i as int));
            if i == 0 {
                assert(sv.take(1)[0] == v@[0]@);
                assert(r@ =~= v@[0]@);
            }
        }
    }
    proof {
        assert(crate::types::strings_view(v@).take(n as int) =~= crate::types::strings_view(v@));
    }
    r
}

/// The character of a decimal digit.
pub open spec fn digit_char(d: nat) -> char {
    if d == 0 { '0' }
    else if d == 1 { '1' }
    else if d == 2 { '2' }
    else if d == 3 { '3' }
    else if d == 4 { '4' }
    else if d == 5 { '5' }
    else if d == 6 { '6' }
    else if d == 7 { '7' }
    else if d == 8 { '8' }
    else { '9' }
}

/// The decimal notation of `n`: no sign, no leading zeros.
pub open spec fn decimal(n: nat) -> Seq<char>
    decreases n,
{
    if n < 10 {
        seq![digit_char(n)]
    } else {
        decimal(n / 10).push(digit_char(n % 10))
    }
}

/// The one-character string of a decimal digit.
fn digit_str(d: u64) -> (s: &'static str)
    requires
        d < 10,
    ensures
        s@ == seq![digit_char(d as nat)],
{
    proof {
        reveal_strlit("0");
        reveal_strlit("1");
        reveal_strlit("2");
        reveal_strlit("3");
        reveal_strlit("4");
        reveal_strlit("5");
        reveal_strlit("6");
        reveal_strlit("7");
        reveal_strlit("8");
        reveal_strlit("9");
    }
    if d == 0 { "0" }
    else if d == 1 { "1" }
    else if d == 2 { "2" }
    else if d == 3 { "3" }
    else if d == 4 { "4" }
    else if d == 5 { "5" }
    else if d == 6 { "6" }
    else if d == 7 { "7" }
    else if d == 8 { "8" }
    else { "9" }
}

/// The decimal notation of `n`, as `to_string` writes an unsigned integer.
pub fn decimal_string(n: u64) -> (s: String)
    ensures
        s@ == decimal(n as nat),
    decreases n,
{
    if n < 10 {
        let s = digit_str(n).to_owned();
        assert(s@ =~= decimal(n as nat));
        s
    } else {
        let mut s = decimal_string(n / 10);
        s.append(digit_str(n % 10));
        assert(s@ =~= decimal(n as nat));
        s
    }
}

} // verus!
