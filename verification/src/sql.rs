use vstd::prelude::*;
use crate::text::{decimal, decimal_string, join_strs};
use crate::types::strings_view;
use crate::workload::FilterPredicate;

verus! {

/// `s` with every `c` written twice.
pub open spec fn doubled(s: Seq<char>, c: char) -> Seq<char>
    decreases s.len(),
{
    if s.len() == 0 {
        s
    } else if s.last() == c {
        doubled(s.drop_last(), c) + seq![c, c]
    } else {
        doubled(s.drop_last(), c).push(s.last())
    }
}

/// Appends `s`, with every `c` written twice, to `out`.
fn append_doubled(out: &mut String, s: &str, c: char)
    requires
        c == '\'' || c == '"',
    ensures
        final(out)@ == old(out)@ + doubled(s@, c),
{
    let n = s.unicode_len();
    proof {
        reveal_strlit("''");
        reveal_strlit("\"\"");
        assert(s@.take(0) =~= Seq::<char>::empty());
        assert(out@ =~= old(out)@ + doubled(s@.take(0), c));
    }
    let mut i: usize = 0;
    while i < n
        invariant
            n == s@.len(),
            i <= n,
            c == '\'' || c == '"',
            out@ == old(out)@ + doubled(s@.take(i as int), c),
        decreases n - i,
    {
        let ch = s.get_char(i);
        let ghost before = out@;
        if ch == c {
            if c == '\'' {
                out.append("''");
            } else {
                out.append("\"\"");
            }
        } else {
            out.append(s.substring_char(i, i + 1));
        }
        proof {
            reveal_strlit("''");
            reveal_strlit("\"\"");
            assert("''"@ =~= seq!['\'', '\'']);
            assert("\"\""@ =~= seq!['"', '"']);
            let t = s@.take(i + 1);
            assert(t.drop_last() =~= s@.take(i as int));
            assert(t.last() == ch);
            if ch != c {
                assert(s@.subrange(i as int, i + 1) =~= seq![ch]);
            }
            assert(out@ =~= old(out)@ + doubled(t, c));
        }
        i = i + 1;
    }
    proof {
        assert(s@.take(n as int) =~= s@);
    }
}

/// A quoted SQL string literal: the text in single quotes, each single
/// quote doubled.
pub open spec fn sql_quoted(v: Seq<char>) -> Seq<char> {
    seq!['\''] + doubled(v, '\'') + seq!['\'']
}

/// Quotes a value as an SQL string literal (see `sql_quoted`).
pub fn sql_str(v: &str) -> (s: String)
    ensures
        s@ == sql_quoted(v@),
{
    let mut s = String::new();
    s.append("'");
    append_doubled(&mut s, v, '\'');
    s.append("'");
    proof {
        reveal_strlit("'");
    }
    assert(s@ =~= sql_quoted(v@));
    s
}

/// Whether `v` holds a comma, a double quote or a newline.
pub open spec fn needs_csv_quotes(v: Seq<char>) -> bool {
    v.contains(',') || v.contains('"') || v.contains('\n')
}

/// A CSV cell: the value as it is, or, when it holds a comma, a quote or a
/// newline, in double quotes with each double quote doubled.
pub open spec fn csv_cell(v: Seq<char>) -> Seq<char> {
    if needs_csv_quotes(v) {
        seq!['"'] + doubled(v, '"') + seq!['"']
    } else {
        v
    }
}

/// Escapes a value for a CSV cell (see `csv_cell`).
pub fn csv_escape(v: &str) -> (s: String)
    ensures
        s@ == csv_cell(v@),
{
    let n = v.unicode_len();
    let mut special = false;
    let mut i: usize = 0;
    while i < n
        invariant
            n == v@.len(),
            i <= n,
            special <==> exists|j: int| 0 <= j < i && (v@[j] == ',' || v@[j] == '"' || v@[j] == '\n'),
        decreases n - i,
    {
        let ch = v.get_char(i);
        if ch == ',' || ch == '"' || ch == '\n' {
            special = true;
        }
        i = i + 1;
    }
    proof {
        if special {
            let j = choose|j: int| 0 <= j < n && (v@[j] == ',' || v@[j] == '"' || v@[j] == '\n');
            assert(v@.contains(v@[j]));
        } else {
            assert(!v@.contains(',') && !v@.contains('"') && !v@.contains('\n')) by {
                if v@.contains(',') || v@.contains('"') || v@.contains('\n') {
                    let j = choose|j: int| 0 <= j < n && (v@[j] == ',' || v@[j] == '"' || v@[j] == '\n');
                }
            }
        }
    }
    if special {
        let mut s = String::new();
        s.append("\"");
        append_doubled(&mut s, v, '"');
        s.append("\"");
        proof {
            reveal_strlit("\"");
        }
        assert(s@ =~= csv_cell(v@));
        s
    } else {
        v.to_owned()
    }
}

/// The SQL text of a predicate: `attr = 'value'` for an equality, the parts
/// joined by ` AND ` or ` OR ` in parentheses otherwise.
pub open spec fn pred_sql(p: FilterPredicate) -> Seq<char>
    decreases p,
{
    match p {
        FilterPredicate::Eq { attribute, value } => attribute@ + " = '"@ + value@ + "'"@,
        FilterPredicate::And(subs) => "("@ + preds_sql(subs@, " AND "@) + ")"@,
        FilterPredicate::Or(subs) => "("@ + preds_sql(subs@, " OR "@) + ")"@,
    }
}

/// The SQL texts of the predicates joined by `sep`.
pub open spec fn preds_sql(s: Seq<FilterPredicate>, sep: Seq<char>) -> Seq<char>
    decreases s,
{
    if s.len() == 0 {
        Seq::empty()
    } else if s.len() == 1 {
        pred_sql(s[0])
    } else {
        preds_sql(s.drop_last(), sep) + sep + pred_sql(s.last())
    }
}

/// Appends the SQL texts of `preds` joined by `sep` to `out`.
fn append_preds(out: &mut String, preds: &[FilterPredicate], sep: &str)
    ensures
        final(out)@ == old(out)@ + preds_sql(preds@, sep@),
    decreases preds@,
{
    let n = preds.len();
    proof {
        assert(preds@.take(0) =~= Seq::<FilterPredicate>::empty());
        assert(out@ =~= old(out)@ + preds_sql(preds@.take(0), sep@));
    }
    for i in 0..n
        invariant
            n == preds@.len(),
            out@ == old(out)@ + preds_sql(preds@.take(i as int), sep@),
    {
        if i > 0 {
            out.append(sep);
        }
        proof {
            assert(decreases_to!(preds@ => preds@[i as int]));
        }
        let part = pred_to_sql(&preds[i]);
        out.append(part.as_str());
        proof {
            let t = preds@.take(i + 1);
            assert(t.drop_last() =~= preds@.take(i as int));
            assert(t.last() == preds@[i as int]);
            if i == 0 {
                assert(t.len() == 1);
            }
            assert(out@ =~= old(out)@ + preds_sql(t, sep@));
        }
    }
    proof {
        assert(preds@.take(n as int) =~= preds@);
    }
}

/// The SQL text of a predicate (see `pred_sql`).
pub fn pred_to_sql(pred: &FilterPredicate) -> (s: String)
    ensures
        s@ == pred_sql(*pred),
    decreases pred,
{
    proof {
        reveal_strlit(" = '");
        reveal_strlit("'");
        reveal_strlit("(");
        reveal_strlit(")");
    }
    match pred {
        FilterPredicate::Eq { attribute, value } => {
            let mut s = attribute.clone();
            s.append(" = '");
            s.append(value.as_str());
            s.append("'");
            assert(s@ =~= pred_sql(*pred));
            s
        },
        FilterPredicate::And(subs) => {
            let mut s = String::new();
            s.append("(");
            proof {
                assert(decreases_to!(*pred => (*pred)->And_0));
                assert(decreases_to!(*subs => subs@));
            }
            append_preds(&mut s, subs.as_slice(), " AND ");
            s.append(")");
            assert(s@ =~= pred_sql(*pred));
            s
        },
        FilterPredicate::Or(subs) => {
            let mut s = String::new();
            s.append("(");
            proof {
                assert(decreases_to!(*pred => (*pred)->Or_0));
                assert(decreases_to!(*subs => subs@));
            }
            append_preds(&mut s, subs.as_slice(), " OR ");
            s.append(")");
            assert(s@ =~= pred_sql(*pred));
            s
        },
    }
}

/// The predicates' SQL texts joined by ` AND `.
pub fn build_where_clause(predicates: &[FilterPredicate]) -> (s: String)
    ensures
        s@ == preds_sql(predicates@, " AND "@),
{
    let mut s = String::new();
    append_preds(&mut s, predicates, " AND ");
    assert(s@ =~= preds_sql(predicates@, " AND "@));
    s
}

/// `SELECT * FROM users WHERE attr = 'value'`.
pub fn equality_select(attribute: &str, value: &str) -> (s: String)
    ensures
        s@ == "SELECT * FROM users WHERE "@ + attribute@ + " = '"@ + value@ + "'"@,
{
    let mut s = "SELECT * FROM users WHERE ".to_owned();
    s.append(attribute);
    s.append(" = '");
    s.append(value);
    s.append("'");
    s
}

/// `SELECT * FROM users WHERE` and the predicates joined by ` AND `.
pub fn conjunction_select(predicates: &[FilterPredicate]) -> (s: String)
    ensures
        s@ == "SELECT * FROM users WHERE "@ + preds_sql(predicates@, " AND "@),
{
    let mut s = "SELECT * FROM users WHERE ".to_owned();
    let w = build_where_clause(predicates);
    s.append(w.as_str());
    s
}

/// `UPDATE users SET attr = 'value' WHERE id = <id>`.
pub fn update_statement(attribute: &str, new_value: &str, user_id: u64) -> (s: String)
    ensures
        s@ == "UPDATE users SET "@ + attribute@ + " = '"@ + new_value@ + "' WHERE id = "@ + decimal(user_id as nat),
{
    let mut s = "UPDATE users SET ".to_owned();
    s.append(attribute);
    s.append(" = '");
    s.append(new_value);
    s.append("' WHERE id = ");
    let id = decimal_string(user_id);
    s.append(id.as_str());
    s
}

/// `"attr" = <quoted value>`.
pub open spec fn column_eq(attr: Seq<char>, value: Seq<char>) -> Seq<char> {
    "\""@ + attr + "\" = "@ + sql_quoted(value)
}

fn append_column_eq(out: &mut String, attr: &str, value: &str)
    ensures
        final(out)@ == old(out)@ + column_eq(attr@, value@),
{
    out.append("\"");
    out.append(attr);
    out.append("\" = ");
    let q = sql_str(value);
    out.append(q.as_str());
}

/// Counts the rows of `employees` whose column `attr` equals `value`.
pub fn count_eq_sql(attr: &str, value: &str) -> (s: String)
    ensures
        s@ == "SELECT COUNT(*) FROM employees WHERE "@ + column_eq(attr@, value@),
{
    let mut s = "SELECT COUNT(*) FROM employees WHERE ".to_owned();
    append_column_eq(&mut s, attr, value);
    s
}

/// The id subquery of the `i`-th filter of a conjunction, joined on `id`
/// to the ones before it.
pub open spec fn and_part(filters: Seq<(String, String)>, i: int) -> Seq<char> {
    let sub = "(SELECT id FROM employees WHERE "@ + column_eq(filters[i].0@, filters[i].1@) + ") t"@ + decimal(i as nat);
    if i == 0 {
        sub
    } else {
        " JOIN "@ + sub + " USING (id)"@
    }
}

/// The parts of the first `n` filters of a conjunction, one after the other.
pub open spec fn and_from(filters: Seq<(String, String)>, n: int) -> Seq<char>
    decreases n,
{
    if n <= 0 {
        Seq::empty()
    } else {
        and_from(filters, n - 1) + and_part(filters, n - 1)
    }
}

/// Counts the rows that match every `(attr, value)` filter, as a chain of
/// joins over one id subquery per filter.
pub fn count_and_sql(filters: &Vec<(String, String)>) -> (s: String)
    requires
        filters@.len() > 0,
    ensures
        s@ == "SELECT COUNT(*) FROM "@ + and_from(filters@, filters@.len() as int),
{
    let mut from = String::new();
    let n = filters.len();
    for i in 0..n
        invariant
            n == filters@.len(),
            from@ == and_from(filters@, i as int),
    {
        let ghost before = from@;
        if i > 0 {
            from.append(" JOIN ");
        }
        from.append("(SELECT id FROM employees WHERE ");
        append_column_eq(&mut from, filters[i].0.as_str(), filters[i].1.as_str());
        from.append(") t");
        let idx = decimal_string(i as u64);
        from.append(idx.as_str());
        if i > 0 {
            from.append(" USING (id)");
        }
        assert(from@ =~= before + and_part(filters@, i as int));
    }
    let mut s = "SELECT COUNT(*) FROM ".to_owned();
    s.append(from.as_str());
    s
}

/// The quoted values joined by `, `.
pub open spec fn quoted_list(values: Seq<Seq<char>>) -> Seq<Seq<char>> {
    values.map_values(|v: Seq<char>| sql_quoted(v))
}

/// Counts the rows whose column `attr` is one of `values`.
pub fn count_or_sql(attr: &str, values: &Vec<String>) -> (s: String)
    requires
        values@.len() > 0,
    ensures
        s@ == "SELECT COUNT(*) FROM employees WHERE \""@ + attr@ + "\" IN ("@
            + join_strs(quoted_list(strings_view(values@)), ", "@) + ")"@,
{
    let mut list = String::new();
    let n = values.len();
    let ghost qs = quoted_list(strings_view(values@));
    proof {
        assert(qs.take(0) =~= Seq::<Seq<char>>::empty());
    }
    for i in 0..n
        invariant
            n == values@.len(),
            qs == quoted_list(strings_view(values@)),
            list@ == join_strs(qs.take(i as int), ", "@),
    {
        if i > 0 {
            list.append(", ");
        }
        let q = sql_str(values[i].as_str());
        list.append(q.as_str());
        proof {
            assert(qs.take(i + 1).drop_last() =~= qs.take(i as int));
            assert(qs[i as int] == q@);
            if i == 0 {
                assert(list@ =~= qs[0]);
            }
        }
    }
    proof {
        assert(qs.take(n as int) =~= qs);
    }
    let mut s = "SELECT COUNT(*) FROM employees WHERE \"".to_owned();
    s.append(attr);
    s.append("\" IN (");
    s.append(list.as_str());
    s.append(")");
    s
}

/// Sets column `attr` of the row with id `id` to `value`.
pub fn update_sql(id: u64, attr: &str, value: &str) -> (s: String)
    ensures
        s@ == "UPDATE employees SET "@ + column_eq(attr@, value@) + " WHERE id = "@ + decimal(id as nat),
{
    let mut s = "UPDATE employees SET ".to_owned();
    append_column_eq(&mut s, attr, value);
    s.append(" WHERE id = ");
    let d = decimal_string(id);
    s.append(d.as_str());
    s
}

/// Deletes the row with id `id`.
pub fn delete_sql(id: u64) -> (s: String)
    ensures
        s@ == "DELETE FROM employees WHERE id = "@ + decimal(id as nat),
{
    let mut s = "DELETE FROM employees WHERE id = ".to_owned();
    let d = decimal_string(id);
    s.append(d.as_str());
    s
}

/// The column list and value list of an insert: `id` and the id, then each
/// column in double quotes and its quoted value.
pub open spec fn insert_columns(cells: Seq<(String, String)>) -> Seq<Seq<char>> {
    seq!["id"@] + cells.map_values(|c: (String, String)| "\""@ + c.0@ + "\""@)
}

pub open spec fn insert_values(id: u64, cells: Seq<(String, String)>) -> Seq<Seq<char>> {
    seq![decimal(id as nat)] + cells.map_values(|c: (String, String)| sql_quoted(c.1@))
}

/// Inserts a row with id `id` and the given `(column, value)` cells.
pub fn insert_sql(id: u64, cells: &Vec<(String, String)>) -> (s: String)
    ensures
        s@ == "INSERT INTO employees ("@ + join_strs(insert_columns(cells@), ", "@) + ") VALUES ("@
            + join_strs(insert_values(id, cells@), ", "@) + ")"@,
{
    let mut names = "id".to_owned();
    let mut vals = decimal_string(id);
    let n = cells.len();
    let ghost cs = insert_columns(cells@);
    let ghost vs = insert_values(id, cells@);
    proof {
        reveal_strlit("id");
        assert(cs.take(1) =~= seq!["id"@]);
        assert(vs.take(1) =~= seq![decimal(id as nat)]);
        assert(names@ =~= join_strs(cs.take(1), ", "@));
        assert(vals@ =~= join_strs(vs.take(1), ", "@));
    }
    for i in 0..n
        invariant
            n == cells@.len(),
            cs == insert_columns(cells@),
            vs == insert_values(id, cells@),
            names@ == join_strs(cs.take(i + 1), ", "@),
            vals@ == join_strs(vs.take(i + 1), ", "@),
    {
        names.append(", \"");
        names.append(cells[i].0.as_str());
        names.append("\"");
        vals.append(", ");
        let q = sql_str(cells[i].1.as_str());
        vals.append(q.as_str());
        proof {
            reveal_strlit(", \"");
            reveal_strlit("\"");
            reveal_strlit(", ");
            assert(cs.take(i + 2).drop_last() =~= cs.take(i + 1));
            assert(vs.take(i + 2).drop_last() =~= vs.take(i + 1));
            assert(cs[i + 1] == "\""@ + cells@[i as int].0@ + "\""@);
            assert(vs[i + 1] == sql_quoted(cells@[i as int].1@));
            assert(names@ =~= join_strs(cs.take(i + 2), ", "@));
            assert(vals@ =~= join_strs(vs.take(i + 2), ", "@));
        }
    }
    proof {
        assert(cs.take(n + 1) =~= cs);
        assert(vs.take(n + 1) =~= vs);
    }
    let mut s = "INSERT INTO employees (".to_owned();
    s.append(names.as_str());
    s.append(") VALUES (");
    s.append(vals.as_str());
    s.append(")");
    s
}

} // verus!
