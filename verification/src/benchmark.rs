use rand::rngs::StdRng;
use rand::{RngExt, SeedableRng};
use vstd::prelude::*;
use crate::config::{AttributeDef, AttributeSpec, HotValue, QueryTemplate, TableSpec, WorkloadConfig, MILLIONTHS};
use crate::cover::{exact_cover, object_pairs, structural_factors};
use crate::graph::{strings_contain, FactorGraph};
use crate::text::atom_of;
use crate::types::{strings_view, Factor};
use std::time::{Duration, Instant};
use crate::metrics::Metrics;
use crate::multi::MultiTableGraph;
use crate::plan::{pick_template, weight_prefix};
use crate::strmap::StrMap;
use crate::text::{atom_splits, atom_value, decimal, decimal_string, lemma_first_index_of, split_atom, starts_with};
use crate::types::{props_view, spec_object_id, spec_properties, Delta, DeltaType, DetailValue, MetricsReport, PropMap, QueryFilter};
use crate::graph::props_at;
use crate::metrics::advance;

verus! {

/// The seedable standard generator of `rand`, carried through unchanged.
#[verifier::external_type_specification]
#[verifier::external_body]
pub struct ExStdRng(StdRng);

/// `SeedableRng::seed_from_u64`: a generator whose stream is fixed by
/// `seed`.  Nothing is stated of the stream itself.
#[verifier::external_body]
fn seeded_rng(seed: u64) -> StdRng {
    StdRng::seed_from_u64(seed)
}

/// `rand::make_rng`: a generator seeded from the system.  Nothing is stated
/// of its stream.
#[verifier::external_body]
fn fresh_rng() -> StdRng {
    rand::make_rng()
}

/// `RngExt::random_range` over `lo..=hi`: a value between the bounds.  The
/// call panics on an empty range, which `lo <= hi` rules out; which value
/// comes back is chance and is not stated.
#[verifier::external_body]
pub(crate) fn draw_between(rng: &mut StdRng, lo: u64, hi: u64) -> (r: u64)
    requires
        lo <= hi,
    ensures
        lo <= r <= hi,
{
    rng.random_range(lo..=hi)
}

/// The generator for a seed: the stream fixed by the seed, or one seeded
/// from the system when the seed is 0.
pub fn make_generator(seed: u64) -> StdRng {
    if seed == 0 {
        fresh_rng()
    } else {
        seeded_rng(seed)
    }
}

/// The marker a sampled attribute takes when it is left empty.
pub open spec fn null_text() -> Seq<char> {
    seq!['_', '_', 'N', 'U', 'L', 'L', '_', '_']
}

/// The value sampled for an attribute that nothing knows.
pub open spec fn unknown_text() -> Seq<char> {
    seq!['u', 'n', 'k', 'n', 'o', 'w', 'n']
}

/// The decimal text of an integer, with `-` before a negative one.
pub open spec fn signed_decimal(n: int) -> Seq<char> {
    if n < 0 {
        seq!['-'] + decimal((-n) as nat)
    } else {
        decimal(n as nat)
    }
}

/// The running total of the first `i` weights.
pub open spec fn wsum(w: Seq<u64>, i: int) -> int
    decreases i,
{
    if i <= 0 {
        0
    } else {
        wsum(w, i - 1) + w[i - 1]
    }
}

/// The first index from `i` below `m` at which the running total exceeds
/// `pick`; `m` when there is none.
pub open spec fn first_over(w: Seq<u64>, m: int, pick: int, i: int) -> int
    decreases m - i,
{
    if i >= m {
        m
    } else if pick < wsum(w, i + 1) {
        i
    } else {
        first_over(w, m, pick, i + 1)
    }
}

/// The smaller of two integers.
pub open spec fn min_int(a: int, b: int) -> int {
    if a <= b { a } else { b }
}

/// The index a weighted draw selects among `n` values, value `i` weighted
/// by `w[i]` (values or weights beyond the shorter list take no part): the
/// first whose running total exceeds `pick`, the first one when all weights
/// are 0, and the last value when no running total exceeds `pick`.
pub open spec fn weighted_index_spec(w: Seq<u64>, n: int, pick: int) -> int {
    let m = min_int(n, w.len() as int);
    if wsum(w, w.len() as int) == 0 {
        if m > 0 { 0 } else { n - 1 }
    } else {
        let j = first_over(w, m, pick, 0);
        if j < m { j } else { n - 1 }
    }
}

pub proof fn lemma_first_over_range(w: Seq<u64>, m: int, pick: int, i: int)
    requires
        0 <= i <= m,
    ensures
        i <= first_over(w, m, pick, i) <= m,
    decreases m - i,
{
    if i < m && !(pick < wsum(w, i + 1)) {
        lemma_first_over_range(w, m, pick, i + 1);
    }
}

/// A weighted draw among `n > 0` values selects one of them.
pub proof fn lemma_weighted_index_range(w: Seq<u64>, n: int, pick: int)
    requires
        n > 0,
    ensures
        0 <= weighted_index_spec(w, n, pick) < n,
{
    lemma_first_over_range(w, min_int(n, w.len() as int), pick, 0);
}

/// A draw fits the weights: below their total, or 0 when the total is 0.
pub open spec fn pick_fits(w: Seq<u64>, pick: int) -> bool {
    &&& 0 <= pick
    &&& (wsum(w, w.len() as int) == 0 ==> pick == 0)
    &&& (wsum(w, w.len() as int) > 0 ==> pick < wsum(w, w.len() as int))
}

pub proof fn lemma_wsum_mono(w: Seq<u64>, i: int, j: int)
    requires
        0 <= i <= j <= w.len(),
    ensures
        wsum(w, i) <= wsum(w, j),
    decreases j - i,
{
    if i < j {
        lemma_wsum_mono(w, i, j - 1);
    }
}

/// The total of the weights.
fn weight_total(w: &Vec<u64>) -> (t: u64)
    requires
        wsum(w@, w@.len() as int) <= u64::MAX,
    ensures
        t == wsum(w@, w@.len() as int),
{
    let mut t: u64 = 0;
    let n = w.len();
    for i in 0..n
        invariant
            n == w@.len(),
            t == wsum(w@, i as int),
            wsum(w@, n as int) <= u64::MAX,
    {
        proof {
            lemma_wsum_mono(w@, i + 1, n as int);
        }
        t = t + w[i];
    }
    t
}

/// The index the draw `pick` selects among `n` values weighted by `w` (see
/// `weighted_index_spec`).
pub fn weighted_index(w: &Vec<u64>, n: usize, pick: u64) -> (r: usize)
    requires
        n > 0,
        wsum(w@, w@.len() as int) <= u64::MAX,
    ensures
        r == weighted_index_spec(w@, n as int, pick as int),
        r < n,
{
    let total = weight_total(w);
    let m = if n <= w.len() { n } else { w.len() };
    if total == 0 {
        if m > 0 {
            return 0;
        }
        return n - 1;
    }
    let mut acc: u64 = 0;
    let mut i: usize = 0;
    while i < m
        invariant
            m == min_int(n as int, w@.len() as int),
            i <= m,
            acc == wsum(w@, i as int),
            first_over(w@, m as int, pick as int, 0) == first_over(w@, m as int, pick as int, i as int),
            wsum(w@, w@.len() as int) <= u64::MAX,
        decreases m - i,
    {
        proof {
            lemma_wsum_mono(w@, i + 1, w@.len() as int);
        }
        acc = acc + w[i];
        if pick < acc {
            return i;
        }
        i = i + 1;
    }
    n - 1
}

/// Draws a value to feed `weighted_index`: below the total of the weights,
/// or 0 when it is 0.
fn weighted_pick(w: &Vec<u64>, rng: &mut StdRng) -> (pick: u64)
    requires
        wsum(w@, w@.len() as int) <= u64::MAX,
    ensures
        pick_fits(w@, pick as int),
{
    let total = weight_total(w);
    if total == 0 {
        0
    } else {
        draw_between(rng, 0, total - 1)
    }
}

/// Picks one of `values`, weighted by `weights` (see `weighted_index_spec`);
/// the empty string when there are no values.
pub fn weighted_sample_values(values: &Vec<String>, weights: &Vec<u64>, rng: &mut StdRng) -> (r: String)
    requires
        wsum(weights@, weights@.len() as int) <= u64::MAX,
    ensures
        values@.len() == 0 ==> r@ == Seq::<char>::empty(),
        values@.len() > 0 ==> exists|pick: int| #[trigger] pick_fits(weights@, pick)
            && r@ == values@[weighted_index_spec(weights@, values@.len() as int, pick)]@,
{
    let pick = weighted_pick(weights, rng);
    if values.len() == 0 {
        return String::new();
    }
    let i = weighted_index(weights, values.len(), pick);
    proof {
        assert(pick_fits(weights@, pick as int));
    }
    values[i].clone()
}

/// The weights of hot values, in order.
pub open spec fn hot_weights(h: Seq<HotValue>) -> Seq<u64> {
    Seq::new(h.len(), |i: int| h[i].weight)
}

/// Picks one of the hot values by their weights; the empty string when
/// there are none.
pub fn weighted_sample_hot(hot_values: &Vec<HotValue>, rng: &mut StdRng) -> (r: String)
    requires
        wsum(hot_weights(hot_values@), hot_values@.len() as int) <= u64::MAX,
    ensures
        hot_values@.len() == 0 ==> r@ == Seq::<char>::empty(),
        hot_values@.len() > 0 ==> exists|pick: int| #[trigger] pick_fits(hot_weights(hot_values@), pick)
            && r@ == hot_values@[weighted_index_spec(hot_weights(hot_values@), hot_values@.len() as int, pick)].value@,
{
    let mut w: Vec<u64> = Vec::new();
    let n = hot_values.len();
    for i in 0..n
        invariant
            n == hot_values@.len(),
            w@ == hot_weights(hot_values@).take(i as int),
    {
        w.push(hot_values[i].weight);
        proof {
            assert(w@ =~= hot_weights(hot_values@).take(i + 1));
        }
    }
    proof {
        assert(w@ =~= hot_weights(hot_values@));
    }
    let pick = weighted_pick(&w, rng);
    if n == 0 {
        return String::new();
    }
    let i = weighted_index(&w, n, pick);
    proof {
        assert(pick_fits(hot_weights(hot_values@), pick as int));
    }
    hot_values[i].value.clone()
}

/// The weight of an attribute for the update draw: its given weight, or one
/// whole (a million millionths) when none is given.
pub open spec fn attr_weight(weights: Map<Seq<char>, u64>, a: Seq<char>) -> u64 {
    if weights.contains_key(a) { weights[a] } else { MILLIONTHS }
}

/// The weights of a list of attributes.
pub open spec fn attr_weights(attrs: Seq<String>, weights: Map<Seq<char>, u64>) -> Seq<u64> {
    Seq::new(attrs.len(), |i: int| attr_weight(weights, attrs[i]@))
}

/// Picks one of `attrs` by their weights (one whole for attributes without
/// a weight); the empty string when there are none.
pub fn weighted_sample_attr(attrs: &Vec<String>, weights: &StrMap<u64>, rng: &mut StdRng) -> (r: String)
    requires
        weights.wf(),
        wsum(attr_weights(attrs@, weights@), attrs@.len() as int) <= u64::MAX,
    ensures
        attrs@.len() == 0 ==> r@ == Seq::<char>::empty(),
        attrs@.len() > 0 ==> exists|pick: int| #[trigger] pick_fits(attr_weights(attrs@, weights@), pick)
            && r@ == attrs@[weighted_index_spec(attr_weights(attrs@, weights@), attrs@.len() as int, pick)]@,
{
    let mut w: Vec<u64> = Vec::new();
    let n = attrs.len();
    for i in 0..n
        invariant
            n == attrs@.len(),
            weights.wf(),
            w@ == attr_weights(attrs@, weights@).take(i as int),
    {
        let x = match weights.get(attrs[i].as_str()) {
            Some(v) => *v,
            None => MILLIONTHS,
        };
        w.push(x);
        proof {
            assert(w@ =~= attr_weights(attrs@, weights@).take(i + 1));
        }
    }
    proof {
        assert(w@ =~= attr_weights(attrs@, weights@));
    }
    let pick = weighted_pick(&w, rng);
    if n == 0 {
        return String::new();
    }
    let i = weighted_index(&w, n, pick);
    proof {
        assert(pick_fits(attr_weights(attrs@, weights@), pick as int));
    }
    attrs[i].clone()
}


/// The decimal text of an integer (see `signed_decimal`).
pub fn signed_decimal_string(n: i64) -> (s: String)
    ensures
        s@ == signed_decimal(n as int),
{
    if n < 0 {
        let u: u64 = ((-(n + 1)) as u64) + 1;
        let d = decimal_string(u);
        let mut s = "-".to_owned();
        s.append(d.as_str());
        proof {
            reveal_strlit("-");
        }
        s
    } else {
        decimal_string(n as u64)
    }
}

/// The null marker as a string.
fn null_string() -> (s: String)
    ensures
        s@ == null_text(),
{
    let s = "__NULL__".to_owned();
    proof {
        reveal_strlit("__NULL__");
    }
    s
}

/// How likely (in millionths) an attribute is left empty.
pub open spec fn null_rate(def: AttributeDef) -> u64 {
    match def {
        AttributeDef::Simple(_) => 0,
        AttributeDef::Extended(AttributeSpec::Categorical { null_millionths, .. }) => null_millionths,
        AttributeDef::Extended(AttributeSpec::Continuous { null_millionths, .. }) => null_millionths,
    }
}

/// Drawing from the attribute cannot fail: categorical values to pick
/// from, weights whose total fits, a range that is not empty (nothing is
/// asked of an attribute that is always left empty).
pub open spec fn def_ok(def: AttributeDef) -> bool {
    match def {
        AttributeDef::Simple(_) => true,
        AttributeDef::Extended(AttributeSpec::Categorical { values, weights, null_millionths }) => null_millionths >= MILLIONTHS || match weights {
            Some(w) => wsum(w@, w@.len() as int) <= u64::MAX,
            None => values@.len() > 0,
        },
        AttributeDef::Extended(AttributeSpec::Continuous { min, max, null_millionths }) => null_millionths >= MILLIONTHS || min <= max,
    }
}

/// `v` is a value drawing from the attribute can give when it is not left
/// empty: one of a simple list (a salary from 30 000 to 149 999 when the
/// list is empty), a categorical value by the weights when there are any,
/// an integer of the continuous range.
pub open spec fn drawn_value(def: AttributeDef, v: Seq<char>) -> bool {
    match def {
        AttributeDef::Simple(values) => if values@.len() == 0 {
            exists|n: int| 30_000 <= n < 150_000 && v == #[trigger] decimal(n as nat)
        } else {
            exists|i: int| 0 <= i < values@.len() && v == #[trigger] values@[i]@
        },
        AttributeDef::Extended(AttributeSpec::Categorical { values, weights, .. }) => match weights {
            Some(w) => if values@.len() == 0 {
                v == Seq::<char>::empty()
            } else {
                exists|pick: int| #[trigger] pick_fits(w@, pick) && v == values@[weighted_index_spec(w@, values@.len() as int, pick)]@
            },
            None => exists|i: int| 0 <= i < values@.len() && v == #[trigger] values@[i]@,
        },
        AttributeDef::Extended(AttributeSpec::Continuous { min, max, .. }) =>
            exists|n: int| min <= n <= max && v == #[trigger] signed_decimal(n),
    }
}

/// Draws whether an attribute is left empty: true with `rate` millionths of
/// chance (never for 0, always from a million on).
fn null_drawn(rng: &mut StdRng, rate: u64) -> (b: bool)
    ensures
        rate == 0 ==> !b,
        rate >= MILLIONTHS ==> b,
{
    let x = draw_between(rng, 0, MILLIONTHS - 1);
    x < rate
}

/// Samples a value of an attribute: the null marker with the attribute's
/// null rate, else a value as `drawn_value` describes.
pub fn sample_attr_value(def: &AttributeDef, rng: &mut StdRng) -> (r: String)
    requires
        def_ok(*def),
    ensures
        (null_rate(*def) > 0 && r@ == null_text()) || drawn_value(*def, r@),
        null_rate(*def) >= MILLIONTHS ==> r@ == null_text(),
        null_rate(*def) == 0 ==> drawn_value(*def, r@),
{
    match def {
        AttributeDef::Simple(values) => {
            if values.len() == 0 {
                let n = draw_between(rng, 30_000, 149_999);
                let s = decimal_string(n);
                proof {
                    let k: int = n as int;
                    assert(30_000 <= k < 150_000 && s@ == decimal(k as nat));
                    assert(drawn_value(*def, s@));
                }
                s
            } else {
                let i = draw_between(rng, 0, (values.len() - 1) as u64);
                let s = values[i as usize].clone();
                proof {
                    assert(0 <= i < values@.len() && s@ == values@[i as int]@);
                    assert(drawn_value(*def, s@));
                }
                s
            }
        },
        AttributeDef::Extended(AttributeSpec::Categorical { values, weights, null_millionths }) => {
            if null_drawn(rng, *null_millionths) {
                return null_string();
            }
            match weights {
                Some(w) => weighted_sample_values(values, w, rng),
                None => {
                    let i = draw_between(rng, 0, (values.len() - 1) as u64);
                    let s = values[i as usize].clone();
                    proof {
                        assert(s@ == values@[i as int]@);
                    }
                    s
                },
            }
        },
        AttributeDef::Extended(AttributeSpec::Continuous { min, max, null_millionths }) => {
            if null_drawn(rng, *null_millionths) {
                return null_string();
            }
            let span = (*max as i128 - *min as i128) as u64;
            let off = draw_between(rng, 0, span);
            let n = (*min as i128 + off as i128) as i64;
            let s = signed_decimal_string(n);
            proof {
                assert(s@ == signed_decimal(n as int));
            }
            s
        },
    }
}


/// A query a template turns into: a filter on one table, or a join of two
/// filtered tables on an attribute.
pub enum Query {
    Filter { table: String, filter: QueryFilter },
    Join {
        left_table: String,
        right_table: String,
        join_attr: String,
        left_filters: Vec<QueryFilter>,
        right_filters: Vec<QueryFilter>,
    },
}

/// Runs a configured workload against a multi-table factor graph: seeds
/// the tables, then mixes reads and writes as the configuration says,
/// evicting stale factors on a tick cadence and taking snapshots.
pub struct BenchmarkRunner {
    pub config: WorkloadConfig,
    pub multi: MultiTableGraph,
    pub metrics: Metrics,
    pub next_object_id: u32,
    pub next_delta_id: i64,
    pub next_eviction_tick: u64,
    /// Snapshots taken during `run`, with the operation index they were taken at.
    pub snapshots: Vec<(usize, MetricsReport)>,
    /// How many factors each write touched.
    pub fanout_log: Vec<u64>,
    /// Operations run so far, over all calls of `run`.
    pub total_ops_executed: usize,
    /// The phase name each snapshot is labelled with.
    pub current_phase_name: String,
    pub cover_time_ms: u64,
}

/// Some table of the workload describes `attr`, and `v` is a value (other
/// than the null marker) that drawing from that description can give.
pub open spec fn from_some_table(cfg: WorkloadConfig, attr: Seq<char>, v: Seq<char>) -> bool {
    exists|n: Seq<char>| {
        &&& #[trigger] cfg.tables@.contains_key(n)
        &&& cfg.tables@[n].attributes@.contains_key(attr)
        &&& drawn_value(cfg.tables@[n].attributes@[attr], v)
        &&& v != null_text()
    }
}

/// `a` starts with `attr=`.
pub open spec fn atom_for(a: Seq<char>, attr: Seq<char>) -> bool {
    let p = attr.push('=');
    p.len() <= a.len() && a.take(p.len() as int) == p
}

/// `v` is the value part of an atom `attr=...` that the property index of
/// some table holds.
pub open spec fn known_value(m: MultiTableGraph, attr: Seq<char>, v: Seq<char>) -> bool {
    exists|n: Seq<char>, a: Seq<char>| {
        &&& #[trigger] m.tables@.contains_key(n)
        &&& #[trigger] m.tables@[n].bpi_view().contains_key(a)
        &&& atom_for(a, attr)
        &&& atom_value(a) == v
    }
}

/// Some entry of `vals` from position `lo` on reads `v`.
pub open spec fn listed(vals: Seq<String>, lo: int, v: Seq<char>) -> bool {
    exists|j: int| lo <= j < vals.len() && #[trigger] vals[j]@ == v
}

/// One of the first `hi` keys is an atom `attr=v`.
pub open spec fn keyed(ks: Seq<Seq<char>>, hi: int, attr: Seq<char>, v: Seq<char>) -> bool {
    exists|i: int| 0 <= i < hi && atom_for(#[trigger] ks[i], attr) && atom_value(ks[i]) == v
}

/// The property index of one of the tables `keys[..hi]` holds an atom `attr=v`.
pub open spec fn known_in(m: MultiTableGraph, keys: Seq<Seq<char>>, hi: int, attr: Seq<char>, v: Seq<char>) -> bool {
    exists|t: int, a: Seq<char>| {
        &&& 0 <= t < hi
        &&& #[trigger] m.tables@[keys[t]].bpi_view().contains_key(a)
        &&& atom_for(a, attr)
        &&& atom_value(a) == v
    }
}

/// Some table's property index holds an atom `attr=...`.
pub open spec fn any_known(m: MultiTableGraph, attr: Seq<char>) -> bool {
    exists|v: Seq<char>| known_value(m, attr, v)
}

/// The values `sample_value` can give for `attr`: a value drawn from some
/// table's description of it, else one the property indexes know, else
/// `unknown` when they know none.
pub open spec fn value_choice(cfg: WorkloadConfig, m: MultiTableGraph, attr: Seq<char>, v: Seq<char>) -> bool {
    ||| from_some_table(cfg, attr, v)
    ||| (any_known(m, attr) && known_value(m, attr, v))
    ||| (!any_known(m, attr) && v == unknown_text())
}

/// `f` is the equality `attr = v` (by characters).
pub open spec fn eq_filter(f: QueryFilter, attr: Seq<char>, v: Seq<char>) -> bool {
    f matches QueryFilter::Eq { attribute, value } && attribute@ == attr && value@ == v
}

/// `f` is an equality of `attr` with a value `value_choice` allows.
pub open spec fn sampled_eq(cfg: WorkloadConfig, m: MultiTableGraph, f: QueryFilter, attr: Seq<char>) -> bool {
    f matches QueryFilter::Eq { attribute, value } && attribute@ == attr && value_choice(cfg, m, attr, value@)
}

/// Equalities, one per attribute, each with a value `value_choice` allows.
pub open spec fn sampled_eqs(cfg: WorkloadConfig, m: MultiTableGraph, subs: Seq<QueryFilter>, attrs: Seq<String>) -> bool {
    &&& subs.len() == attrs.len()
    &&& forall|i: int| 0 <= i < subs.len() ==> #[trigger] sampled_eq(cfg, m, subs[i], attrs[i]@)
}

/// Equalities of `attr` with each of `values`, in order.
pub open spec fn listed_eqs(subs: Seq<QueryFilter>, attr: Seq<char>, values: Seq<String>) -> bool {
    &&& subs.len() == values.len()
    &&& forall|i: int| 0 <= i < subs.len() ==> #[trigger] eq_filter(subs[i], attr, values[i]@)
}

/// `f` is a filter the (non-join) template `t` can build: an equality whose
/// value is a hot value by weight, else one of the listed values, else a
/// sampled one; a conjunction of sampled equalities over the attributes; a
/// disjunction of the first attribute with each listed value.
pub open spec fn filter_from(cfg: WorkloadConfig, m: MultiTableGraph, t: QueryTemplate, f: QueryFilter) -> bool {
    match t {
        QueryTemplate::Eq { attribute, values, hot_values, .. } => exists|v: Seq<char>| {
            &&& #[trigger] eq_filter(f, attribute@, v)
            &&& if hot_values@.len() > 0 {
                exists|pick: int| #[trigger] pick_fits(hot_weights(hot_values@), pick)
                    && v == hot_values@[weighted_index_spec(hot_weights(hot_values@), hot_values@.len() as int, pick)].value@
            } else if values@.len() == 0 {
                value_choice(cfg, m, attribute@, v)
            } else {
                exists|i: int| 0 <= i < values@.len() && v == #[trigger] values@[i]@
            }
        },
        QueryTemplate::And { attributes, .. } => f matches QueryFilter::And(subs) && sampled_eqs(cfg, m, subs@, attributes@),
        QueryTemplate::Or { attributes, values, .. } => f matches QueryFilter::Or(subs) && listed_eqs(subs@, attributes@[0]@, values@),
        QueryTemplate::Join { .. } => false,
    }
}

/// Every filter of `fs` is one the template at its place can build.
pub open spec fn filters_from(cfg: WorkloadConfig, m: MultiTableGraph, ts: Seq<QueryTemplate>, fs: Seq<QueryFilter>) -> bool {
    &&& fs.len() == ts.len()
    &&& forall|i: int| 0 <= i < fs.len() ==> #[trigger] filter_from(cfg, m, ts[i], fs[i])
}

/// `q` is a query the template `t` can build: a filter on the template's
/// table, or the join the template describes with filters its nested
/// templates can build.
pub open spec fn query_from(cfg: WorkloadConfig, m: MultiTableGraph, t: QueryTemplate, q: Query) -> bool {
    match t {
        QueryTemplate::Eq { table, .. } => q matches Query::Filter { table: tq, filter } && tq@ == table@ && filter_from(cfg, m, t, filter),
        QueryTemplate::And { table, .. } => q matches Query::Filter { table: tq, filter } && tq@ == table@ && filter_from(cfg, m, t, filter),
        QueryTemplate::Or { table, .. } => q matches Query::Filter { table: tq, filter } && tq@ == table@ && filter_from(cfg, m, t, filter),
        QueryTemplate::Join { left_table, right_table, join_attribute, left_filters, right_filters, .. } =>
            q matches Query::Join { left_table: l, right_table: r, join_attr: a, left_filters: lf, right_filters: rf }
            && l@ == left_table@ && r@ == right_table@ && a@ == join_attribute@
            && filters_from(cfg, m, left_filters@, lf@) && filters_from(cfg, m, right_filters@, rf@),
    }
}

/// A non-join template can be built without failing: hot-value weights
/// whose total fits, and a first attribute for a disjunction.
pub open spec fn filter_template_ok(t: QueryTemplate) -> bool {
    match t {
        QueryTemplate::Eq { hot_values, .. } => wsum(hot_weights(hot_values@), hot_values@.len() as int) <= u64::MAX,
        QueryTemplate::And { .. } => true,
        QueryTemplate::Or { attributes, .. } => attributes@.len() > 0,
        QueryTemplate::Join { .. } => false,
    }
}

/// A template can be built without failing (a join's nested templates are
/// not joins themselves).
pub open spec fn template_ok(t: QueryTemplate) -> bool {
    match t {
        QueryTemplate::Join { left_filters, right_filters, .. } =>
            (forall|i: int| 0 <= i < left_filters@.len() ==> #[trigger] filter_template_ok(left_filters@[i]))
            && (forall|i: int| 0 <= i < right_filters@.len() ==> #[trigger] filter_template_ok(right_filters@[i])),
        _ => filter_template_ok(t),
    }
}

/// The weights of the query mix, in order.
pub open spec fn mix_weights(mix: Seq<QueryTemplate>) -> Seq<u32> {
    Seq::new(mix.len(), |i: int| mix[i].weight_of())
}

impl BenchmarkRunner {
    /// The configuration's maps are well formed, every attribute can be
    /// drawn from, every template can be built, the query weights sum to
    /// a `u32`, and the graph's tables are well formed.
    pub open spec fn wf(&self) -> bool {
        &&& self.config.tables.wf()
        &&& forall|n: Seq<char>| #[trigger] self.config.tables@.contains_key(n) ==> self.config.tables@[n].attributes.wf()
        &&& forall|n: Seq<char>, a: Seq<char>| #[trigger] self.config.tables@.contains_key(n)
            && #[trigger] self.config.tables@[n].attributes@.contains_key(a) ==> def_ok(self.config.tables@[n].attributes@[a])
        &&& forall|i: int| 0 <= i < self.config.query_mix@.len() ==> #[trigger] template_ok(self.config.query_mix@[i])
        &&& weight_prefix(mix_weights(self.config.query_mix@), self.config.query_mix@.len() as int) <= u32::MAX
        &&& (self.config.write_mix.attribute_weights matches Some(w) ==> w.wf())
        &&& self.multi.wf()
        &&& self.multi.tables_wf()
    }

    /// The values the property indexes know for `attr` (see `known_value`).
    fn known_values(&self, attr: &str) -> (vals: Vec<String>)
        requires
            self.multi.wf(),
            self.multi.tables_wf(),
        ensures
            forall|v: Seq<char>| #[trigger] listed(vals@, 0, v) <==> known_value(self.multi, attr@, v),
    {
        let mut prefix = attr.to_owned();
        prefix.append("=");
        proof {
            reveal_strlit("=");
            assert(prefix@ =~= attr@.push('='));
        }
        let mut vals: Vec<String> = Vec::new();
        let ghost keys = self.multi.tables.keys_seq();
        let nt = self.multi.tables.len();
        for ti in 0..nt
            invariant
                self.multi.wf(),
                self.multi.tables_wf(),
                keys == self.multi.tables.keys_seq(),
                nt == keys.len(),
                prefix@ == attr@.push('='),
                forall|v: Seq<char>| #[trigger] listed(vals@, 0, v) <==> known_in(self.multi, keys, ti as int, attr@, v),
        {
            let g = self.multi.tables.value_at(ti);
            proof {
                self.multi.tables.lemma_entry(ti as int);
            }
            let ks = g.bpi.keys();
            let nk = ks.len();
            proof {
                g.bpi.lemma_dom();
            }
            let ghost before = vals@;
            for ki in 0..nk
                invariant
                    nk == ks@.len(),
                    ks@.len() == g.bpi.keys_seq().len(),
                    forall|i: int| 0 <= i < ks@.len() ==> #[trigger] ks@[i]@ == g.bpi.keys_seq()[i],
                    prefix@ == attr@.push('='),
                    before.len() <= vals@.len(),
                    forall|j: int| 0 <= j < before.len() ==> vals@[j] == before[j],
                    forall|v: Seq<char>| #[trigger] listed(vals@, before.len() as int, v) <==> keyed(g.bpi.keys_seq(), ki as int, attr@, v),
            {
                let k = &ks[ki];
                let ghost pre = vals@;
                if starts_with(k.as_str(), prefix.as_str()) {
                    proof {
                        lemma_first_index_of(k@, '=');
                        assert(k@[attr@.len() as int] == prefix@[attr@.len() as int]);
                        assert(k@.contains('='));
                    }
                    match split_atom(k.as_str()) {
                        Some((_, v)) => {
                            vals.push(v);
                        },
                        None => {},
                    }
                }
                proof {
                    assert forall|v: Seq<char>| #[trigger] listed(vals@, before.len() as int, v) <==> keyed(g.bpi.keys_seq(), ki + 1, attr@, v) by {
                        if listed(vals@, before.len() as int, v) {
                            let j = choose|j: int| before.len() <= j < vals@.len() && #[trigger] vals@[j]@ == v;
                            if j < pre.len() {
                                assert(pre[j]@ == v);
                                assert(listed(pre, before.len() as int, v));
                                assert(keyed(g.bpi.keys_seq(), ki as int, attr@, v));
                                let i = choose|i: int| 0 <= i < ki && atom_for(#[trigger] g.bpi.keys_seq()[i], attr@) && atom_value(g.bpi.keys_seq()[i]) == v;
                            } else {
                                assert(atom_for(g.bpi.keys_seq()[ki as int], attr@));
                            }
                        }
                        if keyed(g.bpi.keys_seq(), ki + 1, attr@, v) {
                            let i = choose|i: int| 0 <= i < ki + 1 && atom_for(#[trigger] g.bpi.keys_seq()[i], attr@) && atom_value(g.bpi.keys_seq()[i]) == v;
                            if i == ki {
                                assert(vals@[vals@.len() - 1]@ == v);
                            } else {
                                assert(keyed(g.bpi.keys_seq(), ki as int, attr@, v));
                                assert(listed(pre, before.len() as int, v));
                                let j = choose|j: int| before.len() <= j < pre.len() && #[trigger] pre[j]@ == v;
                                assert(vals@[j]@ == v);
                            }
                        }
                    }
                }
            }
            proof {
                assert forall|v: Seq<char>| #[trigger] listed(vals@, 0, v) <==> known_in(self.multi, keys, ti + 1, attr@, v) by {
                    if listed(vals@, 0, v) {
                        let j = choose|j: int| 0 <= j < vals@.len() && #[trigger] vals@[j]@ == v;
                        if j < before.len() {
                            assert(before[j]@ == v);
                            assert(listed(before, 0, v));
                        } else {
                            assert(listed(vals@, before.len() as int, v));
                            let i = choose|i: int| 0 <= i < nk && atom_for(#[trigger] g.bpi.keys_seq()[i], attr@) && atom_value(g.bpi.keys_seq()[i]) == v;
                            assert(g.bpi.keys_seq().to_set().contains(g.bpi.keys_seq()[i]));
                            assert(self.multi.tables@[keys[ti as int]].bpi_view().contains_key(g.bpi.keys_seq()[i]));
                        }
                    }
                    if known_in(self.multi, keys, ti + 1, attr@, v) {
                        let (t, a) = choose|t: int, a: Seq<char>| {
                            &&& 0 <= t < ti + 1
                            &&& #[trigger] self.multi.tables@[keys[t]].bpi_view().contains_key(a)
                            &&& atom_for(a, attr@)
                            &&& atom_value(a) == v
                        };
                        if t == ti {
                            assert(g.bpi.keys_seq().to_set().contains(a));
                            let i = choose|i: int| 0 <= i < g.bpi.keys_seq().len() && g.bpi.keys_seq()[i] == a;
                            assert(keyed(g.bpi.keys_seq(), nk as int, attr@, v));
                            assert(listed(vals@, before.len() as int, v));
                            let j = choose|j: int| before.len() <= j < vals@.len() && #[trigger] vals@[j]@ == v;
                        } else {
                            assert(known_in(self.multi, keys, ti as int, attr@, v));
                            assert(listed(before, 0, v));
                            let j = choose|j: int| 0 <= j < before.len() && #[trigger] before[j]@ == v;
                            assert(vals@[j]@ == v);
                        }
                    }
                }
            }
        }
        proof {
            self.multi.tables.lemma_dom();
            assert forall|v: Seq<char>| #[trigger] listed(vals@, 0, v) <==> known_value(self.multi, attr@, v) by {
                if known_value(self.multi, attr@, v) {
                    let (n, a) = choose|n: Seq<char>, a: Seq<char>| {
                        &&& #[trigger] self.multi.tables@.contains_key(n)
                        &&& #[trigger] self.multi.tables@[n].bpi_view().contains_key(a)
                        &&& atom_for(a, attr@)
                        &&& atom_value(a) == v
                    };
                    let t = self.multi.tables.lemma_key_position(n);
                    assert(self.multi.tables@[keys[t]].bpi_view().contains_key(a));
                    assert(known_in(self.multi, keys, nt as int, attr@, v));
                }
                if listed(vals@, 0, v) {
                    let (t, a) = choose|t: int, a: Seq<char>| {
                        &&& 0 <= t < nt
                        &&& #[trigger] self.multi.tables@[keys[t]].bpi_view().contains_key(a)
                        &&& atom_for(a, attr@)
                        &&& atom_value(a) == v
                    };
                    assert(keys.to_set().contains(keys[t]));
                    assert(self.multi.tables@.contains_key(keys[t]));
                }
            }
        }
        vals
    }
}


impl BenchmarkRunner {
    /// Samples a value for `attr`: from the first table (in order) whose
    /// description of it gives a value other than the null marker; else one
    /// of the values the property indexes know for it; else `unknown`.
    pub fn sample_value(&self, attr: &str, rng: &mut StdRng) -> (r: String)
        requires
            self.wf(),
        ensures
            value_choice(self.config, self.multi, attr@, r@),
    {
        let names = self.config.tables.keys();
        let n = names.len();
        proof {
            self.config.tables.lemma_dom();
        }
        for i in 0..n
            invariant
                self.wf(),
                n == names@.len(),
                n == self.config.tables.keys_seq().len(),
                forall|j: int| 0 <= j < names@.len() ==> #[trigger] names@[j]@ == self.config.tables.keys_seq()[j],
                self.config.tables@.dom() == self.config.tables.keys_seq().to_set(),
        {
            proof {
                assert(self.config.tables.keys_seq().to_set().contains(self.config.tables.keys_seq()[i as int]));
            }
            let t = self.config.tables.value_of(names[i].as_str());
            match t.attributes.get(attr) {
                Some(def) => {
                    let v = sample_attr_value(def, rng);
                    let null = null_string();
                    if !(v == null) {
                        proof {
                            let nm = names@[i as int]@;
                            assert(self.config.tables@.contains_key(nm));
                            assert(from_some_table(self.config, attr@, v@));
                        }
                        return v;
                    }
                },
                None => {},
            }
        }
        let vals = self.known_values(attr);
        if vals.len() > 0 {
            let j = draw_between(rng, 0, (vals.len() - 1) as u64);
            let v = vals[j as usize].clone();
            proof {
                assert(listed(vals@, 0, v@));
                assert(known_value(self.multi, attr@, v@));
            }
            return v;
        }
        proof {
            if any_known(self.multi, attr@) {
                let v = choose|v: Seq<char>| known_value(self.multi, attr@, v);
                assert(listed(vals@, 0, v));
            }
        }
        let u = "unknown".to_owned();
        proof {
            reveal_strlit("unknown");
            assert(u@ =~= unknown_text());
        }
        u
    }

    /// Builds the filter of a template that is not a join (see `filter_from`).
    pub fn build_filter_only(&self, template: &QueryTemplate, rng: &mut StdRng) -> (f: QueryFilter)
        requires
            self.wf(),
            filter_template_ok(*template),
        ensures
            filter_from(self.config, self.multi, *template, f),
    {
        match template {
            QueryTemplate::Eq { attribute, values, hot_values, .. } => {
                let v = if hot_values.len() > 0 {
                    weighted_sample_hot(hot_values, rng)
                } else if values.len() == 0 {
                    self.sample_value(attribute.as_str(), rng)
                } else {
                    let i = draw_between(rng, 0, (values.len() - 1) as u64);
                    let x = values[i as usize].clone();
                    proof {
                        assert(0 <= i < values@.len() && x@ == values@[i as int]@);
                    }
                    x
                };
                let f = QueryFilter::Eq { attribute: attribute.clone(), value: v };
                proof {
                    assert(eq_filter(f, attribute@, v@));
                }
                f
            },
            QueryTemplate::And { attributes, .. } => {
                let mut subs: Vec<QueryFilter> = Vec::new();
                let n = attributes.len();
                for i in 0..n
                    invariant
                        self.wf(),
                        n == attributes@.len(),
                        subs@.len() == i,
                        forall|j: int| 0 <= j < i ==> #[trigger] sampled_eq(self.config, self.multi, subs@[j], attributes@[j]@),
                {
                    let v = self.sample_value(attributes[i].as_str(), rng);
                    subs.push(QueryFilter::Eq { attribute: attributes[i].clone(), value: v });
                    proof {
                        assert(sampled_eq(self.config, self.multi, subs@[i as int], attributes@[i as int]@));
                    }
                }
                QueryFilter::And(subs)
            },
            QueryTemplate::Or { attributes, values, .. } => {
                let attr = attributes[0].clone();
                let mut subs: Vec<QueryFilter> = Vec::new();
                let n = values.len();
                for i in 0..n
                    invariant
                        n == values@.len(),
                        attr@ == attributes@[0]@,
                        subs@.len() == i,
                        forall|j: int| 0 <= j < i ==> #[trigger] eq_filter(subs@[j], attr@, values@[j]@),
                {
                    subs.push(QueryFilter::Eq { attribute: attr.clone(), value: values[i].clone() });
                    proof {
                        assert(eq_filter(subs@[i as int], attr@, values@[i as int]@));
                    }
                }
                QueryFilter::Or(subs)
            },
            QueryTemplate::Join { .. } => {
                proof {
                    assert(false);
                }
                QueryFilter::And(Vec::new())
            },
        }
    }

    /// Builds the filters of a list of non-join templates.
    fn build_filters(&self, ts: &Vec<QueryTemplate>, rng: &mut StdRng) -> (fs: Vec<QueryFilter>)
        requires
            self.wf(),
            forall|i: int| 0 <= i < ts@.len() ==> #[trigger] filter_template_ok(ts@[i]),
        ensures
            filters_from(self.config, self.multi, ts@, fs@),
    {
        let mut fs: Vec<QueryFilter> = Vec::new();
        let n = ts.len();
        for i in 0..n
            invariant
                self.wf(),
                n == ts@.len(),
                forall|i: int| 0 <= i < ts@.len() ==> #[trigger] filter_template_ok(ts@[i]),
                fs@.len() == i,
                forall|j: int| 0 <= j < i ==> #[trigger] filter_from(self.config, self.multi, ts@[j], fs@[j]),
        {
            let f = self.build_filter_only(&ts[i], rng);
            fs.push(f);
        }
        fs
    }

    /// Builds the query of a template (see `query_from`).
    pub fn build_query(&self, template: &QueryTemplate, rng: &mut StdRng) -> (q: Query)
        requires
            self.wf(),
            template_ok(*template),
        ensures
            query_from(self.config, self.multi, *template, q),
    {
        match template {
            QueryTemplate::Eq { table, .. } => Query::Filter { table: table.clone(), filter: self.build_filter_only(template, rng) },
            QueryTemplate::And { table, .. } => Query::Filter { table: table.clone(), filter: self.build_filter_only(template, rng) },
            QueryTemplate::Or { table, .. } => Query::Filter { table: table.clone(), filter: self.build_filter_only(template, rng) },
            QueryTemplate::Join { left_table, right_table, join_attribute, left_filters, right_filters, .. } => {
                let lf = self.build_filters(left_filters, rng);
                let rf = self.build_filters(right_filters, rng);
                Query::Join {
                    left_table: left_table.clone(),
                    right_table: right_table.clone(),
                    join_attr: join_attribute.clone(),
                    left_filters: lf,
                    right_filters: rf,
                }
            },
        }
    }

    /// Picks the template whose cumulative weight range holds `pick` and
    /// builds its query; none when `pick` is at least the total weight.
    pub fn select_query(&self, pick: u32, rng: &mut StdRng) -> (r: Option<Query>)
        requires
            self.wf(),
        ensures
            match r {
                None => pick >= weight_prefix(mix_weights(self.config.query_mix@), self.config.query_mix@.len() as int),
                Some(q) => exists|i: int| {
                    &&& 0 <= i < self.config.query_mix@.len()
                    &&& weight_prefix(mix_weights(self.config.query_mix@), i) <= pick
                    &&& pick < weight_prefix(mix_weights(self.config.query_mix@), i + 1)
                    &&& #[trigger] query_from(self.config, self.multi, self.config.query_mix@[i], q)
                },
            },
    {
        let mut weights: Vec<u32> = Vec::new();
        let n = self.config.query_mix.len();
        for i in 0..n
            invariant
                n == self.config.query_mix@.len(),
                weights@ == mix_weights(self.config.query_mix@).take(i as int),
        {
            weights.push(self.config.query_mix[i].weight());
            proof {
                assert(weights@ =~= mix_weights(self.config.query_mix@).take(i + 1));
            }
        }
        proof {
            assert(weights@ =~= mix_weights(self.config.query_mix@));
        }
        match pick_template(&weights, pick) {
            Some(i) => {
                let q = self.build_query(&self.config.query_mix[i], rng);
                Some(q)
            },
            None => None,
        }
    }
}


/// The id key of delta details.
pub open spec fn id_text() -> Seq<char> {
    seq!['i', 'd']
}

/// Every table a template queries exists and is well formed.
pub open spec fn template_tables_ok(m: MultiTableGraph, t: QueryTemplate) -> bool {
    match t {
        QueryTemplate::Eq { table, .. } => m.has_table(table@),
        QueryTemplate::And { table, .. } => m.has_table(table@),
        QueryTemplate::Or { table, .. } => m.has_table(table@),
        QueryTemplate::Join { left_table, right_table, .. } => m.has_table(left_table@) && m.has_table(right_table@),
    }
}

/// Every table's tick is below `b`.
pub open spec fn ticks_below(m: MultiTableGraph, b: int) -> bool {
    forall|n: Seq<char>| #[trigger] m.tables@.contains_key(n) ==> m.tables@[n].current_tick < b
}

/// `new` is `old` after the query `q` ran: a filter runs on its table with
/// fallback (see `fallback_queried`), a join leaves the tables as they are
/// and advances the global tick (see `joined`); the counters go from `old`'s
/// to `new`'s.
pub open spec fn read_effect(old: BenchmarkRunner, new: BenchmarkRunner, q: Query) -> bool {
    match q {
        Query::Filter { table, filter } => {
            &&& new.multi.tables.keys_seq() == old.multi.tables.keys_seq()
            &&& new.multi.current_tick == old.multi.current_tick
            &&& new.multi.completed_lifecycles@ == old.multi.completed_lifecycles@
            &&& new.multi.tables@ == old.multi.tables@.insert(table@, new.multi.tables@[table@])
            &&& exists|r: Set<u32>| #[trigger] new.multi.tables@[table@].fallback_queried(&old.multi.tables@[table@], filter, r, new.metrics, old.metrics)
        },
        Query::Join { left_table, right_table, join_attr, left_filters, right_filters } => {
            &&& new.multi == (MultiTableGraph { current_tick: (old.multi.current_tick + 1) as u64, ..old.multi })
            &&& exists|pairs: Seq<(u32, u32)>, used: bool| #[trigger] old.multi.joined(left_table@, right_table@, join_attr@,
                left_filters@, right_filters@, pairs, used, new.metrics, old.metrics)
        },
    }
}

/// All but the graph, the counters, the object and delta ids and the fanout log are as in `old`.
pub open spec fn same_settings(new: BenchmarkRunner, old: BenchmarkRunner) -> bool {
    &&& new.config == old.config
    &&& new.next_eviction_tick == old.next_eviction_tick
    &&& new.snapshots == old.snapshots
    &&& new.total_ops_executed == old.total_ops_executed
    &&& new.current_phase_name == old.current_phase_name
    &&& new.cover_time_ms == old.cover_time_ms
}

/// The string fields a delta's details give (all but `id`) are the write
/// attributes, each with a value `value_choice` allows; the id is `id`
/// unless a write attribute is named `id`.
pub open spec fn insert_details(cfg: WorkloadConfig, m: MultiTableGraph, attrs: Seq<String>, id: u32, d: Map<Seq<char>, DetailValue>) -> bool {
    &&& forall|k: Seq<char>| #[trigger] spec_properties(d).contains_key(k) <==> (k != id_text() && exists|i: int| 0 <= i < attrs.len() && attrs[i]@ == k)
    &&& forall|i: int| 0 <= i < attrs.len() && attrs[i]@ != id_text() ==> value_choice(cfg, m, attrs[i]@, #[trigger] spec_properties(d)[attrs[i]@])
    &&& (forall|i: int| 0 <= i < attrs.len() ==> #[trigger] attrs[i]@ != id_text()) ==> spec_object_id(d) == id
}

/// The string fields of an update's details are the object's stored row
/// (without `id`) with one write attribute `a` set to a value `value_choice`
/// allows (when there are write attributes); the id is `id` unless the row
/// or the attribute is named `id`.
pub open spec fn update_details(cfg: WorkloadConfig, m: MultiTableGraph, row: Map<Seq<char>, Seq<char>>, attrs: Seq<String>, id: u32,
    d: Map<Seq<char>, DetailValue>) -> bool {
    &&& if attrs.len() == 0 {
        spec_properties(d) == row.remove(id_text())
    } else {
        exists|i: int, v: Seq<char>| {
            &&& 0 <= i < attrs.len()
            &&& #[trigger] value_choice(cfg, m, attrs[i]@, v)
            &&& spec_properties(d) == (if attrs[i]@ == id_text() { row.remove(id_text()) } else { row.remove(id_text()).insert(attrs[i]@, v) })
            &&& (!row.contains_key(id_text()) && attrs[i]@ != id_text()) ==> spec_object_id(d) == id
        }
    }
    &&& (attrs.len() == 0 && !row.contains_key(id_text())) ==> spec_object_id(d) == id
}

/// `new` is `old` after a delta of type `dt` on object `id` was applied to
/// the write table (see `delta_applied`), with the details each type asks
/// for; the fanout log records how many factors it touched.
pub open spec fn wrote_delta(old: BenchmarkRunner, new: BenchmarkRunner, dt: DeltaType, id: u32) -> bool {
    let table = old.config.write_mix.table@;
    &&& new.next_delta_id == old.next_delta_id + 1
    &&& new.multi.tables.keys_seq() == old.multi.tables.keys_seq()
    &&& new.multi.current_tick == old.multi.current_tick
    &&& new.multi.completed_lifecycles@ == old.multi.completed_lifecycles@
    &&& new.multi.tables@ == old.multi.tables@.insert(table, new.multi.tables@[table])
    &&& exists|d: Delta| {
        &&& d.delta_type == dt
        &&& d.delta_id == old.next_delta_id
        &&& d.table_name@ == table
        &&& #[trigger] new.multi.tables@[table].delta_applied(&old.multi.tables@[table], d, new.metrics, old.metrics)
        &&& new.fanout_log@ == old.fanout_log@.push(advance(0, old.multi.tables@[table].touch_count(d)))
        &&& match dt {
            DeltaType::Insert => insert_details(old.config, old.multi, old.config.write_mix.attributes@, id, d.operation_details@),
            DeltaType::Update => update_details(old.config, old.multi, props_at(old.multi.tables@[table].objects_view(), id),
                old.config.write_mix.attributes@, id, d.operation_details@),
            DeltaType::Delete => spec_properties(d.operation_details@) == Map::<Seq<char>, Seq<char>>::empty()
                && spec_object_id(d.operation_details@) == id,
        }
    }
}

/// The write rates sum to a `u64`, the update attribute weights sum to a
/// `u64`, and the write table exists.
pub open spec fn writes_ok(r: BenchmarkRunner) -> bool {
    let w = r.config.write_mix;
    &&& w.insert_rate + w.update_rate + w.delete_rate <= u64::MAX
    &&& (w.attribute_weights matches Some(aw) ==> wsum(attr_weights(w.attributes@, aw@), w.attributes@.len() as int) <= u64::MAX)
    &&& r.multi.has_table(w.table@)
}

/// `new` is `old` after a read whose drawn point was `pick`: nothing when the
/// point lies past every template; else the query of the template whose
/// weight range holds it, built and run (see `query_from`, `read_effect`).
pub open spec fn read_outcome(old: BenchmarkRunner, new: BenchmarkRunner, pick: int) -> bool {
    let w = mix_weights(old.config.query_mix@);
    let n = old.config.query_mix@.len() as int;
    &&& weight_prefix(w, n) <= pick ==> new == old
    &&& pick < weight_prefix(w, n) ==> exists|i: int, q: Query| {
        &&& 0 <= i < n
        &&& weight_prefix(w, i) <= pick
        &&& pick < weight_prefix(w, i + 1)
        &&& #[trigger] query_from(old.config, old.multi, old.config.query_mix@[i], q)
        &&& read_effect(old, new, q)
    }
}

/// Sets every row entry in the details as a string field.
fn put_row(details: &mut StrMap<DetailValue>, row: &PropMap)
    requires
        old(details).wf(),
        row.wf(),
    ensures
        final(details).wf(),
        forall|k: Seq<char>| #[trigger] final(details)@.contains_key(k) <==> (old(details)@.contains_key(k) || row@.contains_key(k)),
        forall|k: Seq<char>| #[trigger] row@.contains_key(k) ==> final(details)@[k] is Str && final(details)@[k]->Str_0@ == props_view(*row)[k],
        forall|k: Seq<char>| !row@.contains_key(k) && #[trigger] old(details)@.contains_key(k) ==> final(details)@[k] == old(details)@[k],
{
    let keys = row.keys();
    let n = keys.len();
    proof {
        row.lemma_dom();
    }
    for i in 0..n
        invariant
            details.wf(),
            row.wf(),
            n == keys@.len(),
            n == row.keys_seq().len(),
            row@.dom() == row.keys_seq().to_set(),
            forall|j: int| 0 <= j < n ==> #[trigger] keys@[j]@ == row.keys_seq()[j],
            forall|k: Seq<char>| #[trigger] details@.contains_key(k) <==> (old(details)@.contains_key(k)
                || exists|j: int| 0 <= j < i && row.keys_seq()[j] == k),
            forall|j: int| 0 <= j < i ==> details@[#[trigger] row.keys_seq()[j]] is Str
                && details@[row.keys_seq()[j]]->Str_0@ == props_view(*row)[row.keys_seq()[j]],
            forall|k: Seq<char>| (forall|j: int| 0 <= j < i ==> row.keys_seq()[j] != k) && #[trigger] old(details)@.contains_key(k)
                ==> details@[k] == old(details)@[k],
    {
        proof {
            assert(row.keys_seq().to_set().contains(row.keys_seq()[i as int]));
        }
        let v = row.value_of(keys[i].as_str());
        details.insert(keys[i].clone(), DetailValue::Str(v.clone()));
        proof {
            row.lemma_entry(i as int);
            assert forall|k: Seq<char>| #[trigger] details@.contains_key(k) <==> (old(details)@.contains_key(k)
                || exists|j: int| 0 <= j < i + 1 && row.keys_seq()[j] == k) by {
                if k == row.keys_seq()[i as int] {
                    assert(row.keys_seq()[i as int] == k);
                }
            }
        }
    }
    proof {
        assert forall|k: Seq<char>| #[trigger] row@.contains_key(k) implies exists|j: int| 0 <= j < n && row.keys_seq()[j] == k by {
            assert(row.keys_seq().to_set().contains(k));
        }
        assert forall|k: Seq<char>| #[trigger] row@.contains_key(k) implies details@[k] is Str && details@[k]->Str_0@ == props_view(*row)[k] by {
            let j = choose|j: int| 0 <= j < n && row.keys_seq()[j] == k;
            assert(details@[row.keys_seq()[j]] is Str);
        }
        assert forall|k: Seq<char>| !row@.contains_key(k) && #[trigger] old(details)@.contains_key(k) implies details@[k] == old(details)@[k] by {
            assert forall|j: int| 0 <= j < n implies row.keys_seq()[j] != k by {
                assert(row.keys_seq().to_set().contains(row.keys_seq()[j]));
            }
        }
    }
}


impl BenchmarkRunner {
    /// Every template's tables exist and are well formed.
    pub open spec fn tables_ready(&self) -> bool {
        forall|i: int| 0 <= i < self.config.query_mix@.len() ==> #[trigger] template_tables_ok(self.multi, self.config.query_mix@[i])
    }

    /// Runs one read: draws a point below `total_weight`, picks the template
    /// whose weight range holds it, builds its query and runs it (a filter
    /// with fallback on its table, or a join).  Nothing happens when
    /// `total_weight` is 0 or the point lies past every template.
    pub fn do_read(&mut self, rng: &mut StdRng, total_weight: u32)
        requires
            old(self).wf(),
            old(self).tables_ready(),
            ticks_below(old(self).multi, u64::MAX as int),
            old(self).multi.current_tick < u64::MAX,
        ensures
            same_settings(*final(self), *old(self)),
            final(self).next_object_id == old(self).next_object_id,
            final(self).next_delta_id == old(self).next_delta_id,
            final(self).fanout_log == old(self).fanout_log,
            final(self).wf(),
            final(self).tables_ready(),
            final(self).multi.tables@.dom() == old(self).multi.tables@.dom(),
            final(self).multi.current_tick <= old(self).multi.current_tick + 1,
            forall|n: Seq<char>| #[trigger] old(self).multi.tables@.contains_key(n) ==>
                final(self).multi.tables@[n].current_tick <= old(self).multi.tables@[n].current_tick + 1,
            total_weight == 0 ==> *final(self) == *old(self),
            total_weight > 0 ==> exists|pick: int| 0 <= pick < total_weight && #[trigger] read_outcome(*old(self), *final(self), pick),
    {
        if total_weight == 0 {
            return;
        }
        let pick = draw_between(rng, 0, (total_weight - 1) as u64) as u32;
        let query = self.select_query(pick, rng);
        match query {
            Some(q) => {
                proof {
                    let i = choose|i: int| {
                        &&& 0 <= i < self.config.query_mix@.len()
                        &&& weight_prefix(mix_weights(self.config.query_mix@), i) <= pick
                        &&& pick < weight_prefix(mix_weights(self.config.query_mix@), i + 1)
                        &&& #[trigger] query_from(self.config, self.multi, self.config.query_mix@[i], q)
                    };
                    assert(template_tables_ok(self.multi, self.config.query_mix@[i]));
                    crate::plan::lemma_weight_prefix_mono(mix_weights(self.config.query_mix@), i + 1, self.config.query_mix@.len() as int);
                }
                let ghost pre = *self;
                let ghost i = choose|i: int| {
                    &&& 0 <= i < self.config.query_mix@.len()
                    &&& weight_prefix(mix_weights(self.config.query_mix@), i) <= pick
                    &&& pick < weight_prefix(mix_weights(self.config.query_mix@), i + 1)
                    &&& #[trigger] query_from(self.config, self.multi, self.config.query_mix@[i], q)
                };
                match q {
                    Query::Filter { table, filter } => {
                        let g = self.multi.table_mut(table.as_str());
                        let r = g.query_with_fallback(&filter, &mut self.metrics);
                        proof {
                            assert(self.multi.tables@[table@].fallback_queried(&pre.multi.tables@[table@], filter, r@, self.metrics, pre.metrics));
                            assert(read_effect(pre, *self, Query::Filter { table, filter }));
                            assert(read_outcome(pre, *self, pick as int));
                            assert forall|n: Seq<char>| #[trigger] self.multi.tables@.contains_key(n) implies self.multi.has_table(n) by {
                                if n != table@ {
                                    assert(pre.multi.tables@.contains_key(n));
                                }
                            }
                            assert forall|k: int| 0 <= k < self.config.query_mix@.len() implies
                                #[trigger] template_tables_ok(self.multi, self.config.query_mix@[k]) by {
                                assert(template_tables_ok(pre.multi, pre.config.query_mix@[k]));
                            }
                            assert(self.multi.tables@.dom() =~= pre.multi.tables@.dom());
                        }
                    },
                    Query::Join { left_table, right_table, join_attr, left_filters, right_filters } => {
                        let r = self.multi.factor_join(
                            left_table.as_str(),
                            right_table.as_str(),
                            join_attr.as_str(),
                            left_filters.as_slice(),
                            right_filters.as_slice(),
                            &mut self.metrics,
                        );
                        proof {
                            assert(self.multi.tables == pre.multi.tables);
                            assert(pre.multi.joined(left_table@, right_table@, join_attr@, left_filters@, right_filters@, r.0@, r.1, self.metrics, pre.metrics));
                            assert(read_effect(pre, *self, Query::Join { left_table, right_table, join_attr, left_filters, right_filters }));
                            assert forall|k: int| 0 <= k < self.config.query_mix@.len() implies
                                #[trigger] template_tables_ok(self.multi, self.config.query_mix@[k]) by {
                                assert(template_tables_ok(pre.multi, pre.config.query_mix@[k]));
                            }
                            assert(read_outcome(pre, *self, pick as int));
                        }
                    },
                }
            },
            None => {
                assert(read_outcome(*self, *self, pick as int));
            },
        }
    }
}


/// `new` is `old` after a write whose drawn point was `roll` (below the sum
/// of the write rates): an insert of a fresh object below the insert rate;
/// else an update, then a delete, of an object drawn among those handed out
/// so far (nothing when none was).
pub open spec fn write_outcome(old: BenchmarkRunner, new: BenchmarkRunner, roll: int) -> bool {
    let w = old.config.write_mix;
    &&& roll < w.insert_rate ==> wrote_delta(old, new, DeltaType::Insert, old.next_object_id)
        && new.next_object_id == old.next_object_id + 1
    &&& w.insert_rate <= roll < w.insert_rate + w.update_rate ==> if old.next_object_id == 0 {
        new == old
    } else {
        new.next_object_id == old.next_object_id
            && exists|id: u32| id < old.next_object_id && #[trigger] wrote_delta(old, new, DeltaType::Update, id)
    }
    &&& w.insert_rate + w.update_rate <= roll ==> if old.next_object_id == 0 {
        new == old
    } else {
        new.next_object_id == old.next_object_id
            && exists|id: u32| id < old.next_object_id && #[trigger] wrote_delta(old, new, DeltaType::Delete, id)
    }
}

impl BenchmarkRunner {
    /// Details carrying the object id under `id`.
    fn id_details(obj_id: u32) -> (d: StrMap<DetailValue>)
        ensures
            d.wf(),
            d@ == Map::<Seq<char>, DetailValue>::empty().insert(id_text(), DetailValue::UInt(obj_id as u64)),
    {
        let mut d: StrMap<DetailValue> = StrMap::new();
        let k = "id".to_owned();
        proof {
            reveal_strlit("id");
            assert(k@ =~= id_text());
        }
        d.insert(k, DetailValue::UInt(obj_id as u64));
        d
    }

    /// The details of an insert: the id, then each write attribute with a
    /// sampled value.
    fn insert_fields(&self, obj_id: u32, rng: &mut StdRng) -> (d: StrMap<DetailValue>)
        requires
            self.wf(),
        ensures
            d.wf(),
            insert_details(self.config, self.multi, self.config.write_mix.attributes@, obj_id, d@),
    {
        let mut d = Self::id_details(obj_id);
        let attrs = &self.config.write_mix.attributes;
        let n = attrs.len();
        for i in 0..n
            invariant
                self.wf(),
                d.wf(),
                n == attrs@.len(),
                attrs == &self.config.write_mix.attributes,
                forall|k: Seq<char>| #[trigger] d@.contains_key(k) <==> (k == id_text() || exists|j: int| 0 <= j < i && attrs@[j]@ == k),
                forall|k: Seq<char>| #[trigger] d@.contains_key(k) && k != id_text() ==> d@[k] is Str
                    && value_choice(self.config, self.multi, k, d@[k]->Str_0@),
                (forall|j: int| 0 <= j < i ==> #[trigger] attrs@[j]@ != id_text()) ==> d@[id_text()] == DetailValue::UInt(obj_id as u64),
        {
            let v = self.sample_value(attrs[i].as_str(), rng);
            d.insert(attrs[i].clone(), DetailValue::Str(v));
            proof {
                assert forall|k: Seq<char>| #[trigger] d@.contains_key(k) <==> (k == id_text() || exists|j: int| 0 <= j < i + 1 && attrs@[j]@ == k) by {
                    if k == attrs@[i as int]@ {
                        assert(attrs@[i as int]@ == k);
                    }
                }
            }
        }
        proof {
            assert forall|k: Seq<char>| #[trigger] spec_properties(d@).contains_key(k) <==> (k != id_text() && exists|i: int| 0 <= i < attrs@.len() && attrs@[i]@ == k) by {
                if k != id_text() && exists|i: int| 0 <= i < attrs@.len() && attrs@[i]@ == k {
                    assert(d@.contains_key(k));
                }
            }
            assert forall|i: int| 0 <= i < attrs@.len() && attrs@[i]@ != id_text() implies
                value_choice(self.config, self.multi, attrs@[i]@, #[trigger] spec_properties(d@)[attrs@[i]@]) by {
                assert(d@.contains_key(attrs@[i]@));
            }
        }
        d
    }

    /// The details of an update: the id, the object's stored row, then one
    /// write attribute (by weight when weights are given) with a sampled value.
    fn update_fields(&self, obj_id: u32, rng: &mut StdRng) -> (d: StrMap<DetailValue>)
        requires
            self.wf(),
            writes_ok(*self),
        ensures
            d.wf(),
            update_details(self.config, self.multi, props_at(self.multi.tables@[self.config.write_mix.table@].objects_view(), obj_id),
                self.config.write_mix.attributes@, obj_id, d@),
    {
        let mut d = Self::id_details(obj_id);
        let g = self.multi.table(self.config.write_mix.table.as_str());
        let ghost row = props_at(g.objects_view(), obj_id);
        let ghost d0 = d@;
        match g.objects.get(&obj_id) {
            Some(p) => {
                proof {
                    assert(g.objects@.contains_key(obj_id));
                }
                put_row(&mut d, p);
                proof {
                    assert(row == props_view(*p));
                    assert(spec_properties(d@) =~= row.remove(id_text()));
                    if !row.contains_key(id_text()) {
                        assert(!p@.contains_key(id_text()));
                        assert(d0.contains_key(id_text()));
                        assert(d@[id_text()] == d0[id_text()]);
                    }
                }
            },
            None => {
                proof {
                    assert(row =~= Map::<Seq<char>, Seq<char>>::empty());
                    assert(spec_properties(d@) =~= row.remove(id_text()));
                }
            },
        }
        let attrs = &self.config.write_mix.attributes;
        if attrs.len() > 0 {
            let a = select_mutation_attribute(attrs, &self.config.write_mix.attribute_weights, rng);
            let ghost ai: int = choose|ai: int| 0 <= ai < attrs@.len() && attrs@[ai]@ == a@;
            let v = self.sample_value(a.as_str(), rng);
            let ghost before = d@;
            d.insert(a, DetailValue::Str(v));
            proof {
                assert(0 <= ai < attrs@.len() && attrs@[ai]@ == a@);
                if a@ == id_text() {
                    assert(spec_properties(d@) =~= row.remove(id_text()));
                } else {
                    assert(spec_properties(d@) =~= row.remove(id_text()).insert(a@, v@));
                    if !row.contains_key(id_text()) {
                        assert(d@[id_text()] == before[id_text()]);
                    }
                }
                assert(value_choice(self.config, self.multi, attrs@[ai]@, v@));
            }
        }
        d
    }
}


impl BenchmarkRunner {
    /// The sum of the write rates.
    pub open spec fn write_total(&self) -> int {
        self.config.write_mix.insert_rate + self.config.write_mix.update_rate + self.config.write_mix.delete_rate
    }

    /// Runs one write: draws a point below the sum of the write rates and,
    /// by where it falls, inserts a fresh object with sampled attributes,
    /// updates an object drawn among those handed out (its stored row with
    /// one attribute resampled), or deletes one; the delta goes to the write
    /// table and the number of factors it touched to the fanout log.
    /// Nothing happens when the rates sum to 0, or for an update or delete
    /// before any object was handed out.
    pub fn do_write(&mut self, rng: &mut StdRng)
        requires
            old(self).wf(),
            writes_ok(*old(self)),
            old(self).next_object_id < u32::MAX,
            old(self).next_delta_id < i64::MAX,
        ensures
            same_settings(*final(self), *old(self)),
            final(self).wf(),
            final(self).tables_ready() == old(self).tables_ready(),
            writes_ok(*final(self)),
            final(self).multi.tables@.dom() == old(self).multi.tables@.dom(),
            final(self).multi.current_tick == old(self).multi.current_tick,
            forall|n: Seq<char>| #[trigger] old(self).multi.tables@.contains_key(n) ==>
                final(self).multi.tables@[n].current_tick == old(self).multi.tables@[n].current_tick,
            final(self).next_object_id <= old(self).next_object_id + 1,
            final(self).next_delta_id <= old(self).next_delta_id + 1,
            old(self).write_total() == 0 ==> *final(self) == *old(self),
            old(self).write_total() > 0 ==> exists|roll: int| 0 <= roll < old(self).write_total()
                && #[trigger] write_outcome(*old(self), *final(self), roll),
    {
        let ins = self.config.write_mix.insert_rate;
        let upd = self.config.write_mix.update_rate;
        let del = self.config.write_mix.delete_rate;
        let total = ins + upd + del;
        if total == 0 {
            return;
        }
        let roll = draw_between(rng, 0, total - 1);
        self.apply_write(roll, rng);
    }

    /// Runs the write whose drawn point is `roll` (below the sum of the
    /// write rates): below the insert rate, an insert of a fresh object with
    /// sampled attributes; below the insert and update rates together, an
    /// update of an object drawn among those handed out (its stored row with
    /// one attribute resampled); else a delete of one.  Nothing happens for
    /// an update or delete before any object was handed out.
    pub fn apply_write(&mut self, roll: u64, rng: &mut StdRng)
        requires
            old(self).wf(),
            writes_ok(*old(self)),
            old(self).next_object_id < u32::MAX,
            old(self).next_delta_id < i64::MAX,
            roll < old(self).write_total(),
        ensures
            same_settings(*final(self), *old(self)),
            final(self).wf(),
            final(self).tables_ready() == old(self).tables_ready(),
            writes_ok(*final(self)),
            final(self).multi.tables@.dom() == old(self).multi.tables@.dom(),
            final(self).multi.current_tick == old(self).multi.current_tick,
            forall|n: Seq<char>| #[trigger] old(self).multi.tables@.contains_key(n) ==>
                final(self).multi.tables@[n].current_tick == old(self).multi.tables@[n].current_tick,
            final(self).next_object_id <= old(self).next_object_id + 1,
            final(self).next_delta_id <= old(self).next_delta_id + 1,
            write_outcome(*old(self), *final(self), roll as int),
    {
        let ins = self.config.write_mix.insert_rate;
        let upd = self.config.write_mix.update_rate;
        let ghost pre = *self;
        let dtype;
        let obj_id;
        if roll < ins {
            obj_id = self.next_object_id;
            self.next_object_id = obj_id + 1;
            dtype = DeltaType::Insert;
        } else if roll < ins + upd {
            if self.next_object_id == 0 {
                proof {
                    assert(write_outcome(pre, *self, roll as int));
                }
                return;
            }
            obj_id = draw_between(rng, 0, (self.next_object_id - 1) as u64) as u32;
            dtype = DeltaType::Update;
        } else {
            if self.next_object_id == 0 {
                proof {
                    assert(write_outcome(pre, *self, roll as int));
                }
                return;
            }
            obj_id = draw_between(rng, 0, (self.next_object_id - 1) as u64) as u32;
            dtype = DeltaType::Delete;
        }
        let details = match dtype {
            DeltaType::Insert => self.insert_fields(obj_id, rng),
            DeltaType::Update => self.update_fields(obj_id, rng),
            DeltaType::Delete => Self::id_details(obj_id),
        };
        proof {
            if dtype == DeltaType::Delete {
                assert(spec_properties(details@) =~= Map::<Seq<char>, Seq<char>>::empty());
            }
        }
        let table_name = self.config.write_mix.table.clone();
        let delta = Delta {
            delta_id: self.next_delta_id,
            db_id: 1,
            base_version: "v1".to_owned(),
            sequence: 1,
            delta_type: dtype,
            table_name: table_name.clone(),
            codomain_ids: Vec::new(),
            contact_ids: Vec::new(),
            operation_details: details,
        };
        self.next_delta_id = self.next_delta_id + 1;
        let before = self.metrics.write_propagation_nodes;
        let ghost mid = *self;
        let g = self.multi.table_mut(table_name.as_str());
        g.apply_delta(&delta, &mut self.metrics);
        let after = self.metrics.write_propagation_nodes;
        let fan = after.wrapping_sub(before);
        self.fanout_log.push(fan);
        proof {
            let tb = pre.config.write_mix.table@;
            let tc = pre.multi.tables@[tb].touch_count(delta);
            crate::metrics::lemma_advance_diff(before, tc);
            assert(fan == advance(0, tc));
            assert(self.multi.tables@[tb].delta_applied(&pre.multi.tables@[tb], delta, self.metrics, pre.metrics));
            assert(wrote_delta(pre, *self, dtype, obj_id));
            assert(write_outcome(pre, *self, roll as int));
            let g2 = self.multi.tables@[tb];
            let g1 = pre.multi.tables@[tb];
            if dtype == DeltaType::Update {
                let o = spec_object_id(delta.operation_details@);
                let pv = spec_properties(delta.operation_details@);
                let before = props_at(g1.objects_view(), o);
                let dd = g1.detach_set(o, pv, crate::graph::prop_atoms(before).difference(crate::graph::prop_atoms(pv)));
                let aa = g1.attach_set(o, pv, crate::graph::prop_atoms(pv).difference(crate::graph::prop_atoms(before)));
                let m = choose|m: FactorGraph| #[trigger] m.detached_from(&g1, o, dd) && g2.attached_from(&m, o, aa);
            }
            assert(g2.current_tick == g1.current_tick);
            assert forall|n: Seq<char>| #[trigger] self.multi.tables@.contains_key(n) implies self.multi.has_table(n) by {
                if n != tb {
                    assert(pre.multi.tables@.contains_key(n));
                }
            }
            if pre.tables_ready() {
                assert forall|k: int| 0 <= k < self.config.query_mix@.len() implies
                    #[trigger] template_tables_ok(self.multi, self.config.query_mix@[k]) by {
                    assert(template_tables_ok(pre.multi, pre.config.query_mix@[k]));
                }
            }
            if self.tables_ready() {
                assert forall|k: int| 0 <= k < pre.config.query_mix@.len() implies
                    #[trigger] template_tables_ok(pre.multi, pre.config.query_mix@[k]) by {
                    assert(template_tables_ok(self.multi, self.config.query_mix@[k]));
                }
            }
            assert(self.multi.tables@.dom() =~= pre.multi.tables@.dom());
        }
    }
}


/// The `std::time::Instant` clock reading, carried through unchanged.
#[verifier::external_type_specification]
#[verifier::external_body]
pub struct ExInstant(Instant);

/// `Instant::now`: the current reading of the monotonic clock.
#[verifier::external_body]
pub(crate) fn clock_now() -> Instant {
    Instant::now()
}

/// `Instant::elapsed`: the time since the reading.  Nothing is stated of it.
#[verifier::external_body]
pub(crate) fn elapsed_since(t: &Instant) -> Duration {
    t.elapsed()
}

/// `Duration::as_millis`: the whole milliseconds of the duration.  The
/// duration is opaque here, so the value is not stated.
#[verifier::external_body]
fn duration_millis(d: &Duration) -> u128 {
    d.as_millis()
}

/// The cover factorises `attr` of table `t`: the table lists it, or (with
/// no list) describes it as a simple or categorical attribute.
pub open spec fn factorizes(t: TableSpec, attr: Seq<char>) -> bool {
    match t.factorize_attributes {
        Some(list) => strings_view(list@).contains(attr),
        None => t.attributes@.contains_key(attr) && match t.attributes@[attr] {
            AttributeDef::Simple(_) => true,
            AttributeDef::Extended(AttributeSpec::Categorical { .. }) => true,
            AttributeDef::Extended(AttributeSpec::Continuous { .. }) => false,
        },
    }
}

/// A seeded row: each attribute of the table holds a drawn value other than
/// the null marker, or is left out because its draw gave the marker; the
/// row holds no other attribute.
pub open spec fn row_sampled(t: TableSpec, row: Map<Seq<char>, Seq<char>>) -> bool {
    &&& forall|a: Seq<char>| #[trigger] row.contains_key(a) ==> t.attributes@.contains_key(a)
    &&& forall|a: Seq<char>| #[trigger] t.attributes@.contains_key(a) ==> if row.contains_key(a) {
        row[a] != null_text() && drawn_value(t.attributes@[a], row[a])
    } else {
        null_rate(t.attributes@[a]) > 0 || drawn_value(t.attributes@[a], null_text())
    }
}

/// The (object, atom) pairs of the attributes the cover factorises.
pub open spec fn factorized_pairs(objs: Map<u32, Map<Seq<char>, Seq<char>>>, t: TableSpec) -> Set<(u32, Seq<char>)> {
    Set::new(|p: (u32, Seq<char>)| exists|a: Seq<char>| {
        &&& objs.contains_key(p.0)
        &&& #[trigger] objs[p.0].contains_key(a)
        &&& factorizes(t, a)
        &&& p.1 == atom_of(a, objs[p.0][a])
    })
}

/// The ids `start .. start + n`.
pub open spec fn id_block(start: int, n: int) -> Set<u32> {
    Set::new(|o: u32| start <= o < start + n)
}

/// A freshly seeded table: objects `start ..` with sampled rows, and
/// structural factors covering the factorised (object, atom) pairs exactly,
/// as the greedy cover builds them.
pub open spec fn seeded(g: FactorGraph, t: TableSpec, threshold: u64, start: int) -> bool {
    &&& g.wf()
    &&& g.current_tick == 0
    &&& g.materialization_threshold == threshold
    &&& g.objects_view().dom() == id_block(start, t.initial_objects as int)
    &&& forall|o: u32| #[trigger] g.objects_view().contains_key(o) ==> row_sampled(t, g.objects_view()[o])
    &&& exists|fs: Seq<Factor>| {
        &&& #[trigger] exact_cover(factorized_pairs(g.objects_view(), t), fs)
        &&& forall|i: int| 0 <= i < fs.len() ==> (#[trigger] fs[i]).is_structural && g.factors@.contains_key(fs[i].id)
            && g.factors@[fs[i].id] == fs[i]
        &&& g.factors@.dom() == Set::new(|k: u64| exists|i: int| 0 <= i < fs.len() && fs[i].id == k)
        &&& crate::cover::greedy_cover_of(factorized_pairs(g.objects_view(), t), fs)
    }
}

/// The attributes the cover factorises, as a list.
fn factorize_list(t: &TableSpec) -> (v: Vec<String>)
    requires
        t.attributes.wf(),
    ensures
        forall|a: Seq<char>| #[trigger] strings_view(v@).contains(a) <==> factorizes(*t, a),
{
    match &t.factorize_attributes {
        Some(list) => {
            let mut v: Vec<String> = Vec::new();
            let n = list.len();
            for i in 0..n
                invariant
                    n == list@.len(),
                    v@.len() == i,
                    strings_view(v@) == strings_view(list@).take(i as int),
            {
                let ghost pre = v@;
                let c = list[i].clone();
                v.push(c);
                proof {
                    assert(c@ == list@[i as int]@);
                    assert(v@ == pre.push(c));
                    assert(strings_view(v@).len() == i + 1);
                    assert forall|j: int| 0 <= j < i + 1 implies #[trigger] strings_view(v@)[j] == strings_view(list@).take(i + 1)[j] by {
                        if j < i {
                            assert(strings_view(v@)[j] == strings_view(pre)[j]);
                        }
                    }
                    assert(strings_view(v@) =~= strings_view(list@).take(i + 1));
                }
            }
            proof {
                assert(strings_view(list@).take(n as int) =~= strings_view(list@));
            }
            v
        },
        None => {
            let keys = t.attributes.keys();
            let n = keys.len();
            let mut v: Vec<String> = Vec::new();
            proof {
                t.attributes.lemma_dom();
            }
            for i in 0..n
                invariant
                    t.attributes.wf(),
                    t.factorize_attributes is None,
                    n == keys@.len(),
                    n == t.attributes.keys_seq().len(),
                    t.attributes@.dom() == t.attributes.keys_seq().to_set(),
                    forall|j: int| 0 <= j < n ==> #[trigger] keys@[j]@ == t.attributes.keys_seq()[j],
                    forall|a: Seq<char>| #[trigger] strings_view(v@).contains(a) <==>
                        (factorizes(*t, a) && exists|j: int| 0 <= j < i && t.attributes.keys_seq()[j] == a),
            {
                proof {
                    assert(t.attributes.keys_seq().to_set().contains(t.attributes.keys_seq()[i as int]));
                }
                let def = t.attributes.value_of(keys[i].as_str());
                let keep = match def {
                    AttributeDef::Simple(_) => true,
                    AttributeDef::Extended(AttributeSpec::Categorical { .. }) => true,
                    AttributeDef::Extended(AttributeSpec::Continuous { .. }) => false,
                };
                let ghost before = strings_view(v@);
                if keep {
                    v.push(keys[i].clone());
                }
                proof {
                    assert forall|a: Seq<char>| #[trigger] strings_view(v@).contains(a) <==>
                        (factorizes(*t, a) && exists|j: int| 0 <= j < i + 1 && t.attributes.keys_seq()[j] == a) by {
                        if keep {
                            assert(strings_view(v@) == before.push(keys@[i as int]@));
                            if strings_view(v@).contains(a) && a != keys@[i as int]@ {
                                let j = choose|j: int| 0 <= j < strings_view(v@).len() && strings_view(v@)[j] == a;
                                assert(before[j] == a);
                            }
                            if before.contains(a) {
                                let j = choose|j: int| 0 <= j < before.len() && before[j] == a;
                                assert(strings_view(v@)[j] == a);
                            }
                            if a == keys@[i as int]@ {
                                assert(strings_view(v@)[before.len() as int] == a);
                            }
                        } else {
                            assert(strings_view(v@) == before);
                        }
                        if factorizes(*t, a) && exists|j: int| 0 <= j < i + 1 && t.attributes.keys_seq()[j] == a {
                            let j = choose|j: int| 0 <= j < i + 1 && t.attributes.keys_seq()[j] == a;
                            if j == i {
                                assert(a == keys@[i as int]@);
                            }
                        }
                    }
                }
            }
            proof {
                assert forall|a: Seq<char>| #[trigger] strings_view(v@).contains(a) <==> factorizes(*t, a) by {
                    if factorizes(*t, a) {
                        assert(t.attributes.keys_seq().to_set().contains(a));
                        let j = choose|j: int| 0 <= j < n && t.attributes.keys_seq()[j] == a;
                    }
                }
            }
            v
        },
    }
}

/// Samples a row of the table: every attribute drawn, those whose draw gave
/// the null marker left out.
pub fn generate_props(t: &TableSpec, rng: &mut StdRng) -> (row: PropMap)
    requires
        t.attributes.wf(),
        forall|a: Seq<char>| #[trigger] t.attributes@.contains_key(a) ==> def_ok(t.attributes@[a]),
    ensures
        row.wf(),
        row_sampled(*t, props_view(row)),
{
    let keys = t.attributes.keys();
    let n = keys.len();
    let mut row: PropMap = StrMap::new();
    proof {
        t.attributes.lemma_dom();
    }
    for i in 0..n
        invariant
            t.attributes.wf(),
            forall|a: Seq<char>| #[trigger] t.attributes@.contains_key(a) ==> def_ok(t.attributes@[a]),
            row.wf(),
            n == keys@.len(),
            n == t.attributes.keys_seq().len(),
            t.attributes.keys_seq().no_duplicates(),
            t.attributes@.dom() == t.attributes.keys_seq().to_set(),
            forall|j: int| 0 <= j < n ==> #[trigger] keys@[j]@ == t.attributes.keys_seq()[j],
            forall|a: Seq<char>| #[trigger] row@.contains_key(a) ==> exists|j: int| 0 <= j < i && t.attributes.keys_seq()[j] == a,
            forall|j: int| 0 <= j < i ==> {
                let a = #[trigger] t.attributes.keys_seq()[j];
                if row@.contains_key(a) {
                    props_view(row)[a] != null_text() && drawn_value(t.attributes@[a], props_view(row)[a])
                } else {
                    null_rate(t.attributes@[a]) > 0 || drawn_value(t.attributes@[a], null_text())
                }
            },
    {
        proof {
            assert(t.attributes.keys_seq().to_set().contains(t.attributes.keys_seq()[i as int]));
        }
        let def = t.attributes.value_of(keys[i].as_str());
        let v = sample_attr_value(def, rng);
        let null = null_string();
        let ghost before = row@;
        let ghost a = keys@[i as int]@;
        if !(v == null) {
            row.insert(keys[i].clone(), v);
        }
        proof {
            assert forall|j: int| 0 <= j < i + 1 implies {
                let b = #[trigger] t.attributes.keys_seq()[j];
                if row@.contains_key(b) {
                    props_view(row)[b] != null_text() && drawn_value(t.attributes@[b], props_view(row)[b])
                } else {
                    null_rate(t.attributes@[b]) > 0 || drawn_value(t.attributes@[b], null_text())
                }
            } by {
                let b = t.attributes.keys_seq()[j];
                if j < i {
                    assert(b != a);
                }
            }
            assert forall|b: Seq<char>| #[trigger] row@.contains_key(b) implies exists|j: int| 0 <= j < i + 1 && t.attributes.keys_seq()[j] == b by {
                if b == a {
                    assert(t.attributes.keys_seq()[i as int] == b);
                } else {
                    assert(before.contains_key(b));
                }
            }
        }
    }
    proof {
        assert forall|a: Seq<char>| #[trigger] t.attributes@.contains_key(a) implies if props_view(row).contains_key(a) {
            props_view(row)[a] != null_text() && drawn_value(t.attributes@[a], props_view(row)[a])
        } else {
            null_rate(t.attributes@[a]) > 0 || drawn_value(t.attributes@[a], null_text())
        } by {
            assert(t.attributes.keys_seq().to_set().contains(a));
            let j = choose|j: int| 0 <= j < n && t.attributes.keys_seq()[j] == a;
            assert(t.attributes.keys_seq()[j] == a);
        }
        assert forall|a: Seq<char>| #[trigger] props_view(row).contains_key(a) implies t.attributes@.contains_key(a) by {
            let j = choose|j: int| 0 <= j < n && t.attributes.keys_seq()[j] == a;
            assert(t.attributes.keys_seq().to_set().contains(a));
        }
    }
    row
}

/// The entries of the row whose attribute the list holds.
fn restrict_row(row: &PropMap, keep: &Vec<String>) -> (f: PropMap)
    requires
        row.wf(),
    ensures
        f.wf(),
        forall|a: Seq<char>| #[trigger] props_view(f).contains_key(a) <==> (props_view(*row).contains_key(a) && strings_view(keep@).contains(a)),
        forall|a: Seq<char>| #[trigger] props_view(f).contains_key(a) ==> props_view(f)[a] == props_view(*row)[a],
{
    let keys = row.keys();
    let n = keys.len();
    let mut f: PropMap = StrMap::new();
    proof {
        row.lemma_dom();
    }
    for i in 0..n
        invariant
            row.wf(),
            f.wf(),
            n == keys@.len(),
            n == row.keys_seq().len(),
            row@.dom() == row.keys_seq().to_set(),
            forall|j: int| 0 <= j < n ==> #[trigger] keys@[j]@ == row.keys_seq()[j],
            forall|a: Seq<char>| #[trigger] f@.contains_key(a) <==> (strings_view(keep@).contains(a)
                && exists|j: int| 0 <= j < i && row.keys_seq()[j] == a),
            forall|a: Seq<char>| #[trigger] f@.contains_key(a) ==> row@.contains_key(a) && f@[a]@ == row@[a]@,
    {
        proof {
            assert(row.keys_seq().to_set().contains(row.keys_seq()[i as int]));
        }
        if strings_contain(keep, &keys[i]) {
            let v = row.value_of(keys[i].as_str());
            f.insert(keys[i].clone(), v.clone());
        }
        proof {
            assert forall|a: Seq<char>| #[trigger] f@.contains_key(a) <==> (strings_view(keep@).contains(a)
                && exists|j: int| 0 <= j < i + 1 && row.keys_seq()[j] == a) by {
                if a == row.keys_seq()[i as int] {
                    assert(row.keys_seq()[i as int] == a);
                }
            }
        }
    }
    proof {
        assert forall|a: Seq<char>| #[trigger] props_view(f).contains_key(a) <==> (props_view(*row).contains_key(a) && strings_view(keep@).contains(a)) by {
            if props_view(*row).contains_key(a) && strings_view(keep@).contains(a) {
                assert(row.keys_seq().to_set().contains(a));
                let j = choose|j: int| 0 <= j < n && row.keys_seq()[j] == a;
            }
            if f@.contains_key(a) {
                let j = choose|j: int| 0 <= j < n && row.keys_seq()[j] == a;
                assert(row.keys_seq().to_set().contains(a));
            }
        }
    }
    f
}


/// Seeds a table: objects `start ..` (as many as the table starts with),
/// each with a sampled row, stored whole; then the structural cover of the
/// factorised attributes, whose factors are added.  Also gives the whole
/// milliseconds the cover took.
pub fn seed_table(t: &TableSpec, threshold: u64, start: u32, rng: &mut StdRng) -> (r: (FactorGraph, u64))
    requires
        t.attributes.wf(),
        forall|a: Seq<char>| #[trigger] t.attributes@.contains_key(a) ==> def_ok(t.attributes@[a]),
        start + t.initial_objects <= u32::MAX,
    ensures
        seeded(r.0, *t, threshold, start as int),
{
    let fl = factorize_list(t);
    let mut g = FactorGraph::new();
    g.materialization_threshold = threshold;
    let mut seeds: Vec<(u32, PropMap)> = Vec::new();
    let n = t.initial_objects;
    proof {
        assert(g.objects_view().dom() =~= id_block(start as int, 0));
    }
    for k in 0..n
        invariant
            t.attributes.wf(),
            forall|a: Seq<char>| #[trigger] t.attributes@.contains_key(a) ==> def_ok(t.attributes@[a]),
            forall|a: Seq<char>| #[trigger] strings_view(fl@).contains(a) <==> factorizes(*t, a),
            n == t.initial_objects,
            start + n <= u32::MAX,
            g.wf(),
            g.current_tick == 0,
            g.materialization_threshold == threshold,
            g.factors@ == Map::<u64, Factor>::empty(),
            g.boi_view() == Map::<u32, Set<u64>>::empty(),
            g.bpi_view() == Map::<Seq<char>, Set<u64>>::empty(),
            g.factor_last_access@ == Map::<u64, u64>::empty(),
            g.lifecycles@ == Map::<u64, crate::types::FactorLifecycle>::empty(),
            g.objects_view().dom() == id_block(start as int, k as int),
            forall|o: u32| #[trigger] g.objects_view().contains_key(o) ==> row_sampled(*t, g.objects_view()[o]),
            seeds@.len() == k,
            forall|j: int| 0 <= j < k ==> (#[trigger] seeds@[j]).0 == start + j && seeds@[j].1.wf(),
            forall|j: int, a: Seq<char>| 0 <= j < k && #[trigger] props_view(seeds@[j].1).contains_key(a) ==>
                g.objects_view()[(start + j) as u32].contains_key(a) && factorizes(*t, a)
                && props_view(seeds@[j].1)[a] == g.objects_view()[(start + j) as u32][a],
            forall|j: int, a: Seq<char>| 0 <= j < k && #[trigger] g.objects_view()[(start + j) as u32].contains_key(a)
                && factorizes(*t, a) ==> props_view(seeds@[j].1).contains_key(a),
    {
        let oid: u32 = start + k as u32;
        let row = generate_props(t, rng);
        let f = restrict_row(&row, &fl);
        let ghost rv = props_view(row);
        let ghost before = g.objects_view();
        g.objects.insert(oid, row);
        seeds.push((oid, f));
        proof {
            assert(g.objects_view() == before.insert(oid, rv));
            assert(g.objects_view().dom() =~= id_block(start as int, k + 1));
            assert forall|j: int, a: Seq<char>| 0 <= j < k + 1 && #[trigger] props_view(seeds@[j].1).contains_key(a) implies
                g.objects_view()[(start + j) as u32].contains_key(a) && factorizes(*t, a)
                && props_view(seeds@[j].1)[a] == g.objects_view()[(start + j) as u32][a] by {
                if j < k {
                    assert((start + j) as u32 != oid);
                }
            }
            assert forall|j: int, a: Seq<char>| 0 <= j < k + 1 && #[trigger] g.objects_view()[(start + j) as u32].contains_key(a)
                && factorizes(*t, a) implies props_view(seeds@[j].1).contains_key(a) by {
                if j < k {
                    assert((start + j) as u32 != oid);
                    assert(before[(start + j) as u32].contains_key(a));
                }
            }
        }
    }
    let ghost objs = g.objects_view();
    proof {
        assert forall|p: (u32, Seq<char>)| object_pairs(seeds@).contains(p) <==> factorized_pairs(objs, *t).contains(p) by {
            if object_pairs(seeds@).contains(p) {
                let (j, a) = choose|j: int, a: Seq<char>| 0 <= j < seeds@.len() && seeds@[j].0 == p.0
                    && #[trigger] props_view(seeds@[j].1).contains_key(a) && p.1 == atom_of(a, props_view(seeds@[j].1)[a]);
                assert(objs.contains_key(p.0));
                assert(objs[p.0].contains_key(a));
            }
            if factorized_pairs(objs, *t).contains(p) {
                let a = choose|a: Seq<char>| {
                    &&& objs.contains_key(p.0)
                    &&& #[trigger] objs[p.0].contains_key(a)
                    &&& factorizes(*t, a)
                    &&& p.1 == atom_of(a, objs[p.0][a])
                };
                let j: int = p.0 - start;
                assert(0 <= j < n);
                assert((start + j) as u32 == p.0);
                assert(props_view(seeds@[j].1).contains_key(a));
            }
        }
        assert(object_pairs(seeds@) =~= factorized_pairs(objs, *t));
    }
    let ghost seed_pairs = object_pairs(seeds@);
    let t0 = clock_now();
    let fs = structural_factors(seeds);
    let took = elapsed_since(&t0);
    let ms = duration_millis(&took);
    let ms64: u64 = #[verifier::truncate] (ms as u64);
    let ghost fsv = fs@;
    let nfs = fs.len();
    proof {
        assert forall|k1: int, k2: int| 0 <= k1 < fsv.len() && 0 <= k2 < fsv.len() && k1 != k2 implies
            #[trigger] fsv[k1].id != #[trigger] fsv[k2].id by {
            assert(fsv.len() == nfs);
            assert(fsv[k1].id as int == (k1 + 1) % 0x1_0000_0000_0000_0000);
            assert(fsv[k2].id as int == (k2 + 1) % 0x1_0000_0000_0000_0000);
            vstd::arithmetic::div_mod::lemma_small_mod((k1 + 1) as nat, 0x1_0000_0000_0000_0000);
            vstd::arithmetic::div_mod::lemma_small_mod((k2 + 1) as nat, 0x1_0000_0000_0000_0000);
        }
    }
    let ghost mut idx: int = 0;
    for f in it: fs.into_iter()
        invariant
            it.seq() == fsv,
            idx == it.index(),
            g.wf(),
            g.current_tick == 0,
            g.materialization_threshold == threshold,
            g.objects_view() == objs,
            forall|k1: int, k2: int| 0 <= k1 < fsv.len() && 0 <= k2 < fsv.len() && k1 != k2 ==>
                #[trigger] fsv[k1].id != #[trigger] fsv[k2].id,
            forall|j: int| 0 <= j < idx ==> g.factors@.contains_key(#[trigger] fsv[j].id) && g.factors@[fsv[j].id] == fsv[j],
            forall|k: u64| #[trigger] g.factors@.contains_key(k) <==> exists|j: int| 0 <= j < idx && fsv[j].id == k,
    {
        g.add_factor(f);
        proof {
            assert(f == fsv[idx]);
            assert(g.objects_view() =~= objs);
            assert forall|k: u64| #[trigger] g.factors@.contains_key(k) <==> exists|j: int| 0 <= j < idx + 1 && fsv[j].id == k by {
                if k == f.id {
                    assert(fsv[idx].id == k);
                } else if exists|j: int| 0 <= j < idx + 1 && fsv[j].id == k {
                    let j = choose|j: int| 0 <= j < idx + 1 && fsv[j].id == k;
                    assert(j != idx);
                }
            }
            idx = idx + 1;
        }
    }
    proof {
        assert(g.factors@.dom() =~= Set::new(|k: u64| exists|i: int| 0 <= i < fsv.len() && fsv[i].id == k));
        assert(exact_cover(factorized_pairs(g.objects_view(), *t), fsv));
        assert(seed_pairs == factorized_pairs(g.objects_view(), *t));
        assert(crate::cover::greedy_cover_of(factorized_pairs(g.objects_view(), *t), fsv));
    }
    (g, ms64)
}


/// The objects the tables `keys[..j]` start with, together.
pub open spec fn initial_before(tables: Map<Seq<char>, TableSpec>, keys: Seq<Seq<char>>, j: int) -> int
    decreases j,
{
    if j <= 0 {
        0
    } else {
        initial_before(tables, keys, j - 1) + tables[keys[j - 1]].initial_objects
    }
}

pub proof fn lemma_initial_before_mono(tables: Map<Seq<char>, TableSpec>, keys: Seq<Seq<char>>, i: int, j: int)
    requires
        0 <= i <= j,
    ensures
        initial_before(tables, keys, i) <= initial_before(tables, keys, j),
    decreases j - i,
{
    if i < j {
        lemma_initial_before_mono(tables, keys, i, j - 1);
    }
}

/// Every table's tick, and the global one, can still advance by `room`.
pub open spec fn ticks_room(m: MultiTableGraph, room: int) -> bool {
    &&& m.current_tick + room <= u64::MAX
    &&& forall|n: Seq<char>| #[trigger] m.tables@.contains_key(n) ==> m.tables@[n].current_tick + room <= u64::MAX
}

impl BenchmarkRunner {
    /// A runner for the workload: no tables yet, counters at zero, object ids
    /// from 0, delta ids from 1, the first eviction after the configured
    /// number of ticks.
    pub fn new(config: WorkloadConfig) -> (r: Self)
        ensures
            r.config == config,
            r.multi.tables@ == Map::<Seq<char>, FactorGraph>::empty(),
            r.multi.current_tick == 0,
            r.multi.completed_lifecycles@ == Seq::<crate::types::FactorLifecycle>::empty(),
            r.metrics == Metrics::zeroed(),
            r.next_object_id == 0,
            r.next_delta_id == 1,
            r.next_eviction_tick == config.adaptation.eviction_ticks,
            r.snapshots@ == Seq::<(usize, MetricsReport)>::empty(),
            r.fanout_log@ == Seq::<u64>::empty(),
            r.total_ops_executed == 0,
            r.current_phase_name@ == Seq::<char>::empty(),
            r.cover_time_ms == 0,
    {
        let next_eviction_tick = config.adaptation.eviction_ticks;
        BenchmarkRunner {
            config,
            multi: MultiTableGraph::new(),
            metrics: Metrics::new(),
            next_object_id: 0,
            next_delta_id: 1,
            next_eviction_tick,
            snapshots: Vec::new(),
            fanout_log: Vec::new(),
            total_ops_executed: 0,
            current_phase_name: String::new(),
            cover_time_ms: 0,
        }
    }

    /// Swaps the workload without resetting the graph or the counters: every
    /// table takes the new materialisation threshold, the next eviction comes
    /// the new number of ticks after the largest tick, and the snapshots are
    /// cleared.
    pub fn change_workload(&mut self, new_config: WorkloadConfig)
        requires
            old(self).multi.wf(),
            ticks_room(old(self).multi, new_config.adaptation.eviction_ticks as int),
        ensures
            final(self).config == new_config,
            final(self).snapshots@ == Seq::<(usize, MetricsReport)>::empty(),
            final(self).multi.wf(),
            final(self).multi.tables.keys_seq() == old(self).multi.tables.keys_seq(),
            final(self).multi.tables@.dom() == old(self).multi.tables@.dom(),
            forall|n: Seq<char>| #[trigger] old(self).multi.tables@.contains_key(n) ==> final(self).multi.tables@[n] == (FactorGraph {
                materialization_threshold: new_config.adaptation.materialization_threshold,
                ..old(self).multi.tables@[n]
            }),
            final(self).multi.current_tick == old(self).multi.current_tick,
            final(self).multi.completed_lifecycles@ == old(self).multi.completed_lifecycles@,
            exists|t: u64| old(self).multi.is_max_tick(t) && final(self).next_eviction_tick == t + new_config.adaptation.eviction_ticks,
            final(self).metrics == old(self).metrics,
            final(self).next_object_id == old(self).next_object_id,
            final(self).next_delta_id == old(self).next_delta_id,
            final(self).fanout_log == old(self).fanout_log,
            final(self).total_ops_executed == old(self).total_ops_executed,
            final(self).current_phase_name == old(self).current_phase_name,
            final(self).cover_time_ms == old(self).cover_time_ms,
    {
        let threshold = new_config.adaptation.materialization_threshold;
        let n = self.multi.tables.len();
        let ghost m0 = self.multi;
        let ghost keys = m0.tables.keys_seq();
        proof {
            m0.tables.lemma_dom();
        }
        for i in 0..n
            invariant
                self.multi.wf(),
                n == keys.len(),
                keys == m0.tables.keys_seq(),
                keys.no_duplicates(),
                m0.tables@.dom() == keys.to_set(),
                self.multi.tables.keys_seq() == keys,
                self.multi.tables@.dom() == m0.tables@.dom(),
                self.multi.current_tick == m0.current_tick,
                self.multi.completed_lifecycles@ == m0.completed_lifecycles@,
                self.metrics == old(self).metrics,
                self.next_object_id == old(self).next_object_id,
                self.next_delta_id == old(self).next_delta_id,
                self.fanout_log == old(self).fanout_log,
                self.total_ops_executed == old(self).total_ops_executed,
                self.current_phase_name == old(self).current_phase_name,
                self.cover_time_ms == old(self).cover_time_ms,
                forall|j: int| 0 <= j < n ==> #[trigger] self.multi.tables@[keys[j]] == (if j < i {
                    FactorGraph { materialization_threshold: threshold, ..m0.tables@[keys[j]] }
                } else {
                    m0.tables@[keys[j]]
                }),
        {
            let name = self.multi.tables.key_at(i).clone();
            proof {
                assert(keys.to_set().contains(keys[i as int]));
            }
            let g = self.multi.table_mut(name.as_str());
            g.materialization_threshold = threshold;
            proof {
                assert forall|j: int| 0 <= j < n implies #[trigger] self.multi.tables@[keys[j]] == (if j < i + 1 {
                    FactorGraph { materialization_threshold: threshold, ..m0.tables@[keys[j]] }
                } else {
                    m0.tables@[keys[j]]
                }) by {
                    if j != i {
                        assert(keys[j] != keys[i as int]);
                    }
                }
                assert(self.multi.tables@.dom() =~= m0.tables@.dom());
            }
        }
        proof {
            assert forall|nm: Seq<char>| #[trigger] m0.tables@.contains_key(nm) implies self.multi.tables@[nm] == (FactorGraph {
                materialization_threshold: threshold,
                ..m0.tables@[nm]
            }) by {
                assert(keys.to_set().contains(nm));
                let j = choose|j: int| 0 <= j < keys.len() && keys[j] == nm;
                assert(self.multi.tables@[keys[j]] == FactorGraph { materialization_threshold: threshold, ..m0.tables@[keys[j]] });
            }
        }
        let t = self.multi.max_tick();
        proof {
            assert forall|nm: Seq<char>| #[trigger] m0.tables@.contains_key(nm) implies t >= m0.tables@[nm].current_tick by {
                assert(self.multi.tables@.contains_key(nm));
            }
            if t != m0.current_tick {
                let nm = choose|nm: Seq<char>| #[trigger] self.multi.tables@.contains_key(nm) && t == self.multi.tables@[nm].current_tick;
                assert(m0.tables@.contains_key(nm));
            }
            assert(m0.is_max_tick(t));
            if t != m0.current_tick {
                let nm = choose|nm: Seq<char>| #[trigger] m0.tables@.contains_key(nm) && t == m0.tables@[nm].current_tick;
            }
        }
        self.next_eviction_tick = t + new_config.adaptation.eviction_ticks;
        self.config = new_config;
        self.snapshots.clear();
    }
}


/// The snapshots from position `from` on were taken at increasing
/// operation indexes `base + i` for `0 < i < hi` with `i` a multiple of
/// `interval`, each labelled with the phase name.
pub open spec fn snapshots_taken(snaps: Seq<(usize, MetricsReport)>, from: int, base: int, hi: int, interval: int, phase: Seq<char>) -> bool {
    &&& forall|j: int| from <= j < snaps.len() ==> {
        &&& 0 < (#[trigger] snaps[j]).0 - base < hi
        &&& (snaps[j].0 - base) % interval == 0
    }
    &&& forall|j: int| from <= j < snaps.len() ==> (#[trigger] snaps[j]).1.phase_name@ == phase
    &&& forall|j1: int, j2: int| from <= j1 < j2 < snaps.len() ==> #[trigger] snaps[j1].0 < #[trigger] snaps[j2].0
}

impl BenchmarkRunner {
    /// Seeds every table of the workload, in the order the configuration
    /// keeps them: consecutive object ids from the next free one, sampled
    /// rows, and structural factors covering the factorised attributes
    /// (see `seeded`); each table replaces any table of the same name.
    pub fn initialize(&mut self)
        requires
            old(self).wf(),
            old(self).next_object_id + initial_before(old(self).config.tables@, old(self).config.tables.keys_seq(),
                old(self).config.tables.keys_seq().len() as int) <= u32::MAX,
        ensures
            final(self).wf(),
            final(self).config == old(self).config,
            final(self).next_eviction_tick == old(self).next_eviction_tick,
            final(self).snapshots == old(self).snapshots,
            final(self).total_ops_executed == old(self).total_ops_executed,
            final(self).current_phase_name == old(self).current_phase_name,
            final(self).metrics == old(self).metrics,
            final(self).next_delta_id == old(self).next_delta_id,
            final(self).fanout_log == old(self).fanout_log,
            final(self).next_object_id == old(self).next_object_id + initial_before(old(self).config.tables@,
                old(self).config.tables.keys_seq(), old(self).config.tables.keys_seq().len() as int),
            final(self).multi.tables@.dom() == old(self).multi.tables@.dom().union(old(self).config.tables@.dom()),
            forall|j: int| 0 <= j < old(self).config.tables.keys_seq().len() ==> seeded(
                final(self).multi.tables@[#[trigger] old(self).config.tables.keys_seq()[j]],
                old(self).config.tables@[old(self).config.tables.keys_seq()[j]],
                old(self).config.adaptation.materialization_threshold,
                old(self).next_object_id + initial_before(old(self).config.tables@, old(self).config.tables.keys_seq(), j),
            ),
            forall|n: Seq<char>| #[trigger] old(self).multi.tables@.contains_key(n) && !old(self).config.tables@.contains_key(n)
                ==> final(self).multi.tables@[n] == old(self).multi.tables@[n],
            final(self).multi.current_tick == old(self).multi.current_tick,
            final(self).multi.completed_lifecycles@ == old(self).multi.completed_lifecycles@,
    {
        let mut rng = make_generator(self.config.rng_seed);
        let names = self.config.tables.keys();
        let n = names.len();
        let ghost s0 = *self;
        let ghost keys = self.config.tables.keys_seq();
        let ghost cfg = self.config.tables@;
        proof {
            self.config.tables.lemma_dom();
        }
        for i in 0..n
            invariant
                self.wf(),
                self.config == s0.config,
                keys == s0.config.tables.keys_seq(),
                cfg == s0.config.tables@,
                keys.no_duplicates(),
                cfg.dom() == keys.to_set(),
                n == names@.len(),
                n == keys.len(),
                forall|j: int| 0 <= j < n ==> #[trigger] names@[j]@ == keys[j],
                s0.next_object_id + initial_before(cfg, keys, n as int) <= u32::MAX,
                self.next_object_id == s0.next_object_id + initial_before(cfg, keys, i as int),
                self.next_eviction_tick == s0.next_eviction_tick,
                self.snapshots == s0.snapshots,
                self.total_ops_executed == s0.total_ops_executed,
                self.current_phase_name == s0.current_phase_name,
                self.metrics == s0.metrics,
                self.next_delta_id == s0.next_delta_id,
                self.fanout_log == s0.fanout_log,
                self.multi.current_tick == s0.multi.current_tick,
                self.multi.completed_lifecycles@ == s0.multi.completed_lifecycles@,
                forall|nm: Seq<char>| #[trigger] self.multi.tables@.contains_key(nm) <==>
                    (s0.multi.tables@.contains_key(nm) || exists|j: int| 0 <= j < i && keys[j] == nm),
                forall|j: int| 0 <= j < i ==> seeded(self.multi.tables@[#[trigger] keys[j]], cfg[keys[j]],
                    s0.config.adaptation.materialization_threshold, s0.next_object_id + initial_before(cfg, keys, j)),
                forall|nm: Seq<char>| #[trigger] s0.multi.tables@.contains_key(nm) && (forall|j: int| 0 <= j < i ==> keys[j] != nm)
                    ==> self.multi.tables@[nm] == s0.multi.tables@[nm],
        {
            proof {
                assert(keys.to_set().contains(keys[i as int]));
                lemma_initial_before_mono(cfg, keys, i + 1, n as int);
            }
            let t = self.config.tables.value_of(names[i].as_str());
            let start = self.next_object_id;
            let (g, ms) = seed_table(t, self.config.adaptation.materialization_threshold, start, &mut rng);
            self.next_object_id = start + t.initial_objects as u32;
            self.cover_time_ms = self.cover_time_ms.saturating_add(ms);
            let ghost before = self.multi;
            self.multi.add_table(names[i].clone(), g);
            proof {
                let k = keys[i as int];
                assert(forall|nm: Seq<char>| #[trigger] self.multi.tables@.contains_key(nm) && nm != k ==> self.multi.tables@[nm] == before.tables@[nm]);
                assert forall|nm: Seq<char>| #[trigger] self.multi.tables@.contains_key(nm) <==>
                    (s0.multi.tables@.contains_key(nm) || exists|j: int| 0 <= j < i + 1 && keys[j] == nm) by {
                    if nm == k {
                        assert(keys[i as int] == nm);
                    }
                }
                assert forall|j: int| 0 <= j < i + 1 implies seeded(self.multi.tables@[#[trigger] keys[j]], cfg[keys[j]],
                    s0.config.adaptation.materialization_threshold, s0.next_object_id + initial_before(cfg, keys, j)) by {
                    if j < i {
                        assert(keys[j] != k);
                    }
                }
                assert forall|nm: Seq<char>| #[trigger] self.multi.tables@.contains_key(nm) implies self.multi.has_table(nm) by {
                    if nm != k {
                        assert(before.tables@.contains_key(nm));
                    }
                }
            }
        }
        proof {
            assert forall|nm: Seq<char>| #[trigger] self.multi.tables@.dom().contains(nm) <==>
                s0.multi.tables@.dom().union(cfg.dom()).contains(nm) by {
                if cfg.dom().contains(nm) {
                    let j = choose|j: int| 0 <= j < keys.len() && keys[j] == nm;
                }
            }
            assert(self.multi.tables@.dom() =~= s0.multi.tables@.dom().union(cfg.dom()));
            assert forall|nm: Seq<char>| #[trigger] s0.multi.tables@.contains_key(nm) && !cfg.contains_key(nm) implies
                self.multi.tables@[nm] == s0.multi.tables@[nm] by {
                assert forall|j: int| 0 <= j < n implies keys[j] != nm by {
                    assert(keys.to_set().contains(keys[j]));
                }
            }
        }
    }

    /// The total weight of the query mix.
    fn mix_weight(&self) -> (w: u32)
        requires
            weight_prefix(mix_weights(self.config.query_mix@), self.config.query_mix@.len() as int) <= u32::MAX,
        ensures
            w == weight_prefix(mix_weights(self.config.query_mix@), self.config.query_mix@.len() as int),
    {
        let mut w: u32 = 0;
        let n = self.config.query_mix.len();
        for i in 0..n
            invariant
                n == self.config.query_mix@.len(),
                w == weight_prefix(mix_weights(self.config.query_mix@), i as int),
                weight_prefix(mix_weights(self.config.query_mix@), n as int) <= u32::MAX,
        {
            proof {
                crate::plan::lemma_weight_prefix_mono(mix_weights(self.config.query_mix@), i + 1, n as int);
            }
            w = w + self.config.query_mix[i].weight();
        }
        w
    }
}


/// The factors of every kind can be counted in a `usize`.
pub open spec fn counts_fit(m: MultiTableGraph) -> bool {
    &&& crate::multi::kind_total(m.tables@, m.tables.keys_seq(), true) <= usize::MAX
    &&& crate::multi::kind_total(m.tables@, m.tables.keys_seq(), false) <= usize::MAX
}

/// `new` is `old` after one operation of a run: the outcome of a write (see
/// `write_outcome`) or of a read over the whole query mix (see
/// `read_outcome`) for some drawn point; a write is certain when the write
/// rates reach a million and impossible when they sum to 0.
pub open spec fn op_ran(old: BenchmarkRunner, new: BenchmarkRunner) -> bool {
    let wrote = if old.write_total() == 0 {
        new == old
    } else {
        exists|roll: int| 0 <= roll < old.write_total() && #[trigger] write_outcome(old, new, roll)
    };
    let qw = weight_prefix(mix_weights(old.config.query_mix@), old.config.query_mix@.len() as int);
    let read = if qw == 0 {
        new == old
    } else {
        exists|pick: int| 0 <= pick < qw && #[trigger] read_outcome(old, new, pick)
    };
    &&& old.write_total() >= MILLIONTHS ==> wrote
    &&& old.write_total() == 0 ==> read
    &&& wrote || read
}

/// `new` is `old` after the eviction check of a run: when the largest tick
/// has reached the next eviction tick, the stale operational factors of
/// every table are evicted (see `evicted_all`) and the next eviction tick
/// moves on by the eviction interval; else nothing changes.
pub open spec fn eviction_ran(old: BenchmarkRunner, new: BenchmarkRunner) -> bool {
    let e = old.config.adaptation.eviction_ticks;
    exists|t: u64| #[trigger] old.multi.is_max_tick(t) && if t >= old.next_eviction_tick {
        &&& crate::multi::evicted_all(old.multi, new.multi, e)
        &&& new == BenchmarkRunner { multi: new.multi, next_eviction_tick: (old.next_eviction_tick + e) as u64, ..old }
    } else {
        new == old
    }
}

/// `new` is `old` after the snapshot check following operation `i` of a run
/// that started at operation `base`: at each positive multiple of the
/// metrics interval, when the factors can be counted, the report of
/// `gather_metrics` labelled with the phase name is appended with its
/// operation index; else nothing changes.
pub open spec fn snapshot_ran(old: BenchmarkRunner, new: BenchmarkRunner, i: int, base: int) -> bool {
    let interval = old.config.run_options.metrics_interval_ops as int;
    if i > 0 && i % interval == 0 && counts_fit(old.multi) {
        &&& new == BenchmarkRunner { snapshots: new.snapshots, ..old }
        &&& new.snapshots@.len() == old.snapshots@.len() + 1
        &&& new.snapshots@.drop_last() == old.snapshots@
        &&& new.snapshots@.last().0 == base + i
        &&& crate::multi::gathered(old.multi, old.metrics, new.snapshots@.last().1)
        &&& new.snapshots@.last().1.phase_name@ == old.current_phase_name@
    } else {
        new == old
    }
}

/// `new` is `old` after operation `i` of a run that started at operation
/// `base`: the operation, then the eviction check, then the snapshot check.
pub open spec fn run_step(old: BenchmarkRunner, new: BenchmarkRunner, i: int, base: int) -> bool {
    exists|op: BenchmarkRunner, ev: BenchmarkRunner| {
        &&& #[trigger] op_ran(old, op)
        &&& #[trigger] eviction_ran(op, ev)
        &&& snapshot_ran(ev, new, i, base)
    }
}

impl BenchmarkRunner {
    /// One operation of a run: a point drawn below a million decides a write
    /// (below the sum of the write rates) or a read over the whole mix.
    fn run_op(&mut self, rng: &mut StdRng, write_rate: u64, query_weight: u32)
        requires
            old(self).wf(),
            old(self).tables_ready(),
            writes_ok(*old(self)),
            old(self).next_object_id < u32::MAX,
            old(self).next_delta_id < i64::MAX,
            ticks_room(old(self).multi, 1),
            write_rate == old(self).write_total(),
            query_weight == weight_prefix(mix_weights(old(self).config.query_mix@), old(self).config.query_mix@.len() as int),
        ensures
            op_ran(*old(self), *final(self)),
            same_settings(*final(self), *old(self)),
            final(self).wf(),
            final(self).tables_ready(),
            writes_ok(*final(self)),
            final(self).multi.tables@.dom() == old(self).multi.tables@.dom(),
            final(self).next_object_id <= old(self).next_object_id + 1,
            final(self).next_delta_id <= old(self).next_delta_id + 1,
            final(self).multi.current_tick <= old(self).multi.current_tick + 1,
            forall|n: Seq<char>| #[trigger] old(self).multi.tables@.contains_key(n) ==>
                final(self).multi.tables@[n].current_tick <= old(self).multi.tables@[n].current_tick + 1,
    {
        let x = draw_between(rng, 0, MILLIONTHS - 1);
        if x < write_rate {
            self.do_write(rng);
        } else {
            self.do_read(rng, query_weight);
        }
    }

    /// The eviction check of a run: once the largest tick has reached the
    /// next eviction tick, the stale operational factors of every table are
    /// evicted and the next eviction tick moves on by the eviction interval.
    fn evict_if_due(&mut self)
        requires
            old(self).wf(),
            old(self).tables_ready(),
            writes_ok(*old(self)),
            ticks_room(old(self).multi, old(self).config.adaptation.eviction_ticks + 1),
        ensures
            eviction_ran(*old(self), *final(self)),
            final(self).wf(),
            final(self).tables_ready(),
            writes_ok(*final(self)),
            final(self).multi.tables@.dom() == old(self).multi.tables@.dom(),
            final(self).multi.current_tick == old(self).multi.current_tick,
            forall|n: Seq<char>| #[trigger] old(self).multi.tables@.contains_key(n) ==>
                final(self).multi.tables@[n].current_tick == old(self).multi.tables@[n].current_tick,
    {
        let e = self.config.adaptation.eviction_ticks;
        let t = self.multi.max_tick();
        let ghost op = *self;
        if t >= self.next_eviction_tick {
            proof {
                if t != self.multi.current_tick {
                    let nm = choose|nm: Seq<char>| #[trigger] self.multi.tables@.contains_key(nm) && t == self.multi.tables@[nm].current_tick;
                }
            }
            let ghost before = self.multi;
            self.multi.evict_all(e);
            self.next_eviction_tick = self.next_eviction_tick + e;
            proof {
                let parts = choose|parts: Seq<Seq<crate::types::FactorLifecycle>>| {
                    &&& parts.len() == before.tables.keys_seq().len()
                    &&& forall|j: int| 0 <= j < parts.len() ==> {
                        let k = #[trigger] before.tables.keys_seq()[j];
                        crate::multi::harvested(self.multi.tables@[k], before.tables@[k], e, parts[j])
                    }
                    &&& self.multi.completed_lifecycles@ == before.completed_lifecycles@ + parts.flatten()
                };
                before.tables.lemma_dom();
                assert forall|nm: Seq<char>| #[trigger] self.multi.tables@.contains_key(nm) implies
                    self.multi.tables@[nm].current_tick == before.tables@[nm].current_tick by {
                    assert(before.tables.keys_seq().to_set().contains(nm));
                    let j = choose|j: int| 0 <= j < before.tables.keys_seq().len() && before.tables.keys_seq()[j] == nm;
                    assert(crate::multi::harvested(self.multi.tables@[before.tables.keys_seq()[j]], before.tables@[before.tables.keys_seq()[j]], e, parts[j]));
                    let (g, order) = choose|g: FactorGraph, order: Seq<u64>| {
                        &&& #[trigger] g.evicted_from(&before.tables@[nm], before.tables@[nm].stale_set(e), order)
                        &&& parts[j] == g.completed_lifecycles@
                        &&& self.multi.tables@[nm].graph == g.graph
                        &&& self.multi.tables@[nm].boi == g.boi
                        &&& self.multi.tables@[nm].bpi == g.bpi
                        &&& self.multi.tables@[nm].factors == g.factors
                        &&& self.multi.tables@[nm].objects == g.objects
                        &&& self.multi.tables@[nm].conjunction_hits == g.conjunction_hits
                        &&& self.multi.tables@[nm].factor_last_access == g.factor_last_access
                        &&& self.multi.tables@[nm].current_tick == g.current_tick
                        &&& self.multi.tables@[nm].materialization_threshold == g.materialization_threshold
                        &&& self.multi.tables@[nm].lifecycles == g.lifecycles
                    };
                }
                assert forall|k: int| 0 <= k < self.config.query_mix@.len() implies
                    #[trigger] template_tables_ok(self.multi, self.config.query_mix@[k]) by {
                    assert(template_tables_ok(before, self.config.query_mix@[k]));
                }
            }
        }
        proof {
            assert(op.multi.is_max_tick(t));
        }
    }

    /// The snapshot check after operation `i` of a run, whose index overall
    /// is `op_idx`: at each positive multiple of the metrics interval, when
    /// the factors can be counted, the report of `gather_metrics` labelled
    /// with the phase name is appended; the snapshots from `from` on keep
    /// the order and the positions `snapshots_taken` describes.
    fn snapshot_if_due(&mut self, i: usize, op_idx: usize, Ghost(from): Ghost<int>)
        requires
            old(self).wf(),
            i > 0 ==> old(self).config.run_options.metrics_interval_ops > 0,
            op_idx == old(self).total_ops_executed + i,
            0 <= from <= old(self).snapshots@.len(),
            snapshots_taken(old(self).snapshots@, from, old(self).total_ops_executed as int, i as int,
                old(self).config.run_options.metrics_interval_ops as int, old(self).current_phase_name@),
        ensures
            snapshot_ran(*old(self), *final(self), i as int, old(self).total_ops_executed as int),
            final(self).snapshots@.len() >= old(self).snapshots@.len(),
            final(self).snapshots@.take(from) == old(self).snapshots@.take(from),
            snapshots_taken(final(self).snapshots@, from, old(self).total_ops_executed as int, i + 1,
                old(self).config.run_options.metrics_interval_ops as int, old(self).current_phase_name@),
    {
        let interval = self.config.run_options.metrics_interval_ops;
        let ghost base = self.total_ops_executed as int;
        if i > 0 && i % interval == 0 {
            if self.multi.kind_totals_fit() {
                let mut r = self.multi.gather_metrics(&self.metrics);
                r.phase_name = self.current_phase_name.clone();
                let ghost sn = self.snapshots@;
                self.snapshots.push((op_idx, r));
                proof {
                    assert(self.snapshots@.take(from) =~= sn.take(from));
                    assert(self.snapshots@.drop_last() =~= sn);
                    assert forall|j: int| from <= j < self.snapshots@.len() implies {
                        &&& 0 < (#[trigger] self.snapshots@[j]).0 - base < i + 1
                        &&& (self.snapshots@[j].0 - base) % (interval as int) == 0
                    } by {
                        if j < sn.len() {
                            assert(self.snapshots@[j] == sn[j]);
                        }
                    }
                    assert forall|j: int| from <= j < self.snapshots@.len() implies
                        (#[trigger] self.snapshots@[j]).1.phase_name@ == self.current_phase_name@ by {
                        if j < sn.len() {
                            assert(self.snapshots@[j] == sn[j]);
                        }
                    }
                    assert forall|j1: int, j2: int| from <= j1 < j2 < self.snapshots@.len() implies
                        #[trigger] self.snapshots@[j1].0 < #[trigger] self.snapshots@[j2].0 by {
                        assert(self.snapshots@[j1] == sn[j1]);
                        if j2 < sn.len() {
                            assert(self.snapshots@[j2] == sn[j2]);
                        }
                    }
                }
            }
        }
    }
}

impl BenchmarkRunner {
    /// Runs the configured number of operations: each is a write with the
    /// sum of the write rates as its chance (see `do_write`), else a read
    /// over the whole query mix (see `do_read`); after each, the stale
    /// operational factors of every table are evicted once the largest tick
    /// reaches the next eviction tick (which then moves on by the eviction
    /// interval), and every `metrics_interval_ops` operations (from the
    /// first multiple on) a snapshot labelled with the phase name is taken,
    /// unless the factors could not be counted in a `usize`.
    pub fn run(&mut self)
        requires
            old(self).wf(),
            old(self).tables_ready(),
            writes_ok(*old(self)),
            old(self).next_object_id + old(self).config.run_options.total_operations <= u32::MAX,
            old(self).next_delta_id + old(self).config.run_options.total_operations <= i64::MAX,
            old(self).total_ops_executed + old(self).config.run_options.total_operations <= usize::MAX,
            ticks_room(old(self).multi, old(self).config.run_options.total_operations + old(self).config.adaptation.eviction_ticks + 1),
            old(self).config.run_options.total_operations <= 1 || old(self).config.run_options.metrics_interval_ops > 0,
        ensures
            final(self).wf(),
            final(self).tables_ready(),
            final(self).config == old(self).config,
            final(self).current_phase_name == old(self).current_phase_name,
            final(self).total_ops_executed == old(self).total_ops_executed + old(self).config.run_options.total_operations,
            final(self).multi.tables@.dom() == old(self).multi.tables@.dom(),
            final(self).next_object_id <= old(self).next_object_id + old(self).config.run_options.total_operations,
            final(self).next_delta_id <= old(self).next_delta_id + old(self).config.run_options.total_operations,
            final(self).snapshots@.len() >= old(self).snapshots@.len(),
            final(self).snapshots@.take(old(self).snapshots@.len() as int) == old(self).snapshots@,
            snapshots_taken(final(self).snapshots@, old(self).snapshots@.len() as int, old(self).total_ops_executed as int,
                old(self).config.run_options.total_operations as int, old(self).config.run_options.metrics_interval_ops as int,
                old(self).current_phase_name@),
            exists|steps: Seq<BenchmarkRunner>| {
                &&& steps.len() == old(self).config.run_options.total_operations + 1
                &&& steps[0] == *old(self)
                &&& *final(self) == BenchmarkRunner {
                    total_ops_executed: final(self).total_ops_executed,
                    ..steps[old(self).config.run_options.total_operations as int]
                }
                &&& forall|k: int| 0 <= k < old(self).config.run_options.total_operations ==>
                    #[trigger] run_step(steps[k], steps[k + 1], k, old(self).total_ops_executed as int)
            },
    {
        let total = self.config.run_options.total_operations;
        let interval = self.config.run_options.metrics_interval_ops;
        let write_rate = self.config.write_mix.insert_rate + self.config.write_mix.update_rate + self.config.write_mix.delete_rate;
        let query_weight = self.mix_weight();
        let mut rng = make_generator(self.config.rng_seed);
        let ghost s0 = *self;
        let e = self.config.adaptation.eviction_ticks;
        let ghost mut steps: Seq<BenchmarkRunner> = seq![s0];
        for i in 0..total
            invariant
                self.wf(),
                self.tables_ready(),
                writes_ok(*self),
                self.config == s0.config,
                self.current_phase_name == s0.current_phase_name,
                self.total_ops_executed == s0.total_ops_executed,
                total == s0.config.run_options.total_operations,
                interval == s0.config.run_options.metrics_interval_ops,
                e == s0.config.adaptation.eviction_ticks,
                total <= 1 || interval > 0,
                query_weight == weight_prefix(mix_weights(self.config.query_mix@), self.config.query_mix@.len() as int),
                write_rate == self.write_total(),
                self.multi.tables@.dom() == s0.multi.tables@.dom(),
                self.next_object_id <= s0.next_object_id + i,
                self.next_delta_id <= s0.next_delta_id + i,
                s0.next_object_id + total <= u32::MAX,
                s0.next_delta_id + total <= i64::MAX,
                s0.total_ops_executed + total <= usize::MAX,
                ticks_room(self.multi, total - i + e + 1),
                self.snapshots@.len() >= s0.snapshots@.len(),
                self.snapshots@.take(s0.snapshots@.len() as int) == s0.snapshots@,
                snapshots_taken(self.snapshots@, s0.snapshots@.len() as int, s0.total_ops_executed as int, i as int,
                    interval as int, s0.current_phase_name@),
                steps.len() == i + 1,
                steps[0] == s0,
                steps[i as int] == *self,
                forall|k: int| 0 <= k < i ==> #[trigger] run_step(steps[k], steps[k + 1], k, s0.total_ops_executed as int),
        {
            let op_idx = self.total_ops_executed + i;
            let ghost pre = *self;
            self.run_op(&mut rng, write_rate, query_weight);
            proof {
                assert forall|nm: Seq<char>| #[trigger] self.multi.tables@.contains_key(nm) implies
                    self.multi.tables@[nm].current_tick + (total - i - 1 + e + 1) <= u64::MAX by {
                    assert(pre.multi.tables@.contains_key(nm));
                }
                assert(ticks_room(self.multi, total - i - 1 + e + 1));
            }
            let ghost op = *self;
            self.evict_if_due();
            let ghost ev = *self;
            self.snapshot_if_due(i, op_idx, Ghost(s0.snapshots@.len() as int));
            proof {
                assert(run_step(pre, *self, i as int, s0.total_ops_executed as int)) by {
                    assert(op_ran(pre, op));
                    assert(eviction_ran(op, ev));
                    assert(snapshot_ran(ev, *self, i as int, s0.total_ops_executed as int));
                }
                steps = steps.push(*self);
                assert forall|k: int| 0 <= k < i + 1 implies #[trigger] run_step(steps[k], steps[k + 1], k, s0.total_ops_executed as int) by {
                    if k < i {
                        assert(steps[k] == steps.drop_last()[k]);
                        assert(steps[k + 1] == steps.drop_last()[k + 1]);
                    }
                }
            }
        }
        self.total_ops_executed = self.total_ops_executed + total;
        proof {
            assert(*self == BenchmarkRunner { total_ops_executed: self.total_ops_executed, ..steps[total as int] });
        }
    }
}


/// Whether the weights sum to a `u64`.
fn weights_fit(w: &Vec<u64>) -> (b: bool)
    ensures
        b == (wsum(w@, w@.len() as int) <= u64::MAX),
{
    let mut t: u64 = 0;
    let n = w.len();
    for i in 0..n
        invariant
            n == w@.len(),
            t == wsum(w@, i as int),
    {
        match t.checked_add(w[i]) {
            Some(x) => {
                t = x;
            },
            None => {
                proof {
                    lemma_wsum_mono(w@, i + 1, n as int);
                }
                return false;
            },
        }
    }
    true
}

/// Whether drawing from the attribute cannot fail (see `def_ok`).
pub fn def_ready(def: &AttributeDef) -> (b: bool)
    ensures
        b == def_ok(*def),
{
    match def {
        AttributeDef::Simple(_) => true,
        AttributeDef::Extended(AttributeSpec::Categorical { values, weights, null_millionths }) => {
            *null_millionths >= MILLIONTHS || match weights {
                Some(w) => weights_fit(w),
                None => values.len() > 0,
            }
        },
        AttributeDef::Extended(AttributeSpec::Continuous { min, max, null_millionths }) => *null_millionths >= MILLIONTHS || *min <= *max,
    }
}

/// Whether a non-join template can be built (see `filter_template_ok`).
pub fn filter_template_ready(t: &QueryTemplate) -> (b: bool)
    ensures
        b == filter_template_ok(*t),
{
    match t {
        QueryTemplate::Eq { hot_values, .. } => {
            let mut w: Vec<u64> = Vec::new();
            let n = hot_values.len();
            for i in 0..n
                invariant
                    n == hot_values@.len(),
                    w@ == hot_weights(hot_values@).take(i as int),
            {
                w.push(hot_values[i].weight);
                proof {
                    assert(w@ =~= hot_weights(hot_values@).take(i + 1));
                }
            }
            proof {
                assert(w@ =~= hot_weights(hot_values@));
            }
            weights_fit(&w)
        },
        QueryTemplate::And { .. } => true,
        QueryTemplate::Or { attributes, .. } => attributes.len() > 0,
        QueryTemplate::Join { .. } => false,
    }
}

/// Whether every template of the list can be built as a non-join filter.
fn filter_templates_ready(ts: &Vec<QueryTemplate>) -> (b: bool)
    ensures
        b == forall|i: int| 0 <= i < ts@.len() ==> #[trigger] filter_template_ok(ts@[i]),
{
    let n = ts.len();
    for i in 0..n
        invariant
            n == ts@.len(),
            forall|j: int| 0 <= j < i ==> #[trigger] filter_template_ok(ts@[j]),
    {
        if !filter_template_ready(&ts[i]) {
            return false;
        }
    }
    true
}

/// Whether a template can be built (see `template_ok`).
pub fn template_ready(t: &QueryTemplate) -> (b: bool)
    ensures
        b == template_ok(*t),
{
    match t {
        QueryTemplate::Join { left_filters, right_filters, .. } => filter_templates_ready(left_filters) && filter_templates_ready(right_filters),
        _ => filter_template_ready(t),
    }
}

impl BenchmarkRunner {
    /// Whether the runner is well formed (see `wf`), given that its maps
    /// are: every attribute can be drawn from, every template can be built,
    /// and the query weights sum to a `u32`.
    pub fn config_ready(&self) -> (b: bool)
        requires
            self.config.tables.wf(),
            forall|n: Seq<char>| #[trigger] self.config.tables@.contains_key(n) ==> self.config.tables@[n].attributes.wf(),
            self.config.write_mix.attribute_weights matches Some(w) ==> w.wf(),
            self.multi.wf(),
            self.multi.tables_wf(),
        ensures
            b == self.wf(),
    {
        let names = self.config.tables.keys();
        let n = names.len();
        proof {
            self.config.tables.lemma_dom();
        }
        for i in 0..n
            invariant
                self.config.tables.wf(),
                forall|n: Seq<char>| #[trigger] self.config.tables@.contains_key(n) ==> self.config.tables@[n].attributes.wf(),
                n == names@.len(),
                n == self.config.tables.keys_seq().len(),
                self.config.tables@.dom() == self.config.tables.keys_seq().to_set(),
                forall|j: int| 0 <= j < n ==> #[trigger] names@[j]@ == self.config.tables.keys_seq()[j],
                forall|j: int, a: Seq<char>| 0 <= j < i && #[trigger] self.config.tables@[self.config.tables.keys_seq()[j]].attributes@.contains_key(a)
                    ==> def_ok(self.config.tables@[self.config.tables.keys_seq()[j]].attributes@[a]),
        {
            proof {
                assert(self.config.tables.keys_seq().to_set().contains(self.config.tables.keys_seq()[i as int]));
            }
            let t = self.config.tables.value_of(names[i].as_str());
            proof {
                assert(self.config.tables@.contains_key(self.config.tables.keys_seq()[i as int]));
            }
            let keys = t.attributes.keys();
            let m = keys.len();
            proof {
                t.attributes.lemma_dom();
            }
            for k in 0..m
                invariant
                    t.attributes.wf(),
                    0 <= i < self.config.tables.keys_seq().len(),
                    self.config.tables@.contains_key(self.config.tables.keys_seq()[i as int]),
                    *t == self.config.tables@[self.config.tables.keys_seq()[i as int]],
                    m == keys@.len(),
                    m == t.attributes.keys_seq().len(),
                    t.attributes@.dom() == t.attributes.keys_seq().to_set(),
                    forall|j: int| 0 <= j < m ==> #[trigger] keys@[j]@ == t.attributes.keys_seq()[j],
                    forall|j: int| 0 <= j < k ==> def_ok(t.attributes@[#[trigger] t.attributes.keys_seq()[j]]),
            {
                proof {
                    assert(t.attributes.keys_seq().to_set().contains(t.attributes.keys_seq()[k as int]));
                }
                if !def_ready(t.attributes.value_of(keys[k].as_str())) {
                    proof {
                        let nm = self.config.tables.keys_seq()[i as int];
                        let a = t.attributes.keys_seq()[k as int];
                        assert(self.config.tables@.contains_key(nm));
                        assert(self.config.tables@[nm].attributes@.contains_key(a));
                        assert(!def_ok(self.config.tables@[nm].attributes@[a]));
                    }
                    return false;
                }
            }
            proof {
                assert forall|a: Seq<char>| #[trigger] t.attributes@.contains_key(a) implies def_ok(t.attributes@[a]) by {
                    assert(t.attributes.keys_seq().to_set().contains(a));
                    let j = choose|j: int| 0 <= j < m && t.attributes.keys_seq()[j] == a;
                    assert(def_ok(t.attributes@[t.attributes.keys_seq()[j]]));
                }
            }
        }
        proof {
            assert forall|nm: Seq<char>, a: Seq<char>| #[trigger] self.config.tables@.contains_key(nm)
                && #[trigger] self.config.tables@[nm].attributes@.contains_key(a) implies def_ok(self.config.tables@[nm].attributes@[a]) by {
                assert(self.config.tables.keys_seq().to_set().contains(nm));
                let j = choose|j: int| 0 <= j < n && self.config.tables.keys_seq()[j] == nm;
                assert(self.config.tables@[self.config.tables.keys_seq()[j]].attributes@.contains_key(a));
            }
        }
        let q = self.config.query_mix.len();
        let mut total: u32 = 0;
        for i in 0..q
            invariant
                q == self.config.query_mix@.len(),
                forall|j: int| 0 <= j < i ==> #[trigger] template_ok(self.config.query_mix@[j]),
                total == weight_prefix(mix_weights(self.config.query_mix@), i as int),
        {
            if !template_ready(&self.config.query_mix[i]) {
                return false;
            }
            match total.checked_add(self.config.query_mix[i].weight()) {
                Some(x) => {
                    total = x;
                },
                None => {
                    proof {
                        crate::plan::lemma_weight_prefix_mono(mix_weights(self.config.query_mix@), i + 1, q as int);
                    }
                    return false;
                },
            }
        }
        true
    }

    /// Whether every template's tables exist and are well formed (see `tables_ready`).
    pub fn tables_ready_now(&self) -> (b: bool)
        requires
            self.multi.wf(),
            self.multi.tables_wf(),
        ensures
            b == self.tables_ready(),
    {
        let q = self.config.query_mix.len();
        for i in 0..q
            invariant
                self.multi.wf(),
                self.multi.tables_wf(),
                q == self.config.query_mix@.len(),
                forall|j: int| 0 <= j < i ==> #[trigger] template_tables_ok(self.multi, self.config.query_mix@[j]),
        {
            let ok = match &self.config.query_mix[i] {
                QueryTemplate::Eq { table, .. } => self.multi.tables.contains_key(table.as_str()),
                QueryTemplate::And { table, .. } => self.multi.tables.contains_key(table.as_str()),
                QueryTemplate::Or { table, .. } => self.multi.tables.contains_key(table.as_str()),
                QueryTemplate::Join { left_table, right_table, .. } =>
                    self.multi.tables.contains_key(left_table.as_str()) && self.multi.tables.contains_key(right_table.as_str()),
            };
            if !ok {
                proof {
                    assert(!template_tables_ok(self.multi, self.config.query_mix@[i as int]));
                }
                return false;
            }
        }
        true
    }
}


impl BenchmarkRunner {
    /// Whether the writes can run (see `writes_ok`).
    pub fn writes_ready(&self) -> (b: bool)
        requires
            self.multi.wf(),
            self.multi.tables_wf(),
            self.config.write_mix.attribute_weights matches Some(w) ==> w.wf(),
        ensures
            b == writes_ok(*self),
    {
        let w = &self.config.write_mix;
        let sum = match w.insert_rate.checked_add(w.update_rate) {
            Some(x) => x.checked_add(w.delete_rate),
            None => None,
        };
        if sum.is_none() {
            return false;
        }
        match &w.attribute_weights {
            Some(aw) => {
                let mut ws: Vec<u64> = Vec::new();
                let n = w.attributes.len();
                for i in 0..n
                    invariant
                        n == w.attributes@.len(),
                        aw.wf(),
                        ws@ == attr_weights(w.attributes@, aw@).take(i as int),
                {
                    let x = match aw.get(w.attributes[i].as_str()) {
                        Some(v) => *v,
                        None => MILLIONTHS,
                    };
                    ws.push(x);
                    proof {
                        assert(ws@ =~= attr_weights(w.attributes@, aw@).take(i + 1));
                    }
                }
                proof {
                    assert(ws@ =~= attr_weights(w.attributes@, aw@));
                }
                if !weights_fit(&ws) {
                    return false;
                }
            },
            None => {},
        }
        self.multi.tables.contains_key(w.table.as_str())
    }
}


/// Picks the attribute an update changes: by the weights when there are
/// any (one whole for attributes without a weight), else uniformly.
pub fn select_mutation_attribute(attrs: &Vec<String>, weights: &Option<StrMap<u64>>, rng: &mut StdRng) -> (a: String)
    requires
        attrs@.len() > 0,
        weights matches Some(w) ==> w.wf() && wsum(attr_weights(attrs@, w@), attrs@.len() as int) <= u64::MAX,
    ensures
        exists|i: int| 0 <= i < attrs@.len() && #[trigger] attrs@[i]@ == a@,
{
    match weights {
        Some(w) => {
            let a = weighted_sample_attr(attrs, w, rng);
            proof {
                let pick = choose|pick: int| #[trigger] pick_fits(attr_weights(attrs@, w@), pick)
                    && a@ == attrs@[weighted_index_spec(attr_weights(attrs@, w@), attrs@.len() as int, pick)]@;
                lemma_weighted_index_range(attr_weights(attrs@, w@), attrs@.len() as int, pick);
                let k = weighted_index_spec(attr_weights(attrs@, w@), attrs@.len() as int, pick);
                assert(0 <= k < attrs@.len() && attrs@[k]@ == a@);
            }
            a
        },
        None => {
            let j = draw_between(rng, 0, (attrs.len() - 1) as u64);
            let a = attrs[j as usize].clone();
            proof {
                assert(0 <= j < attrs@.len() && attrs@[j as int]@ == a@);
            }
            a
        },
    }
}


/// How many queries the direct join pool draws from a template with the
/// given weight: that many, but none from a disjunction.
pub open spec fn pool_copies(t: QueryTemplate, w: u64) -> int {
    if t is Or { 0 } else { w as int }
}

/// Where the queries drawn from template `i` start in the pool: after those
/// of the templates before it.
pub open spec fn pool_start(ts: Seq<QueryTemplate>, ws: Seq<u64>, i: int) -> int
    decreases i,
{
    if i <= 0 {
        0
    } else {
        pool_start(ts, ws, i - 1) + pool_copies(ts[i - 1], ws[i - 1])
    }
}

/// The tables every pooled query names are there and well formed.
pub open spec fn pool_ready(m: MultiTableGraph, pool: Seq<Query>) -> bool {
    forall|k: int| 0 <= k < pool.len() ==> match #[trigger] pool[k] {
        Query::Filter { table, .. } => m.has_table(table@),
        Query::Join { left_table, right_table, .. } => m.has_table(left_table@) && m.has_table(right_table@),
    }
}

/// `new` is `old` after the pooled query `q` ran against the graph: a filter
/// as `query_table` runs it (the global tick advanced, its table queried
/// with fallback), a join as `factor_join` runs it; only the graph and the
/// counters change.
pub open spec fn pool_query_ran(old: BenchmarkRunner, new: BenchmarkRunner, q: Query) -> bool {
    &&& new == BenchmarkRunner { multi: new.multi, metrics: new.metrics, ..old }
    &&& match q {
        Query::Filter { table, filter } => {
            &&& new.multi.current_tick == old.multi.current_tick + 1
            &&& new.multi.completed_lifecycles@ == old.multi.completed_lifecycles@
            &&& new.multi.tables.keys_seq() == old.multi.tables.keys_seq()
            &&& new.multi.tables@ == old.multi.tables@.insert(table@, new.multi.tables@[table@])
            &&& exists|r: Set<u32>| #[trigger] new.multi.tables@[table@].fallback_queried(&old.multi.tables@[table@], filter, r, new.metrics, old.metrics)
        },
        Query::Join { left_table, right_table, join_attr, left_filters, right_filters } => {
            &&& new.multi == (MultiTableGraph { current_tick: (old.multi.current_tick + 1) as u64, ..old.multi })
            &&& exists|pairs: Seq<(u32, u32)>, used: bool| #[trigger] old.multi.joined(left_table@, right_table@, join_attr@,
                left_filters@, right_filters@, pairs, used, new.metrics, old.metrics)
        },
    }
}

/// `new` is `old` after one operation of the direct join benchmark whose
/// drawn point was `roll` (below a million): a write for that point (see
/// `write_outcome`) below the sum of the write rates; else one of the
/// pooled queries, run as `pool_query_ran` says (nothing when the pool is
/// empty).
pub open spec fn join_outcome(old: BenchmarkRunner, new: BenchmarkRunner, pool: Seq<Query>, roll: int) -> bool {
    if roll < old.write_total() {
        write_outcome(old, new, roll)
    } else if pool.len() == 0 {
        new == old
    } else {
        exists|pick: int| 0 <= pick < pool.len() && #[trigger] pool_query_ran(old, new, pool[pick])
    }
}

impl BenchmarkRunner {
    /// The query pool of the direct join benchmark: in template order,
    /// `weights[i]` queries built from template `i` (see `query_from`),
    /// disjunctions left out.
    pub fn join_pool(&self, weights: &Vec<u64>, rng: &mut StdRng) -> (pool: Vec<Query>)
        requires
            self.wf(),
            weights@.len() == self.config.query_mix@.len(),
        ensures
            pool@.len() == pool_start(self.config.query_mix@, weights@, weights@.len() as int),
            forall|i: int, k: int| #![trigger pool_start(self.config.query_mix@, weights@, i), pool@[k]]
                0 <= i < weights@.len() && pool_start(self.config.query_mix@, weights@, i) <= k
                    < pool_start(self.config.query_mix@, weights@, i + 1)
                ==> query_from(self.config, self.multi, self.config.query_mix@[i], pool@[k]),
            self.tables_ready() ==> pool_ready(self.multi, pool@),
    {
        let ghost ts = self.config.query_mix@;
        let ghost ws = weights@;
        let mut pool: Vec<Query> = Vec::new();
        let n = weights.len();
        for i in 0..n
            invariant
                n == ws.len(),
                ts == self.config.query_mix@,
                ws == weights@,
                ts.len() == ws.len(),
                self.wf(),
                pool@.len() == pool_start(ts, ws, i as int),
                forall|j: int, k: int| #![trigger pool_start(ts, ws, j), pool@[k]]
                    0 <= j < i && pool_start(ts, ws, j) <= k < pool_start(ts, ws, j + 1)
                    ==> query_from(self.config, self.multi, ts[j], pool@[k]),
                self.tables_ready() ==> pool_ready(self.multi, pool@),
        {
            let template = &self.config.query_mix[i];
            let is_or = match template {
                QueryTemplate::Or { .. } => true,
                _ => false,
            };
            if !is_or {
                let copies = weights[i];
                for c in 0..copies
                    invariant
                        n == ws.len(),
                        ts == self.config.query_mix@,
                        ws == weights@,
                        ts.len() == ws.len(),
                        i < n,
                        *template == ts[i as int],
                        self.wf(),
                        pool@.len() == pool_start(ts, ws, i as int) + c,
                        forall|j: int, k: int| #![trigger pool_start(ts, ws, j), pool@[k]]
                            0 <= j < i && pool_start(ts, ws, j) <= k < pool_start(ts, ws, j + 1)
                            ==> query_from(self.config, self.multi, ts[j], pool@[k]),
                        forall|k: int| pool_start(ts, ws, i as int) <= k < pool@.len() ==>
                            #[trigger] query_from(self.config, self.multi, ts[i as int], pool@[k]),
                        self.tables_ready() ==> pool_ready(self.multi, pool@),
                {
                    let q = self.build_query(template, rng);
                    let ghost before = pool@;
                    proof {
                        if self.tables_ready() {
                            assert(template_tables_ok(self.multi, ts[i as int]));
                        }
                    }
                    pool.push(q);
                    proof {
                        assert forall|j: int, k: int| #![trigger pool_start(ts, ws, j), pool@[k]]
                            0 <= j < i && pool_start(ts, ws, j) <= k < pool_start(ts, ws, j + 1)
                            implies query_from(self.config, self.multi, ts[j], pool@[k]) by {
                            lemma_pool_start_mono(ts, ws, j + 1, i as int);
                            lemma_pool_start_mono(ts, ws, j, i as int);
                            assert(pool@[k] == before[k]);
                            assert(pool_start(ts, ws, j) == pool_start(ts, ws, j));
                        }
                        assert forall|k: int| pool_start(ts, ws, i as int) <= k < pool@.len() implies
                            #[trigger] query_from(self.config, self.multi, ts[i as int], pool@[k]) by {
                            lemma_pool_start_mono(ts, ws, i as int, i as int);
                            if k < before.len() {
                                assert(pool@[k] == before[k]);
                            }
                        }
                        if self.tables_ready() {
                            assert forall|k: int| 0 <= k < pool@.len() implies match #[trigger] pool@[k] {
                                Query::Filter { table, .. } => self.multi.has_table(table@),
                                Query::Join { left_table, right_table, .. } => self.multi.has_table(left_table@) && self.multi.has_table(right_table@),
                            } by {
                                if k < before.len() {
                                    assert(pool@[k] == before[k]);
                                }
                            }
                        }
                    }
                }
            }
            proof {
                assert(pool_start(ts, ws, i + 1) == pool_start(ts, ws, i as int) + pool_copies(ts[i as int], ws[i as int]));
                assert forall|j: int, k: int| #![trigger pool_start(ts, ws, j), pool@[k]]
                    0 <= j < i + 1 && pool_start(ts, ws, j) <= k < pool_start(ts, ws, j + 1)
                    implies query_from(self.config, self.multi, ts[j], pool@[k]) by {
                    if j == i {
                        assert(query_from(self.config, self.multi, ts[i as int], pool@[k]));
                    }
                }
            }
        }
        pool
    }

    /// One operation of the direct join benchmark: a point drawn below a
    /// million decides it (see `join_step_at`).
    pub fn join_step(&mut self, pool: &Vec<Query>, rng: &mut StdRng)
        requires
            old(self).wf(),
            old(self).write_total() > 0 ==> writes_ok(*old(self)),
            old(self).next_object_id < u32::MAX,
            old(self).next_delta_id < i64::MAX,
            ticks_room(old(self).multi, 1),
            pool_ready(old(self).multi, pool@),
        ensures
            final(self).wf(),
            final(self).config == old(self).config,
            final(self).multi.tables@.dom() == old(self).multi.tables@.dom(),
            pool_ready(final(self).multi, pool@),
            final(self).next_object_id <= old(self).next_object_id + 1,
            final(self).next_delta_id <= old(self).next_delta_id + 1,
            exists|roll: int| 0 <= roll < MILLIONTHS && #[trigger] join_outcome(*old(self), *final(self), pool@, roll),
    {
        let roll = draw_between(rng, 0, MILLIONTHS - 1);
        self.join_step_at(pool, roll, rng);
    }

    /// The operation of the direct join benchmark for the drawn point `roll`
    /// (below a million): below the sum of the write rates, the write for
    /// that point (see `apply_write`); else, unless the pool is empty, a
    /// pooled query drawn uniformly, run through `query_table` or
    /// `factor_join` (see `join_outcome`).
    pub fn join_step_at(&mut self, pool: &Vec<Query>, roll: u64, rng: &mut StdRng)
        requires
            old(self).wf(),
            old(self).write_total() > 0 ==> writes_ok(*old(self)),
            old(self).next_object_id < u32::MAX,
            old(self).next_delta_id < i64::MAX,
            ticks_room(old(self).multi, 1),
            pool_ready(old(self).multi, pool@),
            roll < MILLIONTHS,
        ensures
            final(self).wf(),
            final(self).config == old(self).config,
            final(self).multi.tables@.dom() == old(self).multi.tables@.dom(),
            pool_ready(final(self).multi, pool@),
            final(self).next_object_id <= old(self).next_object_id + 1,
            final(self).next_delta_id <= old(self).next_delta_id + 1,
            join_outcome(*old(self), *final(self), pool@, roll as int),
    {
        let ghost pre = *self;
        let ins = self.config.write_mix.insert_rate as u128;
        let upd = self.config.write_mix.update_rate as u128;
        let del = self.config.write_mix.delete_rate as u128;
        if (roll as u128) < ins + upd + del {
            self.apply_write(roll, rng);
            proof {
                assert forall|k: int| 0 <= k < pool@.len() implies match #[trigger] pool@[k] {
                    Query::Filter { table, .. } => self.multi.has_table(table@),
                    Query::Join { left_table, right_table, .. } => self.multi.has_table(left_table@) && self.multi.has_table(right_table@),
                } by {
                    assert(match pool@[k] {
                        Query::Filter { table, .. } => pre.multi.has_table(table@),
                        Query::Join { left_table, right_table, .. } => pre.multi.has_table(left_table@) && pre.multi.has_table(right_table@),
                    });
                }
            }
            return;
        }
        if pool.len() == 0 {
            return;
        }
        let pick = draw_between(rng, 0, (pool.len() - 1) as u64) as usize;
        let q = &pool[pick];
        match q {
            Query::Filter { table, filter } => {
                self.multi.query_table(table.as_str(), filter, &mut self.metrics);
            },
            Query::Join { left_table, right_table, join_attr, left_filters, right_filters } => {
                self.multi.factor_join(
                    left_table.as_str(),
                    right_table.as_str(),
                    join_attr.as_str(),
                    left_filters.as_slice(),
                    right_filters.as_slice(),
                    &mut self.metrics,
                );
            },
        }
        proof {
            assert(pool_query_ran(pre, *self, pool@[pick as int]));
            assert forall|n: Seq<char>| #[trigger] self.multi.tables@.contains_key(n) implies self.multi.tables@[n].wf() by {
                assert(pre.multi.tables@.contains_key(n));
            }
            assert(self.multi.tables@.dom() =~= pre.multi.tables@.dom());
            assert forall|k: int| 0 <= k < pool@.len() implies match #[trigger] pool@[k] {
                Query::Filter { table, .. } => self.multi.has_table(table@),
                Query::Join { left_table, right_table, .. } => self.multi.has_table(left_table@) && self.multi.has_table(right_table@),
            } by {
                assert(match pool@[k] {
                    Query::Filter { table, .. } => pre.multi.has_table(table@),
                    Query::Join { left_table, right_table, .. } => pre.multi.has_table(left_table@) && pre.multi.has_table(right_table@),
                });
            }
        }
    }
}

/// The pool positions of the templates before `j` come before those of `i`
/// when `j <= i`.
proof fn lemma_pool_start_mono(ts: Seq<QueryTemplate>, ws: Seq<u64>, j: int, i: int)
    requires
        j <= i,
    ensures
        pool_start(ts, ws, j) <= pool_start(ts, ws, i),
        0 <= pool_start(ts, ws, j),
    decreases i - j, j,
{
    if j < i {
        lemma_pool_start_mono(ts, ws, j, i - 1);
    } else if j > 0 {
        lemma_pool_start_mono(ts, ws, j - 1, j - 1);
    }
}

} // verus!
