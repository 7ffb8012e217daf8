use rand::rngs::StdRng;
use vstd::prelude::*;
use crate::benchmark::{
    attr_weights, def_ok, def_ready, filter_template_ready, draw_between, drawn_value, generate_props, hot_weights, null_rate, null_text, pick_fits, row_sampled,
    sample_attr_value, select_mutation_attribute, unknown_text, weighted_index_spec, weighted_sample_hot, wsum,
};
use crate::config::{HotValue, QueryTemplate, TableSpec, WorkloadConfig};
use crate::plan::{pick_template, weight_prefix};
use crate::types::{props_view, PropMap};

verus! {

/// One entry of an engine-neutral operation log.
pub enum LoggedOp {
    QueryEq { attribute: String, value: String },
    QueryAnd { filters: Vec<(String, String)> },
    QueryOr { attribute: String, values: Vec<String> },
    Insert { id: u32, values: PropMap },
    Update { id: u32, attribute: String, value: String },
    Delete { id: u32 },
}

/// The text `unknown` as a string.
fn unknown_string() -> (s: String)
    ensures
        s@ == unknown_text(),
{
    let s = "unknown".to_owned();
    proof {
        reveal_strlit("unknown");
    }
    s
}

/// `v` is a value an equality query can log: a hot value by weight when
/// there are any, else one of the listed values, else `unknown`.
pub open spec fn eq_value_choice(values: Seq<String>, hot: Seq<HotValue>, v: Seq<char>) -> bool {
    if hot.len() > 0 {
        exists|pick: int| #[trigger] pick_fits(hot_weights(hot), pick)
            && v == hot[weighted_index_spec(hot_weights(hot), hot.len() as int, pick)].value@
    } else if values.len() > 0 {
        exists|i: int| 0 <= i < values.len() && v == #[trigger] values[i]@
    } else {
        v == unknown_text()
    }
}

/// Draws the value of an equality query (see `eq_value_choice`).
pub fn sample_eq_value(values: &Vec<String>, hot_values: &Vec<HotValue>, rng: &mut StdRng) -> (v: String)
    requires
        wsum(hot_weights(hot_values@), hot_values@.len() as int) <= u64::MAX,
    ensures
        eq_value_choice(values@, hot_values@, v@),
{
    if hot_values.len() > 0 {
        weighted_sample_hot(hot_values, rng)
    } else if values.len() > 0 {
        let i = draw_between(rng, 0, (values.len() - 1) as u64);
        let v = values[i as usize].clone();
        proof {
            assert(0 <= i < values@.len() && v@ == values@[i as int]@);
        }
        v
    } else {
        unknown_string()
    }
}

/// `r` is what drawing `attr` from the table gives: a drawn value other
/// than the null marker, or nothing when the table does not describe the
/// attribute or its draw gave the marker.
pub open spec fn spec_value_choice(t: TableSpec, attr: Seq<char>, r: Option<Seq<char>>) -> bool {
    match r {
        Some(v) => t.attributes@.contains_key(attr) && drawn_value(t.attributes@[attr], v) && v != null_text(),
        None => !t.attributes@.contains_key(attr) || null_rate(t.attributes@[attr]) > 0
            || drawn_value(t.attributes@[attr], null_text()),
    }
}

/// Every attribute of the table can be drawn from.
pub open spec fn table_ok(t: TableSpec) -> bool {
    &&& t.attributes.wf()
    &&& forall|a: Seq<char>| #[trigger] t.attributes@.contains_key(a) ==> def_ok(t.attributes@[a])
}

/// Draws `attr` from the table (see `spec_value_choice`).
pub fn spec_attr_value(t: &TableSpec, attr: &str, rng: &mut StdRng) -> (r: Option<String>)
    requires
        table_ok(*t),
    ensures
        spec_value_choice(*t, attr@, match r {
            Some(v) => Some(v@),
            None => None,
        }),
{
    match t.attributes.get(attr) {
        Some(def) => {
            let v = sample_attr_value(def, rng);
            let null = "__NULL__".to_owned();
            proof {
                reveal_strlit("__NULL__");
                assert(null@ =~= null_text());
            }
            if v == null {
                None
            } else {
                Some(v)
            }
        },
        None => None,
    }
}

/// The value of a drawn attribute, `unknown` when there is none.
fn value_or_unknown(r: Option<String>) -> (v: String)
    ensures
        match r {
            Some(x) => v@ == x@,
            None => v@ == unknown_text(),
        },
{
    match r {
        Some(x) => x,
        None => unknown_string(),
    }
}

/// `v` is a value drawing `attr` from the table can log: a drawn value, or
/// `unknown` when the draw gives nothing.
pub open spec fn logged_value(t: TableSpec, attr: Seq<char>, v: Seq<char>) -> bool {
    spec_value_choice(t, attr, Some(v)) || (spec_value_choice(t, attr, None) && v == unknown_text())
}

/// `op` is the query entry the template `t` can log: an equality with a
/// drawn value, a conjunction of the attributes each with a drawn value, a
/// disjunction of the first attribute (empty when there is none) with the
/// listed values; a join template logs nothing.
pub open spec fn logged_query(t: TableSpec, q: QueryTemplate, op: Option<LoggedOp>) -> bool {
    match q {
        QueryTemplate::Eq { attribute, values, hot_values, .. } => op matches Some(LoggedOp::QueryEq { attribute: a, value })
            && a@ == attribute@ && eq_value_choice(values@, hot_values@, value@),
        QueryTemplate::And { attributes, .. } => op matches Some(LoggedOp::QueryAnd { filters })
            && filters@.len() == attributes@.len()
            && forall|i: int| 0 <= i < filters@.len() ==> (#[trigger] filters@[i]).0@ == attributes@[i]@
                && logged_value(t, attributes@[i]@, filters@[i].1@),
        QueryTemplate::Or { attributes, values, .. } => op matches Some(LoggedOp::QueryOr { attribute, values: vs })
            && attribute@ == (if attributes@.len() > 0 { attributes@[0]@ } else { Seq::<char>::empty() })
            && vs@.len() == values@.len()
            && forall|i: int| 0 <= i < vs@.len() ==> (#[trigger] vs@[i])@ == values@[i]@,
        QueryTemplate::Join { .. } => op is None,
    }
}

/// The weights of a query mix.
pub open spec fn weights_of(mix: Seq<QueryTemplate>) -> Seq<u32> {
    Seq::new(mix.len(), |i: int| mix[i].weight_of())
}

/// The query mix can be drawn from: its weights sum to a `u32` and its
/// equality templates' hot-value weights to a `u64`.
pub open spec fn mix_ok(mix: Seq<QueryTemplate>) -> bool {
    &&& weight_prefix(weights_of(mix), mix.len() as int) <= u32::MAX
    &&& forall|i: int| 0 <= i < mix.len() ==> (#[trigger] mix[i] matches QueryTemplate::Eq { hot_values, .. }
        ==> wsum(hot_weights(hot_values@), hot_values@.len() as int) <= u64::MAX)
}

/// `op` is what a query draw at `pick` logs: nothing past every template,
/// else the entry of the template whose weight range holds it.
pub open spec fn query_logged(t: TableSpec, mix: Seq<QueryTemplate>, pick: int, op: Option<LoggedOp>) -> bool {
    let w = weights_of(mix);
    &&& weight_prefix(w, mix.len() as int) <= pick ==> op is None
    &&& pick < weight_prefix(w, mix.len() as int) ==> exists|i: int| {
        &&& 0 <= i < mix.len()
        &&& weight_prefix(w, i) <= pick < weight_prefix(w, i + 1)
        &&& #[trigger] logged_query(t, mix[i], op)
    }
}

/// Draws a query entry: a point below `total_weight` picks the template
/// whose weight range holds it (nothing when `total_weight` is 0 or the
/// point lies past every template).
pub fn gen_query_op(config: &WorkloadConfig, spec: &TableSpec, total_weight: u32, rng: &mut StdRng) -> (op: Option<LoggedOp>)
    requires
        table_ok(*spec),
        mix_ok(config.query_mix@),
    ensures
        total_weight == 0 ==> op is None,
        total_weight > 0 ==> exists|pick: int| 0 <= pick < total_weight && #[trigger] query_logged(*spec, config.query_mix@, pick, op),
{
    if total_weight == 0 {
        return None;
    }
    let pick = draw_between(rng, 0, (total_weight - 1) as u64) as u32;
    let mut weights: Vec<u32> = Vec::new();
    let n = config.query_mix.len();
    for i in 0..n
        invariant
            n == config.query_mix@.len(),
            weights@ == weights_of(config.query_mix@).take(i as int),
    {
        weights.push(config.query_mix[i].weight());
        proof {
            assert(weights@ =~= weights_of(config.query_mix@).take(i + 1));
        }
    }
    proof {
        assert(weights@ =~= weights_of(config.query_mix@));
    }
    let chosen = pick_template(&weights, pick);
    let op = match chosen {
        None => {
            proof {
                assert(query_logged(*spec, config.query_mix@, pick as int, None));
            }
            None
        },
        Some(i) => {
            let ghost t = config.query_mix@[i as int];
            let op = match &config.query_mix[i] {
                QueryTemplate::Eq { attribute, values, hot_values, .. } => {
                    proof {
                        assert(config.query_mix@[i as int] matches QueryTemplate::Eq { .. });
                    }
                    let value = sample_eq_value(values, hot_values, rng);
                    Some(LoggedOp::QueryEq { attribute: attribute.clone(), value })
                },
                QueryTemplate::And { attributes, .. } => {
                    let mut filters: Vec<(String, String)> = Vec::new();
                    let m = attributes.len();
                    for k in 0..m
                        invariant
                            table_ok(*spec),
                            m == attributes@.len(),
                            filters@.len() == k,
                            forall|j: int| 0 <= j < k ==> (#[trigger] filters@[j]).0@ == attributes@[j]@
                                && logged_value(*spec, attributes@[j]@, filters@[j].1@),
                    {
                        let r = spec_attr_value(spec, attributes[k].as_str(), rng);
                        let v = value_or_unknown(r);
                        filters.push((attributes[k].clone(), v));
                    }
                    Some(LoggedOp::QueryAnd { filters })
                },
                QueryTemplate::Or { attributes, values, .. } => {
                    let attribute = if attributes.len() > 0 {
                        attributes[0].clone()
                    } else {
                        String::new()
                    };
                    let mut vs: Vec<String> = Vec::new();
                    let m = values.len();
                    for k in 0..m
                        invariant
                            m == values@.len(),
                            vs@.len() == k,
                            forall|j: int| 0 <= j < k ==> (#[trigger] vs@[j])@ == values@[j]@,
                    {
                        vs.push(values[k].clone());
                    }
                    Some(LoggedOp::QueryOr { attribute, values: vs })
                },
                QueryTemplate::Join { .. } => None,
            };
            proof {
                assert(logged_query(*spec, t, op));
                crate::plan::lemma_weight_prefix_mono(weights_of(config.query_mix@), i + 1, n as int);
                assert(query_logged(*spec, config.query_mix@, pick as int, op));
            }
            op
        },
    };
    op
}

/// The writes can be drawn: the rates sum to a `u64` and the update
/// attribute weights to a `u64`.
pub open spec fn write_mix_ok(config: WorkloadConfig) -> bool {
    let w = config.write_mix;
    &&& w.insert_rate + w.update_rate + w.delete_rate <= u64::MAX
    &&& (w.attribute_weights matches Some(aw) ==> aw.wf() && wsum(attr_weights(w.attributes@, aw@), w.attributes@.len() as int) <= u64::MAX)
}

/// `op` is what a write draw at `roll` logs, with `next` the next free id
/// before and `next2` after: an insert of a fresh object with a sampled row
/// below the insert rate; else an update of one write attribute, then a
/// delete, of an object drawn among those handed out (nothing when none was,
/// or, for an update, when there are no write attributes).
pub open spec fn write_logged(config: WorkloadConfig, t: TableSpec, roll: int, next: u32, next2: u32, op: Option<LoggedOp>) -> bool {
    let w = config.write_mix;
    &&& roll < w.insert_rate ==> (next2 == next + 1 && (op matches Some(LoggedOp::Insert { id, values }) && id == next
        && row_sampled(t, props_view(values))))
    &&& w.insert_rate <= roll < w.insert_rate + w.update_rate ==> next2 == next && if next == 0 || w.attributes@.len() == 0 {
        op is None
    } else {
        (op matches Some(LoggedOp::Update { id, attribute, value }) && id < next
            && (exists|i: int| 0 <= i < w.attributes@.len() && #[trigger] w.attributes@[i]@ == attribute@)
            && logged_value(t, attribute@, value@))
    }
    &&& w.insert_rate + w.update_rate <= roll ==> next2 == next && if next == 0 {
        op is None
    } else {
        (op matches Some(LoggedOp::Delete { id }) && id < next)
    }
}

/// Draws a write entry: a point below the sum of the write rates decides
/// between an insert (of the next free id, which is then taken), an update
/// and a delete (see `write_logged`); nothing when the rates sum to 0.
pub fn gen_write_op(config: &WorkloadConfig, spec: &TableSpec, next_id: &mut u32, rng: &mut StdRng) -> (op: Option<LoggedOp>)
    requires
        table_ok(*spec),
        write_mix_ok(*config),
        *old(next_id) < u32::MAX,
    ensures
        config.write_mix.insert_rate + config.write_mix.update_rate + config.write_mix.delete_rate == 0
            ==> op is None && *final(next_id) == *old(next_id),
        config.write_mix.insert_rate + config.write_mix.update_rate + config.write_mix.delete_rate > 0
            ==> exists|roll: int| 0 <= roll < config.write_mix.insert_rate + config.write_mix.update_rate + config.write_mix.delete_rate
            && #[trigger] write_logged(*config, *spec, roll, *old(next_id), *final(next_id), op),
{
    let ins = config.write_mix.insert_rate;
    let upd = config.write_mix.update_rate;
    let del = config.write_mix.delete_rate;
    let total = ins + upd + del;
    if total == 0 {
        return None;
    }
    let roll = draw_between(rng, 0, total - 1);
    write_op_at(config, spec, next_id, roll, rng)
}

/// The write entry for the drawn point `roll` (below the sum of the write
/// rates): below the insert rate an insert of the next free id (which is
/// then taken), below the insert and update rates together an update,
/// else a delete (see `write_logged`).
pub fn write_op_at(config: &WorkloadConfig, spec: &TableSpec, next_id: &mut u32, roll: u64, rng: &mut StdRng) -> (op: Option<LoggedOp>)
    requires
        table_ok(*spec),
        write_mix_ok(*config),
        *old(next_id) < u32::MAX,
        roll < config.write_mix.insert_rate + config.write_mix.update_rate + config.write_mix.delete_rate,
    ensures
        write_logged(*config, *spec, roll as int, *old(next_id), *final(next_id), op),
{
    let ins = config.write_mix.insert_rate;
    let upd = config.write_mix.update_rate;
    let ghost n0 = *next_id;
    let op = if roll < ins {
        let id = *next_id;
        *next_id = id + 1;
        let values = generate_props(spec, rng);
        Some(LoggedOp::Insert { id, values })
    } else if roll < ins + upd {
        if *next_id == 0 || config.write_mix.attributes.len() == 0 {
            None
        } else {
            let id = draw_between(rng, 0, (*next_id - 1) as u64) as u32;
            let attribute = select_mutation_attribute(&config.write_mix.attributes, &config.write_mix.attribute_weights, rng);
            let r = spec_attr_value(spec, attribute.as_str(), rng);
            let value = value_or_unknown(r);
            Some(LoggedOp::Update { id, attribute, value })
        }
    } else {
        if *next_id == 0 {
            None
        } else {
            let id = draw_between(rng, 0, (*next_id - 1) as u64) as u32;
            Some(LoggedOp::Delete { id })
        }
    };
    proof {
        assert(write_logged(*config, *spec, roll as int, n0, *next_id, op));
    }
    op
}


/// `op` is a log entry drawn for a coin below one million: a write entry
/// (see `write_logged`) when the coin falls below the sum of the write
/// rates, else a query entry (see `query_logged`) with the next id kept.
pub open spec fn entry_logged(config: WorkloadConfig, t: TableSpec, total_weight: u32, coin: int, next: u32, next2: u32, op: Option<LoggedOp>) -> bool {
    let w = config.write_mix;
    if coin < w.insert_rate + w.update_rate + w.delete_rate {
        exists|roll: int| 0 <= roll < w.insert_rate + w.update_rate + w.delete_rate
            && #[trigger] write_logged(config, t, roll, next, next2, op)
    } else {
        &&& next2 == next
        &&& total_weight == 0 ==> op is None
        &&& total_weight > 0 ==> exists|pick: int| 0 <= pick < total_weight && #[trigger] query_logged(t, config.query_mix@, pick, op)
    }
}

/// Draws one log entry: a coin below one million against the sum of the
/// write rates (millionths of the operations) decides between a write and
/// a query entry (see `entry_logged`).
pub fn gen_log_op(config: &WorkloadConfig, spec: &TableSpec, total_weight: u32, next_id: &mut u32, rng: &mut StdRng) -> (op: Option<LoggedOp>)
    requires
        table_ok(*spec),
        mix_ok(config.query_mix@),
        write_mix_ok(*config),
        *old(next_id) < u32::MAX,
    ensures
        exists|coin: int| 0 <= coin < 1_000_000 && #[trigger] entry_logged(*config, *spec, total_weight, coin, *old(next_id), *final(next_id), op),
{
    let coin = draw_between(rng, 0, 999_999);
    log_op_at(config, spec, total_weight, next_id, coin, rng)
}

/// The log entry for the drawn coin (below one million): a write entry when
/// the coin falls below the sum of the write rates, else a query entry (see
/// `entry_logged`).
pub fn log_op_at(config: &WorkloadConfig, spec: &TableSpec, total_weight: u32, next_id: &mut u32, coin: u64, rng: &mut StdRng) -> (op: Option<LoggedOp>)
    requires
        table_ok(*spec),
        mix_ok(config.query_mix@),
        write_mix_ok(*config),
        *old(next_id) < u32::MAX,
        coin < 1_000_000,
    ensures
        entry_logged(*config, *spec, total_weight, coin as int, *old(next_id), *final(next_id), op),
{
    let w = &config.write_mix;
    let rate: u128 = w.insert_rate as u128 + w.update_rate as u128 + w.delete_rate as u128;
    if (coin as u128) < rate {
        let op = gen_write_op(config, spec, next_id, rng);
        proof {
            assert(entry_logged(*config, *spec, total_weight, coin as int, *old(next_id), *next_id, op));
        }
        op
    } else {
        let op = gen_query_op(config, spec, total_weight, rng);
        proof {
            assert(entry_logged(*config, *spec, total_weight, coin as int, *old(next_id), *next_id, op));
        }
        op
    }
}

/// Whether every attribute of the table can be drawn from (see `table_ok`).
pub fn table_ready(t: &TableSpec) -> (b: bool)
    requires
        t.attributes.wf(),
    ensures
        b == table_ok(*t),
{
    let keys = t.attributes.keys();
    let m = keys.len();
    proof {
        t.attributes.lemma_dom();
    }
    for k in 0..m
        invariant
            t.attributes.wf(),
            m == keys@.len(),
            m == t.attributes.keys_seq().len(),
            t.attributes@.dom() == t.attributes.keys_seq().to_set(),
            forall|j: int| 0 <= j < m ==> #[trigger] keys@[j]@ == t.attributes.keys_seq()[j],
            forall|j: int| 0 <= j < k ==> def_ok(t.attributes@[#[trigger] t.attributes.keys_seq()[j]]),
    {
        proof {
            assert(t.attributes.keys_seq().to_set().contains(t.attributes.keys_seq()[k as int]));
        }
        if !def_ready(t.attributes.value_of(keys[k].as_str())) {
            proof {
                assert(t.attributes@.contains_key(t.attributes.keys_seq()[k as int]));
            }
            return false;
        }
    }
    proof {
        assert forall|a: Seq<char>| #[trigger] t.attributes@.contains_key(a) implies def_ok(t.attributes@[a]) by {
            assert(t.attributes.keys_seq().to_set().contains(a));
            let j = choose|j: int| 0 <= j < m && t.attributes.keys_seq()[j] == a;
            assert(def_ok(t.attributes@[t.attributes.keys_seq()[j]]));
        }
    }
    true
}

/// Whether the query mix can be drawn from (see `mix_ok`).
pub fn mix_ready(mix: &Vec<QueryTemplate>) -> (b: bool)
    ensures
        b == mix_ok(mix@),
{
    let n = mix.len();
    let mut total: u32 = 0;
    for i in 0..n
        invariant
            n == mix@.len(),
            total == weight_prefix(weights_of(mix@), i as int),
            forall|j: int| 0 <= j < i ==> (#[trigger] mix@[j] matches QueryTemplate::Eq { hot_values, .. }
                ==> wsum(hot_weights(hot_values@), hot_values@.len() as int) <= u64::MAX),
    {
        match &mix[i] {
            QueryTemplate::Eq { .. } => {
                if !filter_template_ready(&mix[i]) {
                    return false;
                }
            },
            _ => {},
        }
        match total.checked_add(mix[i].weight()) {
            Some(x) => {
                total = x;
            },
            None => {
                proof {
                    crate::plan::lemma_weight_prefix_mono(weights_of(mix@), i + 1, n as int);
                }
                return false;
            },
        }
    }
    true
}

/// Whether the writes can be drawn (see `write_mix_ok`), given that the
/// attribute weights, if any, form a well-formed map.
pub fn write_mix_ready(config: &WorkloadConfig) -> (b: bool)
    requires
        config.write_mix.attribute_weights matches Some(aw) ==> aw.wf(),
    ensures
        b == write_mix_ok(*config),
{
    let w = &config.write_mix;
    let sum = match w.insert_rate.checked_add(w.update_rate) {
        Some(x) => x.checked_add(w.delete_rate),
        None => None,
    };
    if sum.is_none() {
        return false;
    }
    match &w.attribute_weights {
        Some(aw) => {
            let mut total: u64 = 0;
            let n = w.attributes.len();
            for i in 0..n
                invariant
                    n == w.attributes@.len(),
                    aw.wf(),
                    w == &config.write_mix,
                    config.write_mix.attribute_weights == Some(*aw),
                    total == wsum(attr_weights(w.attributes@, aw@), i as int),
            {
                let x = match aw.get(w.attributes[i].as_str()) {
                    Some(v) => *v,
                    None => crate::config::MILLIONTHS,
                };
                proof {
                    assert(x == attr_weights(w.attributes@, aw@)[i as int]);
                }
                match total.checked_add(x) {
                    Some(t) => {
                        total = t;
                    },
                    None => {
                        proof {
                            let ws = attr_weights(w.attributes@, aw@);
                            assert(wsum(ws, i + 1) == wsum(ws, i as int) + ws[i as int]);
                            crate::benchmark::lemma_wsum_mono(ws, i + 1, n as int);
                        }
                        return false;
                    },
                }
            }
            true
        },
        None => true,
    }
}

} // verus!
