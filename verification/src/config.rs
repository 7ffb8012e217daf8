use vstd::prelude::*;
use crate::strmap::StrMap;

verus! {

/// How eagerly conjunctions are materialised and stale factors evicted.
pub struct AdaptationConfig {
    pub materialization_threshold: u64,
    pub eviction_ticks: u64,
}

/// The default number of hits after which a conjunction is materialised.
pub fn default_materialization_threshold() -> (t: u64)
    ensures
        t == 3,
{
    3
}

/// The default number of idle ticks after which an operational factor is evicted.
pub fn default_eviction_ticks() -> (t: u64)
    ensures
        t == 500,
{
    500
}

impl Default for AdaptationConfig {
    fn default() -> (c: Self)
        ensures
            c.materialization_threshold == 3,
            c.eviction_ticks == 500,
    {
        AdaptationConfig {
            materialization_threshold: default_materialization_threshold(),
            eviction_ticks: default_eviction_ticks(),
        }
    }
}

/// How a benchmark run is carried out.
pub struct RunOptions {
    pub total_operations: usize,
    pub metrics_interval_ops: usize,
    pub warmup_ops: usize,
    pub adaptation_enabled: bool,
}

/// The correlation hint of a table that gives none.
pub fn default_correlation() -> (s: String)
    ensures
        s@ == "low"@,
{
    "low".to_owned()
}

/// The table a query or a write goes to when it names none.
pub fn default_query_table() -> (s: String)
    ensures
        s@ == "employees"@,
{
    "employees".to_owned()
}


/// Rates, probabilities and weights are kept in millionths: a rate of one
/// half is `500_000`.
pub const MILLIONTHS: u64 = 1_000_000;

/// How the values of a categorical or continuous attribute are drawn.
pub enum AttributeSpec {
    /// One of `values`, weighted by `weights` when given; the null marker
    /// with probability `null_millionths` in a million.
    Categorical { values: Vec<String>, weights: Option<Vec<u64>>, null_millionths: u64 },
    /// An integer in `min..=max`; the null marker with probability
    /// `null_millionths` in a million.
    Continuous { min: i64, max: i64, null_millionths: u64 },
}

/// An attribute of a generated table: a plain list of values (an empty list
/// stands for salaries between 30 000 and 150 000) or a fuller description.
pub enum AttributeDef {
    Simple(Vec<String>),
    Extended(AttributeSpec),
}

/// A value that queries ask for more often, with its weight in millionths.
pub struct HotValue {
    pub value: String,
    pub weight: u64,
}

/// A generated table: its attributes, how many objects it starts with, and
/// which attributes the structural cover factorises (all categorical ones
/// when none are named).
pub struct TableSpec {
    pub attributes: StrMap<AttributeDef>,
    pub initial_objects: usize,
    pub correlation_hint: String,
    pub factorize_attributes: Option<Vec<String>>,
}

/// A kind of query of the workload, with its weight in the mix.
pub enum QueryTemplate {
    Eq { weight: u32, attribute: String, values: Vec<String>, table: String, hot_values: Vec<HotValue> },
    And { weight: u32, attributes: Vec<String>, table: String },
    Or { weight: u32, attributes: Vec<String>, values: Vec<String>, table: String, hot_values: Vec<HotValue> },
    Join {
        weight: u32,
        left_table: String,
        right_table: String,
        join_attribute: String,
        left_filters: Vec<QueryTemplate>,
        right_filters: Vec<QueryTemplate>,
    },
}

impl QueryTemplate {
    pub open spec fn weight_of(&self) -> u32 {
        match *self {
            QueryTemplate::Eq { weight, .. } => weight,
            QueryTemplate::And { weight, .. } => weight,
            QueryTemplate::Or { weight, .. } => weight,
            QueryTemplate::Join { weight, .. } => weight,
        }
    }

    /// The template's weight in the query mix.
    pub fn weight(&self) -> (w: u32)
        ensures
            w == self.weight_of(),
    {
        match self {
            QueryTemplate::Eq { weight, .. } => *weight,
            QueryTemplate::And { weight, .. } => *weight,
            QueryTemplate::Or { weight, .. } => *weight,
            QueryTemplate::Join { weight, .. } => *weight,
        }
    }
}

/// The writes of the workload: insert, update and delete rates in
/// millionths, the attributes writes set, the table they go to, and
/// optional weights (millionths) for the attribute an update changes.
pub struct WriteMix {
    pub insert_rate: u64,
    pub update_rate: u64,
    pub delete_rate: u64,
    pub attributes: Vec<String>,
    pub table: String,
    pub attribute_weights: Option<StrMap<u64>>,
}

/// A whole workload: its tables, query and write mix, run options,
/// adaptation settings and seed (0 for a seed from the system).
pub struct WorkloadConfig {
    pub workload_name: String,
    pub description: String,
    pub tables: StrMap<TableSpec>,
    pub query_mix: Vec<QueryTemplate>,
    pub write_mix: WriteMix,
    pub run_options: RunOptions,
    pub adaptation: AdaptationConfig,
    pub rng_seed: u64,
}

} // verus!
