use vstd::prelude::*;
use crate::bench::{ascending, percentile_index, LatencyHistogram, OpResult};
use crate::runner::{with_users, JimvdRunner};
use crate::workload::{
    drift_schedule, generate_users, join_operation, CorrelationConfig, Operation, Phase, User, WorkloadConfig,
    WorkloadGenerator,
};

verus! {

/// What an engine reports for an interval: latency percentiles in
/// microseconds, sizes in bytes, the factor-space and row-level operation
/// counts whose quotient is the factor utilisation, the update
/// amplification counts, how many factors it holds, and the queries and
/// join fallbacks it counted.
#[derive(Debug, Clone, Copy, Default)]
pub struct EngineMetrics {
    pub p50_latency_us: u64,
    pub p95_latency_us: u64,
    pub p99_latency_us: u64,
    pub storage_bytes: u64,
    pub metadata_bytes: u64,
    pub query_factor_ops: u64,
    pub write_factor_ops: u64,
    pub row_ops: u64,
    pub uaf_nodes: usize,
    pub uaf_updates: usize,
    pub factor_count: usize,
    pub graph_nodes: usize,
    pub memory_peak_bytes: u64,
    pub total_queries: u64,
    pub join_fallbacks: u64,
}

/// The factor utilisation of `m`, the share of factor-space operations
/// among all operations (0 when there were none), is at least `threshold`
/// millionths.
pub open spec fn reaches(m: EngineMetrics, threshold: u64) -> bool {
    let f = m.query_factor_ops + m.write_factor_ops;
    let d = f + m.row_ops;
    if d == 0 {
        threshold == 0
    } else {
        f * 1_000_000 >= threshold * d
    }
}

/// Whether the factor utilisation of `m` reached `threshold` millionths.
pub fn utilization_reached(m: &EngineMetrics, threshold: u64) -> (b: bool)
    ensures
        b == reaches(*m, threshold),
{
    let f: u128 = m.query_factor_ops as u128 + m.write_factor_ops as u128;
    let d: u128 = f + m.row_ops as u128;
    if d == 0 {
        threshold == 0
    } else if threshold > 1_000_000 {
        proof {
            assert(f * 1_000_000 < threshold * d) by (nonlinear_arith)
                requires f <= d, d > 0, threshold > 1_000_000;
        }
        false
    } else {
        proof {
            assert(threshold * d <= 1_000_000 * d) by (nonlinear_arith)
                requires threshold <= 1_000_000, d >= 0;
            assert(f * 1_000_000 <= d * 1_000_000) by (nonlinear_arith)
                requires f <= d;
        }
        f * 1_000_000 >= threshold as u128 * d
    }
}

/// A database engine the benchmark drives: it loads users, runs
/// operations, and reports metrics.
pub trait DatabaseRunner {
    fn name(&self) -> &str;

    fn load_data(&mut self, users: &[User]) -> Result<(), anyhow::Error>;

    /// Loads users into a further table; engines that keep one table accept
    /// and ignore it.
    fn load_table(&mut self, table: &str, users: &[User]) -> (r: Result<(), anyhow::Error>)
        default_ensures
            r is Ok,
    {
        Ok(())
    }

    /// `m` is a report `collect_metrics` can give of the engine in this
    /// state; an engine that says nothing of its reports admits any.
    open spec fn measures(&self, m: EngineMetrics) -> bool {
        true
    }

    /// Whether the engine keeps the history of the operations it was asked
    /// to run (see `history`); an engine that says nothing keeps none.
    open spec fn keeps_history(&self) -> bool {
        false
    }

    /// The operations the engine was asked to run, in order, when it keeps
    /// them.
    open spec fn history(&self) -> Seq<Operation> {
        Seq::empty()
    }

    fn execute(&mut self, op: &Operation) -> (r: Result<OpResult, anyhow::Error>)
        ensures
            old(self).keeps_history() ==> final(self).keeps_history()
                && final(self).history() == old(self).history().push(*op),
    ;

    fn collect_metrics(&self) -> (m: EngineMetrics)
        ensures
            self.measures(m),
    ;

    fn reset_metrics(&mut self)
        ensures
            old(self).keeps_history() ==> final(self).keeps_history()
                && final(self).history() == old(self).history(),
    ;
}

/// `anyhow::Error::msg`: an error carrying the message.
#[verifier::external_body]
fn failure(message: &str) -> anyhow::Error {
    anyhow::Error::msg(message.to_owned())
}

/// A duration in whole microseconds, at most `u64::MAX`.
fn whole_micros(d: &std::time::Duration) -> (us: u64) {
    let m = crate::bench::duration_micros(d);
    if m > u64::MAX as u128 {
        u64::MAX
    } else {
        m as u64
    }
}

/// `v` is an ascending arrangement of the samples `s`, as `percentile`
/// leaves them.
pub open spec fn arranged(v: Seq<u64>, s: Seq<u64>) -> bool {
    &&& ascending(v)
    &&& v.to_multiset() == s.to_multiset()
}

/// `r` is the `p`th percentile of the samples `s` (0 when there are none).
pub open spec fn is_percentile(r: u64, s: Seq<u64>, p: int) -> bool {
    if s.len() == 0 {
        r == 0
    } else {
        exists|v: Seq<u64>| #[trigger] arranged(v, s) && v.len() == s.len() && r == v[percentile_index(p, s.len() as int)]
    }
}

/// The factor count a snapshot reports: the structural and operational
/// factors together, at most `usize::MAX`.
pub open spec fn capped_sum(a: nat, b: nat) -> nat {
    if a + b <= usize::MAX { a + b } else { usize::MAX as nat }
}

/// The `p`th percentile of a copy of the samples.
fn sample_percentile(samples: &Vec<u64>, p: u64) -> (r: u64)
    ensures
        is_percentile(r, samples@, p as int),
{
    let mut h = LatencyHistogram { samples: samples.clone() };
    proof {
        assert(h.samples@ =~= samples@);
    }
    let r = h.percentile(p);
    proof {
        if samples@.len() > 0 {
            assert(arranged(h.samples@, samples@));
        }
    }
    r
}

/// The engine over a `JimvdRunner`, whose well-formedness it keeps.
pub struct JimvdEngine {
    runner: JimvdRunner,
    /// The operations the engine was asked to run.
    asked: Ghost<Seq<Operation>>,
}

/// The bounds under which the runner can load `n` users.
pub open spec fn load_fits(r: JimvdRunner, n: nat) -> bool {
    &&& r.next_delta_id + n <= i64::MAX
    &&& r.graph.current_tick + n <= u64::MAX
}

/// The bounds under which the runner can run one more operation.
pub open spec fn execute_fits(r: JimvdRunner) -> bool {
    &&& r.next_delta_id < i64::MAX
    &&& r.graph.current_tick < u64::MAX
    &&& r.table_ready ==> r.users().current_tick < u64::MAX
    &&& r.uaf_tracker.total_updates < usize::MAX
    &&& r.uaf_tracker.total_nodes_touched + r.users_factor_count() <= usize::MAX
}

/// `fin` is `old` after running `op` through `execute`: the runner was
/// readied, ran the operation touching `nodes` factors, and recorded one
/// more time.
pub open spec fn executed(fin: JimvdRunner, old: JimvdRunner, op: Operation, nodes: usize) -> bool {
    exists|mid: JimvdRunner, after: JimvdRunner| {
        &&& #[trigger] mid.readied_from(&old)
        &&& #[trigger] after.ran(&mid, op, nodes)
        &&& fin == (JimvdRunner { latencies: fin.latencies, ..after })
        &&& fin.latencies.samples@.drop_last() == after.latencies.samples@
        &&& fin.latencies.samples@.len() == after.latencies.samples@.len() + 1
    }
}

impl JimvdEngine {
    #[verifier::type_invariant]
    spec fn engine_inv(self) -> bool {
        self.runner.wf()
    }

    /// The runner inside the engine.
    pub closed spec fn inner(self) -> JimvdRunner {
        self.runner
    }

    pub fn new(materialization_threshold: usize, eviction_ticks: u64) -> (e: Self)
        ensures
            e.inner().wf(),
            e.inner().graph.tables@ == Map::<Seq<char>, crate::graph::FactorGraph>::empty(),
            e.inner().graph.current_tick == 0,
            e.inner().jmetrics == crate::metrics::Metrics::zeroed(),
            e.inner().uaf_tracker.total_updates == 0,
            e.inner().uaf_tracker.total_nodes_touched == 0,
            e.inner().latencies.samples@ == Seq::<u64>::empty(),
            e.inner().dataset_size == 0,
            e.inner().next_delta_id == 1,
            !e.inner().table_ready,
    {
        JimvdEngine { runner: JimvdRunner::new(materialization_threshold, eviction_ticks), asked: Ghost(Seq::empty()) }
    }

    /// Takes the runner out, leaving a fresh one in its place.
    fn take_runner(&mut self) -> (r: JimvdRunner)
        ensures
            r == old(self).inner(),
            r.wf(),
            final(self).asked == old(self).asked,
    {
        proof {
            use_type_invariant(&*self);
        }
        let mut r = JimvdRunner::new(3, 10_000);
        std::mem::swap(&mut r, &mut self.runner);
        r
    }

    /// Whether the runner can load `n` users.
    fn can_load(&self, n: usize) -> (b: bool)
        ensures
            b == load_fits(self.inner(), n as nat),
    {
        (self.runner.next_delta_id as i128 + n as i128 <= i64::MAX as i128)
            && (self.runner.graph.current_tick as u128 + n as u128 <= u64::MAX as u128)
    }

    /// Whether the runner can run one more operation.
    fn can_execute(&self) -> (b: bool)
        ensures
            b == execute_fits(self.inner()),
    {
        proof {
            use_type_invariant(self);
            reveal_strlit("users");
            assert("users"@ =~= crate::runner::users_key());
        }
        let r = &self.runner;
        if r.next_delta_id == i64::MAX || r.graph.current_tick == u64::MAX {
            return false;
        }
        if r.uaf_tracker.total_updates == usize::MAX {
            return false;
        }
        let (present, count, tick) = match r.graph.tables.get("users") {
            Some(g) => (true, g.factors.len(), g.current_tick),
            None => (false, 0, 0),
        };
        proof {
            if present {
                assert(r.graph.tables@.contains_key(crate::runner::users_key()));
                assert(count == r.users_factor_count());
                assert(tick == r.users().current_tick);
            } else {
                assert(!r.graph.tables@.contains_key(crate::runner::users_key()));
                assert(count == r.users_factor_count());
            }
        }
        if r.table_ready && tick == u64::MAX {
            return false;
        }
        r.uaf_tracker.total_nodes_touched as u128 + count as u128 <= usize::MAX as u128
    }
}

impl DatabaseRunner for JimvdEngine {
    /// The report `collect_metrics` gives: the latency percentiles of the
    /// recorded times, the runner's counters, and the factor count.
    open spec fn measures(&self, m: EngineMetrics) -> bool {
        &&& is_percentile(m.p50_latency_us, self.inner().latencies.samples@, 50)
        &&& is_percentile(m.p95_latency_us, self.inner().latencies.samples@, 95)
        &&& is_percentile(m.p99_latency_us, self.inner().latencies.samples@, 99)
        &&& m.query_factor_ops == self.inner().jmetrics.query_factor_ops
        &&& m.write_factor_ops == self.inner().jmetrics.write_factor_ops
        &&& m.row_ops == self.inner().jmetrics.row_ops
        &&& m.total_queries == self.inner().jmetrics.total_queries
        &&& m.join_fallbacks == self.inner().jmetrics.join_fallbacks
        &&& m.uaf_nodes == self.inner().uaf_tracker.total_nodes_touched
        &&& m.uaf_updates == self.inner().uaf_tracker.total_updates
        &&& m.factor_count == capped_sum(
            crate::multi::kind_total(self.inner().graph.tables@, self.inner().graph.tables.keys_seq(), true),
            crate::multi::kind_total(self.inner().graph.tables@, self.inner().graph.tables.keys_seq(), false),
        )
        &&& m.graph_nodes == m.factor_count
        &&& m.storage_bytes == 0
        &&& m.metadata_bytes == 0
        &&& m.memory_peak_bytes == 0
    }

    /// It keeps the operations it was asked to run.
    open spec fn keeps_history(&self) -> bool {
        true
    }

    closed spec fn history(&self) -> Seq<Operation> {
        self.asked@
    }

    fn name(&self) -> (s: &str)
        ensures
            s@ == "jimvd"@,
    {
        "jimvd"
    }

    /// Loads the users when the counters leave room for them (see
    /// `JimvdRunner::load_data`), else fails and changes nothing.
    fn load_data(&mut self, users: &[User]) -> (r: Result<(), anyhow::Error>)
        ensures
            r is Ok <==> load_fits(old(self).inner(), users@.len()),
            r is Err ==> final(self).inner() == old(self).inner(),
            r is Ok ==> {
                &&& final(self).inner().table_ready
                &&& final(self).inner().dataset_size == users@.len()
                &&& final(self).inner().users().objects_view() == with_users(
                    if old(self).inner().table_ready { old(self).inner().users().objects_view() } else { Map::empty() },
                    users@,
                )
            },
    {
        if !self.can_load(users.len()) {
            return Err(failure("jimvd: counters exhausted"));
        }
        let mut r = self.take_runner();
        r.load_data(users);
        self.runner = r;
        Ok(())
    }

    /// Runs the operation when the counters leave room for it, timing it and
    /// recording the time (see `JimvdRunner::execute_op`); else fails and
    /// changes nothing.
    fn execute(&mut self, op: &Operation) -> (r: Result<OpResult, anyhow::Error>)
        ensures
            r is Ok <==> execute_fits(old(self).inner()),
            r is Err ==> final(self).inner() == old(self).inner(),
            r matches Ok(res) ==> executed(final(self).inner(), old(self).inner(), *op, res.nodes_touched),
    {
        proof {
            use_type_invariant(&*self);
        }
        self.asked = Ghost(self.asked@.push(*op));
        if !self.can_execute() {
            return Err(failure("jimvd: counters exhausted"));
        }
        let mut r = self.take_runner();
        let ghost before = r;
        let start = crate::benchmark::clock_now();
        let nodes_touched = r.execute_op(op);
        let latency = crate::benchmark::elapsed_since(&start);
        let ghost after = r;
        r.latencies.record(latency);
        let ghost mid = choose|mid: JimvdRunner| #[trigger] mid.readied_from(&before) && after.ran(&mid, *op, nodes_touched);
        self.runner = r;
        let latency_us = whole_micros(&latency);
        let res = OpResult { latency, latency_us, nodes_touched };
        proof {
            assert(mid.readied_from(&old(self).inner()));
            assert(executed(self.inner(), old(self).inner(), *op, res.nodes_touched));
        }
        Ok(res)
    }

    /// The latency percentiles of the recorded times, the runner's counters,
    /// and the factor count of all tables.
    fn collect_metrics(&self) -> (m: EngineMetrics)
        ensures
            is_percentile(m.p50_latency_us, self.inner().latencies.samples@, 50),
            is_percentile(m.p95_latency_us, self.inner().latencies.samples@, 95),
            is_percentile(m.p99_latency_us, self.inner().latencies.samples@, 99),
            m.query_factor_ops == self.inner().jmetrics.query_factor_ops,
            m.write_factor_ops == self.inner().jmetrics.write_factor_ops,
            m.row_ops == self.inner().jmetrics.row_ops,
            m.total_queries == self.inner().jmetrics.total_queries,
            m.join_fallbacks == self.inner().jmetrics.join_fallbacks,
            m.uaf_nodes == self.inner().uaf_tracker.total_nodes_touched,
            m.uaf_updates == self.inner().uaf_tracker.total_updates,
            m.factor_count == capped_sum(
                crate::multi::kind_total(self.inner().graph.tables@, self.inner().graph.tables.keys_seq(), true),
                crate::multi::kind_total(self.inner().graph.tables@, self.inner().graph.tables.keys_seq(), false),
            ),
            m.graph_nodes == m.factor_count,
            m.storage_bytes == 0,
            m.metadata_bytes == 0,
            m.memory_peak_bytes == 0,
    {
        proof {
            use_type_invariant(self);
        }
        let r = &self.runner;
        let factor_count: usize = if r.graph.kind_totals_fit() {
            let report = r.graph.gather_metrics(&r.jmetrics);
            let s = report.structural_factor_count as u128 + report.operational_factor_count as u128;
            if s <= usize::MAX as u128 {
                s as usize
            } else {
                usize::MAX
            }
        } else {
            usize::MAX
        };
        EngineMetrics {
            p50_latency_us: sample_percentile(&r.latencies.samples, 50),
            p95_latency_us: sample_percentile(&r.latencies.samples, 95),
            p99_latency_us: sample_percentile(&r.latencies.samples, 99),
            storage_bytes: 0,
            metadata_bytes: 0,
            query_factor_ops: r.jmetrics.query_factor_ops,
            write_factor_ops: r.jmetrics.write_factor_ops,
            row_ops: r.jmetrics.row_ops,
            uaf_nodes: r.uaf_tracker.total_nodes_touched,
            uaf_updates: r.uaf_tracker.total_updates,
            factor_count,
            graph_nodes: factor_count,
            memory_peak_bytes: 0,
            total_queries: r.jmetrics.total_queries,
            join_fallbacks: r.jmetrics.join_fallbacks,
        }
    }

    /// Clears the counters, the update tracker and the recorded times.
    fn reset_metrics(&mut self)
        ensures
            final(self).inner() == (JimvdRunner {
                jmetrics: crate::metrics::Metrics::zeroed(),
                uaf_tracker: crate::bench::UafTracker { total_updates: 0, total_nodes_touched: 0 },
                latencies: LatencyHistogram { samples: final(self).inner().latencies.samples },
                ..old(self).inner()
            }),
            final(self).inner().latencies.samples@ == Seq::<u64>::empty(),
    {
        let mut r = self.take_runner();
        r.reset_metrics();
        self.runner = r;
    }
}

/// The measurements of one scale of the scaling ladder.
pub struct ScalingResult {
    pub scale: usize,
    pub runner_name: String,
    pub metrics: EngineMetrics,
}

/// The measurements at the end of one phase of the drift simulation, and
/// the first probed operation at which the factor utilisation reached nine
/// tenths.
pub struct DriftResult {
    pub phase_index: usize,
    pub phase: Phase,
    pub metrics: EngineMetrics,
    pub adaptation_latency_ops: Option<usize>,
}

/// The measurements after `operations` operations of the long run.
pub struct EvolutionSnapshot {
    pub operations: usize,
    pub metrics: EngineMetrics,
}

/// The measurements of the joins at one fan-out.
pub struct JoinResult {
    pub avg_items_per_order: usize,
    pub runner_name: String,
    pub metrics: EngineMetrics,
}

/// A snapshot of a main-event phase.
pub struct PhaseSnapshot {
    pub phase: String,
    pub phase_index: usize,
    pub ops_into_phase: usize,
    pub total_ops: usize,
    pub metrics: EngineMetrics,
}

/// How many operations two engines ran and on how many they disagreed.
pub struct ValidationReport {
    pub total_ops: usize,
    pub mismatches: usize,
}

/// The engine in state `s` was asked to run `ops`, in order, after what it
/// had been asked to run in state `start` (stated of engines that keep
/// their history).
pub open spec fn ran_since<R: DatabaseRunner>(start: R, s: R, ops: Seq<Operation>) -> bool {
    start.keeps_history() ==> s.keeps_history() && s.history() == start.history() + ops
}

/// After the first `k + 1` operations of `ops`, the engine was in state
/// `states[k + 1]`.
pub open spec fn op_step<R: DatabaseRunner>(states: Seq<R>, ops: Seq<Operation>, k: int) -> bool {
    ran_since(states[0], states[k + 1], ops.take(k + 1))
}

/// `states` are the engine's states as the operations `ops` ran in order,
/// one `execute` each: before the first, then after each.
pub open spec fn ran_in_order<R: DatabaseRunner>(states: Seq<R>, ops: Seq<Operation>) -> bool {
    &&& states.len() == ops.len() + 1
    &&& forall|k: int| 0 <= k < ops.len() ==> #[trigger] op_step(states, ops, k)
}

/// Running one more operation from the state after the first `i` keeps
/// the states in order.
proof fn lemma_ran_one_more<R: DatabaseRunner>(states: Seq<R>, ops: Seq<Operation>, s: R, op: Operation)
    requires
        ran_in_order(states, ops),
        states[0].keeps_history() ==> states[ops.len() as int].keeps_history()
            && states[ops.len() as int].history() == states[0].history() + ops,
        states[ops.len() as int].keeps_history() ==> s.keeps_history()
            && s.history() == states[ops.len() as int].history().push(op),
    ensures
        ran_in_order(states.push(s), ops.push(op)),
        states.push(s)[0] == states[0],
{
    let st = states.push(s);
    let os = ops.push(op);
    let n = ops.len() as int;
    assert forall|k: int| 0 <= k < os.len() implies #[trigger] op_step(st, os, k) by {
        if k < n {
            assert(op_step(states, ops, k));
            assert(st[k + 1] == states[k + 1]);
            assert(os.take(k + 1) =~= ops.take(k + 1));
        } else {
            assert(os.take(k + 1) =~= os);
            if states[0].keeps_history() {
                assert(states[0].history() + os =~= (states[0].history() + ops).push(op));
            }
        }
    }
}

/// What the states in order say of the last one: the engine there was
/// asked to run all of `ops` since the first.
proof fn lemma_ran_last<R: DatabaseRunner>(states: Seq<R>, ops: Seq<Operation>)
    requires
        ran_in_order(states, ops),
    ensures
        states[0].keeps_history() ==> states[ops.len() as int].keeps_history()
            && states[ops.len() as int].history() == states[0].history() + ops,
{
    if ops.len() > 0 {
        assert(op_step(states, ops, ops.len() - 1));
        assert(ops.take(ops.len() as int) =~= ops);
    } else {
        if states[0].keeps_history() {
            assert(states[0].history() + ops =~= states[0].history());
        }
    }
}

/// The dataset sizes of the scaling ladder.
pub open spec fn wall_scales() -> Seq<usize> {
    seq![1_000usize, 10_000, 100_000, 1_000_000, 10_000_000]
}

/// Loads datasets of growing size, each ladder scale up to `max_scale`, runs
/// the workload's operations on each and measures: one result per scale
/// whose load succeeded, in increasing order of scale.
pub fn run_scaling_wall<R: DatabaseRunner>(
    runner: &mut R,
    config: &CorrelationConfig,
    workload_config: &WorkloadConfig,
    phase: Phase,
    max_scale: usize,
) -> (results: Vec<ScalingResult>)
    ensures
        results@.len() <= wall_scales().len(),
        forall|i: int| 0 <= i < results@.len() ==> wall_scales().contains(#[trigger] results@[i].scale)
            && results@[i].scale <= max_scale,
        forall|i: int, j: int| 0 <= i < j < results@.len() ==> results@[i].scale < results@[j].scale,
{
    let scales: Vec<usize> = vec![1_000, 10_000, 100_000, 1_000_000, 10_000_000];
    let mut results: Vec<ScalingResult> = Vec::new();
    let mut k: usize = 0;
    while k < scales.len()
        invariant
            scales@ == wall_scales(),
            k <= scales@.len(),
            results@.len() <= k,
            forall|i: int| 0 <= i < results@.len() ==> wall_scales().contains(#[trigger] results@[i].scale)
                && results@[i].scale <= max_scale,
            forall|i: int| 0 <= i < results@.len() ==> #[trigger] results@[i].scale < (if k < 5 { scales@[k as int] } else { usize::MAX }),
            forall|i: int, j: int| 0 <= i < j < results@.len() ==> results@[i].scale < results@[j].scale,
        decreases scales@.len() - k,
    {
        let scale = scales[k];
        if scale > max_scale {
            break;
        }
        let users = generate_users(scale, config);
        runner.reset_metrics();
        let load = runner.load_data(users.as_slice());
        match scale_after_load(runner, load, workload_config, &phase, scale) {
            Some(result) => {
                proof {
                    assert(wall_scales()[k as int] == scale);
                }
                results.push(result);
            },
            None => {},
        }
        k = k + 1;
    }
    results
}

/// The measurements at one scale once its load came back: nothing when the
/// load failed; else, after running the workload's operations against a
/// dataset of `scale` users, the result for that scale with the engine's
/// name and metrics.
pub fn scale_after_load<R: DatabaseRunner>(
    runner: &mut R,
    load: Result<(), anyhow::Error>,
    workload_config: &WorkloadConfig,
    phase: &Phase,
    scale: usize,
) -> (r: Option<ScalingResult>)
    ensures
        load is Err <==> r is None,
        r matches Some(res) ==> res.scale == scale,
        load is Err ==> *final(runner) == *old(runner),
        r matches Some(res) ==> exists|states: Seq<R>, ops: Seq<Operation>| {
            &&& #[trigger] ran_in_order(states, ops)
            &&& ops.len() == workload_config.total_operations
            &&& states[0] == *old(runner)
            &&& states[ops.len() as int] == *final(runner)
            &&& forall|k: int| 0 <= k < ops.len() ==> #[trigger] crate::workload::generated(ops[k], *workload_config, *phase, scale)
            &&& final(runner).measures(res.metrics)
        },
{
    if load.is_err() {
        return None;
    }
    let ghost r0 = *runner;
    let ghost mut states: Seq<R> = seq![*runner];
    let ghost mut ops: Seq<Operation> = Seq::empty();
    let mut wl = WorkloadGenerator::new(*workload_config, phase.duplicate(), scale);
    for i in 0..workload_config.total_operations
        invariant
            wl.config == *workload_config,
            wl.phase == *phase,
            wl.dataset_size == scale,
            ran_in_order(states, ops),
            ops.len() == i,
            states[0] == r0,
            states[i as int] == *runner,
            forall|k: int| 0 <= k < ops.len() ==> #[trigger] crate::workload::generated(ops[k], *workload_config, *phase, scale),
    {
        let op = wl.next_operation();
        let _ = runner.execute(&op);
        proof {
            let s0 = states;
            let o0 = ops;
            lemma_ran_last(s0, o0);
            lemma_ran_one_more(s0, o0, *runner, op);
            states = states.push(*runner);
            ops = ops.push(op);
            assert forall|k: int| 0 <= k < ops.len() implies #[trigger] crate::workload::generated(ops[k], *workload_config, *phase, scale) by {
                if k < i {
                    assert(ops[k] == o0[k]);
                }
            }
        }
    }
    let metrics = runner.collect_metrics();
    let runner_name = runner.name().to_owned();
    Some(ScalingResult { scale, runner_name, metrics })
}

/// The kinds of the phases of the drift simulation, by position.
pub open spec fn drift_kind(p: Phase, i: int) -> bool {
    if i == 0 || i == 3 || i == 5 {
        p is IAM
    } else if i == 1 {
        p is Compliance
    } else if i == 2 {
        p is Tenant
    } else {
        p is Security
    }
}

/// How often the drift simulation probes the factor utilisation: every
/// hundred thousand operations, or every phase's worth when the phases are
/// shorter, and at least every operation.
pub open spec fn drift_interval(ops_per_phase: usize) -> usize {
    if ops_per_phase >= 100_000 {
        100_000
    } else if ops_per_phase == 0 {
        1
    } else {
        ops_per_phase
    }
}

/// Loads the users, then runs the six drift phases in turn: after resetting
/// the metrics, `ops_per_phase` generated operations, probing the factor
/// utilisation at each positive multiple of the probe interval until it
/// reaches nine tenths, and measuring at the end.  Nothing is run when the
/// load fails.
pub fn run_drift_simulation<R: DatabaseRunner>(
    runner: &mut R,
    users: &[User],
    ops_per_phase: usize,
    workload_config: &WorkloadConfig,
) -> (results: Vec<DriftResult>)
    ensures
        results@.len() == 0 || results@.len() == 6,
        forall|i: int| 0 <= i < results@.len() ==> {
            &&& (#[trigger] results@[i]).phase_index == i
            &&& drift_kind(results@[i].phase, i)
            &&& results@[i].adaptation_latency_ops matches Some(k) ==> 0 < k < ops_per_phase
                && k % drift_interval(ops_per_phase) == 0
            &&& exists|reached: Seq<bool>| reached.len() == ops_per_phase
                && results@[i].adaptation_latency_ops == #[trigger] first_probe(reached, drift_interval(ops_per_phase) as int, ops_per_phase as int)
        },
{
    let load = runner.load_data(users);
    drift_after_load(runner, load, users.len(), ops_per_phase, workload_config)
}

/// The report that stands for a position no probe measured: all zero, so
/// its factor utilisation reaches no positive threshold.
pub open spec fn unmeasured() -> EngineMetrics {
    EngineMetrics {
        p50_latency_us: 0,
        p95_latency_us: 0,
        p99_latency_us: 0,
        storage_bytes: 0,
        metadata_bytes: 0,
        query_factor_ops: 0,
        write_factor_ops: 0,
        row_ops: 0,
        uaf_nodes: 0,
        uaf_updates: 0,
        factor_count: 0,
        graph_nodes: 0,
        memory_peak_bytes: 0,
        total_queries: 0,
        join_fallbacks: 0,
    }
}

/// Which of the reports reached nine tenths of factor utilisation.
pub open spec fn reach_marks(ms: Seq<EngineMetrics>) -> Seq<bool> {
    Seq::new(ms.len(), |k: int| reaches(ms[k], 900_000))
}

/// The report `ms[k]` was measured of the engine after operation `k`.
pub open spec fn probe_measured<R: DatabaseRunner>(states: Seq<R>, ms: Seq<EngineMetrics>, k: int) -> bool {
    states[k + 1].measures(ms[k])
}

/// The drift phase of `res` took the engine from `before` to `after`: its
/// metrics reset, then `n` operations generated for the phase, the engine
/// measured after each positive multiple of the probe interval up to the
/// recorded latency (all of them when there is none); the latency is the
/// first of those probes whose measurement reached nine tenths of factor
/// utilisation, and the result's metrics measure the engine at the end.
pub open spec fn drift_phase_ran<R: DatabaseRunner>(before: R, after: R, res: DriftResult, cfg: WorkloadConfig, size: usize, n: usize) -> bool {
    exists|states: Seq<R>, ops: Seq<Operation>, ms: Seq<EngineMetrics>| {
        &&& #[trigger] ran_in_order(states, ops)
        &&& ops.len() == n
        &&& ms.len() == n
        &&& ran_since(before, states[0], Seq::empty())
        &&& states[n as int] == after
        &&& forall|k: int| 0 <= k < n ==> #[trigger] crate::workload::generated(ops[k], cfg, res.phase, size)
        &&& forall|k: int| 0 < k < n && k % (drift_interval(n) as int) == 0
            && (res.adaptation_latency_ops matches Some(l) ==> k <= l) ==> #[trigger] probe_measured(states, ms, k)
        &&& res.adaptation_latency_ops == first_probe(#[trigger] reach_marks(ms), drift_interval(n) as int, n as int)
        &&& after.measures(res.metrics)
    }
}

/// Phase `i` of a drift run took the engine from `bounds[i]` to `bounds[i + 1]`.
pub open spec fn drift_phase_at<R: DatabaseRunner>(bounds: Seq<R>, results: Seq<DriftResult>, i: int, cfg: WorkloadConfig, size: usize, n: usize) -> bool {
    drift_phase_ran(bounds[i], bounds[i + 1], results[i], cfg, size, n)
}

/// The six drift phases once the load came back: nothing when it failed;
/// else, for each phase in turn, after resetting the metrics,
/// `ops_per_phase` generated operations over `dataset_size` users, probing
/// the factor utilisation at each positive multiple of the probe interval
/// until it reaches nine tenths, and measuring at the end.
pub fn drift_after_load<R: DatabaseRunner>(
    runner: &mut R,
    load: Result<(), anyhow::Error>,
    dataset_size: usize,
    ops_per_phase: usize,
    workload_config: &WorkloadConfig,
) -> (results: Vec<DriftResult>)
    ensures
        load is Err ==> results@.len() == 0,
        load is Ok ==> results@.len() == 6,
        forall|i: int| 0 <= i < results@.len() ==> {
            &&& (#[trigger] results@[i]).phase_index == i
            &&& drift_kind(results@[i].phase, i)
            &&& results@[i].adaptation_latency_ops matches Some(k) ==> 0 < k < ops_per_phase
                && k % drift_interval(ops_per_phase) == 0
            &&& exists|reached: Seq<bool>| reached.len() == ops_per_phase
                && results@[i].adaptation_latency_ops == #[trigger] first_probe(reached, drift_interval(ops_per_phase) as int, ops_per_phase as int)
        },
        exists|bounds: Seq<R>| #![trigger bounds.len()] {
            &&& bounds.len() == results@.len() + 1
            &&& bounds[0] == *old(runner)
            &&& bounds[results@.len() as int] == *final(runner)
            &&& forall|i: int| 0 <= i < results@.len() ==>
                #[trigger] drift_phase_at(bounds, results@, i, *workload_config, dataset_size, ops_per_phase)
        },
{
    let mut results: Vec<DriftResult> = Vec::new();
    let ghost mut bounds: Seq<R> = seq![*runner];
    if load.is_err() {
        proof {
            assert(bounds.len() == results@.len() + 1 && bounds[0] == *runner);
        }
        return results;
    }
    let schedule = drift_schedule();
    let interval: usize = if ops_per_phase >= 100_000 {
        100_000
    } else if ops_per_phase == 0 {
        1
    } else {
        ops_per_phase
    };
    for phase_index in 0..6
        invariant
            schedule@.len() == 6,
            schedule@[0] is IAM,
            schedule@[1] is Compliance,
            schedule@[2] is Tenant,
            schedule@[3] is IAM,
            schedule@[4] is Security,
            schedule@[5] is IAM,
            interval == drift_interval(ops_per_phase),
            results@.len() == phase_index,
            forall|i: int| 0 <= i < results@.len() ==> {
                &&& (#[trigger] results@[i]).phase_index == i
                &&& drift_kind(results@[i].phase, i)
                &&& results@[i].adaptation_latency_ops matches Some(k) ==> 0 < k < ops_per_phase
                    && k % drift_interval(ops_per_phase) == 0
                &&& exists|reached: Seq<bool>| reached.len() == ops_per_phase
                    && results@[i].adaptation_latency_ops == #[trigger] first_probe(reached, drift_interval(ops_per_phase) as int, ops_per_phase as int)
            },
            bounds.len() == results@.len() + 1,
            bounds[0] == *old(runner),
            bounds[results@.len() as int] == *runner,
            forall|i: int| 0 <= i < results@.len() ==>
                #[trigger] drift_phase_at(bounds, results@, i, *workload_config, dataset_size, ops_per_phase),
    {
        let ghost before_phase = *runner;
        runner.reset_metrics();
        let ghost mut states: Seq<R> = seq![*runner];
        let ghost mut ops: Seq<Operation> = Seq::empty();
        let ghost mut ms: Seq<EngineMetrics> = Seq::empty();
        let phase = schedule[phase_index].duplicate();
        let mut wl = WorkloadGenerator::new(*workload_config, schedule[phase_index].duplicate(), dataset_size);
        let mut adaptation_latency_ops: Option<usize> = None;
        let ghost mut reached: Seq<bool> = Seq::empty();
        for i in 0..ops_per_phase
            invariant
                interval == drift_interval(ops_per_phase),
                interval > 0,
                adaptation_latency_ops matches Some(k) ==> 0 < k < ops_per_phase && k % interval == 0,
                reached.len() == i,
                adaptation_latency_ops == first_probe(reached, interval as int, i as int),
                wl.config == *workload_config,
                wl.phase == phase,
                wl.dataset_size == dataset_size,
                ran_in_order(states, ops),
                ops.len() == i,
                ms.len() == i,
                reached == reach_marks(ms),
                adaptation_latency_ops matches Some(l) ==> l < i,
                ran_since(before_phase, states[0], Seq::empty()),
                states[i as int] == *runner,
                forall|k: int| 0 <= k < i ==> #[trigger] crate::workload::generated(ops[k], *workload_config, phase, dataset_size),
                forall|k: int| 0 < k < i && k % (interval as int) == 0
                    && (adaptation_latency_ops matches Some(l) ==> k <= l) ==> #[trigger] probe_measured(states, ms, k),
        {
            let op = wl.next_operation();
            let _ = runner.execute(&op);
            let ghost before = reached;
            proof {
                let s0 = states;
                let o0 = ops;
                lemma_ran_last(s0, o0);
                lemma_ran_one_more(s0, o0, *runner, op);
                states = states.push(*runner);
                ops = ops.push(op);
                assert forall|k: int| 0 <= k < i + 1 implies #[trigger] crate::workload::generated(ops[k], *workload_config, phase, dataset_size) by {
                    if k < i {
                        assert(ops[k] == o0[k]);
                    }
                }
                assert forall|k: int| 0 < k < i && k % (interval as int) == 0
                    && (adaptation_latency_ops matches Some(l) ==> k <= l) implies #[trigger] probe_measured(states, ms, k) by {
                    assert(probe_measured(s0, ms, k));
                    assert(states[k + 1] == s0[k + 1]);
                }
            }
            let ghost ms0 = ms;
            let ghost lat0 = adaptation_latency_ops;
            if drift_probe_due(i, interval, adaptation_latency_ops) {
                let m = runner.collect_metrics();
                proof {
                    reached = reached.push(reaches(m, 900_000));
                    ms = ms.push(m);
                }
                adaptation_latency_ops = drift_noted(adaptation_latency_ops, i, &m);
            } else {
                proof {
                    reached = reached.push(false);
                    ms = ms.push(unmeasured());
                }
            }
            proof {
                lemma_first_probe_prefix(before, reached, interval as int, i as int);
                assert(reached =~= reach_marks(ms));
                assert forall|k: int| 0 < k < i + 1 && k % (interval as int) == 0
                    && (adaptation_latency_ops matches Some(l) ==> k <= l) implies #[trigger] probe_measured(states, ms, k) by {
                    if k < i {
                        assert(ms[k] == ms0[k]);
                        if lat0 is Some {
                            assert(adaptation_latency_ops == lat0);
                        }
                        assert(probe_measured(states, ms0, k));
                    } else {
                        assert(lat0 is None);
                        assert(states[k + 1] == *runner);
                    }
                }
            }
        }
        let metrics = runner.collect_metrics();
        proof {
            assert(reached.len() == ops_per_phase);
        }
        let ghost rs0 = results@;
        results.push(DriftResult { phase_index, phase, metrics, adaptation_latency_ops });
        proof {
            let b0 = bounds;
            bounds = bounds.push(*runner);
            assert(drift_phase_ran(before_phase, *runner, results@[phase_index as int], *workload_config, dataset_size, ops_per_phase));
            assert forall|i: int| 0 <= i < results@.len() implies
                #[trigger] drift_phase_at(bounds, results@, i, *workload_config, dataset_size, ops_per_phase) by {
                if i < phase_index {
                    assert(drift_phase_at(b0, rs0, i, *workload_config, dataset_size, ops_per_phase));
                    assert(bounds[i] == b0[i] && bounds[i + 1] == b0[i + 1] && results@[i] == rs0[i]);
                }
            }
        }
    }
    results
}

/// The first of the positions `1 .. k` that is a multiple of `d` and whose
/// probe reached the threshold, as `reached` records it.
pub open spec fn first_probe(reached: Seq<bool>, d: int, k: int) -> Option<usize>
    decreases k,
{
    if k <= 0 {
        None
    } else {
        let prev = first_probe(reached, d, k - 1);
        let j = k - 1;
        if prev is None && j > 0 && j % d == 0 && reached[j] {
            Some(j as usize)
        } else {
            prev
        }
    }
}

/// The adaptation latency a run of probes gives is the first probe that
/// reached the threshold: `Some(k)` exactly when `k` is a probe position
/// below `n` (a positive multiple of `d`) whose probe reached it and no
/// earlier probe did; `None` exactly when no probe below `n` reached it.
pub proof fn law_first_probe_is_first(reached: Seq<bool>, d: int, n: int)
    requires
        0 <= n <= reached.len(),
        n <= usize::MAX,
    ensures
        first_probe(reached, d, n) matches Some(k) ==> {
            &&& 0 < k < n
            &&& (k as int) % d == 0
            &&& reached[k as int]
            &&& forall|j: int| 0 < j < k && j % d == 0 ==> !#[trigger] reached[j]
        },
        first_probe(reached, d, n) is None <==> forall|j: int| 0 < j < n && j % d == 0 ==> !#[trigger] reached[j],
    decreases n,
{
    if n > 0 {
        law_first_probe_is_first(reached, d, n - 1);
        let prev = first_probe(reached, d, n - 1);
        let j = n - 1;
        if prev is None && j > 0 && j % d == 0 && reached[j] {
            assert(first_probe(reached, d, n) == Some(j as usize));
        } else {
            assert(first_probe(reached, d, n) == prev);
            if prev is None {
                assert forall|i: int| 0 < i < n && i % d == 0 implies !#[trigger] reached[i] by {
                    if i < n - 1 {
                        assert(!reached[i]);
                    }
                }
            }
        }
    }
}

/// The first probe only looks at the positions before `k`.
proof fn lemma_first_probe_prefix(a: Seq<bool>, b: Seq<bool>, d: int, k: int)
    requires
        0 <= k <= a.len(),
        a.len() <= b.len(),
        forall|j: int| 0 <= j < a.len() ==> a[j] == b[j],
    ensures
        first_probe(a, d, k) == first_probe(b, d, k),
    decreases k,
{
    if k > 0 {
        lemma_first_probe_prefix(a, b, d, k - 1);
    }
}

/// Whether operation `i` of a drift phase is followed by a probe: at each
/// positive multiple of the interval, until the threshold was reached.
pub fn drift_probe_due(i: usize, interval: usize, latency: Option<usize>) -> (b: bool)
    requires
        interval > 0,
    ensures
        b == (i > 0 && i % interval == 0 && latency is None),
{
    i > 0 && i % interval == 0 && latency.is_none()
}

/// The adaptation latency after a probe at `i` measured `m`: `i` when this
/// is the first probe whose factor utilisation reached nine tenths.
pub fn drift_noted(latency: Option<usize>, i: usize, m: &EngineMetrics) -> (r: Option<usize>)
    ensures
        r == crate::orchestrate::noted(latency, reaches(*m, 900_000), i),
{
    if latency.is_none() && utilization_reached(m, 900_000) {
        Some(i)
    } else {
        latency
    }
}

/// Loads the users, then runs `total_ops` generated operations, moving to
/// the next of four phases every `phase_shift_interval` operations and
/// measuring after every positive multiple of `snapshot_interval` below
/// `total_ops`.  Nothing is run when the load fails.
pub fn run_long_term_evolution<R: DatabaseRunner>(
    runner: &mut R,
    users: &[User],
    total_ops: usize,
    snapshot_interval: usize,
    phase_shift_interval: usize,
    read_ratio: u64,
    write_ratio: u64,
) -> (snapshots: Vec<EvolutionSnapshot>)
    ensures
        forall|j: int| 0 <= j < snapshots@.len() ==> #[trigger] snapshots@[j].operations == (j + 1) * snapshot_interval
            && snapshots@[j].operations < total_ops,
        snapshots@.len() == 0 || (snapshots@.len() + 1) * snapshot_interval >= total_ops,
{
    let load = runner.load_data(users);
    evolve_after_load(runner, load, users.len(), total_ops, snapshot_interval, phase_shift_interval, read_ratio, write_ratio)
}

/// The phase of the long run at operation `k`: the next of IAM,
/// Compliance, Tenant and Security, in turn, every `shift` operations (IAM
/// throughout when `shift` is 0).
pub open spec fn evolution_phase(k: int, shift: int) -> Phase {
    let idx = if shift > 0 { (k / shift) % 4 } else { 0 };
    if idx == 0 {
        Phase::IAM
    } else if idx == 1 {
        Phase::Compliance
    } else if idx == 2 {
        Phase::Tenant
    } else {
        Phase::Security
    }
}

/// The workload of the long run: the read and write shares, no joins.
pub open spec fn evolution_config(read_ratio: u64, write_ratio: u64, total_ops: usize) -> WorkloadConfig {
    WorkloadConfig { read_ratio, write_ratio, join_ratio: 0, total_operations: total_ops, rng_seed: 0 }
}

/// The snapshot measures the engine as it was after its operation ran.
pub open spec fn snapshot_measured<R: DatabaseRunner>(states: Seq<R>, snap: EvolutionSnapshot) -> bool {
    states[snap.operations + 1].measures(snap.metrics)
}

/// Counting operations from 1, a multiple of `d` starts the next block of
/// `d`; any other position stays in the block of the one before.
proof fn lemma_block_step(i: int, d: int)
    requires
        d > 0,
        i > 0,
    ensures
        i % d == 0 ==> i / d == (i - 1) / d + 1,
        i % d != 0 ==> i / d == (i - 1) / d,
{
    vstd::arithmetic::div_mod::lemma_fundamental_div_mod(i, d);
    vstd::arithmetic::div_mod::lemma_mod_pos_bound(i, d);
    let q = i / d;
    let r = i % d;
    if r == 0 {
        assert(i - 1 == (q - 1) * d + (d - 1)) by (nonlinear_arith)
            requires i == d * q + r, r == 0;
        vstd::arithmetic::div_mod::lemma_fundamental_div_mod_converse(i - 1, d, q - 1, d - 1);
    } else {
        assert(i - 1 == q * d + (r - 1)) by (nonlinear_arith)
            requires i == d * q + r;
        vstd::arithmetic::div_mod::lemma_fundamental_div_mod_converse(i - 1, d, q, r - 1);
    }
}

/// The long run once the load came back: nothing when it failed; else
/// `total_ops` generated operations over `dataset_size` users, moving to
/// the next of four phases every `phase_shift_interval` operations and
/// measuring after each positive multiple of `snapshot_interval` below
/// `total_ops`, every one of them.
pub fn evolve_after_load<R: DatabaseRunner>(
    runner: &mut R,
    load: Result<(), anyhow::Error>,
    dataset_size: usize,
    total_ops: usize,
    snapshot_interval: usize,
    phase_shift_interval: usize,
    read_ratio: u64,
    write_ratio: u64,
) -> (snapshots: Vec<EvolutionSnapshot>)
    ensures
        load is Err ==> snapshots@.len() == 0,
        forall|j: int| 0 <= j < snapshots@.len() ==> #[trigger] snapshots@[j].operations == (j + 1) * snapshot_interval
            && snapshots@[j].operations < total_ops,
        load is Ok && snapshot_interval > 0 ==> (snapshots@.len() + 1) * snapshot_interval >= total_ops,
        snapshot_interval == 0 ==> snapshots@.len() == 0,
        load is Err ==> *final(runner) == *old(runner),
        load is Ok ==> exists|states: Seq<R>, ops: Seq<Operation>| {
            &&& #[trigger] ran_in_order(states, ops)
            &&& ops.len() == total_ops
            &&& states[0] == *old(runner)
            &&& states[total_ops as int] == *final(runner)
            &&& forall|k: int| 0 <= k < total_ops ==> #[trigger] crate::workload::generated(ops[k],
                evolution_config(read_ratio, write_ratio, total_ops), evolution_phase(k, phase_shift_interval as int), dataset_size)
            &&& forall|j: int| 0 <= j < snapshots@.len() ==> #[trigger] snapshot_measured(states, snapshots@[j])
        },
{
    let mut snapshots: Vec<EvolutionSnapshot> = Vec::new();
    if load.is_err() {
        return snapshots;
    }
    let ghost r0 = *runner;
    let ghost mut states: Seq<R> = seq![*runner];
    let ghost mut ops: Seq<Operation> = Seq::empty();
    let phases: Vec<Phase> = vec![Phase::IAM, Phase::Compliance, Phase::Tenant, Phase::Security];
    let wl_config = WorkloadConfig { read_ratio, write_ratio, join_ratio: 0, total_operations: total_ops, rng_seed: 0 };
    let mut phase_idx: usize = 0;
    let mut wl = WorkloadGenerator::new(wl_config, phases[0].duplicate(), dataset_size);
    proof {
        assert(wl_config == evolution_config(read_ratio, write_ratio, total_ops));
    }
    for i in 0..total_ops
        invariant
            phases@.len() == 4,
            phase_idx < 4,
            wl_config == evolution_config(read_ratio, write_ratio, total_ops),
            phases@[0] == Phase::IAM,
            phases@[1] == Phase::Compliance,
            phases@[2] == Phase::Tenant,
            phases@[3] == Phase::Security,
            wl.config == wl_config,
            wl.dataset_size == dataset_size,
            wl.phase == phases@[phase_idx as int],
            phase_shift_interval == 0 ==> phase_idx == 0,
            phase_shift_interval > 0 && i > 0 ==> phase_idx == ((i - 1) / (phase_shift_interval as int)) % 4,
            i == 0 ==> phase_idx == 0,
            ran_in_order(states, ops),
            ops.len() == i,
            states[0] == r0,
            states[i as int] == *runner,
            forall|k: int| 0 <= k < i ==> #[trigger] crate::workload::generated(ops[k],
                evolution_config(read_ratio, write_ratio, total_ops), evolution_phase(k, phase_shift_interval as int), dataset_size),
            forall|j: int| 0 <= j < snapshots@.len() ==> #[trigger] snapshot_measured(states, snapshots@[j]),
            forall|j: int| 0 <= j < snapshots@.len() ==> #[trigger] snapshots@[j].operations == (j + 1) * snapshot_interval
                && snapshots@[j].operations < i,
            snapshot_interval > 0 ==> snapshots@.len() * snapshot_interval < i || (i == 0 && snapshots@.len() == 0),
            snapshot_interval > 0 ==> (snapshots@.len() + 1) * snapshot_interval >= i,
            snapshot_interval == 0 ==> snapshots@.len() == 0,
    {
        if phase_shift_interval > 0 && i > 0 && i % phase_shift_interval == 0 {
            phase_idx = (phase_idx + 1) % 4;
            wl = WorkloadGenerator::new(wl_config, phases[phase_idx].duplicate(), dataset_size);
        }
        proof {
            if phase_shift_interval > 0 {
                if i > 0 {
                    lemma_block_step(i as int, phase_shift_interval as int);
                } else {
                    assert(0int / (phase_shift_interval as int) == 0) by (nonlinear_arith)
                        requires phase_shift_interval > 0;
                }
                assert(phase_idx == ((i as int) / (phase_shift_interval as int)) % 4);
            }
            assert(wl.phase == evolution_phase(i as int, phase_shift_interval as int));
        }
        let op = wl.next_operation();
        let _ = runner.execute(&op);
        proof {
            let s0 = states;
            let o0 = ops;
            lemma_ran_last(s0, o0);
            lemma_ran_one_more(s0, o0, *runner, op);
            states = states.push(*runner);
            ops = ops.push(op);
            assert forall|k: int| 0 <= k < i + 1 implies #[trigger] crate::workload::generated(ops[k],
                evolution_config(read_ratio, write_ratio, total_ops), evolution_phase(k, phase_shift_interval as int), dataset_size) by {
                if k < i {
                    assert(ops[k] == o0[k]);
                }
            }
            assert forall|j: int| 0 <= j < snapshots@.len() implies #[trigger] snapshot_measured(states, snapshots@[j]) by {
                assert(snapshot_measured(s0, snapshots@[j]));
                assert(snapshots@[j].operations < i);
                assert(states[snapshots@[j].operations + 1] == s0[snapshots@[j].operations + 1]);
            }
        }
        if snapshot_interval > 0 && i > 0 && i % snapshot_interval == 0 {
            let metrics = runner.collect_metrics();
            let ghost n = snapshots@.len();
            proof {
                lemma_next_multiple(i as int, snapshot_interval as int, n as int);
            }
            let ghost before = snapshots@;
            snapshots.push(EvolutionSnapshot { operations: i, metrics });
            proof {
                assert forall|j: int| 0 <= j < snapshots@.len() implies #[trigger] snapshot_measured(states, snapshots@[j]) by {
                    if j < n {
                        assert(snapshots@[j] == before[j]);
                    }
                }
                assert(snapshots@[n as int].operations == (n + 1) * snapshot_interval);
                assert((n + 1) * snapshot_interval < i + 1);
                assert((n + 2) * snapshot_interval >= i + 1) by (nonlinear_arith)
                    requires (n + 1) * snapshot_interval == i, snapshot_interval > 0;
            }
        } else {
            proof {
                if snapshot_interval > 0 {
                    let n = snapshots@.len() as int;
                    if i > 0 {
                        lemma_not_multiple(i as int, snapshot_interval as int, n);
                    } else {
                        assert((n + 1) * snapshot_interval >= 1) by (nonlinear_arith)
                            requires snapshot_interval > 0, n == 0;
                        assert(n * snapshot_interval < 1) by (nonlinear_arith)
                            requires n == 0;
                    }
                }
            }
        }
    }
    snapshots
}

/// A multiple of `d` past `n` multiples but not past `n + 1` is the
/// `n + 1`st.
proof fn lemma_next_multiple(i: int, d: int, n: int)
    requires
        d > 0,
        i > 0,
        i % d == 0,
        n >= 0,
        n * d < i,
        (n + 1) * d >= i,
    ensures
        i == (n + 1) * d,
{
    let q = i / d;
    assert(i == q * d) by (nonlinear_arith)
        requires d > 0, i % d == 0, q == i / d;
    assert(n < q) by (nonlinear_arith)
        requires n * d < q * d, d > 0;
    assert(q <= n + 1) by (nonlinear_arith)
        requires q * d <= (n + 1) * d, d > 0;
}

/// Below the `n + 1`st multiple of `d` stays a number that is no multiple.
proof fn lemma_not_multiple(i: int, d: int, n: int)
    requires
        d > 0,
        i > 0,
        i % d != 0,
        n >= 0,
        (n + 1) * d >= i,
    ensures
        (n + 1) * d >= i + 1,
{
    if (n + 1) * d == i {
        assert(i % d == 0) by (nonlinear_arith)
            requires (n + 1) * d == i, d > 0, n >= 0;
    }
}

/// The average fan-outs of the join explosion.
pub fn join_fanouts() -> (v: Vec<usize>)
    ensures
        v@ == seq![1usize, 5, 20, 100, 500],
{
    vec![1, 5, 20, 100, 500]
}

/// The results take their fan-outs from the positions `ix` of `fanouts`,
/// in increasing order of position.
pub open spec fn fanout_picks(ix: Seq<int>, results: Seq<JoinResult>, fanouts: Seq<usize>) -> bool {
    &&& ix.len() == results.len()
    &&& forall|j: int| 0 <= j < ix.len() ==> 0 <= #[trigger] ix[j] < fanouts.len()
        && results[j].avg_items_per_order == fanouts[ix[j]]
    &&& forall|j: int, k: int| 0 <= j < k < ix.len() ==> ix[j] < ix[k]
}

/// For each fan-out, after resetting the metrics: loads `orders` times the
/// fan-out users (at least one) and `products` permissions (at least one),
/// runs `orders` joins (at least one) of the users with the permissions on
/// the role, and measures.  One result per fan-out whose loads succeeded,
/// in the order of the fan-outs.
pub fn run_join_explosion<R: DatabaseRunner>(
    runner: &mut R,
    orders: usize,
    products: usize,
    fanouts: &[usize],
) -> (results: Vec<JoinResult>)
    requires
        forall|i: int| 0 <= i < fanouts@.len() ==> orders * #[trigger] fanouts@[i] <= usize::MAX,
    ensures
        exists|ix: Seq<int>| #[trigger] fanout_picks(ix, results@, fanouts@),
{
    let mut results: Vec<JoinResult> = Vec::new();
    let ghost mut ix: Seq<int> = Seq::empty();
    let config = CorrelationConfig::default();
    for f in 0..fanouts.len()
        invariant
            forall|i: int| 0 <= i < fanouts@.len() ==> orders * #[trigger] fanouts@[i] <= usize::MAX,
            ix.len() == results@.len(),
            forall|j: int| 0 <= j < ix.len() ==> 0 <= #[trigger] ix[j] < f
                && results@[j].avg_items_per_order == fanouts@[ix[j]],
            forall|j: int, k: int| 0 <= j < k < ix.len() ==> ix[j] < ix[k],
    {
        let fanout = fanouts[f];
        runner.reset_metrics();
        proof {
            assert(orders * fanouts@[f as int] <= usize::MAX);
        }
        let rows = orders * fanout;
        let total_rows: usize = if rows == 0 { 1 } else { rows };
        let users = generate_users(total_rows, &config);
        if runner.load_data(users.as_slice()).is_ok() {
            let perm_count: usize = if products == 0 { 1 } else { products };
            let perm_users = generate_users(perm_count, &config);
            if runner.load_table("permissions", perm_users.as_slice()).is_ok() {
                let join_count: usize = if orders == 0 { 1 } else { orders };
                for _j in 0..join_count {
                    let op = join_operation();
                    let _ = runner.execute(&op);
                }
                let metrics = runner.collect_metrics();
                let runner_name = runner.name().to_owned();
                results.push(JoinResult { avg_items_per_order: fanout, runner_name, metrics });
                proof {
                    ix = ix.push(f as int);
                }
            }
        }
    }
    proof {
        assert(fanout_picks(ix, results@, fanouts@));
    }
    results
}

/// Two latencies, each counted as at least one microsecond, differ by more
/// than a factor of ten.
pub open spec fn diverges(a: u128, b: u128) -> bool {
    let x = if a == 0 { 1 } else { a as int };
    let y = if b == 0 { 1 } else { b as int };
    x * 10 < y || y * 10 < x
}

/// Whether two latencies in microseconds differ by more than a factor of
/// ten (see `diverges`).
pub fn latencies_diverge(a: u128, b: u128) -> (r: bool)
    ensures
        r == diverges(a, b),
{
    let x: u128 = if a == 0 { 1 } else { a };
    let y: u128 = if b == 0 { 1 } else { b };
    proof {
        assert(x * 10 < y <==> x <= (y - 1) / 10) by (nonlinear_arith)
            requires y >= 1, x >= 1;
        assert(y * 10 < x <==> y <= (x - 1) / 10) by (nonlinear_arith)
            requires y >= 1, x >= 1;
    }
    x <= (y - 1) / 10 || y <= (x - 1) / 10
}

/// The outcomes of one operation on the two engines disagree: exactly one
/// failed, or both succeeded with latencies more than ten times apart (see
/// `diverges`).
pub open spec fn is_mismatch(gt: Result<OpResult, anyhow::Error>, ca: Result<OpResult, anyhow::Error>) -> bool {
    match (gt, ca) {
        (Ok(g), Ok(c)) => diverges(g.latency_us as u128, c.latency_us as u128),
        (Ok(_), Err(_)) => true,
        (Err(_), Ok(_)) => true,
        (Err(_), Err(_)) => false,
    }
}

/// How many of the outcome pairs disagree (see `is_mismatch`).
pub open spec fn mismatch_count(outcomes: Seq<(Result<OpResult, anyhow::Error>, Result<OpResult, anyhow::Error>)>) -> nat
    decreases outcomes.len(),
{
    if outcomes.len() == 0 {
        0
    } else {
        mismatch_count(outcomes.drop_last()) + if is_mismatch(outcomes.last().0, outcomes.last().1) { 1nat } else { 0nat }
    }
}

/// Whether the outcomes of one operation on the two engines disagree (see
/// `is_mismatch`).
pub fn operation_mismatch(gt: &Result<OpResult, anyhow::Error>, ca: &Result<OpResult, anyhow::Error>) -> (b: bool)
    ensures
        b == is_mismatch(*gt, *ca),
{
    match (gt, ca) {
        (Ok(g), Ok(c)) => latencies_diverge(g.latency_us as u128, c.latency_us as u128),
        (Ok(_), Err(_)) => true,
        (Err(_), Ok(_)) => true,
        (Err(_), Err(_)) => false,
    }
}

/// Runs the operations on both engines after loading the users into each,
/// and counts the operations whose two outcomes disagree (see
/// `is_mismatch`).
pub fn cross_validate<G: DatabaseRunner, C: DatabaseRunner>(
    ground_truth: &mut G,
    candidate: &mut C,
    users: &[User],
    ops: &[Operation],
) -> (report: ValidationReport)
    ensures
        report.total_ops == ops@.len(),
        exists|outcomes: Seq<(Result<OpResult, anyhow::Error>, Result<OpResult, anyhow::Error>)>|
            outcomes.len() == ops@.len() && report.mismatches == #[trigger] mismatch_count(outcomes),
        report.mismatches <= report.total_ops,
{
    let _ = ground_truth.load_data(users);
    let _ = candidate.load_data(users);
    let outcomes = run_on_both(ground_truth, candidate, ops);
    validation_report(&outcomes)
}

/// Runs each operation in turn on the ground truth, then on the candidate,
/// and keeps both outcomes of each.
pub fn run_on_both<G: DatabaseRunner, C: DatabaseRunner>(
    ground_truth: &mut G,
    candidate: &mut C,
    ops: &[Operation],
) -> (outcomes: Vec<(Result<OpResult, anyhow::Error>, Result<OpResult, anyhow::Error>)>)
    ensures
        outcomes@.len() == ops@.len(),
{
    let mut outcomes: Vec<(Result<OpResult, anyhow::Error>, Result<OpResult, anyhow::Error>)> = Vec::new();
    for i in 0..ops.len()
        invariant
            outcomes@.len() == i,
    {
        let gt_result = ground_truth.execute(&ops[i]);
        let ca_result = candidate.execute(&ops[i]);
        outcomes.push((gt_result, ca_result));
    }
    outcomes
}

/// How many of the outcome pairs disagree (see `is_mismatch`).
pub fn count_mismatches(outcomes: &Vec<(Result<OpResult, anyhow::Error>, Result<OpResult, anyhow::Error>)>) -> (n: usize)
    ensures
        n == mismatch_count(outcomes@),
        n <= outcomes@.len(),
{
    let mut n: usize = 0;
    for i in 0..outcomes.len()
        invariant
            n <= i,
            n == mismatch_count(outcomes@.take(i as int)),
    {
        proof {
            assert(outcomes@.take(i + 1).drop_last() =~= outcomes@.take(i as int));
        }
        if operation_mismatch(&outcomes[i].0, &outcomes[i].1) {
            n = n + 1;
        }
    }
    proof {
        assert(outcomes@.take(outcomes@.len() as int) =~= outcomes@);
    }
    n
}

/// The report over the outcome pairs of a validation: one operation per
/// pair, and the pairs that disagree counted (see `is_mismatch`).
pub fn validation_report(outcomes: &Vec<(Result<OpResult, anyhow::Error>, Result<OpResult, anyhow::Error>)>) -> (report: ValidationReport)
    ensures
        report.total_ops == outcomes@.len(),
        report.mismatches == mismatch_count(outcomes@),
        report.mismatches <= report.total_ops,
{
    ValidationReport { total_ops: outcomes.len(), mismatches: count_mismatches(outcomes) }
}

} // verus!
