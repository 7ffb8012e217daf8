use std::time::Duration;
use vstd::prelude::*;

verus! {

/// Latency samples in microseconds, in the order they were recorded.
pub struct LatencyHistogram {
    pub samples: Vec<u64>,
}

/// `Duration::as_micros`: the whole microseconds of the duration.  The
/// duration is opaque here, so the value is not stated.
#[verifier::external_body]
pub(crate) fn duration_micros(d: &Duration) -> (us: u128) {
    d.as_micros()
}

/// The samples are in ascending order.
pub open spec fn ascending(s: Seq<u64>) -> bool {
    forall|i: int, j: int| 0 <= i <= j < s.len() ==> s[i] <= s[j]
}

/// The position of the `p`th percentile among `n` sorted samples: `p` / 100
/// of `n - 1`, rounded half up, and at most the last position.
pub open spec fn percentile_index(p: int, n: int) -> int {
    let r = (p * (n - 1) + 50) / 100;
    if r < n - 1 { r } else { n - 1 }
}

pub(crate) proof fn lemma_percentile_index(p: int, n: int)
    requires
        0 <= p,
        n > 0,
    ensures
        0 <= percentile_index(p, n) < n,
{
    assert(0 <= (p * (n - 1) + 50) / 100) by (nonlinear_arith)
        requires 0 <= p, n > 0;
}

/// A higher percentile sits no earlier.
pub(crate) proof fn lemma_percentile_index_mono(p: int, q: int, n: int)
    requires
        0 <= p <= q,
        n > 0,
    ensures
        percentile_index(p, n) <= percentile_index(q, n),
{
    assert((p * (n - 1) + 50) / 100 <= (q * (n - 1) + 50) / 100) by (nonlinear_arith)
        requires 0 <= p <= q, n > 0;
}

/// `slice::sort_unstable`: sorts the samples in ascending order; the same
/// values stay, each as often as before.
#[verifier::external_body]
fn sort_ascending(v: &mut Vec<u64>)
    ensures
        final(v)@.to_multiset() == old(v)@.to_multiset(),
        final(v)@.len() == old(v)@.len(),
        ascending(final(v)@),
{
    v.sort_unstable();
}

impl LatencyHistogram {
    pub fn new() -> (h: Self)
        ensures
            h.samples@ == Seq::<u64>::empty(),
    {
        LatencyHistogram { samples: Vec::new() }
    }

    /// Records one latency, in whole microseconds (the low 64 bits).
    pub fn record(&mut self, d: Duration)
        ensures
            final(self).samples@.len() == old(self).samples@.len() + 1,
            final(self).samples@.drop_last() == old(self).samples@,
    {
        let us = duration_micros(&d);
        self.record_micros(#[verifier::truncate] (us as u64));
    }

    /// Records one latency given in microseconds.
    pub fn record_micros(&mut self, us: u64)
        ensures
            final(self).samples@ == old(self).samples@.push(us),
    {
        self.samples.push(us);
    }

    /// The number of samples.
    /// The `p`th percentile in microseconds (`p` in percent): the sample at
    /// the rounded position `p` / 100 of the way through the samples (the
    /// last one for `p` above 100), which are left sorted; 0 when there are
    /// none.
    pub fn percentile(&mut self, p: u64) -> (r: u64)
        ensures
            final(self).samples@.to_multiset() == old(self).samples@.to_multiset(),
            final(self).samples@.len() == old(self).samples@.len(),
            old(self).samples@.len() == 0 ==> r == 0 && final(self).samples@ == old(self).samples@,
            old(self).samples@.len() > 0 ==> {
                &&& ascending(final(self).samples@)
                &&& r == final(self).samples@[percentile_index(p as int, old(self).samples@.len() as int)]
            },
    {
        let n = self.samples.len();
        if n == 0 {
            return 0;
        }
        sort_ascending(&mut self.samples);
        proof {
            self.samples@.to_multiset_ensures();
            old(self).samples@.to_multiset_ensures();
            assert(self.samples@.len() == n);
            lemma_percentile_index(p as int, n as int);
        }
        proof {
            assert(p * (n - 1) <= u64::MAX * u64::MAX) by (nonlinear_arith)
                requires p <= u64::MAX, 0 <= n - 1 <= u64::MAX;
        }
        let r: u128 = (p as u128 * (n - 1) as u128 + 50) / 100;
        let idx: usize = if r < (n - 1) as u128 { r as usize } else { n - 1 };
        self.samples[idx]
    }

    pub fn count(&self) -> (n: usize)
        ensures
            n == self.samples@.len(),
    {
        self.samples.len()
    }
}

/// Update-amplification tracker: writes and the nodes they touched.
pub struct UafTracker {
    pub total_updates: usize,
    pub total_nodes_touched: usize,
}

impl UafTracker {
    pub fn new() -> (t: Self)
        ensures
            t.total_updates == 0,
            t.total_nodes_touched == 0,
    {
        UafTracker { total_updates: 0, total_nodes_touched: 0 }
    }

    /// Counts one write that touched `nodes_touched` nodes.
    pub fn record_update(&mut self, nodes_touched: usize)
        requires
            old(self).total_updates < usize::MAX,
            old(self).total_nodes_touched + nodes_touched <= usize::MAX,
        ensures
            final(self).total_updates == old(self).total_updates + 1,
            final(self).total_nodes_touched == old(self).total_nodes_touched + nodes_touched,
    {
        self.total_updates = self.total_updates + 1;
        self.total_nodes_touched = self.total_nodes_touched + nodes_touched;
    }

    pub fn reset(&mut self)
        ensures
            final(self).total_updates == 0,
            final(self).total_nodes_touched == 0,
    {
        self.total_updates = 0;
        self.total_nodes_touched = 0;
    }
}

/// The outcome of executing one operation.
pub struct OpResult {
    pub latency: Duration,
    /// The latency in whole microseconds.
    pub latency_us: u64,
    pub nodes_touched: usize,
}

} // verus!
