use vstd::prelude::*;

verus! {

/// `c` advanced by `n` steps of a 64-bit counter that wraps around.
pub open spec fn advance(c: u64, n: nat) -> u64 {
    ((c as int + n) % 0x1_0000_0000_0000_0000) as u64
}

pub proof fn lemma_advance_zero(c: u64)
    ensures
        advance(c, 0) == c,
{
    assert((c as int + 0) % 0x1_0000_0000_0000_0000 == c as int) by (nonlinear_arith)
        requires 0 <= c < 0x1_0000_0000_0000_0000;
}

pub proof fn lemma_advance_step(c: u64, n: nat)
    ensures
        advance(c, n + 1) == advance(c, n).wrapping_add(1),
{
    let m: int = 0x1_0000_0000_0000_0000;
    let a = (c as int + n) % m;
    assert(0 <= a < m);
    assert((c as int + n + 1) % m == (a + 1) % m) by {
        vstd::arithmetic::div_mod::lemma_add_mod_noop(c as int + n, 1, m);
        assert(1int % m == 1);
        assert(((c as int + n) % m + 1) % m == (a + 1) % m);
    }
    if a + 1 == m {
        assert((a + 1) % m == 0);
    } else {
        assert((a + 1) % m == a + 1) by {
            vstd::arithmetic::div_mod::lemma_small_mod((a + 1) as nat, m as nat);
        }
    }
}

/// The wrapping difference between a counter advanced by `n` and the
/// counter itself is `n` taken modulo 2^64.
pub proof fn lemma_advance_diff(c: u64, n: nat)
    ensures
        (if advance(c, n) >= c { advance(c, n) - c } else { advance(c, n) - c + 0x1_0000_0000_0000_0000 }) == advance(0, n),
{
    let m: int = 0x1_0000_0000_0000_0000;
    let r = (n as int) % m;
    vstd::arithmetic::div_mod::lemma_add_mod_noop(c as int, n as int, m);
    vstd::arithmetic::div_mod::lemma_small_mod(c as nat, m as nat);
    assert(0 <= r < m);
    assert((0 + n as int) % m == r);
    let a = (c as int + n) % m;
    assert(a == (c as int + r) % m);
    if c as int + r < m {
        vstd::arithmetic::div_mod::lemma_small_mod((c as int + r) as nat, m as nat);
    } else {
        vstd::arithmetic::div_mod::lemma_mod_sub_multiples_vanish(c as int + r, m);
        assert(((c as int + r) - m) % m == a);
        vstd::arithmetic::div_mod::lemma_small_mod((c as int + r - m) as nat, m as nat);
    }
}

/// Counters for factor-native execution and incremental maintenance.  Each
/// counter wraps around at 2^64.
pub struct Metrics {
    pub total_queries: u64,
    pub query_factor_ops: u64,
    pub write_factor_ops: u64,
    pub row_ops: u64,
    pub write_propagation_nodes: u64,
    pub objects_updated: u64,
    pub join_fallbacks: u64,
}

impl Metrics {
    /// All counters at zero.
    pub open spec fn zeroed() -> Metrics {
        Metrics {
            total_queries: 0,
            query_factor_ops: 0,
            write_factor_ops: 0,
            row_ops: 0,
            write_propagation_nodes: 0,
            objects_updated: 0,
            join_fallbacks: 0,
        }
    }

    pub fn new() -> (m: Self)
        ensures
            m == Metrics::zeroed(),
            m.total_queries == 0,
            m.query_factor_ops == 0,
            m.write_factor_ops == 0,
            m.row_ops == 0,
            m.write_propagation_nodes == 0,
            m.objects_updated == 0,
            m.join_fallbacks == 0,
    {
        Metrics {
            total_queries: 0,
            query_factor_ops: 0,
            write_factor_ops: 0,
            row_ops: 0,
            write_propagation_nodes: 0,
            objects_updated: 0,
            join_fallbacks: 0,
        }
    }

    /// Sets every counter back to zero.
    pub fn reset(&mut self)
        ensures
            *final(self) == Metrics::zeroed(),
            final(self).total_queries == 0,
            final(self).query_factor_ops == 0,
            final(self).write_factor_ops == 0,
            final(self).row_ops == 0,
            final(self).write_propagation_nodes == 0,
            final(self).objects_updated == 0,
            final(self).join_fallbacks == 0,
    {
        self.total_queries = 0;
        self.query_factor_ops = 0;
        self.write_factor_ops = 0;
        self.row_ops = 0;
        self.write_propagation_nodes = 0;
        self.objects_updated = 0;
        self.join_fallbacks = 0;
    }
}

} // verus!
