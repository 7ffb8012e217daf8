use vstd::prelude::*;

verus! {

/// The scales of the scaling ladder.
pub open spec fn ladder() -> Seq<usize> {
    seq![1_000usize, 5_000, 10_000, 50_000, 100_000]
}

/// The ladder scales not above `max_scale`, in order.
pub open spec fn ladder_upto(max_scale: usize) -> Seq<usize> {
    ladder().filter(|s: usize| s <= max_scale)
}

/// The scales a scaling run visits: the ladder scales up to `max_scale`,
/// then `max_scale` itself unless it is the last of them; nothing for 0.
pub open spec fn scales_spec(max_scale: usize) -> Seq<usize> {
    let l = ladder_upto(max_scale);
    if max_scale == 0 {
        Seq::empty()
    } else if l.len() > 0 && l.last() == max_scale {
        l
    } else {
        l.push(max_scale)
    }
}

/// The scales a scaling run visits (see `scales_spec`): increasing, each
/// positive and at most `max_scale`, ending at `max_scale`.
pub fn scales_up_to(max_scale: usize) -> (v: Vec<usize>)
    ensures
        v@ == scales_spec(max_scale),
{
    let ladder_steps: [usize; 5] = [1_000usize, 5_000, 10_000, 50_000, 100_000];
    let mut scales: Vec<usize> = Vec::new();
    let ghost lad = ladder();
    proof {
        reveal(Seq::filter);
        assert(lad.take(0) =~= Seq::<usize>::empty());
        assert(ladder_steps@ =~= lad);
    }
    for i in 0..5
        invariant
            ladder_steps@ == lad,
            lad == ladder(),
            scales@ == lad.take(i as int).filter(|s: usize| s <= max_scale),
    {
        proof {
            reveal(Seq::filter);
            assert(lad.take(i + 1).drop_last() =~= lad.take(i as int));
            assert(lad.take(i + 1).last() == lad[i as int]);
        }
        let s = ladder_steps[i];
        if s <= max_scale {
            scales.push(s);
        }
    }
    proof {
        assert(lad.take(5) =~= lad);
        assert(scales@ == ladder_upto(max_scale));
    }
    let n = scales.len();
    if n == 0 || scales[n - 1] != max_scale {
        scales.push(max_scale);
    }
    if max_scale == 0 {
        proof {
            reveal(Seq::filter);
            reveal_with_fuel(Seq::filter, 6);
            assert(ladder_upto(0) =~= Seq::<usize>::empty());
        }
        return Vec::new();
    }
    scales
}

/// The sum of the first `n` weights.
pub open spec fn weight_prefix(w: Seq<u32>, n: int) -> int
    decreases n,
{
    if n <= 0 {
        0
    } else {
        weight_prefix(w, n - 1) + w[n - 1]
    }
}

/// Picks the template whose cumulative weight range holds `pick`: the first
/// `i` with `pick` below the sum of the first `i + 1` weights; none when
/// `pick` is at least the sum of all weights.
pub fn pick_template(weights: &Vec<u32>, pick: u32) -> (r: Option<usize>)
    requires
        weight_prefix(weights@, weights@.len() as int) <= u32::MAX,
    ensures
        match r {
            Some(i) => i < weights@.len() && pick < weight_prefix(weights@, i + 1) && pick >= weight_prefix(weights@, i as int),
            None => pick >= weight_prefix(weights@, weights@.len() as int),
        },
{
    let mut cumulative: u32 = 0;
    let n = weights.len();
    let mut i: usize = 0;
    while i < n
        invariant
            n == weights@.len(),
            i <= n,
            cumulative == weight_prefix(weights@, i as int),
            pick >= cumulative,
            weight_prefix(weights@, n as int) <= u32::MAX,
        decreases n - i,
    {
        proof {
            lemma_weight_prefix_mono(weights@, i + 1, n as int);
        }
        cumulative = cumulative + weights[i];
        if pick < cumulative {
            return Some(i);
        }
        i = i + 1;
    }
    None
}

pub proof fn lemma_weight_prefix_mono(w: Seq<u32>, a: int, b: int)
    requires
        0 <= a <= b <= w.len(),
    ensures
        weight_prefix(w, a) <= weight_prefix(w, b),
    decreases b - a,
{
    if a < b {
        lemma_weight_prefix_mono(w, a, b - 1);
    }
}

} // verus!
