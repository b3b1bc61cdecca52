//! Choosing among retained sets by how far each deviates.

use crate::keep_sets::KeepSets;
use crate::score_bits::{order_of, spec_order};
use crate::window::{Geom, HostLayers};
use crate::window_pass::{Metric, MetricError};
use vstd::prelude::*;

verus! {

/// The first set from `j` on that retains what set `i` retains.
pub open spec fn first_like(pool: Seq<KeepSets>, i: int, j: int) -> int
    decreases i - j,
{
    if j >= i || pool[j]@ == pool[i]@ {
        j
    } else {
        first_like(pool, i, j + 1)
    }
}

/// The first set that retains what set `i` retains.
pub open spec fn leader(pool: Seq<KeepSets>, i: int) -> int {
    first_like(pool, i, 0)
}

/// These are the scores of the leading sets: each set that is the first of its kind was measured,
/// and the others have the score of the first.
pub open spec fn scored<M: Metric>(
    metric: &M,
    src: HostLayers,
    g: Geom,
    pool: Seq<KeepSets>,
    scores: Seq<u32>,
) -> bool {
    forall|i: int|
        0 <= i < scores.len() ==> {
            &&& #[trigger] scores[i] == scores[leader(pool, i)]
            &&& leader(pool, i) == i ==> call_ensures(
                M::score,
                (metric, &src, &pool[i], &g),
                Ok(scores[i]),
            )
        }
}

/// How many of the leading sets retain what an earlier one retains.
pub open spec fn folds(pool: Seq<KeepSets>, n: nat) -> nat
    decreases n,
{
    if n == 0 {
        0
    } else {
        folds(pool, (n - 1) as nat) + if leader(pool, n - 1) < n - 1 {
            1nat
        } else {
            0nat
        }
    }
}

/// The first of the smallest scores.
pub open spec fn smallest(scores: Seq<u32>, w: int) -> bool {
    &&& 0 <= w < scores.len()
    &&& forall|i: int| 0 <= i < scores.len() ==> spec_order(scores[w]) <= spec_order(#[trigger] scores[i])
    &&& forall|i: int| 0 <= i < w ==> spec_order(scores[w]) < spec_order(#[trigger] scores[i])
}

/// How many layers were attended to: those of the reference and of each set that was measured. A
/// count that does not fit stands at the machine's maximum.
pub open spec fn attended(pool: nat, folded: nat, n_layers: nat) -> nat {
    let n = (pool + 1 - folded) * n_layers;
    if n <= usize::MAX {
        n as nat
    } else {
        usize::MAX as nat
    }
}

/// A choice among sets.
pub struct Decision {
    /// Each set's score.
    pub scores: Vec<u32>,
    /// The set with the smallest score, the first of them.
    pub winner: usize,
    /// Sets that retain what an earlier one retains, and were not measured again.
    pub folded: usize,
    /// Layers attended to.
    pub attend_n: usize,
}

/// The choice is made by these scores.
pub open spec fn decision_of(pool: Seq<KeepSets>, g: Geom, d: Decision) -> bool {
    &&& d.scores@.len() == pool.len()
    &&& smallest(d.scores@, d.winner as int)
    &&& d.folded == folds(pool, pool.len())
    &&& d.attend_n == attended(pool.len(), d.folded as nat, g.n_layers as nat)
}

/// What choosing came to: a choice, or the first measurement's failure.
pub open spec fn decided<M: Metric>(
    metric: &M,
    src: HostLayers,
    g: Geom,
    pool: Seq<KeepSets>,
    r: Result<Decision, MetricError>,
) -> bool {
    match r {
        Ok(d) => scored(metric, src, g, pool, d.scores@) && decision_of(pool, g, d),
        Err(e) => exists|before: Seq<u32>|
            before.len() < pool.len() && #[trigger] scored(metric, src, g, pool, before) && leader(
                pool,
                before.len() as int,
            ) == before.len() && call_ensures(
                M::score,
                (metric, &src, &pool[before.len() as int], &g),
                Err(e),
            ),
    }
}

/// The first set that retains what set `i` retains.
fn find_leader(pool: &Vec<KeepSets>, i: usize) -> (j: usize)
    requires
        i < pool@.len(),
    ensures
        j == leader(pool@, i as int),
        j <= i,
{
    let mut j: usize = 0;
    while j < i
        invariant
            j <= i,
            i < pool@.len(),
            leader(pool@, i as int) == first_like(pool@, i as int, j as int),
        decreases i - j,
    {
        if pool[j].same_as(&pool[i]) {
            return j;
        }
        j = j + 1;
    }
    j
}

/// Where a set's kind comes first is where that set's own kind comes first.
proof fn lemma_leader_bounds(pool: Seq<KeepSets>, i: int, j: int)
    requires
        0 <= j <= i,
    ensures
        j <= first_like(pool, i, j) <= i,
        first_like(pool, i, j) < i ==> pool[first_like(pool, i, j)]@ == pool[i]@,
        forall|k: int| j <= k < first_like(pool, i, j) ==> #[trigger] pool[k]@ != pool[i]@,
    decreases i - j,
{
    if j < i && pool[j]@ != pool[i]@ {
        lemma_leader_bounds(pool, i, j + 1);
    }
}

/// Sets that retain the same have the same score, bit for bit.
pub proof fn lemma_equal_sets_score_alike<M: Metric>(
    metric: &M,
    src: HostLayers,
    g: Geom,
    pool: Seq<KeepSets>,
    scores: Seq<u32>,
    a: int,
    b: int,
)
    requires
        scored(metric, src, g, pool, scores),
        0 <= a < scores.len(),
        0 <= b < scores.len(),
        pool[a]@ == pool[b]@,
    ensures
        scores[a] == scores[b],
{
    lemma_leader_bounds(pool, a, 0);
    lemma_leader_bounds(pool, b, 0);
    let la = leader(pool, a);
    let lb = leader(pool, b);
    if la < lb {
        assert(pool[la]@ == pool[b]@);
        assert(false);
    }
    if lb < la {
        assert(pool[lb]@ == pool[a]@);
        assert(false);
    }
    assert(scores[a] == scores[la] && scores[b] == scores[lb]);
}

/// No set scores below the winner, and none before it as low.
pub proof fn lemma_winner_is_first_smallest(pool: Seq<KeepSets>, g: Geom, d: Decision, i: int)
    requires
        decision_of(pool, g, d),
        0 <= i < pool.len(),
    ensures
        spec_order(d.scores@[d.winner as int]) <= spec_order(d.scores@[i]),
        i < d.winner ==> spec_order(d.scores@[d.winner as int]) < spec_order(d.scores@[i]),
{
    let s = d.scores@[i];
}

/// Measures the sets and picks the one that deviates least. A set that retains what an earlier one
/// retains is not measured again.
pub fn decide<M: Metric>(metric: &M, src: &HostLayers, pool: &Vec<KeepSets>, g: &Geom) -> (r: Result<
    Decision,
    MetricError,
>)
    requires
        pool@.len() > 0,
    ensures
        decided(metric, *src, *g, pool@, r),
{
    let mut scores: Vec<u32> = Vec::new();
    let mut folded: usize = 0;
    let mut winner: usize = 0;
    let mut i: usize = 0;
    while i < pool.len()
        invariant
            i <= pool@.len(),
            scores@.len() == i,
            folded <= i,
            i > 0 ==> folded < i,
            folded == folds(pool@, i as nat),
            scored(metric, *src, *g, pool@, scores@),
            i > 0 ==> smallest(scores@, winner as int),
            i == 0 ==> winner == 0,
        decreases pool@.len() - i,
    {
        let ghost before = scores@;
        let j: usize = find_leader(pool, i);
        let score: u32 = if j < i {
            folded = folded + 1;
            scores[j]
        } else {
            let answer = metric.score(src, &pool[i], g);
            assert(call_ensures(M::score, (metric, src, &pool@[i as int], g), answer));
            match answer {
                Ok(score) => score,
                Err(e) => {
                    return Err(e);
                },
            }
        };
        scores.push(score);
        proof {
            assert forall|k: int| 0 <= k < i + 1 implies {
                &&& #[trigger] scores@[k] == scores@[leader(pool@, k)]
                &&& leader(pool@, k) == k ==> call_ensures(
                    M::score,
                    (metric, src, &pool@[k], g),
                    Ok(scores@[k]),
                )
            } by {
                lemma_leader_bounds(pool@, k, 0);
                if k < i {
                    assert(before[k] == before[leader(pool@, k)]);
                    assert(scores@[k] == before[k]);
                    assert(scores@[leader(pool@, k)] == before[leader(pool@, k)]);
                }
            }
        }
        if i > 0 {
            if order_of(score) < order_of(scores[winner]) {
                winner = i;
            }
        }
        proof {
            assert forall|k: int| 0 <= k < i + 1 implies spec_order(scores@[winner as int])
                <= spec_order(#[trigger] scores@[k]) by {
                if k < i {
                    assert(scores@[k] == before[k]);
                }
            }
            assert forall|k: int| 0 <= k < winner implies spec_order(scores@[winner as int])
                < spec_order(#[trigger] scores@[k]) by {
                if k < i {
                    assert(scores@[k] == before[k]);
                }
            }
        }
        i = i + 1;
    }
    assert(pool@.len() == pool.len());
    let measured: usize = pool.len() - folded;
    let attend_n: usize = match measured.checked_add(1) {
        Some(n) => match n.checked_mul(g.n_layers) {
            Some(n) => n,
            None => usize::MAX,
        },
        None => if g.n_layers == 0 {
            0
        } else {
            usize::MAX
        },
    };
    proof {
        let m = pool@.len() + 1 - folded;
        assert(g.n_layers > 0 && m > usize::MAX ==> m * g.n_layers > usize::MAX) by (nonlinear_arith);
        assert(g.n_layers == 0 ==> m * g.n_layers == 0) by (nonlinear_arith);
    }
    Ok(Decision { scores, winner, folded, attend_n })
}

/// Every set has the score that the metric gave for what it retains: for the set itself, or for an
/// earlier one that retains the same. Only the first of its kind is measured; the others are counted
/// as folded. The winner's is the least score, and the first as low.
pub proof fn lemma_scores_are_the_metrics<M: Metric>(
    metric: &M,
    src: HostLayers,
    g: Geom,
    pool: Seq<KeepSets>,
    d: Decision,
    i: int,
)
    requires
        decided(metric, src, g, pool, Ok(d)),
        0 <= i < pool.len(),
    ensures
        d.scores@.len() == pool.len(),
        d.winner < pool.len(),
        exists|k: int|
            {
                &&& 0 <= k <= i
                &&& pool[k]@ == pool[i]@
                &&& #[trigger] call_ensures(
                    M::score,
                    (metric, &src, &pool[k], &g),
                    Ok(d.scores@[i]),
                )
                &&& forall|x: int| 0 <= x < k ==> (#[trigger] pool[x])@ != pool[i]@
            },
        spec_order(d.scores@[d.winner as int]) <= spec_order(d.scores@[i]),
        i < d.winner ==> spec_order(d.scores@[d.winner as int]) < spec_order(d.scores@[i]),
        (forall|x: int, y: int|
            0 <= x < y < pool.len() ==> (#[trigger] pool[x])@ != (#[trigger] pool[y])@)
            ==> d.folded == 0,
        d.folded < pool.len(),
        d.attend_n <= (pool.len() + 1 - d.folded) * g.n_layers,
        (pool.len() + 1 - d.folded) * g.n_layers <= usize::MAX ==> d.attend_n == (pool.len() + 1
            - d.folded) * g.n_layers,
{
    lemma_leader_bounds(pool, i, 0);
    let k = leader(pool, i);
    lemma_leader_bounds(pool, k, 0);
    assert(d.scores@[i] == d.scores@[k]);
    if leader(pool, k) < k {
        assert(pool[leader(pool, k)]@ == pool[i]@);
    }
    assert(d.scores@[k] == d.scores@[leader(pool, k)]);
    assert(call_ensures(M::score, (metric, &src, &pool[k], &g), Ok(d.scores@[i])));
    lemma_winner_is_first_smallest(pool, g, d, i);
    lemma_folds(pool, pool.len());
}

/// Folded sets are fewer than the sets, and none where no two retain the same.
proof fn lemma_folds(pool: Seq<KeepSets>, n: nat)
    requires
        n <= pool.len(),
    ensures
        folds(pool, n) <= n,
        n > 0 ==> folds(pool, n) < n,
        (forall|x: int, y: int|
            0 <= x < y < pool.len() ==> (#[trigger] pool[x])@ != (#[trigger] pool[y])@)
            ==> folds(pool, n) == 0,
    decreases n,
{
    if n > 0 {
        lemma_folds(pool, (n - 1) as nat);
        lemma_leader_bounds(pool, n - 1, 0);
    }
}

/// One more set adds to the folded ones exactly where an earlier one retains the same.
pub proof fn lemma_folded_sets_are_repeats(pool: Seq<KeepSets>, n: nat)
    requires
        n < pool.len(),
    ensures
        folds(pool, 0) == 0,
        folds(pool, n + 1) == folds(pool, n) + (if exists|k: int|
            0 <= k < n && (#[trigger] pool[k])@ == pool[n as int]@ {
            1nat
        } else {
            0nat
        }),
{
    lemma_leader_bounds(pool, n as int, 0);
    let k = leader(pool, n as int);
    if k < n {
        assert(pool[k]@ == pool[n as int]@);
    }
}

} // verus!
