//! How many tokens each layer may keep, by how much the layer matters.

use crate::score_bits::{exceeds, not_a_number, spec_exceeds, spec_order};
use vstd::prelude::*;

verus! {

/// Layer `a` ranks below layer `b`: it matters less, or at a lower index neither matters more. An
/// importance that is no number is neither more nor less than any other.
pub open spec fn below(importance: Seq<u32>, a: int, b: int) -> bool {
    spec_exceeds(importance[b], importance[a]) || (!spec_exceeds(importance[a], importance[b]) && a
        < b)
}

/// Where a layer goes among ranked ones: behind the last that it does not rank below.
pub open spec fn place(importance: Seq<u32>, order: Seq<int>, layer: int) -> int
    decreases order.len(),
{
    if order.len() == 0 {
        0
    } else if below(importance, layer, order.last()) {
        place(importance, order.drop_last(), layer)
    } else {
        order.len() as int
    }
}

/// The first `n` layers from the bottom up, each put in its place in turn.
pub open spec fn ranked(importance: Seq<u32>, n: int) -> Seq<int>
    decreases n,
{
    if n <= 0 {
        Seq::empty()
    } else {
        let order = ranked(importance, n - 1);
        order.insert(place(importance, order, n - 1), n - 1)
    }
}

/// A layer's place from the bottom.
pub open spec fn rank(importance: Seq<u32>, layer: int) -> int {
    ranked(importance, importance.len() as int).index_of(layer)
}

/// A layer's weight: 1, 2 or 3, by the third of the ranking it is in.
pub open spec fn weight(importance: Seq<u32>, layer: int) -> nat {
    let tier = rank(importance, layer) * 3 / importance.len() as int;
    if tier <= 0 {
        1
    } else if tier == 1 {
        2
    } else {
        3
    }
}

/// The weights of the first `n` layers together.
pub open spec fn weight_sum(importance: Seq<u32>, n: int) -> nat
    decreases n,
{
    if n <= 0 {
        0
    } else {
        weight_sum(importance, n - 1) + weight(importance, n - 1)
    }
}

/// A layer's share of the total, before the floor.
pub open spec fn share(importance: Seq<u32>, total_budget: usize, layer: int) -> nat {
    (total_budget as nat * weight(importance, layer)) / weight_sum(
        importance,
        importance.len() as int,
    )
}

/// A layer's budget.
pub open spec fn budget(importance: Seq<u32>, total_budget: usize, min_floor: usize, layer: int) -> nat {
    let s = share(importance, total_budget, layer);
    if s < min_floor {
        min_floor as nat
    } else {
        s
    }
}

/// A place is between the first and the last.
proof fn lemma_place(importance: Seq<u32>, order: Seq<int>, layer: int)
    ensures
        0 <= place(importance, order, layer) <= order.len(),
        place(importance, order, layer) > 0 ==> !below(
            importance,
            layer,
            order[place(importance, order, layer) - 1],
        ),
        forall|i: int|
            place(importance, order, layer) <= i < order.len() ==> below(
                importance,
                layer,
                #[trigger] order[i],
            ),
    decreases order.len(),
{
    if order.len() > 0 && below(importance, layer, order.last()) {
        let rest = order.drop_last();
        lemma_place(importance, rest, layer);
        let p = place(importance, rest, layer);
        assert(p > 0 ==> rest[p - 1] == order[p - 1]);
        assert forall|i: int| p <= i < order.len() implies below(
            importance,
            layer,
            #[trigger] order[i],
        ) by {
            if i < rest.len() {
                assert(rest[i] == order[i]);
            }
        }
    }
}

/// The ranking holds every layer once.
proof fn lemma_ranked(importance: Seq<u32>, n: int)
    requires
        0 <= n,
    ensures
        ranked(importance, n).len() == n,
        ranked(importance, n).no_duplicates(),
        forall|i: int| 0 <= i < n ==> 0 <= #[trigger] ranked(importance, n)[i] < n,
        forall|l: int| 0 <= l < n ==> #[trigger] ranked(importance, n).contains(l),
    decreases n,
{
    if n > 0 {
        lemma_ranked(importance, n - 1);
        let rest = ranked(importance, n - 1);
        lemma_place(importance, rest, n - 1);
        let p = place(importance, rest, n - 1);
        let all = ranked(importance, n);
        assert(all == rest.insert(p, n - 1));
        assert forall|l: int| 0 <= l < n implies #[trigger] all.contains(l) by {
            if l == n - 1 {
                assert(all[p] == l);
            } else {
                assert(rest.contains(l));
                let i = choose|i: int| 0 <= i < rest.len() && rest[i] == l;
                if i < p {
                    assert(all[i] == l);
                } else {
                    assert(all[i + 1] == l);
                }
            }
        }
    }
}

/// The layer at a place of the ranking has that rank.
proof fn lemma_rank(importance: Seq<u32>, at: int)
    requires
        0 <= at < importance.len(),
    ensures
        rank(importance, ranked(importance, importance.len() as int)[at]) == at,
{
    let order = ranked(importance, importance.len() as int);
    lemma_ranked(importance, importance.len() as int);
    assert(order[at] == order[order.index_of(order[at])]);
}

proof fn lemma_weight_sum_grows(importance: Seq<u32>, m: int, n: int)
    requires
        0 <= m <= n <= importance.len(),
    ensures
        weight_sum(importance, m) <= weight_sum(importance, n),
        weight_sum(importance, n) <= 3 * n,
        weight_sum(importance, n) >= n,
    decreases n,
{
    if n > 0 {
        if m < n {
            lemma_weight_sum_grows(importance, m, n - 1);
        } else {
            lemma_weight_sum_grows(importance, 0, n - 1);
        }
    }
}

/// A layer's weight is part of the sum.
proof fn lemma_weight_in_sum(importance: Seq<u32>, layer: int, n: int)
    requires
        0 <= layer < n,
    ensures
        weight(importance, layer) <= weight_sum(importance, n),
    decreases n,
{
    if layer < n - 1 {
        lemma_weight_in_sum(importance, layer, n - 1);
    }
}

/// A layer's share is no more than the total.
proof fn lemma_share_bounds(importance: Seq<u32>, total_budget: usize, layer: int)
    requires
        0 <= layer < importance.len(),
    ensures
        share(importance, total_budget, layer) <= total_budget,
{
    let n = importance.len() as int;
    let w = weight(importance, layer) as int;
    let sum = weight_sum(importance, n) as int;
    let t = total_budget as int;
    lemma_weight_in_sum(importance, layer, n);
    lemma_weight_sum_grows(importance, 0, n);
    assert(t * w <= t * sum) by (nonlinear_arith)
        requires
            0 <= t,
            w <= sum,
    ;
    assert((t * w) / sum <= t) by (nonlinear_arith)
        requires
            t * w <= t * sum,
            0 < sum,
            0 <= t,
    ;
}

/// Whether layer `a` ranks below layer `b`.
fn ranks_below(importance: &Vec<u32>, a: usize, b: usize) -> (r: bool)
    requires
        a < importance@.len(),
        b < importance@.len(),
    ensures
        r == below(importance@, a as int, b as int),
{
    exceeds(importance[b], importance[a]) || (!exceeds(importance[a], importance[b]) && a < b)
}

/// The layers from the bottom up.
fn ranking(importance: &Vec<u32>) -> (order: Vec<usize>)
    ensures
        order@.len() == importance@.len(),
        forall|i: int|
            0 <= i < order@.len() ==> #[trigger] order@[i] == ranked(
                importance@,
                importance@.len() as int,
            )[i],
{
    let mut order: Vec<usize> = Vec::new();
    let mut n: usize = 0;
    while n < importance.len()
        invariant
            n <= importance@.len(),
            order@.len() == n,
            forall|i: int|
                0 <= i < n ==> #[trigger] order@[i] == ranked(importance@, n as int)[i],
        decreases importance@.len() - n,
    {
        let ghost held = ranked(importance@, n as int);
        let ghost before = order@;
        proof {
            lemma_ranked(importance@, n as int);
            assert(held.take(n as int) =~= held);
        }
        let mut p: usize = n;
        while p > 0 && ranks_below(importance, n, order[p - 1])
            invariant
                p <= n < importance@.len(),
                order@.len() == n,
                held == ranked(importance@, n as int),
                held.len() == n,
                forall|i: int| 0 <= i < n ==> #[trigger] order@[i] == held[i],
                forall|i: int| 0 <= i < n ==> 0 <= #[trigger] held[i] < n,
                place(importance@, held, n as int) == place(
                    importance@,
                    held.take(p as int),
                    n as int,
                ),
            decreases p,
        {
            assert(held.take(p as int).drop_last() =~= held.take(p - 1));
            assert(order@[p - 1] == held[p - 1]);
            p = p - 1;
        }
        proof {
            assert(p > 0 ==> held.take(p as int).last() == held[p - 1]);
            assert(p > 0 ==> order@[p - 1] == held[p - 1]);
            assert(p == place(importance@, held, n as int));
        }
        order.insert(p, n);
        proof {
            assert(ranked(importance@, n + 1) == held.insert(p as int, n as int));
            assert forall|i: int| 0 <= i < n + 1 implies #[trigger] order@[i] == ranked(
                importance@,
                n + 1,
            )[i] by {
                if i < p {
                    assert(before[i] == held[i]);
                } else if i > p {
                    assert(before[i - 1] == held[i - 1]);
                }
            }
        }
        n = n + 1;
    }
    order
}

/// The layers' weights.
fn weights_of(importance: &Vec<u32>) -> (weights: Vec<u128>)
    ensures
        weights@.len() == importance@.len(),
        forall|k: int|
            0 <= k < weights@.len() ==> #[trigger] weights@[k] == weight(importance@, k),
{
    let n: usize = importance.len();
    let order = ranking(importance);
    let ghost held = ranked(importance@, n as int);
    let mut weights: Vec<u128> = Vec::new();
    let mut i: usize = 0;
    while i < n
        invariant
            i <= n,
            weights@.len() == i,
        decreases n - i,
    {
        weights.push(0);
        i = i + 1;
    }
    proof {
        lemma_ranked(importance@, n as int);
    }
    let mut r: usize = 0;
    while r < n
        invariant
            r <= n,
            n == importance@.len(),
            order@.len() == n,
            weights@.len() == n,
            held == ranked(importance@, n as int),
            held.len() == n,
            held.no_duplicates(),
            forall|k: int| 0 <= k < n ==> #[trigger] order@[k] == held[k],
            forall|k: int| 0 <= k < n ==> 0 <= #[trigger] held[k] < n,
            forall|k: int|
                0 <= k < r ==> weights@[#[trigger] held[k]] == weight(importance@, held[k]),
        decreases n - r,
    {
        let tier: u128 = r as u128 * 3 / n as u128;
        let layer: usize = order[r];
        proof {
            lemma_rank(importance@, r as int);
            assert(order@[r as int] == held[r as int]);
        }
        let w: u128 = if tier == 0 {
            1
        } else if tier == 1 {
            2
        } else {
            3
        };
        let ghost before = weights@;
        weights.set(layer, w);
        proof {
            assert forall|k: int| 0 <= k < r + 1 implies weights@[#[trigger] held[k]] == weight(
                importance@,
                held[k],
            ) by {
                if k < r {
                    assert(held[k] != held[r as int]);
                    assert(before[held[k]] == weight(importance@, held[k]));
                }
            }
        }
        r = r + 1;
    }
    assert forall|k: int| 0 <= k < weights@.len() implies #[trigger] weights@[k] == weight(
        importance@,
        k,
    ) by {
        assert(held.contains(k));
        let at = choose|at: int| 0 <= at < held.len() && held[at] == k;
        assert(weights@[held[at]] == weight(importance@, held[at]));
    }
    weights
}

/// Splits a total over the layers: the third that matters least weighs one, the middle third two,
/// the rest three. No layer gets less than the floor. Importance is given by the bit patterns of
/// single-precision numbers.
pub fn compute_squeeze_budgets(importance: &Vec<u32>, total_budget: usize, min_floor: usize) -> (r:
    Vec<usize>)
    ensures
        r@.len() == importance@.len(),
        forall|i: int|
            0 <= i < r@.len() ==> #[trigger] r@[i] == budget(
                importance@,
                total_budget,
                min_floor,
                i,
            ),
{
    let n: usize = importance.len();
    let weights = weights_of(importance);
    let mut sum: u128 = 0;
    let mut i: usize = 0;
    while i < n
        invariant
            i <= n,
            n == importance@.len(),
            n == weights@.len(),
            sum == weight_sum(importance@, i as int),
            sum <= 3 * i,
            forall|k: int| 0 <= k < n ==> #[trigger] weights@[k] == weight(importance@, k),
        decreases n - i,
    {
        assert(1 <= weights@[i as int] <= 3);
        sum = sum + weights[i];
        i = i + 1;
    }
    let mut budgets: Vec<usize> = Vec::new();
    i = 0;
    while i < n
        invariant
            i <= n,
            n == importance@.len(),
            n == weights@.len(),
            sum == weight_sum(importance@, n as int),
            forall|k: int| 0 <= k < n ==> #[trigger] weights@[k] == weight(importance@, k),
            budgets@.len() == i,
            forall|k: int|
                0 <= k < i ==> #[trigger] budgets@[k] == budget(
                    importance@,
                    total_budget,
                    min_floor,
                    k,
                ),
        decreases n - i,
    {
        proof {
            lemma_share_bounds(importance@, total_budget, i as int);
            lemma_weight_sum_grows(importance@, 0, n as int);
            let t = total_budget as int;
            let w = weights@[i as int] as int;
            assert(t * w <= t * 3) by (nonlinear_arith)
                requires
                    0 <= t,
                    w <= 3,
            ;
            assert(w * t == t * w) by (nonlinear_arith);
        }
        let s: usize = (total_budget as u128 * weights[i] / sum) as usize;
        budgets.push(
            if s < min_floor {
                min_floor
            } else {
                s
            },
        );
        i = i + 1;
    }
    budgets
}

/// No layer gets less than the floor, or more than the total where the total is above the floor.
/// Where every importance is a number, a layer that matters more gets no less; of two that matter
/// alike, the later one gets no less.
pub proof fn lemma_budgets_follow_importance(
    importance: Seq<u32>,
    total_budget: usize,
    min_floor: usize,
    a: int,
    b: int,
)
    requires
        0 <= a < importance.len(),
        0 <= b < importance.len(),
    ensures
        (forall|i: int| 0 <= i < importance.len() ==> !not_a_number(#[trigger] importance[i]))
            && below(importance, a, b) ==> budget(importance, total_budget, min_floor, a) <= budget(
            importance,
            total_budget,
            min_floor,
            b,
        ),
        budget(importance, total_budget, min_floor, a) >= min_floor,
        min_floor <= total_budget ==> budget(importance, total_budget, min_floor, b)
            <= total_budget,
{
    let n = importance.len() as int;
    lemma_share_bounds(importance, total_budget, b);
    lemma_weight_sum_grows(importance, 0, n);
    if (forall|i: int| 0 <= i < n ==> !not_a_number(#[trigger] importance[i])) && below(
        importance,
        a,
        b,
    ) {
        lemma_rank_follows_order(importance, a, b);
        let ra = rank(importance, a);
        let rb = rank(importance, b);
        assert(ra * 3 / n <= rb * 3 / n) by (nonlinear_arith)
            requires
                ra <= rb,
                0 < n,
        ;
        let wa = weight(importance, a) as int;
        let wb = weight(importance, b) as int;
        let t = total_budget as int;
        let sum = weight_sum(importance, n) as int;
        assert(t * wa <= t * wb) by (nonlinear_arith)
            requires
                0 <= t,
                wa <= wb,
        ;
        assert((t * wa) / sum <= (t * wb) / sum) by (nonlinear_arith)
            requires
                t * wa <= t * wb,
                0 < sum,
        ;
    }
}

/// Numbers are ranked from the least up; of equals the earlier layer comes first.
pub proof fn lemma_numbers_are_ranked_in_order(importance: Seq<u32>, n: int, i: int, j: int)
    requires
        0 <= i < j < n <= importance.len(),
        forall|l: int| 0 <= l < importance.len() ==> !not_a_number(#[trigger] importance[l]),
    ensures
        below(importance, ranked(importance, n)[i], ranked(importance, n)[j]),
    decreases n,
{
    lemma_ranked(importance, n - 1);
    let rest = ranked(importance, n - 1);
    lemma_place(importance, rest, n - 1);
    let p = place(importance, rest, n - 1);
    let all = ranked(importance, n);
    assert(all == rest.insert(p, n - 1));
    let new = n - 1;
    if j < p {
        lemma_numbers_are_ranked_in_order(importance, new, i, j);
    } else if i > p {
        lemma_numbers_are_ranked_in_order(importance, new, i - 1, j - 1);
    } else if i == p {
        assert(all[j] == rest[j - 1]);
    } else if j == p {
        assert(below(importance, rest[p - 1], new));
        if i < p - 1 {
            lemma_numbers_are_ranked_in_order(importance, new, i, p - 1);
        }
    } else {
        assert(all[i] == rest[i] && all[j] == rest[j - 1]);
        if i < j - 1 {
            lemma_numbers_are_ranked_in_order(importance, new, i, j - 1);
        }
    }
}

/// Among numbers, what ranks below a layer has a lower rank.
proof fn lemma_rank_follows_order(importance: Seq<u32>, a: int, b: int)
    requires
        0 <= a < importance.len(),
        0 <= b < importance.len(),
        below(importance, a, b),
        forall|l: int| 0 <= l < importance.len() ==> !not_a_number(#[trigger] importance[l]),
    ensures
        0 <= rank(importance, a) < rank(importance, b),
{
    let n = importance.len() as int;
    let order = ranked(importance, n);
    lemma_ranked(importance, n);
    assert(order.contains(a) && order.contains(b));
    let ia = rank(importance, a);
    let ib = rank(importance, b);
    assert(0 <= ia < n && order[ia] == a);
    assert(0 <= ib < n && order[ib] == b);
    if ib < ia {
        lemma_numbers_are_ranked_in_order(importance, n, ib, ia);
    }
}

/// The shares together are no more than the total; those of all layers fall short of it by less than
/// one token per layer.
pub proof fn lemma_shares_fit_the_total(importance: Seq<u32>, total_budget: usize, n: int)
    requires
        0 <= n <= importance.len(),
    ensures
        share_sum(importance, total_budget, n) <= total_budget,
        n == importance.len() > 0 ==> total_budget < share_sum(importance, total_budget, n) + n,
{
    if importance.len() > 0 {
        let all = importance.len() as int;
        let sum = weight_sum(importance, all) as int;
        let t = total_budget as int;
        lemma_share_sum(importance, total_budget, n);
        lemma_weight_sum_grows(importance, n, all);
        let part = weight_sum(importance, n) as int;
        let shares = share_sum(importance, total_budget, n) as int;
        assert(t * part <= t * sum) by (nonlinear_arith)
            requires
                0 <= t,
                part <= sum,
        ;
        assert(shares <= t) by (nonlinear_arith)
            requires
                shares * sum <= t * part,
                t * part <= t * sum,
                0 < sum,
        ;
        if n == all {
            assert(t < shares + n) by (nonlinear_arith)
                requires
                    t * sum < (shares + n) * sum,
                    0 < sum,
            ;
        }
    }
}

/// The shares of the first `n` layers together.
pub open spec fn share_sum(importance: Seq<u32>, total_budget: usize, n: int) -> nat
    decreases n,
{
    if n <= 0 {
        0
    } else {
        share_sum(importance, total_budget, n - 1) + share(importance, total_budget, n - 1)
    }
}

proof fn lemma_share_sum(importance: Seq<u32>, total_budget: usize, n: int)
    requires
        0 <= n <= importance.len(),
        0 < importance.len(),
    ensures
        share_sum(importance, total_budget, n) * weight_sum(importance, importance.len() as int)
            <= total_budget * weight_sum(importance, n),
        n > 0 ==> total_budget * weight_sum(importance, n) < (share_sum(importance, total_budget, n)
            + n) * weight_sum(importance, importance.len() as int),
    decreases n,
{
    let sum = weight_sum(importance, importance.len() as int) as int;
    let t = total_budget as int;
    lemma_weight_sum_grows(importance, 0, importance.len() as int);
    if n > 0 {
        lemma_share_sum(importance, total_budget, n - 1);
        let w = weight(importance, n - 1) as int;
        let s = share(importance, total_budget, n - 1) as int;
        let before = share_sum(importance, total_budget, n - 1) as int;
        let part = weight_sum(importance, n - 1) as int;
        assert(s * sum <= t * w) by (nonlinear_arith)
            requires
                s == (t * w) / sum,
                0 < sum,
                0 <= t * w,
        ;
        assert((before + s) * sum <= t * (part + w)) by (nonlinear_arith)
            requires
                before * sum <= t * part,
                s * sum <= t * w,
        ;
        assert(t * w < (s + 1) * sum) by (nonlinear_arith)
            requires
                s == (t * w) / sum,
                0 < sum,
        ;
        assert(t * part <= (before + (n - 1)) * sum) by {
            if n == 1 {
                assert(t * 0 == 0 && 0 * sum == 0) by (nonlinear_arith);
            }
        }
        assert(t * (part + w) < (before + s + n) * sum) by (nonlinear_arith)
            requires
                t * part <= (before + (n - 1)) * sum,
                t * w < (s + 1) * sum,
        ;
    } else {
        assert(0 * sum == 0 && t * 0 == 0) by (nonlinear_arith);
    }
}

/// One layer ranks below another where its number is less, or the same at a lower index; and where
/// either importance is no number, by index alone.
pub proof fn lemma_below_goes_by_number_then_index(importance: Seq<u32>, a: int, b: int)
    requires
        0 <= a < importance.len(),
        0 <= b < importance.len(),
    ensures
        not_a_number(importance[a]) || not_a_number(importance[b]) ==> (below(importance, a, b)
            <==> a < b),
        !not_a_number(importance[a]) && !not_a_number(importance[b]) ==> (below(importance, a, b)
            <==> spec_order(importance[a]) < spec_order(importance[b]) || (spec_order(importance[a])
            == spec_order(importance[b]) && a < b)),
{
}

/// How many of the first `n` layers rank below a layer.
pub open spec fn below_count(importance: Seq<u32>, layer: int, n: int) -> int
    decreases n,
{
    if n <= 0 {
        0
    } else {
        below_count(importance, layer, n - 1) + (if below(importance, n - 1, layer) {
            1int
        } else {
            0int
        })
    }
}

/// A sum over a list of layers.
spec fn list_sum(list: Seq<int>, f: spec_fn(int) -> int) -> int
    decreases list.len(),
{
    if list.len() == 0 {
        0
    } else {
        list_sum(list.drop_last(), f) + f(list.last())
    }
}

/// A sum over the first `n` layers.
spec fn layer_sum(n: int, f: spec_fn(int) -> int) -> int
    decreases n,
{
    if n <= 0 {
        0
    } else {
        layer_sum(n - 1, f) + f(n - 1)
    }
}

proof fn lemma_list_sum_insert(list: Seq<int>, p: int, x: int, f: spec_fn(int) -> int)
    requires
        0 <= p <= list.len(),
    ensures
        list_sum(list.insert(p, x), f) == list_sum(list, f) + f(x),
    decreases list.len(),
{
    let more = list.insert(p, x);
    if p == list.len() {
        assert(more.drop_last() =~= list);
    } else {
        lemma_list_sum_insert(list.drop_last(), p, x, f);
        assert(more.drop_last() =~= list.drop_last().insert(p, x));
        assert(more.last() == list.last());
    }
}

/// Over the ranking a sum is what it is over the layers.
proof fn lemma_ranked_sum(importance: Seq<u32>, n: int, f: spec_fn(int) -> int)
    requires
        0 <= n,
    ensures
        list_sum(ranked(importance, n), f) == layer_sum(n, f),
    decreases n,
{
    if n > 0 {
        lemma_ranked_sum(importance, n - 1, f);
        let rest = ranked(importance, n - 1);
        lemma_place(importance, rest, n - 1);
        lemma_list_sum_insert(rest, place(importance, rest, n - 1), n - 1, f);
    }
}

/// Where every importance is a number, a layer's rank is how many layers rank below it.
pub proof fn lemma_rank_counts_the_layers_below(importance: Seq<u32>, layer: int)
    requires
        0 <= layer < importance.len(),
        forall|l: int| 0 <= l < importance.len() ==> !not_a_number(#[trigger] importance[l]),
    ensures
        rank(importance, layer) == below_count(importance, layer, importance.len() as int),
{
    let n = importance.len() as int;
    let order = ranked(importance, n);
    let f = |l: int|
        if below(importance, l, layer) {
            1int
        } else {
            0int
        };
    lemma_ranked(importance, n);
    assert(order.contains(layer));
    let at = rank(importance, layer);
    assert(0 <= at < n && order[at] == layer);
    lemma_ranked_sum(importance, n, f);
    lemma_below_sum(importance, layer, n, f);
    assert(order.take(n) =~= order);
    lemma_ranked_prefix(importance, layer, at, n, f);
}

proof fn lemma_below_sum(importance: Seq<u32>, layer: int, n: int, f: spec_fn(int) -> int)
    requires
        f == |l: int|
            if below(importance, l, layer) {
                1int
            } else {
                0int
            },
    ensures
        layer_sum(n, f) == below_count(importance, layer, n),
    decreases n,
{
    if n > 0 {
        lemma_below_sum(importance, layer, n - 1, f);
    }
}

proof fn lemma_ranked_prefix(
    importance: Seq<u32>,
    layer: int,
    at: int,
    m: int,
    f: spec_fn(int) -> int,
)
    requires
        f == |l: int|
            if below(importance, l, layer) {
                1int
            } else {
                0int
            },
        0 <= at < importance.len(),
        0 <= m <= importance.len(),
        ranked(importance, importance.len() as int)[at] == layer,
        forall|l: int| 0 <= l < importance.len() ==> !not_a_number(#[trigger] importance[l]),
    ensures
        list_sum(ranked(importance, importance.len() as int).take(m), f) == if m < at {
            m
        } else {
            at
        },
    decreases m,
{
    let n = importance.len() as int;
    let order = ranked(importance, n);
    lemma_ranked(importance, n);
    if m > 0 {
        lemma_ranked_prefix(importance, layer, at, m - 1, f);
        assert(order.take(m).drop_last() =~= order.take(m - 1));
        let l = order[m - 1];
        assert(order.take(m).last() == l);
        if m - 1 < at {
            lemma_numbers_are_ranked_in_order(importance, n, m - 1, at);
        } else if m - 1 > at {
            lemma_numbers_are_ranked_in_order(importance, n, at, m - 1);
        }
    }
}

/// Of `n` layers, the weights together are three for each less one for each of the bottom two
/// thirds and one more for each of the bottom third, thirds rounded up; whatever the importances.
pub proof fn lemma_weights_of_all_layers(importance: Seq<u32>)
    ensures
        weight_sum(importance, importance.len() as int) == ({
            let n = importance.len() as int;
            3 * n - (n + 2) / 3 - (2 * n + 2) / 3
        }),
{
    let n = importance.len() as int;
    let f = |l: int| weight(importance, l) as int;
    lemma_weight_layer_sum(importance, n, f);
    lemma_ranked_sum(importance, n, f);
    lemma_ranked(importance, n);
    assert(ranked(importance, n).take(n) =~= ranked(importance, n));
    lemma_ranked_weights(importance, n, f);
}

proof fn lemma_weight_layer_sum(importance: Seq<u32>, n: int, f: spec_fn(int) -> int)
    requires
        f == |l: int| weight(importance, l) as int,
    ensures
        layer_sum(n, f) == weight_sum(importance, n),
    decreases n,
{
    if n > 0 {
        lemma_weight_layer_sum(importance, n - 1, f);
    }
}

/// The lowest `m` of a ranking weigh one each in the bottom third, two in the next, three above.
proof fn lemma_ranked_weights(importance: Seq<u32>, m: int, f: spec_fn(int) -> int)
    requires
        f == |l: int| weight(importance, l) as int,
        0 <= m <= importance.len(),
    ensures
        ({
            let n = importance.len() as int;
            let low = (n + 2) / 3;
            let mid = (2 * n + 2) / 3;
            list_sum(ranked(importance, n).take(m), f) == 3 * m - (if m < low {
                m
            } else {
                low
            }) - (if m < mid {
                m
            } else {
                mid
            })
        }),
    decreases m,
{
    let n = importance.len() as int;
    let order = ranked(importance, n);
    lemma_ranked(importance, n);
    if m > 0 {
        lemma_ranked_weights(importance, m - 1, f);
        assert(order.take(m).drop_last() =~= order.take(m - 1));
        assert(order.take(m).last() == order[m - 1]);
        lemma_rank(importance, m - 1);
        lemma_tier(m - 1, n);
    }
}

/// A rank's third.
proof fn lemma_tier(r: int, n: int)
    requires
        0 <= r < n,
    ensures
        r * 3 / n == if 3 * r < n {
            0int
        } else if 3 * r < 2 * n {
            1int
        } else {
            2int
        },
{
    let t = r * 3 / n;
    vstd::arithmetic::div_mod::lemma_fundamental_div_mod(r * 3, n);
    vstd::arithmetic::div_mod::lemma_mod_bound(r * 3, n);
    let m = (r * 3) % n;
    assert((t == 0 <==> 3 * r < n) && (t == 1 <==> n <= 3 * r < 2 * n) && (t == 2 <==> 2 * n <= 3
        * r)) by (nonlinear_arith)
        requires
            r * 3 == n * t + m,
            0 <= m < n,
            0 <= r < n,
    ;
}

/// What a layer gets. Counting the layers that rank below it, a layer of the bottom third weighs
/// one, of the next two, of the rest three; and its budget is its weight's share of the total over
/// all weights, rounded down, or the floor if that is more.
pub proof fn lemma_budget_of_a_layer(
    importance: Seq<u32>,
    total_budget: usize,
    min_floor: usize,
    layer: int,
)
    requires
        0 <= layer < importance.len(),
        forall|l: int| 0 <= l < importance.len() ==> !not_a_number(#[trigger] importance[l]),
    ensures
        ({
            let n = importance.len() as int;
            let r = below_count(importance, layer, n);
            let w = if 3 * r < n {
                1int
            } else if 3 * r < 2 * n {
                2int
            } else {
                3int
            };
            let all = 3 * n - (n + 2) / 3 - (2 * n + 2) / 3;
            let b = budget(importance, total_budget, min_floor, layer) as int;
            &&& b >= min_floor
            &&& total_budget * w < (b + 1) * all
            &&& b == min_floor || b * all <= total_budget * w
        }),
{
    let n = importance.len() as int;
    lemma_rank_counts_the_layers_below(importance, layer);
    lemma_weights_of_all_layers(importance);
    lemma_weight_sum_grows(importance, 0, n);
    let r = rank(importance, layer);
    lemma_ranked(importance, n);
    assert(ranked(importance, n).contains(layer));
    assert(0 <= r < n);
    lemma_tier(r, n);
    let w = weight(importance, layer) as int;
    let all = weight_sum(importance, n) as int;
    let t = total_budget as int;
    let s = share(importance, total_budget, layer) as int;
    let b = budget(importance, total_budget, min_floor, layer) as int;
    assert(s * all <= t * w && t * w < (s + 1) * all) by (nonlinear_arith)
        requires
            s == (t * w) / all,
            0 < all,
            0 <= t * w,
    ;
    assert((s + 1) * all <= (b + 1) * all) by (nonlinear_arith)
        requires
            s <= b,
            0 < all,
    ;
}

/// Importance makes a difference: of at least three layers the one that none ranks below gets a
/// third of what the one above all others gets, up to rounding, before the floor.
pub proof fn lemma_most_important_layer_gets_three_times_the_least(
    importance: Seq<u32>,
    total_budget: usize,
    low: int,
    high: int,
)
    requires
        0 <= low < importance.len(),
        0 <= high < importance.len(),
        importance.len() >= 3,
        forall|l: int| 0 <= l < importance.len() ==> !not_a_number(#[trigger] importance[l]),
        forall|l: int| 0 <= l < importance.len() ==> !below(importance, l, low),
        forall|l: int|
            0 <= l < importance.len() && l != high ==> below(importance, l, high),
    ensures
        3 * budget(importance, total_budget, 0, low) <= budget(importance, total_budget, 0, high),
        budget(importance, total_budget, 0, high) <= 3 * budget(importance, total_budget, 0, low)
            + 2,
{
    let n = importance.len() as int;
    lemma_none_below(importance, low, n);
    lemma_all_below(importance, high, n);
    lemma_budget_of_a_layer(importance, total_budget, 0, low);
    lemma_budget_of_a_layer(importance, total_budget, 0, high);
    let all = 3 * n - (n + 2) / 3 - (2 * n + 2) / 3;
    let x = budget(importance, total_budget, 0, low) as int;
    let y = budget(importance, total_budget, 0, high) as int;
    let t = total_budget as int;
    assert(3 * x <= y && y <= 3 * x + 2) by (nonlinear_arith)
        requires
            t * 1 < (x + 1) * all,
            x == 0 || x * all <= t * 1,
            t * 3 < (y + 1) * all,
            y == 0 || y * all <= t * 3,
            0 <= t,
            0 <= x,
            0 <= y,
            0 < all,
    ;
}

proof fn lemma_none_below(importance: Seq<u32>, layer: int, n: int)
    requires
        forall|l: int| 0 <= l < n ==> !below(importance, l, layer),
    ensures
        below_count(importance, layer, n) == 0,
    decreases n,
{
    if n > 0 {
        lemma_none_below(importance, layer, n - 1);
        assert(!below(importance, n - 1, layer));
    }
}

proof fn lemma_all_below(importance: Seq<u32>, layer: int, n: int)
    requires
        0 <= n,
        0 <= layer,
        forall|l: int| 0 <= l < n && l != layer ==> below(importance, l, layer),
    ensures
        below_count(importance, layer, n) == if layer < n {
            n - 1
        } else {
            n
        },
    decreases n,
{
    if n > 0 {
        lemma_all_below(importance, layer, n - 1);
        if n - 1 != layer {
            assert(below(importance, n - 1, layer));
        }
    }
}

} // verus!
