//! Carrying captured scores through a renumbering.
//!
//! A capture holds one row of scores per query head over the leading positions. When a keep
//! renumbers the positions, the scores of those that stay move with them, and a hole scores zero.

use crate::keep::KeepSpec;
use crate::selector_plan::head_list;
use vstd::prelude::*;

verus! {

/// How many leading positions of the list are below the width, from `i` on counted as none.
pub open spec fn leading_below(list: Seq<usize>, width: nat, i: nat) -> nat
    decreases list.len() - i,
{
    if i < list.len() && list[i as int] < width {
        leading_below(list, width, i + 1)
    } else {
        i
    }
}

/// The positions that the scores of a kept list end at, right-aligned on a cursor.
pub open spec fn scores_end(list: Seq<usize>, width: nat, cursor: usize) -> int {
    cursor - list.len() + leading_below(list, width, 0)
}

/// One head's scores after the renumbering, up to column `n`.
pub open spec fn carried_row(
    v: Seq<u32>,
    q: nat,
    width: nat,
    list: Seq<usize>,
    cursor: usize,
    n: nat,
) -> Seq<u32> {
    let shift = cursor - list.len();
    Seq::new(
        n,
        |j: int|
            if j < shift {
                0
            } else {
                v[(q * width + list[j - shift]) as int]
            },
    )
}

/// The KV head that a query head reads.
pub open spec fn kv_head_of(q: nat, n_heads_q: usize, n_kv_heads: usize) -> nat {
    q / (n_heads_q / n_kv_heads) as nat
}

/// A layer's scores of the leading query heads after the renumbering.
pub open spec fn carried_layer(
    v: Seq<u32>,
    keep: KeepSpec,
    n_heads_q: usize,
    n_kv_heads: usize,
    cursor: usize,
    n: nat,
    heads: nat,
) -> Seq<u32>
    decreases heads,
{
    if heads == 0 {
        Seq::empty()
    } else {
        let q = (heads - 1) as nat;
        carried_layer(v, keep, n_heads_q, n_kv_heads, cursor, n, q) + carried_row(
            v,
            q,
            v.len() / n_heads_q as nat,
            head_list(keep, kv_head_of(q, n_heads_q, n_kv_heads) as int),
            cursor,
            n,
        )
    }
}

/// The keep has a list for the head.
pub open spec fn has_head(keep: KeepSpec, h: nat) -> bool {
    match keep {
        KeepSpec::LayerWide(_) => true,
        KeepSpec::PerHead(heads) => h < heads@.len(),
    }
}

/// A query head's scores can be carried, and end at column `n`.
pub open spec fn head_carries(
    v: Seq<u32>,
    keep: KeepSpec,
    n_heads_q: usize,
    n_kv_heads: usize,
    cursor: usize,
    n: int,
    q: nat,
) -> bool {
    let h = kv_head_of(q, n_heads_q, n_kv_heads);
    let list = head_list(keep, h as int);
    &&& h < n_kv_heads
    &&& has_head(keep, h)
    &&& list.len() <= cursor
    &&& scores_end(list, v.len() / n_heads_q as nat, cursor) == n
}

/// Every query head's scores of a layer can be carried, and end at column `n`.
pub open spec fn layer_carries(
    v: Seq<u32>,
    keep: KeepSpec,
    n_heads_q: usize,
    n_kv_heads: usize,
    cursor: usize,
    n: int,
) -> bool {
    forall|q: nat|
        q < n_heads_q ==> #[trigger] head_carries(
            v,
            keep,
            n_heads_q,
            n_kv_heads,
            cursor,
            n,
            q,
        )
}

/// The column at which carried scores end: where those of the first layer's first head do.
pub open spec fn carried_width(
    capture: Seq<Vec<u32>>,
    layers: Seq<KeepSpec>,
    n_heads_q: usize,
    cursor: usize,
) -> int {
    scores_end(head_list(layers[0], 0), capture[0]@.len() / n_heads_q as nat, cursor)
}

/// A capture can be carried: every head of every layer has a list that fits, and all end alike.
pub open spec fn carriable(
    capture: Seq<Vec<u32>>,
    layers: Seq<KeepSpec>,
    n_heads_q: usize,
    n_kv_heads: usize,
    cursor: usize,
) -> bool {
    &&& capture.len() > 0
    &&& capture.len() <= layers.len()
    &&& n_kv_heads > 0
    &&& n_heads_q >= n_kv_heads
    &&& forall|l: int|
        0 <= l < capture.len() ==> layer_carries(
            (#[trigger] capture[l])@,
            layers[l],
            n_heads_q,
            n_kv_heads,
            cursor,
            carried_width(capture, layers, n_heads_q, cursor),
        )
}

/// What carrying a capture gives: its scores in the new numbering, where it can be carried.
pub open spec fn carried(
    capture: Seq<Vec<u32>>,
    layers: Seq<KeepSpec>,
    n_heads_q: usize,
    n_kv_heads: usize,
    cursor: usize,
    r: Option<Vec<Vec<u32>>>,
) -> bool {
    match r {
        None => !carriable(capture, layers, n_heads_q, n_kv_heads, cursor),
        Some(out) => {
            &&& carriable(capture, layers, n_heads_q, n_kv_heads, cursor)
            &&& out@.len() == capture.len()
            &&& forall|l: int|
                0 <= l < out@.len() ==> (#[trigger] out@[l])@ == carried_layer(
                    capture[l]@,
                    layers[l],
                    n_heads_q,
                    n_kv_heads,
                    cursor,
                    carried_width(capture, layers, n_heads_q, cursor) as nat,
                    n_heads_q as nat,
                )
        },
    }
}

/// The end of the entries below the width.
proof fn lemma_leading(list: Seq<usize>, width: nat, i: nat)
    requires
        i <= list.len(),
    ensures
        i <= leading_below(list, width, i) <= list.len(),
        forall|k: int| i <= k < leading_below(list, width, i) ==> #[trigger] list[k] < width,
    decreases list.len() - i,
{
    if i < list.len() && list[i as int] < width {
        lemma_leading(list, width, i + 1);
    }
}

/// A head's list, if the keep has one.
fn list_of(keep: &KeepSpec, h: usize) -> (r: Option<&Vec<usize>>)
    ensures
        match r {
            None => !has_head(*keep, h as nat),
            Some(list) => has_head(*keep, h as nat) && list@ == head_list(*keep, h as int),
        },
{
    match keep {
        KeepSpec::LayerWide(list) => Some(list),
        KeepSpec::PerHead(heads) => if h < heads.len() {
            Some(&heads[h])
        } else {
            None
        },
    }
}

/// Where a list's scores end; `None` for a list longer than the cursor.
fn end_of(list: &Vec<usize>, width: usize, cursor: usize) -> (r: Option<usize>)
    ensures
        match r {
            None => list@.len() > cursor,
            Some(n) => list@.len() <= cursor && n == scores_end(list@, width as nat, cursor),
        },
{
    if list.len() > cursor {
        return None;
    }
    let mut i: usize = 0;
    while i < list.len() && list[i] < width
        invariant
            i <= list@.len(),
            leading_below(list@, width as nat, 0) == leading_below(list@, width as nat, i as nat),
        decreases list@.len() - i,
    {
        i = i + 1;
    }
    Some(cursor - list.len() + i)
}

/// One layer's scores after the renumbering, where they all end at column `n`.
fn carry_layer(
    v: &Vec<u32>,
    keep: &KeepSpec,
    n_heads_q: usize,
    n_kv_heads: usize,
    cursor: usize,
    n: usize,
) -> (r: Option<Vec<u32>>)
    requires
        0 < n_kv_heads <= n_heads_q,
    ensures
        match r {
            None => !layer_carries(v@, *keep, n_heads_q, n_kv_heads, cursor, n as int),
            Some(out) => layer_carries(v@, *keep, n_heads_q, n_kv_heads, cursor, n as int)
                && out@ == carried_layer(
                v@,
                *keep,
                n_heads_q,
                n_kv_heads,
                cursor,
                n as nat,
                n_heads_q as nat,
            ),
        },
{
    proof {
        vstd::arithmetic::div_mod::lemma_div_non_zero(n_heads_q as int, n_kv_heads as int);
        assert(v@.len() == v.len());
    }
    let n_rep: usize = n_heads_q / n_kv_heads;
    let width: usize = v.len() / n_heads_q;
    proof {
        vstd::arithmetic::div_mod::lemma_fundamental_div_mod(v@.len() as int, n_heads_q as int);
        assert(n_heads_q * width <= v@.len()) by (nonlinear_arith)
            requires
                v@.len() == n_heads_q * (v@.len() as int / n_heads_q as int) + v@.len() as int
                    % n_heads_q as int,
                width == v@.len() as int / n_heads_q as int,
                0 <= v@.len() as int % n_heads_q as int,
        ;
    }
    let mut out: Vec<u32> = Vec::new();
    let mut q: usize = 0;
    while q < n_heads_q
        invariant
            q <= n_heads_q,
            0 < n_kv_heads <= n_heads_q,
            n_rep == n_heads_q / n_kv_heads,
            n_rep > 0,
            v@.len() == v.len(),
            width == v@.len() / n_heads_q as nat,
            n_heads_q * width <= v@.len(),
            out@ == carried_layer(
                v@,
                *keep,
                n_heads_q,
                n_kv_heads,
                cursor,
                n as nat,
                q as nat,
            ),
            forall|x: nat|
                x < q ==> #[trigger] head_carries(
                    v@,
                    *keep,
                    n_heads_q,
                    n_kv_heads,
                    cursor,
                    n as int,
                    x,
                ),
        decreases n_heads_q - q,
    {
        let h: usize = q / n_rep;
        assert(h == kv_head_of(q as nat, n_heads_q, n_kv_heads));
        let ghost fits = head_carries(
            v@,
            *keep,
            n_heads_q,
            n_kv_heads,
            cursor,
            n as int,
            q as nat,
        );
        if h >= n_kv_heads {
            assert(!fits);
            return None;
        }
        let list: &Vec<usize> = match list_of(keep, h) {
            Some(list) => list,
            None => {
                assert(!fits);
                return None;
            },
        };
        match end_of(list, width, cursor) {
            Some(end) if end == n => {},
            _ => {
                assert(!fits);
                return None;
            },
        }
        proof {
            lemma_leading(list@, width as nat, 0);
            assert(q * width + width <= n_heads_q * width && 0 <= q * width) by (nonlinear_arith)
                requires
                    q + 1 <= n_heads_q,
                    0 <= q,
                    0 <= width,
            ;
        }
        let shift: usize = cursor - list.len();
        let base: usize = q * width;
        let ghost before = out@;
        let ghost row = carried_row(v@, q as nat, width as nat, list@, cursor, n as nat);
        let mut j: usize = 0;
        while j < n
            invariant
                j <= n,
                shift == cursor - list@.len(),
                list@.len() <= cursor,
                n == shift + leading_below(list@, width as nat, 0),
                leading_below(list@, width as nat, 0) <= list@.len(),
                forall|k: int|
                    0 <= k < leading_below(list@, width as nat, 0) ==> #[trigger] list@[k] < width,
                base == q * width,
                base + width <= v@.len(),
                v@.len() == v.len(),
                row == carried_row(v@, q as nat, width as nat, list@, cursor, n as nat),
                out@ == before + row.take(j as int),
            decreases n - j,
        {
            let score: u32 = if j < shift {
                0
            } else {
                assert(list@[j - shift] < width);
                v[base + list[j - shift]]
            };
            out.push(score);
            assert(score == row[j as int]);
            j = j + 1;
            assert(out@ =~= before + row.take(j as int));
        }
        assert(row.take(j as int) =~= row);
        assert(fits);
        q = q + 1;
    }
    Some(out)
}

/// Carries a capture into the numbering that a keep imposed; `None` where it cannot be.
pub fn carry(
    capture: &Vec<Vec<u32>>,
    layers: &Vec<KeepSpec>,
    n_heads_q: usize,
    n_kv_heads: usize,
    cursor: usize,
) -> (r: Option<Vec<Vec<u32>>>)
    ensures
        carried(capture@, layers@, n_heads_q, n_kv_heads, cursor, r),
{
    if capture.len() == 0 || capture.len() > layers.len() || n_kv_heads == 0 || n_heads_q
        < n_kv_heads {
        return None;
    }
    let ghost n_ends = carried_width(capture@, layers@, n_heads_q, cursor);
    proof {
        vstd::arithmetic::div_mod::lemma_div_non_zero(n_heads_q as int, n_kv_heads as int);
        assert(kv_head_of(0, n_heads_q, n_kv_heads) == 0) by (nonlinear_arith)
            requires
                (n_heads_q / n_kv_heads) > 0,
                kv_head_of(0, n_heads_q, n_kv_heads) == 0nat / (n_heads_q / n_kv_heads) as nat,
        ;
        assert(layer_carries(
            capture@[0]@,
            layers@[0],
            n_heads_q,
            n_kv_heads,
            cursor,
            n_ends,
        ) ==> head_carries(capture@[0]@, layers@[0], n_heads_q, n_kv_heads, cursor, n_ends, 0));
    }
    let first: &Vec<usize> = match list_of(&layers[0], 0) {
        Some(list) => list,
        None => {
            return None;
        },
    };
    let n: usize = match end_of(first, capture[0].len() / n_heads_q, cursor) {
        Some(n) => n,
        None => {
            return None;
        },
    };
    let mut out: Vec<Vec<u32>> = Vec::new();
    let mut l: usize = 0;
    while l < capture.len()
        invariant
            l <= capture@.len(),
            capture@.len() <= layers@.len(),
            0 < n_kv_heads <= n_heads_q,
            n == n_ends,
            n_ends == carried_width(capture@, layers@, n_heads_q, cursor),
            out@.len() == l,
            forall|x: int|
                0 <= x < l ==> layer_carries(
                    (#[trigger] capture@[x])@,
                    layers@[x],
                    n_heads_q,
                    n_kv_heads,
                    cursor,
                    n as int,
                ),
            forall|x: int|
                0 <= x < l ==> (#[trigger] out@[x])@ == carried_layer(
                    capture@[x]@,
                    layers@[x],
                    n_heads_q,
                    n_kv_heads,
                    cursor,
                    n as nat,
                    n_heads_q as nat,
                ),
        decreases capture@.len() - l,
    {
        let ghost before = out@;
        match carry_layer(&capture[l], &layers[l], n_heads_q, n_kv_heads, cursor, n) {
            Some(layer) => {
                out.push(layer);
                assert(forall|x: int| 0 <= x < l ==> #[trigger] out@[x] == before[x]);
            },
            None => {
                assert(!layer_carries(
                    capture@[l as int]@,
                    layers@[l as int],
                    n_heads_q,
                    n_kv_heads,
                    cursor,
                    n as int,
                ));
                return None;
            },
        }
        l = l + 1;
    }
    Some(out)
}

/// What is carried. Every captured score of a kept position that the capture covers is found, in its
/// query head's row, at the position's new place; the columns before a head's first kept position are
/// zero. A query head goes by the list of the key head that it reads: of `n_heads_q` heads over
/// `n_kv_heads`, neighbours share one.
pub proof fn lemma_carried_scores_follow_their_positions(
    capture: Seq<Vec<u32>>,
    layers: Seq<KeepSpec>,
    n_heads_q: usize,
    n_kv_heads: usize,
    cursor: usize,
    out: Vec<Vec<u32>>,
    l: int,
    q: nat,
    list: Seq<usize>,
    k: int,
    i: int,
)
    requires
        carried(capture, layers, n_heads_q, n_kv_heads, cursor, Some(out)),
        0 <= l < capture.len(),
        q < n_heads_q,
        0 <= k,
        k * (n_heads_q / n_kv_heads) <= q < (k + 1) * (n_heads_q / n_kv_heads),
        list == match layers[l] {
            KeepSpec::LayerWide(list) => list@,
            KeepSpec::PerHead(heads) => heads@[k]@,
        },
        0 <= i,
    ensures
        out@.len() == capture.len(),
        ({
            let width = (capture[l]@.len() / n_heads_q as nat) as int;
            let cols = (out@[l]@.len() / n_heads_q as nat) as int;
            let shift = cursor - list.len();
            &&& shift >= 0
            &&& cols >= shift
            &&& out@[l]@.len() == n_heads_q * cols
            &&& i < cols - shift ==> i < list.len() && list[i] < width && out@[l]@[q * cols + shift
                + i] == capture[l]@[q * width + list[i]]
            &&& i < shift ==> out@[l]@[q * cols + i] == 0
            &&& cols - shift < list.len() ==> list[cols - shift] >= width
        }),
{
    let v = capture[l]@;
    let g = (n_heads_q / n_kv_heads) as int;
    let n = carried_width(capture, layers, n_heads_q, cursor);
    let width = v.len() / n_heads_q as nat;
    assert(layer_carries(v, layers[l], n_heads_q, n_kv_heads, cursor, n));
    assert(head_carries(v, layers[l], n_heads_q, n_kv_heads, cursor, n, q));
    assert(g > 0) by (nonlinear_arith)
        requires
            k * g <= q,
            (q as int) < (k + 1) * g,
            0 <= q,
            0 <= k,
    ;
    assert(kv_head_of(q, n_heads_q, n_kv_heads) == k) by {
        assert(k * g == g * k) by (nonlinear_arith);
        assert((k + 1) * g == k * g + g) by (nonlinear_arith);
        vstd::arithmetic::div_mod::lemma_fundamental_div_mod_converse(q as int, g, k, q - k * g);
    }
    assert(list == head_list(layers[l], k));
    lemma_leading(list, width, 0);
    lemma_leading_stops(list, width, 0);
    let shift = cursor - list.len();
    assert(n == shift + leading_below(list, width, 0));
    let m = n as nat;
    let heads = n_heads_q as nat;
    lemma_carried_rows(v, layers[l], n_heads_q, n_kv_heads, cursor, m, heads, q, shift + i);
    lemma_carried_rows(v, layers[l], n_heads_q, n_kv_heads, cursor, m, heads, q, i);
    let row = carried_row(v, q, width, list, cursor, n as nat);
    let all = out@[l]@;
    assert(all.len() == n_heads_q * n);
    assert(n_heads_q * n == n * n_heads_q) by (nonlinear_arith);
    vstd::arithmetic::div_mod::lemma_div_multiples_vanish(n, n_heads_q as int);
    if i < n - shift {
        assert(all[q * n + (shift + i)] == row[shift + i]);
    }
    if i < shift {
        assert(all[q * n + i] == row[i]);
    }
}

/// Behind the leading positions below the width comes one that is not.
proof fn lemma_leading_stops(list: Seq<usize>, width: nat, i: nat)
    requires
        i <= list.len(),
    ensures
        leading_below(list, width, i) < list.len() ==> list[leading_below(list, width, i) as int]
            >= width,
    decreases list.len() - i,
{
    if i < list.len() && list[i as int] < width {
        lemma_leading_stops(list, width, i + 1);
    }
}

/// A query head's row lies behind those of the heads before it.
proof fn lemma_carried_rows(
    v: Seq<u32>,
    keep: KeepSpec,
    n_heads_q: usize,
    n_kv_heads: usize,
    cursor: usize,
    n: nat,
    heads: nat,
    q: nat,
    j: int,
)
    ensures
        carried_layer(v, keep, n_heads_q, n_kv_heads, cursor, n, heads).len() == heads * n,
        q < heads && 0 <= j < n ==> carried_layer(
            v,
            keep,
            n_heads_q,
            n_kv_heads,
            cursor,
            n,
            heads,
        )[q * n + j] == carried_row(
            v,
            q,
            v.len() / n_heads_q as nat,
            head_list(keep, kv_head_of(q, n_heads_q, n_kv_heads) as int),
            cursor,
            n,
        )[j],
    decreases heads,
{
    if heads > 0 {
        let p = (heads - 1) as nat;
        lemma_carried_rows(v, keep, n_heads_q, n_kv_heads, cursor, n, p, q, j);
        assert(heads * n == p * n + n) by (nonlinear_arith)
            requires
                heads == p + 1,
        ;
        if q < p {
            assert(q * n + n <= p * n) by (nonlinear_arith)
                requires
                    q + 1 <= p,
            ;
        }
        assert(0 <= q * n) by (nonlinear_arith)
            requires
                0 <= q,
                0 <= n,
        ;
    } else {
        assert(0 * n == 0) by (nonlinear_arith);
    }
}

/// A list of positions that all have scores leads to its end.
proof fn lemma_leading_to_the_end(list: Seq<usize>, width: nat, i: nat)
    requires
        i <= list.len(),
        forall|j: int| i <= j < list.len() ==> #[trigger] list[j] < width,
    ensures
        leading_below(list, width, i) == list.len(),
    decreases list.len() - i,
{
    if i < list.len() {
        assert(list[i as int] < width);
        lemma_leading_to_the_end(list, width, i + 1);
    }
}

/// When scores are not carried: without a captured layer, with more of them than the plan has, without
/// heads or with fewer query heads than KV heads, and where the list of a head that is read is missing or
/// longer than the cursor.
pub proof fn lemma_when_scores_are_not_carried(
    capture: Seq<Vec<u32>>,
    layers: Seq<KeepSpec>,
    n_heads_q: usize,
    n_kv_heads: usize,
    cursor: usize,
    r: Option<Vec<Vec<u32>>>,
    l: int,
    k: int,
)
    requires
        carried(capture, layers, n_heads_q, n_kv_heads, cursor, r),
    ensures
        capture.len() == 0 ==> r is None,
        capture.len() > layers.len() ==> r is None,
        n_kv_heads == 0 ==> r is None,
        n_heads_q < n_kv_heads ==> r is None,
        r is Some && 0 <= l < capture.len() && 0 <= k && k * (n_heads_q / n_kv_heads) < n_heads_q ==> {
            &&& k < n_kv_heads
            &&& layers[l] matches KeepSpec::PerHead(heads) ==> k < heads@.len() && heads@[k]@.len()
                <= cursor
            &&& layers[l] matches KeepSpec::LayerWide(list) ==> list@.len() <= cursor
        },
{
    if r is Some && 0 <= l < capture.len() && 0 <= k && k * (n_heads_q / n_kv_heads) < n_heads_q {
        let g = (n_heads_q / n_kv_heads) as int;
        let q = k * g;
        vstd::arithmetic::div_mod::lemma_div_non_zero(n_heads_q as int, n_kv_heads as int);
        assert(0 <= q) by (nonlinear_arith)
            requires
                q == k * g,
                0 <= k,
                0 < g,
        ;
        vstd::arithmetic::div_mod::lemma_div_multiples_vanish(k, g);
        assert(g * k == q) by (nonlinear_arith)
            requires
                q == k * g,
        ;
        assert(kv_head_of(q as nat, n_heads_q, n_kv_heads) == k);
        assert(layer_carries(
            capture[l]@,
            layers[l],
            n_heads_q,
            n_kv_heads,
            cursor,
            carried_width(capture, layers, n_heads_q, cursor),
        ));
        assert(head_carries(
            capture[l]@,
            layers[l],
            n_heads_q,
            n_kv_heads,
            cursor,
            carried_width(capture, layers, n_heads_q, cursor),
            q as nat,
        ));
    }
}

/// A list of a layer, all of whose positions have scores, that is no longer than the cursor.
pub open spec fn list_is_scored(v: Seq<u32>, n_heads_q: usize, list: Seq<usize>, cursor: usize) -> bool {
    &&& list.len() <= cursor
    &&& forall|j: int| 0 <= j < list.len() ==> #[trigger] list[j] < v.len() / n_heads_q as nat
}

/// When scores are carried: where every captured layer has a plan, every KV head has its group of query
/// heads and its list, no list is longer than the cursor, and every kept position has scores. All of them
/// then end at the cursor.
pub proof fn lemma_when_scores_are_carried(
    capture: Seq<Vec<u32>>,
    layers: Seq<KeepSpec>,
    n_heads_q: usize,
    n_kv_heads: usize,
    cursor: usize,
    r: Option<Vec<Vec<u32>>>,
)
    requires
        carried(capture, layers, n_heads_q, n_kv_heads, cursor, r),
        0 < capture.len() <= layers.len(),
        0 < n_kv_heads <= n_heads_q,
        n_heads_q % n_kv_heads == 0,
        forall|l: int|
            0 <= l < capture.len() ==> match #[trigger] layers[l] {
                KeepSpec::LayerWide(list) => list_is_scored(capture[l]@, n_heads_q, list@, cursor),
                KeepSpec::PerHead(heads) => heads@.len() >= n_kv_heads && forall|k: int|
                    0 <= k < heads@.len() ==> list_is_scored(
                        capture[l]@,
                        n_heads_q,
                        (#[trigger] heads@[k])@,
                        cursor,
                    ),
            },
    ensures
        r is Some,
{
    let g = (n_heads_q / n_kv_heads) as int;
    vstd::arithmetic::div_mod::lemma_div_non_zero(n_heads_q as int, n_kv_heads as int);
    vstd::arithmetic::div_mod::lemma_fundamental_div_mod(n_heads_q as int, n_kv_heads as int);
    let n = carried_width(capture, layers, n_heads_q, cursor);
    assert forall|l: int, k: int| 0 <= l < capture.len() && 0 <= k < n_kv_heads implies scores_end(
        #[trigger] head_list(layers[l], k),
        capture[l]@.len() / n_heads_q as nat,
        cursor,
    ) == cursor && head_list(layers[l], k).len() <= cursor by {
        let list = head_list(layers[l], k);
        if let KeepSpec::PerHead(heads) = layers[l] {
            assert(list_is_scored(capture[l]@, n_heads_q, heads@[k]@, cursor));
            assert(list == heads@[k]@);
        }
        assert(list_is_scored(capture[l]@, n_heads_q, list, cursor));
        lemma_leading_to_the_end(list, capture[l]@.len() / n_heads_q as nat, 0);
    }
    assert(n == cursor) by {
        assert(scores_end(
            head_list(layers[0], 0),
            capture[0]@.len() / n_heads_q as nat,
            cursor,
        ) == cursor);
    }
    assert forall|l: int| 0 <= l < capture.len() implies layer_carries(
        (#[trigger] capture[l])@,
        layers[l],
        n_heads_q,
        n_kv_heads,
        cursor,
        n,
    ) by {
        assert forall|q: nat| q < n_heads_q implies #[trigger] head_carries(
            capture[l]@,
            layers[l],
            n_heads_q,
            n_kv_heads,
            cursor,
            n,
            q,
        ) by {
            let h = kv_head_of(q, n_heads_q, n_kv_heads) as int;
            vstd::arithmetic::div_mod::lemma_fundamental_div_mod(q as int, g);
            assert(0 <= h < n_kv_heads) by (nonlinear_arith)
                requires
                    h == q as int / g,
                    q as int == g * (q as int / g) + q as int % g,
                    0 <= q as int % g,
                    q < n_heads_q,
                    n_heads_q == n_kv_heads * g,
                    0 < g,
            ;
            assert(scores_end(
                head_list(layers[l], h),
                capture[l]@.len() / n_heads_q as nat,
                cursor,
            ) == cursor);
            let keep = layers[l];
            assert(has_head(keep, h as nat));
        }
    }
    assert(carriable(capture, layers, n_heads_q, n_kv_heads, cursor));
}

} // verus!
