//! How much the observation window attends to each position: on a device where one can read the
//! layers, else on the host.

use crate::arith::{div_up, up};
use crate::dtype::{DType, KVLayout};
use crate::keep_sets::KeepSets;
use crate::kv_cache::KVCache;
use crate::score_bits::{exceeds, not_a_number, spec_exceeds, spec_order};
use crate::window::{Geom, HostLayers};
use vstd::prelude::*;

verus! {

/// Why a measurement could not be made.
#[derive(Debug, PartialEq, Eq)]
pub struct MetricError(pub String);

/// What a device answers: the pooled scores of every layer, and the logits it was asked to export.
pub struct DevicePass {
    pub flat: Vec<u32>,
    pub logits: Option<Vec<u32>>,
}

/// What a device is asked for.
pub struct DeviceAsk<'a> {
    pub src: &'a HostLayers,
    pub g: Geom,
    pub capacity: usize,
    /// How many of the window's last rows to export the logits of.
    pub export_rows: usize,
}

/// The arithmetic of a decision. Results are bit patterns of single-precision numbers.
pub trait Metric {
    /// The window's attention to every position of every layer, on a device; `None` where there is
    /// none that can do it.
    fn device_pass(&self, ask: &DeviceAsk) -> Result<Option<DevicePass>, MetricError>;

    /// The window's attention to every position of a layer, one row per query head.
    fn host_pass(&self, src: &HostLayers, layer: usize, g: &Geom) -> Result<Vec<u32>, MetricError>;

    /// How far the output deviates where only these positions are retained.
    fn score(&self, src: &HostLayers, keep: &KeepSets, g: &Geom) -> Result<u32, MetricError>;
}

/// The longest cache for which logits are exported.
pub const A1_EXPORT_MAX_POS: usize = 2048;

/// How many rows a decision asks a device to export.
pub open spec fn spec_export_rows(current_pos: usize, metric_rows: usize) -> usize {
    if current_pos <= A1_EXPORT_MAX_POS {
        metric_rows
    } else {
        0
    }
}

/// How many rows a decision asks a device to export: none for a long cache, where the export costs
/// more memory than it saves time.
pub fn a1_export_rows(current_pos: usize, metric_rows: usize) -> (n: usize)
    ensures
        n == spec_export_rows(current_pos, metric_rows),
{
    if current_pos <= A1_EXPORT_MAX_POS {
        metric_rows
    } else {
        0
    }
}

/// Whether devices are asked.
pub struct DeviceLatch {
    /// Devices are asked at all.
    pub enabled: bool,
    /// A device has failed, and none is asked again.
    pub failed: bool,
}

/// A device can read a layer.
pub open spec fn device_readable(c: KVCache, g: Geom, capacity: usize) -> bool {
    &&& c@.shape.layout == KVLayout::HeadMajor
    &&& c@.shape.dtype == DType::F16
    &&& c@.shape.on_device
    &&& c@.shape.capacity == capacity
    &&& c@.shape.kv_heads == g.n_kv_heads
    &&& c@.shape.head_dim == g.head_dim
}

/// A device can read every layer, and they are alike.
pub open spec fn spec_device_fits(caches: Seq<KVCache>, g: Geom) -> bool {
    &&& caches.len() > 0
    &&& caches.len() == g.n_layers
    &&& caches[0]@.shape.capacity >= g.current_pos
    &&& forall|l: int|
        0 <= l < caches.len() ==> device_readable(
            #[trigger] caches[l],
            g,
            caches[0]@.shape.capacity,
        )
    &&& 0 < g.n_heads_q * g.current_pos <= usize::MAX
}

/// Whether a device can read every layer: their common capacity if it can.
pub fn device_fits(caches: &Vec<KVCache>, g: &Geom) -> (r: Option<usize>)
    ensures
        r == if spec_device_fits(caches@, *g) {
            Some(caches@[0]@.shape.capacity)
        } else {
            None::<usize>
        },
{
    if caches.len() == 0 || caches.len() != g.n_layers {
        return None;
    }
    let capacity: usize = caches[0].capacity();
    if capacity < g.current_pos {
        return None;
    }
    match g.n_heads_q.checked_mul(g.current_pos) {
        Some(0) => {
            return None;
        },
        None => {
            return None;
        },
        _ => {},
    }
    let mut l: usize = 0;
    while l < caches.len()
        invariant
            l <= caches@.len(),
            caches@.len() > 0,
            capacity == caches@[0]@.shape.capacity,
            forall|x: int|
                0 <= x < l ==> device_readable(#[trigger] caches@[x], *g, capacity),
        decreases caches@.len() - l,
    {
        let c = &caches[l];
        if !(c.layout() == KVLayout::HeadMajor && c.kv_dtype() == DType::F16 && c.on_device()
            && c.capacity() == capacity && c.kv_heads() == g.n_kv_heads && c.head_dim()
            == g.head_dim) {
            assert(!device_readable(caches@[l as int], *g, capacity));
            return None;
        }
        l = l + 1;
    }
    Some(capacity)
}

/// The pattern is a finite number.
pub open spec fn spec_finite(bits: u32) -> bool {
    bits % 0x8000_0000 < 0x7f80_0000
}

/// Every pattern is a finite number.
pub open spec fn all_finite(v: Seq<u32>) -> bool {
    forall|i: int| 0 <= i < v.len() ==> spec_finite(#[trigger] v[i])
}

/// Whether every pattern is a finite number.
pub fn are_finite(v: &Vec<u32>) -> (r: bool)
    ensures
        r == all_finite(v@),
{
    let mut i: usize = 0;
    while i < v.len()
        invariant
            i <= v@.len(),
            forall|k: int| 0 <= k < i ==> spec_finite(#[trigger] v@[k]),
        decreases v@.len() - i,
    {
        if v[i] % 0x8000_0000 >= 0x7f80_0000 {
            assert(!spec_finite(v@[i as int]));
            return false;
        }
        i = i + 1;
    }
    true
}

/// A device's answer can be used: nothing in it is infinite or no number.
pub open spec fn usable_pass(pass: DevicePass) -> bool {
    all_finite(pass.flat@) && (pass.logits matches Some(z) ==> all_finite(z@))
}

/// The stretch of `per` entries at `i`; the last may be shorter.
pub open spec fn chunk(flat: Seq<u32>, per: nat, i: int) -> Seq<u32> {
    let end = (i + 1) * per;
    flat.subrange(
        i * per,
        if end <= flat.len() {
            end
        } else {
            flat.len() as int
        },
    )
}

/// The chunks are the stretches of `per` entries.
pub open spec fn chunked(flat: Seq<u32>, per: nat, chunks: Seq<Vec<u32>>) -> bool {
    &&& chunks.len() == up(flat.len(), per)
    &&& forall|i: int| 0 <= i < chunks.len() ==> (#[trigger] chunks[i])@ == chunk(flat, per, i)
}

/// Splits into stretches of `per` entries.
fn split(flat: &Vec<u32>, per: usize) -> (chunks: Vec<Vec<u32>>)
    requires
        per > 0,
    ensures
        chunked(flat@, per as nat, chunks@),
{
    let len: usize = flat.len();
    let n: usize = div_up(len as u128, per as u128) as usize;
    proof {
        let x = len + per - 1;
        vstd::arithmetic::div_mod::lemma_fundamental_div_mod(x, per as int);
        assert(n * per <= len + per - 1) by (nonlinear_arith)
            requires
                x == per * n + x % per as int,
                0 <= x % per as int,
                x == len + per - 1,
        ;
    }
    let mut chunks: Vec<Vec<u32>> = Vec::new();
    let mut i: usize = 0;
    while i < n
        invariant
            i <= n,
            per > 0,
            n * per <= len + per - 1,
            len == flat@.len(),
            len == flat.len(),
            chunks@.len() == i,
            forall|k: int|
                0 <= k < i ==> (#[trigger] chunks@[k])@ == chunk(flat@, per as nat, k),
        decreases n - i,
    {
        let ghost before = chunks@;
        proof {
            assert(i * per < len && (i + 1) * per == i * per + per) by (nonlinear_arith)
                requires
                    i + 1 <= n,
                    n * per <= len + per - 1,
                    per > 0,
            ;
        }
        let start: usize = i * per;
        let end: usize = if len - start < per {
            len
        } else {
            start + per
        };
        let mut part: Vec<u32> = Vec::new();
        let mut k: usize = start;
        while k < end
            invariant
                start <= k <= end,
                end <= flat@.len(),
                part@ == flat@.subrange(start as int, k as int),
            decreases end - k,
        {
            part.push(flat[k]);
            k = k + 1;
            assert(part@ =~= flat@.subrange(start as int, k as int));
        }
        chunks.push(part);
        proof {
            assert forall|k: int| 0 <= k < i + 1 implies (#[trigger] chunks@[k])@ == chunk(
                flat@,
                per as nat,
                k,
            ) by {
                if k < i {
                    assert(chunks@[k] == before[k]);
                }
            }
        }
        i = i + 1;
    }
    chunks
}

/// What a window pass gives: each layer's scores, and a device's logits if it exported any.
pub struct WindowPass {
    pub scores: Vec<Vec<u32>>,
    pub logits: Option<Vec<u32>>,
}

/// The host computed these scores for the leading layers.
pub open spec fn host_scored<M: Metric>(
    metric: &M,
    src: HostLayers,
    g: Geom,
    scores: Seq<Vec<u32>>,
) -> bool {
    forall|l: int|
        0 <= l < scores.len() ==> call_ensures(
            M::host_pass,
            (metric, &src, l as usize, &g),
            Ok(#[trigger] scores[l]),
        )
}

/// What the host made of the window: every layer's scores, or the first layer's failure.
pub open spec fn host_ran<M: Metric>(
    metric: &M,
    src: HostLayers,
    g: Geom,
    r: Result<WindowPass, MetricError>,
) -> bool {
    match r {
        Ok(pass) => pass.logits is None && pass.scores@.len() == g.n_layers && host_scored(
            metric,
            src,
            g,
            pass.scores@,
        ),
        Err(e) => exists|before: Seq<Vec<u32>>|
            before.len() < g.n_layers && #[trigger] host_scored(metric, src, g, before)
                && call_ensures(
                M::host_pass,
                (metric, &src, before.len() as usize, &g),
                Err(e),
            ),
    }
}

/// What a decision asks a device for.
pub open spec fn device_ask<'a>(src: &'a HostLayers, g: Geom, capacity: usize) -> DeviceAsk<'a> {
    DeviceAsk {
        src,
        g,
        capacity,
        export_rows: if spec_export_rows(g.current_pos, src.rows) < g.rows {
            spec_export_rows(g.current_pos, src.rows)
        } else {
            g.rows
        },
    }
}

/// What a window pass came to, given what a device answered, if one was asked.
pub open spec fn pass_outcome<M: Metric>(
    metric: &M,
    src: HostLayers,
    g: Geom,
    answer: Option<Result<Option<DevicePass>, MetricError>>,
    failed_before: bool,
    failed_after: bool,
    r: Result<WindowPass, MetricError>,
) -> bool {
    match answer {
        Some(Ok(Some(pass))) => if usable_pass(pass) {
            &&& failed_after == failed_before
            &&& r matches Ok(w) && w.logits == pass.logits && chunked(
                pass.flat@,
                (g.n_heads_q * g.current_pos) as nat,
                w.scores@,
            )
        } else {
            failed_after && host_ran(metric, src, g, r)
        },
        Some(Err(_)) => failed_after && host_ran(metric, src, g, r),
        _ => failed_after == failed_before && host_ran(metric, src, g, r),
    }
}

/// What a window pass did. A device is asked where devices are asked, none has failed and it can
/// read the layers; where it declines or fails, the host computes.
pub open spec fn window_ran<M: Metric>(
    metric: &M,
    caches: Seq<KVCache>,
    src: HostLayers,
    g: Geom,
    before: DeviceLatch,
    after: DeviceLatch,
    r: Result<WindowPass, MetricError>,
) -> bool {
    &&& after.enabled == before.enabled
    &&& if before.enabled && !before.failed && spec_device_fits(caches, g) {
        exists|answer: Result<Option<DevicePass>, MetricError>|
            #[trigger] call_ensures(
                M::device_pass,
                (metric, &device_ask(&src, g, caches[0]@.shape.capacity)),
                answer,
            ) && pass_outcome(
                metric,
                src,
                g,
                Some(answer),
                before.failed,
                after.failed,
                r,
            )
    } else {
        pass_outcome(metric, src, g, None, before.failed, after.failed, r)
    }
}

/// Every layer's scores by the host.
fn host_window<M: Metric>(metric: &M, src: &HostLayers, g: &Geom) -> (r: Result<
    WindowPass,
    MetricError,
>)
    ensures
        host_ran(metric, *src, *g, r),
{
    let mut scores: Vec<Vec<u32>> = Vec::new();
    let mut l: usize = 0;
    while l < g.n_layers
        invariant
            l <= g.n_layers,
            scores@.len() == l,
            host_scored(metric, *src, *g, scores@),
        decreases g.n_layers - l,
    {
        let ghost before = scores@;
        let answer = metric.host_pass(src, l, g);
        assert(call_ensures(M::host_pass, (metric, src, l, g), answer));
        match answer {
            Ok(layer) => {
                scores.push(layer);
            },
            Err(e) => {
                return Err(e);
            },
        }
        l = l + 1;
    }
    Ok(WindowPass { scores, logits: None })
}

/// How much the window attends to each position of every layer.
pub fn window_attention_layers<M: Metric>(
    metric: &M,
    caches: &Vec<KVCache>,
    src: &HostLayers,
    g: &Geom,
    latch: &mut DeviceLatch,
) -> (r: Result<WindowPass, MetricError>)
    ensures
        window_ran(metric, caches@, *src, *g, *old(latch), *final(latch), r),
{
    if latch.enabled && !latch.failed {
        if let Some(capacity) = device_fits(caches, g) {
            let wanted: usize = a1_export_rows(g.current_pos, src.rows);
            let export_rows: usize = if wanted < g.rows {
                wanted
            } else {
                g.rows
            };
            let ask = DeviceAsk { src, g: *g, capacity, export_rows };
            assert(ask == device_ask(src, *g, capacity));
            let answer = metric.device_pass(&ask);
            let ghost said = answer;
            assert(call_ensures(
                M::device_pass,
                (metric, &device_ask(src, *g, caches@[0]@.shape.capacity)),
                said,
            ));
            match answer {
                Ok(Some(pass)) => {
                    let sound: bool = are_finite(&pass.flat) && match &pass.logits {
                        Some(z) => are_finite(z),
                        None => true,
                    };
                    if sound {
                        let per: usize = g.n_heads_q * g.current_pos;
                        let scores = split(&pass.flat, per);
                        return Ok(WindowPass { scores, logits: pass.logits });
                    }
                    latch.failed = true;
                },
                Ok(None) => {},
                Err(_) => {
                    latch.failed = true;
                },
            }
        }
    }
    host_window(metric, src, g)
}

/// The position that a scan from the left ends at: it goes on to every position whose number is not
/// exceeded by the one it is at. A pattern that is no number neither exceeds nor is exceeded.
pub open spec fn spec_argmax(v: Seq<u32>) -> int
    decreases v.len(),
{
    if v.len() <= 1 {
        0
    } else {
        let at = spec_argmax(v.drop_last());
        if spec_exceeds(v[at], v.last()) {
            at
        } else {
            v.len() - 1
        }
    }
}

/// The row has a greatest number, and it is at `at`; of equals the last.
pub open spec fn greatest(v: Seq<u32>, at: int) -> bool {
    v.len() > 0 && at == spec_argmax(v)
}

/// A scan ends within the row.
pub proof fn lemma_argmax_bounds(v: Seq<u32>)
    requires
        v.len() > 0,
    ensures
        0 <= spec_argmax(v) < v.len(),
    decreases v.len(),
{
    if v.len() > 1 {
        lemma_argmax_bounds(v.drop_last());
    }
}

/// In a row of numbers the scan ends at the greatest; of equals at the last.
pub proof fn lemma_argmax_is_the_greatest(v: Seq<u32>, i: int)
    requires
        0 <= i < v.len(),
        forall|k: int| 0 <= k < v.len() ==> !not_a_number(#[trigger] v[k]),
    ensures
        spec_order(v[i]) <= spec_order(v[spec_argmax(v)]),
        i > spec_argmax(v) ==> spec_order(v[i]) < spec_order(v[spec_argmax(v)]),
    decreases v.len(),
{
    lemma_argmax_bounds(v);
    if v.len() > 1 {
        let rest = v.drop_last();
        lemma_argmax_bounds(rest);
        let at = spec_argmax(rest);
        assert(rest[at] == v[at]);
        assert forall|k: int| 0 <= k < rest.len() implies !not_a_number(#[trigger] rest[k]) by {
            assert(rest[k] == v[k]);
        }
        if i < rest.len() {
            lemma_argmax_is_the_greatest(rest, i);
            assert(rest[i] == v[i]);
        }
    }
}

/// The position of the greatest of the numbers in `[start, end)`, counted from `start`; of equals
/// the last.
pub fn argmax(v: &Vec<u32>, start: usize, end: usize) -> (r: Option<usize>)
    requires
        start <= end <= v@.len(),
    ensures
        match r {
            None => start == end,
            Some(at) => greatest(v@.subrange(start as int, end as int), at as int) && at < end
                - start,
        },
{
    if start == end {
        return None;
    }
    let ghost part = v@.subrange(start as int, end as int);
    let mut best: usize = 0;
    let mut i: usize = 1;
    while i < end - start
        invariant
            start < end <= v@.len(),
            part == v@.subrange(start as int, end as int),
            best < i <= end - start,
            best == spec_argmax(part.take(i as int)),
        decreases end - start - i,
    {
        proof {
            assert(part[i as int] == v@[start + i] && part[best as int] == v@[start + best]);
            let next = part.take(i + 1);
            assert(next.drop_last() =~= part.take(i as int));
            assert(next.last() == part[i as int] && next[best as int] == part[best as int]);
        }
        if !exceeds(v[start + best], v[start + i]) {
            best = i;
        }
        i = i + 1;
    }
    assert(part.take(i as int) =~= part);
    Some(best)
}

/// One head's scores.
pub open spec fn head_scores(v: Seq<u32>, h: int, width: nat) -> Seq<u32> {
    v.subrange(h * width, (h + 1) * width)
}

/// Two rows put the same position first.
pub open spec fn rank_alike(a: Seq<u32>, b: Seq<u32>) -> bool {
    exists|at: int| #[trigger] greatest(a, at) && greatest(b, at)
}

/// How many of the leading heads put different positions first.
pub open spec fn mismatches(a: Seq<u32>, b: Seq<u32>, heads: nat, width: nat) -> nat
    decreases heads,
{
    if heads == 0 {
        0
    } else {
        let h = heads - 1;
        mismatches(a, b, h as nat, width) + if rank_alike(
            head_scores(a, h, width),
            head_scores(b, h, width),
        ) {
            0nat
        } else {
            1nat
        }
    }
}

/// How many heads of a layer put different positions first in two passes; `None` unless both have a
/// row of scores per head.
pub fn argmax_mismatches(a: &Vec<u32>, b: &Vec<u32>, n_heads_q: usize, width: usize) -> (r: Option<
    usize,
>)
    requires
        width > 0,
    ensures
        match r {
            None => a@.len() != b@.len() || a@.len() < n_heads_q * width,
            Some(n) => a@.len() == b@.len() && a@.len() >= n_heads_q * width && n == mismatches(
                a@,
                b@,
                n_heads_q as nat,
                width as nat,
            ),
        },
{
    assert(a@.len() == a.len() && b@.len() == b.len());
    match n_heads_q.checked_mul(width) {
        Some(n) if n <= a.len() && a.len() == b.len() => {},
        _ => {
            return None;
        },
    }
    let mut n: usize = 0;
    let mut h: usize = 0;
    while h < n_heads_q
        invariant
            h <= n_heads_q,
            width > 0,
            n <= h,
            n_heads_q * width <= a@.len(),
            a@.len() == b@.len(),
            a@.len() == a.len(),
            n == mismatches(a@, b@, h as nat, width as nat),
        decreases n_heads_q - h,
    {
        proof {
            assert((h + 1) * width <= n_heads_q * width && (h + 1) * width == h * width + width
                && 0 <= h * width) by (nonlinear_arith)
                requires
                    h + 1 <= n_heads_q,
                    0 <= h,
                    0 < width,
            ;
        }
        let start: usize = h * width;
        let end: usize = start + width;
        let ghost x = head_scores(a@, h as int, width as nat);
        let ghost y = head_scores(b@, h as int, width as nat);
        let p = argmax(a, start, end);
        let q = argmax(b, start, end);
        let alike: bool = match (p, q) {
            (Some(i), Some(j)) => i == j,
            _ => false,
        };
        proof {
            assert(greatest(x, p->0 as int) && greatest(y, q->0 as int));
            assert(alike == rank_alike(x, y));
        }
        if !alike {
            n = n + 1;
        }
        h = h + 1;
    }
    Some(n)
}

/// How many rows a device is asked to export: those of the metric up to a frame of two thousand and
/// forty-eight positions, none beyond, and never more than the decision has.
pub proof fn lemma_rows_asked_for(src: &HostLayers, g: Geom, capacity: usize)
    ensures
        ({
            let ask = device_ask(src, g, capacity);
            &&& ask.src == src
            &&& ask.g == g
            &&& ask.capacity == capacity
            &&& g.current_pos > 2048 ==> ask.export_rows == 0
            &&& ask.export_rows <= g.rows
            &&& g.current_pos <= 2048 ==> ask.export_rows <= src.rows && (ask.export_rows == src.rows
                || ask.export_rows == g.rows)
        }),
{
}

/// Which layers a device can read: as many as the decision is over, all head-major in half precision on
/// the device, of one capacity that covers the frame and of the decision's heads and width; and the
/// frame's scores are not none and can be counted.
pub proof fn lemma_when_a_device_can_read(caches: Vec<KVCache>, g: Geom, r: Option<usize>, l: int)
    requires
        call_ensures(device_fits, (&caches, &g), r),
        0 <= l < caches@.len(),
    ensures
        r matches Some(capacity) ==> {
            &&& caches@.len() == g.n_layers
            &&& capacity >= g.current_pos
            &&& caches@[l]@.shape.capacity == capacity
            &&& caches@[l]@.shape.layout == KVLayout::HeadMajor
            &&& caches@[l]@.shape.dtype == DType::F16
            &&& caches@[l]@.shape.on_device
            &&& caches@[l]@.shape.kv_heads == g.n_kv_heads
            &&& caches@[l]@.shape.head_dim == g.head_dim
            &&& g.n_heads_q > 0
            &&& g.current_pos > 0
        },
        caches@.len() == g.n_layers && 0 < g.n_heads_q * g.current_pos <= usize::MAX && (
        forall|i: int|
            0 <= i < caches@.len() ==> {
                &&& (#[trigger] caches@[i])@.shape.capacity == caches@[0]@.shape.capacity
                &&& caches@[i]@.shape.capacity >= g.current_pos
                &&& caches@[i]@.shape.layout == KVLayout::HeadMajor
                &&& caches@[i]@.shape.dtype == DType::F16
                &&& caches@[i]@.shape.on_device
                &&& caches@[i]@.shape.kv_heads == g.n_kv_heads
                &&& caches@[i]@.shape.head_dim == g.head_dim
            }) ==> r == Some(caches@[0]@.shape.capacity),
{
    if spec_device_fits(caches@, g) {
        assert(device_readable(caches@[l], g, caches@[0]@.shape.capacity));
        assert(g.n_heads_q > 0 && g.current_pos > 0) by (nonlinear_arith)
            requires
                0 < g.n_heads_q * g.current_pos,
        ;
    }
    if caches@.len() == g.n_layers && 0 < g.n_heads_q * g.current_pos <= usize::MAX && (forall|i: int|
        0 <= i < caches@.len() ==> {
            &&& (#[trigger] caches@[i])@.shape.capacity == caches@[0]@.shape.capacity
            &&& caches@[i]@.shape.capacity >= g.current_pos
            &&& caches@[i]@.shape.layout == KVLayout::HeadMajor
            &&& caches@[i]@.shape.dtype == DType::F16
            &&& caches@[i]@.shape.on_device
            &&& caches@[i]@.shape.kv_heads == g.n_kv_heads
            &&& caches@[i]@.shape.head_dim == g.head_dim
        }) {
        assert(caches@[0]@.shape.capacity >= g.current_pos);
        assert(spec_device_fits(caches@, g));
    }
}

/// Which answers of a device count: those in which no pattern is an infinity or no number, neither among
/// the scores nor among the logits.
pub proof fn lemma_which_passes_are_usable(pass: DevicePass, i: int)
    ensures
        usable_pass(pass) && 0 <= i < pass.flat@.len() ==> pass.flat@[i] < 0x7f80_0000 || 0x8000_0000
            <= pass.flat@[i] < 0xff80_0000,
        usable_pass(pass) ==> (pass.logits matches Some(z) ==> (0 <= i < z@.len() ==> z@[i]
            < 0x7f80_0000 || 0x8000_0000 <= z@[i] < 0xff80_0000)),
        0 <= i < pass.flat@.len() && (0x7f80_0000 <= pass.flat@[i] < 0x8000_0000 || pass.flat@[i]
            >= 0xff80_0000) ==> !usable_pass(pass),
        (forall|k: int|
            0 <= k < pass.flat@.len() ==> (#[trigger] pass.flat@[k]) < 0x7f80_0000 || 0x8000_0000
                <= pass.flat@[k] < 0xff80_0000) && (pass.logits matches Some(z) ==> forall|k: int|
            0 <= k < z@.len() ==> (#[trigger] z@[k]) < 0x7f80_0000 || 0x8000_0000 <= z@[k]
                < 0xff80_0000) ==> usable_pass(pass),
{
    if usable_pass(pass) {
        if 0 <= i < pass.flat@.len() {
            assert(spec_finite(pass.flat@[i]));
        }
        if let Some(z) = pass.logits {
            if 0 <= i < z@.len() {
                assert(spec_finite(z@[i]));
            }
        }
    }
}

/// A device's scores, layer by layer: the score of a head for a position is the one at its place in the
/// answer, layer after layer and head after head, and the device is asked again.
pub proof fn lemma_device_scores_are_split_by_layer<M: Metric>(
    metric: &M,
    src: HostLayers,
    g: Geom,
    pass: DevicePass,
    failed_before: bool,
    failed_after: bool,
    r: Result<WindowPass, MetricError>,
    l: int,
    h: int,
    p: int,
)
    requires
        usable_pass(pass),
        pass_outcome(metric, src, g, Some(Ok(Some(pass))), failed_before, failed_after, r),
        0 <= l < g.n_layers,
        0 <= h < g.n_heads_q,
        0 <= p < g.current_pos,
        pass.flat@.len() == g.n_layers * (g.n_heads_q * g.current_pos),
    ensures
        failed_after == failed_before,
        r matches Ok(w) && {
            &&& w.logits == pass.logits
            &&& w.scores@.len() == g.n_layers
            &&& w.scores@[l]@.len() == g.n_heads_q * g.current_pos
            &&& w.scores@[l]@[h * g.current_pos + p] == pass.flat@[(l * g.n_heads_q + h)
                * g.current_pos + p]
        },
{
    let per = g.n_heads_q * g.current_pos;
    let n = g.n_layers as int;
    assert(0 < per) by (nonlinear_arith)
        requires
            per == g.n_heads_q * g.current_pos,
            0 <= h < g.n_heads_q,
            0 <= p < g.current_pos,
    ;
    crate::arith::lemma_up_is_the_least_enough(pass.flat@.len(), per as nat);
    let w = r->Ok_0;
    let m = w.scores@.len() as int;
    assert(m == n) by (nonlinear_arith)
        requires
            per > 0,
            m * per >= n * per,
            (m - 1) * per < n * per || m == 0,
            n >= 0,
            m >= 0,
    ;
    assert((l + 1) * per <= n * per && (l + 1) * per == l * per + per && 0 <= l * per)
        by (nonlinear_arith)
        requires
            l + 1 <= n,
            0 <= l,
            0 < per,
    ;
    assert(0 <= h * g.current_pos + p < per) by (nonlinear_arith)
        requires
            per == g.n_heads_q * g.current_pos,
            0 <= h,
            h + 1 <= g.n_heads_q,
            0 <= p < g.current_pos,
    ;
    assert(w.scores@[l]@ == chunk(pass.flat@, per as nat, l));
    assert(l * (g.n_heads_q * g.current_pos) + (h * g.current_pos + p) == (l * g.n_heads_q + h)
        * g.current_pos + p) by (nonlinear_arith);
}

/// Where the host computes: where no device is asked or one declines, and then none counts as failed;
/// where one fails, or answers what cannot be used, and then none is asked again. The host's scores are
/// the metric's, layer by layer, without logits.
pub proof fn lemma_when_the_host_computes<M: Metric>(
    metric: &M,
    caches: Seq<KVCache>,
    src: HostLayers,
    g: Geom,
    before: DeviceLatch,
    after: DeviceLatch,
    r: Result<WindowPass, MetricError>,
    l: int,
)
    requires
        window_ran(metric, caches, src, g, before, after, r),
        0 <= l < g.n_layers,
    ensures
        after.enabled == before.enabled,
        before.failed ==> after.failed,
        !before.enabled || before.failed || caches.len() != g.n_layers ==> {
            &&& after.failed == before.failed
            &&& r matches Ok(w) ==> {
                &&& w.logits is None
                &&& w.scores@.len() == g.n_layers
                &&& call_ensures(M::host_pass, (metric, &src, l as usize, &g), Ok(w.scores@[l]))
            }
        },
        after.failed && !before.failed ==> (r matches Ok(w) ==> {
            &&& w.logits is None
            &&& w.scores@.len() == g.n_layers
            &&& call_ensures(M::host_pass, (metric, &src, l as usize, &g), Ok(w.scores@[l]))
        }),
{
    if let Ok(w) = r {
        if w.logits is None && w.scores@.len() == g.n_layers && host_scored(metric, src, g, w.scores@) {
            let mine = w.scores@[l];
            assert(call_ensures(M::host_pass, (metric, &src, l as usize, &g), Ok(mine)));
        }
    }
}

/// One position more: the scan goes on to it unless the number it is at is greater.
pub proof fn lemma_argmax_of_one_more(v: Seq<u32>, x: u32)
    requires
        v.len() > 0,
    ensures
        spec_argmax(seq![x]) == 0,
        not_a_number(x) ==> spec_argmax(v.push(x)) == v.len(),
        not_a_number(v[spec_argmax(v)]) ==> spec_argmax(v.push(x)) == v.len(),
        !not_a_number(x) && !not_a_number(v[spec_argmax(v)]) && spec_order(x) >= spec_order(
            v[spec_argmax(v)],
        ) ==> spec_argmax(v.push(x)) == v.len(),
        !not_a_number(x) && !not_a_number(v[spec_argmax(v)]) && spec_order(x) < spec_order(
            v[spec_argmax(v)],
        ) ==> spec_argmax(v.push(x)) == spec_argmax(v),
{
    lemma_argmax_bounds(v);
    assert(v.push(x).drop_last() =~= v);
}

/// One head more: it counts exactly when its two rows put different positions first.
pub proof fn lemma_mismatches_count_the_heads(a: Seq<u32>, b: Seq<u32>, heads: nat, width: nat)
    requires
        width > 0,
        (heads + 1) * width <= a.len(),
        (heads + 1) * width <= b.len(),
    ensures
        mismatches(a, b, 0, width) == 0,
        ({
            let x = a.subrange((heads * width) as int, (heads * width + width) as int);
            let y = b.subrange((heads * width) as int, (heads * width + width) as int);
            &&& spec_argmax(x) == spec_argmax(y) ==> mismatches(a, b, heads + 1, width)
                == mismatches(a, b, heads, width)
            &&& spec_argmax(x) != spec_argmax(y) ==> mismatches(a, b, heads + 1, width)
                == mismatches(a, b, heads, width) + 1
        }),
{
    let x = a.subrange((heads * width) as int, (heads * width + width) as int);
    let y = b.subrange((heads * width) as int, (heads * width + width) as int);
    assert((heads + 1) * width == heads * width + width && 0 <= heads * width) by (nonlinear_arith);
    assert(x == head_scores(a, heads as int, width));
    assert(y == head_scores(b, heads as int, width));
    assert(greatest(x, spec_argmax(x)) && greatest(y, spec_argmax(y)));
    if spec_argmax(x) == spec_argmax(y) {
        assert(rank_alike(x, y));
    }
}

} // verus!
