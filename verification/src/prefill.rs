//! A prefill: which device runs it, and on the host what is computed from which elements.

use crate::attention::{batch_slices, prefill_score_rows, prefill_source, score_row, scores_ok,
    spec_prefill_source, trailing_start, try_device_prefill, PrefillDims, PrefillSource,
    PrefillStrides, ScoreRow};
use crate::dtype::{DType, KVLayout};
use crate::standard_format::BackendCaps;
use vstd::prelude::*;

verus! {

/// Where the operands of a prefill are.
pub struct PrefillPlace {
    pub caps: BackendCaps,
    pub kv_on_device: bool,
    /// The query cannot be read by the host as it is.
    pub query_on_device: bool,
    pub dtype: DType,
}

/// The elements of one batch entry.
#[derive(Clone, Copy, Debug, PartialEq, Eq, Structural)]
pub struct BatchSlice {
    /// Where the queries start, and the outputs.
    pub q_start: usize,
    /// Where the keys start, and the values.
    pub k_start: usize,
    /// Where they end.
    pub k_end: usize,
}

/// A prefill by the host.
pub struct HostPrefill {
    pub source: PrefillSource,
    pub strides: PrefillStrides,
    pub batches: Vec<BatchSlice>,
    /// The scores to accumulate, where some are asked for. They are of the first batch entry.
    pub scores: Option<Vec<ScoreRow>>,
    /// The output is written back to the device.
    pub write_back: bool,
}

/// How a prefill goes on.
pub enum PrefillWork {
    /// The device has done it.
    Done,
    /// The host does it.
    Host(HostPrefill),
}

/// Every element of a prefill is inside its operand.
pub open spec fn prefill_ok(d: PrefillDims, q_window: Option<usize>) -> bool {
    &&& d.cache_seq_len <= d.kv_capacity
    &&& d.strides_fit()
    &&& d.batch_size * d.q_chunk() <= usize::MAX
    &&& d.batch_size * d.k_chunk() <= usize::MAX
    &&& q_window is Some ==> scores_ok(d)
}

/// The strides of a prefill.
pub open spec fn strides_of(d: PrefillDims, s: PrefillStrides) -> bool {
    &&& s.q_chunk == d.q_chunk()
    &&& s.k_chunk == d.k_chunk()
    &&& s.k_valid == d.k_valid()
    &&& s.k_pos == d.k_pos()
    &&& s.kv_head == d.kv_head()
    &&& s.q_row == d.n_heads_q * d.head_dim
}

/// One batch entry's elements.
pub open spec fn batch_of(d: PrefillDims, b: int) -> BatchSlice {
    BatchSlice {
        q_start: (b * d.q_chunk()) as usize,
        k_start: (b * d.k_chunk()) as usize,
        k_end: (b * d.k_chunk() + d.k_valid()) as usize,
    }
}

/// The score rows of the trailing queries.
pub open spec fn score_rows_of(d: PrefillDims, q_window: usize, rows: Seq<ScoreRow>) -> bool {
    let start = trailing_start(d.seq_len, q_window);
    let n = d.seq_len - start;
    &&& rows.len() == d.n_heads_q * n
    &&& forall|h: int, r: int|
        0 <= h < d.n_heads_q && start <= r < d.seq_len ==> rows[h * n + (r - start)]
            == #[trigger] score_row(d, h, r)
}

/// What the host computes.
pub open spec fn host_prefill_of(
    d: PrefillDims,
    place: PrefillPlace,
    q_window: Option<usize>,
    work: HostPrefill,
) -> bool {
    &&& work.source == spec_prefill_source(
        place.caps.is_gpu,
        place.query_on_device,
        place.dtype,
    )
    &&& strides_of(d, work.strides)
    &&& work.batches@.len() == d.batch_size
    &&& forall|b: int| 0 <= b < d.batch_size ==> #[trigger] work.batches@[b] == batch_of(d, b)
    &&& match (q_window, work.scores) {
        (Some(w), Some(rows)) => score_rows_of(d, w, rows@),
        (None, None) => true,
        _ => false,
    }
    &&& work.write_back == (place.caps.is_gpu && place.query_on_device)
}

/// How a prefill goes on: done where a device that may be asked has run it, and else by the host.
pub open spec fn prefill_planned(
    d: PrefillDims,
    place: PrefillPlace,
    dispatched: bool,
    q_window: Option<usize>,
    work: PrefillWork,
) -> bool {
    let on_device = place.caps.is_gpu && place.kv_on_device && dispatched;
    match work {
        PrefillWork::Done => on_device,
        PrefillWork::Host(work) => !on_device && host_prefill_of(d, place, q_window, work),
    }
}

/// How a prefill goes on, given whether the device has run it. A device is only asked where the
/// backend is one and the keys are there; where it was not asked or declined, the host computes.
pub fn prefill_attention(
    d: &PrefillDims,
    place: &PrefillPlace,
    dispatched: bool,
    q_window: Option<usize>,
) -> (work: PrefillWork)
    requires
        prefill_ok(*d, q_window),
    ensures
        prefill_planned(*d, *place, dispatched, q_window, work),
{
    if try_device_prefill(&place.caps, place.kv_on_device) && dispatched {
        return PrefillWork::Done;
    }
    let source = prefill_source(place.caps.is_gpu, place.query_on_device, place.dtype);
    let strides: PrefillStrides = match d.strides() {
        Some(s) => s,
        None => PrefillStrides { q_chunk: 0, k_chunk: 0, k_valid: 0, k_pos: 0, kv_head: 0, q_row: 0 },
    };
    let mut batches: Vec<BatchSlice> = Vec::new();
    let mut b: usize = 0;
    while b < d.batch_size
        invariant
            b <= d.batch_size,
            prefill_ok(*d, q_window),
            strides_of(*d, strides),
            batches@.len() == b,
            forall|x: int| 0 <= x < b ==> #[trigger] batches@[x] == batch_of(*d, x),
        decreases d.batch_size - b,
    {
        let (q_start, k_start, k_end) = batch_slices(d, &strides, b);
        batches.push(BatchSlice { q_start, k_start, k_end });
        b = b + 1;
    }
    let scores: Option<Vec<ScoreRow>> = match q_window {
        Some(w) => Some(prefill_score_rows(d, w)),
        None => None,
    };
    PrefillWork::Host(
        HostPrefill {
            source,
            strides,
            batches,
            scores,
            write_back: place.caps.is_gpu && place.query_on_device,
        },
    )
}

/// Scores are a side channel: whether they are wanted, and of how many queries, changes nothing of what
/// else a prefill computes, from which elements, and where it puts it. Where some are wanted there is
/// at least one row of them.
pub proof fn lemma_scores_change_nothing_else(
    d: PrefillDims,
    place: PrefillPlace,
    dispatched: bool,
    some: Option<usize>,
    other: Option<usize>,
    a: PrefillWork,
    b: PrefillWork,
)
    requires
        prefill_planned(d, place, dispatched, some, a),
        prefill_planned(d, place, dispatched, other, b),
    ensures
        match (a, b) {
            (PrefillWork::Done, PrefillWork::Done) => true,
            (PrefillWork::Host(x), PrefillWork::Host(y)) => {
                &&& x.source == y.source
                &&& x.strides == y.strides
                &&& x.batches@ == y.batches@
                &&& x.write_back == y.write_back
                &&& some matches Some(w) ==> w > 0 && d.seq_len > 0 && d.n_heads_q > 0
                    ==> x.scores->0@.len() > 0
            },
            _ => false,
        },
{
    if let (PrefillWork::Host(x), PrefillWork::Host(y)) = (a, b) {
        assert(x.batches@ =~= y.batches@) by {
            assert forall|i: int| 0 <= i < d.batch_size implies #[trigger] x.batches@[i]
                == y.batches@[i] by {
                assert(x.batches@[i] == batch_of(d, i));
                assert(y.batches@[i] == batch_of(d, i));
            }
        }
        if let Some(w) = some {
            let n = d.seq_len - trailing_start(d.seq_len, w);
            assert(n > 0 && d.n_heads_q > 0 ==> d.n_heads_q * n > 0) by (nonlinear_arith);
        }
    }
}

/// No batch entry reads or writes outside the operands, and no two share an output.
pub proof fn lemma_batches_are_apart(d: PrefillDims, a: int, b: int)
    requires
        prefill_ok(d, None),
        0 <= a < b < d.batch_size,
    ensures
        batch_of(d, a).q_start + d.q_chunk() <= batch_of(d, b).q_start,
        batch_of(d, b).q_start + d.q_chunk() <= d.batch_size * d.q_chunk(),
        batch_of(d, a).k_end <= batch_of(d, b).k_start,
        batch_of(d, b).k_end <= d.batch_size * d.k_chunk(),
{
    let q = d.q_chunk();
    let k = d.k_chunk();
    let v = d.k_valid();
    let w = d.head_dim as int;
    let n = d.n_heads_kv as int;
    let c = d.kv_capacity as int;
    let l = d.cache_seq_len as int;
    assert((n * c) * w == (c * n) * w) by (nonlinear_arith);
    assert(0 <= (l * n) * w <= (c * n) * w) by (nonlinear_arith)
        requires
            0 <= l <= c,
            0 <= n,
            0 <= w,
    ;
    assert(0 <= q) by (nonlinear_arith)
        requires
            q == (d.seq_len * d.n_heads_q) * w,
            0 <= w,
    ;
    let m = d.batch_size as int;
    assert(0 <= a * q && a * q + q <= b * q && b * q + q <= m * q) by (nonlinear_arith)
        requires
            0 <= a,
            a + 1 <= b,
            b + 1 <= m,
            0 <= q,
    ;
    assert(0 <= a * k && a * k + k <= b * k && b * k + k <= m * k) by (nonlinear_arith)
        requires
            0 <= a,
            a + 1 <= b,
            b + 1 <= m,
            0 <= k,
    ;
}

/// What the exported scores are of. There is one row for each query head and each of the trailing
/// `w` queries. The query heads that read a key head are a run of neighbours, as many for each: of
/// `n_heads_q` heads over `n_heads_kv`, head `h` reads the key head `k` with `k <= h * n_heads_kv /
/// n_heads_q < k + 1`. A query sees its own position and, of those before it, the ones less than a
/// window away. Queries lie query after query, head after head; scores lie head after head, a
/// frame's length each.
pub proof fn lemma_score_rows(
    d: PrefillDims,
    place: PrefillPlace,
    dispatched: bool,
    w: usize,
    work: HostPrefill,
    i: int,
)
    requires
        prefill_ok(d, Some(w)),
        prefill_planned(d, place, dispatched, Some(w), PrefillWork::Host(work)),
        0 <= i < work.scores->0@.len(),
    ensures
        ({
            let row = work.scores->0@[i];
            let query = row.high - d.q_start_pos;
            let n = if w < d.seq_len {
                w as int
            } else {
                d.seq_len as int
            };
            &&& work.scores->0@.len() == d.n_heads_q * n
            &&& i == row.head * n + (query - (d.seq_len - n))
            &&& row.head < d.n_heads_q
            &&& d.seq_len - n <= query < d.seq_len
            &&& row.kv_head < d.n_heads_kv
            &&& row.kv_head * d.n_heads_q <= row.head * d.n_heads_kv
            &&& row.head * d.n_heads_kv < (row.kv_head + 1) * d.n_heads_q
            &&& forall|p: int|
                0 <= p ==> (#[trigger] seen(row, p) <==> p <= row.high && (d.window matches Some(
                    width,
                ) ==> p == row.high || row.high - p < width))
            &&& row.q_base == (query * d.n_heads_q + row.head) * d.head_dim
            &&& row.out_base == row.head * d.cache_seq_len
        }),
{
    let start = trailing_start(d.seq_len, w);
    let n = d.seq_len - start;
    let q = d.n_heads_q as int;
    let k = d.n_heads_kv as int;
    assert(n > 0 && q > 0) by (nonlinear_arith)
        requires
            0 <= i < q * n,
            n >= 0,
            q >= 0,
    ;
    let h = i / n;
    let r = start + i % n;
    vstd::arithmetic::div_mod::lemma_fundamental_div_mod(i, n);
    vstd::arithmetic::div_mod::lemma_mod_bound(i, n);
    assert(h * n == n * h) by (nonlinear_arith);
    assert(0 <= h < q) by (nonlinear_arith)
        requires
            i == n * h + i % n,
            0 <= i < q * n,
            0 <= i % n < n,
    ;
    let row = score_row(d, h, r);
    assert(work.scores->0@[h * n + (r - start)] == row);
    crate::attention::lemma_score_row_in_bounds(d, h, r);
    crate::attention::lemma_score_row_reads_its_group(d, h, r);
    let hd = d.head_dim as int;
    assert(r * (q * hd) + h * hd == (r * q + h) * hd) by (nonlinear_arith);
    let m = d.seq_len as int;
    let l = d.cache_seq_len as int;
    assert(0 <= (r * q + h) * hd <= (m * q) * hd && 0 <= h * l <= q * l) by (nonlinear_arith)
        requires
            0 <= r,
            r + 1 <= m,
            0 <= h,
            h + 1 <= q,
            0 <= hd,
            0 <= l,
    ;
    assert forall|p: int| 0 <= p implies (#[trigger] seen(row, p) <==> p <= row.high && (
    d.window matches Some(width) ==> p == row.high || row.high - p < width)) by {}
}

/// The row's query sees the key at `p`.
pub open spec fn seen(row: ScoreRow, p: int) -> bool {
    row.low <= p <= row.high
}

/// Where a prefill by the host finds its elements: the key of a position and a head at its place in
/// a buffer that is laid out head after head, or position after position; the query of a head behind
/// those of the queries and heads before it; and the batch entries one behind the other. It reads
/// the operands back where the backend is a device that holds the query, and only then writes the
/// output back; else it widens rows that are not in single precision.
pub proof fn lemma_host_prefill_elements(
    d: PrefillDims,
    place: PrefillPlace,
    dispatched: bool,
    q_window: Option<usize>,
    work: HostPrefill,
    pos: int,
    head: int,
    b: int,
)
    requires
        prefill_ok(d, q_window),
        prefill_planned(d, place, dispatched, q_window, PrefillWork::Host(work)),
        0 <= b < d.batch_size,
    ensures
        !(place.caps.is_gpu && place.kv_on_device && dispatched),
        work.batches@.len() == d.batch_size,
        pos * work.strides.k_pos + head * work.strides.kv_head == (match d.layout {
            KVLayout::HeadMajor => head * d.kv_capacity + pos,
            KVLayout::SeqMajor => pos * d.n_heads_kv + head,
        }) * d.head_dim,
        work.strides.q_row == d.n_heads_q * d.head_dim,
        work.batches@[b].q_start == b * (d.seq_len * work.strides.q_row),
        work.strides.q_chunk == d.seq_len * work.strides.q_row,
        work.batches@[b].k_start == b * ((d.kv_capacity * d.n_heads_kv) * d.head_dim),
        work.strides.k_chunk == (d.kv_capacity * d.n_heads_kv) * d.head_dim,
        work.batches@[b].k_end - work.batches@[b].k_start == work.strides.k_valid,
        work.strides.k_valid == (match d.layout {
            KVLayout::HeadMajor => d.kv_capacity as int,
            KVLayout::SeqMajor => d.cache_seq_len as int,
        } * d.n_heads_kv) * d.head_dim,
        work.write_back <==> place.caps.is_gpu && place.query_on_device,
        work.source == PrefillSource::ReadBack <==> work.write_back,
        work.source == PrefillSource::Direct <==> !work.write_back && place.dtype != DType::F16
            && place.dtype != DType::Q4_0,
        work.source matches PrefillSource::Widen { dtype } ==> dtype == place.dtype,
        match (q_window, work.scores) {
            (Some(_), Some(_)) => true,
            (None, None) => true,
            _ => false,
        },
{
    let w = d.head_dim as int;
    let c = d.kv_capacity as int;
    let n = d.n_heads_kv as int;
    let q = d.n_heads_q as int;
    let s = d.seq_len as int;
    assert(work.batches@[b] == batch_of(d, b));
    assert((s * q) * w == s * (q * w)) by (nonlinear_arith);
    assert((n * c) * w == (c * n) * w) by (nonlinear_arith);
    assert(pos * w + head * (c * w) == (head * c + pos) * w) by (nonlinear_arith);
    assert(pos * (n * w) + head * w == (pos * n + head) * w) by (nonlinear_arith);
    let m = d.batch_size as int;
    let l = d.cache_seq_len as int;
    assert(0 <= (s * q) * w && 0 <= (c * n) * w && 0 <= (l * n) * w <= (c * n) * w)
        by (nonlinear_arith)
        requires
            0 <= s,
            0 <= q,
            0 <= w,
            0 <= c,
            0 <= n,
            0 <= l <= c,
    ;
    let qc = d.q_chunk();
    let kc = d.k_chunk();
    assert(0 <= b * qc && b * qc + qc <= m * qc && 0 <= b * kc && b * kc + kc <= m * kc)
        by (nonlinear_arith)
        requires
            0 <= b,
            b + 1 <= m,
            0 <= qc,
            0 <= kc,
    ;
}

/// The device's answer is taken where the backend is one, holds the keys and has run the prefill; and
/// only there is nothing left for the host.
pub proof fn lemma_prefill_is_done_on_the_device(
    d: PrefillDims,
    place: PrefillPlace,
    dispatched: bool,
    q_window: Option<usize>,
    work: PrefillWork,
)
    requires
        prefill_planned(d, place, dispatched, q_window, work),
    ensures
        work is Done <==> place.caps.is_gpu && place.kv_on_device && dispatched,
{
}

} // verus!
