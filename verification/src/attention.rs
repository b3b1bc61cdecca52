//! Which kernel a step's attention takes, and which elements it reads.
//!
//! The kernels themselves are the backend's. What stands here is every decision before one runs:
//! the kernel, the positions it attends to, and the offsets it reads keys, queries and scores at.

use crate::dtype::{DType, KVLayout};
use crate::kv_cache::{CacheShape, CacheView, KVCache};
use crate::rows::{lemma_row_in_bounds, lemma_rows_disjoint};
use crate::standard_format::{BackendCaps, StandardFormat};
use vstd::prelude::*;

verus! {

/// Query heads, and the width of a sliding window where a layer has one.
#[derive(Clone, Copy, Debug, PartialEq, Eq, Structural)]
pub struct AttnDims {
    pub n_heads_q: usize,
    pub window: Option<usize>,
}

/// When decoding the two-bit codec on the device is worth it.
#[derive(Clone, Copy, Debug, PartialEq, Eq, Structural)]
pub struct Q2Gate {
    pub enabled: bool,
    /// Shortest frame the device decoder pays off for.
    pub min_ctx: usize,
}

/// Shortest frame the device decoder pays off for, unless configured otherwise.
pub const Q2_MIN_CTX: usize = 256;

impl Q2Gate {
    /// On unless it is switched off, and from the usual length on unless another is named.
    pub fn configured(switched_off: bool, min_ctx: Option<usize>) -> (r: Q2Gate)
        ensures
            r.enabled == !switched_off,
            r.min_ctx == match min_ctx {
                Some(n) => n,
                None => Q2_MIN_CTX,
            },
    {
        Q2Gate {
            enabled: !switched_off,
            min_ctx: match min_ctx {
                Some(n) => n,
                None => Q2_MIN_CTX,
            },
        }
    }
}

/// One step over a frame.
#[derive(Clone, Copy, Debug, PartialEq, Eq, Structural)]
pub enum AttnStep {
    /// Several queries, causally masked; the first is at `q_start_pos`.
    Prefill { q_start_pos: usize },
    /// One query over `effective` positions.
    Decode { effective: usize },
}

/// The kernel a step takes.
#[derive(Debug)]
pub enum AttnRoute {
    /// Decode the block codec on the device and attend there; the device may decline at run time.
    DeviceQ2 { step: AttnStep },
    /// Decode the block codec on the host and attend there. `via_host`: the query is read to the
    /// host and the result written to the device.
    HostFloor { via_host: bool, step: AttnStep },
    /// Several queries over the typed cache; each head is attended to from its start.
    Prefill { q_start_pos: usize, starts: Vec<usize> },
    /// One query over a ragged cache: head `h` is attended to in `[starts[h], end)`; score columns
    /// count from `base`.
    RaggedDecode { starts: Vec<usize>, base: usize, end: usize },
    /// One query over a `q4_0` cache on a device: `effective` positions from `kv_start_pos` on.
    Q4Fallback { effective: usize, kv_start_pos: usize },
    /// One query over the first `effective` positions.
    Decode { effective: usize },
}

/// The route as contracts speak of it.
pub enum RouteView {
    DeviceQ2 { step: AttnStep },
    HostFloor { via_host: bool, step: AttnStep },
    Prefill { q_start_pos: usize, starts: Seq<usize> },
    RaggedDecode { starts: Seq<usize>, base: usize, end: usize },
    Q4Fallback { effective: usize, kv_start_pos: usize },
    Decode { effective: usize },
}

impl View for AttnRoute {
    type V = RouteView;

    open spec fn view(&self) -> RouteView {
        match self {
            AttnRoute::DeviceQ2 { step } => RouteView::DeviceQ2 { step: *step },
            AttnRoute::HostFloor { via_host, step } => RouteView::HostFloor {
                via_host: *via_host,
                step: *step,
            },
            AttnRoute::Prefill { q_start_pos, starts } => RouteView::Prefill {
                q_start_pos: *q_start_pos,
                starts: starts@,
            },
            AttnRoute::RaggedDecode { starts, base, end } => RouteView::RaggedDecode {
                starts: starts@,
                base: *base,
                end: *end,
            },
            AttnRoute::Q4Fallback { effective, kv_start_pos } => RouteView::Q4Fallback {
                effective: *effective,
                kv_start_pos: *kv_start_pos,
            },
            AttnRoute::Decode { effective } => RouteView::Decode { effective: *effective },
        }
    }
}

/// Positions a window leaves of a frame.
pub open spec fn windowed(frame: usize, window: Option<usize>) -> usize {
    match window {
        Some(w) => if w < frame {
            w
        } else {
            frame
        },
        None => frame,
    }
}

/// Positions a window leaves of a frame.
pub fn effective_len(frame: usize, window: Option<usize>) -> (r: usize)
    ensures
        r == windowed(frame, window),
        r <= frame,
{
    match window {
        Some(w) => if w < frame {
            w
        } else {
            frame
        },
        None => frame,
    }
}

/// A step of `seq_len` queries over a frame.
pub open spec fn spec_step(frame: usize, seq_len: usize, window: Option<usize>) -> AttnStep {
    if seq_len > 1 {
        AttnStep::Prefill { q_start_pos: (frame - seq_len) as usize }
    } else {
        AttnStep::Decode { effective: windowed(frame, window) }
    }
}

/// A step of `seq_len` queries over a frame.
pub fn step(frame: usize, seq_len: usize, window: Option<usize>) -> (r: AttnStep)
    requires
        seq_len > 1 ==> seq_len <= frame,
    ensures
        r == spec_step(frame, seq_len, window),
{
    if seq_len > 1 {
        AttnStep::Prefill { q_start_pos: frame - seq_len }
    } else {
        AttnStep::Decode { effective: effective_len(frame, window) }
    }
}

/// The device can decode this store's codec, and it pays off.
pub open spec fn device_q2(c: CacheView, caps: BackendCaps, gate: Q2Gate) -> bool {
    &&& gate.enabled
    &&& c.current_pos >= gate.min_ctx
    &&& caps.is_gpu
    &&& caps.opaque_q2_dequant
    &&& (c.shape.head_dim == 64 || c.shape.head_dim == 128)
    &&& c.shape.layout == KVLayout::HeadMajor
    &&& (c.shape.opaque matches Some(d) && d.spec_is_q2())
    &&& c.shape.dynamic
}

/// Each head's first attended position: its start, or the window's if that is later.
pub open spec fn clamped_starts(starts: Seq<usize>, base: usize) -> Seq<usize> {
    Seq::new(
        starts.len(),
        |h: int|
            if starts[h] > base {
                starts[h]
            } else {
                base
            },
    )
}

/// The route of a step over a cache.
pub open spec fn spec_route(
    c: CacheView,
    caps: BackendCaps,
    gate: Q2Gate,
    seq_len: usize,
    window: Option<usize>,
) -> RouteView {
    let frame = c.current_pos;
    let effective = windowed(frame, window);
    if c.shape.opaque is Some {
        if device_q2(c, caps, gate) {
            RouteView::DeviceQ2 { step: spec_step(frame, seq_len, window) }
        } else {
            RouteView::HostFloor { via_host: caps.is_gpu, step: spec_step(frame, seq_len, window) }
        }
    } else if seq_len > 1 {
        RouteView::Prefill { q_start_pos: (frame - seq_len) as usize, starts: c.starts }
    } else if c.is_ragged() {
        RouteView::RaggedDecode {
            starts: clamped_starts(c.starts, (frame - effective) as usize),
            base: (frame - effective) as usize,
            end: frame,
        }
    } else if c.shape.dtype == DType::Q4_0 && caps.is_gpu {
        RouteView::Q4Fallback { effective, kv_start_pos: (frame - effective) as usize }
    } else {
        RouteView::Decode { effective }
    }
}

/// Each head's first attended position.
fn clamp_starts(starts: &Vec<usize>, base: usize) -> (r: Vec<usize>)
    ensures
        r@ == clamped_starts(starts@, base),
{
    let mut r: Vec<usize> = Vec::with_capacity(starts.len());
    let mut h: usize = 0;
    while h < starts.len()
        invariant
            h <= starts@.len(),
            r@.len() == h,
            forall|x: int| 0 <= x < h ==> #[trigger] r@[x] == clamped_starts(starts@, base)[x],
        decreases starts@.len() - h,
    {
        let s: usize = starts[h];
        r.push(
            if s > base {
                s
            } else {
                base
            },
        );
        h = h + 1;
    }
    proof {
        assert(r@ =~= clamped_starts(starts@, base));
    }
    r
}

/// The route of a step over a cache.
pub fn route(
    cache: &KVCache,
    caps: &BackendCaps,
    gate: &Q2Gate,
    seq_len: usize,
    window: Option<usize>,
) -> (r: AttnRoute)
    requires
        cache.wf(),
        seq_len > 1 ==> seq_len <= cache@.current_pos,
    ensures
        r@ == spec_route(cache@, *caps, *gate, seq_len, window),
{
    let frame: usize = cache.current_pos();
    let shape = cache.shape();
    if let Some(desc) = shape.opaque {
        let s = step(frame, seq_len, window);
        if gate.enabled && frame >= gate.min_ctx && caps.is_gpu && caps.opaque_q2_dequant && (
        shape.head_dim == 64 || shape.head_dim == 128) && shape.layout == KVLayout::HeadMajor
            && desc.is_q2() && shape.dynamic {
            return AttnRoute::DeviceQ2 { step: s };
        }
        return AttnRoute::HostFloor { via_host: caps.is_gpu, step: s };
    }
    if seq_len > 1 {
        return AttnRoute::Prefill { q_start_pos: frame - seq_len, starts: cache.head_starts() };
    }
    let effective: usize = effective_len(frame, window);
    let base: usize = frame - effective;
    if cache.is_ragged() {
        return AttnRoute::RaggedDecode {
            starts: clamp_starts(&cache.head_starts(), base),
            base,
            end: frame,
        };
    }
    if shape.dtype == DType::Q4_0 && caps.is_gpu {
        return AttnRoute::Q4Fallback { effective, kv_start_pos: base };
    }
    AttnRoute::Decode { effective }
}

impl StandardFormat {
    /// The route of a step over the layer.
    pub fn attention_into(
        &self,
        caps: &BackendCaps,
        gate: &Q2Gate,
        seq_len: usize,
        dims: AttnDims,
    ) -> (r: AttnRoute)
        requires
            self.inner().wf(),
            seq_len > 1 ==> seq_len <= self.inner()@.current_pos,
        ensures
            r@ == spec_route(self.inner()@, *caps, *gate, seq_len, dims.window),
    {
        route(self.plan_lock(), caps, gate, seq_len, dims.window)
    }
}

impl StandardFormat {
    /// The dimensions of a prefill over the layer: the last `seq_len` positions of the frame are the
    /// queries'.
    pub fn prefill_dims(&self, seq_len: usize, batch_size: usize, dims: AttnDims) -> (d: PrefillDims)
        requires
            self.inner().wf(),
            seq_len <= self.inner()@.current_pos,
        ensures
            d == dims_of(self.inner()@, seq_len, batch_size, dims),
            d.cache_seq_len <= d.kv_capacity,
            d.q_start_pos + d.seq_len == d.cache_seq_len,
    {
        let cache: &KVCache = self.plan_lock();
        proof {
            cache.lemma_wf();
        }
        let shape = cache.shape();
        let frame: usize = cache.current_pos();
        PrefillDims {
            n_heads_q: dims.n_heads_q,
            n_heads_kv: shape.kv_heads,
            head_dim: shape.head_dim,
            seq_len,
            cache_seq_len: frame,
            kv_capacity: shape.capacity,
            batch_size,
            layout: shape.layout,
            q_start_pos: frame - seq_len,
            window: dims.window,
        }
    }
}

/// The dimensions of a prefill over a cache.
pub open spec fn dims_of(
    c: CacheView,
    seq_len: usize,
    batch_size: usize,
    dims: AttnDims,
) -> PrefillDims {
    PrefillDims {
        n_heads_q: dims.n_heads_q,
        n_heads_kv: c.shape.kv_heads,
        head_dim: c.shape.head_dim,
        seq_len,
        cache_seq_len: c.current_pos,
        kv_capacity: c.shape.capacity,
        batch_size,
        layout: c.shape.layout,
        q_start_pos: (c.current_pos - seq_len) as usize,
        window: dims.window,
    }
}

/// A prefill reads what its route says: for each of its queries, the band that its score row has, and
/// of a ragged head only what is resident.
pub proof fn lemma_prefill_dims_follow_the_route(
    c: CacheView,
    caps: BackendCaps,
    gate: Q2Gate,
    seq_len: usize,
    batch_size: usize,
    dims: AttnDims,
    h: int,
    r: int,
)
    requires
        c.wf(),
        1 < seq_len <= c.current_pos,
        scores_ok(dims_of(c, seq_len, batch_size, dims)),
        0 <= h < dims.n_heads_q,
        0 <= r < seq_len,
    ensures
        ({
            let d = dims_of(c, seq_len, batch_size, dims);
            let row = score_row(d, h, r);
            let reads = attended(
                spec_route(c, caps, gate, seq_len, dims.window),
                dims.window,
                row.kv_head as int,
                d.q_start_pos + r,
            );
            let start = c.starts[row.kv_head as int];
            &&& reads.0 == if start > row.low {
                start as int
            } else {
                row.low as int
            }
            &&& reads.1 == row.high + 1
            &&& d.key_offset(row.high as int, row.kv_head as int) == c.shape.slot(
                row.high as int,
                row.kv_head as int,
            ) * c.shape.head_dim
        }),
{
    let d = dims_of(c, seq_len, batch_size, dims);
    lemma_score_row_in_bounds(d, h, r);
    let row = score_row(d, h, r);
    lemma_key_offset_is_the_row(d, c.shape, row.high as int, row.kv_head as int);
    assert(c.starts[row.kv_head as int] <= c.current_pos);
    if c.shape.opaque is Some {
        assert(c.starts[row.kv_head as int] == 0);
    }
}

/// The route of a step after the device tried to decode its keys and its values: where it declined
/// either, the host decodes them.
pub fn after_device_q2(step: AttnStep, keys_decoded: bool, values_decoded: bool) -> (r: AttnRoute)
    ensures
        r@ == if keys_decoded && values_decoded {
            RouteView::DeviceQ2 { step }
        } else {
            RouteView::HostFloor { via_host: true, step }
        },
{
    if keys_decoded && values_decoded {
        AttnRoute::DeviceQ2 { step }
    } else {
        AttnRoute::HostFloor { via_host: true, step }
    }
}

/// The positions of head `h` that a route attends to, for a query at `p` in a layer with this sliding
/// window: `[low, high)`.
pub open spec fn attended(route: RouteView, window: Option<usize>, h: int, p: int) -> (int, int) {
    match route {
        RouteView::DeviceQ2 { step } => step_attended(step, window, p),
        RouteView::HostFloor { via_host, step } => step_attended(step, window, p),
        RouteView::Prefill { q_start_pos, starts } => (
            if starts[h] > band_low(p, window) {
                starts[h] as int
            } else {
                band_low(p, window)
            },
            p + 1,
        ),
        RouteView::RaggedDecode { starts, base, end } => (starts[h] as int, end as int),
        RouteView::Q4Fallback { effective, kv_start_pos } => (
            kv_start_pos as int,
            kv_start_pos + effective,
        ),
        RouteView::Decode { effective } => (0, effective as int),
    }
}

/// The positions that a step attends to, for a query at `p`: several queries each see their own band,
/// and a single one sees what the window leaves.
pub open spec fn step_attended(step: AttnStep, window: Option<usize>, p: int) -> (int, int) {
    match step {
        AttnStep::Prefill { q_start_pos } => (band_low(p, window), p + 1),
        AttnStep::Decode { effective } => (0, effective as int),
    }
}

/// A step never reads a hole, nor past the frame, nor more positions than its window has.
pub proof fn lemma_route_reads_resident_positions(
    c: CacheView,
    caps: BackendCaps,
    gate: Q2Gate,
    seq_len: usize,
    window: Option<usize>,
    h: int,
    p: int,
)
    requires
        c.wf(),
        seq_len > 1 ==> seq_len <= c.current_pos,
        0 <= h < c.shape.kv_heads,
        0 <= p < c.current_pos,
    ensures
        ({
            let reads = attended(spec_route(c, caps, gate, seq_len, window), window, h, p);
            &&& reads.0 >= c.starts[h]
            &&& reads.1 <= c.current_pos
            &&& window matches Some(w) ==> w > 0 ==> reads.1 - reads.0 <= w
        }),
{
    assert(c.starts[h] <= c.current_pos);
    if c.shape.opaque is Some {
        assert(c.starts[h] == 0);
    }
    if !c.is_ragged() {
        assert(!(c.starts[h] > 0));
    }
}

/// Whether a prefill is tried on the device first: the backend is one, and the keys are there.
pub fn try_device_prefill(caps: &BackendCaps, kv_on_device: bool) -> (r: bool)
    ensures
        r == (caps.is_gpu && kv_on_device),
{
    caps.is_gpu && kv_on_device
}

/// Where a prefill on the host gets its operands.
#[derive(Clone, Copy, Debug, PartialEq, Eq, Structural)]
pub enum PrefillSource {
    /// Read every operand to the host, in single precision, and write the result back.
    ReadBack,
    /// Widen the stored keys and values to single precision.
    Widen { dtype: DType },
    /// Use the stored keys and values as they are.
    Direct,
}

/// Where a prefill on the host gets its operands.
pub open spec fn spec_prefill_source(is_gpu: bool, query_on_device: bool, dtype: DType) -> PrefillSource {
    if is_gpu && query_on_device {
        PrefillSource::ReadBack
    } else if dtype == DType::Q4_0 || dtype == DType::F16 {
        PrefillSource::Widen { dtype }
    } else {
        PrefillSource::Direct
    }
}

/// Where a prefill on the host gets its operands.
pub fn prefill_source(is_gpu: bool, query_on_device: bool, dtype: DType) -> (r: PrefillSource)
    ensures
        r == spec_prefill_source(is_gpu, query_on_device, dtype),
{
    if is_gpu && query_on_device {
        PrefillSource::ReadBack
    } else if dtype == DType::Q4_0 || dtype == DType::F16 {
        PrefillSource::Widen { dtype }
    } else {
        PrefillSource::Direct
    }
}

/// The dimensions of a prefill.
#[derive(Clone, Copy, Debug, PartialEq, Eq, Structural)]
pub struct PrefillDims {
    pub n_heads_q: usize,
    pub n_heads_kv: usize,
    pub head_dim: usize,
    pub seq_len: usize,
    pub cache_seq_len: usize,
    pub kv_capacity: usize,
    pub batch_size: usize,
    pub layout: KVLayout,
    pub q_start_pos: usize,
    pub window: Option<usize>,
}

/// Element strides of a prefill.
#[derive(Clone, Copy, Debug, PartialEq, Eq, Structural)]
pub struct PrefillStrides {
    /// Query and output elements per batch entry.
    pub q_chunk: usize,
    /// Key elements from one batch entry to the next.
    pub k_chunk: usize,
    /// Key elements of a batch entry that are read.
    pub k_valid: usize,
    /// From one position's keys to the next position's.
    pub k_pos: usize,
    /// From one head's keys to the next head's.
    pub kv_head: usize,
    /// From one query to the next.
    pub q_row: usize,
}

impl PrefillDims {
    /// Query elements per batch entry.
    pub open spec fn q_chunk(self) -> int {
        (self.seq_len * self.n_heads_q) * self.head_dim
    }

    /// Key elements from one batch entry to the next.
    pub open spec fn k_chunk(self) -> int {
        (self.kv_capacity * self.n_heads_kv) * self.head_dim
    }

    /// Key elements of a batch entry that are read: all the room of a head-major buffer, the frame
    /// of a position-major one.
    pub open spec fn k_valid(self) -> int {
        match self.layout {
            KVLayout::HeadMajor => (self.n_heads_kv * self.kv_capacity) * self.head_dim,
            KVLayout::SeqMajor => (self.cache_seq_len * self.n_heads_kv) * self.head_dim,
        }
    }

    /// From one position's keys to the next position's.
    pub open spec fn k_pos(self) -> int {
        match self.layout {
            KVLayout::HeadMajor => self.head_dim as int,
            KVLayout::SeqMajor => self.n_heads_kv * self.head_dim,
        }
    }

    /// From one head's keys to the next head's.
    pub open spec fn kv_head(self) -> int {
        match self.layout {
            KVLayout::HeadMajor => self.kv_capacity * self.head_dim,
            KVLayout::SeqMajor => self.head_dim as int,
        }
    }

    /// Where the key of `(pos, head)` starts.
    pub open spec fn key_offset(self, pos: int, head: int) -> int {
        pos * self.k_pos() + head * self.kv_head()
    }

    /// Every stride fits a machine word.
    pub open spec fn strides_fit(self) -> bool {
        &&& self.seq_len * self.n_heads_q <= usize::MAX
        &&& self.q_chunk() <= usize::MAX
        &&& self.kv_capacity * self.n_heads_kv <= usize::MAX
        &&& self.k_chunk() <= usize::MAX
        &&& self.n_heads_q * self.head_dim <= usize::MAX
        &&& match self.layout {
            KVLayout::HeadMajor => self.kv_capacity * self.head_dim <= usize::MAX,
            KVLayout::SeqMajor => {
                &&& self.cache_seq_len * self.n_heads_kv <= usize::MAX
                &&& self.n_heads_kv * self.head_dim <= usize::MAX
            },
        }
        &&& self.k_valid() <= usize::MAX
    }

    /// The strides of a prefill; `None` when one does not fit a machine word.
    pub fn strides(&self) -> (r: Option<PrefillStrides>)
        ensures
            r is Some <==> self.strides_fit(),
            r matches Some(s) ==> {
                &&& s.q_chunk == self.q_chunk()
                &&& s.k_chunk == self.k_chunk()
                &&& s.k_valid == self.k_valid()
                &&& s.k_pos == self.k_pos()
                &&& s.kv_head == self.kv_head()
                &&& s.q_row == self.n_heads_q * self.head_dim
            },
    {
        let q_rows: usize = self.seq_len.checked_mul(self.n_heads_q)?;
        let q_chunk: usize = q_rows.checked_mul(self.head_dim)?;
        let k_rows: usize = self.kv_capacity.checked_mul(self.n_heads_kv)?;
        let k_chunk: usize = k_rows.checked_mul(self.head_dim)?;
        let q_row: usize = self.n_heads_q.checked_mul(self.head_dim)?;
        match self.layout {
            KVLayout::HeadMajor => {
                let kv_head: usize = self.kv_capacity.checked_mul(self.head_dim)?;
                proof {
                    assert(self.n_heads_kv * self.kv_capacity == self.kv_capacity
                        * self.n_heads_kv) by (nonlinear_arith);
                }
                Some(
                    PrefillStrides {
                        q_chunk,
                        k_chunk,
                        k_valid: k_chunk,
                        k_pos: self.head_dim,
                        kv_head,
                        q_row,
                    },
                )
            },
            KVLayout::SeqMajor => {
                let frame_rows: usize = self.cache_seq_len.checked_mul(self.n_heads_kv)?;
                let k_valid: usize = frame_rows.checked_mul(self.head_dim)?;
                let k_pos: usize = self.n_heads_kv.checked_mul(self.head_dim)?;
                Some(
                    PrefillStrides {
                        q_chunk,
                        k_chunk,
                        k_valid,
                        k_pos,
                        kv_head: self.head_dim,
                        q_row,
                    },
                )
            },
        }
    }
}

/// The strides address the cache's own rows: the key of `(pos, head)` starts at its row.
pub proof fn lemma_key_offset_is_the_row(d: PrefillDims, shape: CacheShape, pos: int, head: int)
    requires
        d.layout == shape.layout,
        d.n_heads_kv == shape.kv_heads,
        d.head_dim == shape.head_dim,
        d.kv_capacity == shape.capacity,
    ensures
        d.key_offset(pos, head) == shape.slot(pos, head) * shape.head_dim,
{
    let w = shape.head_dim as int;
    match d.layout {
        KVLayout::HeadMajor => {
            let c = shape.capacity as int;
            assert(pos * w + head * (c * w) == (head * c + pos) * w) by (nonlinear_arith);
        },
        KVLayout::SeqMajor => {
            let n = shape.kv_heads as int;
            assert(pos * (n * w) + head * w == (pos * n + head) * w) by (nonlinear_arith);
        },
    }
}

/// Every key of the frame lies inside the elements that are read.
pub proof fn lemma_keys_in_bounds(d: PrefillDims, pos: int, head: int)
    requires
        0 <= pos < d.cache_seq_len,
        d.cache_seq_len <= d.kv_capacity,
        0 <= head < d.n_heads_kv,
    ensures
        0 <= d.key_offset(pos, head),
        d.key_offset(pos, head) + d.head_dim <= d.k_valid(),
{
    let w = d.head_dim as int;
    match d.layout {
        KVLayout::HeadMajor => {
            let c = d.kv_capacity as int;
            let n = d.n_heads_kv as int;
            assert(0 <= pos * w + head * (c * w)) by (nonlinear_arith)
                requires
                    0 <= pos,
                    0 <= head,
                    0 <= c,
                    0 <= w,
            ;
            assert(pos * w + head * (c * w) + w <= (n * c) * w) by (nonlinear_arith)
                requires
                    pos + 1 <= c,
                    head + 1 <= n,
                    0 <= pos,
                    0 <= head,
                    0 <= c,
                    0 <= w,
            ;
        },
        KVLayout::SeqMajor => {
            let l = d.cache_seq_len as int;
            let n = d.n_heads_kv as int;
            assert(0 <= pos * (n * w) + head * w) by (nonlinear_arith)
                requires
                    0 <= pos,
                    0 <= head,
                    0 <= n,
                    0 <= w,
            ;
            assert(pos * (n * w) + head * w + w <= (l * n) * w) by (nonlinear_arith)
                requires
                    pos + 1 <= l,
                    head + 1 <= n,
                    0 <= pos,
                    0 <= head,
                    0 <= w,
            ;
        },
    }
}

/// One row of scores: a query, the keys it sees, and where its scores go.
#[derive(Clone, Copy, Debug, PartialEq, Eq, Structural)]
pub struct ScoreRow {
    pub head: usize,
    pub kv_head: usize,
    /// Where the query starts.
    pub q_base: usize,
    /// First key that the query sees.
    pub low: usize,
    /// The query's own position, the last key that it sees.
    pub high: usize,
    /// Where the scores of the head start.
    pub out_base: usize,
}

/// First of the trailing queries.
pub open spec fn trailing_start(seq_len: usize, q_window: usize) -> int {
    if q_window < seq_len {
        seq_len - q_window
    } else {
        0
    }
}

/// First key that a query at `p` sees: the start of its sliding window, or the first of all.
pub open spec fn band_low(p: int, window: Option<usize>) -> int {
    match window {
        Some(w) => {
            let reach = if w > 0 {
                w - 1
            } else {
                0
            };
            if p > reach {
                p - reach
            } else {
                0
            }
        },
        None => 0,
    }
}

/// First key that a query at `p` sees.
pub fn band_start(p: usize, window: Option<usize>) -> (r: usize)
    ensures
        r == band_low(p as int, window),
        r <= p,
{
    match window {
        Some(w) => p.saturating_sub(w.saturating_sub(1)),
        None => 0,
    }
}

/// The score row of query head `h` and query `r`.
pub open spec fn score_row(d: PrefillDims, h: int, r: int) -> ScoreRow {
    ScoreRow {
        head: h as usize,
        kv_head: (h / (d.n_heads_q as int / d.n_heads_kv as int)) as usize,
        q_base: (r * (d.n_heads_q * d.head_dim) + h * d.head_dim) as usize,
        low: band_low(d.q_start_pos + r, d.window) as usize,
        high: (d.q_start_pos + r) as usize,
        out_base: (h * d.cache_seq_len) as usize,
    }
}

/// What a prefill with scores needs: whole groups of query heads per key head, and the queries at
/// the end of the frame.
pub open spec fn scores_ok(d: PrefillDims) -> bool {
    &&& d.n_heads_kv > 0
    &&& d.n_heads_q % d.n_heads_kv == 0
    &&& d.q_start_pos + d.seq_len <= d.cache_seq_len
    &&& d.strides_fit()
    &&& d.n_heads_q * d.cache_seq_len <= usize::MAX
}

/// The score rows of the trailing `q_window` queries, head after head.
pub fn prefill_score_rows(d: &PrefillDims, q_window: usize) -> (rows: Vec<ScoreRow>)
    requires
        scores_ok(*d),
    ensures
        ({
            let start = trailing_start(d.seq_len, q_window);
            let n = d.seq_len - start;
            &&& rows@.len() == d.n_heads_q * n
            &&& forall|h: int, r: int|
                0 <= h < d.n_heads_q && start <= r < d.seq_len ==> rows@[h * n + (r - start)]
                    == #[trigger] score_row(*d, h, r)
        }),
{
    let q_window_start: usize = if q_window < d.seq_len {
        d.seq_len - q_window
    } else {
        0
    };
    let group: usize = d.n_heads_q / d.n_heads_kv;
    let ghost start = trailing_start(d.seq_len, q_window);
    let ghost n = d.seq_len - start;
    proof {
        if d.n_heads_q > 0 {
            lemma_group_positive(*d);
        }
    }
    let mut rows: Vec<ScoreRow> = Vec::new();
    let mut h: usize = 0;
    while h < d.n_heads_q
        invariant
            h <= d.n_heads_q,
            scores_ok(*d),
            q_window_start == start,
            start == trailing_start(d.seq_len, q_window),
            n == d.seq_len - start,
            0 <= start <= d.seq_len,
            group == d.n_heads_q / d.n_heads_kv,
            d.n_heads_q > 0 ==> group > 0,
            rows@.len() == h * n,
            forall|x: int, r: int|
                0 <= x < h && start <= r < d.seq_len ==> rows@[x * n + (r - start)]
                    == #[trigger] score_row(*d, x, r),
        decreases d.n_heads_q - h,
    {
        let mut r: usize = q_window_start;
        while r < d.seq_len
            invariant
                h < d.n_heads_q,
                start <= r <= d.seq_len,
                scores_ok(*d),
                start == trailing_start(d.seq_len, q_window),
                n == d.seq_len - start,
                0 <= start <= d.seq_len,
                group == d.n_heads_q / d.n_heads_kv,
                group > 0,
                rows@.len() == h * n + (r - start),
                forall|x: int, y: int|
                    0 <= x <= h && start <= y < d.seq_len && (x < h || y < r) ==> rows@[x * n + (y
                        - start)] == #[trigger] score_row(*d, x, y),
            decreases d.seq_len - r,
        {
            proof {
                lemma_score_row_fits(*d, h as int, r as int);
            }
            let p: usize = d.q_start_pos + r;
            let low: usize = band_start(p, d.window);
            let ghost before = rows@;
            rows.push(
                ScoreRow {
                    head: h,
                    kv_head: h / group,
                    q_base: r * (d.n_heads_q * d.head_dim) + h * d.head_dim,
                    low,
                    high: p,
                    out_base: h * d.cache_seq_len,
                },
            );
            proof {
                assert(rows@[h * n + (r - start)] == score_row(*d, h as int, r as int));
                assert forall|x: int, y: int|
                    0 <= x <= h && start <= y < d.seq_len && (x < h || y < r + 1) implies rows@[x
                    * n + (y - start)] == #[trigger] score_row(*d, x, y) by {
                    if !(x == h && y == r) {
                        if x < h {
                            lemma_rows_disjoint(x, h as int, n);
                            assert((x + 1) * n == x * n + n) by (nonlinear_arith);
                        }
                        assert(0 <= x * n) by (nonlinear_arith)
                            requires
                                0 <= x,
                                0 <= n,
                        ;
                        assert(x * n + (y - start) < before.len());
                        assert(rows@[x * n + (y - start)] == before[x * n + (y - start)]);
                    }
                }
            }
            r = r + 1;
        }
        proof {
            assert((h + 1) * n == h * n + n) by (nonlinear_arith);
        }
        h = h + 1;
    }
    rows
}

proof fn lemma_group_positive(d: PrefillDims)
    requires
        scores_ok(d),
        d.n_heads_q > 0,
    ensures
        d.n_heads_q as int / d.n_heads_kv as int > 0,
        (d.n_heads_q as int / d.n_heads_kv as int) * d.n_heads_kv == d.n_heads_q,
{
    let q = d.n_heads_q as int;
    let k = d.n_heads_kv as int;
    vstd::arithmetic::div_mod::lemma_fundamental_div_mod(q, k);
    assert((q / k) * k == k * (q / k)) by (nonlinear_arith);
    assert(q / k > 0) by (nonlinear_arith)
        requires
            (q / k) * k == q,
            q > 0,
            k > 0,
    ;
}

/// Every number of a score row fits.
proof fn lemma_score_row_fits(d: PrefillDims, h: int, r: int)
    requires
        scores_ok(d),
        0 <= h < d.n_heads_q,
        0 <= r < d.seq_len,
    ensures
        0 <= r * (d.n_heads_q * d.head_dim),
        0 <= h * d.head_dim,
        r * (d.n_heads_q * d.head_dim) + h * d.head_dim + d.head_dim <= d.q_chunk(),
        0 <= h * d.cache_seq_len,
        h * d.cache_seq_len + d.cache_seq_len <= d.n_heads_q * d.cache_seq_len,
{
    let q = d.n_heads_q as int;
    let w = d.head_dim as int;
    let s = d.seq_len as int;
    let l = d.cache_seq_len as int;
    assert(0 <= r * (q * w)) by (nonlinear_arith)
        requires
            0 <= r,
            0 <= q,
            0 <= w,
    ;
    assert(0 <= h * w) by (nonlinear_arith)
        requires
            0 <= h,
            0 <= w,
    ;
    assert(r * (q * w) + h * w + w <= (s * q) * w) by (nonlinear_arith)
        requires
            r + 1 <= s,
            h + 1 <= q,
            0 <= r,
            0 <= h,
            0 <= w,
    ;
    lemma_row_in_bounds(h, q, l);
}

/// A score row reads and writes inside its operands: the query inside the batch entry, the keys
/// inside the frame, the scores inside the score buffer; and a query never sees a key behind it.
pub proof fn lemma_score_row_in_bounds(d: PrefillDims, h: int, r: int)
    requires
        scores_ok(d),
        0 <= h < d.n_heads_q,
        0 <= r < d.seq_len,
    ensures
        ({
            let row = score_row(d, h, r);
            &&& row.kv_head < d.n_heads_kv
            &&& row.q_base + d.head_dim <= d.q_chunk()
            &&& row.low <= row.high
            &&& row.high < d.cache_seq_len
            &&& row.out_base + row.high < d.n_heads_q * d.cache_seq_len
        }),
{
    lemma_score_row_fits(d, h, r);
    lemma_group_positive(d);
    let g = d.n_heads_q as int / d.n_heads_kv as int;
    let k = d.n_heads_kv as int;
    vstd::arithmetic::div_mod::lemma_fundamental_div_mod(h, g);
    assert(0 <= h / g) by (nonlinear_arith)
        requires
            0 <= h,
            g > 0,
    ;
    assert(h / g < k) by (nonlinear_arith)
        requires
            h == g * (h / g) + h % g,
            0 <= h % g,
            h < g * k,
            g > 0,
    ;
}

/// Where a batch entry's elements lie: queries and outputs at the first number, keys and values from
/// the second to the third.
pub fn batch_slices(d: &PrefillDims, s: &PrefillStrides, b: usize) -> (r: (usize, usize, usize))
    requires
        d.strides_fit(),
        s.q_chunk == d.q_chunk(),
        s.k_chunk == d.k_chunk(),
        s.k_valid == d.k_valid(),
        b < d.batch_size,
        d.cache_seq_len <= d.kv_capacity,
        d.batch_size * d.q_chunk() <= usize::MAX,
        d.batch_size * d.k_chunk() <= usize::MAX,
    ensures
        r.0 == b * d.q_chunk(),
        r.1 == b * d.k_chunk(),
        r.2 == b * d.k_chunk() + d.k_valid(),
        r.0 + d.q_chunk() <= d.batch_size * d.q_chunk(),
        r.2 <= d.batch_size * d.k_chunk(),
{
    proof {
        lemma_row_in_bounds(b as int, d.batch_size as int, d.q_chunk());
        lemma_row_in_bounds(b as int, d.batch_size as int, d.k_chunk());
        lemma_valid_within_chunk(*d);
    }
    let q: usize = b * s.q_chunk;
    let k: usize = b * s.k_chunk;
    (q, k, k + s.k_valid)
}

proof fn lemma_valid_within_chunk(d: PrefillDims)
    requires
        d.cache_seq_len <= d.kv_capacity,
    ensures
        0 <= d.k_valid() <= d.k_chunk(),
        0 <= d.q_chunk(),
{
    let w = d.head_dim as int;
    let n = d.n_heads_kv as int;
    let c = d.kv_capacity as int;
    let l = d.cache_seq_len as int;
    assert((n * c) * w == (c * n) * w) by (nonlinear_arith);
    assert(0 <= (l * n) * w <= (c * n) * w) by (nonlinear_arith)
        requires
            0 <= l <= c,
            0 <= n,
            0 <= w,
    ;
    assert(0 <= (d.seq_len * d.n_heads_q) * w) by (nonlinear_arith)
        requires
            0 <= d.seq_len,
            0 <= d.n_heads_q,
            0 <= w,
    ;
}

/// The query heads that read a key head are a run of neighbours, as many for each key head.
pub proof fn lemma_score_row_reads_its_group(d: PrefillDims, h: int, r: int)
    requires
        scores_ok(d),
        0 <= h < d.n_heads_q,
    ensures
        0 <= score_row(d, h, r).kv_head < d.n_heads_kv,
        score_row(d, h, r).kv_head * d.n_heads_q <= h * d.n_heads_kv,
        h * d.n_heads_kv < (score_row(d, h, r).kv_head + 1) * d.n_heads_q,
{
    lemma_group_positive(d);
    let q = d.n_heads_q as int;
    let k = d.n_heads_kv as int;
    let g = q / k;
    let x = h / g;
    vstd::arithmetic::div_mod::lemma_fundamental_div_mod(h, g);
    vstd::arithmetic::div_mod::lemma_mod_bound(h, g);
    assert(0 <= x < k) by (nonlinear_arith)
        requires
            h == g * x + h % g,
            0 <= h % g < g,
            0 <= h < g * k,
            g > 0,
    ;
    assert(x * q <= h * k && h * k < (x + 1) * q) by (nonlinear_arith)
        requires
            h == g * x + h % g,
            0 <= h % g < g,
            q == g * k,
            k > 0,
    ;
}

/// Which kernel a step takes, and over which positions. A store of a block codec is decoded, on the
/// device only where the whole list of conditions holds. Any other store takes several queries as a
/// prefill whose last query is at the end of the frame; one query reads the last positions that the
/// window leaves where heads may start late or the rows are four-bit blocks on a device, and else as
/// many from the first on. No head is read before its start.
pub proof fn lemma_route_of_a_step(
    c: CacheView,
    caps: BackendCaps,
    gate: Q2Gate,
    seq_len: usize,
    window: Option<usize>,
)
    requires
        c.wf(),
        seq_len > 1 ==> seq_len <= c.current_pos,
    ensures
        ({
            let frame = c.current_pos as int;
            let left = match window {
                Some(w) => if w as int <= frame {
                    w as int
                } else {
                    frame
                },
                None => frame,
            };
            let packed = c.shape.opaque is Some;
            let late = exists|h: int| 0 <= h < c.starts.len() && #[trigger] c.starts[h] > 0;
            match spec_route(c, caps, gate, seq_len, window) {
                RouteView::DeviceQ2 { step } => packed && step_of(step, frame, seq_len as int, left)
                    && gate.enabled && caps.is_gpu && caps.opaque_q2_dequant && c.shape.dynamic
                    && frame >= gate.min_ctx && c.shape.layout == KVLayout::HeadMajor && (
                c.shape.head_dim == 64 || c.shape.head_dim == 128),
                RouteView::HostFloor { via_host, step } => {
                    &&& packed
                    &&& via_host == caps.is_gpu
                    &&& step_of(step, frame, seq_len as int, left)
                    &&& !(gate.enabled && caps.is_gpu && caps.opaque_q2_dequant && c.shape.dynamic
                        && frame >= gate.min_ctx && c.shape.layout == KVLayout::HeadMajor && (
                    c.shape.head_dim == 64 || c.shape.head_dim == 128)
                        && c.shape.opaque->0.spec_is_q2())
                },
                RouteView::Prefill { q_start_pos, starts } => !packed && seq_len > 1 && q_start_pos
                    + seq_len == frame && starts == c.starts,
                RouteView::RaggedDecode { starts, base, end } => {
                    &&& !packed && seq_len <= 1 && late
                    &&& end == frame && end - base == left
                    &&& starts.len() == c.starts.len()
                    &&& forall|h: int|
                        0 <= h < starts.len() ==> #[trigger] starts[h] >= base && starts[h]
                            >= c.starts[h] && (starts[h] == base || starts[h] == c.starts[h])
                },
                RouteView::Q4Fallback { effective, kv_start_pos } => !packed && seq_len <= 1 && !late
                    && caps.is_gpu && c.shape.dtype == DType::Q4_0 && effective == left
                    && kv_start_pos + effective == frame,
                RouteView::Decode { effective } => !packed && seq_len <= 1 && !late && !(caps.is_gpu
                    && c.shape.dtype == DType::Q4_0) && effective == left,
            }
        }),
{
    if !c.is_ragged() {
        assert forall|h: int| 0 <= h < c.starts.len() implies #[trigger] c.starts[h] == 0 by {}
    }
}

/// A step of `seq_len` queries at the end of a frame, or of one query over the positions that are
/// left.
pub open spec fn step_of(step: AttnStep, frame: int, seq_len: int, left: int) -> bool {
    match step {
        AttnStep::Prefill { q_start_pos } => seq_len > 1 && q_start_pos + seq_len == frame,
        AttnStep::Decode { effective } => seq_len <= 1 && effective == left,
    }
}

/// What a query of a prefill reads: its own position, and of those before it the ones that are
/// resident in the head and less than a window away.
pub proof fn lemma_prefill_band(
    c: CacheView,
    caps: BackendCaps,
    gate: Q2Gate,
    seq_len: usize,
    window: Option<usize>,
    h: int,
    p: int,
    x: int,
)
    requires
        c.wf(),
        1 < seq_len <= c.current_pos,
        0 <= h < c.shape.kv_heads,
        c.starts[h] <= p < c.current_pos,
        0 <= x,
    ensures
        ({
            let reads = attended(spec_route(c, caps, gate, seq_len, window), window, h, p);
            reads.0 <= x < reads.1 <==> c.starts[h] <= x <= p && (window matches Some(w) ==> x == p
                || p - x < w)
        }),
{
    if c.shape.opaque is Some {
        assert(c.starts[h] == 0);
    }
}

/// Where a step on a device goes on after the rows were decoded: there where both sides were, else on the
/// host.
pub proof fn lemma_a_failed_decode_goes_to_the_host(
    step: AttnStep,
    keys_decoded: bool,
    values_decoded: bool,
    r: AttnRoute,
)
    requires
        call_ensures(after_device_q2, (step, keys_decoded, values_decoded), r),
    ensures
        r@ is DeviceQ2 <==> keys_decoded && values_decoded,
        r@ is HostFloor <==> !keys_decoded || !values_decoded,
        r@ matches RouteView::HostFloor { via_host, step: own } ==> via_host && own == step,
        r@ matches RouteView::DeviceQ2 { step: own } ==> own == step,
{
}

/// Where a sequence of a batch starts: behind the queries and the keys of the sequences before it; its
/// keys end behind its valid positions.
pub proof fn lemma_where_a_sequence_starts(d: PrefillDims, s: PrefillStrides, b: usize, r: (usize, usize, usize))
    requires
        d.strides_fit(),
        s.q_chunk == d.q_chunk(),
        s.k_chunk == d.k_chunk(),
        s.k_valid == d.k_valid(),
        b < d.batch_size,
        d.cache_seq_len <= d.kv_capacity,
        d.batch_size * d.q_chunk() <= usize::MAX,
        d.batch_size * d.k_chunk() <= usize::MAX,
        call_ensures(batch_slices, (&d, &s, b), r),
    ensures
        r.0 == b * d.q_chunk(),
        r.1 == b * d.k_chunk(),
        r.2 - r.1 == d.k_valid(),
{
}

} // verus!
