//! The packed cache as a cache format, and as the flat surface that a device plugin sees.

use crate::attention::{effective_len, windowed, AttnDims};
use crate::dtype::{DType, KVLayout};
use crate::kv_cache::{KvError, Tensor};
use crate::quant_window::{absorbed, misshapen, rebitted, rows_fit, spec_supported_bits, NotedView,
    QuantView, QuantizedRecentWindowCache, RawWindow, WindowCodec};
use crate::quant_window_cuda::AttentionGeometry;
use crate::standard_format::BackendCaps;
use vstd::prelude::*;

verus! {

/// How a step over a packed cache is answered.
#[derive(Clone, Copy, Debug, PartialEq, Eq, Structural)]
pub enum QuantRoute {
    /// Several queries at once: causal attention over the unpacked rows.
    Prefill {
        n_heads_kv: usize,
        head_dim: usize,
        cache_seq_len: usize,
        kv_capacity: usize,
        layout: KVLayout,
        /// Position of the first query.
        q_start_pos: usize,
        window: Option<usize>,
    },
    /// One query, on the device, over the packed windows themselves.
    Native {
        n_heads_kv: usize,
        head_dim: usize,
        raw: RawWindow,
        /// Length of the score buffer that the kernel fills; zero when no scores are wanted.
        scores_len: usize,
    },
    /// One query over the unpacked rows.
    Unpacked {
        n_heads_kv: usize,
        head_dim: usize,
        /// Positions that take part.
        effective: usize,
        /// Scores per head in the caller's buffer; zero when no scores are wanted.
        stride: usize,
    },
}

/// The device can run a query over the packed windows themselves.
pub open spec fn native_step(c: QuantView, caps: BackendCaps, has_kernel: bool) -> bool {
    caps.is_gpu && caps.nosub_device && c.raw() is Some && has_kernel
}

/// How a step is answered.
pub open spec fn spec_quant_route(
    c: QuantView,
    caps: BackendCaps,
    has_kernel: bool,
    seq_len: usize,
    dims: AttnDims,
    scores: Option<usize>,
) -> QuantRoute {
    if seq_len > 1 {
        QuantRoute::Prefill {
            n_heads_kv: c.kv_heads,
            head_dim: c.head_dim,
            cache_seq_len: c.tokens() as usize,
            kv_capacity: c.max_seq_len,
            layout: c.spec_layout(),
            q_start_pos: (c.tokens() - seq_len) as usize,
            window: dims.window,
        }
    } else if native_step(c, caps, has_kernel) {
        QuantRoute::Native {
            n_heads_kv: c.kv_heads,
            head_dim: c.head_dim,
            raw: c.raw()->0,
            scores_len: if scores is Some {
                (dims.n_heads_q * c.tokens()) as usize
            } else {
                0
            },
        }
    } else {
        QuantRoute::Unpacked {
            n_heads_kv: c.kv_heads,
            head_dim: c.head_dim,
            effective: windowed(c.tokens() as usize, dims.window),
            stride: match scores {
                Some(n) => if dims.n_heads_q == 0 {
                    0
                } else {
                    n / dims.n_heads_q
                },
                None => 0,
            },
        }
    }
}

/// What a device kernel's scores mean to the caller.
#[derive(Clone, Copy, Debug, PartialEq, Eq, Structural)]
pub struct NativeScores {
    /// Scores copied to the caller's buffer.
    pub copied: usize,
    /// Scores per head that the cache takes note of.
    pub valid_len: usize,
}

/// Splits a device kernel's `produced` scores: as many as fit go to a caller's buffer of `room`, and
/// the cache takes note of all of them, per head.
pub fn native_scores(produced: usize, room: usize, n_heads_q: usize) -> (r: NativeScores)
    ensures
        r.copied == if produced < room {
            produced
        } else {
            room
        },
        r.valid_len == if n_heads_q == 0 {
            0
        } else {
            produced / n_heads_q
        },
{
    NativeScores {
        copied: if produced < room {
            produced
        } else {
            room
        },
        valid_len: if n_heads_q == 0 {
            0
        } else {
            produced / n_heads_q
        },
    }
}

/// The cache after a step that filled `produced` with its scores: several queries at once have none; a
/// device kernel's are one run per head; and those over the unpacked rows lie in the caller's buffer.
pub open spec fn scores_noted(
    c: QuantView,
    route: QuantRoute,
    n_heads_q: usize,
    produced: Seq<u32>,
) -> QuantView {
    match route {
        QuantRoute::Prefill { .. } => c,
        QuantRoute::Native { .. } => {
            let per_head = if n_heads_q == 0 {
                0
            } else {
                (produced.len() / n_heads_q as nat) as usize
            };
            c.noting(
                NotedView { scores: produced, n_heads_q, stride: per_head, valid_len: per_head },
            )
        },
        QuantRoute::Unpacked { effective, stride, .. } => c.noting(
            NotedView { scores: produced, n_heads_q, stride, valid_len: effective },
        ),
    }
}

/// Copies a device kernel's scores to the caller's buffer, as many as fit.
pub fn copy_scores(produced: &Vec<u32>, room: &mut Vec<u32>)
    ensures
        ({
            let n = if produced@.len() < old(room)@.len() {
                produced@.len() as int
            } else {
                old(room)@.len() as int
            };
            final(room)@ == produced@.take(n) + old(room)@.skip(n)
        }),
{
    let ghost before = room@;
    let n: usize = if produced.len() < room.len() {
        produced.len()
    } else {
        room.len()
    };
    let mut i: usize = 0;
    while i < n
        invariant
            i <= n <= produced@.len(),
            n <= before.len(),
            room@ == produced@.take(i as int) + before.skip(i as int),
        decreases n - i,
    {
        room.set(i, produced[i]);
        i = i + 1;
        assert(room@ =~= produced@.take(i as int) + before.skip(i as int));
    }
}

/// A packed cache, as one layer's format.
pub struct QuantWindowFormat {
    idx: usize,
    inner: QuantizedRecentWindowCache,
}

impl QuantWindowFormat {
    /// The layer.
    pub closed spec fn spec_idx(self) -> usize {
        self.idx
    }

    /// The cache.
    pub closed spec fn inner(self) -> QuantView {
        self.inner@
    }

    pub fn new(idx: usize, inner: QuantizedRecentWindowCache) -> (r: Self)
        ensures
            r.spec_idx() == idx,
            r.inner() == inner@,
    {
        QuantWindowFormat { idx, inner }
    }

    pub fn idx(&self) -> (n: usize)
        ensures
            n == self.spec_idx(),
    {
        self.idx
    }

    pub fn current_pos(&self) -> (n: usize)
        requires
            self.inner().wf(),
        ensures
            n == self.inner().tokens(),
    {
        self.inner.current_pos()
    }

    pub fn capacity(&self) -> (n: usize)
        ensures
            n == self.inner().max_seq_len,
    {
        self.inner.capacity()
    }

    pub fn current_bits(&self) -> (b: u8)
        ensures
            b == self.inner().bits,
    {
        self.inner.bits()
    }

    /// The cache, for an operation that is not a step.
    pub fn with_cache_mut(&mut self) -> (cache: &mut QuantizedRecentWindowCache)
        ensures
            (*cache)@ == old(self).inner(),
            final(self).inner() == (*final(cache))@,
            final(self).spec_idx() == old(self).spec_idx(),
    {
        &mut self.inner
    }

    /// The cache alone.
    pub fn into_inner(self) -> (cache: QuantizedRecentWindowCache)
        ensures
            cache@ == self.inner(),
    {
        self.inner
    }

    /// Appends one token, or a batch: both take the same path.
    fn write_inner<C: WindowCodec>(&mut self, new_k: &Tensor, new_v: &Tensor, codec: &C) -> (r:
        Result<(), KvError>)
        requires
            old(self).inner().wf(),
            new_k.wf(),
            new_v.wf(),
        ensures
            final(self).spec_idx() == old(self).spec_idx(),
            written(codec, old(self).inner(), *new_k, *new_v, r, final(self).inner()),
    {
        self.inner.update(new_k, new_v, codec)
    }

    /// Appends one token.
    pub fn write_kv<C: WindowCodec>(&mut self, new_k: &Tensor, new_v: &Tensor, codec: &C) -> (r:
        Result<(), KvError>)
        requires
            old(self).inner().wf(),
            new_k.wf(),
            new_v.wf(),
        ensures
            final(self).spec_idx() == old(self).spec_idx(),
            written(codec, old(self).inner(), *new_k, *new_v, r, final(self).inner()),
    {
        self.write_inner(new_k, new_v, codec)
    }

    /// Appends a batch of tokens.
    pub fn write_kv_batch<C: WindowCodec>(
        &mut self,
        new_k: &Tensor,
        new_v: &Tensor,
        codec: &C,
    ) -> (r: Result<(), KvError>)
        requires
            old(self).inner().wf(),
            new_k.wf(),
            new_v.wf(),
        ensures
            final(self).spec_idx() == old(self).spec_idx(),
            written(codec, old(self).inner(), *new_k, *new_v, r, final(self).inner()),
    {
        self.write_inner(new_k, new_v, codec)
    }

    /// How a step of `seq_len` queries is answered. `scores` is the length of the caller's score
    /// buffer; `has_kernel` says whether the device has a kernel for the cache's width.
    pub fn attention_into(
        &self,
        caps: &BackendCaps,
        has_kernel: bool,
        seq_len: usize,
        dims: AttnDims,
        scores: Option<usize>,
    ) -> (r: QuantRoute)
        requires
            self.inner().wf(),
            seq_len > 1 ==> seq_len <= self.inner().tokens(),
            scores is Some ==> dims.n_heads_q * self.inner().tokens() <= usize::MAX,
        ensures
            r == spec_quant_route(self.inner(), *caps, has_kernel, seq_len, dims, scores),
    {
        let cache = &self.inner;
        let frame: usize = cache.current_pos();
        if seq_len > 1 {
            return QuantRoute::Prefill {
                n_heads_kv: cache.kv_heads(),
                head_dim: cache.head_dim(),
                cache_seq_len: frame,
                kv_capacity: cache.capacity(),
                layout: cache.layout(),
                q_start_pos: frame - seq_len,
                window: dims.window,
            };
        }
        if caps.is_gpu && caps.nosub_device && has_kernel {
            if let Some(raw) = cache.get_quant_window_raw_buffers() {
                return QuantRoute::Native {
                    n_heads_kv: cache.kv_heads(),
                    head_dim: cache.head_dim(),
                    raw,
                    scores_len: if scores.is_some() {
                        dims.n_heads_q * frame
                    } else {
                        0
                    },
                };
            }
        }
        QuantRoute::Unpacked {
            n_heads_kv: cache.kv_heads(),
            head_dim: cache.head_dim(),
            effective: effective_len(frame, dims.window),
            stride: match scores {
                Some(n) => if dims.n_heads_q == 0 {
                    0
                } else {
                    n / dims.n_heads_q
                },
                None => 0,
            },
        }
    }
}

impl QuantWindowFormat {
    /// Takes note of a step's scores, where the cache is to: `produced` is what the step's kernel
    /// filled.
    pub fn absorb_scores(&mut self, route: &QuantRoute, n_heads_q: usize, produced: &Vec<u32>)
        ensures
            final(self).spec_idx() == old(self).spec_idx(),
            final(self).inner() == scores_noted(
                old(self).inner(),
                *route,
                n_heads_q,
                produced@,
            ),
    {
        assert(produced@.len() == produced.len());
        match *route {
            QuantRoute::Prefill { .. } => {},
            QuantRoute::Native { .. } => {
                let note = native_scores(produced.len(), 0, n_heads_q);
                self.inner.set_attn_scores(produced, n_heads_q, note.valid_len, note.valid_len);
            },
            QuantRoute::Unpacked { effective, stride, .. } => {
                self.inner.set_attn_scores(produced, n_heads_q, stride, effective);
            },
        }
    }
}

/// Scores are noted beside the tokens: a step changes no token, no window and no width.
pub proof fn lemma_scores_leave_the_tokens(
    c: QuantView,
    route: QuantRoute,
    n_heads_q: usize,
    produced: Seq<u32>,
)
    ensures
        ({
            let after = scores_noted(c, route, n_heads_q, produced);
            &&& after == (QuantView { noted: after.noted, ..c })
            &&& !c.awqe ==> after == c
        }),
{
}

/// What the native kernel is told of a step.
pub open spec fn native_geometry_of(route: QuantRoute, n_heads_q: usize) -> Option<
    AttentionGeometry,
> {
    match route {
        QuantRoute::Native { n_heads_kv, head_dim, raw, scores_len } => Some(
            AttentionGeometry {
                num_heads_q: n_heads_q,
                num_heads_kv: n_heads_kv,
                head_dim,
                q_tokens: raw.q_tokens,
                res_tokens: raw.res_tokens,
                res_cap: raw.res_cap,
                bits: raw.bits,
                scores_len,
            },
        ),
        _ => None,
    }
}

/// What the native kernel is told of a step; `None` when the step is not the kernel's.
pub fn native_geometry(route: &QuantRoute, n_heads_q: usize) -> (r: Option<AttentionGeometry>)
    ensures
        r == native_geometry_of(*route, n_heads_q),
{
    match *route {
        QuantRoute::Native { n_heads_kv, head_dim, raw, scores_len } => Some(
            AttentionGeometry {
                num_heads_q: n_heads_q,
                num_heads_kv: n_heads_kv,
                head_dim,
                q_tokens: raw.q_tokens,
                res_tokens: raw.res_tokens,
                res_cap: raw.res_cap,
                bits: raw.bits,
                scores_len,
            },
        ),
        _ => None,
    }
}

/// A write took `before` to `after`, or was refused: for rows of another shape, or for want of
/// room.
pub open spec fn written<C: WindowCodec>(
    codec: &C,
    before: QuantView,
    new_k: Tensor,
    new_v: Tensor,
    r: Result<(), KvError>,
    after: QuantView,
) -> bool {
    let room = before.tokens() + new_k.seq_len <= before.max_seq_len;
    &&& after.wf()
    &&& if !rows_fit(before, new_k, new_v) {
        r == Err::<(), KvError>(KvError::ShapeMismatch) && after == before
    } else if !room {
        r == Err::<(), KvError>(KvError::CapacityExceeded) && after == before
    } else {
        &&& r is Ok
        &&& absorbed(
            codec,
            before,
            before.res_k + new_k.data.flat(),
            before.res_v + new_v.data.flat(),
            (before.res_tokens + new_k.seq_len) as nat,
            after,
        )
        &&& after.tokens() == before.tokens() + new_k.seq_len
    }
}

/// A step on the device is one query on a device without subgroups, over windows that hold
/// something, at a width that the device has a kernel for; and it covers every token.
pub proof fn lemma_native_step_covers_every_token(
    c: QuantView,
    caps: BackendCaps,
    has_kernel: bool,
    seq_len: usize,
    dims: AttnDims,
    scores: Option<usize>,
)
    requires
        c.wf(),
        spec_quant_route(c, caps, has_kernel, seq_len, dims, scores) is Native,
    ensures
        seq_len <= 1,
        caps.is_gpu && caps.nosub_device && has_kernel,
        c.on_device,
        c.tokens() > 0,
        ({
            let raw = spec_quant_route(c, caps, has_kernel, seq_len, dims, scores)->Native_raw;
            raw.q_tokens + raw.res_tokens == c.tokens() && raw.bits == c.bits
        }),
{
}

/// A plugin call that succeeded.
pub const RC_OK: i32 = 0;

/// There is no device memory to hand out.
pub const RC_NO_CL_MEM: i32 = -1;

/// A change of width failed.
pub const RC_TRANSITION_ERR: i32 = -2;

/// Writes do not go through the plugin surface.
pub const RC_UPDATE_DEFERRED: i32 = -100;

/// The layout tag of a view.
pub open spec fn spec_layout_tag(layout: KVLayout) -> u32 {
    match layout {
        KVLayout::SeqMajor => 0,
        KVLayout::HeadMajor => 1,
    }
}

/// The layout tag of a view.
pub fn layout_tag(layout: KVLayout) -> (tag: u32)
    ensures
        tag == spec_layout_tag(layout),
{
    match layout {
        KVLayout::SeqMajor => 0,
        KVLayout::HeadMajor => 1,
    }
}

/// The view that attention reads, as a plugin sees it.
#[derive(Clone, Copy, Debug, PartialEq, Eq, Structural)]
pub struct QuantCacheViewOut {
    pub k_mem: u64,
    pub v_mem: u64,
    pub tokens: usize,
    pub layout: u32,
}

/// The packed buffers, as a plugin sees them.
#[derive(Clone, Copy, Debug, PartialEq, Eq, Structural)]
pub struct QuantCacheRawBuffersOut {
    pub qk_mem: u64,
    pub qv_mem: u64,
    pub res_k_mem: u64,
    pub res_v_mem: u64,
    pub q_tokens: usize,
    pub res_tokens: usize,
    pub res_cap: usize,
    pub bits: u8,
}

/// A packed cache behind the flat surface that a device plugin sees.
pub struct InTreeQuantWindowShim {
    inner: QuantizedRecentWindowCache,
}

impl InTreeQuantWindowShim {
    /// The cache.
    pub closed spec fn inner(self) -> QuantView {
        self.inner@
    }

    pub fn wrap(cache: QuantizedRecentWindowCache) -> (r: Self)
        ensures
            r.inner() == cache@,
    {
        InTreeQuantWindowShim { inner: cache }
    }

    /// Appends tokens.
    pub fn feed<C: WindowCodec>(&mut self, new_k: &Tensor, new_v: &Tensor, codec: &C) -> (r: Result<
        (),
        KvError,
    >)
        requires
            old(self).inner().wf(),
            new_k.wf(),
            new_v.wf(),
        ensures
            written(codec, old(self).inner(), *new_k, *new_v, r, final(self).inner()),
    {
        self.inner.update(new_k, new_v, codec)
    }

    /// Forgets every token.
    pub fn reset(&mut self)
        requires
            old(self).inner().wf(),
        ensures
            final(self).inner().wf(),
            final(self).inner() == old(self).inner().emptied(),
    {
        self.inner.reset();
    }

    pub fn current_pos(&self) -> (n: usize)
        requires
            self.inner().wf(),
        ensures
            n == self.inner().tokens(),
    {
        self.inner.current_pos()
    }

    pub fn capacity(&self) -> (n: usize)
        ensures
            n == self.inner().max_seq_len,
    {
        self.inner.capacity()
    }

    pub fn current_bits(&self) -> (b: u8)
        ensures
            b == self.inner().bits,
    {
        self.inner.bits()
    }

    /// Writes do not go through this surface: `feed` takes them.
    pub fn update(&self) -> (rc: i32)
        ensures
            rc == RC_UPDATE_DEFERRED,
    {
        RC_UPDATE_DEFERRED
    }

    /// A full run was packed by the write that filled it, so nothing is left to do.
    pub fn flush_if_full(&self) -> (rc: i32)
        ensures
            rc == RC_OK,
    {
        RC_OK
    }

    /// Fills in the view that attention reads. `mems` are the view's device buffers, where it has
    /// any.
    pub fn assemble_view(&self, mems: Option<(u64, u64)>, out: &mut QuantCacheViewOut) -> (rc: i32)
        requires
            self.inner().wf(),
        ensures
            mems is None ==> rc == RC_NO_CL_MEM && *final(out) == *old(out),
            mems matches Some(m) ==> rc == RC_OK && *final(out) == (QuantCacheViewOut {
                k_mem: m.0,
                v_mem: m.1,
                tokens: self.inner().tokens() as usize,
                layout: spec_layout_tag(self.inner().spec_layout()),
            }),
    {
        match mems {
            None => RC_NO_CL_MEM,
            Some((k_mem, v_mem)) => {
                out.k_mem = k_mem;
                out.v_mem = v_mem;
                out.tokens = self.inner.current_pos();
                out.layout = layout_tag(self.inner.layout());
                RC_OK
            },
        }
    }

    /// Fills in the packed buffers, where something is packed on a device. `mems` are the packed key
    /// and value buffers and the recent run's, where they are device buffers.
    pub fn get_raw_buffers(
        &self,
        mems: Option<(u64, u64, u64, u64)>,
        out: &mut QuantCacheRawBuffersOut,
    ) -> (exposed: bool)
        requires
            self.inner().wf(),
        ensures
            exposed == (self.inner().raw() is Some && mems is Some),
            !exposed ==> *final(out) == *old(out),
            exposed ==> *final(out) == (QuantCacheRawBuffersOut {
                qk_mem: (mems->0).0,
                qv_mem: (mems->0).1,
                res_k_mem: (mems->0).2,
                res_v_mem: (mems->0).3,
                q_tokens: self.inner().raw()->0.q_tokens,
                res_tokens: self.inner().raw()->0.res_tokens,
                res_cap: self.inner().raw()->0.res_cap,
                bits: self.inner().raw()->0.bits,
            }),
    {
        let raw = match self.inner.get_quant_window_raw_buffers() {
            Some(raw) => raw,
            None => {
                return false;
            },
        };
        match mems {
            None => false,
            Some((qk_mem, qv_mem, res_k_mem, res_v_mem)) => {
                out.qk_mem = qk_mem;
                out.qv_mem = qv_mem;
                out.res_k_mem = res_k_mem;
                out.res_v_mem = res_v_mem;
                out.q_tokens = raw.q_tokens;
                out.res_tokens = raw.res_tokens;
                out.res_cap = raw.res_cap;
                out.bits = raw.bits;
                true
            },
        }
    }

    /// Stores the same tokens at another width.
    pub fn transition_bits<C: WindowCodec>(&mut self, target_bits: u8, codec: &C) -> (rc: i32)
        requires
            old(self).inner().wf(),
        ensures
            final(self).inner().wf(),
            rc == RC_OK || rc == RC_TRANSITION_ERR,
            !spec_supported_bits(target_bits) ==> rc == RC_TRANSITION_ERR,
            rc == RC_TRANSITION_ERR ==> final(self).inner() == old(self).inner() && (
            !spec_supported_bits(target_bits) || misshapen(
                codec,
                old(self).inner().bits,
                true,
                old(self).inner().key_windows,
                old(self).inner().window_bytes(),
            ) || misshapen(
                codec,
                old(self).inner().bits,
                false,
                old(self).inner().value_windows,
                old(self).inner().window_bytes(),
            )),
            rc == RC_OK ==> final(self).inner().tokens() == old(self).inner().tokens(),
            target_bits == old(self).inner().bits ==> rc == RC_OK && final(self).inner() == old(self).inner(),
            spec_supported_bits(target_bits) && old(self).inner().key_windows.len() == 0 ==> rc
                == RC_OK,
            rc == RC_OK && target_bits != old(self).inner().bits ==> rebitted(
                codec,
                old(self).inner(),
                target_bits,
                final(self).inner(),
            ),
    {
        match self.inner.transition_bits(target_bits, codec) {
            Ok(()) => RC_OK,
            Err(_) => RC_TRANSITION_ERR,
        }
    }
}

/// Which way a step is answered, and over what: several queries over the cache's rows, from the position
/// of the first of them on; one query over the packed windows where the device can; else one query over
/// the unpacked rows, of a sliding window at most.
pub proof fn lemma_ways_of_a_step(
    c: QuantView,
    caps: BackendCaps,
    has_kernel: bool,
    seq_len: usize,
    dims: AttnDims,
    scores: Option<usize>,
)
    requires
        c.wf(),
        seq_len > 1 ==> seq_len <= c.tokens(),
        scores is Some ==> dims.n_heads_q * c.tokens() <= usize::MAX,
    ensures
        ({
            let route = spec_quant_route(c, caps, has_kernel, seq_len, dims, scores);
            let packed = c.on_device && c.bits != 16 && c.tokens() > 0;
            &&& route is Prefill <==> seq_len > 1
            &&& route is Native <==> seq_len <= 1 && caps.is_gpu && caps.nosub_device && has_kernel
                && packed
            &&& route matches QuantRoute::Prefill {
                n_heads_kv,
                head_dim,
                cache_seq_len,
                kv_capacity,
                layout,
                q_start_pos,
                window,
            } ==> {
                &&& n_heads_kv == c.kv_heads
                &&& head_dim == c.head_dim
                &&& cache_seq_len == c.tokens()
                &&& kv_capacity == c.max_seq_len
                &&& q_start_pos + seq_len == c.tokens()
                &&& window == dims.window
                &&& layout == KVLayout::HeadMajor <==> c.on_device && c.bits == 16
            }
            &&& route matches QuantRoute::Native { n_heads_kv, head_dim, raw, scores_len } ==> {
                &&& n_heads_kv == c.kv_heads
                &&& head_dim == c.head_dim
                &&& raw.q_tokens + raw.res_tokens == c.tokens()
                &&& raw.res_tokens == c.res_tokens
                &&& raw.res_cap == c.residual_size
                &&& raw.bits == c.bits
                &&& scores is None ==> scores_len == 0
                &&& scores is Some ==> scores_len == dims.n_heads_q * c.tokens()
            }
            &&& route matches QuantRoute::Unpacked { n_heads_kv, head_dim, effective, stride } ==> {
                &&& n_heads_kv == c.kv_heads
                &&& head_dim == c.head_dim
                &&& effective <= c.tokens()
                &&& dims.window is None ==> effective == c.tokens()
                &&& dims.window matches Some(w) ==> effective <= w && (effective == w || effective
                    == c.tokens())
                &&& scores is None ==> stride == 0
                &&& scores matches Some(n) ==> dims.n_heads_q > 0 ==> stride * dims.n_heads_q <= n
                    < (stride + 1) * dims.n_heads_q
            }
        }),
{
    if let Some(n) = scores {
        if dims.n_heads_q > 0 {
            let d = dims.n_heads_q as int;
            let q = n as int / d;
            vstd::arithmetic::div_mod::lemma_fundamental_div_mod(n as int, d);
            vstd::arithmetic::div_mod::lemma_mod_bound(n as int, d);
            assert(q * d <= n < (q + 1) * d) by (nonlinear_arith)
                requires
                    n == d * q + n as int % d,
                    0 <= n as int % d < d,
            ;
        }
    }
}

/// Which scores a cache takes note of where it is to: none of several queries; of a device kernel's all,
/// each head's a whole part of them; of a query over unpacked rows those of the positions that took part.
pub proof fn lemma_which_scores_are_noted(
    c: QuantView,
    route: QuantRoute,
    n_heads_q: usize,
    produced: Seq<u32>,
)
    requires
        c.awqe,
        n_heads_q > 0,
        produced.len() <= usize::MAX,
    ensures
        ({
            let after = scores_noted(c, route, n_heads_q, produced);
            &&& route is Prefill ==> after.noted == c.noted
            &&& route !is Prefill ==> (after.noted matches Some(note) && note.scores == produced
                && note.n_heads_q == n_heads_q)
            &&& route is Native ==> {
                let note = after.noted->0;
                &&& note.stride == note.valid_len
                &&& note.valid_len * n_heads_q <= produced.len() < (note.valid_len + 1) * n_heads_q
            }
            &&& route matches QuantRoute::Unpacked { effective, stride, .. } ==> {
                let note = after.noted->0;
                &&& note.stride == stride
                &&& note.valid_len == effective
            }
        }),
{
    let n = produced.len() as int;
    let d = n_heads_q as int;
    let q = n / d;
    vstd::arithmetic::div_mod::lemma_fundamental_div_mod(n, d);
    vstd::arithmetic::div_mod::lemma_mod_bound(n, d);
    assert(q * d <= n < (q + 1) * d && 0 <= q <= n) by (nonlinear_arith)
        requires
            n == d * q + n % d,
            0 <= n % d < d,
            0 <= n,
            0 < d,
    ;
}

/// How a device kernel's scores are split: no more are copied than there are or than there is room for,
/// and as many as that allows; the cache notes each head's whole part of all of them.
pub proof fn lemma_native_scores(produced: usize, room: usize, n_heads_q: usize, r: NativeScores)
    requires
        call_ensures(native_scores, (produced, room, n_heads_q), r),
    ensures
        r.copied <= produced,
        r.copied <= room,
        r.copied == produced || r.copied == room,
        n_heads_q == 0 ==> r.valid_len == 0,
        n_heads_q > 0 ==> r.valid_len * n_heads_q <= produced < (r.valid_len + 1) * n_heads_q,
{
    if n_heads_q > 0 {
        let n = produced as int;
        let d = n_heads_q as int;
        let q = n / d;
        vstd::arithmetic::div_mod::lemma_fundamental_div_mod(n, d);
        vstd::arithmetic::div_mod::lemma_mod_bound(n, d);
        assert(q * d <= n < (q + 1) * d) by (nonlinear_arith)
            requires
                n == d * q + n % d,
                0 <= n % d < d,
        ;
    }
}

/// What the native kernel is told: the step's own heads, sizes and width, and nothing for another step.
pub proof fn lemma_kernel_is_told_the_step(route: QuantRoute, n_heads_q: usize)
    ensures
        native_geometry_of(route, n_heads_q) is Some <==> route is Native,
        route matches QuantRoute::Native { n_heads_kv, head_dim, raw, scores_len } ==> {
            let g = native_geometry_of(route, n_heads_q)->0;
            &&& g.num_heads_q == n_heads_q
            &&& g.num_heads_kv == n_heads_kv
            &&& g.head_dim == head_dim
            &&& g.q_tokens == raw.q_tokens
            &&& g.res_tokens == raw.res_tokens
            &&& g.res_cap == raw.res_cap
            &&& g.bits == raw.bits
            &&& g.scores_len == scores_len
        },
{
}

/// When a write is refused, and what a write that is taken does to the count of tokens. A refused write
/// changes nothing.
pub proof fn lemma_when_a_packed_write_is_taken<C: WindowCodec>(
    codec: &C,
    before: QuantView,
    new_k: Tensor,
    new_v: Tensor,
    r: Result<(), KvError>,
    after: QuantView,
)
    requires
        before.wf(),
        written(codec, before, new_k, new_v, r, after),
    ensures
        r is Ok ==> {
            &&& new_k.dtype == DType::F32
            &&& new_v.dtype == DType::F32
            &&& new_k.kv_heads == before.kv_heads
            &&& new_v.kv_heads == before.kv_heads
            &&& new_k.head_dim == before.head_dim
            &&& new_v.head_dim == before.head_dim
            &&& new_k.seq_len == new_v.seq_len
            &&& after.tokens() == before.tokens() + new_k.seq_len
            &&& after.tokens() <= before.max_seq_len
        },
        r is Err ==> after == before,
        r == Err::<(), KvError>(KvError::CapacityExceeded) ==> before.tokens() + new_k.seq_len
            > before.max_seq_len,
        rows_fit(before, new_k, new_v) && before.tokens() + new_k.seq_len <= before.max_seq_len ==> r
            is Ok,
        !rows_fit(before, new_k, new_v) ==> r == Err::<(), KvError>(KvError::ShapeMismatch),
        r == Err::<(), KvError>(KvError::CapacityExceeded) || r == Err::<(), KvError>(
            KvError::ShapeMismatch,
        ) || r is Ok,
{
}

/// The plugin's numbers: success is zero and every failure is below it, and the two layouts have
/// different tags.
pub proof fn lemma_plugin_numbers(layout: KVLayout)
    ensures
        RC_OK == 0,
        RC_NO_CL_MEM == -1,
        RC_TRANSITION_ERR == -2,
        RC_UPDATE_DEFERRED == -100,
        spec_layout_tag(layout) == 1 <==> layout == KVLayout::HeadMajor,
        spec_layout_tag(layout) == 0 <==> layout == KVLayout::SeqMajor,
{
}

} // verus!
