//! A cache of packed windows behind a short run of recent tokens.
//!
//! New tokens join the recent run as they come, in single precision. A full run is packed, key rows
//! and value rows each into one window of a few bits per element, and the run starts over. At 16
//! bits nothing is packed: the run is the whole cache.

use crate::dtype::{DType, KVLayout};
use crate::kv_cache::{KvError, Tensor};
use crate::offload::append_bytes;
use vstd::prelude::*;

verus! {

/// Elements that are packed under one scale: the head dimension and the run are multiples of it.
pub const QKKV: usize = 32;

/// Bits per element of a cache that packs nothing.
pub const FULL_BITS: u8 = 16;

/// The packing of windows, as a backend supplies it.
pub trait WindowCodec {
    /// Packs a window of single-precision rows, token after token.
    fn quantize(&self, bits: u8, key: bool, rows: &Vec<u8>) -> Vec<u8>;

    /// The single-precision rows of a packed window.
    fn dequantize(&self, bits: u8, key: bool, packed: &Vec<u8>) -> Vec<u8>;
}

/// `out` is what the coder packed `rows` into.
pub open spec fn quantized<C: WindowCodec>(
    codec: &C,
    bits: u8,
    key: bool,
    rows: Seq<u8>,
    out: Seq<u8>,
) -> bool {
    exists|a: Vec<u8>, b: Vec<u8>|
        a@ == rows && b@ == out && #[trigger] call_ensures(C::quantize, (codec, bits, key, &a), b)
}

/// `out` is what the coder unpacked `packed` into.
pub open spec fn dequantized<C: WindowCodec>(
    codec: &C,
    bits: u8,
    key: bool,
    packed: Seq<u8>,
    out: Seq<u8>,
) -> bool {
    exists|a: Vec<u8>, b: Vec<u8>|
        a@ == packed && b@ == out && #[trigger] call_ensures(
            C::dequantize,
            (codec, bits, key, &a),
            b,
        )
}

/// A packed cache as its contracts speak of it.
#[verifier::ext_equal]
pub struct QuantView {
    pub kv_heads: usize,
    pub head_dim: usize,
    pub max_seq_len: usize,
    pub residual_size: usize,
    pub bits: u8,
    pub on_device: bool,
    /// Packed key windows, oldest first, each of `residual_size` tokens.
    pub key_windows: Seq<Seq<u8>>,
    /// Packed value windows, oldest first, each of `residual_size` tokens.
    pub value_windows: Seq<Seq<u8>>,
    /// Single-precision key rows of the recent run, token after token.
    pub res_k: Seq<u8>,
    /// Single-precision value rows of the recent run, token after token.
    pub res_v: Seq<u8>,
    /// Tokens of the recent run.
    pub res_tokens: nat,
    /// Whether attention scores are taken note of.
    pub awqe: bool,
    /// The scores of the last step that were taken note of.
    pub noted: Option<NotedView>,
}

/// Attention scores that a cache took note of.
#[derive(Debug)]
pub struct NotedScores {
    /// Bit patterns of single-precision numbers, head after head.
    pub scores: Vec<u32>,
    pub n_heads_q: usize,
    /// From one head's scores to the next head's.
    pub stride: usize,
    /// Scores of each head that are of this step.
    pub valid_len: usize,
}

/// Scores taken note of, as contracts speak of them.
#[verifier::ext_equal]
pub struct NotedView {
    pub scores: Seq<u32>,
    pub n_heads_q: usize,
    pub stride: usize,
    pub valid_len: usize,
}

impl View for NotedScores {
    type V = NotedView;

    open spec fn view(&self) -> NotedView {
        NotedView {
            scores: self.scores@,
            n_heads_q: self.n_heads_q,
            stride: self.stride,
            valid_len: self.valid_len,
        }
    }
}

/// The bit widths a cache can have.
pub open spec fn spec_supported_bits(bits: u8) -> bool {
    bits == 2 || bits == 4 || bits == 8 || bits == FULL_BITS
}

impl QuantView {
    /// Bytes of one token's rows, on one side.
    pub open spec fn token_bytes(self) -> nat {
        self.kv_heads as nat * self.head_dim as nat * 4
    }

    /// Bytes of a full run's rows, on one side.
    pub open spec fn window_bytes(self) -> nat {
        self.residual_size as nat * self.token_bytes()
    }

    /// Tokens in packed windows.
    pub open spec fn q_tokens(self) -> nat {
        self.key_windows.len() * self.residual_size as nat
    }

    /// Tokens in the cache.
    pub open spec fn tokens(self) -> nat {
        self.q_tokens() + self.res_tokens
    }

    /// The run is within its bound and holds its tokens' rows; both sides have the same windows;
    /// and everything fits.
    pub open spec fn wf(self) -> bool {
        &&& self.head_dim % QKKV == 0
        &&& self.residual_size % QKKV == 0
        &&& self.residual_size > 0
        &&& spec_supported_bits(self.bits)
        &&& self.key_windows.len() == self.value_windows.len()
        &&& self.res_k.len() == self.res_tokens * self.token_bytes()
        &&& self.res_v.len() == self.res_tokens * self.token_bytes()
        &&& (self.bits == FULL_BITS ==> self.key_windows.len() == 0)
        &&& (self.bits != FULL_BITS ==> self.res_tokens < self.residual_size)
        &&& self.tokens() <= self.max_seq_len
        &&& self.max_seq_len * self.token_bytes() <= usize::MAX
        &&& self.window_bytes() <= usize::MAX
    }

    /// An empty cache of this geometry.
    pub open spec fn emptied(self) -> QuantView {
        QuantView {
            key_windows: Seq::empty(),
            value_windows: Seq::empty(),
            res_k: Seq::empty(),
            res_v: Seq::empty(),
            res_tokens: 0,
            ..self
        }
    }

    /// The cache after it was shown scores: it takes note of them where it is to.
    pub open spec fn noting(self, note: NotedView) -> QuantView {
        if self.awqe {
            QuantView { noted: Some(note), ..self }
        } else {
            self
        }
    }

    /// Windows that `tokens` tokens fill.
    pub open spec fn full_windows(self, tokens: nat) -> nat {
        if self.bits == FULL_BITS {
            0
        } else {
            tokens / self.residual_size as nat
        }
    }
}

/// The first `full` windows of `stream` are packed behind `before`.
pub open spec fn cut<C: WindowCodec>(
    codec: &C,
    bits: u8,
    key: bool,
    before: Seq<Seq<u8>>,
    stream: Seq<u8>,
    width: nat,
    full: nat,
    after: Seq<Seq<u8>>,
) -> bool {
    &&& after.len() == before.len() + full
    &&& forall|j: int| 0 <= j < before.len() ==> #[trigger] after[j] == before[j]
    &&& forall|j: int|
        before.len() <= j < after.len() ==> quantized(
            codec,
            bits,
            key,
            stream.subrange((j - before.len()) * width, (j - before.len() + 1) * width),
            #[trigger] after[j],
        )
}

/// `after` is `before` with `tokens` tokens in place of its recent run: the windows that they fill
/// are packed, and the rest is the new run.
pub open spec fn absorbed<C: WindowCodec>(
    codec: &C,
    before: QuantView,
    k: Seq<u8>,
    v: Seq<u8>,
    tokens: nat,
    after: QuantView,
) -> bool {
    let full = before.full_windows(tokens);
    let w = before.window_bytes();
    &&& after == (QuantView {
        key_windows: after.key_windows,
        value_windows: after.value_windows,
        res_k: k.skip((full * w) as int),
        res_v: v.skip((full * w) as int),
        res_tokens: (tokens - full * before.residual_size) as nat,
        ..before
    })
    &&& cut(codec, before.bits, true, before.key_windows, k, w, full, after.key_windows)
    &&& cut(codec, before.bits, false, before.value_windows, v, w, full, after.value_windows)
}

/// The rows of a write are single-precision rows of the cache's heads, as many keys as values.
pub open spec fn rows_fit(c: QuantView, new_k: Tensor, new_v: Tensor) -> bool {
    &&& new_k.dtype == DType::F32
    &&& new_v.dtype == DType::F32
    &&& new_k.kv_heads == c.kv_heads
    &&& new_v.kv_heads == c.kv_heads
    &&& new_k.head_dim == c.head_dim
    &&& new_v.head_dim == c.head_dim
    &&& new_k.data.width() == c.head_dim * 4
    &&& new_v.data.width() == c.head_dim * 4
    &&& new_k.seq_len == new_v.seq_len
}

/// Rows of the shape the cache takes are whole tokens.
proof fn lemma_flat_tokens(c: QuantView, t: Tensor)
    requires
        t.wf(),
        t.kv_heads == c.kv_heads,
        t.data.width() == c.head_dim * 4,
    ensures
        t.data.flat().len() == t.seq_len * c.token_bytes(),
{
    t.data.lemma_view();
    let s = t.seq_len as int;
    let h = c.kv_heads as int;
    let d = c.head_dim as int;
    assert((s * h) * (d * 4) == s * (h * d * 4)) by (nonlinear_arith);
}

/// Whole windows of a stream lie within it.
proof fn lemma_window_in_stream(i: int, full: int, w: int, len: int)
    requires
        0 <= i < full,
        0 <= w,
        full * w <= len,
    ensures
        0 <= i * w <= (i + 1) * w <= len,
        (i + 1) * w == i * w + w,
{
    assert(0 <= i * w && (i + 1) * w == i * w + w && (i + 1) * w <= full * w) by (nonlinear_arith)
        requires
            0 <= i < full,
            0 <= w,
    ;
}

/// The windows that tokens fill are no more than the tokens.
proof fn lemma_full_windows(c: QuantView, tokens: nat)
    requires
        c.residual_size > 0,
    ensures
        c.full_windows(tokens) * c.residual_size <= tokens,
        c.bits != FULL_BITS ==> tokens - c.full_windows(tokens) * c.residual_size
            < c.residual_size,
        c.full_windows(tokens) * c.window_bytes() <= tokens * c.token_bytes(),
        tokens * c.token_bytes() - c.full_windows(tokens) * c.window_bytes() == (tokens
            - c.full_windows(tokens) * c.residual_size) * c.token_bytes(),
{
    let r = c.residual_size as int;
    let t = tokens as int;
    let f = c.full_windows(tokens) as int;
    let b = c.token_bytes() as int;
    if c.bits != FULL_BITS {
        vstd::arithmetic::div_mod::lemma_fundamental_div_mod(t, r);
        vstd::arithmetic::div_mod::lemma_mod_bound(t, r);
        assert(f * r == r * f) by (nonlinear_arith);
    }
    assert(f * r <= t);
    assert(f * (r * b) <= t * b && t * b - f * (r * b) == (t - f * r) * b) by (nonlinear_arith)
        requires
            f * r <= t,
            0 <= b,
    ;
}

/// Packs the first `full` windows of `stream` behind `windows`, and returns what is left of it.
fn cut_windows<C: WindowCodec>(
    codec: &C,
    bits: u8,
    key: bool,
    windows: &mut Vec<Vec<u8>>,
    stream: &Vec<u8>,
    width: usize,
    full: usize,
) -> (rest: Vec<u8>)
    requires
        full * width <= stream@.len(),
    ensures
        rest@ == stream@.skip((full * width) as int),
        cut(
            codec,
            bits,
            key,
            old(windows).deep_view(),
            stream@,
            width as nat,
            full as nat,
            final(windows).deep_view(),
        ),
{
    let ghost before = windows.deep_view();
    assert(stream@.len() == stream.len());
    let mut i: usize = 0;
    let mut at: usize = 0;
    while i < full
        invariant
            i <= full,
            at == i * width,
            full * width <= stream@.len(),
            stream@.len() <= usize::MAX,
            cut(
                codec,
                bits,
                key,
                before,
                stream@,
                width as nat,
                i as nat,
                windows.deep_view(),
            ),
        decreases full - i,
    {
        proof {
            lemma_window_in_stream(i as int, full as int, width as int, stream@.len() as int);
        }
        let ghost earlier = windows.deep_view();
        let ghost held = windows@;
        let window: Vec<u8> = part(stream, at, at + width);
        let packed: Vec<u8> = codec.quantize(bits, key, &window);
        let ghost out = packed@;
        assert(quantized(codec, bits, key, window@, out));
        windows.push(packed);
        proof {
            let after = windows.deep_view();
            assert forall|j: int| 0 <= j < after.len() implies #[trigger] after[j] == earlier.push(
                out,
            )[j] by {
                assert(after[j] =~= windows@[j]@);
                if j < held.len() {
                    assert(earlier[j] =~= held[j]@);
                }
            }
            assert(after =~= earlier.push(out));
            assert forall|j: int| before.len() <= j < after.len() implies quantized(
                codec,
                bits,
                key,
                stream@.subrange((j - before.len()) * width, (j - before.len() + 1) * width),
                #[trigger] after[j],
            ) by {
                if j < earlier.len() {
                    assert(after[j] == earlier[j]);
                } else {
                    assert(j - before.len() == i);
                    assert((j - before.len()) * width == at) by (nonlinear_arith)
                        requires
                            j - before.len() == i,
                            at == i * width,
                    ;
                    assert((j - before.len() + 1) * width == at + width) by (nonlinear_arith)
                        requires
                            j - before.len() == i,
                            at == i * width,
                    ;
                }
            }
        }
        at = at + width;
        i = i + 1;
    }
    let end: usize = stream.len();
    let rest = part(stream, at, end);
    assert(rest@ =~= stream@.skip((full * width) as int));
    rest
}

/// A copy of `src[from..to]`.
fn part(src: &Vec<u8>, from: usize, to: usize) -> (out: Vec<u8>)
    requires
        from <= to <= src@.len(),
    ensures
        out@ == src@.subrange(from as int, to as int),
{
    let mut out: Vec<u8> = Vec::new();
    let mut i: usize = from;
    while i < to
        invariant
            from <= i <= to <= src@.len(),
            out@ == src@.subrange(from as int, i as int),
        decreases to - i,
    {
        out.push(src[i]);
        i = i + 1;
        assert(out@ =~= src@.subrange(from as int, i as int));
    }
    out
}

/// A cache of packed windows behind a short run of recent tokens.
pub struct QuantizedRecentWindowCache {
    kv_heads: usize,
    head_dim: usize,
    max_seq_len: usize,
    residual_size: usize,
    bits: u8,
    on_device: bool,
    key_windows: Vec<Vec<u8>>,
    value_windows: Vec<Vec<u8>>,
    res_k: Vec<u8>,
    res_v: Vec<u8>,
    res_tokens: usize,
    awqe: bool,
    noted: Option<NotedScores>,
}

impl View for QuantizedRecentWindowCache {
    type V = QuantView;

    closed spec fn view(&self) -> QuantView {
        QuantView {
            kv_heads: self.kv_heads,
            head_dim: self.head_dim,
            max_seq_len: self.max_seq_len,
            residual_size: self.residual_size,
            bits: self.bits,
            on_device: self.on_device,
            key_windows: self.key_windows.deep_view(),
            value_windows: self.value_windows.deep_view(),
            res_k: self.res_k@,
            res_v: self.res_v@,
            res_tokens: self.res_tokens as nat,
            awqe: self.awqe,
            noted: match self.noted {
                Some(n) => Some(n@),
                None => None,
            },
        }
    }
}

/// What a packed cache exposes of its buffers to a device kernel.
#[derive(Clone, Copy, Debug, PartialEq, Eq, Structural)]
pub struct RawWindow {
    pub q_tokens: usize,
    pub res_tokens: usize,
    pub res_cap: usize,
    pub bits: u8,
}

impl QuantView {
    /// The run's bound.
    pub open spec fn res_cap(self) -> usize {
        if self.bits == FULL_BITS {
            self.max_seq_len
        } else {
            self.residual_size
        }
    }

    /// The buffers are exposed where there is something packed on a device.
    pub open spec fn raw(self) -> Option<RawWindow> {
        if self.on_device && self.bits != FULL_BITS && self.tokens() > 0 {
            Some(
                RawWindow {
                    q_tokens: self.q_tokens() as usize,
                    res_tokens: self.res_tokens as usize,
                    res_cap: self.res_cap(),
                    bits: self.bits,
                },
            )
        } else {
            None
        }
    }

    /// The layout of the rows that attention reads: head-major for an unpacked device cache.
    pub open spec fn spec_layout(self) -> KVLayout {
        if self.on_device && self.bits == FULL_BITS {
            KVLayout::HeadMajor
        } else {
            KVLayout::SeqMajor
        }
    }
}

impl QuantizedRecentWindowCache {
    /// An empty cache on the host, at two bits per element.
    pub fn new(kv_heads: usize, head_dim: usize, max_seq_len: usize, residual_size: usize) -> (r:
        Self)
        requires
            head_dim % QKKV == 0,
            residual_size % QKKV == 0,
            residual_size > 0,
            max_seq_len * (kv_heads * head_dim * 4) <= usize::MAX,
            residual_size * (kv_heads * head_dim * 4) <= usize::MAX,
        ensures
            r@.wf(),
            r@.kv_heads == kv_heads,
            r@.head_dim == head_dim,
            r@.max_seq_len == max_seq_len,
            r@.residual_size == residual_size,
            r@.bits == 2,
            !r@.on_device,
            r@ == r@.emptied(),
    {
        Self::build(kv_heads, head_dim, max_seq_len, residual_size, 2, false)
    }

    /// An empty cache on a device.
    pub fn new_gpu(
        kv_heads: usize,
        head_dim: usize,
        max_seq_len: usize,
        residual_size: usize,
        bits: u8,
    ) -> (r: Self)
        requires
            head_dim % QKKV == 0,
            residual_size % QKKV == 0,
            residual_size > 0,
            spec_supported_bits(bits),
            max_seq_len * (kv_heads * head_dim * 4) <= usize::MAX,
            residual_size * (kv_heads * head_dim * 4) <= usize::MAX,
        ensures
            r@.wf(),
            r@.kv_heads == kv_heads,
            r@.head_dim == head_dim,
            r@.max_seq_len == max_seq_len,
            r@.residual_size == residual_size,
            r@.bits == bits,
            r@.on_device,
            r@ == r@.emptied(),
    {
        Self::build(kv_heads, head_dim, max_seq_len, residual_size, bits, true)
    }

    fn build(
        kv_heads: usize,
        head_dim: usize,
        max_seq_len: usize,
        residual_size: usize,
        bits: u8,
        on_device: bool,
    ) -> (r: Self)
        requires
            head_dim % QKKV == 0,
            residual_size % QKKV == 0,
            residual_size > 0,
            spec_supported_bits(bits),
            max_seq_len * (kv_heads * head_dim * 4) <= usize::MAX,
            residual_size * (kv_heads * head_dim * 4) <= usize::MAX,
        ensures
            r@.wf(),
            r@.kv_heads == kv_heads,
            r@.head_dim == head_dim,
            r@.max_seq_len == max_seq_len,
            r@.residual_size == residual_size,
            r@.bits == bits,
            r@.on_device == on_device,
            !r@.awqe,
            r@.noted is None,
            r@ == r@.emptied(),
    {
        let r = QuantizedRecentWindowCache {
            kv_heads,
            head_dim,
            max_seq_len,
            residual_size,
            bits,
            on_device,
            key_windows: Vec::new(),
            value_windows: Vec::new(),
            res_k: Vec::new(),
            res_v: Vec::new(),
            res_tokens: 0,
            awqe: false,
            noted: None,
        };
        proof {
            assert(r@ =~= r@.emptied());
            assert(0 * r@.token_bytes() == 0) by (nonlinear_arith);
            assert(0 * r@.residual_size == 0) by (nonlinear_arith);
        }
        r
    }

    pub fn kv_heads(&self) -> (n: usize)
        ensures
            n == self@.kv_heads,
    {
        self.kv_heads
    }

    pub fn head_dim(&self) -> (n: usize)
        ensures
            n == self@.head_dim,
    {
        self.head_dim
    }

    /// Positions the cache may hold.
    pub fn capacity(&self) -> (n: usize)
        ensures
            n == self@.max_seq_len,
    {
        self.max_seq_len
    }

    pub fn bits(&self) -> (b: u8)
        ensures
            b == self@.bits,
    {
        self.bits
    }

    pub fn is_gpu(&self) -> (b: bool)
        ensures
            b == self@.on_device,
    {
        self.on_device
    }

    /// The layout of the rows that attention reads.
    pub fn layout(&self) -> (r: KVLayout)
        ensures
            r == self@.spec_layout(),
    {
        if self.on_device && self.bits == FULL_BITS {
            KVLayout::HeadMajor
        } else {
            KVLayout::SeqMajor
        }
    }

    /// Tokens in packed windows.
    pub fn q_tokens(&self) -> (n: usize)
        requires
            self@.wf(),
        ensures
            n == self@.q_tokens(),
    {
        proof {
            assert(self@.key_windows.len() == self.key_windows@.len());
        }
        self.key_windows.len() * self.residual_size
    }

    /// Tokens in the cache.
    pub fn current_pos(&self) -> (n: usize)
        requires
            self@.wf(),
        ensures
            n == self@.tokens(),
    {
        self.q_tokens() + self.res_tokens
    }

    /// The recent run's key rows.
    pub fn recent_keys(&self) -> (rows: &Vec<u8>)
        ensures
            rows@ == self@.res_k,
    {
        &self.res_k
    }

    /// The recent run's value rows.
    pub fn recent_values(&self) -> (rows: &Vec<u8>)
        ensures
            rows@ == self@.res_v,
    {
        &self.res_v
    }

    /// What is exposed to a device kernel.
    pub fn get_quant_window_raw_buffers(&self) -> (r: Option<RawWindow>)
        requires
            self@.wf(),
        ensures
            r == self@.raw(),
    {
        if !self.on_device || self.bits == FULL_BITS || self.current_pos() == 0 {
            return None;
        }
        Some(
            RawWindow {
                q_tokens: self.q_tokens(),
                res_tokens: self.res_tokens,
                res_cap: self.residual_size,
                bits: self.bits,
            },
        )
    }

    /// Whether attention scores are taken note of from now on.
    pub fn set_awqe_enabled(&mut self, enabled: bool)
        ensures
            final(self)@ == (QuantView { awqe: enabled, ..old(self)@ }),
    {
        self.awqe = enabled;
    }

    /// Shows the cache a step's scores; it takes note of them where it is to.
    pub fn set_attn_scores(
        &mut self,
        scores: &Vec<u32>,
        n_heads_q: usize,
        stride: usize,
        valid_len: usize,
    )
        ensures
            final(self)@ == old(self)@.noting(
                NotedView { scores: scores@, n_heads_q, stride, valid_len },
            ),
    {
        if self.awqe {
            let copy: Vec<u32> = scores.clone();
            assert(copy@ =~= scores@);
            self.noted = Some(NotedScores { scores: copy, n_heads_q, stride, valid_len });
        }
    }

    /// The scores of the last step that were taken note of.
    pub fn attn_scores(&self) -> (r: Option<&NotedScores>)
        ensures
            match r {
                Some(n) => self@.noted == Some(n@),
                None => self@.noted is None,
            },
    {
        match &self.noted {
            Some(n) => Some(n),
            None => None,
        }
    }

    /// Forgets every token.
    pub fn reset(&mut self)
        requires
            old(self)@.wf(),
        ensures
            final(self)@.wf(),
            final(self)@ == old(self)@.emptied(),
    {
        self.key_windows = Vec::new();
        self.value_windows = Vec::new();
        self.res_k = Vec::new();
        self.res_v = Vec::new();
        self.res_tokens = 0;
        proof {
            assert(self@ =~= old(self)@.emptied());
            assert(0 * self@.token_bytes() == 0) by (nonlinear_arith);
            assert(0 * self@.residual_size == 0) by (nonlinear_arith);
        }
    }

    /// Puts `tokens` tokens in place of the recent run.
    fn absorb<C: WindowCodec>(&mut self, codec: &C, k: Vec<u8>, v: Vec<u8>, tokens: usize)
        requires
            old(self)@.residual_size > 0,
            k@.len() == tokens * old(self)@.token_bytes(),
            v@.len() == tokens * old(self)@.token_bytes(),
            old(self)@.window_bytes() <= usize::MAX,
        ensures
            absorbed(codec, old(self)@, k@, v@, tokens as nat, final(self)@),
    {
        let ghost before = self@;
        proof {
            lemma_full_windows(before, tokens as nat);
            assert(k@.len() == k.len());
        }
        if self.bits == FULL_BITS {
            self.res_k = k;
            self.res_v = v;
            self.res_tokens = tokens;
            proof {
                assert(self@.res_k =~= k@.skip((0 * before.window_bytes()) as int));
                assert(self@.res_v =~= v@.skip((0 * before.window_bytes()) as int));
                assert(self@ =~= (QuantView {
                    key_windows: self@.key_windows,
                    value_windows: self@.value_windows,
                    res_k: k@.skip((0 * before.window_bytes()) as int),
                    res_v: v@.skip((0 * before.window_bytes()) as int),
                    res_tokens: (tokens - 0 * before.residual_size) as nat,
                    ..before
                }));
            }
            return;
        }
        let full: usize = tokens / self.residual_size;
        proof {
            assert(full == before.full_windows(tokens as nat));
            let r = before.residual_size as int;
            let h = before.kv_heads as int;
            let d = before.head_dim as int;
            assert(h * d * 4 <= r * (h * d * 4) && h * d <= h * d * 4) by (nonlinear_arith)
                requires
                    1 <= r,
                    0 <= h,
                    0 <= d,
            ;
        }
        let token_bytes: usize = self.kv_heads * self.head_dim * 4;
        let width: usize = self.residual_size * token_bytes;
        self.res_k = cut_windows(codec, self.bits, true, &mut self.key_windows, &k, width, full);
        self.res_v = cut_windows(codec, self.bits, false, &mut self.value_windows, &v, width, full);
        self.res_tokens = tokens - full * self.residual_size;
    }

    /// Appends tokens to the recent run, packing every window that they fill.
    pub fn update<C: WindowCodec>(&mut self, new_k: &Tensor, new_v: &Tensor, codec: &C) -> (r:
        Result<(), KvError>)
        requires
            old(self)@.wf(),
            new_k.wf(),
            new_v.wf(),
        ensures
            final(self)@.wf(),
            r is Err ==> final(self)@ == old(self)@,
            r == Err::<(), KvError>(KvError::ShapeMismatch) <==> !rows_fit(
                old(self)@,
                *new_k,
                *new_v,
            ),
            r == Err::<(), KvError>(KvError::CapacityExceeded) <==> rows_fit(
                old(self)@,
                *new_k,
                *new_v,
            ) && old(self)@.tokens() + new_k.seq_len > old(self)@.max_seq_len,
            r is Ok <==> rows_fit(old(self)@, *new_k, *new_v) && old(self)@.tokens()
                + new_k.seq_len <= old(self)@.max_seq_len,
            r is Ok ==> absorbed(
                codec,
                old(self)@,
                old(self)@.res_k + new_k.data.flat(),
                old(self)@.res_v + new_v.data.flat(),
                (old(self)@.res_tokens + new_k.seq_len) as nat,
                final(self)@,
            ),
            r is Ok ==> final(self)@.tokens() == old(self)@.tokens() + new_k.seq_len,
    {
        let ghost before = self@;
        proof {
            new_k.data.lemma_view();
            new_v.data.lemma_view();
        }
        let width: usize = match self.head_dim.checked_mul(4) {
            Some(w) => w,
            None => {
                return Err(KvError::ShapeMismatch);
            },
        };
        if new_k.dtype != DType::F32 || new_v.dtype != DType::F32 || new_k.kv_heads
            != self.kv_heads || new_v.kv_heads != self.kv_heads || new_k.head_dim != self.head_dim
            || new_v.head_dim != self.head_dim || new_k.data.row_bytes() != width
            || new_v.data.row_bytes() != width || new_k.seq_len != new_v.seq_len {
            return Err(KvError::ShapeMismatch);
        }
        if new_k.seq_len > self.max_seq_len - self.current_pos() {
            return Err(KvError::CapacityExceeded);
        }
        let tokens: usize = self.res_tokens + new_k.seq_len;
        let mut k: Vec<u8> = Vec::new();
        append_bytes(&mut k, &self.res_k);
        append_bytes(&mut k, new_k.data.as_bytes());
        let mut v: Vec<u8> = Vec::new();
        append_bytes(&mut v, &self.res_v);
        append_bytes(&mut v, new_v.data.as_bytes());
        proof {
            lemma_flat_tokens(before, *new_k);
            lemma_flat_tokens(before, *new_v);
            let a = before.res_tokens as int;
            let n = new_k.seq_len as int;
            let b = before.token_bytes() as int;
            assert((a + n) * b == a * b + n * b) by (nonlinear_arith);
            assert(k@ =~= before.res_k + new_k.data.flat());
            assert(v@ =~= before.res_v + new_v.data.flat());
        }
        self.absorb(codec, k, v, tokens);
        proof {
            lemma_absorbed_wf(codec, before, k@, v@, tokens as nat, self@);
        }
        Ok(())
    }
}

/// Absorbing tokens that the cache has room for keeps it well-formed, and leaves as many tokens as
/// were packed before plus those absorbed.
pub proof fn lemma_absorbed_wf<C: WindowCodec>(
    codec: &C,
    before: QuantView,
    k: Seq<u8>,
    v: Seq<u8>,
    tokens: nat,
    after: QuantView,
)
    requires
        before.wf(),
        k.len() == tokens * before.token_bytes(),
        v.len() == tokens * before.token_bytes(),
        before.q_tokens() + tokens <= before.max_seq_len,
        absorbed(codec, before, k, v, tokens, after),
    ensures
        after.wf(),
        after.tokens() == before.q_tokens() + tokens,
{
    lemma_full_windows(before, tokens);
    let full = before.full_windows(tokens);
    let n = before.key_windows.len();
    let r = before.residual_size as nat;
    assert((n + full) * r == n * r + full * r) by (nonlinear_arith);
    if before.bits == FULL_BITS {
        assert(0 * before.window_bytes() == 0) by (nonlinear_arith);
    }
}

/// The windows unpacked, oldest first.
pub open spec fn unpacked<C: WindowCodec>(
    codec: &C,
    bits: u8,
    key: bool,
    windows: Seq<Seq<u8>>,
    width: nat,
    out: Seq<u8>,
) -> bool {
    &&& out.len() == windows.len() * width
    &&& forall|i: int|
        0 <= i < windows.len() ==> dequantized(
            codec,
            bits,
            key,
            #[trigger] windows[i],
            out.subrange(i * width, (i + 1) * width),
        )
}

/// The coder unpacked some window into another number of bytes than a window has.
pub open spec fn misshapen<C: WindowCodec>(
    codec: &C,
    bits: u8,
    key: bool,
    windows: Seq<Seq<u8>>,
    width: nat,
) -> bool {
    exists|i: int, out: Seq<u8>|
        0 <= i < windows.len() && out.len() != width && #[trigger] dequantized(
            codec,
            bits,
            key,
            windows[i],
            out,
        )
}

/// `after` holds the tokens of `before` at another width: every window unpacked, and all of it
/// absorbed again.
pub open spec fn rebitted<C: WindowCodec>(
    codec: &C,
    before: QuantView,
    target: u8,
    after: QuantView,
) -> bool {
    exists|k: Seq<u8>, v: Seq<u8>|
        {
            &&& #[trigger] unpacked(
                codec,
                before.bits,
                true,
                before.key_windows,
                before.window_bytes(),
                k,
            )
            &&& #[trigger] unpacked(
                codec,
                before.bits,
                false,
                before.value_windows,
                before.window_bytes(),
                v,
            )
            &&& absorbed(
                codec,
                QuantView { bits: target, ..before.emptied() },
                k + before.res_k,
                v + before.res_v,
                before.tokens(),
                after,
            )
        }
}

/// The rows of every token: what the coder unpacked of the windows, then the recent run.
pub open spec fn viewed<C: WindowCodec>(codec: &C, c: QuantView, k: Seq<u8>, v: Seq<u8>) -> bool {
    exists|wk: Seq<u8>, wv: Seq<u8>|
        {
            &&& #[trigger] unpacked(codec, c.bits, true, c.key_windows, c.window_bytes(), wk)
            &&& #[trigger] unpacked(codec, c.bits, false, c.value_windows, c.window_bytes(), wv)
            &&& k == wk + c.res_k
            &&& v == wv + c.res_v
        }
}

/// Unpacks the windows; `None` when the coder returned another number of bytes than a window has.
fn unpack_windows<C: WindowCodec>(
    codec: &C,
    bits: u8,
    key: bool,
    windows: &Vec<Vec<u8>>,
    width: usize,
) -> (r: Option<Vec<u8>>)
    ensures
        r matches Some(out) ==> unpacked(
            codec,
            bits,
            key,
            windows.deep_view(),
            width as nat,
            out@,
        ),
        r is None ==> misshapen(codec, bits, key, windows.deep_view(), width as nat),
{
    let ghost all = windows.deep_view();
    let mut out: Vec<u8> = Vec::new();
    let mut i: usize = 0;
    proof {
        assert(0 * width == 0) by (nonlinear_arith);
    }
    while i < windows.len()
        invariant
            i <= windows@.len(),
            all == windows.deep_view(),
            out@.len() == i * width,
            forall|j: int|
                0 <= j < i ==> dequantized(
                    codec,
                    bits,
                    key,
                    #[trigger] all[j],
                    out@.subrange(j * width, (j + 1) * width),
                ),
        decreases windows@.len() - i,
    {
        let rows: Vec<u8> = codec.dequantize(bits, key, &windows[i]);
        assert(all[i as int] =~= windows@[i as int]@);
        assert(dequantized(codec, bits, key, all[i as int], rows@));
        if rows.len() != width {
            return None;
        }
        let ghost earlier = out@;
        append_bytes(&mut out, &rows);
        proof {
            assert((i + 1) * width == i * width + width) by (nonlinear_arith);
            assert forall|j: int| 0 <= j < i + 1 implies dequantized(
                codec,
                bits,
                key,
                #[trigger] all[j],
                out@.subrange(j * width, (j + 1) * width),
            ) by {
                lemma_window_in_stream(j, i + 1, width as int, out@.len() as int);
                if j < i {
                    lemma_window_in_stream(j, i as int, width as int, earlier.len() as int);
                    assert(out@.subrange(j * width, (j + 1) * width) =~= earlier.subrange(
                        j * width,
                        (j + 1) * width,
                    ));
                } else {
                    assert(out@.subrange(j * width, (j + 1) * width) =~= rows@);
                }
            }
        }
        i = i + 1;
    }
    assert(all.len() == windows@.len());
    Some(out)
}

impl QuantizedRecentWindowCache {
    /// Bytes of a full run's rows, on one side.
    fn window_width(&self) -> (n: usize)
        requires
            self@.wf(),
        ensures
            n == self@.window_bytes(),
    {
        proof {
            let r = self@.residual_size as int;
            let h = self@.kv_heads as int;
            let d = self@.head_dim as int;
            assert(h * d * 4 <= r * (h * d * 4) && h * d <= h * d * 4) by (nonlinear_arith)
                requires
                    1 <= r,
                    0 <= h,
                    0 <= d,
            ;
        }
        self.residual_size * (self.kv_heads * self.head_dim * 4)
    }

    /// The rows of every token in single precision, token after token: the packed windows unpacked, then
    /// the recent run. Fails when the coder returned a window in another number of bytes.
    pub fn get_view<C: WindowCodec>(&self, codec: &C) -> (r: Result<(Vec<u8>, Vec<u8>), KvError>)
        requires
            self@.wf(),
        ensures
            r matches Ok(kv) ==> viewed(codec, self@, kv.0@, kv.1@),
            r matches Err(e) ==> e == KvError::CodecShape && (misshapen(
                codec,
                self@.bits,
                true,
                self@.key_windows,
                self@.window_bytes(),
            ) || misshapen(
                codec,
                self@.bits,
                false,
                self@.value_windows,
                self@.window_bytes(),
            )),
    {
        let width: usize = self.window_width();
        let mut k: Vec<u8> = match unpack_windows(codec, self.bits, true, &self.key_windows, width) {
            Some(k) => k,
            None => {
                return Err(KvError::CodecShape);
            },
        };
        let mut v: Vec<u8> = match unpack_windows(
            codec,
            self.bits,
            false,
            &self.value_windows,
            width,
        ) {
            Some(v) => v,
            None => {
                return Err(KvError::CodecShape);
            },
        };
        let ghost windows_k = k@;
        let ghost windows_v = v@;
        append_bytes(&mut k, &self.res_k);
        append_bytes(&mut v, &self.res_v);
        proof {
            assert(k@ =~= windows_k + self@.res_k);
            assert(v@ =~= windows_v + self@.res_v);
        }
        Ok((k, v))
    }

    /// Stores the same tokens at another width. The width it has is no change.
    pub fn transition_bits<C: WindowCodec>(&mut self, target: u8, codec: &C) -> (r: Result<
        (),
        KvError,
    >)
        requires
            old(self)@.wf(),
        ensures
            final(self)@.wf(),
            r is Err ==> final(self)@ == old(self)@,
            target == old(self)@.bits ==> r is Ok && final(self)@ == old(self)@,
            r == Err::<(), KvError>(KvError::UnsupportedDType) <==> !spec_supported_bits(target),
            r is Err && spec_supported_bits(target) ==> r->Err_0 == KvError::CodecShape && (
            misshapen(
                codec,
                old(self)@.bits,
                true,
                old(self)@.key_windows,
                old(self)@.window_bytes(),
            ) || misshapen(
                codec,
                old(self)@.bits,
                false,
                old(self)@.value_windows,
                old(self)@.window_bytes(),
            )),
            r is Ok && target != old(self)@.bits ==> rebitted(
                codec,
                old(self)@,
                target,
                final(self)@,
            ) && final(self)@.tokens() == old(self)@.tokens(),
    {
        let ghost before = self@;
        if target == self.bits {
            return Ok(());
        }
        if !(target == 2 || target == 4 || target == 8 || target == FULL_BITS) {
            return Err(KvError::UnsupportedDType);
        }
        let width: usize = self.window_width();
        let tokens: usize = self.current_pos();
        let mut k: Vec<u8> = match unpack_windows(codec, self.bits, true, &self.key_windows, width) {
            Some(k) => k,
            None => {
                return Err(KvError::CodecShape);
            },
        };
        let mut v: Vec<u8> = match unpack_windows(
            codec,
            self.bits,
            false,
            &self.value_windows,
            width,
        ) {
            Some(v) => v,
            None => {
                return Err(KvError::CodecShape);
            },
        };
        let ghost windows_k = k@;
        let ghost windows_v = v@;
        append_bytes(&mut k, &self.res_k);
        append_bytes(&mut v, &self.res_v);
        let mut fresh = Self::build(
            self.kv_heads,
            self.head_dim,
            self.max_seq_len,
            self.residual_size,
            target,
            self.on_device,
        );
        fresh.awqe = self.awqe;
        std::mem::swap(&mut fresh.noted, &mut self.noted);
        proof {
            let n = before.key_windows.len() as int;
            let r = before.residual_size as int;
            let b = before.token_bytes() as int;
            let t = before.res_tokens as int;
            assert(n * (r * b) + t * b == (n * r + t) * b) by (nonlinear_arith);
            assert(fresh@ =~= (QuantView { bits: target, ..before.emptied() }));
        }
        fresh.absorb(codec, k, v, tokens);
        proof {
            let start = QuantView { bits: target, ..before.emptied() };
            assert(0 * start.residual_size == 0) by (nonlinear_arith);
            assert(0 * start.token_bytes() == 0) by (nonlinear_arith);
            assert(start.wf());
            lemma_absorbed_wf(codec, start, k@, v@, tokens as nat, fresh@);
            assert(k@ =~= windows_k + before.res_k);
            assert(v@ =~= windows_v + before.res_v);
        }
        *self = fresh;
        Ok(())
    }
}

/// Two writes leave what one write of all the tokens may leave: the same windows, packed from the
/// same rows, and the same recent run.
pub proof fn lemma_absorb_in_two<C: WindowCodec>(
    codec: &C,
    before: QuantView,
    k1: Seq<u8>,
    v1: Seq<u8>,
    n1: nat,
    middle: QuantView,
    k2: Seq<u8>,
    v2: Seq<u8>,
    n2: nat,
    after: QuantView,
)
    requires
        before.wf(),
        k1.len() == n1 * before.token_bytes(),
        v1.len() == n1 * before.token_bytes(),
        k2.len() == n2 * before.token_bytes(),
        v2.len() == n2 * before.token_bytes(),
        absorbed(codec, before, before.res_k + k1, before.res_v + v1, before.res_tokens + n1, middle),
        absorbed(codec, middle, middle.res_k + k2, middle.res_v + v2, middle.res_tokens + n2, after),
    ensures
        absorbed(
            codec,
            before,
            before.res_k + k1 + k2,
            before.res_v + v1 + v2,
            before.res_tokens + n1 + n2,
            after,
        ),
{
    let t1 = before.res_tokens + n1;
    let t2 = middle.res_tokens + n2;
    let t = t1 + n2;
    let f1 = before.full_windows(t1);
    let f2 = middle.full_windows(t2);
    let f = before.full_windows(t);
    let r = before.residual_size as nat;
    let b = before.token_bytes();
    let w = before.window_bytes();
    lemma_full_windows(before, t1);
    lemma_full_windows(middle, t2);
    lemma_full_windows(before, t);
    assert(middle.token_bytes() == b && middle.window_bytes() == w);
    assert(f == f1 + f2) by {
        if before.bits != FULL_BITS {
            assert(t2 == t - f1 * r);
            vstd::arithmetic::div_mod::lemma_fundamental_div_mod(t2 as int, r as int);
            vstd::arithmetic::div_mod::lemma_mod_bound(t2 as int, r as int);
            let rest = (t2 % r) as int;
            let whole = (f1 + f2) as int;
            assert(t2 == r * f2 + rest);
            assert(t as int == whole * (r as int) + rest) by (nonlinear_arith)
                requires
                    t2 == t - f1 * r,
                    t2 == r * f2 + rest,
                    whole == f1 + f2,
            ;
            assert(0 <= rest < r);
            vstd::arithmetic::div_mod::lemma_fundamental_div_mod_converse(
                t as int,
                r as int,
                whole,
                rest,
            );
        }
    }
    assert(f * w == f1 * w + f2 * w && f * r == f1 * r + f2 * r) by (nonlinear_arith)
        requires
            f == f1 + f2,
    ;
    assert((before.res_tokens + n1) * b == before.res_tokens * b + n1 * b) by (nonlinear_arith);
    assert((t1 + n2) * b == t1 * b + n2 * b) by (nonlinear_arith);
    lemma_side_in_two(
        codec,
        before.bits,
        true,
        before.key_windows,
        before.res_k + k1,
        k2,
        w,
        f1,
        f2,
        middle.key_windows,
        after.key_windows,
    );
    lemma_side_in_two(
        codec,
        before.bits,
        false,
        before.value_windows,
        before.res_v + v1,
        v2,
        w,
        f1,
        f2,
        middle.value_windows,
        after.value_windows,
    );
    assert(after.res_tokens == t - f * r);
    assert(after =~= (QuantView {
        key_windows: after.key_windows,
        value_windows: after.value_windows,
        res_k: (before.res_k + k1 + k2).skip((f * w) as int),
        res_v: (before.res_v + v1 + v2).skip((f * w) as int),
        res_tokens: (t - f * r) as nat,
        ..before
    }));
}

/// One side of a write in two.
proof fn lemma_side_in_two<C: WindowCodec>(
    codec: &C,
    bits: u8,
    key: bool,
    before: Seq<Seq<u8>>,
    s1: Seq<u8>,
    x: Seq<u8>,
    w: nat,
    f1: nat,
    f2: nat,
    middle: Seq<Seq<u8>>,
    after: Seq<Seq<u8>>,
)
    requires
        f1 * w <= s1.len(),
        f2 * w <= s1.len() - f1 * w + x.len(),
        cut(codec, bits, key, before, s1, w, f1, middle),
        cut(codec, bits, key, middle, s1.skip((f1 * w) as int) + x, w, f2, after),
    ensures
        cut(codec, bits, key, before, s1 + x, w, f1 + f2, after),
        (s1.skip((f1 * w) as int) + x).skip((f2 * w) as int) == (s1 + x).skip(((f1 + f2) * w) as int),
{
    let s2 = s1.skip((f1 * w) as int) + x;
    let s = s1 + x;
    assert((f1 + f2) * w == f1 * w + f2 * w) by (nonlinear_arith);
    assert(s2.skip((f2 * w) as int) =~= s.skip(((f1 + f2) * w) as int));
    assert forall|j: int| 0 <= j < before.len() implies #[trigger] after[j] == before[j] by {
        assert(middle[j] == before[j]);
    }
    assert forall|j: int| before.len() <= j < after.len() implies quantized(
        codec,
        bits,
        key,
        s.subrange((j - before.len()) * w, (j - before.len() + 1) * w),
        #[trigger] after[j],
    ) by {
        let i = j - before.len();
        if j < middle.len() {
            assert(after[j] == middle[j]);
            lemma_window_in_stream(i, f1 as int, w as int, s1.len() as int);
            assert(s.subrange(i * w, (i + 1) * w) =~= s1.subrange(i * w, (i + 1) * w));
        } else {
            let q = j - middle.len();
            lemma_window_in_stream(q, f2 as int, w as int, s2.len() as int);
            assert(i * w == f1 * w + q * w && (i + 1) * w == f1 * w + (q + 1) * w)
                by (nonlinear_arith)
                requires
                    i == f1 + q,
            ;
            assert(s.subrange(i * w, (i + 1) * w) =~= s2.subrange(q * w, (q + 1) * w));
        }
    }
}

/// The newest tokens are stored as they came: after a write that leaves `n` tokens in the run, the
/// run is the last `n` tokens' rows of what was absorbed.
pub proof fn lemma_recent_rows_are_verbatim<C: WindowCodec>(
    codec: &C,
    before: QuantView,
    k: Seq<u8>,
    v: Seq<u8>,
    tokens: nat,
    after: QuantView,
)
    requires
        before.wf(),
        k.len() == tokens * before.token_bytes(),
        v.len() == tokens * before.token_bytes(),
        absorbed(codec, before, k, v, tokens, after),
    ensures
        after.res_k == k.skip(k.len() - after.res_tokens * before.token_bytes()),
        after.res_v == v.skip(v.len() - after.res_tokens * before.token_bytes()),
        before.bits == FULL_BITS ==> after.res_k == k && after.res_v == v,
        before.bits != FULL_BITS ==> after.res_tokens < before.residual_size,
{
    lemma_full_windows(before, tokens);
    if before.bits == FULL_BITS {
        assert(0 * before.window_bytes() == 0) by (nonlinear_arith);
        assert(0 * before.residual_size == 0) by (nonlinear_arith);
        assert(k.skip(0) =~= k);
        assert(v.skip(0) =~= v);
    }
}

/// The sizes of a packed cache in numbers: four bytes for each element of each head of a token, windows
/// of whole runs, and every token either in a window or in the run. A cache packs at two, four or eight
/// bits, and at sixteen nothing.
pub proof fn lemma_packed_sizes(c: QuantView)
    requires
        c.wf(),
    ensures
        c.token_bytes() == 4 * (c.kv_heads * c.head_dim),
        c.window_bytes() == c.residual_size * (4 * (c.kv_heads * c.head_dim)),
        c.tokens() == c.key_windows.len() * c.residual_size + c.res_tokens,
        c.res_k.len() == c.res_tokens * (4 * (c.kv_heads * c.head_dim)),
        c.res_v.len() == c.res_k.len(),
        c.value_windows.len() == c.key_windows.len(),
        c.head_dim % 32 == 0,
        c.residual_size % 32 == 0,
        c.bits == 2 || c.bits == 4 || c.bits == 8 || c.bits == 16,
        c.bits == 16 ==> c.key_windows.len() == 0,
        c.bits != 16 ==> c.res_tokens < c.residual_size,
        c.tokens() <= c.max_seq_len,
{
    assert(c.kv_heads as nat * c.head_dim as nat * 4 == 4 * (c.kv_heads * c.head_dim))
        by (nonlinear_arith);
}

/// Which widths there are.
pub proof fn lemma_widths(bits: u8)
    ensures
        spec_supported_bits(bits) <==> bits == 2 || bits == 4 || bits == 8 || bits == 16,
{
}

/// Which rows a write takes: single precision on both sides, of the cache's heads and width, as many
/// keys as values.
pub proof fn lemma_which_rows_fit(c: QuantView, new_k: Tensor, new_v: Tensor)
    ensures
        rows_fit(c, new_k, new_v) <==> new_k.dtype == DType::F32 && new_v.dtype == DType::F32
            && new_k.kv_heads == c.kv_heads && new_v.kv_heads == c.kv_heads && new_k.head_dim
            == c.head_dim && new_v.head_dim == c.head_dim && new_k.data.width() == 4 * c.head_dim
            && new_v.data.width() == 4 * c.head_dim && new_k.seq_len == new_v.seq_len,
{
}

/// What a write packs: as many windows as the tokens fill, each from the rows of its own run of tokens,
/// keys as keys and values as values, at the cache's width; the windows before them stay.
pub proof fn lemma_a_window_packs_its_run<C: WindowCodec>(
    codec: &C,
    before: QuantView,
    k: Seq<u8>,
    v: Seq<u8>,
    tokens: nat,
    after: QuantView,
    j: int,
)
    requires
        before.wf(),
        k.len() == tokens * before.token_bytes(),
        v.len() == tokens * before.token_bytes(),
        absorbed(codec, before, k, v, tokens, after),
        0 <= j,
        j < after.key_windows.len() - before.key_windows.len(),
    ensures
        before.bits != 16,
        (j + 1) * before.residual_size <= tokens,
        after.value_windows.len() == after.key_windows.len(),
        quantized(
            codec,
            before.bits,
            true,
            k.subrange(
                j * before.residual_size * before.token_bytes(),
                (j + 1) * before.residual_size * before.token_bytes(),
            ),
            after.key_windows[before.key_windows.len() + j],
        ),
        quantized(
            codec,
            before.bits,
            false,
            v.subrange(
                j * before.residual_size * before.token_bytes(),
                (j + 1) * before.residual_size * before.token_bytes(),
            ),
            after.value_windows[before.value_windows.len() + j],
        ),
{
    let n = before.key_windows.len() as int;
    let r = before.residual_size as int;
    let b = before.token_bytes() as int;
    let full = before.full_windows(tokens) as int;
    let w = before.window_bytes() as int;
    vstd::arithmetic::div_mod::lemma_fundamental_div_mod(tokens as int, r);
    assert((j + 1) * r <= tokens) by (nonlinear_arith)
        requires
            j + 1 <= full,
            r > 0,
            tokens == r * full + tokens as int % r,
            tokens as int % r >= 0,
    ;
    assert(j * w == j * r * b && (j + 1) * w == (j + 1) * r * b) by (nonlinear_arith)
        requires
            w == r * b,
    ;
    let key = after.key_windows[n + j];
    let value = after.value_windows[n + j];
    assert(quantized(codec, before.bits, true, k.subrange(j * w, (j + 1) * w), key)) by {
        assert(n + j - n == j);
        assert(n + j - n + 1 == j + 1);
    }
    assert(quantized(codec, before.bits, false, v.subrange(j * w, (j + 1) * w), value)) by {
        assert(n + j - n == j);
        assert(n + j - n + 1 == j + 1);
    }
}

/// What a write leaves beside the windows it packs: every earlier window, the geometry, the width and
/// what was noted are as before; the run holds the tokens that fill no window, fewer than a run has, and
/// at sixteen bits all of them.
pub proof fn lemma_a_write_packs_whole_runs<C: WindowCodec>(
    codec: &C,
    before: QuantView,
    k: Seq<u8>,
    v: Seq<u8>,
    tokens: nat,
    after: QuantView,
)
    requires
        before.wf(),
        k.len() == tokens * before.token_bytes(),
        v.len() == tokens * before.token_bytes(),
        absorbed(codec, before, k, v, tokens, after),
    ensures
        after.kv_heads == before.kv_heads,
        after.head_dim == before.head_dim,
        after.max_seq_len == before.max_seq_len,
        after.residual_size == before.residual_size,
        after.bits == before.bits,
        after.on_device == before.on_device,
        after.awqe == before.awqe,
        after.noted == before.noted,
        after.key_windows.len() >= before.key_windows.len(),
        forall|j: int|
            0 <= j < before.key_windows.len() ==> #[trigger] after.key_windows[j]
                == before.key_windows[j],
        forall|j: int|
            0 <= j < before.value_windows.len() ==> #[trigger] after.value_windows[j]
                == before.value_windows[j],
        (after.key_windows.len() - before.key_windows.len()) * before.residual_size
            + after.res_tokens == tokens,
        before.bits == 16 ==> after.res_tokens == tokens,
        before.bits != 16 ==> after.res_tokens < before.residual_size,
{
    lemma_full_windows(before, tokens);
    let full = before.full_windows(tokens);
    assert(0 * before.residual_size == 0) by (nonlinear_arith);
    let grown = (after.key_windows.len() - before.key_windows.len()) as int;
    assert(grown * before.residual_size == full * before.residual_size) by (nonlinear_arith)
        requires
            grown == full,
    ;
}

/// What is read back: first the windows in order, each as the coder unpacked it, and behind them the run
/// as it is stored; one token's rows after the other's.
pub proof fn lemma_what_is_read_back<C: WindowCodec>(
    codec: &C,
    c: QuantView,
    k: Seq<u8>,
    v: Seq<u8>,
    j: int,
    i: int,
)
    requires
        c.wf(),
        viewed(codec, c, k, v),
    ensures
        k.len() == c.tokens() * c.token_bytes(),
        v.len() == c.tokens() * c.token_bytes(),
        0 <= j < c.key_windows.len() ==> dequantized(
            codec,
            c.bits,
            true,
            c.key_windows[j],
            k.subrange(j * c.window_bytes(), (j + 1) * c.window_bytes()),
        ),
        0 <= j < c.key_windows.len() ==> dequantized(
            codec,
            c.bits,
            false,
            c.value_windows[j],
            v.subrange(j * c.window_bytes(), (j + 1) * c.window_bytes()),
        ),
        0 <= i < c.res_k.len() ==> k[c.q_tokens() * c.token_bytes() + i] == c.res_k[i],
        0 <= i < c.res_v.len() ==> v[c.q_tokens() * c.token_bytes() + i] == c.res_v[i],
{
    let (wk, wv) = choose|wk: Seq<u8>, wv: Seq<u8>|
        {
            &&& #[trigger] unpacked(codec, c.bits, true, c.key_windows, c.window_bytes(), wk)
            &&& #[trigger] unpacked(codec, c.bits, false, c.value_windows, c.window_bytes(), wv)
            &&& k == wk + c.res_k
            &&& v == wv + c.res_v
        };
    let n = c.key_windows.len() as int;
    let r = c.residual_size as int;
    let b = c.token_bytes() as int;
    let w = c.window_bytes() as int;
    let t = c.res_tokens as int;
    assert(n * w == (n * r) * b && (n * r + t) * b == (n * r) * b + t * b) by (nonlinear_arith)
        requires
            w == r * b,
    ;
    if 0 <= j < n {
        assert(0 <= j * w && (j + 1) * w <= n * w && j * w <= (j + 1) * w) by (nonlinear_arith)
            requires
                0 <= j,
                j + 1 <= n,
                0 <= w,
        ;
        assert(k.subrange(j * w, (j + 1) * w) =~= wk.subrange(j * w, (j + 1) * w));
        assert(v.subrange(j * w, (j + 1) * w) =~= wv.subrange(j * w, (j + 1) * w));
        let key = c.key_windows[j];
        let value = c.value_windows[j];
        assert(dequantized(codec, c.bits, true, key, wk.subrange(j * w, (j + 1) * w)));
        assert(dequantized(codec, c.bits, false, value, wv.subrange(j * w, (j + 1) * w)));
    }
}

/// What a change of width leaves: a cache of the new width with the same tokens, geometry and notes,
/// whose run holds, where nothing is packed, what was read back of all of them.
pub proof fn lemma_what_a_change_of_width_leaves<C: WindowCodec>(
    codec: &C,
    before: QuantView,
    target: u8,
    after: QuantView,
)
    requires
        before.wf(),
        spec_supported_bits(target),
        rebitted(codec, before, target, after),
    ensures
        after.bits == target,
        after.tokens() == before.tokens(),
        after.kv_heads == before.kv_heads,
        after.head_dim == before.head_dim,
        after.max_seq_len == before.max_seq_len,
        after.residual_size == before.residual_size,
        after.on_device == before.on_device,
        after.awqe == before.awqe,
        after.noted == before.noted,
        target == 16 ==> after.res_tokens == before.tokens() && viewed(
            codec,
            before,
            after.res_k,
            after.res_v,
        ),
        target != 16 ==> after.res_tokens < before.residual_size,
{
    let (k, v) = choose|k: Seq<u8>, v: Seq<u8>|
        {
            &&& #[trigger] unpacked(
                codec,
                before.bits,
                true,
                before.key_windows,
                before.window_bytes(),
                k,
            )
            &&& #[trigger] unpacked(
                codec,
                before.bits,
                false,
                before.value_windows,
                before.window_bytes(),
                v,
            )
            &&& absorbed(
                codec,
                QuantView { bits: target, ..before.emptied() },
                k + before.res_k,
                v + before.res_v,
                before.tokens(),
                after,
            )
        };
    let start = QuantView { bits: target, ..before.emptied() };
    assert(0 * start.residual_size == 0) by (nonlinear_arith);
    assert(0 * start.token_bytes() == 0) by (nonlinear_arith);
    assert(start.wf());
    assert(viewed(codec, before, k + before.res_k, v + before.res_v));
    lemma_what_is_read_back(codec, before, k + before.res_k, v + before.res_v, 0, 0);
    lemma_absorbed_wf(codec, start, k + before.res_k, v + before.res_v, before.tokens(), after);
    lemma_a_write_packs_whole_runs(
        codec,
        start,
        k + before.res_k,
        v + before.res_v,
        before.tokens(),
        after,
    );
    lemma_recent_rows_are_verbatim(
        codec,
        start,
        k + before.res_k,
        v + before.res_v,
        before.tokens(),
        after,
    );
}

/// When the packed buffers are exposed: on a device, at a width that packs, once there is a token; and
/// what is told of them are the packed tokens, the run's tokens and its bound.
pub proof fn lemma_when_buffers_are_exposed(c: QuantView)
    requires
        c.wf(),
    ensures
        c.raw() is Some <==> c.on_device && c.bits != 16 && c.key_windows.len() * c.residual_size
            + c.res_tokens > 0,
        c.raw() matches Some(raw) ==> {
            &&& raw.q_tokens == c.key_windows.len() * c.residual_size
            &&& raw.res_tokens == c.res_tokens
            &&& raw.res_cap == c.residual_size
            &&& raw.bits == c.bits
        },
        c.spec_layout() == KVLayout::HeadMajor <==> c.on_device && c.bits == 16,
        c.bits == 16 ==> c.res_cap() == c.max_seq_len,
        c.bits != 16 ==> c.res_cap() == c.residual_size,
{
}

/// Forgetting the tokens leaves none of either kind and everything else; scores are noted only where
/// they are to be, in place of those before, and beside everything else.
pub proof fn lemma_forgetting_and_noting(c: QuantView, note: NotedView)
    ensures
        c.emptied().tokens() == 0,
        c.emptied().key_windows.len() == 0,
        c.emptied().value_windows.len() == 0,
        c.emptied().res_k.len() == 0,
        c.emptied().res_v.len() == 0,
        c.emptied().bits == c.bits,
        c.emptied().on_device == c.on_device,
        c.emptied().kv_heads == c.kv_heads,
        c.emptied().head_dim == c.head_dim,
        c.emptied().max_seq_len == c.max_seq_len,
        c.emptied().residual_size == c.residual_size,
        c.emptied().awqe == c.awqe,
        c.emptied().noted == c.noted,
        c.awqe ==> c.noting(note).noted == Some(note),
        !c.awqe ==> c.noting(note) == c,
        c.noting(note).tokens() == c.tokens(),
        c.noting(note).key_windows == c.key_windows,
        c.noting(note).value_windows == c.value_windows,
        c.noting(note).res_k == c.res_k,
        c.noting(note).res_v == c.res_v,
        c.noting(note).bits == c.bits,
        c.noting(note).awqe == c.awqe,
{
    assert(0 * c.residual_size == 0) by (nonlinear_arith);
}

} // verus!
