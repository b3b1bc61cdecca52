//! The standard cache format: one typed (or block-coded) cache per layer, written token by token or
//! in batches, and lent out whole for an eviction.

use crate::append::{cast_tensor, first_token, grown_capacity, lemma_append_in_two, tokens_misfit,
    tokens_recoded};
use crate::codec::{casts_one_way, recoded, spec_typed, typed, RowCodec, RowFormat};
use crate::dtype::{DType, KVLayout};
use crate::kv_cache::{CacheShape, CacheView, KVCache, KvError, Side, Tensor};
use vstd::prelude::*;

verus! {

/// What the backend that runs a step can do.
#[derive(Clone, Copy, Debug, PartialEq, Eq, Structural)]
pub struct BackendCaps {
    pub is_gpu: bool,
    /// A batch of rows can be cast to half precision and scattered in one go.
    pub kv_scatter_batch: bool,
    /// A batch of single-precision rows can be scattered in one go.
    pub kv_scatter_f32_batch: bool,
    /// The two-bit block codec can be decoded on the device.
    pub opaque_q2_dequant: bool,
    /// The device runs without subgroups.
    pub nosub_device: bool,
}

/// How a write reaches the cache.
#[derive(Clone, Copy, Debug, PartialEq, Eq, Structural)]
pub enum WritePath {
    /// Cast and scatter on the device.
    ScatterCast,
    /// Scatter on the device, without a cast.
    Scatter,
    /// Encode with the block codec.
    Encode,
    /// Cast to the stored format, then write.
    Cast,
    /// Write as it is.
    Plain,
}

/// The path of a write: the device's fused paths where the layout and the device allow them, then
/// the block codec, then a cast, which needs a cache with an allocator, then a plain write.
pub open spec fn spec_write_path(shape: CacheShape, caps: BackendCaps, is_decode: bool) -> Result<
    WritePath,
    KvError,
> {
    let device = caps.is_gpu && shape.layout == KVLayout::HeadMajor;
    if device && shape.dtype == DType::F16 && (is_decode || caps.kv_scatter_batch) {
        Ok(WritePath::ScatterCast)
    } else if device && shape.dtype == DType::F32 && caps.kv_scatter_f32_batch {
        Ok(WritePath::Scatter)
    } else if shape.opaque is Some {
        Ok(WritePath::Encode)
    } else if shape.dtype != DType::F32 {
        if shape.dynamic {
            Ok(WritePath::Cast)
        } else {
            Err(KvError::NeedsDynamicCache)
        }
    } else {
        Ok(WritePath::Plain)
    }
}

/// The path of a write.
pub fn write_path(shape: &CacheShape, caps: &BackendCaps, is_decode: bool) -> (r: Result<
    WritePath,
    KvError,
>)
    ensures
        r == spec_write_path(*shape, *caps, is_decode),
{
    let head_major: bool = shape.layout == KVLayout::HeadMajor;
    if is_decode && caps.is_gpu && shape.dtype == DType::F16 && head_major {
        return Ok(WritePath::ScatterCast);
    }
    if is_decode && caps.is_gpu && shape.dtype == DType::F32 && head_major
        && caps.kv_scatter_f32_batch {
        return Ok(WritePath::Scatter);
    }
    if !is_decode && caps.is_gpu && shape.dtype == DType::F16 && head_major
        && caps.kv_scatter_batch {
        return Ok(WritePath::ScatterCast);
    }
    if !is_decode && caps.is_gpu && shape.dtype == DType::F32 && head_major
        && caps.kv_scatter_f32_batch {
        return Ok(WritePath::Scatter);
    }
    if shape.opaque.is_some() {
        return Ok(WritePath::Encode);
    }
    if shape.dtype != DType::F32 {
        if shape.dynamic {
            return Ok(WritePath::Cast);
        }
        return Err(KvError::NeedsDynamicCache);
    }
    Ok(WritePath::Plain)
}

/// The rows of a write are single-precision rows of the cache's heads, as many keys as values.
pub open spec fn write_fits(shape: CacheShape, new_k: Tensor, new_v: Tensor) -> bool {
    &&& new_k.dtype == DType::F32
    &&& new_v.dtype == DType::F32
    &&& new_k.kv_heads == shape.kv_heads
    &&& new_v.kv_heads == shape.kv_heads
    &&& new_k.head_dim == shape.head_dim
    &&& new_v.head_dim == shape.head_dim
    &&& new_k.data.width() == shape.head_dim * 4
    &&& new_v.data.width() == shape.head_dim * 4
    &&& new_k.seq_len == new_v.seq_len
}

/// A decoded token goes to the device in one fused step, which takes a single token.
pub open spec fn single_token(path: WritePath, is_decode: bool) -> bool {
    is_decode && (path == WritePath::ScatterCast || path == WritePath::Scatter)
}

/// The tokens of a tensor that a write stores: all of them, and of a fused single-token step the
/// first.
pub open spec fn stored_tokens(
    shape: CacheShape,
    caps: BackendCaps,
    is_decode: bool,
    t: Tensor,
) -> Seq<Seq<Seq<u8>>> {
    if spec_write_path(shape, caps, is_decode) matches Ok(path) && single_token(path, is_decode) {
        t.tokens().take(1)
    } else {
        t.tokens()
    }
}

/// Why a write is refused, if it is: its path, the shape of its rows, a single-token step without a
/// token, or the room there is.
pub open spec fn write_refusal(
    c: CacheView,
    caps: BackendCaps,
    is_decode: bool,
    new_k: Tensor,
    new_v: Tensor,
) -> Option<KvError> {
    match spec_write_path(c.shape, caps, is_decode) {
        Err(e) => Some(e),
        Ok(path) => {
            let one = single_token(path, is_decode);
            let required = c.current_pos + if one {
                1
            } else {
                new_k.seq_len as int
            };
            if !write_fits(c.shape, new_k, new_v) || (one && new_k.seq_len == 0) {
                Some(KvError::ShapeMismatch)
            } else if required > usize::MAX || !c.shape.can_hold(required) {
                Some(KvError::CapacityExceeded)
            } else {
                None
            }
        },
    }
}

/// Cast to the cache's format, a row of the tokens came back in another width.
pub open spec fn cast_misfits<C: RowCodec>(
    codec: &C,
    shape: CacheShape,
    tokens: Seq<Seq<Seq<u8>>>,
) -> bool {
    tokens_misfit(
        codec,
        tokens,
        spec_typed(DType::F32, shape.head_dim),
        shape.spec_row_format(),
        shape.row_bytes()->0,
    )
}

/// Storing tokens failed: they are cast, and the coder returned a row of theirs in another width.
pub open spec fn store_failed<C: RowCodec>(
    codec: &C,
    shape: CacheShape,
    k: Seq<Seq<Seq<u8>>>,
    v: Seq<Seq<Seq<u8>>>,
    e: KvError,
) -> bool {
    &&& e == KvError::CodecShape
    &&& shape.dtype != DType::F32
    &&& cast_misfits(codec, shape, k) || cast_misfits(codec, shape, v)
}

/// What a write answers: one that is not refused succeeds, unless its rows are cast and the coder
/// returns one of them in another width.
pub open spec fn write_answered<C: RowCodec>(
    codec: &C,
    c: CacheView,
    caps: BackendCaps,
    is_decode: bool,
    new_k: Tensor,
    new_v: Tensor,
    r: Result<(), KvError>,
) -> bool {
    match write_refusal(c, caps, is_decode, new_k, new_v) {
        Some(e) => r == Err::<(), KvError>(e),
        None => r matches Err(e) ==> store_failed(
            codec,
            c.shape,
            stored_tokens(c.shape, caps, is_decode, new_k),
            stored_tokens(c.shape, caps, is_decode, new_v),
            e,
        ),
    }
}

/// Tokens took `before` to `after`: they are at the old cursor, as they came in a single-precision
/// cache and as the coder cast them in any other.
pub open spec fn tokens_stored<C: RowCodec>(
    codec: &C,
    before: CacheView,
    k: Seq<Seq<Seq<u8>>>,
    v: Seq<Seq<Seq<u8>>>,
    after: CacheView,
) -> bool {
    let room = before.holding(before.current_pos + k.len());
    let from = spec_typed(DType::F32, before.shape.head_dim);
    let to = before.shape.spec_row_format();
    if before.shape.dtype == DType::F32 {
        after == room.appended(k, v)
    } else {
        exists|ck: Seq<Seq<Seq<u8>>>, cv: Seq<Seq<Seq<u8>>>|
            {
                &&& #[trigger] tokens_recoded(codec, k, from, to, ck)
                &&& #[trigger] tokens_recoded(codec, v, from, to, cv)
                &&& after == room.appended(ck, cv)
            }
    }
}

/// A write took `before` to `after`.
pub open spec fn write_done<C: RowCodec>(
    codec: &C,
    before: CacheView,
    caps: BackendCaps,
    is_decode: bool,
    new_k: Tensor,
    new_v: Tensor,
    after: CacheView,
) -> bool {
    tokens_stored(
        codec,
        before,
        stored_tokens(before.shape, caps, is_decode, new_k),
        stored_tokens(before.shape, caps, is_decode, new_v),
        after,
    )
}

/// Cursor, capacity and the counts of a quantised part, which this format does not have.
#[derive(Clone, Copy, Debug, PartialEq, Eq, Structural)]
pub struct PlanGeometry {
    pub current_pos: usize,
    pub capacity: usize,
    pub res_pos: usize,
    pub q2_tokens: usize,
}

/// The shape of what stands in for a cache that was taken out: one head of one element, and no
/// positions.
pub open spec fn placeholder_shape() -> CacheShape {
    CacheShape {
        dtype: DType::F32,
        opaque: None,
        layout: KVLayout::SeqMajor,
        kv_heads: 1,
        head_dim: 1,
        capacity: 0,
        max_seq_len: 0,
        dynamic: false,
        on_device: false,
    }
}

/// One layer's cache in the standard format.
pub struct StandardFormat {
    idx: usize,
    cache: KVCache,
}

impl StandardFormat {
    /// The layer's index.
    pub closed spec fn spec_idx(self) -> usize {
        self.idx
    }

    /// The layer's cache.
    pub closed spec fn inner(self) -> KVCache {
        self.cache
    }

    /// Wraps a layer's cache.
    pub fn new(idx: usize, inner: KVCache) -> (r: StandardFormat)
        ensures
            r.spec_idx() == idx,
            r.inner() == inner,
    {
        StandardFormat { idx, cache: inner }
    }

    /// The layer's index.
    pub fn idx(&self) -> (r: usize)
        ensures
            r == self.spec_idx(),
    {
        self.idx
    }

    /// The cache's cursor.
    pub fn current_pos(&self) -> (r: usize)
        ensures
            r == self.inner()@.current_pos,
    {
        self.cache.current_pos()
    }

    /// The cache's capacity.
    pub fn capacity(&self) -> (r: usize)
        ensures
            r == self.inner()@.shape.capacity,
    {
        self.cache.capacity()
    }

    /// The stored format of the layer.
    pub fn kv_dtype(&self) -> (r: DType)
        ensures
            r == self.inner()@.shape.dtype,
    {
        self.cache.kv_dtype()
    }

    /// The cache, unwrapped.
    pub fn into_kv_cache(self) -> (r: KVCache)
        ensures
            r == self.inner(),
    {
        self.cache
    }

    /// The cache, unwrapped.
    pub fn into_inner(self) -> (r: KVCache)
        ensures
            r == self.inner(),
    {
        self.cache
    }

    /// The cache, to read.
    pub fn plan_lock(&self) -> (r: &KVCache)
        ensures
            *r == self.inner(),
    {
        &self.cache
    }

    /// The cache, to change in place.
    pub fn with_cache_mut(&mut self) -> (r: &mut KVCache)
        ensures
            *r == old(self).inner(),
            final(self).inner() == *final(r),
            final(self).spec_idx() == old(self).spec_idx(),
    {
        &mut self.cache
    }

    /// Takes the cache out, leaving one without positions in its place.
    pub fn take_inner(&mut self) -> (r: KVCache)
        ensures
            r == old(self).inner(),
            final(self).inner().wf(),
            final(self).inner()@.shape == placeholder_shape(),
            final(self).inner()@.current_pos == 0,
            final(self).inner()@.high_water_pos == 0,
            final(self).inner()@.starts == seq![0usize],
            final(self).spec_idx() == old(self).spec_idx(),
    {
        let shape = CacheShape {
            dtype: DType::F32,
            opaque: None,
            layout: KVLayout::SeqMajor,
            kv_heads: 1,
            head_dim: 1,
            capacity: 0,
            max_seq_len: 0,
            dynamic: false,
            on_device: false,
        };
        assert(shape.fits());
        let mut placeholder: KVCache = KVCache::new(shape).unwrap();
        std::mem::swap(&mut placeholder, &mut self.cache);
        assert(self.inner()@.starts =~= seq![0usize]);
        placeholder
    }

    /// Puts a cache back in.
    pub fn put_inner(&mut self, cache: KVCache)
        ensures
            final(self).inner() == cache,
            final(self).spec_idx() == old(self).spec_idx(),
    {
        self.cache = cache;
    }

    /// Cursor and capacity in one read; nothing is residual or quantised here.
    pub fn plan_geometry(&self) -> (r: PlanGeometry)
        ensures
            r.current_pos == self.inner()@.current_pos,
            r.capacity == self.inner()@.shape.capacity,
            r.res_pos == 0,
            r.q2_tokens == 0,
    {
        PlanGeometry {
            current_pos: self.cache.current_pos(),
            capacity: self.cache.capacity(),
            res_pos: 0,
            q2_tokens: 0,
        }
    }

    /// Tokens per head: the mean over the heads, rounded up.
    pub fn resident_tokens(&self) -> (n: usize)
        requires
            self.inner().wf(),
        ensures
            n == self.inner()@.spec_resident_tokens(),
    {
        self.cache.resident_tokens()
    }

    /// Moves the cursor on by `n` tokens that were written elsewhere.
    pub fn plan_advance(&mut self, n: usize)
        requires
            old(self).inner().wf(),
            old(self).inner()@.current_pos + n <= old(self).inner()@.shape.capacity,
        ensures
            final(self).inner().wf(),
            final(self).inner()@.current_pos == old(self).inner()@.current_pos + n,
            final(self).inner()@ == (CacheView {
                current_pos: final(self).inner()@.current_pos,
                high_water_pos: if final(self).inner()@.current_pos
                    > old(self).inner()@.high_water_pos {
                    final(self).inner()@.current_pos
                } else {
                    old(self).inner()@.high_water_pos
                },
                ..old(self).inner()@
            }),
            final(self).spec_idx() == old(self).spec_idx(),
    {
        self.cache.advance_pos(n);
    }

    /// Stores the tokens of a write at the cursor.
    fn store_tokens<C: RowCodec>(&mut self, new_k: &Tensor, new_v: &Tensor, codec: &C) -> (r: Result<
        (),
        KvError,
    >)
        requires
            old(self).inner().wf(),
            new_k.wf(),
            new_v.wf(),
            write_fits(old(self).inner()@.shape, *new_k, *new_v),
        ensures
            final(self).inner().wf(),
            final(self).spec_idx() == old(self).spec_idx(),
            ({
                let c = old(self).inner()@;
                let required = c.current_pos + new_k.seq_len;
                if required > usize::MAX || !c.shape.can_hold(required) {
                    r == Err::<(), KvError>(KvError::CapacityExceeded)
                } else {
                    r matches Err(e) ==> store_failed(
                        codec,
                        c.shape,
                        new_k.tokens(),
                        new_v.tokens(),
                        e,
                    )
                }
            }),
            r is Ok ==> tokens_stored(
                codec,
                old(self).inner()@,
                new_k.tokens(),
                new_v.tokens(),
                final(self).inner()@,
            ),
            r is Err ==> final(self).inner()@ == old(self).inner()@,
    {
        let ghost before = self.cache@;
        proof {
            self.cache.lemma_wf();
        }
        let shape = self.cache.shape();
        let required: usize = match self.cache.current_pos().checked_add(new_k.seq_len) {
            Some(x) => x,
            None => {
                return Err(KvError::CapacityExceeded);
            },
        };
        if !self.cache.can_hold(required) {
            return Err(KvError::CapacityExceeded);
        }
        if shape.dtype == DType::F32 {
            proof {
                assert(shape.opaque is None);
                assert(new_k.fits(before.shape));
                assert(new_v.fits(before.shape));
            }
            return self.cache.update(new_k, new_v);
        }
        let from: RowFormat = typed(DType::F32, shape.head_dim);
        let to: RowFormat = shape.row_format();
        let width: usize = self.cache.row_width();
        proof {
            lemma_rows_have_room(self.cache, new_k.seq_len as int);
        }
        let k: Tensor = match cast_tensor(codec, new_k, from, to, width) {
            Some(t) => t,
            None => {
                return Err(KvError::CodecShape);
            },
        };
        let v: Tensor = match cast_tensor(codec, new_v, from, to, width) {
            Some(t) => t,
            None => {
                return Err(KvError::CodecShape);
            },
        };
        proof {
            assert(k.fits(before.shape));
            assert(v.fits(before.shape));
            assert(tokens_recoded(codec, new_k.tokens(), from, to, k.tokens()));
            assert(tokens_recoded(codec, new_v.tokens(), from, to, v.tokens()));
        }
        self.cache.update(&k, &v)
    }

    /// Writes single-precision tokens at the cursor; a fused single-token step takes the first.
    /// Fails, with nothing written, when the path is refused, when the rows have another shape or a
    /// single-token step gets no token, when there is no room, or when the coder returns a row in
    /// another width.
    pub fn write_inner<C: RowCodec>(
        &mut self,
        new_k: &Tensor,
        new_v: &Tensor,
        codec: &C,
        caps: &BackendCaps,
        is_decode: bool,
    ) -> (r: Result<(), KvError>)
        requires
            old(self).inner().wf(),
            new_k.wf(),
            new_v.wf(),
        ensures
            final(self).inner().wf(),
            final(self).spec_idx() == old(self).spec_idx(),
            write_answered(codec, old(self).inner()@, *caps, is_decode, *new_k, *new_v, r),
            r is Ok ==> write_done(
                codec,
                old(self).inner()@,
                *caps,
                is_decode,
                *new_k,
                *new_v,
                final(self).inner()@,
            ),
            r is Err ==> final(self).inner()@ == old(self).inner()@,
    {
        let shape = self.cache.shape();
        let path = write_path(&shape, caps, is_decode)?;
        if !rows_fit(&shape, new_k, new_v) {
            return Err(KvError::ShapeMismatch);
        }
        if is_decode && (path == WritePath::ScatterCast || path == WritePath::Scatter) {
            if new_k.seq_len == 0 {
                return Err(KvError::ShapeMismatch);
            }
            let k = first_token(new_k);
            let v = first_token(new_v);
            return self.store_tokens(&k, &v, codec);
        }
        self.store_tokens(new_k, new_v, codec)
    }

    /// Writes one decoded token.
    pub fn write_kv<C: RowCodec>(
        &mut self,
        new_k: &Tensor,
        new_v: &Tensor,
        codec: &C,
        caps: &BackendCaps,
    ) -> (r: Result<(), KvError>)
        requires
            old(self).inner().wf(),
            new_k.wf(),
            new_v.wf(),
        ensures
            final(self).inner().wf(),
            final(self).spec_idx() == old(self).spec_idx(),
            r is Ok ==> write_done(
                codec,
                old(self).inner()@,
                *caps,
                true,
                *new_k,
                *new_v,
                final(self).inner()@,
            ),
            r is Err ==> final(self).inner()@ == old(self).inner()@,
            write_answered(codec, old(self).inner()@, *caps, true, *new_k, *new_v, r),
    {
        self.write_inner(new_k, new_v, codec, caps, true)
    }

    /// Writes a batch of prefilled tokens.
    pub fn write_kv_batch<C: RowCodec>(
        &mut self,
        new_k: &Tensor,
        new_v: &Tensor,
        codec: &C,
        caps: &BackendCaps,
    ) -> (r: Result<(), KvError>)
        requires
            old(self).inner().wf(),
            new_k.wf(),
            new_v.wf(),
        ensures
            final(self).inner().wf(),
            final(self).spec_idx() == old(self).spec_idx(),
            r is Ok ==> write_done(
                codec,
                old(self).inner()@,
                *caps,
                false,
                *new_k,
                *new_v,
                final(self).inner()@,
            ),
            r is Err ==> final(self).inner()@ == old(self).inner()@,
            write_answered(codec, old(self).inner()@, *caps, false, *new_k, *new_v, r),
    {
        self.write_inner(new_k, new_v, codec, caps, false)
    }
}

/// Whether the rows of a write are single-precision rows of the cache's heads.
fn rows_fit(shape: &CacheShape, new_k: &Tensor, new_v: &Tensor) -> (r: bool)
    ensures
        r == write_fits(*shape, *new_k, *new_v),
{
    let k_width: usize = new_k.data.row_bytes();
    let v_width: usize = new_v.data.row_bytes();
    let width: usize = match shape.head_dim.checked_mul(4) {
        Some(w) => w,
        None => {
            return false;
        },
    };
    new_k.dtype == DType::F32 && new_v.dtype == DType::F32 && new_k.kv_heads == shape.kv_heads
        && new_v.kv_heads == shape.kv_heads && new_k.head_dim == shape.head_dim && new_v.head_dim
        == shape.head_dim && k_width == width && v_width == width && new_k.seq_len == new_v.seq_len
}

/// Rows that a cache can hold take no more bytes than its buffers.
proof fn lemma_rows_have_room(cache: KVCache, n: int)
    requires
        cache.wf(),
        0 <= n,
        cache@.shape.can_hold(cache@.current_pos + n),
    ensures
        (n * cache@.shape.kv_heads) * cache@.shape.row_bytes()->0 <= usize::MAX,
{
    cache.lemma_wf();
    cache.lemma_flat();
    let c = cache@;
    let required = c.current_pos + n;
    let room = if required <= c.shape.capacity {
        c.shape.capacity as int
    } else {
        grown_capacity(c.shape, required)
    };
    let h = c.shape.kv_heads as int;
    let w = c.shape.row_bytes()->0 as int;
    assert(c.shape.with_capacity(room as usize).row_bytes() == c.shape.row_bytes());
    assert(n <= room);
    assert((room * h) * w <= usize::MAX);
    assert(n * h <= room * h && (n * h) * w <= (room * h) * w) by (nonlinear_arith)
        requires
            0 <= n <= room,
            0 <= h,
            0 <= w,
    ;
}

/// The tokens took `before` to `after` one decoded token at a time.
pub open spec fn written_singly<C: RowCodec>(
    codec: &C,
    before: CacheView,
    caps: BackendCaps,
    ks: Seq<Tensor>,
    vs: Seq<Tensor>,
    after: CacheView,
) -> bool
    decreases ks.len(),
{
    if ks.len() == 0 {
        after == before
    } else {
        exists|mid: CacheView|
            written_singly(codec, before, caps, ks.drop_last(), vs.drop_last(), mid)
                && #[trigger] write_done(codec, mid, caps, true, ks.last(), vs.last(), after)
    }
}

/// `ts` are the single tokens of `tokens`.
pub open spec fn singles(ts: Seq<Tensor>, tokens: Seq<Seq<Seq<u8>>>) -> bool {
    &&& ts.len() == tokens.len()
    &&& forall|i: int| 0 <= i < ts.len() ==> (#[trigger] ts[i]).tokens() == seq![tokens[i]]
}

/// What a batch write of at least one token may leave is what writes of its single tokens may leave.
/// Of any batch the cursor moves behind the tokens.
pub proof fn lemma_batch_is_single_writes<C: RowCodec>(
    codec: &C,
    before: CacheView,
    caps: BackendCaps,
    k: Tensor,
    v: Tensor,
    ks: Seq<Tensor>,
    vs: Seq<Tensor>,
    after: CacheView,
)
    requires
        before.wf(),
        k.seq_len == v.seq_len,
        before.current_pos + k.seq_len <= before.shape.capacity,
        singles(ks, k.tokens()),
        singles(vs, v.tokens()),
    ensures
        k.seq_len > 0 ==> write_done(codec, before, caps, false, k, v, after) == written_singly(
            codec,
            before,
            caps,
            ks,
            vs,
            after,
        ),
        write_done(codec, before, caps, false, k, v, after) ==> after.current_pos
            == before.current_pos + k.seq_len,
{
    if k.seq_len > 0 {
        lemma_tokens_are_single_writes(codec, before, caps, k.tokens(), v.tokens(), ks, vs, after);
    }
}

/// A batch write and writes of its single tokens leave the same rows and the same cursor, in a
/// single-precision cache and in any other whose coder has one answer for a row. With at least one
/// token they leave the same cache; a batch of none may raise the high-water mark to the cursor.
pub proof fn lemma_batch_and_single_writes_agree<C: RowCodec>(
    codec: &C,
    before: CacheView,
    caps: BackendCaps,
    k: Tensor,
    v: Tensor,
    ks: Seq<Tensor>,
    vs: Seq<Tensor>,
    batch: CacheView,
    singly: CacheView,
)
    requires
        before.wf(),
        k.seq_len == v.seq_len,
        before.current_pos + k.seq_len <= before.shape.capacity,
        singles(ks, k.tokens()),
        singles(vs, v.tokens()),
        before.shape.dtype == DType::F32 || casts_one_way(
            codec,
            spec_typed(DType::F32, before.shape.head_dim),
            before.shape.spec_row_format(),
        ),
        write_done(codec, before, caps, false, k, v, batch),
        written_singly(codec, before, caps, ks, vs, singly),
    ensures
        batch.keys == singly.keys,
        batch.values == singly.values,
        batch.starts == singly.starts,
        batch.shape == singly.shape,
        batch.current_pos == singly.current_pos == before.current_pos + k.seq_len,
        k.seq_len > 0 ==> batch == singly,
{
    let from = spec_typed(DType::F32, before.shape.head_dim);
    let to = before.shape.spec_row_format();
    let room = before.holding(before.current_pos + k.seq_len);
    let kt = k.tokens();
    let vt = v.tokens();
    if k.seq_len > 0 {
        lemma_batch_is_single_writes(codec, before, caps, k, v, ks, vs, singly);
        if before.shape.dtype != DType::F32 {
            let (ak, av) = choose|ck: Seq<Seq<Seq<u8>>>, cv: Seq<Seq<Seq<u8>>>|
                {
                    &&& #[trigger] tokens_recoded(codec, kt, from, to, ck)
                    &&& #[trigger] tokens_recoded(codec, vt, from, to, cv)
                    &&& batch == room.appended(ck, cv)
                };
            let (bk, bv) = choose|ck: Seq<Seq<Seq<u8>>>, cv: Seq<Seq<Seq<u8>>>|
                {
                    &&& #[trigger] tokens_recoded(codec, kt, from, to, ck)
                    &&& #[trigger] tokens_recoded(codec, vt, from, to, cv)
                    &&& singly == room.appended(ck, cv)
                };
            lemma_recoded_one_way(codec, kt, from, to, ak, bk);
            lemma_recoded_one_way(codec, vt, from, to, av, bv);
        }
    } else {
        assert(singly == before);
        assert forall|h: int|
        #![trigger batch.keys[h]]
        #![trigger batch.values[h]]
        0 <= h < before.shape.kv_heads implies batch.keys[h] == before.keys[h] && batch.values[h]
            == before.values[h] by {
            assert(batch.keys[h] =~= before.keys[h]);
            assert(batch.values[h] =~= before.values[h]);
        }
        assert(before.plane(Side::Key).len() == before.shape.kv_heads);
        assert(before.plane(Side::Value).len() == before.shape.kv_heads);
        assert(batch.keys =~= before.keys);
        assert(batch.values =~= before.values);
    }
}

/// A coder that has one answer for a row casts tokens in one way.
proof fn lemma_recoded_one_way<C: RowCodec>(
    codec: &C,
    tokens: Seq<Seq<Seq<u8>>>,
    from: RowFormat,
    to: RowFormat,
    x: Seq<Seq<Seq<u8>>>,
    y: Seq<Seq<Seq<u8>>>,
)
    requires
        casts_one_way(codec, from, to),
        tokens_recoded(codec, tokens, from, to, x),
        tokens_recoded(codec, tokens, from, to, y),
    ensures
        x == y,
{
    assert forall|s: int| 0 <= s < tokens.len() implies x[s] == y[s] by {
        assert(x[s].len() == tokens[s].len() && y[s].len() == tokens[s].len());
        assert forall|h: int| 0 <= h < tokens[s].len() implies x[s][h] == y[s][h] by {
            assert(recoded(codec, tokens[s][h], from, to, x[s][h]));
            assert(recoded(codec, tokens[s][h], from, to, y[s][h]));
        }
        assert(x[s] =~= y[s]);
    }
    assert(x =~= y);
}

/// Storing tokens at once is storing them one by one.
proof fn lemma_tokens_are_single_writes<C: RowCodec>(
    codec: &C,
    before: CacheView,
    caps: BackendCaps,
    k: Seq<Seq<Seq<u8>>>,
    v: Seq<Seq<Seq<u8>>>,
    ks: Seq<Tensor>,
    vs: Seq<Tensor>,
    after: CacheView,
)
    requires
        before.wf(),
        k.len() == v.len(),
        k.len() > 0,
        before.current_pos + k.len() <= before.shape.capacity,
        singles(ks, k),
        singles(vs, v),
    ensures
        tokens_stored(codec, before, k, v, after) == written_singly(
            codec,
            before,
            caps,
            ks,
            vs,
            after,
        ),
        tokens_stored(codec, before, k, v, after) ==> after.current_pos == before.current_pos
            + k.len() && after.shape == before.shape,
    decreases k.len(),
{
    let from = spec_typed(DType::F32, before.shape.head_dim);
    let to = before.shape.spec_row_format();
    let plain = before.shape.dtype == DType::F32;
    if k.len() == 1 {
        reveal_with_fuel(written_singly, 2);
        assert(ks.last() == ks[0] && vs.last() == vs[0]);
        assert(seq![k[0]] =~= k && seq![v[0]] =~= v);
        assert(k.take(1) =~= k && v.take(1) =~= v);
        assert(ks.drop_last().len() == 0);
        assert(written_singly(codec, before, caps, ks.drop_last(), vs.drop_last(), before));
        assert(write_done(codec, before, caps, true, ks.last(), vs.last(), after) == tokens_stored(
            codec,
            before,
            k,
            v,
            after,
        ));
    } else {
        let n = k.len() - 1;
        let k0 = k.drop_last();
        let v0 = v.drop_last();
        let k1 = seq![k.last()];
        let v1 = seq![v.last()];
        assert(k0 + k1 =~= k && v0 + v1 =~= v);
        let ks0 = ks.drop_last();
        let vs0 = vs.drop_last();
        assert forall|i: int| 0 <= i < ks0.len() implies (#[trigger] ks0[i]).tokens()
            == seq![k0[i]] by {
            assert(ks0[i] == ks[i]);
        }
        assert forall|i: int| 0 <= i < vs0.len() implies (#[trigger] vs0[i]).tokens()
            == seq![v0[i]] by {
            assert(vs0[i] == vs[i]);
        }
        assert(ks.last() == ks[n] && vs.last() == vs[n]);
        assert(ks[n].tokens() == k1 && vs[n].tokens() == v1);
        assert(k1.take(1) =~= k1 && v1.take(1) =~= v1);
        if tokens_stored(codec, before, k, v, after) {
            let mid;
            if plain {
                mid = before.appended(k0, v0);
                lemma_append_in_two(before, k0, v0, k1, v1);
            } else {
                let (ck, cv) = choose|ck: Seq<Seq<Seq<u8>>>, cv: Seq<Seq<Seq<u8>>>|
                    {
                        &&& #[trigger] tokens_recoded(codec, k, from, to, ck)
                        &&& #[trigger] tokens_recoded(codec, v, from, to, cv)
                        &&& after == before.holding(before.current_pos + k.len()).appended(ck, cv)
                    };
                let ck0 = ck.drop_last();
                let cv0 = cv.drop_last();
                let ck1 = seq![ck.last()];
                let cv1 = seq![cv.last()];
                mid = before.appended(ck0, cv0);
                assert(ck0 + ck1 =~= ck && cv0 + cv1 =~= cv);
                lemma_append_in_two(before, ck0, cv0, ck1, cv1);
                lemma_recoded_parts(codec, k, from, to, ck);
                lemma_recoded_parts(codec, v, from, to, cv);
                assert(tokens_recoded(codec, k0, from, to, ck0));
                assert(tokens_recoded(codec, v0, from, to, cv0));
                assert(tokens_recoded(codec, k1, from, to, ck1));
                assert(tokens_recoded(codec, v1, from, to, cv1));
            }
            assert(tokens_stored(codec, before, k0, v0, mid));
            lemma_tokens_are_single_writes(codec, before, caps, k0, v0, ks0, vs0, mid);
            assert(tokens_stored(codec, mid, k1, v1, after));
            assert(write_done(codec, mid, caps, true, ks.last(), vs.last(), after));
            assert(written_singly(codec, before, caps, ks, vs, after));
        }
        if written_singly(codec, before, caps, ks, vs, after) {
            let mid = choose|mid: CacheView|
                written_singly(codec, before, caps, ks0, vs0, mid) && #[trigger] write_done(
                    codec,
                    mid,
                    caps,
                    true,
                    ks.last(),
                    vs.last(),
                    after,
                );
            lemma_tokens_are_single_writes(codec, before, caps, k0, v0, ks0, vs0, mid);
            assert(tokens_stored(codec, mid, k1, v1, after));
            if plain {
                lemma_append_in_two(before, k0, v0, k1, v1);
            } else {
                let (ck0, cv0) = choose|ck: Seq<Seq<Seq<u8>>>, cv: Seq<Seq<Seq<u8>>>|
                    {
                        &&& #[trigger] tokens_recoded(codec, k0, from, to, ck)
                        &&& #[trigger] tokens_recoded(codec, v0, from, to, cv)
                        &&& mid == before.holding(before.current_pos + k0.len()).appended(ck, cv)
                    };
                let (ck1, cv1) = choose|ck: Seq<Seq<Seq<u8>>>, cv: Seq<Seq<Seq<u8>>>|
                    {
                        &&& #[trigger] tokens_recoded(codec, k1, from, to, ck)
                        &&& #[trigger] tokens_recoded(codec, v1, from, to, cv)
                        &&& after == mid.holding(mid.current_pos + k1.len()).appended(ck, cv)
                    };
                lemma_append_in_two(before, ck0, cv0, ck1, cv1);
                lemma_recoded_joined(codec, k0, k1, from, to, ck0, ck1);
                lemma_recoded_joined(codec, v0, v1, from, to, cv0, cv1);
                assert(tokens_recoded(codec, k, from, to, ck0 + ck1));
                assert(tokens_recoded(codec, v, from, to, cv0 + cv1));
            }
        }
    }
}

/// Tokens that were cast are the first of them cast, and the last of them.
proof fn lemma_recoded_parts<C: RowCodec>(
    codec: &C,
    tokens: Seq<Seq<Seq<u8>>>,
    from: RowFormat,
    to: RowFormat,
    out: Seq<Seq<Seq<u8>>>,
)
    requires
        tokens.len() > 0,
        tokens_recoded(codec, tokens, from, to, out),
    ensures
        tokens_recoded(codec, tokens.drop_last(), from, to, out.drop_last()),
        tokens_recoded(codec, seq![tokens.last()], from, to, seq![out.last()]),
{
    let n = tokens.len() - 1;
    assert forall|s: int, h: int|
        0 <= s < n && 0 <= h < tokens.drop_last()[s].len() implies recoded(
        codec,
        #[trigger] tokens.drop_last()[s][h],
        from,
        to,
        out.drop_last()[s][h],
    ) by {
        assert(recoded(codec, tokens[s][h], from, to, out[s][h]));
    }
    assert forall|s: int, h: int|
        0 <= s < 1 && 0 <= h < seq![tokens.last()][s].len() implies recoded(
        codec,
        #[trigger] seq![tokens.last()][s][h],
        from,
        to,
        seq![out.last()][s][h],
    ) by {
        assert(recoded(codec, tokens[n][h], from, to, out[n][h]));
    }
    assert(out[n].len() == tokens[n].len());
}

/// Tokens cast in two goes are cast.
proof fn lemma_recoded_joined<C: RowCodec>(
    codec: &C,
    a: Seq<Seq<Seq<u8>>>,
    b: Seq<Seq<Seq<u8>>>,
    from: RowFormat,
    to: RowFormat,
    out_a: Seq<Seq<Seq<u8>>>,
    out_b: Seq<Seq<Seq<u8>>>,
)
    requires
        tokens_recoded(codec, a, from, to, out_a),
        tokens_recoded(codec, b, from, to, out_b),
    ensures
        tokens_recoded(codec, a + b, from, to, out_a + out_b),
{
    assert forall|s: int, h: int|
        0 <= s < (a + b).len() && 0 <= h < (a + b)[s].len() implies recoded(
        codec,
        #[trigger] (a + b)[s][h],
        from,
        to,
        (out_a + out_b)[s][h],
    ) by {
        if s < a.len() {
            assert(recoded(codec, a[s][h], from, to, out_a[s][h]));
        } else {
            assert(recoded(codec, b[s - a.len()][h], from, to, out_b[s - a.len()][h]));
        }
    }
    assert forall|s: int| 0 <= s < (a + b).len() implies (#[trigger] (out_a + out_b)[s]).len() == (a
        + b)[s].len() by {
        if s < a.len() {
            assert(out_a[s].len() == a[s].len());
        } else {
            assert(out_b[s - a.len()].len() == b[s - a.len()].len());
        }
    }
}

/// Taking the cache out of a format and putting it back leaves the format as it was.
pub proof fn lemma_take_put_round_trip(
    before: StandardFormat,
    taken: KVCache,
    after: StandardFormat,
)
    requires
        taken == before.inner(),
        after.inner() == taken,
        after.spec_idx() == before.spec_idx(),
    ensures
        after == before,
{
}

/// The single-precision row of token `s`, head `h`, as a cache stores it: as it is, or as the coder
/// cast it to the cache's format.
pub open spec fn stored_as<C: RowCodec>(
    codec: &C,
    shape: CacheShape,
    row: Seq<u8>,
    out: Seq<u8>,
) -> bool {
    &&& shape.dtype == DType::F32 ==> out == row
    &&& shape.dtype != DType::F32 ==> recoded(
        codec,
        row,
        (RowFormat { dtype: DType::F32, opaque: None, head_dim: shape.head_dim }),
        (RowFormat { dtype: shape.dtype, opaque: shape.opaque, head_dim: shape.head_dim }),
        out,
    )
}

/// What a write leaves. The tokens are behind those there were, in order, each head's row in its head,
/// keys with keys and values with values; the cursor is behind them; everything before them stays. A
/// decoded token that a device takes in one step counts as one, whatever the tensor holds.
pub proof fn lemma_a_write_stores_its_tokens<C: RowCodec>(
    codec: &C,
    before: CacheView,
    caps: BackendCaps,
    is_decode: bool,
    k: Tensor,
    v: Tensor,
    after: CacheView,
    h: int,
    p: int,
)
    requires
        before.wf(),
        k.wf(),
        v.wf(),
        k.seq_len == v.seq_len,
        k.kv_heads == before.shape.kv_heads,
        v.kv_heads == before.shape.kv_heads,
        write_refusal(before, caps, is_decode, k, v) is None,
        write_done(codec, before, caps, is_decode, k, v, after),
        0 <= h < before.shape.kv_heads,
        0 <= p,
    ensures
        ({
            let fused = is_decode && caps.is_gpu && before.shape.layout == KVLayout::HeadMajor && (
            before.shape.dtype == DType::F16 || (before.shape.dtype == DType::F32
                && caps.kv_scatter_f32_batch));
            let n = if fused {
                1int
            } else {
                k.seq_len as int
            };
            &&& after.current_pos == before.current_pos + n
            &&& after.high_water_pos >= before.high_water_pos && after.high_water_pos
                >= after.current_pos
            &&& after.starts == before.starts
            &&& after.shape == (CacheShape { capacity: after.shape.capacity, ..before.shape })
            &&& before.current_pos + n <= before.shape.capacity ==> after.shape == before.shape
            &&& p < before.current_pos ==> after.keys[h][p] == before.keys[h][p]
                && after.values[h][p] == before.values[h][p]
            &&& p < n ==> stored_as(
                codec,
                before.shape,
                k.data@[p * k.kv_heads + h],
                after.keys[h][before.current_pos + p],
            ) && stored_as(
                codec,
                before.shape,
                v.data@[p * k.kv_heads + h],
                after.values[h][before.current_pos + p],
            )
        }),
{
    let kt = stored_tokens(before.shape, caps, is_decode, k);
    let vt = stored_tokens(before.shape, caps, is_decode, v);
    let from = spec_typed(DType::F32, before.shape.head_dim);
    let to = before.shape.spec_row_format();
    let room = before.holding(before.current_pos + kt.len());
    assert(before.plane(Side::Key)[h].len() == before.shape.capacity);
    assert(before.plane(Side::Value)[h].len() == before.shape.capacity);
    assert(kt.len() == vt.len());
    assert(room.shape.capacity >= before.current_pos + kt.len());
    assert(room.keys[h].len() == room.shape.capacity && room.values[h].len()
        == room.shape.capacity);
    if p < kt.len() {
        assert(kt[p][h] == k.data@[p * k.kv_heads + h]);
        assert(vt[p][h] == v.data@[p * k.kv_heads + h]);
        assert(kt[p].len() == k.kv_heads && vt[p].len() == v.kv_heads);
    }
    if before.shape.dtype != DType::F32 {
        let (ck, cv) = choose|ck: Seq<Seq<Seq<u8>>>, cv: Seq<Seq<Seq<u8>>>|
            {
                &&& #[trigger] tokens_recoded(codec, kt, from, to, ck)
                &&& #[trigger] tokens_recoded(codec, vt, from, to, cv)
                &&& after == room.appended(ck, cv)
            };
        if p < kt.len() {
            assert(recoded(codec, kt[p][h], from, to, ck[p][h]));
            assert(recoded(codec, vt[p][h], from, to, cv[p][h]));
        }
    }
}

/// When a write succeeds: single-precision rows of the cache's heads, as many keys as values, always
/// fit a single-precision cache that has the room. Of a cache in another format without an allocator, a
/// write is refused unless a device takes it in one step or the store is a block codec's.
pub proof fn lemma_when_a_write_succeeds<C: RowCodec>(
    codec: &C,
    c: CacheView,
    caps: BackendCaps,
    is_decode: bool,
    k: Tensor,
    v: Tensor,
    r: Result<(), KvError>,
)
    requires
        c.wf(),
        write_answered(codec, c, caps, is_decode, k, v, r),
        k.dtype == DType::F32 && v.dtype == DType::F32,
        k.kv_heads == c.shape.kv_heads && v.kv_heads == c.shape.kv_heads,
        k.head_dim == c.shape.head_dim && v.head_dim == c.shape.head_dim,
        k.data.width() == c.shape.head_dim * 4 && v.data.width() == c.shape.head_dim * 4,
        k.seq_len == v.seq_len,
        k.seq_len > 0,
        c.current_pos + k.seq_len <= c.shape.capacity,
    ensures
        c.shape.dtype == DType::F32 && c.shape.opaque is None ==> r is Ok,
        c.shape.dtype != DType::F32 && c.shape.opaque is None && !c.shape.dynamic && !(caps.is_gpu
            && c.shape.layout == KVLayout::HeadMajor && c.shape.dtype == DType::F16) ==> r == Err::<
            (),
            KvError,
        >(KvError::NeedsDynamicCache),
        c.shape.dynamic && r is Err ==> r == Err::<(), KvError>(KvError::CodecShape),
{
}

} // verus!
