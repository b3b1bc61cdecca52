//! Saving a prefix of a layer as packed bytes, and restoring it.
//!
//! A head-major buffer has room for `capacity` tokens per head; a snapshot holds only the tokens
//! there are. The packed form is the keys of every head followed by the values of every head, so it
//! restores into a cache of another capacity.

use crate::dtype::{DType, KVLayout};
use crate::kv_cache::{planes_of, CacheView, KVCache, KvError, Side};
use crate::offload::append_bytes;
use crate::rows::{lemma_row_in_bounds, lemma_rows_disjoint, rows_of};
use crate::standard_format::StandardFormat;
use vstd::prelude::*;

verus! {

/// Bytes per token and head in a snapshot; `None` for a format that has none.
pub open spec fn packed_row_bytes(dtype: DType, head_dim: nat) -> Option<nat> {
    match dtype {
        DType::F32 => Some(head_dim * 4),
        DType::F16 => Some(head_dim * 2),
        DType::Q4_0 => Some((head_dim / 32) * 18),
        DType::U8 => None,
    }
}

/// The first `run` bytes of each of `heads` stretches of `stride` bytes, one after the other.
pub open spec fn packed(raw: Seq<u8>, heads: nat, stride: nat, run: nat) -> Seq<u8>
    decreases heads,
{
    if heads == 0 {
        Seq::empty()
    } else {
        let h = (heads - 1) as nat;
        packed(raw, h, stride, run) + raw.subrange((h * stride) as int, (h * stride + run) as int)
    }
}

/// `base` with `bytes` written over it from `at` on.
pub open spec fn overlaid(base: Seq<u8>, at: int, bytes: Seq<u8>) -> Seq<u8> {
    Seq::new(
        base.len(),
        |i: int|
            if at <= i < at + bytes.len() {
                bytes[i - at]
            } else {
                base[i]
            },
    )
}

/// `total` zero bytes with `heads` runs of `src` written at the start of each stretch of `stride`.
pub open spec fn scattered(src: Seq<u8>, total: nat, heads: nat, stride: nat, run: nat) -> Seq<u8>
    decreases heads,
{
    if heads == 0 {
        Seq::new(total, |i: int| 0u8)
    } else {
        let h = (heads - 1) as nat;
        overlaid(
            scattered(src, total, h, stride, run),
            (h * stride) as int,
            src.subrange((h * run) as int, (h * run + run) as int),
        )
    }
}

proof fn lemma_packed_len(raw: Seq<u8>, heads: nat, stride: nat, run: nat)
    requires
        run <= stride,
        heads * stride <= raw.len(),
    ensures
        packed(raw, heads, stride, run).len() == heads * run,
    decreases heads,
{
    if heads > 0 {
        let h = (heads - 1) as nat;
        lemma_row_in_bounds(h as int, heads as int, stride as int);
        lemma_row_in_bounds(h as int, heads as int, run as int);
        lemma_packed_len(raw, h, stride, run);
        assert(h * stride + run <= raw.len());
        assert(raw.subrange((h * stride) as int, (h * stride + run) as int).len() == run);
        assert(h * run + run == heads * run);
    } else {
        assert(heads * run == 0) by (nonlinear_arith)
            requires
                heads == 0,
        ;
    }
}

/// The run of a head in the packed form is the start of the head's stretch.
proof fn lemma_packed_run(raw: Seq<u8>, heads: nat, stride: nat, run: nat, h: nat)
    requires
        run <= stride,
        heads * stride <= raw.len(),
        h < heads,
    ensures
        h * run + run <= packed(raw, heads, stride, run).len(),
        packed(raw, heads, stride, run).subrange((h * run) as int, (h * run + run) as int)
            == raw.subrange((h * stride) as int, (h * stride + run) as int),
    decreases heads,
{
    let last = (heads - 1) as nat;
    lemma_row_in_bounds(last as int, heads as int, stride as int);
    lemma_row_in_bounds(last as int, heads as int, run as int);
    lemma_row_in_bounds(h as int, heads as int, stride as int);
    lemma_row_in_bounds(h as int, heads as int, run as int);
    lemma_packed_len(raw, heads, stride, run);
    lemma_packed_len(raw, last, stride, run);
    let all = packed(raw, heads, stride, run);
    let init = packed(raw, last, stride, run);
    if h == last {
        assert(all.subrange((h * run) as int, (h * run + run) as int) =~= raw.subrange(
            (h * stride) as int,
            (h * stride + run) as int,
        ));
    } else {
        lemma_packed_run(raw, last, stride, run, h);
        lemma_row_in_bounds(h as int, last as int, run as int);
        assert(all.subrange((h * run) as int, (h * run + run) as int) =~= init.subrange(
            (h * run) as int,
            (h * run + run) as int,
        ));
    }
}

proof fn lemma_scattered_len(src: Seq<u8>, total: nat, heads: nat, stride: nat, run: nat)
    ensures
        scattered(src, total, heads, stride, run).len() == total,
    decreases heads,
{
    if heads > 0 {
        lemma_scattered_len(src, total, (heads - 1) as nat, stride, run);
    }
}

/// The start of a head's stretch in the scattered form is the head's run.
proof fn lemma_scattered_run(src: Seq<u8>, total: nat, heads: nat, stride: nat, run: nat, h: nat)
    requires
        run <= stride,
        heads * stride <= total,
        heads * run <= src.len(),
        h < heads,
    ensures
        h * stride + run <= total,
        h * run + run <= src.len(),
        scattered(src, total, heads, stride, run).subrange(
            (h * stride) as int,
            (h * stride + run) as int,
        ) == src.subrange((h * run) as int, (h * run + run) as int),
    decreases heads,
{
    let last = (heads - 1) as nat;
    lemma_row_in_bounds(last as int, heads as int, stride as int);
    lemma_row_in_bounds(last as int, heads as int, run as int);
    lemma_row_in_bounds(h as int, heads as int, stride as int);
    lemma_row_in_bounds(h as int, heads as int, run as int);
    lemma_scattered_len(src, total, heads, stride, run);
    lemma_scattered_len(src, total, last, stride, run);
    let all = scattered(src, total, heads, stride, run);
    let init = scattered(src, total, last, stride, run);
    if h == last {
        assert(all.subrange((h * stride) as int, (h * stride + run) as int) =~= src.subrange(
            (h * run) as int,
            (h * run + run) as int,
        ));
    } else {
        lemma_scattered_run(src, total, last, stride, run, h);
        lemma_rows_disjoint(h as int, last as int, stride as int);
        assert(all.subrange((h * stride) as int, (h * stride + run) as int) =~= init.subrange(
            (h * stride) as int,
            (h * stride + run) as int,
        ));
    }
}

/// Bytes per token and head in a snapshot.
fn packed_width(dtype: DType, head_dim: usize) -> (r: Result<usize, KvError>)
    requires
        packed_row_bytes(dtype, head_dim as nat) matches Some(b) ==> b <= usize::MAX,
    ensures
        r matches Ok(b) ==> packed_row_bytes(dtype, head_dim as nat) == Some(b as nat),
        r is Err <==> packed_row_bytes(dtype, head_dim as nat) is None,
        r matches Err(e) ==> e == KvError::UnsupportedDType,
{
    match dtype {
        DType::F32 => Ok(head_dim * 4),
        DType::F16 => Ok(head_dim * 2),
        DType::Q4_0 => Ok((head_dim / 32) * 18),
        DType::U8 => Err(KvError::UnsupportedDType),
    }
}

/// A buffer holds `kv_heads` stretches of `capacity` rows, and the first `token_count` of each fit.
/// Where there is no head there is nothing to hold.
pub open spec fn packable(
    total: nat,
    kv_heads: usize,
    token_count: usize,
    head_dim: usize,
    capacity: usize,
    dtype: DType,
) -> bool {
    packed_row_bytes(dtype, head_dim as nat) matches Some(b) ==> {
        &&& b <= usize::MAX
        &&& total <= usize::MAX
        &&& kv_heads > 0 ==> {
            &&& capacity * b <= usize::MAX
            &&& token_count <= capacity
            &&& kv_heads * (capacity * b) <= total
        }
    }
}

proof fn lemma_packable(
    total: nat,
    kv_heads: usize,
    token_count: usize,
    head_dim: usize,
    capacity: usize,
    dtype: DType,
    b: nat,
)
    requires
        packable(total, kv_heads, token_count, head_dim, capacity, dtype),
        packed_row_bytes(dtype, head_dim as nat) == Some(b),
        kv_heads > 0,
    ensures
        token_count * b <= capacity * b,
        token_count * b <= usize::MAX,
        kv_heads * (token_count * b) <= total,
{
    assert(token_count * b <= capacity * b) by (nonlinear_arith)
        requires
            token_count <= capacity,
    ;
    assert(kv_heads * (token_count * b) <= kv_heads * (capacity * b)) by (nonlinear_arith)
        requires
            token_count * b <= capacity * b,
    ;
}

/// The first `token_count` rows of every head of a head-major buffer, without the room behind them.
pub fn extract_packed_bytes(
    raw: &Vec<u8>,
    kv_heads: usize,
    token_count: usize,
    head_dim: usize,
    capacity: usize,
    dtype: DType,
) -> (r: Result<Vec<u8>, KvError>)
    requires
        packable(raw@.len(), kv_heads, token_count, head_dim, capacity, dtype),
    ensures
        match packed_row_bytes(dtype, head_dim as nat) {
            Some(b) => r matches Ok(out) && out@ == packed(
                raw@,
                kv_heads as nat,
                capacity as nat * b,
                token_count as nat * b,
            ),
            None => r == Err::<Vec<u8>, KvError>(KvError::UnsupportedDType),
        },
{
    let width: usize = packed_width(dtype, head_dim)?;
    if kv_heads == 0 {
        return Ok(Vec::new());
    }
    proof {
        lemma_packable(
            raw@.len(),
            kv_heads,
            token_count,
            head_dim,
            capacity,
            dtype,
            width as nat,
        );
    }
    let stride: usize = capacity * width;
    let run: usize = token_count * width;
    let mut out: Vec<u8> = Vec::new();
    let mut h: usize = 0;
    while h < kv_heads
        invariant
            h <= kv_heads,
            run <= stride,
            kv_heads * stride <= raw@.len(),
            raw@.len() == raw.len(),
            out@ == packed(raw@, h as nat, stride as nat, run as nat),
        decreases kv_heads - h,
    {
        proof {
            lemma_row_in_bounds(h as int, kv_heads as int, stride as int);
        }
        let start: usize = h * stride;
        let ghost before = out@;
        let mut j: usize = 0;
        while j < run
            invariant
                j <= run,
                start + run <= raw@.len(),
                raw@.len() == raw.len(),
                out@ == before + raw@.subrange(start as int, start + j),
            decreases run - j,
        {
            out.push(raw[start + j]);
            j = j + 1;
            proof {
                assert(out@ =~= before + raw@.subrange(start as int, start + j));
            }
        }
        h = h + 1;
    }
    Ok(out)
}

/// A buffer of `total` bytes whose heads start with the runs of `src`; the rest is zero.
pub fn scatter_packed_bytes(
    total: usize,
    kv_heads: usize,
    token_count: usize,
    head_dim: usize,
    capacity: usize,
    dtype: DType,
    src: &Vec<u8>,
) -> (r: Result<Vec<u8>, KvError>)
    requires
        packable(total as nat, kv_heads, token_count, head_dim, capacity, dtype),
        packed_row_bytes(dtype, head_dim as nat) matches Some(b) ==> kv_heads * (token_count * b)
            <= src@.len(),
    ensures
        match packed_row_bytes(dtype, head_dim as nat) {
            Some(b) => r matches Ok(out) && out@ == scattered(
                src@,
                total as nat,
                kv_heads as nat,
                capacity as nat * b,
                token_count as nat * b,
            ),
            None => r == Err::<Vec<u8>, KvError>(KvError::UnsupportedDType),
        },
{
    let width: usize = packed_width(dtype, head_dim)?;
    if kv_heads == 0 {
        return Ok(vec![0u8; total]);
    }
    proof {
        lemma_packable(
            total as nat,
            kv_heads,
            token_count,
            head_dim,
            capacity,
            dtype,
            width as nat,
        );
    }
    let stride: usize = capacity * width;
    let run: usize = token_count * width;
    let mut out: Vec<u8> = vec![0u8; total];
    proof {
        assert(out@ =~= scattered(src@, total as nat, 0, stride as nat, run as nat));
    }
    let mut h: usize = 0;
    while h < kv_heads
        invariant
            h <= kv_heads,
            run <= stride,
            kv_heads * stride <= total,
            kv_heads * run <= src@.len(),
            src@.len() == src.len(),
            out@.len() == total,
            out@ == scattered(src@, total as nat, h as nat, stride as nat, run as nat),
        decreases kv_heads - h,
    {
        proof {
            lemma_row_in_bounds(h as int, kv_heads as int, stride as int);
            lemma_row_in_bounds(h as int, kv_heads as int, run as int);
        }
        let to: usize = h * stride;
        let from: usize = h * run;
        let ghost before = out@;
        let ghost piece = src@.subrange(from as int, from + run);
        let mut j: usize = 0;
        while j < run
            invariant
                j <= run,
                to + run <= total,
                from + run <= src@.len(),
                src@.len() == src.len(),
                out@.len() == total,
                before.len() == total,
                piece == src@.subrange(from as int, from + run),
                out@ == overlaid(before, to as int, piece.take(j as int)),
            decreases run - j,
        {
            out.set(to + j, src[from + j]);
            j = j + 1;
            proof {
                assert(out@ =~= overlaid(before, to as int, piece.take(j as int)));
            }
        }
        proof {
            assert(piece.take(run as int) =~= piece);
        }
        h = h + 1;
    }
    Ok(out)
}

/// Packing what a scatter wrote gives the packed bytes back.
pub proof fn lemma_pack_undoes_scatter(src: Seq<u8>, total: nat, heads: nat, stride: nat, run: nat)
    requires
        run <= stride,
        heads * stride <= total,
        src.len() == heads * run,
    ensures
        packed(scattered(src, total, heads, stride, run), heads, stride, run) == src,
{
    let raw = scattered(src, total, heads, stride, run);
    lemma_scattered_len(src, total, heads, stride, run);
    lemma_pack_is_prefix(raw, src, heads, heads, stride, run);
    assert(src.subrange(0, (heads * run) as int) =~= src);
}

proof fn lemma_pack_is_prefix(
    raw: Seq<u8>,
    src: Seq<u8>,
    n: nat,
    heads: nat,
    stride: nat,
    run: nat,
)
    requires
        n <= heads,
        run <= stride,
        heads * stride <= raw.len(),
        src.len() == heads * run,
        raw == scattered(src, raw.len(), heads, stride, run),
    ensures
        n * run <= src.len(),
        packed(raw, n, stride, run) == src.subrange(0, (n * run) as int),
    decreases n,
{
    if n > 0 {
        let h = (n - 1) as nat;
        lemma_pack_is_prefix(raw, src, h, heads, stride, run);
        lemma_scattered_run(src, raw.len(), heads, stride, run, h);
        lemma_row_in_bounds(h as int, heads as int, run as int);
        assert(packed(raw, n, stride, run) =~= src.subrange(0, (n * run) as int));
    } else {
        assert(packed(raw, n, stride, run) =~= src.subrange(0, 0));
    }
}

/// Row `p` of head `h` of a head-major buffer lies in the head's run at `p` rows.
proof fn lemma_row_in_run(raw: Seq<u8>, heads: nat, capacity: nat, b: nat, n: nat, h: nat, p: nat)
    requires
        h < heads,
        p < n <= capacity,
        (capacity * heads) * b == raw.len(),
    ensures
        0 <= h * (capacity * b),
        h * (capacity * b) + n * b <= raw.len(),
        (p + 1) * b <= n * b,
        rows_of(raw, capacity * heads, b)[(h * capacity + p) as int] == raw.subrange(
            (h * (capacity * b)) as int,
            (h * (capacity * b) + n * b) as int,
        ).subrange((p * b) as int, ((p + 1) * b) as int),
{
    assert(h * capacity + p < capacity * heads) by (nonlinear_arith)
        requires
            h < heads,
            p < capacity,
    ;
    assert((h * capacity + p) * b == h * (capacity * b) + p * b) by (nonlinear_arith);
    assert((h * capacity + p + 1) * b == h * (capacity * b) + (p + 1) * b) by (nonlinear_arith);
    assert((p + 1) * b <= n * b) by (nonlinear_arith)
        requires
            p + 1 <= n,
    ;
    assert(h * (capacity * b) + n * b <= (capacity * heads) * b) by (nonlinear_arith)
        requires
            h + 1 <= heads,
            n <= capacity,
    ;
    assert(0 <= h * (capacity * b)) by (nonlinear_arith);
    assert(0 <= p * b) by (nonlinear_arith);
    let run = raw.subrange(
        (h * (capacity * b)) as int,
        (h * (capacity * b) + n * b) as int,
    );
    let i = (h * capacity + p) as int;
    assert(i * b == h * (capacity * b) + p * b);
    assert((i + 1) * b == h * (capacity * b) + (p + 1) * b);
    assert(rows_of(raw, capacity * heads, b)[i] == raw.subrange(i * b, (i + 1) * b));
    assert((p + 1) * b == p * b + b) by (nonlinear_arith);
    assert(rows_of(raw, capacity * heads, b)[(h * capacity + p) as int] =~= run.subrange(
        (p * b) as int,
        ((p + 1) * b) as int,
    ));
}

/// The packed bytes of one side of a cache.
pub open spec fn side_packed(c: KVCache, side: Side, token_count: usize) -> Seq<u8> {
    let b = c@.shape.row_bytes()->0;
    packed(
        c.flat(side),
        c@.shape.kv_heads as nat,
        c@.shape.capacity as nat * b,
        token_count as nat * b,
    )
}

/// A number for the stored format, in a snapshot's header; zero has no snapshot.
pub open spec fn format_number(dtype: DType) -> u32 {
    match dtype {
        DType::F32 => 1,
        DType::F16 => 2,
        DType::Q4_0 => 3,
        DType::U8 => 0,
    }
}

proof fn lemma_cache_is_packable(c: KVCache, token_count: usize)
    requires
        c.wf(),
        token_count <= c@.shape.capacity,
        c@.shape.dtype != DType::U8,
    ensures
        packed_row_bytes(c@.shape.dtype, c@.shape.head_dim as nat) == Some(
            c@.shape.row_bytes()->0,
        ),
        packable(
            c.flat(Side::Key).len(),
            c@.shape.kv_heads,
            token_count,
            c@.shape.head_dim,
            c@.shape.capacity,
            c@.shape.dtype,
        ),
        c.flat(Side::Value).len() == c.flat(Side::Key).len(),
        (c@.shape.kv_heads as nat) * (c@.shape.capacity as nat * c@.shape.row_bytes()->0)
            == c.flat(Side::Key).len(),
{
    c.lemma_wf();
    c.lemma_flat();
    let b = c@.shape.row_bytes()->0;
    let heads = c@.shape.kv_heads as nat;
    let capacity = c@.shape.capacity as nat;
    assert(heads * (capacity * b) == (capacity * heads) * b) by (nonlinear_arith);
    if heads > 0 {
        assert(capacity * b <= heads * (capacity * b)) by (nonlinear_arith)
            requires
                heads >= 1,
                0 <= capacity * b,
        ;
    }
}

impl StandardFormat {
    /// The keys and then the values of the layer's tokens, packed. Refused unless `token_count` is
    /// the cursor, and for a format without typed elements.
    pub fn snapshot_prefix(&self, token_count: usize) -> (r: Result<Vec<u8>, KvError>)
        requires
            self.inner().wf(),
        ensures
            ({
                let c = self.inner();
                if c@.current_pos != token_count {
                    r == Err::<Vec<u8>, KvError>(KvError::PositionMismatch)
                } else if c@.shape.dtype == DType::U8 {
                    r == Err::<Vec<u8>, KvError>(KvError::UnsupportedDType)
                } else {
                    r matches Ok(out) && out@ == side_packed(c, Side::Key, token_count)
                        + side_packed(c, Side::Value, token_count)
                }
            }),
    {
        let cache: &KVCache = self.plan_lock();
        proof {
            cache.lemma_wf();
        }
        if cache.current_pos() != token_count {
            return Err(KvError::PositionMismatch);
        }
        let kv_heads: usize = cache.kv_heads();
        let head_dim: usize = cache.head_dim();
        let capacity: usize = cache.capacity();
        let dtype = cache.kv_dtype();
        proof {
            if dtype != DType::U8 {
                lemma_cache_is_packable(*cache, token_count);
            }
        }
        let mut out: Vec<u8> = extract_packed_bytes(
            cache.k_bytes(),
            kv_heads,
            token_count,
            head_dim,
            capacity,
            dtype,
        )?;
        let values: Vec<u8> = extract_packed_bytes(
            cache.v_bytes(),
            kv_heads,
            token_count,
            head_dim,
            capacity,
            dtype,
        )?;
        append_bytes(&mut out, &values);
        Ok(out)
    }

    /// Restores packed tokens into an empty layer, growing it if need be. Refused, with nothing
    /// changed, when the layer is not empty or cannot hold the tokens; a format without typed elements
    /// is refused once the layer has room.
    pub fn restore_prefix(&mut self, bytes: &Vec<u8>, token_count: usize) -> (r: Result<
        (),
        KvError,
    >)
        requires
            old(self).inner().wf(),
            old(self).inner()@.shape.dtype != DType::U8 ==> old(self).inner()@.shape.kv_heads * (
            token_count * old(self).inner()@.shape.row_bytes()->0) <= bytes@.len() as int / 2,
        ensures
            final(self).inner().wf(),
            final(self).spec_idx() == old(self).spec_idx(),
            ({
                let before = old(self).inner()@;
                if before.current_pos != 0 {
                    r == Err::<(), KvError>(KvError::PositionMismatch)
                } else if !before.shape.can_hold(token_count as int) {
                    r == Err::<(), KvError>(KvError::CapacityExceeded)
                } else if before.shape.dtype == DType::U8 {
                    r == Err::<(), KvError>(KvError::UnsupportedDType)
                } else {
                    r is Ok
                }
            }),
            r is Ok ==> restored(
                old(self).inner()@,
                bytes@,
                token_count,
                final(self).inner(),
            ),
            r matches Err(e) ==> final(self).inner()@ == (if e == KvError::UnsupportedDType {
                old(self).inner()@.holding(token_count as int)
            } else {
                old(self).inner()@
            }),
    {
        let ghost before = self.inner()@;
        if self.current_pos() != 0 {
            return Err(KvError::PositionMismatch);
        }
        let cache: &mut KVCache = self.with_cache_mut();
        cache.ensure_capacity(token_count)?;
        let ghost room = cache@;
        let ghost start = *cache;
        proof {
            cache.lemma_wf();
        }
        let kv_heads: usize = cache.kv_heads();
        let head_dim: usize = cache.head_dim();
        let capacity: usize = cache.capacity();
        let dtype = cache.kv_dtype();
        if dtype == DType::U8 {
            return Err(KvError::UnsupportedDType);
        }
        let half: usize = bytes.len() / 2;
        let k_packed: Vec<u8> = slice_copy(bytes, 0, half);
        let v_packed: Vec<u8> = slice_copy(bytes, half, bytes.len());
        proof {
            cache.lemma_flat();
            lemma_cache_is_packable(*cache, token_count);
        }
        let total: usize = cache.k_bytes().len();
        let k_raw: Vec<u8> = scatter_packed_bytes(
            total,
            kv_heads,
            token_count,
            head_dim,
            capacity,
            dtype,
            &k_packed,
        )?;
        let v_raw: Vec<u8> = scatter_packed_bytes(
            total,
            kv_heads,
            token_count,
            head_dim,
            capacity,
            dtype,
            &v_packed,
        )?;
        proof {
            let b = room.shape.row_bytes()->0;
            lemma_scattered_len(
                k_packed@,
                total as nat,
                kv_heads as nat,
                capacity as nat * b,
                token_count as nat * b,
            );
            lemma_scattered_len(
                v_packed@,
                total as nat,
                kv_heads as nat,
                capacity as nat * b,
                token_count as nat * b,
            );
        }
        cache.set_bytes(Side::Key, k_raw);
        proof {
            cache.lemma_flat();
        }
        cache.set_bytes(Side::Value, v_raw);
        let ghost filled = *cache;
        cache.set_current_pos(token_count);
        cache.raise_high_water(token_count);
        Ok(())
    }

    /// A number for the stored format.
    pub fn snapshot_format_id(&self) -> (r: u32)
        ensures
            r == format_number(self.inner()@.shape.dtype),
    {
        match self.kv_dtype() {
            DType::F32 => 1,
            DType::F16 => 2,
            DType::Q4_0 => 3,
            DType::U8 => 0,
        }
    }
}

/// A copy of `bytes[from..to]`.
fn slice_copy(bytes: &Vec<u8>, from: usize, to: usize) -> (r: Vec<u8>)
    requires
        from <= to <= bytes@.len(),
    ensures
        r@ == bytes@.subrange(from as int, to as int),
{
    let mut r: Vec<u8> = Vec::new();
    let mut i: usize = from;
    while i < to
        invariant
            from <= i <= to <= bytes@.len(),
            r@ == bytes@.subrange(from as int, i as int),
        decreases to - i,
    {
        r.push(bytes[i]);
        i = i + 1;
        proof {
            assert(r@ =~= bytes@.subrange(from as int, i as int));
        }
    }
    r
}

/// A restore of `bytes` into an empty cache `before` led to `after`: the runs of the first half are
/// the keys' and those of the second the values', and the cursor is behind them.
pub open spec fn restored(before: CacheView, bytes: Seq<u8>, token_count: usize, after: KVCache) -> bool {
    let room = before.holding(token_count as int);
    let b = room.shape.row_bytes()->0;
    let heads = room.shape.kv_heads as nat;
    let stride = room.shape.capacity as nat * b;
    let run = token_count as nat * b;
    let half = bytes.len() as int / 2;
    &&& after@.shape == room.shape
    &&& after@.current_pos == token_count
    &&& after@.starts == Seq::new(room.shape.kv_heads as nat, |h: int| 0usize)
    &&& after@.high_water_pos == (if token_count > room.high_water_pos {
        token_count
    } else {
        room.high_water_pos
    })
    &&& after.flat(Side::Key) == scattered(
        bytes.subrange(0, half),
        heads * stride,
        heads,
        stride,
        run,
    )
    &&& after.flat(Side::Value) == scattered(
        bytes.subrange(half, bytes.len() as int),
        heads * stride,
        heads,
        stride,
        run,
    )
}

/// One side of the round trip: if the runs of two head-major buffers agree, so do their rows.
proof fn lemma_side_round_trip(
    from: Seq<u8>,
    from_capacity: nat,
    to: Seq<u8>,
    to_capacity: nat,
    heads: nat,
    b: nat,
    n: nat,
    h: nat,
    p: nat,
)
    requires
        h < heads,
        p < n,
        n <= from_capacity,
        n <= to_capacity,
        from.len() == (from_capacity * heads) * b,
        to.len() == (to_capacity * heads) * b,
        to == scattered(
            packed(from, heads, from_capacity * b, n * b),
            heads * (to_capacity * b),
            heads,
            to_capacity * b,
            n * b,
        ),
    ensures
        rows_of(to, to_capacity * heads, b)[(h * to_capacity + p) as int] == rows_of(
            from,
            from_capacity * heads,
            b,
        )[(h * from_capacity + p) as int],
{
    let src = packed(from, heads, from_capacity * b, n * b);
    assert(heads * (from_capacity * b) == (from_capacity * heads) * b) by (nonlinear_arith);
    assert(heads * (to_capacity * b) == (to_capacity * heads) * b) by (nonlinear_arith);
    assert(n * b <= from_capacity * b) by (nonlinear_arith)
        requires
            n <= from_capacity,
    ;
    assert(n * b <= to_capacity * b) by (nonlinear_arith)
        requires
            n <= to_capacity,
    ;
    lemma_packed_len(from, heads, from_capacity * b, n * b);
    lemma_packed_run(from, heads, from_capacity * b, n * b, h);
    lemma_scattered_run(src, to.len(), heads, to_capacity * b, n * b, h);
    lemma_row_in_run(from, heads, from_capacity, b, n, h, p);
    lemma_row_in_run(to, heads, to_capacity, b, n, h, p);
}

/// A restored snapshot is the tokens that were saved: whatever the capacity of the cache it is
/// restored into, every row of every head has the bytes it had, and a snapshot of it is the snapshot.
pub proof fn lemma_restore_returns_snapshot(
    saved: KVCache,
    bytes: Seq<u8>,
    before: CacheView,
    after: KVCache,
)
    requires
        saved.wf(),
        after.wf(),
        before.wf(),
        saved@.shape.dtype != DType::U8,
        saved@.shape.layout == KVLayout::HeadMajor,
        before.shape.layout == KVLayout::HeadMajor,
        before.shape.dtype == saved@.shape.dtype,
        before.shape.kv_heads == saved@.shape.kv_heads,
        before.shape.head_dim == saved@.shape.head_dim,
        before.shape.can_hold(saved@.current_pos as int),
        bytes == side_packed(saved, Side::Key, saved@.current_pos) + side_packed(
            saved,
            Side::Value,
            saved@.current_pos,
        ),
        restored(before, bytes, saved@.current_pos, after),
    ensures
        after@.current_pos == saved@.current_pos,
        forall|h: int, p: int|
            0 <= h < saved@.shape.kv_heads && 0 <= p < saved@.current_pos
                ==> #[trigger] after@.keys[h][p] == saved@.keys[h][p],
        forall|h: int, p: int|
            0 <= h < saved@.shape.kv_heads && 0 <= p < saved@.current_pos
                ==> #[trigger] after@.values[h][p] == saved@.values[h][p],
        side_packed(after, Side::Key, saved@.current_pos) + side_packed(
            after,
            Side::Value,
            saved@.current_pos,
        ) == bytes,
{
    saved.lemma_wf();
    after.lemma_wf();
    saved.lemma_flat();
    after.lemma_flat();
    let n = saved@.current_pos as nat;
    let b = saved@.shape.row_bytes()->0;
    let heads = saved@.shape.kv_heads as nat;
    let from_capacity = saved@.shape.capacity as nat;
    let to_capacity = after@.shape.capacity as nat;
    assert(saved@.shape.opaque is None);
    assert(before.shape.opaque is None);
    assert(after@.shape.row_bytes() == Some(b));
    assert(heads * (from_capacity * b) == (from_capacity * heads) * b) by (nonlinear_arith);
    assert(n * b <= from_capacity * b) by (nonlinear_arith)
        requires
            n <= from_capacity,
    ;
    lemma_packed_len(saved.flat(Side::Key), heads, from_capacity * b, n * b);
    lemma_packed_len(saved.flat(Side::Value), heads, from_capacity * b, n * b);
    let half = bytes.len() as int / 2;
    assert(bytes.subrange(0, half) =~= side_packed(saved, Side::Key, saved@.current_pos));
    assert(bytes.subrange(half, bytes.len() as int) =~= side_packed(
        saved,
        Side::Value,
        saved@.current_pos,
    ));
    let stride = to_capacity * b;
    let run = n * b;
    assert(heads * stride == (to_capacity * heads) * b) by (nonlinear_arith)
        requires
            stride == to_capacity * b,
    ;
    assert(run <= stride) by (nonlinear_arith)
        requires
            n <= to_capacity,
            stride == to_capacity * b,
            run == n * b,
    ;
    let k_packed = side_packed(saved, Side::Key, saved@.current_pos);
    let v_packed = side_packed(saved, Side::Value, saved@.current_pos);
    lemma_pack_undoes_scatter(k_packed, heads * stride, heads, stride, run);
    lemma_pack_undoes_scatter(v_packed, heads * stride, heads, stride, run);
    assert(k_packed + v_packed == bytes);
    let from_keys = rows_of(saved.flat(Side::Key), from_capacity * heads, b);
    let to_keys = rows_of(after.flat(Side::Key), to_capacity * heads, b);
    let from_values = rows_of(saved.flat(Side::Value), from_capacity * heads, b);
    let to_values = rows_of(after.flat(Side::Value), to_capacity * heads, b);
    assert forall|h: int, p: int|
        0 <= h < saved@.shape.kv_heads && 0 <= p
            < saved@.current_pos implies #[trigger] after@.keys[h][p] == saved@.keys[h][p] by {
        lemma_side_round_trip(
            saved.flat(Side::Key),
            from_capacity,
            after.flat(Side::Key),
            to_capacity,
            heads,
            b,
            n,
            h as nat,
            p as nat,
        );
        assert(planes_of(saved@.shape, from_keys)[h][p] == from_keys[h * from_capacity + p]);
        assert(planes_of(after@.shape, to_keys)[h][p] == to_keys[h * to_capacity + p]);
    }
    assert forall|h: int, p: int|
        0 <= h < saved@.shape.kv_heads && 0 <= p
            < saved@.current_pos implies #[trigger] after@.values[h][p] == saved@.values[h][p] by {
        lemma_side_round_trip(
            saved.flat(Side::Value),
            from_capacity,
            after.flat(Side::Value),
            to_capacity,
            heads,
            b,
            n,
            h as nat,
            p as nat,
        );
        assert(planes_of(saved@.shape, from_values)[h][p] == from_values[h * from_capacity + p]);
        assert(planes_of(after@.shape, to_values)[h][p] == to_values[h * to_capacity + p]);
    }
}

/// Byte `j` of head `h` in the packed form is byte `j` of the head's stretch, and the packed form holds
/// the heads' runs and nothing else.
pub proof fn lemma_packed_bytes(raw: Seq<u8>, heads: nat, stride: nat, run: nat, h: nat, j: int)
    requires
        run <= stride,
        heads * stride <= raw.len(),
        h < heads,
        0 <= j < run,
    ensures
        packed(raw, heads, stride, run).len() == heads * run,
        0 <= h * run + j < heads * run,
        packed(raw, heads, stride, run)[h * run + j] == raw[h * stride + j],
{
    lemma_packed_len(raw, heads, stride, run);
    lemma_packed_run(raw, heads, stride, run, h);
    lemma_row_in_bounds(h as int, heads as int, stride as int);
    lemma_row_in_bounds(h as int, heads as int, run as int);
    let there = packed(raw, heads, stride, run).subrange((h * run) as int, (h * run + run) as int);
    let here = raw.subrange((h * stride) as int, (h * stride + run) as int);
    assert(there[j] == here[j]);
}

/// What lies behind a head's run in the scattered form is zero.
proof fn lemma_scattered_room(src: Seq<u8>, total: nat, heads: nat, upto: nat, stride: nat, run: nat, h: nat, j: int)
    requires
        run <= stride,
        heads * stride <= total,
        heads * run <= src.len(),
        h < heads,
        upto <= heads,
        run <= j < stride,
    ensures
        scattered(src, total, upto, stride, run)[h * stride + j] == 0,
    decreases upto,
{
    lemma_row_in_bounds(h as int, heads as int, stride as int);
    if upto > 0 {
        let last = (upto - 1) as nat;
        lemma_scattered_room(src, total, heads, last, stride, run, h, j);
        lemma_scattered_len(src, total, last, stride, run);
        lemma_row_in_bounds(last as int, heads as int, run as int);
        lemma_row_in_bounds(last as int, heads as int, stride as int);
        if h < last {
            assert(h * stride + stride <= last * stride) by (nonlinear_arith)
                requires
                    h + 1 <= last,
            ;
        } else if h > last {
            assert(last * stride + stride <= h * stride) by (nonlinear_arith)
                requires
                    last + 1 <= h,
            ;
        }
    }
}

/// Byte `j` of a head's stretch in the scattered form is byte `j` of the head's run, and zero behind the
/// run.
pub proof fn lemma_scattered_bytes(src: Seq<u8>, total: nat, heads: nat, stride: nat, run: nat, h: nat, j: int)
    requires
        run <= stride,
        heads * stride <= total,
        heads * run <= src.len(),
        h < heads,
        0 <= j < stride,
    ensures
        scattered(src, total, heads, stride, run).len() == total,
        j < run ==> scattered(src, total, heads, stride, run)[h * stride + j] == src[h * run + j],
        j >= run ==> scattered(src, total, heads, stride, run)[h * stride + j] == 0,
{
    lemma_scattered_len(src, total, heads, stride, run);
    lemma_row_in_bounds(h as int, heads as int, stride as int);
    lemma_row_in_bounds(h as int, heads as int, run as int);
    if j < run {
        lemma_scattered_run(src, total, heads, stride, run, h);
        let there = scattered(src, total, heads, stride, run).subrange(
            (h * stride) as int,
            (h * stride + run) as int,
        );
        let here = src.subrange((h * run) as int, (h * run + run) as int);
        assert(there[j] == here[j]);
    } else {
        lemma_scattered_room(src, total, heads, heads, stride, run, h, j);
    }
}

/// What a snapshot holds: the rows of the tokens, head after head and position after position, first
/// all keys and behind them all values. It is taken of exactly the tokens that there are, and of every
/// format but raw bytes.
pub proof fn lemma_snapshot_holds_the_rows(
    format: StandardFormat,
    token_count: usize,
    r: Result<Vec<u8>, KvError>,
    h: int,
    p: int,
    j: int,
)
    requires
        format.inner().wf(),
        format.inner()@.shape.layout == KVLayout::HeadMajor,
        call_ensures(StandardFormat::snapshot_prefix, (&format, token_count), r),
        0 <= h < format.inner()@.shape.kv_heads,
        0 <= p < token_count,
        0 <= j < format.inner()@.shape.row_bytes()->0,
    ensures
        ({
            let c = format.inner()@;
            let b = c.shape.row_bytes()->0 as int;
            let n = token_count as int;
            &&& r is Ok <==> c.current_pos == token_count && c.shape.dtype != DType::U8
            &&& r matches Ok(out) ==> {
                &&& out@.len() == 2 * (c.shape.kv_heads * (n * b))
                &&& out@[(h * n + p) * b + j] == c.keys[h][p][j]
                &&& out@[c.shape.kv_heads * (n * b) + (h * n + p) * b + j] == c.values[h][p][j]
            }
        }),
{
    let c = format.inner();
    c.lemma_wf();
    if c@.current_pos == token_count && c@.shape.dtype != DType::U8 {
        lemma_side_bytes(c, Side::Key, token_count, h, p, j);
        lemma_side_bytes(c, Side::Value, token_count, h, p, j);
        let k = side_packed(c, Side::Key, token_count);
        let v = side_packed(c, Side::Value, token_count);
        let b = c@.shape.row_bytes()->0 as int;
        let n = token_count as int;
        let at = (h * n + p) * b + j;
        assert((k + v)[at] == k[at]);
        assert((k + v)[k.len() + at] == v[at]);
    }
}

/// A byte of one side's packed rows.
proof fn lemma_side_bytes(c: KVCache, side: Side, token_count: usize, h: int, p: int, j: int)
    requires
        c.wf(),
        c@.shape.layout == KVLayout::HeadMajor,
        c@.shape.dtype != DType::U8,
        token_count <= c@.shape.capacity,
        0 <= h < c@.shape.kv_heads,
        0 <= p < token_count,
        0 <= j < c@.shape.row_bytes()->0,
    ensures
        side_packed(c, side, token_count).len() == c@.shape.kv_heads * (token_count
            * c@.shape.row_bytes()->0),
        0 <= (h * token_count + p) * c@.shape.row_bytes()->0 + j < side_packed(
            c,
            side,
            token_count,
        ).len(),
        side_packed(c, side, token_count)[(h * token_count + p) * c@.shape.row_bytes()->0 + j]
            == c@.plane(side)[h][p][j],
{
    c.lemma_wf();
    c.lemma_flat();
    lemma_cache_is_packable(c, token_count);
    let b = c@.shape.row_bytes()->0;
    let n = token_count as nat;
    let capacity = c@.shape.capacity as nat;
    let heads = c@.shape.kv_heads as nat;
    let at = p * b + j;
    assert(n * b <= capacity * b) by (nonlinear_arith)
        requires
            n <= capacity,
    ;
    assert(0 <= at < n * b) by (nonlinear_arith)
        requires
            at == p * b + j,
            0 <= p,
            p + 1 <= n,
            0 <= j < b,
    ;
    lemma_packed_bytes(c.flat(side), heads, capacity * b, n * b, h as nat, at);
    crate::kv_cache::lemma_where_a_row_lies(c, side, p, h, j);
    assert(h * (n * b) + (p * b + j) == (h * n + p) * b + j) by (nonlinear_arith);
    assert(h * (capacity * b) + (p * b + j) == (h * capacity + p) * b + j) by (nonlinear_arith);
}

/// What a restore leaves: every row is read from where a snapshot has it, the keys from the first half
/// and the values from the second; the room behind the tokens is zero, every head starts at the front,
/// and the cursor and the high-water mark stand behind the tokens.
pub proof fn lemma_restore_reads_the_rows(
    before: CacheView,
    bytes: Seq<u8>,
    token_count: usize,
    after: KVCache,
    h: int,
    p: int,
    j: int,
)
    requires
        before.wf(),
        after.wf(),
        before.current_pos == 0,
        before.shape.dtype != DType::U8,
        before.shape.layout == KVLayout::HeadMajor,
        before.shape.can_hold(token_count as int),
        before.shape.kv_heads * (token_count * before.shape.row_bytes()->0) <= bytes.len() as int
            / 2,
        restored(before, bytes, token_count, after),
        0 <= h < before.shape.kv_heads,
        0 <= p < after@.shape.capacity,
        0 <= j < before.shape.row_bytes()->0,
    ensures
        after@.current_pos == token_count,
        after@.high_water_pos >= token_count,
        after@.starts[h] == 0,
        after@.shape.kv_heads == before.shape.kv_heads,
        after@.shape.head_dim == before.shape.head_dim,
        after@.shape.dtype == before.shape.dtype,
        after@.shape.layout == before.shape.layout,
        after@.shape.capacity >= token_count,
        ({
            let b = before.shape.row_bytes()->0 as int;
            let at = (h * token_count + p) * b + j;
            let half = bytes.len() as int / 2;
            &&& p < token_count ==> after@.keys[h][p][j] == bytes[at]
            &&& p < token_count ==> after@.values[h][p][j] == bytes[half + at]
            &&& p >= token_count ==> after@.keys[h][p][j] == 0
            &&& p >= token_count ==> after@.values[h][p][j] == 0
        }),
{
    after.lemma_wf();
    after.lemma_flat();
    assert(before.shape.opaque is None);
    let b = before.shape.row_bytes()->0;
    assert(after@.shape.row_bytes() == Some(b));
    let n = token_count as nat;
    let capacity = after@.shape.capacity as nat;
    let heads = after@.shape.kv_heads as nat;
    let half = bytes.len() as int / 2;
    let keys = bytes.subrange(0, half);
    let values = bytes.subrange(half, bytes.len() as int);
    let at = p * b + j;
    assert(n * b <= capacity * b) by (nonlinear_arith)
        requires
            n <= capacity,
    ;
    assert(0 <= at < capacity * b) by (nonlinear_arith)
        requires
            at == p * b + j,
            0 <= p,
            p + 1 <= capacity,
            0 <= j < b,
    ;
    if p < n {
        assert(at < n * b) by (nonlinear_arith)
            requires
                at == p * b + j,
                p + 1 <= n,
                0 <= j < b,
        ;
        lemma_row_in_bounds(h, heads as int, (n * b) as int);
    } else {
        assert(at >= n * b) by (nonlinear_arith)
            requires
                at == p * b + j,
                p >= n,
                0 <= j,
        ;
    }
    let total = heads * (capacity * b);
    lemma_scattered_bytes(keys, total, heads, capacity * b, n * b, h as nat, at);
    lemma_scattered_bytes(values, total, heads, capacity * b, n * b, h as nat, at);
    crate::kv_cache::lemma_where_a_row_lies(after, Side::Key, p, h, j);
    crate::kv_cache::lemma_where_a_row_lies(after, Side::Value, p, h, j);
    assert(h * (n * b) + (p * b + j) == (h * n + p) * b + j) by (nonlinear_arith);
    assert(h * (capacity * b) + (p * b + j) == (h * capacity + p) * b + j) by (nonlinear_arith);
    assert(0 <= h * (n * b)) by (nonlinear_arith)
        requires
            0 <= h,
    ;
}

/// The numbers by which a snapshot's header names a format tell the formats apart, and only raw bytes
/// have none.
pub proof fn lemma_format_numbers_differ(a: DType, b: DType)
    ensures
        format_number(a) == format_number(b) ==> a == b,
        format_number(a) == 0 <==> a == DType::U8,
        a == DType::F32 ==> format_number(a) == 1,
        a == DType::F16 ==> format_number(a) == 2,
        a == DType::Q4_0 ==> format_number(a) == 3,
{
}

/// How wide a row is in a snapshot: four or two bytes for an element, or eighteen for every thirty-two;
/// raw bytes have no width.
pub proof fn lemma_packed_row_widths(dtype: DType, head_dim: nat)
    ensures
        packed_row_bytes(dtype, head_dim) is None <==> dtype == DType::U8,
        packed_row_bytes(dtype, head_dim) matches Some(b) ==> match dtype {
            DType::F32 => b == head_dim + head_dim + head_dim + head_dim,
            DType::F16 => b == head_dim + head_dim,
            DType::Q4_0 => b % 18 == 0 && 32 * (b as int / 18) <= head_dim < 32 * (b as int / 18) + 32,
            DType::U8 => false,
        },
{
    let q = head_dim / 32;
    assert(((q * 18) as int) % 18 == 0 && (q * 18) as int / 18 == q);
}

/// What packing a head-major buffer gives: the bytes of every token of every head, without the room behind
/// the tokens; raw bytes are refused.
pub proof fn lemma_packing_leaves_out_the_room(
    raw: Vec<u8>,
    kv_heads: usize,
    token_count: usize,
    head_dim: usize,
    capacity: usize,
    dtype: DType,
    r: Result<Vec<u8>, KvError>,
    b: nat,
    h: int,
    t: int,
    j: int,
)
    requires
        packable(raw@.len(), kv_heads, token_count, head_dim, capacity, dtype),
        call_ensures(
            extract_packed_bytes,
            (&raw, kv_heads, token_count, head_dim, capacity, dtype),
            r,
        ),
        dtype != DType::U8 ==> packed_row_bytes(dtype, head_dim as nat) == Some(b),
        0 <= h < kv_heads,
        0 <= t < token_count,
        0 <= j < b,
    ensures
        r is Err <==> dtype == DType::U8,
        r matches Err(e) ==> e == KvError::UnsupportedDType,
        r matches Ok(out) ==> out@.len() == kv_heads * (token_count * b) && out@[(h * token_count + t)
            * b + j] == raw@[(h * capacity + t) * b + j],
{
    if dtype != DType::U8 {
        lemma_packable(raw@.len(), kv_heads, token_count, head_dim, capacity, dtype, b);
        let at = t * b + j;
        assert(0 <= at < token_count * b) by (nonlinear_arith)
            requires
                at == t * b + j,
                0 <= t,
                t + 1 <= token_count,
                0 <= j < b,
        ;
        lemma_packed_bytes(
            raw@,
            kv_heads as nat,
            capacity as nat * b,
            token_count as nat * b,
            h as nat,
            at,
        );
        assert(h * (token_count * b) + (t * b + j) == (h * token_count + t) * b + j)
            by (nonlinear_arith);
        assert(h * (capacity * b) + (t * b + j) == (h * capacity + t) * b + j) by (nonlinear_arith);
    }
}

} // verus!
