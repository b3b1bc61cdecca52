//! What the host's kernels read of a layer: its rows in single precision, each where the layer has
//! it.

use crate::codec::{spec_typed, typed, RowCodec, RowFormat};
use crate::dtype::{DType, KVLayout};
use crate::kv_cache::{CacheShape, CacheView, KVCache, KvError, Side};
use crate::rows::RowBuffer;
use crate::selective_read::{in_single_precision, row_widened, widens_wrong};
use vstd::prelude::*;

verus! {

/// Positions whose rows are widened: the frame where positions lie one after the other, and all of
/// them where heads do, or where a block codec holds them.
pub open spec fn widened_positions(shape: CacheShape, current_pos: usize) -> usize {
    if shape.opaque is None && shape.layout == KVLayout::SeqMajor {
        current_pos
    } else {
        shape.capacity
    }
}

/// One side in single precision: every row of the first `n` positions in its own slot.
pub open spec fn side_widened<C: RowCodec>(
    codec: &C,
    c: CacheView,
    side: Side,
    n: usize,
    rows: Seq<Seq<u8>>,
) -> bool {
    &&& rows.len() == n * c.shape.kv_heads
    &&& forall|h: int, p: int|
        0 <= h < c.shape.kv_heads && 0 <= p < n ==> row_widened(
            codec,
            c,
            #[trigger] c.plane(side)[h][p],
            rows[c.shape.slot(p, h)],
        )
}

/// Why a layer cannot be widened, if it cannot: its buffers are on a device, its bytes mean no
/// elements, or the rows would not fit.
pub open spec fn widen_refusal(c: CacheView) -> Option<KvError> {
    let n = widened_positions(c.shape, c.current_pos);
    if c.shape.on_device {
        Some(KvError::NotOnHost)
    } else if c.shape.dtype == DType::U8 && c.shape.opaque is None {
        Some(KvError::UnsupportedDType)
    } else if c.shape.head_dim * 4 > usize::MAX || (n * c.shape.kv_heads) * (c.shape.head_dim * 4)
        > usize::MAX {
        Some(KvError::CapacityExceeded)
    } else {
        None
    }
}

/// Widened, a row of the first `n` positions of the side came back in another width.
pub open spec fn frame_misfits<C: RowCodec>(codec: &C, c: CacheView, side: Side, n: usize) -> bool {
    exists|h: int, p: int|
        0 <= h < c.shape.kv_heads && 0 <= p < n && #[trigger] widens_wrong(
            codec,
            c,
            c.plane(side)[h][p],
        )
}

/// Why widening a layer failed. One that is not refused fails only where rows are cast and the coder
/// returned one of them in another width.
pub open spec fn widen_failed<C: RowCodec>(codec: &C, c: CacheView, e: KvError) -> bool {
    match widen_refusal(c) {
        Some(refusal) => e == refusal,
        None => {
            &&& e == KvError::CodecShape
            &&& c.shape.dtype != DType::F32
            &&& frame_misfits(
                codec,
                c,
                Side::Key,
                widened_positions(c.shape, c.current_pos),
            ) || frame_misfits(
                codec,
                c,
                Side::Value,
                widened_positions(c.shape, c.current_pos),
            )
        },
    }
}

/// The slots of the first `n` positions are the first rows, where only those are widened.
proof fn lemma_slot_is_widened(shape: CacheShape, n: usize, p: int, h: int)
    requires
        n <= shape.capacity,
        n == shape.capacity || shape.layout == KVLayout::SeqMajor,
        0 <= p < n,
        0 <= h < shape.kv_heads,
    ensures
        0 <= shape.slot(p, h) < n * shape.kv_heads,
{
    shape.lemma_slot_in_bounds(p, h);
    if n < shape.capacity {
        let w = shape.kv_heads as int;
        assert(0 <= p * w && p * w + w <= n * w) by (nonlinear_arith)
            requires
                0 <= p < n,
                0 <= w,
        ;
    }
}

/// Widens one side.
fn widen_side<C: RowCodec>(cache: &KVCache, codec: &C, side: Side, n: usize, width: usize) -> (r:
    Option<RowBuffer>)
    requires
        cache.wf(),
        n <= cache@.shape.capacity,
        n == cache@.shape.capacity || cache@.shape.layout == KVLayout::SeqMajor,
        cache@.shape.head_dim * 4 == width,
        n * cache@.shape.kv_heads <= usize::MAX,
        (n * cache@.shape.kv_heads) * width <= usize::MAX,
    ensures
        r matches Some(rows) ==> rows.wf() && rows.width() == width && side_widened(
            codec,
            cache@,
            side,
            n,
            rows@,
        ),
        r is None ==> cache@.shape.dtype != DType::F32 && frame_misfits(codec, cache@, side, n),
{
    let ghost c = cache@;
    proof {
        cache.lemma_wf();
    }
    let shape = cache.shape();
    let from: RowFormat = shape.row_format();
    let to: RowFormat = typed(DType::F32, shape.head_dim);
    let heads: usize = shape.kv_heads;
    let mut rows = RowBuffer::zeroed(n * heads, width);
    let mut h: usize = 0;
    while h < heads
        invariant
            h <= heads,
            heads == c.shape.kv_heads,
            c == cache@,
            cache.wf(),
            c.wf(),
            shape == c.shape,
            n <= c.shape.capacity,
            n == c.shape.capacity || c.shape.layout == KVLayout::SeqMajor,
            c.shape.head_dim * 4 == width,
            from == c.shape.spec_row_format(),
            to == spec_typed(DType::F32, c.shape.head_dim),
            rows.wf(),
            rows.width() == width,
            rows@.len() == n * heads,
            forall|x: int, q: int|
                0 <= x < h && 0 <= q < n ==> row_widened(
                    codec,
                    c,
                    #[trigger] c.plane(side)[x][q],
                    rows@[c.shape.slot(q, x)],
                ),
        decreases heads - h,
    {
        let mut p: usize = 0;
        while p < n
            invariant
                h < heads,
                p <= n,
                heads == c.shape.kv_heads,
                c == cache@,
                cache.wf(),
                c.wf(),
                shape == c.shape,
                n <= c.shape.capacity,
                n == c.shape.capacity || c.shape.layout == KVLayout::SeqMajor,
                c.shape.head_dim * 4 == width,
                from == c.shape.spec_row_format(),
                to == spec_typed(DType::F32, c.shape.head_dim),
                rows.wf(),
                rows.width() == width,
                rows@.len() == n * heads,
                forall|x: int, q: int|
                    0 <= x <= h && 0 <= q < n && (x < h || q < p) ==> row_widened(
                        codec,
                        c,
                        #[trigger] c.plane(side)[x][q],
                        rows@[c.shape.slot(q, x)],
                    ),
            decreases n - p,
        {
            proof {
                lemma_slot_is_widened(c.shape, n, p as int, h as int);
                assert(c.plane(side)[h as int].len() == c.shape.capacity);
            }
            let stored: Vec<u8> = cache.read_row(side, p, h);
            let at: usize = cache.slot(p, h);
            let row: Vec<u8> = if shape.dtype == DType::F32 {
                stored
            } else {
                let out = codec.recode(&stored, from, to);
                assert(call_ensures(C::recode, (codec, &stored, from, to), out));
                out
            };
            assert(row_widened(codec, c, c.plane(side)[h as int][p as int], row@));
            if row.len() != width {
                proof {
                    if c.shape.dtype == DType::F32 {
                        assert(c.plane(side)[h as int][p as int].len() == c.shape.row_bytes()->0);
                        assert(false);
                    }
                    assert(widens_wrong(codec, c, c.plane(side)[h as int][p as int]));
                }
                return None;
            }
            let ghost mid = rows@;
            rows.write(at, &row);
            proof {
                assert forall|x: int, q: int|
                    0 <= x <= h && 0 <= q < n && (x < h || q < p + 1) implies row_widened(
                    codec,
                    c,
                    #[trigger] c.plane(side)[x][q],
                    rows@[c.shape.slot(q, x)],
                ) by {
                    lemma_slot_is_widened(c.shape, n, q, x);
                    if !(x == h && q == p) {
                        if c.shape.slot(q, x) == at {
                            c.shape.lemma_slot_injective(q, x, p as int, h as int);
                        }
                        assert(rows@[c.shape.slot(q, x)] == mid[c.shape.slot(q, x)]);
                    }
                }
            }
            p = p + 1;
        }
        h = h + 1;
    }
    Some(rows)
}

/// The keys and values of a layer in single precision, for a kernel on the host. Refused for buffers
/// on a device and for bytes without a codec; fails when the rows would not fit or the coder returns
/// a row of another width.
pub fn host_operands<C: RowCodec>(cache: &KVCache, codec: &C) -> (r: Result<
    (RowBuffer, RowBuffer),
    KvError,
>)
    requires
        cache.wf(),
    ensures
        r matches Err(e) ==> widen_failed(codec, cache@, e),
        widen_refusal(cache@) is Some ==> r is Err,
        r matches Ok(kv) ==> {
            let n = widened_positions(cache@.shape, cache@.current_pos);
            &&& kv.0.wf()
            &&& kv.1.wf()
            &&& kv.0.width() == cache@.shape.head_dim * 4
            &&& kv.1.width() == cache@.shape.head_dim * 4
            &&& side_widened(codec, cache@, Side::Key, n, kv.0@)
            &&& side_widened(codec, cache@, Side::Value, n, kv.1@)
        },
{
    proof {
        cache.lemma_wf();
    }
    if cache.on_device() {
        return Err(KvError::NotOnHost);
    }
    let shape = cache.shape();
    if shape.dtype == DType::U8 && shape.opaque.is_none() {
        return Err(KvError::UnsupportedDType);
    }
    let n: usize = if shape.opaque.is_none() && shape.layout == KVLayout::SeqMajor {
        cache.current_pos()
    } else {
        shape.capacity
    };
    let width: usize = match shape.head_dim.checked_mul(4) {
        Some(w) => w,
        None => {
            return Err(KvError::CapacityExceeded);
        },
    };
    proof {
        let a = n as int;
        let b = shape.capacity as int;
        let k = shape.kv_heads as int;
        assert(a * k <= b * k) by (nonlinear_arith)
            requires
                0 <= a <= b,
                0 <= k,
        ;
    }
    let count: usize = n * shape.kv_heads;
    if count.checked_mul(width).is_none() {
        return Err(KvError::CapacityExceeded);
    }
    let k: RowBuffer = match widen_side(cache, codec, Side::Key, n, width) {
        Some(rows) => rows,
        None => {
            return Err(KvError::CodecShape);
        },
    };
    let v: RowBuffer = match widen_side(cache, codec, Side::Value, n, width) {
        Some(rows) => rows,
        None => {
            return Err(KvError::CodecShape);
        },
    };
    Ok((k, v))
}

/// Where a layer's rows lie once widened: position after position or head after head, as the layer has
/// them, each in single precision. Position after position only the frame's are; else every position's.
pub proof fn lemma_where_operands_lie<C: RowCodec>(
    codec: &C,
    c: CacheView,
    side: Side,
    rows: Seq<Seq<u8>>,
    h: int,
    p: int,
)
    requires
        c.wf(),
        side_widened(codec, c, side, widened_positions(c.shape, c.current_pos), rows),
        0 <= h < c.shape.kv_heads,
        0 <= p < c.current_pos,
    ensures
        c.shape.layout == KVLayout::SeqMajor ==> in_single_precision(
            codec,
            c,
            c.plane(side)[h][p],
            rows[p * c.shape.kv_heads + h],
        ),
        c.shape.layout == KVLayout::HeadMajor ==> in_single_precision(
            codec,
            c,
            c.plane(side)[h][p],
            rows[h * c.shape.capacity + p],
        ),
        c.shape.layout == KVLayout::SeqMajor && c.shape.opaque is None ==> rows.len()
            == c.current_pos * c.shape.kv_heads,
        c.shape.layout == KVLayout::HeadMajor || c.shape.opaque is Some ==> rows.len()
            == c.shape.capacity * c.shape.kv_heads,
{
    assert(row_widened(codec, c, c.plane(side)[h][p], rows[c.shape.slot(p, h)]));
}

/// When a layer cannot be widened: on a device, without a codec for raw bytes, or too large.
pub proof fn lemma_when_widening_is_refused(c: CacheView)
    ensures
        widen_refusal(c) == Some(KvError::NotOnHost) <==> c.shape.on_device,
        widen_refusal(c) == Some(KvError::UnsupportedDType) <==> !c.shape.on_device && c.shape.dtype
            == DType::U8 && c.shape.opaque is None,
        c.wf() && !c.shape.on_device && (c.shape.dtype != DType::U8 || c.shape.opaque is Some)
            && c.shape.head_dim * 4 <= usize::MAX && (c.shape.capacity * c.shape.kv_heads) * (
        c.shape.head_dim * 4) <= usize::MAX ==> widen_refusal(c) is None,
{
    if c.wf() {
        let n = widened_positions(c.shape, c.current_pos) as int;
        let a = n * c.shape.kv_heads;
        let b = c.shape.capacity * c.shape.kv_heads;
        let w = c.shape.head_dim * 4;
        assert(a <= b) by (nonlinear_arith)
            requires
                a == n * c.shape.kv_heads,
                b == c.shape.capacity * c.shape.kv_heads,
                n <= c.shape.capacity,
        ;
        assert(a * w <= b * w) by (nonlinear_arith)
            requires
                a <= b,
                0 <= w,
        ;
    }
}

/// Why widening fails where it is not refused: rows are cast, and some row came back in another width.
pub proof fn lemma_why_widening_fails<C: RowCodec>(codec: &C, c: CacheView, e: KvError)
    requires
        widen_failed(codec, c, e),
    ensures
        widen_refusal(c) matches Some(refusal) ==> e == refusal,
        widen_refusal(c) is None ==> e == KvError::CodecShape && c.shape.dtype != DType::F32
            && exists|h: int, p: int, side: Side|
            0 <= h < c.shape.kv_heads && 0 <= p < c.shape.capacity + c.current_pos
                && #[trigger] widens_wrong(codec, c, c.plane(side)[h][p]),
{
    if widen_refusal(c) is None {
        let n = widened_positions(c.shape, c.current_pos);
        let side = if frame_misfits(codec, c, Side::Key, n) {
            Side::Key
        } else {
            Side::Value
        };
        let (h, p) = choose|h: int, p: int|
            0 <= h < c.shape.kv_heads && 0 <= p < n && #[trigger] widens_wrong(
                codec,
                c,
                c.plane(side)[h][p],
            );
        assert(widens_wrong(codec, c, c.plane(side)[h][p]));
    }
}

} // verus!
