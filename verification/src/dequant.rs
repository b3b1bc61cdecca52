//! One stored row in single precision.

use crate::codec::{typed, RowCodec};
use crate::dtype::DType;
use crate::kv_cache::{KVCache, Side};
use crate::selective_read::{in_single_precision, row_widened, widens_wrong};
use vstd::prelude::*;

verus! {

/// What reading a row in single precision left in the buffer: the row over its start, or, for a
/// store of opaque bytes, nothing. A coder that returns another width leaves nothing either.
pub open spec fn row_read<C: RowCodec>(
    codec: &C,
    cache: KVCache,
    side: Side,
    pos: int,
    head: int,
    before: Seq<u8>,
    after: Seq<u8>,
    done: bool,
) -> bool {
    let c = cache@;
    let width = c.shape.head_dim * 4;
    &&& (c.shape.dtype == DType::F32 ==> done)
    &&& (c.shape.dtype == DType::U8 ==> !done)
    &&& (!done ==> after == before && (c.shape.dtype == DType::U8 || widens_wrong(
        codec,
        c,
        c.plane(side)[head][pos],
    )))
    &&& (done ==> exists|row: Seq<u8>|
        {
            &&& #[trigger] row_widened(codec, c, c.plane(side)[head][pos], row)
            &&& row.len() == width
            &&& after == row + before.skip(width as int)
        })
}

/// Reads one row of a side.
fn dequantize<C: RowCodec>(
    cache: &KVCache,
    side: Side,
    pos: usize,
    head: usize,
    codec: &C,
    out: &mut Vec<u8>,
) -> (done: bool)
    requires
        cache.wf(),
        pos < cache@.shape.capacity,
        head < cache@.shape.kv_heads,
        cache@.shape.dtype != DType::U8 ==> cache@.shape.head_dim * 4 <= old(out)@.len(),
    ensures
        row_read(codec, *cache, side, pos as int, head as int, old(out)@, final(out)@, done),
{
    let ghost before = out@;
    let ghost c = cache@;
    proof {
        cache.lemma_wf();
        assert(out@.len() == out.len());
        assert(c.plane(side)[head as int][pos as int].len() == c.shape.row_bytes()->0);
    }
    let shape = cache.shape();
    if shape.dtype == DType::U8 {
        return false;
    }
    let stored: Vec<u8> = cache.read_row(side, pos, head);
    let width: usize = shape.head_dim * 4;
    let row: Vec<u8> = if shape.dtype == DType::F32 {
        stored
    } else {
        let from = shape.row_format();
        let to = typed(DType::F32, shape.head_dim);
        let widened = codec.recode(&stored, from, to);
        assert(call_ensures(C::recode, (codec, &stored, from, to), widened));
        widened
    };
    assert(row_widened(codec, c, c.plane(side)[head as int][pos as int], row@));
    if row.len() != width {
        return false;
    }
    let mut i: usize = 0;
    while i < width
        invariant
            i <= width,
            width == row@.len(),
            width <= before.len(),
            out@.len() == before.len(),
            forall|k: int| 0 <= k < i ==> #[trigger] out@[k] == row@[k],
            forall|k: int| i <= k < before.len() ==> #[trigger] out@[k] == before[k],
        decreases width - i,
    {
        out[i] = row[i];
        i = i + 1;
    }
    assert(out@ =~= row@ + before.skip(width as int));
    true
}

/// Reads the key row at a position of a head, in single precision, over the start of `out`.
pub fn dequantize_k<C: RowCodec>(
    cache: &KVCache,
    pos: usize,
    head: usize,
    codec: &C,
    out: &mut Vec<u8>,
) -> (done: bool)
    requires
        cache.wf(),
        pos < cache@.shape.capacity,
        head < cache@.shape.kv_heads,
        cache@.shape.dtype != DType::U8 ==> cache@.shape.head_dim * 4 <= old(out)@.len(),
    ensures
        row_read(codec, *cache, Side::Key, pos as int, head as int, old(out)@, final(out)@, done),
{
    dequantize(cache, Side::Key, pos, head, codec, out)
}

/// Reads the value row at a position of a head, in single precision, over the start of `out`.
pub fn dequantize_v<C: RowCodec>(
    cache: &KVCache,
    pos: usize,
    head: usize,
    codec: &C,
    out: &mut Vec<u8>,
) -> (done: bool)
    requires
        cache.wf(),
        pos < cache@.shape.capacity,
        head < cache@.shape.kv_heads,
        cache@.shape.dtype != DType::U8 ==> cache@.shape.head_dim * 4 <= old(out)@.len(),
    ensures
        row_read(codec, *cache, Side::Value, pos as int, head as int, old(out)@, final(out)@, done),
{
    dequantize(cache, Side::Value, pos, head, codec, out)
}

/// What reading a row leaves: the row's elements over the start of the buffer and the rest of it as it
/// was, or, where the bytes mean no elements, all of it as it was. A row that is stored in single
/// precision is read as it is.
pub proof fn lemma_a_read_fills_the_start<C: RowCodec>(
    codec: &C,
    cache: KVCache,
    side: Side,
    pos: int,
    head: int,
    before: Seq<u8>,
    after: Seq<u8>,
    done: bool,
    j: int,
)
    requires
        row_read(codec, cache, side, pos, head, before, after, done),
        cache@.shape.dtype != DType::U8 ==> 4 * cache@.shape.head_dim <= before.len(),
        0 <= j < before.len(),
    ensures
        after.len() == before.len(),
        j >= 4 * cache@.shape.head_dim ==> after[j] == before[j],
        cache@.shape.dtype == DType::U8 ==> !done,
        cache@.shape.dtype == DType::F32 ==> done,
        !done ==> after == before,
        done && j < 4 * cache@.shape.head_dim && cache@.shape.dtype == DType::F32 ==> after[j]
            == cache@.plane(side)[head][pos][j],
        done ==> exists|row: Seq<u8>|
            #[trigger] in_single_precision(codec, cache@, cache@.plane(side)[head][pos], row)
                && row.len() == 4 * cache@.shape.head_dim && after.take(row.len() as int) == row,
{
    let c = cache@;
    let width = c.shape.head_dim * 4;
    if done {
        let row = choose|row: Seq<u8>|
            {
                &&& #[trigger] row_widened(codec, c, c.plane(side)[head][pos], row)
                &&& row.len() == width
                &&& after == row + before.skip(width as int)
            };
        assert(in_single_precision(codec, c, c.plane(side)[head][pos], row));
        assert(after.take(row.len() as int) =~= row);
    }
}

} // verus!
