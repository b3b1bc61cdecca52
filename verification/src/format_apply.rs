//! The stored-format axis: what a format plan asks of one layer, and the re-encode of a layer.
//!
//! A layer stores one format. A plan that gives part of a layer another format cannot be stored and
//! is refused rather than stored wrongly.

use crate::codec::{misfits, recoded, RowCodec, RowFormat};
use crate::compaction::{keep_heads_ok, keep_ok};
use crate::dtype::{format_name, spec_format_name, DType};
use crate::keep::KeepSpec;
use crate::kv_cache::{zero_plane, CacheShape, CacheView, KVCache, KvError, Side};
use crate::merge::MergeAxis;
use vstd::prelude::*;

verus! {

/// The name of a stored format.
#[derive(Debug)]
pub struct FormatId(pub String);

/// A format for part of a layer.
pub struct FormatOverride {
    pub region: KeepSpec,
    pub format: FormatId,
    pub side: MergeAxis,
}

/// The format of a layer, with exceptions.
pub struct KVFormatPlan {
    pub base: FormatId,
    pub overrides: Vec<FormatOverride>,
}

/// Why a format plan was refused.
#[derive(Debug, PartialEq, Eq)]
pub enum FormatApplyError {
    /// The plan gives heads, or tokens, of one layer different formats.
    HeterogeneousUnsupported,
    /// The plan names a format that cannot be decoded.
    UnsupportedFormat(String),
    /// The plan gives the whole layer one other format, which no plan executor re-encodes to yet.
    UniformReencodeNotWired,
}

impl FormatId {
    /// Whether this is the format called `name`.
    pub fn is_named(&self, name: &str) -> (r: bool)
        ensures
            r == (self.0@ == name@),
    {
        self.0 == name.to_owned()
    }
}

impl FormatApplyError {
    /// The error in words.
    pub open spec fn words(self) -> Seq<char> {
        match self {
            FormatApplyError::HeterogeneousUnsupported => {
                "KVFormatPlan assigns heterogeneous-within-layer precision (per-head or per-token); no current container can store it — needs a heterogeneous-membership store (L2)"@
            },
            FormatApplyError::UnsupportedFormat(name) => {
                "KVFormatPlan names a format the backend cannot decode: "@ + name@
            },
            FormatApplyError::UniformReencodeNotWired => {
                "uniform-per-layer precision change is well-formed but per-layer re-encode is not yet wired (L1, deferred)"@
            },
        }
    }

    /// The error in words.
    pub fn message(&self) -> (s: String)
        ensures
            s@ == self.words(),
    {
        match self {
            FormatApplyError::HeterogeneousUnsupported => {
                "KVFormatPlan assigns heterogeneous-within-layer precision (per-head or per-token); no current container can store it — needs a heterogeneous-membership store (L2)".to_owned()
            },
            FormatApplyError::UnsupportedFormat(name) => {
                let mut s: String =
                    "KVFormatPlan names a format the backend cannot decode: ".to_owned();
                s.append(name.as_str());
                s
            },
            FormatApplyError::UniformReencodeNotWired => {
                "uniform-per-layer precision change is well-formed but per-layer re-encode is not yet wired (L1, deferred)".to_owned()
            },
        }
    }
}

/// The region is not the whole layer of `resident` tokens.
pub open spec fn partial_region(region: KeepSpec, resident: usize) -> bool {
    match region {
        KeepSpec::PerHead(_) => true,
        KeepSpec::LayerWide(positions) => positions@.len() != resident,
    }
}

/// The name of the cache's stored format.
pub fn current_format_name(cache: &KVCache) -> (r: &'static str)
    ensures
        r@ == spec_format_name(cache@.shape.dtype),
{
    format_name(cache.kv_dtype())
}

/// Applies a format plan to one layer. Accepts only what changes nothing: no exceptions, and the
/// format the layer already has. A plan that covers part of the layer is refused as heterogeneous,
/// and any other one as a re-encode that is not wired.
pub fn apply_format_plan(cache: &KVCache, plan: &KVFormatPlan, layer: usize, n_layers: usize) -> (r:
    Result<(), FormatApplyError>)
    ensures
        r is Ok <==> plan.overrides@.len() == 0 && plan.base.0@ == spec_format_name(
            cache@.shape.dtype,
        ),
        r matches Err(e) ==> e == (if exists|i: int|
            0 <= i < plan.overrides@.len() && partial_region(
                (#[trigger] plan.overrides@[i]).region,
                cache@.current_pos,
            ) {
            FormatApplyError::HeterogeneousUnsupported
        } else {
            FormatApplyError::UniformReencodeNotWired
        }),
{
    if plan.overrides.len() == 0 && plan.base.is_named(current_format_name(cache)) {
        return Ok(());
    }
    let resident: usize = cache.current_pos();
    let mut i: usize = 0;
    while i < plan.overrides.len()
        invariant
            i <= plan.overrides@.len(),
            resident == cache@.current_pos,
            forall|j: int|
                0 <= j < i ==> !partial_region((#[trigger] plan.overrides@[j]).region, resident),
            plan.overrides@.len() > 0 || plan.base.0@ != spec_format_name(cache@.shape.dtype),
        decreases plan.overrides@.len() - i,
    {
        let partial: bool = match &plan.overrides[i].region {
            KeepSpec::PerHead(_) => true,
            KeepSpec::LayerWide(positions) => positions.len() != resident,
        };
        if partial {
            assert(partial_region(plan.overrides@[i as int].region, resident));
            return Err(FormatApplyError::HeterogeneousUnsupported);
        }
        i = i + 1;
    }
    Err(FormatApplyError::UniformReencodeNotWired)
}

impl CacheShape {
    /// The shape in another typed format.
    pub open spec fn with_dtype(self, dtype: DType) -> CacheShape {
        CacheShape { dtype, opaque: None, ..self }
    }
}

/// One side of a layer re-encoded: the rows of the frame are the coder's, the rest are zero.
pub open spec fn side_reencoded<C: RowCodec>(
    codec: &C,
    before: CacheView,
    after: CacheView,
    side: Side,
) -> bool {
    &&& forall|h: int, p: int|
        0 <= h < before.shape.kv_heads && 0 <= p < before.current_pos ==> #[trigger] recoded(
            codec,
            before.plane(side)[h][p],
            before.shape.spec_row_format(),
            after.shape.spec_row_format(),
            after.plane(side)[h][p],
        )
    &&& forall|h: int, p: int|
        0 <= h < before.shape.kv_heads && before.current_pos <= p < before.shape.capacity
            ==> #[trigger] after.plane(side)[h][p] == Seq::new(
            after.shape.row_bytes()->0,
            |j: int| 0u8,
        )
}

/// A layer re-encoded: another format for the same tokens at the same positions.
pub open spec fn reencoded<C: RowCodec>(
    codec: &C,
    before: CacheView,
    target: DType,
    after: CacheView,
) -> bool {
    &&& after.shape == before.shape.with_dtype(target)
    &&& after.current_pos == before.current_pos
    &&& after.high_water_pos == before.high_water_pos
    &&& after.starts == before.starts
    &&& side_reencoded(codec, before, after, Side::Key)
    &&& side_reencoded(codec, before, after, Side::Value)
}

/// Re-encoded, a row of the frame, on this side, came back in another width.
pub open spec fn reencode_misfits<C: RowCodec>(
    codec: &C,
    c: CacheView,
    target: DType,
    side: Side,
) -> bool {
    let fresh = c.shape.with_dtype(target);
    exists|h: int, p: int|
        0 <= h < c.shape.kv_heads && 0 <= p < c.current_pos && #[trigger] misfits(
            codec,
            c.plane(side)[h][p],
            c.shape.spec_row_format(),
            fresh.spec_row_format(),
            fresh.row_bytes()->0,
        )
}

/// Why a re-encode failed: the new buffers would not fit, or the coder returned a row of the frame
/// in another width.
pub open spec fn reencode_failed<C: RowCodec>(
    codec: &C,
    c: CacheView,
    target: DType,
    e: KvError,
) -> bool {
    if c.shape.with_dtype(target).fits() {
        e == KvError::CodecShape && (reencode_misfits(codec, c, target, Side::Key)
            || reencode_misfits(codec, c, target, Side::Value))
    } else {
        e == KvError::CapacityExceeded
    }
}

/// Recodes one side's frame into `fresh`; `false` when the coder returned another width.
fn reencode_side<C: RowCodec>(
    cache: &KVCache,
    fresh: &mut KVCache,
    codec: &C,
    to: RowFormat,
    side: Side,
) -> (done: bool)
    requires
        cache.wf(),
        old(fresh).wf(),
        old(fresh)@.shape == cache@.shape.with_dtype(to.dtype),
        to == old(fresh)@.shape.spec_row_format(),
        old(fresh)@.plane(side) == Seq::new(
            cache@.shape.kv_heads as nat,
            |h: int|
                zero_plane(
                    cache@.shape.capacity as nat,
                    cache@.shape.with_dtype(to.dtype).row_bytes()->0,
                ),
        ),
    ensures
        final(fresh).wf(),
        final(fresh)@ == (match side {
            Side::Key => CacheView { keys: final(fresh)@.keys, ..old(fresh)@ },
            Side::Value => CacheView { values: final(fresh)@.values, ..old(fresh)@ },
        }),
        done ==> side_reencoded(codec, cache@, final(fresh)@, side),
        !done ==> reencode_misfits(codec, cache@, to.dtype, side),
{
    let ghost before = cache@;
    let ghost zero = Seq::new(old(fresh)@.shape.row_bytes()->0, |j: int| 0u8);
    let ghost start = fresh@;
    proof {
        cache.lemma_wf();
        fresh.lemma_wf();
    }
    let from: RowFormat = cache.shape().row_format();
    let width: usize = fresh.row_width();
    let heads: usize = cache.kv_heads();
    let frame: usize = cache.current_pos();
    let mut h: usize = 0;
    while h < heads
        invariant
            h <= heads,
            heads == before.shape.kv_heads,
            frame == before.current_pos,
            before == cache@,
            cache.wf(),
            before.wf(),
            fresh.wf(),
            from == before.shape.spec_row_format(),
            start == old(fresh)@,
            start.shape == before.shape.with_dtype(to.dtype),
            to == start.shape.spec_row_format(),
            start.shape.row_bytes() == Some(width as nat),
            zero == Seq::new(width as nat, |j: int| 0u8),
            fresh@ == (match side {
                Side::Key => CacheView { keys: fresh@.keys, ..start },
                Side::Value => CacheView { values: fresh@.values, ..start },
            }),
            fresh@.plane(side).len() == heads,
            forall|x: int, p: int|
                0 <= x < h && 0 <= p < frame ==> #[trigger] recoded(
                    codec,
                    before.plane(side)[x][p],
                    from,
                    to,
                    fresh@.plane(side)[x][p],
                ),
            forall|x: int, p: int|
                0 <= x < heads && 0 <= p < before.shape.capacity && (x >= h || p >= frame)
                    ==> #[trigger] fresh@.plane(side)[x][p] == zero,
        decreases heads - h,
    {
        let mut p: usize = 0;
        while p < frame
            invariant
                h < heads,
                p <= frame,
                heads == before.shape.kv_heads,
                frame == before.current_pos,
                before == cache@,
                cache.wf(),
                before.wf(),
                fresh.wf(),
                from == before.shape.spec_row_format(),
                start == old(fresh)@,
                start.shape == before.shape.with_dtype(to.dtype),
                to == start.shape.spec_row_format(),
                start.shape.row_bytes() == Some(width as nat),
                zero == Seq::new(width as nat, |j: int| 0u8),
                fresh@ == (match side {
                    Side::Key => CacheView { keys: fresh@.keys, ..start },
                    Side::Value => CacheView { values: fresh@.values, ..start },
                }),
                fresh@.plane(side).len() == heads,
                forall|x: int, q: int|
                    0 <= x <= h && 0 <= q < frame && (x < h || q < p) ==> #[trigger] recoded(
                        codec,
                        before.plane(side)[x][q],
                        from,
                        to,
                        fresh@.plane(side)[x][q],
                    ),
                forall|x: int, q: int|
                    0 <= x < heads && 0 <= q < before.shape.capacity && (x > h || q >= frame || (x
                        == h && q >= p)) ==> #[trigger] fresh@.plane(side)[x][q] == zero,
            decreases frame - p,
        {
            let row: Vec<u8> = cache.read_row(side, p, h);
            let out = codec.recode(&row, from, to);
            proof {
                fresh.lemma_wf();
                assert(call_ensures(C::recode, (codec, &row, from, to), out));
                assert(recoded(codec, before.plane(side)[h as int][p as int], from, to, out@));
            }
            if out.len() != width {
                assert(misfits(
                    codec,
                    before.plane(side)[h as int][p as int],
                    from,
                    to,
                    width as nat,
                ));
                return false;
            }
            let ghost mid = fresh@;
            fresh.write_row(side, p, h, &out);
            proof {
                assert(mid.plane(side)[h as int].len() == before.shape.capacity);
                assert forall|x: int, q: int|
                    0 <= x < heads && 0 <= q < before.shape.capacity && !(x == h && q
                        == p) implies #[trigger] fresh@.plane(side)[x][q] == mid.plane(
                    side,
                )[x][q] by {}
                assert(fresh@.plane(side)[h as int][p as int] == out@);
                assert forall|x: int, q: int|
                    0 <= x <= h && 0 <= q < frame && (x < h || q < p
                        + 1) implies #[trigger] recoded(
                    codec,
                    before.plane(side)[x][q],
                    from,
                    to,
                    fresh@.plane(side)[x][q],
                ) by {
                    if !(x == h && q == p) {
                        assert(fresh@.plane(side)[x][q] == mid.plane(side)[x][q]);
                        assert(recoded(
                            codec,
                            before.plane(side)[x][q],
                            from,
                            to,
                            mid.plane(side)[x][q],
                        ));
                    }
                }
            }
            p = p + 1;
        }
        h = h + 1;
    }
    true
}

/// Re-encodes a layer to a typed format: the coder's rows for the tokens of the frame, the same
/// cursors, and the other format. Refused, with nothing changed, when the new buffers would not fit
/// or the coder returns a row of another width.
pub fn reencode_cache<C: RowCodec>(cache: &mut KVCache, codec: &C, target: DType) -> (r: Result<
    (),
    KvError,
>)
    requires
        old(cache).wf(),
        old(cache)@.shape.opaque is None,
    ensures
        final(cache).wf(),
        r is Ok ==> reencoded(codec, old(cache)@, target, final(cache)@),
        r matches Err(e) ==> final(cache)@ == old(cache)@ && reencode_failed(
            codec,
            old(cache)@,
            target,
            e,
        ),
        r is Ok ==> old(cache)@.shape.with_dtype(target).fits(),
{
    let ghost before = cache@;
    proof {
        cache.lemma_wf();
    }
    let shape = cache.shape();
    let new_shape = CacheShape { dtype: target, opaque: None, ..shape };
    let mut fresh: KVCache = match KVCache::new(new_shape) {
        Some(c) => c,
        None => {
            return Err(KvError::CapacityExceeded);
        },
    };
    let to: RowFormat = new_shape.row_format();
    let ghost zeros = fresh@;
    if !reencode_side(cache, &mut fresh, codec, to, Side::Key) {
        return Err(KvError::CodecShape);
    }
    let ghost half = fresh@;
    if !reencode_side(cache, &mut fresh, codec, to, Side::Value) {
        return Err(KvError::CodecShape);
    }
    proof {
        assert(fresh@.keys == half.keys);
        assert(side_reencoded(codec, before, half, Side::Key));
        assert(side_reencoded(codec, before, fresh@, Side::Key)) by {
            assert forall|h: int, p: int|
                0 <= h < before.shape.kv_heads && 0 <= p
                    < before.current_pos implies #[trigger] recoded(
                codec,
                before.plane(Side::Key)[h][p],
                before.shape.spec_row_format(),
                fresh@.shape.spec_row_format(),
                fresh@.plane(Side::Key)[h][p],
            ) by {
                assert(half.plane(Side::Key)[h][p] == fresh@.plane(Side::Key)[h][p]);
            }
            assert forall|h: int, p: int|
                0 <= h < before.shape.kv_heads && before.current_pos <= p
                    < before.shape.capacity implies #[trigger] fresh@.plane(Side::Key)[h][p]
                == Seq::new(fresh@.shape.row_bytes()->0, |j: int| 0u8) by {
                assert(half.plane(Side::Key)[h][p] == fresh@.plane(Side::Key)[h][p]);
            }
        }
    }
    let ghost filled = fresh@;
    let pos: usize = cache.current_pos();
    let high: usize = cache.high_water_pos();
    let starts: Vec<usize> = cache.head_starts();
    fresh.raise_high_water(high);
    fresh.set_head_starts(pos, starts);
    proof {
        assert(fresh@.keys == filled.keys);
        assert(fresh@.values == filled.values);
        assert(fresh@.plane(Side::Key) == filled.plane(Side::Key));
        assert(fresh@.plane(Side::Value) == filled.plane(Side::Value));
    }
    *cache = fresh;
    Ok(())
}

/// Re-encoding and keeping commute: the rows that are left after both are the coder's rows for the
/// rows that a keep alone would have left.
pub proof fn lemma_reencode_commutes_with_keep<C: RowCodec>(
    codec: &C,
    before: CacheView,
    target: DType,
    after: CacheView,
    heads: Seq<Seq<usize>>,
    cursor: usize,
    side: Side,
    h: int,
    p: int,
)
    requires
        before.wf(),
        after.wf(),
        reencoded(codec, before, target, after),
        keep_heads_ok(before, heads, cursor),
        0 <= h < before.shape.kv_heads,
        cursor - heads[h].len() <= p < cursor,
    ensures
        recoded(
            codec,
            before.kept_at(heads, cursor).plane(side)[h][p],
            before.shape.spec_row_format(),
            after.shape.spec_row_format(),
            after.kept_at(heads, cursor).plane(side)[h][p],
        ),
{
    let at = heads[h][p - (cursor - heads[h].len())] as int;
    assert(keep_ok(heads[h], before.current_pos as int));
    assert(at < before.current_pos);
    assert(before.plane(side)[h].len() == before.shape.capacity);
    assert(after.plane(side)[h].len() == after.shape.capacity);
    assert(side_reencoded(codec, before, after, side));
    assert(recoded(
        codec,
        before.plane(side)[h][at],
        before.shape.spec_row_format(),
        after.shape.spec_row_format(),
        after.plane(side)[h][at],
    ));
    assert(before.kept_at(heads, cursor).plane(side)[h][p] == before.plane(side)[h][at]);
    assert(after.kept_at(heads, cursor).plane(side)[h][p] == after.plane(side)[h][at]);
}

/// What a re-encode leaves: the same tokens at the same positions of the same heads, each row as the
/// coder returned it for the row there was; the room behind them is zero. Only the stored format
/// changes.
pub proof fn lemma_a_reencode_recodes_every_row<C: RowCodec>(
    codec: &C,
    before: CacheView,
    target: DType,
    after: CacheView,
    side: Side,
    h: int,
    p: int,
)
    requires
        reencoded(codec, before, target, after),
        0 <= h < before.shape.kv_heads,
        0 <= p < before.shape.capacity,
    ensures
        after.shape == (CacheShape { dtype: target, opaque: None, ..before.shape }),
        after.current_pos == before.current_pos,
        after.high_water_pos == before.high_water_pos,
        after.starts == before.starts,
        p < before.current_pos ==> recoded(
            codec,
            before.plane(side)[h][p],
            (RowFormat {
                dtype: before.shape.dtype,
                opaque: before.shape.opaque,
                head_dim: before.shape.head_dim,
            }),
            (RowFormat { dtype: target, opaque: None, head_dim: before.shape.head_dim }),
            after.plane(side)[h][p],
        ),
        p >= before.current_pos ==> after.plane(side)[h][p].len() == after.shape.row_bytes()->0
            && forall|j: int|
            0 <= j < after.plane(side)[h][p].len() ==> #[trigger] after.plane(side)[h][p][j] == 0,
{
    assert(side_reencoded(codec, before, after, side));
    if p < before.current_pos {
        assert(recoded(
            codec,
            before.plane(side)[h][p],
            before.shape.spec_row_format(),
            after.shape.spec_row_format(),
            after.plane(side)[h][p],
        ));
    } else {
        assert(after.plane(side)[h][p] == Seq::new(after.shape.row_bytes()->0, |j: int| 0u8));
    }
}

/// Why a re-encode fails: the new rows would not fit, or some row of the frame came back in another width
/// than the new format's.
pub proof fn lemma_why_a_reencode_fails<C: RowCodec>(codec: &C, c: CacheView, target: DType, e: KvError)
    requires
        reencode_failed(codec, c, target, e),
    ensures
        e == KvError::CapacityExceeded <==> !c.shape.with_dtype(target).fits(),
        e != KvError::CapacityExceeded ==> e == KvError::CodecShape && exists|h: int, p: int, side: Side, out: Seq<u8>|
            {
                &&& 0 <= h < c.shape.kv_heads
                &&& 0 <= p < c.current_pos
                &&& out.len() != c.shape.with_dtype(target).row_bytes()->0
                &&& #[trigger] crate::codec::recoded(
                    codec,
                    c.plane(side)[h][p],
                    c.shape.spec_row_format(),
                    c.shape.with_dtype(target).spec_row_format(),
                    out,
                )
            },
{
    let fresh = c.shape.with_dtype(target);
    if fresh.fits() {
        let side = if reencode_misfits(codec, c, target, Side::Key) {
            Side::Key
        } else {
            Side::Value
        };
        assert(reencode_misfits(codec, c, target, side));
        let (h, p) = choose|h: int, p: int|
            0 <= h < c.shape.kv_heads && 0 <= p < c.current_pos && #[trigger] misfits(
                codec,
                c.plane(side)[h][p],
                c.shape.spec_row_format(),
                fresh.spec_row_format(),
                fresh.row_bytes()->0,
            );
        let out = choose|out: Seq<u8>|
            #[trigger] crate::codec::recoded(
                codec,
                c.plane(side)[h][p],
                c.shape.spec_row_format(),
                fresh.spec_row_format(),
                out,
            ) && out.len() != fresh.row_bytes()->0;
        assert(crate::codec::recoded(
            codec,
            c.plane(side)[h][p],
            c.shape.spec_row_format(),
            fresh.spec_row_format(),
            out,
        ));
    }
}

/// Which format plans a layer takes: those that ask for the format it has and for no other anywhere. A plan
/// for a part of the layer, some heads or not all positions, is told from one for all of it.
pub proof fn lemma_which_format_plans_are_taken(
    cache: KVCache,
    plan: KVFormatPlan,
    layer: usize,
    n_layers: usize,
    r: Result<(), FormatApplyError>,
    i: int,
)
    requires
        call_ensures(apply_format_plan, (&cache, &plan, layer, n_layers), r),
    ensures
        r is Ok <==> plan.overrides@.len() == 0 && plan.base.0@ == spec_format_name(
            cache@.shape.dtype,
        ),
        0 <= i < plan.overrides@.len() && plan.overrides@[i].region is PerHead ==> r == Err::<
            (),
            FormatApplyError,
        >(FormatApplyError::HeterogeneousUnsupported),
        0 <= i < plan.overrides@.len() ==> (plan.overrides@[i].region matches KeepSpec::LayerWide(list)
            && list@.len() != cache@.current_pos ==> r == Err::<(), FormatApplyError>(
            FormatApplyError::HeterogeneousUnsupported,
        )),
        plan.overrides@.len() == 0 && plan.base.0@ != spec_format_name(cache@.shape.dtype) ==> r
            == Err::<(), FormatApplyError>(FormatApplyError::UniformReencodeNotWired),
{
    if 0 <= i < plan.overrides@.len() {
        let region = plan.overrides@[i].region;
        assert(partial_region(region, cache@.current_pos) || !partial_region(
            region,
            cache@.current_pos,
        ));
    }
}

} // verus!
