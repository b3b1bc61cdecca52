//! Weighted merges of evicted tokens into retained ones, in place, before a compaction.

use crate::codec::{merged, misblends, RowCodec, RowFormat};
use crate::dtype::DType;
use crate::kv_cache::{CacheShape, CacheView, KVCache, KvError, Side};
use vstd::prelude::*;

verus! {

/// Which sides of a token a merge blends.
#[derive(Clone, Copy, Debug, PartialEq, Eq, Structural)]
pub enum MergeAxis {
    Both,
    KeyOnly,
    ValueOnly,
}

/// Blends the tokens of `from` into the token `into`. Weights are the bit patterns of
/// single-precision numbers.
pub struct WeightedMerge {
    pub into: usize,
    pub into_weight: u32,
    pub from: Vec<(usize, u32)>,
    pub apply_to: MergeAxis,
}

/// A merge as contracts speak of it.
#[verifier::ext_equal]
pub struct MergeView {
    pub into: usize,
    pub into_weight: u32,
    pub from: Seq<(usize, u32)>,
    pub apply_to: MergeAxis,
}

impl View for WeightedMerge {
    type V = MergeView;

    open spec fn view(&self) -> MergeView {
        MergeView {
            into: self.into,
            into_weight: self.into_weight,
            from: self.from@,
            apply_to: self.apply_to,
        }
    }
}

/// The merges of a list, as contracts speak of them.
pub open spec fn merge_views(merges: Seq<WeightedMerge>) -> Seq<MergeView> {
    Seq::new(merges.len(), |i: int| merges[i]@)
}

impl MergeView {
    /// Whether the merge writes this side.
    pub open spec fn writes(self, side: Side) -> bool {
        match side {
            Side::Key => self.apply_to != MergeAxis::ValueOnly,
            Side::Value => self.apply_to != MergeAxis::KeyOnly,
        }
    }

    /// Every position the merge names is below `limit`.
    pub open spec fn below(self, limit: int) -> bool {
        &&& self.into < limit
        &&& forall|i: int| 0 <= i < self.from.len() ==> (#[trigger] self.from[i]).0 < limit
    }

    /// The weights of the tokens merged in.
    pub open spec fn weights(self) -> Seq<u32> {
        Seq::new(self.from.len(), |i: int| self.from[i].1)
    }

    /// The rows merged in, of one head.
    pub open spec fn sources(self, rows: Seq<Seq<u8>>) -> Seq<Seq<u8>> {
        Seq::new(self.from.len(), |i: int| rows[self.from[i].0 as int])
    }
}

impl CacheShape {
    /// The stored format has a merge: a typed one, or the bytes of a block codec.
    pub open spec fn mergeable(self) -> bool {
        self.opaque is Some || self.dtype == DType::F32 || self.dtype == DType::F16 || self.dtype
            == DType::Q4_0
    }
}

/// One head's rows after a merge: the target row is the coder's blend of the rows before it, and
/// every other row keeps its bytes. A merge from nothing, on the other side, or in a format without
/// arithmetic changes nothing.
pub open spec fn head_merged<C: RowCodec>(
    codec: &C,
    shape: CacheShape,
    m: MergeView,
    side: Side,
    before: Seq<Seq<u8>>,
    after: Seq<Seq<u8>>,
) -> bool {
    if m.from.len() == 0 || !m.writes(side) || !shape.mergeable() {
        after == before
    } else {
        &&& after == before.update(m.into as int, after[m.into as int])
        &&& merged(
            codec,
            shape.spec_row_format(),
            before[m.into as int],
            m.into_weight,
            m.sources(before),
            m.weights(),
            after[m.into as int],
        )
    }
}

/// One merge takes `before` to `after`: every head blends its own rows, and nothing but rows
/// changes.
pub open spec fn merge_applied<C: RowCodec>(
    codec: &C,
    m: MergeView,
    before: CacheView,
    after: CacheView,
) -> bool {
    &&& after == (CacheView { keys: after.keys, values: after.values, ..before })
    &&& after.keys.len() == before.keys.len()
    &&& after.values.len() == before.values.len()
    &&& forall|h: int|
        0 <= h < before.shape.kv_heads ==> #[trigger] head_merged(
            codec,
            before.shape,
            m,
            Side::Key,
            before.keys[h],
            after.keys[h],
        )
    &&& forall|h: int|
        0 <= h < before.shape.kv_heads ==> #[trigger] head_merged(
            codec,
            before.shape,
            m,
            Side::Value,
            before.values[h],
            after.values[h],
        )
}

/// The merges take `before` to `after`, one after the other in list order.
pub open spec fn merges_applied<C: RowCodec>(
    codec: &C,
    merges: Seq<MergeView>,
    before: CacheView,
    after: CacheView,
) -> bool
    decreases merges.len(),
{
    if merges.len() == 0 {
        after == before
    } else {
        exists|mid: CacheView|
            merges_applied(codec, merges.drop_last(), before, mid) && #[trigger] merge_applied(
                codec,
                merges.last(),
                mid,
                after,
            )
    }
}

/// The heads below `h` are merged on this side, and the others are not.
pub open spec fn heads_merged<C: RowCodec>(
    codec: &C,
    m: MergeView,
    side: Side,
    h: int,
    before: CacheView,
    after: CacheView,
) -> bool {
    &&& after.plane(side).len() == before.plane(side).len()
    &&& forall|g: int|
        0 <= g < h ==> #[trigger] head_merged(
            codec,
            before.shape,
            m,
            side,
            before.plane(side)[g],
            after.plane(side)[g],
        )
    &&& forall|g: int|
        h <= g < before.shape.kv_heads ==> #[trigger] after.plane(side)[g] == before.plane(side)[g]
}

/// For the blend of one head the coder returned a row of another width.
pub open spec fn blend_misfits<C: RowCodec>(
    codec: &C,
    c: CacheView,
    m: MergeView,
    side: Side,
    h: int,
) -> bool {
    misblends(
        codec,
        c.shape.spec_row_format(),
        c.plane(side)[h][m.into as int],
        m.into_weight,
        m.sources(c.plane(side)[h]),
        m.weights(),
        c.shape.row_bytes()->0,
    )
}

/// A merge stopped at head `h` of a side, where the coder returned a row of another width: the heads
/// before it, keys before values, are merged, and nothing else changed.
pub open spec fn stopped_at<C: RowCodec>(
    codec: &C,
    m: MergeView,
    side: Side,
    h: int,
    before: CacheView,
    after: CacheView,
) -> bool {
    let heads = before.shape.kv_heads as int;
    &&& before.shape.mergeable()
    &&& m.from.len() > 0
    &&& m.writes(side)
    &&& 0 <= h < heads
    &&& blend_misfits(codec, before, m, side, h)
    &&& after == (CacheView { keys: after.keys, values: after.values, ..before })
    &&& heads_merged(
        codec,
        m,
        Side::Key,
        if side == Side::Key {
            h
        } else {
            heads
        },
        before,
        after,
    )
    &&& heads_merged(
        codec,
        m,
        Side::Value,
        if side == Side::Key {
            0
        } else {
            h
        },
        before,
        after,
    )
}

/// The merges stopped in one of them: those before it are applied.
pub open spec fn merges_stopped<C: RowCodec>(
    codec: &C,
    merges: Seq<MergeView>,
    before: CacheView,
    after: CacheView,
) -> bool {
    exists|i: int, mid: CacheView, side: Side, h: int|
        {
            &&& 0 <= i < merges.len()
            &&& merges_applied(codec, merges.take(i), before, mid)
            &&& #[trigger] stopped_at(codec, merges[i], side, h, mid, after)
        }
}

/// The blend that a merge stores for one head, or `None` when the coder returned another width.
fn merged_row<C: RowCodec>(
    codec: &C,
    cache: &KVCache,
    m: &WeightedMerge,
    weights: &Vec<u32>,
    side: Side,
    head: usize,
) -> (r: Option<Vec<u8>>)
    requires
        cache.wf(),
        head < cache@.shape.kv_heads,
        m@.below(cache@.shape.capacity as int),
        weights@ == m@.weights(),
    ensures
        r matches Some(row) ==> row@.len() == cache@.shape.row_bytes()->0 && merged(
            codec,
            cache@.shape.spec_row_format(),
            cache@.plane(side)[head as int][m.into as int],
            m.into_weight,
            m@.sources(cache@.plane(side)[head as int]),
            m@.weights(),
            row@,
        ),
        r is None ==> blend_misfits(codec, cache@, m@, side, head as int),
{
    let ghost rows = cache@.plane(side)[head as int];
    let n: usize = m.from.len();
    let into: Vec<u8> = cache.read_row(side, m.into, head);
    let mut from: Vec<Vec<u8>> = Vec::with_capacity(n);
    let mut i: usize = 0;
    while i < n
        invariant
            i <= n,
            n == m.from@.len(),
            cache.wf(),
            head < cache@.shape.kv_heads,
            m@.below(cache@.shape.capacity as int),
            rows == cache@.plane(side)[head as int],
            from@.len() == i,
            forall|x: int| 0 <= x < i ==> (#[trigger] from@[x])@ == rows[m.from@[x].0 as int],
        decreases n - i,
    {
        assert(m@.from[i as int].0 < cache@.shape.capacity);
        from.push(cache.read_row(side, m.from[i].0, head));
        i = i + 1;
    }
    let width: usize = into.len();
    let format: RowFormat = cache.shape().row_format();
    let out = codec.merge(format, &into, m.into_weight, &from, weights);
    proof {
        assert forall|x: int| 0 <= x < n implies #[trigger] from.deep_view()[x] == m@.sources(
            rows,
        )[x] by {
            assert(from.deep_view()[x] =~= from@[x]@);
        }
        assert(from.deep_view() =~= m@.sources(rows));
        assert(call_ensures(C::merge, (codec, format, &into, m.into_weight, &from, weights), out));
        assert(merged(
            codec,
            format,
            into@,
            m.into_weight,
            m@.sources(rows),
            m@.weights(),
            out@,
        ));
    }
    if out.len() == width {
        Some(out)
    } else {
        None
    }
}

/// Merges one side of every head from `head` 0 up.
fn merge_side<C: RowCodec>(
    cache: &mut KVCache,
    codec: &C,
    m: &WeightedMerge,
    weights: &Vec<u32>,
    side: Side,
) -> (r: Result<(), KvError>)
    requires
        old(cache).wf(),
        old(cache)@.shape.mergeable(),
        m@.below(old(cache)@.shape.capacity as int),
        m@.from.len() > 0,
        m@.writes(side),
        weights@ == m@.weights(),
    ensures
        final(cache).wf(),
        final(cache)@.shape == old(cache)@.shape,
        final(cache)@.current_pos == old(cache)@.current_pos,
        r is Ok ==> {
            let before = old(cache)@;
            let after = final(cache)@;
            &&& after == (match side {
                Side::Key => CacheView { keys: after.keys, ..before },
                Side::Value => CacheView { values: after.values, ..before },
            })
            &&& forall|h: int|
                0 <= h < before.shape.kv_heads ==> #[trigger] head_merged(
                    codec,
                    before.shape,
                    m@,
                    side,
                    before.plane(side)[h],
                    after.plane(side)[h],
                )
        },
        r matches Err(e) ==> e == KvError::CodecShape && exists|h: int|
            {
                let before = old(cache)@;
                let after = final(cache)@;
                &&& 0 <= h < before.shape.kv_heads
                &&& #[trigger] blend_misfits(codec, old(cache)@, m@, side, h)
                &&& after == (match side {
                    Side::Key => CacheView { keys: after.keys, ..before },
                    Side::Value => CacheView { values: after.values, ..before },
                })
                &&& heads_merged(codec, m@, side, h, before, after)
            },
{
    let ghost before = cache@;
    proof {
        cache.lemma_wf();
    }
    let n: usize = cache.kv_heads();
    let mut h: usize = 0;
    while h < n
        invariant
            h <= n,
            n == before.shape.kv_heads,
            before == old(cache)@,
            before.wf(),
            cache.wf(),
            cache@.shape == before.shape,
            cache@.current_pos == before.current_pos,
            before.shape.mergeable(),
            m@.below(before.shape.capacity as int),
            m@.from.len() > 0,
            m@.writes(side),
            weights@ == m@.weights(),
            cache@ == (match side {
                Side::Key => CacheView { keys: cache@.keys, ..before },
                Side::Value => CacheView { values: cache@.values, ..before },
            }),
            cache@.plane(side).len() == n,
            forall|x: int|
                h <= x < n ==> #[trigger] cache@.plane(side)[x] == before.plane(side)[x],
            forall|x: int|
                0 <= x < h ==> #[trigger] head_merged(
                    codec,
                    before.shape,
                    m@,
                    side,
                    before.plane(side)[x],
                    cache@.plane(side)[x],
                ),
        decreases n - h,
    {
        let ghost mid = cache@;
        let row: Vec<u8> = match merged_row(codec, cache, m, weights, side, h) {
            Some(row) => row,
            None => {
                proof {
                    assert(mid.plane(side)[h as int] == before.plane(side)[h as int]);
                    assert(blend_misfits(codec, before, m@, side, h as int));
                    assert(heads_merged(codec, m@, side, h as int, before, cache@));
                }
                return Err(KvError::CodecShape);
            },
        };
        cache.write_row(side, m.into, h, &row);
        proof {
            let rows = before.plane(side)[h as int];
            assert(mid.plane(side)[h as int] == rows);
            assert(rows.len() == before.shape.capacity);
            assert(cache@.plane(side)[h as int] == rows.update(m.into as int, row@));
            assert(cache@.plane(side)[h as int][m.into as int] == row@);
            assert(head_merged(
                codec,
                before.shape,
                m@,
                side,
                rows,
                cache@.plane(side)[h as int],
            ));
            assert forall|x: int| 0 <= x < h + 1 implies #[trigger] head_merged(
                codec,
                before.shape,
                m@,
                side,
                before.plane(side)[x],
                cache@.plane(side)[x],
            ) by {
                if x < h {
                    assert(cache@.plane(side)[x] == mid.plane(side)[x]);
                    assert(head_merged(
                        codec,
                        before.shape,
                        m@,
                        side,
                        before.plane(side)[x],
                        mid.plane(side)[x],
                    ));
                }
            }
        }
        h = h + 1;
    }
    Ok(())
}

/// Applies `merges` in place, in list order: each blends, per head, the rows as the merges before it
/// left them. Fails only when the coder returns a blend in another width; the rows written until
/// then stay.
pub fn apply_weighted_merges<C: RowCodec>(
    cache: &mut KVCache,
    codec: &C,
    merges: &Vec<WeightedMerge>,
) -> (r: Result<(), KvError>)
    requires
        old(cache).wf(),
        forall|i: int|
            0 <= i < merges@.len() ==> (#[trigger] merges@[i])@.below(
                old(cache)@.shape.capacity as int,
            ),
    ensures
        final(cache).wf(),
        final(cache)@.shape == old(cache)@.shape,
        final(cache)@.current_pos == old(cache)@.current_pos,
        r is Ok ==> merges_applied(codec, merge_views(merges@), old(cache)@, final(cache)@),
        r matches Err(e) ==> e == KvError::CodecShape && merges_stopped(
            codec,
            merge_views(merges@),
            old(cache)@,
            final(cache)@,
        ),
        merges@.len() == 0 ==> r is Ok,
{
    let ghost before = cache@;
    let ghost views = merge_views(merges@);
    proof {
        cache.lemma_wf();
        assert(views.take(0).len() == 0);
    }
    let shape = cache.shape();
    let can_merge: bool = shape.opaque.is_some() || shape.dtype == DType::F32 || shape.dtype
        == DType::F16 || shape.dtype == DType::Q4_0;
    let mut i: usize = 0;
    while i < merges.len()
        invariant
            i <= merges@.len(),
            views == merge_views(merges@),
            cache.wf(),
            before.wf(),
            cache@.shape == before.shape,
            cache@.current_pos == before.current_pos,
            before == old(cache)@,
            can_merge == before.shape.mergeable(),
            merges_applied(codec, views.take(i as int), before, cache@),
            forall|x: int|
                0 <= x < merges@.len() ==> (#[trigger] merges@[x])@.below(
                    before.shape.capacity as int,
                ),
        decreases merges@.len() - i,
    {
        let m = &merges[i];
        let ghost start = cache@;
        let ghost mut half = cache@;
        proof {
            cache.lemma_wf();
        }
        if can_merge && m.from.len() > 0 {
            let weights = merge_weights(m);
            if m.apply_to != MergeAxis::ValueOnly {
                match merge_side(cache, codec, m, &weights, Side::Key) {
                    Ok(()) => {},
                    Err(e) => {
                        proof {
                            let h = choose|h: int|
                                0 <= h < start.shape.kv_heads && #[trigger] blend_misfits(
                                    codec,
                                    start,
                                    m@,
                                    Side::Key,
                                    h,
                                ) && heads_merged(codec, m@, Side::Key, h, start, cache@);
                            assert(heads_merged(codec, m@, Side::Value, 0, start, cache@));
                            assert(views[i as int] == m@);
                            assert(stopped_at(codec, views[i as int], Side::Key, h, start, cache@));
                        }
                        return Err(e);
                    },
                }
            }
            proof {
                cache.lemma_wf();
                half = cache@;
                assert(half.plane(Side::Key).len() == start.plane(Side::Key).len());
            }
            if m.apply_to != MergeAxis::KeyOnly {
                match merge_side(cache, codec, m, &weights, Side::Value) {
                    Ok(()) => {},
                    Err(e) => {
                        proof {
                            let h = choose|h: int|
                                0 <= h < half.shape.kv_heads && #[trigger] blend_misfits(
                                    codec,
                                    half,
                                    m@,
                                    Side::Value,
                                    h,
                                ) && heads_merged(codec, m@, Side::Value, h, half, cache@);
                            lemma_stopped_on_values(codec, m@, h, start, half, cache@);
                            assert(views[i as int] == m@);
                            assert(stopped_at(codec, views[i as int], Side::Value, h, start, cache@));
                        }
                        return Err(e);
                    },
                }
            }
        }
        proof {
            cache.lemma_wf();
            let after = cache@;
            assert forall|h: int| 0 <= h < start.shape.kv_heads implies #[trigger] head_merged(
                codec,
                start.shape,
                m@,
                Side::Key,
                start.keys[h],
                after.keys[h],
            ) by {
                assert(after.keys == half.keys);
                assert(start.plane(Side::Key)[h] == start.keys[h]);
                assert(half.plane(Side::Key)[h] == half.keys[h]);
            }
            assert forall|h: int| 0 <= h < start.shape.kv_heads implies #[trigger] head_merged(
                codec,
                start.shape,
                m@,
                Side::Value,
                start.values[h],
                after.values[h],
            ) by {
                assert(start.values == half.values);
                assert(half.plane(Side::Value)[h] == half.values[h]);
                assert(after.plane(Side::Value)[h] == after.values[h]);
            }
            assert(after =~= (CacheView { keys: after.keys, values: after.values, ..start }));
            assert(merge_applied(codec, m@, start, after));
            let done = views.take(i + 1);
            assert(done.drop_last() =~= views.take(i as int));
            assert(done.last() == m@);
            assert(merges_applied(codec, done.drop_last(), before, start));
        }
        i = i + 1;
    }
    proof {
        assert(views.take(i as int) =~= views);
    }
    Ok(())
}

/// A merge whose keys are done stops on its values.
proof fn lemma_stopped_on_values<C: RowCodec>(
    codec: &C,
    m: MergeView,
    h: int,
    start: CacheView,
    half: CacheView,
    after: CacheView,
)
    requires
        start.shape.mergeable(),
        m.from.len() > 0,
        m.writes(Side::Value),
        0 <= h < start.shape.kv_heads,
        half == (CacheView { keys: half.keys, ..start }),
        half.keys.len() == start.keys.len(),
        forall|g: int|
            0 <= g < start.shape.kv_heads ==> #[trigger] head_merged(
                codec,
                start.shape,
                m,
                Side::Key,
                start.plane(Side::Key)[g],
                half.plane(Side::Key)[g],
            ),
        blend_misfits(codec, half, m, Side::Value, h),
        after == (CacheView { values: after.values, ..half }),
        heads_merged(codec, m, Side::Value, h, half, after),
    ensures
        stopped_at(codec, m, Side::Value, h, start, after),
{
    assert(half.plane(Side::Value) == start.plane(Side::Value));
    assert(after.plane(Side::Key) == half.plane(Side::Key));
    assert forall|g: int| 0 <= g < h implies #[trigger] head_merged(
        codec,
        start.shape,
        m,
        Side::Value,
        start.plane(Side::Value)[g],
        after.plane(Side::Value)[g],
    ) by {
        assert(head_merged(
            codec,
            half.shape,
            m,
            Side::Value,
            half.plane(Side::Value)[g],
            after.plane(Side::Value)[g],
        ));
    }
}

/// The weights of a merge's sources.
fn merge_weights(m: &WeightedMerge) -> (w: Vec<u32>)
    ensures
        w@ == m@.weights(),
{
    let n: usize = m.from.len();
    let mut w: Vec<u32> = Vec::with_capacity(n);
    let mut i: usize = 0;
    while i < n
        invariant
            i <= n,
            n == m.from@.len(),
            w@.len() == i,
            forall|x: int| 0 <= x < i ==> #[trigger] w@[x] == m.from@[x].1,
        decreases n - i,
    {
        w.push(m.from[i].1);
        i = i + 1;
    }
    proof {
        assert(w@ =~= m@.weights());
    }
    w
}

/// Merges touch only their target rows: a row that no merge targets keeps its bytes.
pub proof fn lemma_merges_touch_only_targets<C: RowCodec>(
    codec: &C,
    merges: Seq<MergeView>,
    before: CacheView,
    after: CacheView,
    h: int,
    p: int,
)
    requires
        before.wf(),
        merges_applied(codec, merges, before, after),
        forall|i: int| 0 <= i < merges.len() ==> (#[trigger] merges[i]).into != p,
        forall|i: int|
            0 <= i < merges.len() ==> (#[trigger] merges[i]).below(before.shape.capacity as int),
        0 <= h < before.shape.kv_heads,
        0 <= p < before.shape.capacity,
    ensures
        after.shape == before.shape,
        after.current_pos == before.current_pos,
        after.starts == before.starts,
        after.keys[h].len() == before.keys[h].len(),
        after.values[h].len() == before.values[h].len(),
        after.keys[h][p] == before.keys[h][p],
        after.values[h][p] == before.values[h][p],
    decreases merges.len(),
{
    if merges.len() > 0 {
        let init = merges.drop_last();
        let mid = choose|mid: CacheView|
            merges_applied(codec, init, before, mid) && #[trigger] merge_applied(
                codec,
                merges.last(),
                mid,
                after,
            );
        assert forall|i: int| 0 <= i < init.len() implies (#[trigger] init[i]).into != p && init[i].below(
            before.shape.capacity as int,
        ) by {
            assert(init[i] == merges[i]);
        }
        lemma_merges_touch_only_targets(codec, init, before, mid, h, p);
        let m = merges.last();
        assert(m == merges[merges.len() - 1]);
        assert(head_merged(codec, mid.shape, m, Side::Key, mid.keys[h], after.keys[h]));
        assert(head_merged(codec, mid.shape, m, Side::Value, mid.values[h], after.values[h]));
    }
}

/// Merges that stop touch only their target rows too: a row that no merge targets keeps its bytes, and
/// nothing moves.
pub proof fn lemma_stopped_merges_touch_only_targets<C: RowCodec>(
    codec: &C,
    merges: Seq<MergeView>,
    before: CacheView,
    after: CacheView,
    h: int,
    p: int,
)
    requires
        before.wf(),
        merges_stopped(codec, merges, before, after),
        forall|i: int| 0 <= i < merges.len() ==> (#[trigger] merges[i]).into != p,
        forall|i: int|
            0 <= i < merges.len() ==> (#[trigger] merges[i]).below(before.shape.capacity as int),
        0 <= h < before.shape.kv_heads,
        0 <= p < before.shape.capacity,
    ensures
        after.shape == before.shape,
        after.current_pos == before.current_pos,
        after.high_water_pos == before.high_water_pos,
        after.starts == before.starts,
        after.keys[h][p] == before.keys[h][p],
        after.values[h][p] == before.values[h][p],
{
    let (i, mid, side, g) = choose|i: int, mid: CacheView, side: Side, g: int|
        {
            &&& 0 <= i < merges.len()
            &&& merges_applied(codec, merges.take(i), before, mid)
            &&& #[trigger] stopped_at(codec, merges[i], side, g, mid, after)
        };
    let done = merges.take(i);
    assert forall|x: int| 0 <= x < done.len() implies (#[trigger] done[x]).into != p && done[x].below(
        before.shape.capacity as int,
    ) by {
        assert(done[x] == merges[x]);
    }
    lemma_merges_touch_only_targets(codec, done, before, mid, h, p);
    lemma_merges_move_nothing(codec, done, before, mid);
    let m = merges[i];
    assert(after.keys[h] == after.plane(Side::Key)[h]);
    assert(after.values[h] == after.plane(Side::Value)[h]);
    assert(mid.keys[h] == mid.plane(Side::Key)[h]);
    assert(mid.values[h] == mid.plane(Side::Value)[h]);
    if side == Side::Value || h < g {
        assert(head_merged(codec, mid.shape, m, Side::Key, mid.keys[h], after.keys[h]));
    }
    if side == Side::Value && h < g {
        assert(head_merged(codec, mid.shape, m, Side::Value, mid.values[h], after.values[h]));
    }
}

/// Merges move nothing: the shape, the cursors and the heads' starts stay.
pub proof fn lemma_merges_move_nothing<C: RowCodec>(
    codec: &C,
    merges: Seq<MergeView>,
    before: CacheView,
    after: CacheView,
)
    requires
        merges_applied(codec, merges, before, after),
    ensures
        after.shape == before.shape,
        after.current_pos == before.current_pos,
        after.high_water_pos == before.high_water_pos,
        after.starts == before.starts,
    decreases merges.len(),
{
    if merges.len() > 0 {
        let mid = choose|mid: CacheView|
            merges_applied(codec, merges.drop_last(), before, mid) && #[trigger] merge_applied(
                codec,
                merges.last(),
                mid,
                after,
            );
        lemma_merges_move_nothing(codec, merges.drop_last(), before, mid);
    }
}

/// A merge of one side only leaves the other side as it was.
pub proof fn lemma_merge_axis_spares_the_other_side<C: RowCodec>(
    codec: &C,
    m: MergeView,
    before: CacheView,
    after: CacheView,
)
    requires
        before.wf(),
        merge_applied(codec, m, before, after),
    ensures
        m.apply_to == MergeAxis::KeyOnly ==> after.values == before.values,
        m.apply_to == MergeAxis::ValueOnly ==> after.keys == before.keys,
{
    if m.apply_to == MergeAxis::KeyOnly {
        assert forall|h: int| 0 <= h < before.shape.kv_heads implies #[trigger] after.values[h]
            == before.values[h] by {
            assert(head_merged(
                codec,
                before.shape,
                m,
                Side::Value,
                before.values[h],
                after.values[h],
            ));
        }
        assert(after.values =~= before.values);
    }
    if m.apply_to == MergeAxis::ValueOnly {
        assert forall|h: int| 0 <= h < before.shape.kv_heads implies #[trigger] after.keys[h]
            == before.keys[h] by {
            assert(head_merged(codec, before.shape, m, Side::Key, before.keys[h], after.keys[h]));
        }
        assert(after.keys =~= before.keys);
    }
}

/// A merge of both sides is a merge of the keys and then a merge of the values, and no other.
pub proof fn lemma_both_sides_are_one_after_the_other<C: RowCodec>(
    codec: &C,
    m: MergeView,
    before: CacheView,
    after: CacheView,
)
    requires
        before.wf(),
        m.apply_to == MergeAxis::Both,
    ensures
        merge_applied(codec, m, before, after) <==> {
            let keys_first = CacheView { keys: after.keys, ..before };
            &&& merge_applied(
                codec,
                MergeView { apply_to: MergeAxis::KeyOnly, ..m },
                before,
                keys_first,
            )
            &&& merge_applied(
                codec,
                MergeView { apply_to: MergeAxis::ValueOnly, ..m },
                keys_first,
                after,
            )
        },
{
    let on_keys = MergeView { apply_to: MergeAxis::KeyOnly, ..m };
    let on_values = MergeView { apply_to: MergeAxis::ValueOnly, ..m };
    let half = CacheView { keys: after.keys, ..before };
    assert(on_keys.weights() =~= m.weights());
    assert(on_values.weights() =~= m.weights());
    assert forall|rows: Seq<Seq<u8>>| #[trigger] on_keys.sources(rows) == m.sources(rows) by {
        assert(on_keys.sources(rows) =~= m.sources(rows));
    }
    assert forall|rows: Seq<Seq<u8>>| #[trigger] on_values.sources(rows) == m.sources(rows) by {
        assert(on_values.sources(rows) =~= m.sources(rows));
    }
    assert forall|h: int| 0 <= h < before.shape.kv_heads implies #[trigger] head_merged(
        codec,
        before.shape,
        m,
        Side::Key,
        before.keys[h],
        after.keys[h],
    ) == head_merged(codec, before.shape, on_keys, Side::Key, before.keys[h], half.keys[h]) by {}
    assert forall|h: int| 0 <= h < before.shape.kv_heads implies #[trigger] head_merged(
        codec,
        before.shape,
        m,
        Side::Value,
        before.values[h],
        after.values[h],
    ) == head_merged(codec, before.shape, on_values, Side::Value, half.values[h], after.values[h]) by {}
    if merge_applied(codec, m, before, after) {
        assert forall|h: int| 0 <= h < before.shape.kv_heads implies #[trigger] head_merged(
            codec,
            before.shape,
            on_keys,
            Side::Key,
            before.keys[h],
            half.keys[h],
        ) by {
            assert(head_merged(codec, before.shape, m, Side::Key, before.keys[h], after.keys[h]));
        }
        assert forall|h: int| 0 <= h < half.shape.kv_heads implies #[trigger] head_merged(
            codec,
            half.shape,
            on_values,
            Side::Value,
            half.values[h],
            after.values[h],
        ) by {
            assert(head_merged(
                codec,
                before.shape,
                m,
                Side::Value,
                before.values[h],
                after.values[h],
            ));
        }
        assert(after == (CacheView { keys: after.keys, values: after.values, ..half }));
        assert(merge_applied(codec, on_keys, before, half));
        assert(merge_applied(codec, on_values, half, after));
    }
    if merge_applied(codec, on_keys, before, half) && merge_applied(codec, on_values, half, after) {
        assert forall|h: int| 0 <= h < before.shape.kv_heads implies #[trigger] head_merged(
            codec,
            before.shape,
            m,
            Side::Key,
            before.keys[h],
            after.keys[h],
        ) by {
            assert(head_merged(
                codec,
                before.shape,
                on_keys,
                Side::Key,
                before.keys[h],
                half.keys[h],
            ));
        }
        assert forall|h: int| 0 <= h < before.shape.kv_heads implies #[trigger] head_merged(
            codec,
            before.shape,
            m,
            Side::Value,
            before.values[h],
            after.values[h],
        ) by {
            assert(head_merged(
                codec,
                half.shape,
                on_values,
                Side::Value,
                half.values[h],
                after.values[h],
            ));
        }
        assert(merge_applied(codec, m, before, after));
    }
}

/// What a merge stores. Of a side that it blends, in every head, the target's row becomes what the
/// coder returned for the target's row and its weight and, in order, the named rows and theirs; every
/// other row stays. A merge of nothing, and one of bytes that have no arithmetic, stores nothing. The
/// axis says which sides: both, the keys or the values.
pub proof fn lemma_a_merge_blends_the_rows_it_names<C: RowCodec>(
    codec: &C,
    m: MergeView,
    before: CacheView,
    after: CacheView,
    side: Side,
    h: int,
    p: int,
)
    requires
        before.wf(),
        merge_applied(codec, m, before, after),
        m.into < before.shape.capacity,
        0 <= h < before.shape.kv_heads,
        0 <= p < before.shape.capacity,
    ensures
        p != m.into ==> after.plane(side)[h][p] == before.plane(side)[h][p],
        m.from.len() == 0 ==> after.plane(side)[h][p] == before.plane(side)[h][p],
        side == Side::Key && m.apply_to == MergeAxis::ValueOnly ==> after.plane(side)[h][p]
            == before.plane(side)[h][p],
        side == Side::Value && m.apply_to == MergeAxis::KeyOnly ==> after.plane(side)[h][p]
            == before.plane(side)[h][p],
        before.shape.dtype == DType::U8 && before.shape.opaque is None ==> after.plane(side)[h][p]
            == before.plane(side)[h][p],
        m.from.len() > 0 && (m.apply_to == MergeAxis::Both || (side == Side::Key && m.apply_to
            == MergeAxis::KeyOnly) || (side == Side::Value && m.apply_to == MergeAxis::ValueOnly))
            && (before.shape.dtype != DType::U8 || before.shape.opaque is Some) ==> exists|
            a: Vec<u8>,
            f: Vec<Vec<u8>>,
            w: Vec<u32>,
            b: Vec<u8>,
        |
            {
                &&& #[trigger] call_ensures(
                    C::merge,
                    (
                        codec,
                        RowFormat {
                            dtype: before.shape.dtype,
                            opaque: before.shape.opaque,
                            head_dim: before.shape.head_dim,
                        },
                        &a,
                        m.into_weight,
                        &f,
                        &w,
                    ),
                    b,
                )
                &&& a@ == before.plane(side)[h][m.into as int]
                &&& b@ == after.plane(side)[h][m.into as int]
                &&& f@.len() == m.from.len() && w@.len() == m.from.len()
                &&& forall|i: int|
                    0 <= i < m.from.len() ==> (#[trigger] f@[i])@
                        == before.plane(side)[h][m.from[i].0 as int]
                &&& forall|i: int| 0 <= i < m.from.len() ==> #[trigger] w@[i] == m.from[i].1
            },
{
    assert(before.plane_wf(side));
    assert(before.plane(side)[h].len() == before.shape.capacity);
    assert(head_merged(
        codec,
        before.shape,
        m,
        side,
        before.plane(side)[h],
        after.plane(side)[h],
    ));
    if m.from.len() > 0 && m.writes(side) && before.shape.mergeable() {
        let rows = before.plane(side)[h];
        let (a, f, w, b) = choose|a: Vec<u8>, f: Vec<Vec<u8>>, w: Vec<u32>, b: Vec<u8>|
            a@ == rows[m.into as int] && f.deep_view() == m.sources(rows) && w@ == m.weights() && b@
                == after.plane(side)[h][m.into as int] && #[trigger] call_ensures(
                C::merge,
                (codec, before.shape.spec_row_format(), &a, m.into_weight, &f, &w),
                b,
            );
        assert(f.deep_view().len() == f@.len());
        assert forall|i: int| 0 <= i < m.from.len() implies (#[trigger] f@[i])@
            == rows[m.from[i].0 as int] by {
            assert(f.deep_view()[i] == f@[i]@);
            assert(m.sources(rows)[i] == rows[m.from[i].0 as int]);
        }
        assert forall|i: int| 0 <= i < m.from.len() implies #[trigger] w@[i] == m.from[i].1 by {
            assert(m.weights()[i] == m.from[i].1);
        }
    }
}

/// Merges go one after the other, each over what the ones before it left.
pub proof fn lemma_merges_go_in_order<C: RowCodec>(
    codec: &C,
    merges: Seq<MergeView>,
    m: MergeView,
    before: CacheView,
    after: CacheView,
)
    ensures
        merges_applied(codec, merges.push(m), before, after) <==> exists|mid: CacheView|
            merges_applied(codec, merges, before, mid) && #[trigger] merge_applied(
                codec,
                m,
                mid,
                after,
            ),
        merges_applied(codec, Seq::<MergeView>::empty(), before, after) <==> after == before,
{
    assert(merges.push(m).drop_last() =~= merges);
    assert(merges.push(m).last() == m);
}

} // verus!
