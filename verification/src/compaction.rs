//! Moving the tokens a cache keeps.
//!
//! A keep is a gather of whole rows: nothing is re-encoded, so it is exact in every stored format.
//! Rows outside the destination run keep their bytes.

use crate::dtype::KVLayout;
use crate::kv_cache::{CacheView, KVCache, KvError, Side};
use vstd::prelude::*;

verus! {

/// `rows` with `rows[keep[i]]` placed at `start + i`, every read made before any write.
pub open spec fn gathered(rows: Seq<Seq<u8>>, keep: Seq<usize>, start: int) -> Seq<Seq<u8>> {
    Seq::new(
        rows.len(),
        |p: int|
            if start <= p < start + keep.len() {
                rows[keep[p - start] as int]
            } else {
                rows[p]
            },
    )
}

/// Ascending without repeats, and below `limit`.
pub open spec fn keep_ok(keep: Seq<usize>, limit: int) -> bool {
    &&& forall|i: int| 0 <= i < keep.len() ==> #[trigger] keep[i] < limit
    &&& forall|i: int, j: int| 0 <= i < j < keep.len() ==> #[trigger] keep[i] < #[trigger] keep[j]
}

/// Every index is below `limit`.
pub open spec fn all_below(keep: Seq<usize>, limit: int) -> bool {
    forall|i: int| 0 <= i < keep.len() ==> #[trigger] keep[i] < limit
}

impl CacheView {
    /// Both sides of one head gathered.
    pub open spec fn head_gathered(self, head: int, keep: Seq<usize>, start: int) -> CacheView {
        CacheView {
            keys: self.keys.update(head, gathered(self.keys[head], keep, start)),
            values: self.values.update(head, gathered(self.values[head], keep, start)),
            ..self
        }
    }

    /// Both sides of every head gathered by one list; the cursors stay.
    pub open spec fn all_gathered(self, keep: Seq<usize>, start: int) -> CacheView {
        CacheView {
            keys: Seq::new(
                self.shape.kv_heads as nat,
                |h: int| gathered(self.keys[h], keep, start),
            ),
            values: Seq::new(
                self.shape.kv_heads as nat,
                |h: int| gathered(self.values[h], keep, start),
            ),
            ..self
        }
    }

    /// Every head `h` gathered by its own list, right-aligned on `cursor`.
    pub open spec fn kept_at(self, heads: Seq<Seq<usize>>, cursor: usize) -> CacheView {
        CacheView {
            current_pos: cursor,
            starts: Seq::new(heads.len(), |h: int| (cursor - heads[h].len()) as usize),
            keys: Seq::new(
                heads.len(),
                |h: int| gathered(self.keys[h], heads[h], cursor - heads[h].len()),
            ),
            values: Seq::new(
                heads.len(),
                |h: int| gathered(self.values[h], heads[h], cursor - heads[h].len()),
            ),
            ..self
        }
    }

    /// Every head gathered by the same list.
    pub open spec fn kept(self, keep: Seq<usize>) -> CacheView {
        self.kept_at(
            Seq::new(self.shape.kv_heads as nat, |h: int| keep),
            keep.len() as usize,
        )
    }
}

/// One more row of a gather.
proof fn lemma_gather_step(rows: Seq<Seq<u8>>, keep: Seq<usize>, start: int, i: int)
    requires
        0 <= i < keep.len(),
        0 <= start,
        start + keep.len() <= rows.len(),
        all_below(keep, rows.len() as int),
    ensures
        gathered(rows, keep.take(i + 1), start) == gathered(rows, keep.take(i), start).update(
            start + i,
            rows[keep[i] as int],
        ),
{
    assert(gathered(rows, keep.take(i + 1), start) =~= gathered(rows, keep.take(i), start).update(
        start + i,
        rows[keep[i] as int],
    ));
}

impl KVCache {
    /// Gathers one side of one head.
    fn gather_side(&mut self, side: Side, head: usize, keep: &Vec<usize>, start: usize)
        requires
            old(self).wf(),
            head < old(self)@.shape.kv_heads,
            start + keep@.len() <= old(self)@.shape.capacity,
            all_below(keep@, old(self)@.shape.capacity as int),
        ensures
            final(self).wf(),
            final(self)@ == old(self)@.with_plane(
                side,
                head as int,
                gathered(old(self)@.plane(side)[head as int], keep@, start as int),
            ),
    {
        let ghost before = self@;
        let ghost rows = before.plane(side)[head as int];
        proof {
            self.lemma_wf();
        }
        let n: usize = keep.len();
        let mut taken: Vec<Vec<u8>> = Vec::with_capacity(n);
        let mut i: usize = 0;
        while i < n
            invariant
                i <= n,
                n == keep@.len(),
                self.wf(),
                self@ == before,
                before.wf(),
                rows == before.plane(side)[head as int],
                head < before.shape.kv_heads,
                all_below(keep@, before.shape.capacity as int),
                taken@.len() == i,
                forall|x: int|
                    0 <= x < i ==> (#[trigger] taken@[x])@ == rows[keep@[x] as int] && taken@[x]@.len()
                        == before.shape.row_bytes()->0,
            decreases n - i,
        {
            taken.push(self.read_row(side, keep[i], head));
            i = i + 1;
        }
        i = 0;
        proof {
            assert(gathered(rows, keep@.take(0), start as int) =~= rows);
            assert(before.with_plane(side, head as int, rows) =~= before);
        }
        while i < n
            invariant
                i <= n,
                n == keep@.len(),
                self.wf(),
                before.wf(),
                rows == before.plane(side)[head as int],
                head < before.shape.kv_heads,
                start + n <= before.shape.capacity,
                all_below(keep@, before.shape.capacity as int),
                self@ == before.with_plane(
                    side,
                    head as int,
                    gathered(rows, keep@.take(i as int), start as int),
                ),
                taken@.len() == n,
                forall|x: int|
                    0 <= x < n ==> (#[trigger] taken@[x])@ == rows[keep@[x] as int] && taken@[x]@.len()
                        == before.shape.row_bytes()->0,
            decreases n - i,
        {
            self.write_row(side, start + i, head, &taken[i]);
            proof {
                lemma_gather_step(rows, keep@, start as int, i as int);
                let expected = before.with_plane(
                    side,
                    head as int,
                    gathered(rows, keep@.take(i + 1), start as int),
                );
                assert(self@ =~= expected);
            }
            i = i + 1;
        }
        proof {
            assert(keep@.take(n as int) =~= keep@);
        }
    }

    /// Gathers the rows of `keep` for one head into the run that starts at `write_start`, whichever
    /// way each row moves. Refused, with nothing moved, when the head, a kept position or the run is
    /// outside the buffer.
    pub fn compact_keep_positions_for_head(
        &mut self,
        head: usize,
        keep: &Vec<usize>,
        write_start: usize,
    ) -> (r: Result<(), KvError>)
        requires
            old(self).wf(),
        ensures
            final(self).wf(),
            r is Ok <==> {
                &&& head < old(self)@.shape.kv_heads
                &&& write_start + keep@.len() <= old(self)@.shape.capacity
                &&& all_below(keep@, old(self)@.shape.capacity as int)
            },
            r is Ok ==> final(self)@ == old(self)@.head_gathered(
                head as int,
                keep@,
                write_start as int,
            ),
            r is Err ==> final(self)@ == old(self)@ && r->Err_0 == KvError::InvalidKeep,
    {
        let n: usize = keep.len();
        let capacity: usize = self.capacity();
        if head >= self.kv_heads() || write_start > capacity || n > capacity - write_start {
            return Err(KvError::InvalidKeep);
        }
        let mut i: usize = 0;
        while i < n
            invariant
                i <= n,
                n == keep@.len(),
                forall|x: int| 0 <= x < i ==> #[trigger] keep@[x] < capacity,
                self@ == old(self)@,
                self.wf(),
                capacity == self@.shape.capacity,
            decreases n - i,
        {
            if keep[i] >= capacity {
                assert(!all_below(keep@, capacity as int));
                return Err(KvError::InvalidKeep);
            }
            i = i + 1;
        }
        self.gather_side(Side::Key, head, keep, write_start);
        self.gather_side(Side::Value, head, keep, write_start);
        proof {
            assert(self@ =~= old(self)@.head_gathered(head as int, keep@, write_start as int));
        }
        Ok(())
    }

    /// Gathers the rows of `keep` for every head into the run that starts at `write_start`. Refused,
    /// with nothing moved, when a kept position or the run is outside the buffer.
    pub fn compact_keep_positions(&mut self, keep: &Vec<usize>, write_start: usize) -> (r: Result<
        (),
        KvError,
    >)
        requires
            old(self).wf(),
        ensures
            final(self).wf(),
            r is Ok <==> old(self)@.shape.kv_heads == 0 || {
                &&& write_start + keep@.len() <= old(self)@.shape.capacity
                &&& all_below(keep@, old(self)@.shape.capacity as int)
            },
            r is Ok ==> final(self)@ == old(self)@.all_gathered(keep@, write_start as int),
            r is Err ==> final(self)@ == old(self)@ && r->Err_0 == KvError::InvalidKeep,
    {
        let ghost before = self@;
        proof {
            self.lemma_wf();
        }
        let n: usize = self.kv_heads();
        let mut h: usize = 0;
        while h < n
            invariant
                h <= n,
                n == before.shape.kv_heads,
                before == old(self)@,
                before.wf(),
                self.wf(),
                self@ == partly_gathered(before, keep@, write_start as int, h as int),
                h > 0 ==> write_start + keep@.len() <= before.shape.capacity && all_below(
                    keep@,
                    before.shape.capacity as int,
                ),
            decreases n - h,
        {
            match self.compact_keep_positions_for_head(h, keep, write_start) {
                Ok(()) => {},
                Err(e) => {
                    proof {
                        assert(self@ =~= before);
                    }
                    return Err(e);
                },
            }
            proof {
                assert(self@ =~= partly_gathered(before, keep@, write_start as int, h + 1));
            }
            h = h + 1;
        }
        proof {
            assert(self@ =~= before.all_gathered(keep@, write_start as int));
        }
        Ok(())
    }

    /// Gathers every head by its own list, right-aligned on `cursor`, and moves the cursor there.
    /// Refused, with nothing moved, unless there is one list per head, each ascending and inside
    /// the current frame, the cursor is no lower than the longest list and no higher than the
    /// current one, and a store that cannot be ragged is not made so.
    pub fn keep_heads_at(&mut self, heads: &Vec<Vec<usize>>, cursor: usize) -> (r: Result<
        (),
        KvError,
    >)
        requires
            old(self).wf(),
        ensures
            final(self).wf(),
            r is Ok <==> keep_heads_ok(old(self)@, heads.deep_view(), cursor),
            r is Ok ==> final(self)@ == old(self)@.kept_at(heads.deep_view(), cursor),
            r matches Err(e) ==> final(self)@ == old(self)@ && e == (if head_lists_ok(
                old(self)@,
                heads.deep_view(),
            ) {
                KvError::InvalidCursor
            } else {
                KvError::InvalidKeep
            }),
    {
        let ghost before = self@;
        let ghost lists = heads.deep_view();
        proof {
            self.lemma_wf();
        }
        let n: usize = self.kv_heads();
        let frame: usize = self.current_pos();
        if heads.len() != n {
            return Err(KvError::InvalidKeep);
        }
        let mut h: usize = 0;
        while h < n
            invariant
                h <= n,
                n == heads@.len(),
                n == before.shape.kv_heads,
                lists == heads.deep_view(),
                lists.len() == n,
                self@ == before,
                before == old(self)@,
                self.wf(),
                frame == before.current_pos,
                forall|x: int| 0 <= x < h ==> keep_ok(#[trigger] lists[x], frame as int),
            decreases n - h,
        {
            assert(lists[h as int] =~= heads@[h as int]@);
            if !keep_is_valid(&heads[h], frame) {
                return Err(KvError::InvalidKeep);
            }
            h = h + 1;
        }
        if cursor > frame {
            return Err(KvError::InvalidCursor);
        }
        let ragged_ok: bool = self.supports_ragged();
        let mut starts: Vec<usize> = Vec::with_capacity(n);
        h = 0;
        while h < n
            invariant
                h <= n,
                n == heads@.len(),
                n == before.shape.kv_heads,
                lists == heads.deep_view(),
                lists.len() == n,
                self@ == before,
                before == old(self)@,
                self.wf(),
                before.wf(),
                head_lists_ok(before, lists),
                ragged_ok == before.shape.spec_supports_ragged(),
                starts@.len() == h,
                forall|x: int|
                    0 <= x < h ==> {
                        &&& (#[trigger] lists[x]).len() <= cursor
                        &&& (!ragged_ok ==> lists[x].len() == cursor)
                        &&& starts@[x] == cursor - lists[x].len()
                    },
            decreases n - h,
        {
            assert(lists[h as int] =~= heads@[h as int]@);
            let len: usize = heads[h].len();
            if len > cursor || (!ragged_ok && len != cursor) {
                return Err(KvError::InvalidCursor);
            }
            starts.push(cursor - len);
            h = h + 1;
        }
        h = 0;
        proof {
            assert(before =~= partly_kept(before, lists, cursor, 0));
        }
        while h < n
            invariant
                h <= n,
                n == heads@.len(),
                n == before.shape.kv_heads,
                lists == heads.deep_view(),
                lists.len() == n,
                self.wf(),
                before.wf(),
                cursor <= before.current_pos,
                starts@.len() == n,
                forall|x: int|
                    0 <= x < n ==> {
                        &&& keep_ok(#[trigger] lists[x], before.current_pos as int)
                        &&& lists[x].len() <= cursor
                        &&& starts@[x] == cursor - lists[x].len()
                    },
                self@ == partly_kept(before, lists, cursor, h as int),
            decreases n - h,
        {
            let list = &heads[h];
            assert(lists[h as int] =~= list@);
            let start: usize = starts[h];
            self.gather_side(Side::Key, h, list, start);
            self.gather_side(Side::Value, h, list, start);
            proof {
                assert(self@ =~= partly_kept(before, lists, cursor, h + 1));
            }
            h = h + 1;
        }
        proof {
            assert(starts@ =~= before.kept_at(lists, cursor).starts);
        }
        self.set_head_starts(cursor, starts);
        proof {
            assert(self@ =~= before.kept_at(lists, cursor));
        }
        Ok(())
    }
}

/// One list per head, each ascending and inside the frame.
pub open spec fn head_lists_ok(c: CacheView, heads: Seq<Seq<usize>>) -> bool {
    &&& heads.len() == c.shape.kv_heads
    &&& forall|h: int|
        0 <= h < heads.len() ==> keep_ok(#[trigger] heads[h], c.current_pos as int)
}

/// What a per-head keep asks of its lists and its cursor.
pub open spec fn keep_heads_ok(c: CacheView, heads: Seq<Seq<usize>>, cursor: usize) -> bool {
    &&& head_lists_ok(c, heads)
    &&& cursor <= c.current_pos
    &&& forall|h: int|
        0 <= h < heads.len() ==> {
            &&& (#[trigger] heads[h]).len() <= cursor
            &&& (!c.shape.spec_supports_ragged() ==> heads[h].len() == cursor)
        }
}

/// The contents once the first `n` heads have been gathered by one list.
spec fn partly_gathered(c: CacheView, keep: Seq<usize>, start: int, n: int) -> CacheView {
    CacheView {
        keys: Seq::new(
            c.shape.kv_heads as nat,
            |h: int|
                if h < n {
                    gathered(c.keys[h], keep, start)
                } else {
                    c.keys[h]
                },
        ),
        values: Seq::new(
            c.shape.kv_heads as nat,
            |h: int|
                if h < n {
                    gathered(c.values[h], keep, start)
                } else {
                    c.values[h]
                },
        ),
        ..c
    }
}

/// The contents once the first `n` heads have been gathered; the cursors have not moved yet.
spec fn partly_kept(c: CacheView, heads: Seq<Seq<usize>>, cursor: usize, n: int) -> CacheView {
    CacheView {
        keys: Seq::new(
            heads.len(),
            |h: int|
                if h < n {
                    gathered(c.keys[h], heads[h], cursor - heads[h].len())
                } else {
                    c.keys[h]
                },
        ),
        values: Seq::new(
            heads.len(),
            |h: int|
                if h < n {
                    gathered(c.values[h], heads[h], cursor - heads[h].len())
                } else {
                    c.values[h]
                },
        ),
        ..c
    }
}

/// Whether a keep-list is ascending without repeats and below `limit`.
pub fn keep_is_valid(keep: &Vec<usize>, limit: usize) -> (r: bool)
    ensures
        r == keep_ok(keep@, limit as int),
{
    let n: usize = keep.len();
    let mut i: usize = 0;
    while i < n
        invariant
            i <= n,
            n == keep@.len(),
            forall|x: int| 0 <= x < i ==> #[trigger] keep@[x] < limit,
            forall|x: int, y: int| 0 <= x < y < i ==> #[trigger] keep@[x] < #[trigger] keep@[y],
        decreases n - i,
    {
        if keep[i] >= limit {
            return false;
        }
        if i > 0 && keep[i] <= keep[i - 1] {
            assert(!(keep@[i - 1] < keep@[i as int]));
            return false;
        }
        proof {
            if i > 0 {
                assert forall|x: int| 0 <= x < i implies #[trigger] keep@[x] < keep@[i as int] by {
                    if x < i - 1 {
                        assert(keep@[x] < keep@[i - 1]);
                    }
                }
            }
        }
        i = i + 1;
    }
    true
}

/// A layer-wide keep is the per-head keep of the same list for every head: it leaves every head
/// uniform at `[0, keep.len())`.
pub proof fn lemma_equal_heads_keep_is_layer_wide(c: CacheView, heads: Seq<Seq<usize>>, keep: Seq<
    usize,
>)
    requires
        c.wf(),
        heads.len() == c.shape.kv_heads,
        keep.len() <= usize::MAX,
        forall|h: int| 0 <= h < heads.len() ==> #[trigger] heads[h] == keep,
    ensures
        c.kept_at(heads, keep.len() as usize) == c.kept(keep),
        c.kept(keep).starts == Seq::new(c.shape.kv_heads as nat, |h: int| 0usize),
        !c.kept(keep).is_ragged(),
{
    assert(heads =~= Seq::new(c.shape.kv_heads as nat, |h: int| keep));
    assert(c.kept(keep).starts =~= Seq::new(c.shape.kv_heads as nat, |h: int| 0usize));
}

/// After a per-head keep, head `h`'s tokens are exactly its kept rows, in order, at the end of the
/// frame.
pub proof fn lemma_kept_rows(c: CacheView, heads: Seq<Seq<usize>>, cursor: usize, h: int, i: int)
    requires
        c.wf(),
        keep_heads_ok(c, heads, cursor),
        0 <= h < heads.len(),
        0 <= i < heads[h].len(),
    ensures
        ({
            let after = c.kept_at(heads, cursor);
            let src = heads[h][i] as int;
            &&& after.starts[h] + heads[h].len() == after.current_pos
            &&& after.keys[h][after.starts[h] + i] == c.keys[h][src]
            &&& after.values[h][after.starts[h] + i] == c.values[h][src]
        }),
{
    assert(keep_ok(heads[h], c.current_pos as int));
}

/// A keep that names the whole frame changes nothing a reader of a uniform cache can see.
pub proof fn lemma_keep_all_is_identity(c: CacheView, keep: Seq<usize>)
    requires
        c.wf(),
        !c.is_ragged(),
        keep == Seq::new(c.current_pos as nat, |i: int| i as usize),
    ensures
        c.kept(keep) == c,
{
    assert forall|h: int| 0 <= h < c.shape.kv_heads implies #[trigger] c.kept(keep).keys[h]
        == c.keys[h] by {
        assert(c.kept(keep).keys[h] =~= c.keys[h]);
    }
    assert forall|h: int| 0 <= h < c.shape.kv_heads implies #[trigger] c.kept(keep).values[h]
        == c.values[h] by {
        assert(c.kept(keep).values[h] =~= c.values[h]);
    }
    assert forall|h: int| 0 <= h < c.starts.len() implies #[trigger] c.starts[h] == 0 by {}
    assert(c.kept(keep) =~= c);
}

/// What a gather leaves of a head: from the start of the run on the rows that the list names, in order,
/// and every other row as it was; the keys and the values alike, and the cursors stay.
pub proof fn lemma_a_gather_moves_the_named_rows(
    c: CacheView,
    head: int,
    keep: Seq<usize>,
    start: int,
    h: int,
    p: int,
)
    requires
        c.wf(),
        0 <= head < c.shape.kv_heads,
        0 <= start,
        start + keep.len() <= c.shape.capacity,
        all_below(keep, c.shape.capacity as int),
        0 <= h < c.shape.kv_heads,
        0 <= p < c.shape.capacity,
    ensures
        ({
            let one = c.head_gathered(head, keep, start);
            let all = c.all_gathered(keep, start);
            &&& start <= p < start + keep.len() ==> all.keys[h][p] == c.keys[h][keep[p - start] as int]
                && all.values[h][p] == c.values[h][keep[p - start] as int]
            &&& p < start || p >= start + keep.len() ==> all.keys[h][p] == c.keys[h][p]
                && all.values[h][p] == c.values[h][p]
            &&& h == head ==> one.keys[h] == all.keys[h] && one.values[h] == all.values[h]
            &&& h != head ==> one.keys[h] == c.keys[h] && one.values[h] == c.values[h]
            &&& one.current_pos == c.current_pos && all.current_pos == c.current_pos
            &&& one.starts == c.starts && all.starts == c.starts
            &&& one.shape == c.shape && all.shape == c.shape
        }),
{
    assert(c.plane(Side::Key)[h].len() == c.shape.capacity);
    assert(c.plane(Side::Value)[h].len() == c.shape.capacity);
}

/// Which lists can be kept on a cursor: one per head, each rising and inside the frame, none longer than
/// the cursor, which lies inside the frame; and of one length where heads cannot differ.
pub proof fn lemma_which_lists_can_be_kept(c: CacheView, heads: Seq<Seq<usize>>, cursor: usize, h: int, i: int, j: int)
    ensures
        keep_heads_ok(c, heads, cursor) ==> {
            &&& heads.len() == c.shape.kv_heads
            &&& cursor <= c.current_pos
            &&& 0 <= h < heads.len() ==> heads[h].len() <= cursor
            &&& 0 <= h < heads.len() && (c.shape.layout == KVLayout::SeqMajor || c.shape.opaque is Some)
                ==> heads[h].len() == cursor
            &&& 0 <= h < heads.len() && 0 <= i < heads[h].len() ==> heads[h][i] < c.current_pos
            &&& 0 <= h < heads.len() && 0 <= i < j < heads[h].len() ==> heads[h][i] < heads[h][j]
        },
        heads.len() == c.shape.kv_heads && cursor <= c.current_pos && (forall|k: int|
            0 <= k < heads.len() ==> (#[trigger] heads[k]).len() == cursor) && (forall|k: int, x: int|
            0 <= k < heads.len() && 0 <= x < heads[k].len() ==> #[trigger] heads[k][x]
                < c.current_pos) && (forall|k: int, x: int, y: int|
            0 <= k < heads.len() && 0 <= x < y < heads[k].len() ==> #[trigger] heads[k][x]
                < #[trigger] heads[k][y]) ==> keep_heads_ok(c, heads, cursor),
{
    if keep_heads_ok(c, heads, cursor) && 0 <= h < heads.len() {
        assert(keep_ok(heads[h], c.current_pos as int));
    }
}

/// Which indices lie below a limit, and which lists are a keep: each index below the limit, and each
/// greater than the one before it.
pub proof fn lemma_which_lists_are_a_keep(keep: Seq<usize>, limit: int, i: int, j: int)
    ensures
        all_below(keep, limit) && 0 <= i < keep.len() ==> keep[i] + 1 <= limit,
        0 <= i < keep.len() && keep[i] >= limit ==> !all_below(keep, limit) && !keep_ok(keep, limit),
        keep_ok(keep, limit) ==> all_below(keep, limit),
        keep_ok(keep, limit) && 0 <= i < j < keep.len() ==> keep[i] + 1 <= keep[j],
        0 <= i < j < keep.len() && keep[i] >= keep[j] ==> !keep_ok(keep, limit),
        keep.len() == 0 ==> keep_ok(keep, limit),
{
}

} // verus!
