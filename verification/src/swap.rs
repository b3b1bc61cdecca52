//! Moving the oldest tokens of a layer out of its cache and back.

use crate::compaction::gathered;
use crate::kv_cache::{CacheView, KVCache, KvError, Side};
use vstd::prelude::*;

verus! {

/// A prefix that was moved out of a layer.
pub struct SwapRecord {
    pub layer: usize,
    pub count: usize,
    /// `keys[head][position]`.
    pub keys: Vec<Vec<Vec<u8>>>,
    /// `values[head][position]`.
    pub values: Vec<Vec<Vec<u8>>>,
}

/// A record as contracts speak of it.
#[verifier::ext_equal]
pub struct RecordView {
    pub layer: usize,
    pub count: usize,
    pub keys: Seq<Seq<Seq<u8>>>,
    pub values: Seq<Seq<Seq<u8>>>,
}

impl View for SwapRecord {
    type V = RecordView;

    open spec fn view(&self) -> RecordView {
        RecordView {
            layer: self.layer,
            count: self.count,
            keys: self.keys.deep_view(),
            values: self.values.deep_view(),
        }
    }
}

/// The prefixes that are out, the latest last.
pub struct SwapHandler {
    records: Vec<SwapRecord>,
}

/// Records as contracts speak of them.
pub open spec fn record_views(records: Seq<SwapRecord>) -> Seq<RecordView> {
    Seq::new(records.len(), |i: int| records[i]@)
}

impl View for SwapHandler {
    type V = Seq<RecordView>;

    closed spec fn view(&self) -> Seq<RecordView> {
        record_views(self.records@)
    }
}

/// The integers of `[low, high)`, ascending.
pub open spec fn span(low: usize, high: usize) -> Seq<usize> {
    Seq::new((high - low) as nat, |i: int| (low + i) as usize)
}

impl CacheView {
    /// The first `n` rows of every head, on one side.
    pub open spec fn prefix_rows(self, side: Side, n: int) -> Seq<Seq<Seq<u8>>> {
        Seq::new(self.shape.kv_heads as nat, |h: int| self.plane(side)[h].take(n))
    }

    /// The cache without its first `n` tokens.
    pub open spec fn without_prefix(self, n: usize) -> CacheView {
        self.kept(span(n, self.current_pos))
    }

    /// The cache with the rows of `r` put back before its tokens.
    pub open spec fn with_prefix(self, r: RecordView) -> CacheView {
        CacheView {
            current_pos: (self.current_pos + r.count) as usize,
            keys: Seq::new(
                self.shape.kv_heads as nat,
                |h: int| prefixed(self.keys[h], r.keys[h], self.current_pos as int),
            ),
            values: Seq::new(
                self.shape.kv_heads as nat,
                |h: int| prefixed(self.values[h], r.values[h], self.current_pos as int),
            ),
            ..self
        }
    }
}

/// `rows` with its first `n` rows moved behind `prefix`.
pub open spec fn prefixed(rows: Seq<Seq<u8>>, prefix: Seq<Seq<u8>>, n: int) -> Seq<Seq<u8>> {
    Seq::new(
        rows.len(),
        |p: int|
            if p < prefix.len() {
                prefix[p]
            } else if p < prefix.len() + n {
                rows[p - prefix.len()]
            } else {
                rows[p]
            },
    )
}

/// A record that fits a cache: one row of the cache's width per head and position.
pub open spec fn record_fits(c: CacheView, r: RecordView) -> bool {
    &&& planes_fit(c, r.keys, r.count)
    &&& planes_fit(c, r.values, r.count)
}

/// `count` rows of the cache's width for every head.
pub open spec fn planes_fit(c: CacheView, planes: Seq<Seq<Seq<u8>>>, count: usize) -> bool {
    &&& planes.len() == c.shape.kv_heads
    &&& forall|h: int| 0 <= h < planes.len() ==> (#[trigger] planes[h]).len() == count
    &&& forall|h: int, p: int|
        0 <= h < planes.len() && 0 <= p < count ==> (#[trigger] planes[h][p]).len()
            == c.shape.row_bytes()->0
}

/// The index of the latest record of `layer`, or -1.
pub open spec fn latest(records: Seq<RecordView>, layer: usize) -> int
    decreases records.len(),
{
    if records.len() == 0 {
        -1
    } else if records.last().layer == layer {
        records.len() - 1
    } else {
        latest(records.drop_last(), layer)
    }
}

proof fn lemma_latest_skips(records: Seq<RecordView>, layer: usize, n: int)
    requires
        0 <= n <= records.len(),
        forall|i: int| n <= i < records.len() ==> (#[trigger] records[i]).layer != layer,
    ensures
        latest(records, layer) == latest(records.take(n), layer),
    decreases records.len(),
{
    if n < records.len() {
        assert(records[records.len() - 1].layer != layer);
        let init = records.drop_last();
        assert forall|i: int| n <= i < init.len() implies (#[trigger] init[i]).layer != layer by {
            assert(init[i] == records[i]);
        }
        lemma_latest_skips(init, layer, n);
        assert(init.take(n) =~= records.take(n));
    } else {
        assert(records.take(n) =~= records);
    }
}

/// Copies the first `n` rows of every head, on one side.
fn copy_prefix(cache: &KVCache, side: Side, n: usize) -> (r: Vec<Vec<Vec<u8>>>)
    requires
        cache.wf(),
        n <= cache@.shape.capacity,
    ensures
        r.deep_view() == cache@.prefix_rows(side, n as int),
{
    proof {
        cache.lemma_wf();
    }
    let heads: usize = cache.kv_heads();
    let mut r: Vec<Vec<Vec<u8>>> = Vec::with_capacity(heads);
    let mut h: usize = 0;
    while h < heads
        invariant
            h <= heads,
            heads == cache@.shape.kv_heads,
            cache.wf(),
            cache@.wf(),
            n <= cache@.shape.capacity,
            r@.len() == h,
            forall|x: int|
                0 <= x < h ==> (#[trigger] r@[x]).deep_view() == cache@.plane(side)[x].take(
                    n as int,
                ),
        decreases heads - h,
    {
        let mut rows: Vec<Vec<u8>> = Vec::with_capacity(n);
        let mut p: usize = 0;
        while p < n
            invariant
                p <= n,
                h < heads,
                heads == cache@.shape.kv_heads,
                cache.wf(),
                n <= cache@.shape.capacity,
                rows@.len() == p,
                forall|q: int|
                    0 <= q < p ==> (#[trigger] rows@[q])@ == cache@.plane(side)[h as int][q],
            decreases n - p,
        {
            rows.push(cache.read_row(side, p, h));
            p = p + 1;
        }
        proof {
            let plane = cache@.plane(side)[h as int];
            assert(plane.len() == cache@.shape.capacity);
            assert forall|q: int| 0 <= q < n implies #[trigger] rows.deep_view()[q]
                == plane.take(n as int)[q] by {
                assert(rows.deep_view()[q] =~= rows@[q]@);
            }
            assert(rows.deep_view() =~= plane.take(n as int));
        }
        r.push(rows);
        h = h + 1;
    }
    proof {
        assert(r.deep_view() =~= cache@.prefix_rows(side, n as int));
    }
    r
}

/// The positions of `[low, high)`, ascending.
pub(crate) fn span_list(low: usize, high: usize) -> (r: Vec<usize>)
    requires
        low <= high,
    ensures
        r@ == span(low, high),
{
    let mut r: Vec<usize> = Vec::with_capacity(high - low);
    let mut p: usize = low;
    while p < high
        invariant
            low <= p <= high,
            r@ == span(low, p),
        decreases high - p,
    {
        r.push(p);
        p = p + 1;
        proof {
            assert(r@ =~= span(low, p));
        }
    }
    r
}

/// Whether planes have one row of the cache's width per head and position.
fn planes_have_shape(cache: &KVCache, planes: &Vec<Vec<Vec<u8>>>, count: usize, width: usize) -> (r:
    bool)
    requires
        cache.wf(),
        cache@.shape.row_bytes() == Some(width as nat),
    ensures
        r == planes_fit(cache@, planes.deep_view(), count),
{
    let ghost views = planes.deep_view();
    if planes.len() != cache.kv_heads() {
        return false;
    }
    let mut h: usize = 0;
    while h < planes.len()
        invariant
            h <= planes@.len(),
            views == planes.deep_view(),
            views.len() == cache@.shape.kv_heads,
            cache@.shape.row_bytes() == Some(width as nat),
            forall|x: int| 0 <= x < h ==> (#[trigger] views[x]).len() == count,
            forall|x: int, p: int|
                0 <= x < h && 0 <= p < count ==> (#[trigger] views[x][p]).len() == width,
        decreases planes@.len() - h,
    {
        assert(views[h as int] == planes@[h as int].deep_view());
        if planes[h].len() != count {
            return false;
        }
        let mut p: usize = 0;
        while p < count
            invariant
                h < planes@.len(),
                p <= count,
                planes@[h as int]@.len() == count,
                views == planes.deep_view(),
                views.len() == cache@.shape.kv_heads,
                views[h as int] == planes@[h as int].deep_view(),
                cache@.shape.row_bytes() == Some(width as nat),
                forall|q: int|
                    0 <= q < p ==> (#[trigger] views[h as int][q]).len() == width,
            decreases count - p,
        {
            assert(views[h as int][p as int] =~= planes@[h as int]@[p as int]@);
            if planes[h][p].len() != width {
                return false;
            }
            p = p + 1;
        }
        h = h + 1;
    }
    true
}

/// Writes `planes` over the first rows of every head, on one side.
fn paste_prefix(cache: &mut KVCache, side: Side, planes: &Vec<Vec<Vec<u8>>>, count: usize)
    requires
        old(cache).wf(),
        planes_fit(old(cache)@, planes.deep_view(), count),
        count <= old(cache)@.shape.capacity,
    ensures
        final(cache).wf(),
        final(cache)@ == pasted(old(cache)@, side, planes.deep_view(), old(cache)@.shape.kv_heads as int, 0),
{
    let ghost before = cache@;
    let ghost views = planes.deep_view();
    proof {
        cache.lemma_wf();
    }
    let heads: usize = cache.kv_heads();
    let mut h: usize = 0;
    proof {
        let start = pasted(before, side, views, 0, 0);
        assert forall|x: int| 0 <= x < heads implies #[trigger] start.plane(side)[x]
            == before.plane(side)[x] by {
            assert(start.plane(side)[x] =~= before.plane(side)[x]);
        }
        assert(start.plane(side) =~= before.plane(side));
        assert(before =~= start);
    }
    while h < heads
        invariant
            h <= heads,
            heads == before.shape.kv_heads,
            before.wf(),
            cache.wf(),
            views == planes.deep_view(),
            planes_fit(before, views, count),
            count <= before.shape.capacity,
            cache@ == pasted(before, side, views, h as int, 0),
        decreases heads - h,
    {
        let mut p: usize = 0;
        proof {
            assert(views[h as int] == planes@[h as int].deep_view());
        }
        while p < count
            invariant
                h < heads,
                p <= count,
                heads == before.shape.kv_heads,
                before.wf(),
                cache.wf(),
                views == planes.deep_view(),
                views[h as int] == planes@[h as int].deep_view(),
                planes_fit(before, views, count),
                count <= before.shape.capacity,
                cache@ == pasted(before, side, views, h as int, p as int),
            decreases count - p,
        {
            proof {
                assert(views[h as int][p as int] =~= planes@[h as int]@[p as int]@);
                assert(views[h as int].len() == count);
                assert(views[h as int][p as int].len() == before.shape.row_bytes()->0);
            }
            cache.write_row(side, p, h, &planes[h][p]);
            proof {
                assert(before.plane(side)[h as int].len() == before.shape.capacity);
                let now = pasted(before, side, views, h as int, p as int);
                let next = pasted(before, side, views, h as int, p + 1);
                assert(now.plane(side)[h as int].update(p as int, views[h as int][p as int])
                    =~= next.plane(side)[h as int]);
                assert forall|x: int| 0 <= x < heads implies #[trigger] cache@.plane(side)[x]
                    == next.plane(side)[x] by {
                    if x != h {
                        assert(now.plane(side)[x] =~= next.plane(side)[x]);
                    }
                }
                assert(cache@.plane(side) =~= next.plane(side));
                assert(cache@ =~= next);
            }
            p = p + 1;
        }
        proof {
            let now = pasted(before, side, views, h as int, count as int);
            let next = pasted(before, side, views, h + 1, 0);
            assert(views[h as int].len() == count);
            assert forall|x: int| 0 <= x < heads implies #[trigger] now.plane(side)[x]
                == next.plane(side)[x] by {
                assert(now.plane(side)[x] =~= next.plane(side)[x]);
            }
            assert(now.plane(side) =~= next.plane(side));
            assert(now =~= next);
        }
        h = h + 1;
    }
}

/// The first `heads` heads, and `rows` rows of the next one, start with the rows of `planes`.
spec fn pasted(c: CacheView, side: Side, planes: Seq<Seq<Seq<u8>>>, heads: int, rows: int) -> CacheView {
    let plane = Seq::new(
        c.shape.kv_heads as nat,
        |h: int|
            Seq::new(
                c.plane(side)[h].len(),
                |p: int|
                    if p < planes[h].len() && (h < heads || (h == heads && p < rows)) {
                        planes[h][p]
                    } else {
                        c.plane(side)[h][p]
                    },
            ),
    );
    match side {
        Side::Key => CacheView { keys: plane, ..c },
        Side::Value => CacheView { values: plane, ..c },
    }
}

/// What moving `prefix` tokens of a layer out did; `n` tokens moved.
pub open spec fn offloaded(
    before: CacheView,
    out: Seq<RecordView>,
    layer: usize,
    prefix: usize,
    n: usize,
    after: CacheView,
    out_after: Seq<RecordView>,
) -> bool {
    &&& n == (if prefix < before.current_pos {
        prefix
    } else {
        before.current_pos
    })
    &&& if n == 0 {
        after == before && out_after == out
    } else {
        &&& after == before.without_prefix(n)
        &&& out_after == out.push(
            RecordView {
                layer,
                count: n,
                keys: before.prefix_rows(Side::Key, n as int),
                values: before.prefix_rows(Side::Value, n as int),
            },
        )
    }
}

/// Why the latest prefix of `layer` cannot come back, if it cannot.
pub open spec fn recall_refusal(before: CacheView, out: Seq<RecordView>, layer: usize) -> Option<
    KvError,
> {
    let at = latest(out, layer);
    if at < 0 {
        None
    } else if before.is_ragged() {
        Some(KvError::Ragged)
    } else if !record_fits(before, out[at]) {
        Some(KvError::ShapeMismatch)
    } else if before.current_pos + out[at].count > before.shape.capacity {
        Some(KvError::CapacityExceeded)
    } else {
        None
    }
}

/// What moving the latest prefix of `layer` back did; `n` tokens moved.
pub open spec fn recalled(
    before: CacheView,
    out: Seq<RecordView>,
    layer: usize,
    n: usize,
    after: CacheView,
    out_after: Seq<RecordView>,
) -> bool {
    let at = latest(out, layer);
    if at < 0 {
        n == 0 && after == before && out_after == out
    } else {
        n == out[at].count && after == before.with_prefix(out[at]) && out_after == out.remove(at)
    }
}

impl SwapHandler {
    /// Nothing is out.
    pub fn new() -> (r: SwapHandler)
        ensures
            r@ == Seq::<RecordView>::empty(),
    {
        let r = SwapHandler { records: Vec::new() };
        proof {
            assert(r@ =~= Seq::<RecordView>::empty());
        }
        r
    }

    /// Hands out every prefix that is out, for a medium that holds them meanwhile.
    pub fn take_records(&mut self) -> (r: Vec<SwapRecord>)
        ensures
            record_views(r@) == old(self)@,
            final(self)@ == Seq::<RecordView>::empty(),
    {
        let mut taken: Vec<SwapRecord> = Vec::new();
        std::mem::swap(&mut taken, &mut self.records);
        proof {
            assert(self@ =~= Seq::<RecordView>::empty());
        }
        taken
    }

    /// Takes prefixes in, in place of those it has; the latest is the last.
    pub fn put_records(&mut self, records: Vec<SwapRecord>)
        ensures
            final(self)@ == record_views(records@),
    {
        self.records = records;
    }

    /// How many prefixes are out.
    pub fn records(&self) -> (n: usize)
        ensures
            n == self@.len(),
    {
        self.records.len()
    }

    /// Moves the first `prefix` tokens of a layer out, or all it has if they are fewer; returns how
    /// many. Refused, with nothing moved, when the heads hold different positions.
    pub fn offload_prefix(&mut self, layer: usize, cache: &mut KVCache, prefix: usize) -> (r: Result<
        usize,
        KvError,
    >)
        requires
            old(cache).wf(),
        ensures
            final(cache).wf(),
            r is Err <==> old(cache)@.is_ragged(),
            r matches Err(e) ==> e == KvError::Ragged && final(cache)@ == old(cache)@ && final(self)@ == old(self)@,
            r matches Ok(n) ==> offloaded(
                old(cache)@,
                old(self)@,
                layer,
                prefix,
                n,
                final(cache)@,
                final(self)@,
            ),
    {
        let ghost before = cache@;
        let ghost out = self.records@;
        proof {
            cache.lemma_wf();
        }
        if cache.is_ragged() {
            return Err(KvError::Ragged);
        }
        let pos: usize = cache.current_pos();
        let n: usize = if prefix < pos {
            prefix
        } else {
            pos
        };
        if n == 0 {
            return Ok(0);
        }
        let keys = copy_prefix(cache, Side::Key, n);
        let values = copy_prefix(cache, Side::Value, n);
        let rest: Vec<usize> = span_list(n, pos);
        match cache.compact_keep_positions(&rest, 0) {
            Ok(()) => {},
            Err(e) => {
                assert(false);
                return Err(e);
            },
        }
        cache.set_current_pos(pos - n);
        let record = SwapRecord { layer, count: n, keys, values };
        self.records.push(record);
        proof {
            let kept = before.without_prefix(n);
            assert forall|h: int| 0 <= h < before.shape.kv_heads implies #[trigger] cache@.keys[h]
                == kept.keys[h] by {
                assert(cache@.keys[h] == gathered(before.keys[h], span(n, pos), 0));
            }
            assert forall|h: int| 0 <= h < before.shape.kv_heads implies #[trigger] cache@.values[h]
                == kept.values[h] by {
                assert(cache@.values[h] == gathered(before.values[h], span(n, pos), 0));
            }
            assert(cache@.starts =~= kept.starts);
            assert(cache@.keys =~= kept.keys);
            assert(cache@.values =~= kept.values);
            assert(cache@ =~= kept);
            assert(self@ =~= record_views(out).push(record@));
        }
        Ok(n)
    }

    /// Moves the latest prefix of `layer` back before its tokens; returns how many there were, zero
    /// when none is out. Refused, with nothing moved, when the heads hold different positions, when
    /// the prefix has another shape, or when it does not fit.
    pub fn recall_layer(&mut self, layer: usize, cache: &mut KVCache) -> (r: Result<usize, KvError>)
        requires
            old(cache).wf(),
        ensures
            final(cache).wf(),
            (match recall_refusal(old(cache)@, old(self)@, layer) {
                Some(e) => r == Err::<usize, KvError>(e) && final(cache)@ == old(cache)@ && final(
                    self)@ == old(self)@,
                None => r matches Ok(n) && recalled(
                    old(cache)@,
                    old(self)@,
                    layer,
                    n,
                    final(cache)@,
                    final(self)@,
                ),
            }),
    {
        let ghost before = cache@;
        let ghost records = self.records@;
        let ghost views = self@;
        proof {
            cache.lemma_wf();
        }
        let mut i: usize = self.records.len();
        while i > 0 && self.records[i - 1].layer != layer
            invariant
                i <= self.records@.len(),
                self.records@ == records,
                views == record_views(records),
                forall|j: int| i <= j < records.len() ==> (#[trigger] views[j]).layer != layer,
            decreases i,
        {
            assert(views[i - 1].layer == records[i - 1].layer);
            i = i - 1;
        }
        proof {
            lemma_latest_skips(views, layer, i as int);
            if i > 0 {
                assert(views.take(i as int).last() == views[i - 1]);
            }
        }
        if i == 0 {
            return Ok(0);
        }
        let at: usize = i - 1;
        assert(latest(views, layer) == at);
        if cache.is_ragged() {
            return Err(KvError::Ragged);
        }
        let width: usize = cache.row_width();
        let count: usize = self.records[at].count;
        if !planes_have_shape(cache, &self.records[at].keys, count, width) || !planes_have_shape(
            cache,
            &self.records[at].values,
            count,
            width,
        ) {
            return Err(KvError::ShapeMismatch);
        }
        let pos: usize = cache.current_pos();
        if count > cache.capacity() - pos {
            return Err(KvError::CapacityExceeded);
        }
        let tokens: Vec<usize> = span_list(0, pos);
        match cache.compact_keep_positions(&tokens, count) {
            Ok(()) => {},
            Err(e) => {
                assert(false);
                return Err(e);
            },
        }
        let ghost moved = cache@;
        let record = self.records.remove(at);
        proof {
            assert(planes_fit(moved, record.keys.deep_view(), count));
            assert(planes_fit(moved, record.values.deep_view(), count));
        }
        paste_prefix(cache, Side::Key, &record.keys, count);
        proof {
            assert(planes_fit(cache@, record.values.deep_view(), count));
        }
        paste_prefix(cache, Side::Value, &record.values, count);
        cache.set_current_pos(pos + count);
        proof {
            let expected = before.with_prefix(record@);
            assert(record@ == views[at as int]);
            assert forall|h: int| 0 <= h < before.shape.kv_heads implies #[trigger] cache@.keys[h]
                == expected.keys[h] by {
                assert(record@.keys[h].len() == count);
                assert(cache@.keys[h] =~= expected.keys[h]);
            }
            assert forall|h: int| 0 <= h < before.shape.kv_heads implies #[trigger] cache@.values[h]
                == expected.values[h] by {
                assert(record@.values[h].len() == count);
                assert(cache@.values[h] =~= expected.values[h]);
            }
            assert(cache@.keys =~= expected.keys);
            assert(cache@.values =~= expected.values);
            assert(cache@.starts =~= before.starts);
            assert(cache@ =~= expected);
            assert(self@ =~= views.remove(at as int));
        }
        Ok(count)
    }
}

/// Moving a prefix out and back leaves the cache as it was.
pub proof fn lemma_recall_undoes_offload(c: CacheView, n: usize, r: RecordView)
    requires
        c.wf(),
        !c.is_ragged(),
        0 < n <= c.current_pos,
        r.count == n,
        r.keys == c.prefix_rows(Side::Key, n as int),
        r.values == c.prefix_rows(Side::Value, n as int),
    ensures
        record_fits(c.without_prefix(n), r),
        c.without_prefix(n).current_pos + n <= c.shape.capacity,
        !c.without_prefix(n).is_ragged(),
        c.without_prefix(n).with_prefix(r) == c,
{
    let out = c.without_prefix(n);
    let back = out.with_prefix(r);
    assert forall|h: int| 0 <= h < c.shape.kv_heads implies #[trigger] back.keys[h]
        == c.keys[h] by {
        assert(c.plane(Side::Key)[h].len() == c.shape.capacity);
        assert(back.keys[h] =~= c.keys[h]);
    }
    assert forall|h: int| 0 <= h < c.shape.kv_heads implies #[trigger] back.values[h]
        == c.values[h] by {
        assert(c.plane(Side::Value)[h].len() == c.shape.capacity);
        assert(back.values[h] =~= c.values[h]);
    }
    assert forall|h: int| 0 <= h < c.starts.len() implies #[trigger] c.starts[h] == 0 by {}
    assert(back.keys =~= c.keys);
    assert(back.values =~= c.values);
    assert(back.starts =~= c.starts);
    assert(back =~= c);
    assert forall|h: int| 0 <= h < r.keys.len() implies (#[trigger] r.keys[h]).len() == n by {
        assert(c.plane(Side::Key)[h].len() == c.shape.capacity);
    }
    assert forall|h: int| 0 <= h < r.values.len() implies (#[trigger] r.values[h]).len() == n by {
        assert(c.plane(Side::Value)[h].len() == c.shape.capacity);
    }
    assert forall|h: int, p: int| 0 <= h < r.keys.len() && 0 <= p < n implies (
    #[trigger] r.keys[h][p]).len() == c.shape.row_bytes()->0 by {
        assert(r.keys[h][p] == c.plane(Side::Key)[h][p]);
    }
    assert forall|h: int, p: int| 0 <= h < r.values.len() && 0 <= p < n implies (
    #[trigger] r.values[h][p]).len() == c.shape.row_bytes()->0 by {
        assert(r.values[h][p] == c.plane(Side::Value)[h][p]);
    }
}

/// The latest record of a layer: no record behind it is of the layer, and there is none only where no
/// record is.
pub proof fn lemma_latest_is_the_last_of_its_layer(records: Seq<RecordView>, layer: usize)
    ensures
        -1 <= latest(records, layer) < records.len(),
        latest(records, layer) >= 0 ==> records[latest(records, layer)].layer == layer,
        forall|i: int|
            latest(records, layer) < i < records.len() ==> (#[trigger] records[i]).layer != layer,
    decreases records.len(),
{
    if records.len() > 0 && records.last().layer != layer {
        let init = records.drop_last();
        lemma_latest_is_the_last_of_its_layer(init, layer);
        assert forall|i: int| latest(records, layer) < i < records.len() implies (
        #[trigger] records[i]).layer != layer by {
            if i < init.len() {
                assert(init[i] == records[i]);
            }
        }
    }
}

/// What moving a prefix out does to the rows: the first `n` rows of every head are in a new record
/// behind the others, the rows behind them move to the front, and the cursor goes back by `n`; `n` is
/// what was asked for, or all there is.
pub proof fn lemma_offload_moves_the_oldest_rows(
    before: CacheView,
    out: Seq<RecordView>,
    layer: usize,
    prefix: usize,
    n: usize,
    after: CacheView,
    out_after: Seq<RecordView>,
    h: int,
    p: int,
)
    requires
        before.wf(),
        !before.is_ragged(),
        offloaded(before, out, layer, prefix, n, after, out_after),
        0 <= h < before.shape.kv_heads,
        0 <= p < before.current_pos,
    ensures
        n <= prefix,
        n <= before.current_pos,
        n == prefix || n == before.current_pos,
        after.shape == before.shape,
        after.current_pos == before.current_pos - n,
        n == 0 ==> out_after == out,
        n > 0 ==> out_after.len() == out.len() + 1,
        forall|i: int| 0 <= i < out.len() ==> #[trigger] out_after[i] == out[i],
        n > 0 ==> out_after[out.len() as int].layer == layer,
        n > 0 ==> out_after[out.len() as int].count == n,
        p < n ==> out_after[out.len() as int].keys[h][p] == before.keys[h][p],
        p < n ==> out_after[out.len() as int].values[h][p] == before.values[h][p],
        p >= n ==> after.keys[h][p - n] == before.keys[h][p],
        p >= n ==> after.values[h][p - n] == before.values[h][p],
{
    assert(before.plane(Side::Key)[h].len() == before.shape.capacity);
    assert(before.plane(Side::Value)[h].len() == before.shape.capacity);
    if n > 0 && p >= n {
        let keep = span(n, before.current_pos);
        assert(keep[p - n] == p);
    }
}

/// What moving a prefix back does to the rows: those of the layer's latest record stand at the front,
/// those that were there stand behind them, and that record alone is gone.
pub proof fn lemma_recall_puts_the_rows_in_front(
    before: CacheView,
    out: Seq<RecordView>,
    layer: usize,
    at: int,
    n: usize,
    after: CacheView,
    out_after: Seq<RecordView>,
    h: int,
    p: int,
)
    requires
        before.wf(),
        !before.is_ragged(),
        0 <= at < out.len(),
        out[at].layer == layer,
        forall|i: int| at < i < out.len() ==> (#[trigger] out[i]).layer != layer,
        recall_refusal(before, out, layer) is None,
        recalled(before, out, layer, n, after, out_after),
        0 <= h < before.shape.kv_heads,
        0 <= p < before.current_pos + n,
    ensures
        n == out[at].count,
        after.shape == before.shape,
        after.starts == before.starts,
        after.current_pos == before.current_pos + n,
        p < n ==> after.keys[h][p] == out[at].keys[h][p],
        p < n ==> after.values[h][p] == out[at].values[h][p],
        p >= n ==> after.keys[h][p] == before.keys[h][p - n],
        p >= n ==> after.values[h][p] == before.values[h][p - n],
        out_after.len() == out.len() - 1,
        forall|i: int| 0 <= i < at ==> #[trigger] out_after[i] == out[i],
        forall|i: int| at < i < out.len() ==> out_after[i - 1] == #[trigger] out[i],
{
    lemma_latest_is_the_last_of_its_layer(out, layer);
    let found = latest(out, layer);
    if found < at {
        assert(out[at].layer != layer);
    }
    assert(found == at);
    assert(before.plane(Side::Key)[h].len() == before.shape.capacity);
    assert(before.plane(Side::Value)[h].len() == before.shape.capacity);
    assert(out[at].keys[h].len() == n);
    assert(out[at].values[h].len() == n);
}

/// When moving a prefix back is refused: where a record of the layer is out, and the heads hold
/// different numbers of tokens, or the record's rows are not the cache's, or they do not fit. Without a
/// record there is nothing to refuse, and nothing changes.
pub proof fn lemma_when_a_recall_is_refused(before: CacheView, out: Seq<RecordView>, layer: usize, at: int)
    requires
        0 <= at < out.len() ==> out[at].layer == layer,
        forall|i: int| at < i < out.len() && 0 <= i ==> (#[trigger] out[i]).layer != layer,
        -1 <= at < out.len(),
    ensures
        at < 0 ==> recall_refusal(before, out, layer) is None,
        at >= 0 && before.is_ragged() <==> recall_refusal(before, out, layer) == Some(
            KvError::Ragged,
        ),
        at >= 0 && !before.is_ragged() && before.current_pos + out[at].count
            <= before.shape.capacity && planes_fit(before, out[at].keys, out[at].count)
            && planes_fit(before, out[at].values, out[at].count) ==> recall_refusal(
            before,
            out,
            layer,
        ) is None,
        at >= 0 && recall_refusal(before, out, layer) is None ==> {
            &&& before.current_pos + out[at].count <= before.shape.capacity
            &&& out[at].keys.len() == before.shape.kv_heads
            &&& out[at].values.len() == before.shape.kv_heads
            &&& forall|h: int|
                0 <= h < before.shape.kv_heads ==> (#[trigger] out[at].keys[h]).len()
                    == out[at].count
            &&& forall|h: int|
                0 <= h < before.shape.kv_heads ==> (#[trigger] out[at].values[h]).len()
                    == out[at].count
            &&& forall|h: int, p: int|
                0 <= h < before.shape.kv_heads && 0 <= p < out[at].count ==> (
                #[trigger] out[at].keys[h][p]).len() == before.shape.row_bytes()->0
            &&& forall|h: int, p: int|
                0 <= h < before.shape.kv_heads && 0 <= p < out[at].count ==> (
                #[trigger] out[at].values[h][p]).len() == before.shape.row_bytes()->0
        },
        recall_refusal(before, out, layer) == Some(KvError::CapacityExceeded) ==> before.current_pos
            + out[at].count > before.shape.capacity,
{
    lemma_latest_is_the_last_of_its_layer(out, layer);
    let found = latest(out, layer);
    if found < at {
        assert(out[at].layer != layer);
    }
    if at < found {
        assert(out[found].layer != layer);
    }
}

} // verus!
