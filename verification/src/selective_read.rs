//! Reading only the positions that a read plan selects.

use crate::codec::{misfits, recoded, spec_typed, typed, RowCodec, RowFormat};
use crate::dtype::DType;
use crate::kv_cache::{CacheShape, CacheView, KVCache, KvError, Side};
use crate::rows::{lemma_row_in_bounds, RowBuffer};
use crate::standard_format::StandardFormat;
use crate::swap::{span, span_list};
use vstd::prelude::*;

verus! {

/// What a selected index names.
#[derive(Clone, Copy, Debug, PartialEq, Eq, Structural)]
pub enum ReadGranularity {
    /// A position.
    Token,
    /// A page of positions.
    Page { page_size: u32 },
}

/// The indices a read stage selects.
pub struct KVReadPlan {
    pub granularity: ReadGranularity,
    pub select: Vec<usize>,
}

/// The positions of one page that the frame has.
pub open spec fn page_positions(page: usize, page_size: usize, current_pos: usize) -> Seq<usize> {
    let start = page * page_size;
    let end = if start + page_size < current_pos {
        start + page_size
    } else {
        current_pos as int
    };
    if start < end {
        span(start as usize, end as usize)
    } else {
        Seq::empty()
    }
}

/// The positions of a list of pages, page after page.
pub open spec fn pages_positions(pages: Seq<usize>, page_size: usize, current_pos: usize) -> Seq<
    usize,
>
    decreases pages.len(),
{
    if pages.len() == 0 {
        Seq::empty()
    } else {
        pages_positions(pages.drop_last(), page_size, current_pos) + page_positions(
            pages.last(),
            page_size,
            current_pos,
        )
    }
}

/// No page reaches past the machine's range.
pub open spec fn pages_fit(pages: Seq<usize>, page_size: usize) -> bool {
    forall|i: int|
        0 <= i < pages.len() ==> #[trigger] pages[i] * page_size + page_size <= usize::MAX
}

/// The positions of the pages, in page order, as far as the frame has them.
pub fn page_indices_to_positions(page_indices: &Vec<usize>, page_size: usize, current_pos: usize)
    -> (r: Vec<usize>)
    requires
        pages_fit(page_indices@, page_size),
    ensures
        r@ == pages_positions(page_indices@, page_size, current_pos),
{
    let mut positions: Vec<usize> = Vec::new();
    let mut i: usize = 0;
    proof {
        assert(page_indices@.take(0).len() == 0);
    }
    while i < page_indices.len()
        invariant
            i <= page_indices@.len(),
            pages_fit(page_indices@, page_size),
            positions@ == pages_positions(page_indices@.take(i as int), page_size, current_pos),
        decreases page_indices@.len() - i,
    {
        let page: usize = page_indices[i];
        proof {
            assert(page_indices@[i as int] * page_size + page_size <= usize::MAX);
            assert(0 <= page * page_size) by (nonlinear_arith)
                requires
                    0 <= page,
                    0 <= page_size,
            ;
        }
        let start: usize = page * page_size;
        let limit: usize = start + page_size;
        let end: usize = if limit < current_pos {
            limit
        } else {
            current_pos
        };
        let ghost before = positions@;
        let mut pos: usize = start;
        while pos < end
            invariant
                start <= pos,
                pos <= end || start >= end,
                start >= end ==> pos == start,
                positions@ == before + (if start < pos {
                    span(start, pos)
                } else {
                    Seq::empty()
                }),
            decreases end - pos,
        {
            positions.push(pos);
            pos = pos + 1;
            proof {
                assert(positions@ =~= before + span(start, pos));
            }
        }
        proof {
            let next = page_indices@.take(i + 1);
            assert(next.drop_last() =~= page_indices@.take(i as int));
            assert(next.last() == page);
            assert(positions@ =~= before + page_positions(page, page_size, current_pos));
        }
        i = i + 1;
    }
    proof {
        assert(page_indices@.take(i as int) =~= page_indices@);
    }
    positions
}

/// Every position that a page expansion names is in the frame.
pub proof fn lemma_pages_stay_in_frame(pages: Seq<usize>, page_size: usize, current_pos: usize)
    requires
        pages_fit(pages, page_size),
    ensures
        forall|i: int|
            0 <= i < pages_positions(pages, page_size, current_pos).len()
                ==> #[trigger] pages_positions(pages, page_size, current_pos)[i] < current_pos,
    decreases pages.len(),
{
    if pages.len() > 0 {
        let init = pages.drop_last();
        assert forall|i: int| 0 <= i < init.len() implies #[trigger] init[i] * page_size + page_size
            <= usize::MAX by {
            assert(pages[i] * page_size + page_size <= usize::MAX);
        }
        lemma_pages_stay_in_frame(init, page_size, current_pos);
        let page = pages.last();
        assert(pages[pages.len() - 1] * page_size + page_size <= usize::MAX);
        assert(0 <= page * page_size) by (nonlinear_arith)
            requires
                0 <= page,
                0 <= page_size,
        ;
        let first = pages_positions(init, page_size, current_pos);
        let rest = page_positions(page, page_size, current_pos);
        let all = pages_positions(pages, page_size, current_pos);
        assert(all == first + rest);
        assert forall|i: int| 0 <= i < all.len() implies #[trigger] all[i] < current_pos by {
            if i < first.len() {
                assert(all[i] == first[i]);
            } else {
                assert(all[i] == rest[i - first.len()]);
            }
        }
    }
}

/// The rows of one side, at the selected positions: `rows[h * n + i]` is head `h`'s row at
/// `select[i]`, in single precision.
pub open spec fn side_gathered<C: RowCodec>(
    codec: &C,
    c: CacheView,
    side: Side,
    select: Seq<usize>,
    rows: Seq<Seq<u8>>,
) -> bool {
    &&& rows.len() == c.shape.kv_heads * select.len()
    &&& forall|h: int, i: int|
        0 <= h < c.shape.kv_heads && 0 <= i < select.len() ==> #[trigger] row_widened(
            codec,
            c,
            c.plane(side)[h][select[i] as int],
            rows[h * select.len() + i],
        )
}

/// A row in single precision: as it is stored, or as the coder widened it.
pub open spec fn row_widened<C: RowCodec>(codec: &C, c: CacheView, row: Seq<u8>, out: Seq<u8>) -> bool {
    if c.shape.dtype == DType::F32 {
        out == row
    } else {
        recoded(
            codec,
            row,
            c.shape.spec_row_format(),
            spec_typed(DType::F32, c.shape.head_dim),
            out,
        )
    }
}

/// Widened, the row came back in another width.
pub open spec fn widens_wrong<C: RowCodec>(codec: &C, c: CacheView, row: Seq<u8>) -> bool {
    misfits(
        codec,
        row,
        c.shape.spec_row_format(),
        spec_typed(DType::F32, c.shape.head_dim),
        (c.shape.head_dim * 4) as nat,
    )
}

/// Widened, a selected row of the side came back in another width.
pub open spec fn side_misfits<C: RowCodec>(
    codec: &C,
    c: CacheView,
    side: Side,
    select: Seq<usize>,
) -> bool {
    exists|h: int, i: int|
        0 <= h < c.shape.kv_heads && 0 <= i < select.len() && #[trigger] widens_wrong(
            codec,
            c,
            c.plane(side)[h][select[i] as int],
        )
}

/// Gathers one side.
fn gather_side_rows<C: RowCodec>(
    cache: &KVCache,
    codec: &C,
    side: Side,
    select: &Vec<usize>,
    width: usize,
) -> (r: Option<RowBuffer>)
    requires
        cache.wf(),
        cache@.shape.opaque is None,
        cache@.shape.head_dim * 4 == width,
        cache@.shape.kv_heads * select@.len() <= usize::MAX,
        (cache@.shape.kv_heads * select@.len()) * width <= usize::MAX,
        forall|i: int| 0 <= i < select@.len() ==> #[trigger] select@[i] < cache@.shape.capacity,
    ensures
        r matches Some(rows) ==> rows.wf() && rows.width() == width && side_gathered(
            codec,
            cache@,
            side,
            select@,
            rows@,
        ),
        r is None ==> cache@.shape.dtype != DType::F32 && side_misfits(
            codec,
            cache@,
            side,
            select@,
        ),
{
    let ghost c = cache@;
    let heads: usize = cache.kv_heads();
    let n: usize = select.len();
    let shape = cache.shape();
    let from: RowFormat = shape.row_format();
    let to: RowFormat = typed(DType::F32, shape.head_dim);
    let mut rows = RowBuffer::zeroed(heads * n, width);
    let mut h: usize = 0;
    while h < heads
        invariant
            h <= heads,
            heads == c.shape.kv_heads,
            n == select@.len(),
            c == cache@,
            cache.wf(),
            shape == c.shape,
            c.shape.opaque is None,
            c.shape.head_dim * 4 == width,
            heads * n <= usize::MAX,
            from == c.shape.spec_row_format(),
            to == spec_typed(DType::F32, c.shape.head_dim),
            forall|i: int| 0 <= i < n ==> #[trigger] select@[i] < c.shape.capacity,
            rows.wf(),
            rows.width() == width,
            rows@.len() == heads * n,
            forall|x: int, i: int|
                0 <= x < h && 0 <= i < n ==> #[trigger] row_widened(
                    codec,
                    c,
                    c.plane(side)[x][select@[i] as int],
                    rows@[x * n + i],
                ),
        decreases heads - h,
    {
        proof {
            lemma_row_in_bounds(h as int, heads as int, n as int);
        }
        let base: usize = h * n;
        let mut i: usize = 0;
        while i < n
            invariant
                h < heads,
                i <= n,
                base == h * n,
                base + n <= heads * n,
                heads == c.shape.kv_heads,
                n == select@.len(),
                c == cache@,
                cache.wf(),
                shape == c.shape,
                c.shape.opaque is None,
                c.shape.head_dim * 4 == width,
                heads * n <= usize::MAX,
                from == c.shape.spec_row_format(),
                to == spec_typed(DType::F32, c.shape.head_dim),
                forall|j: int| 0 <= j < n ==> #[trigger] select@[j] < c.shape.capacity,
                rows.wf(),
                rows.width() == width,
                rows@.len() == heads * n,
                forall|x: int, j: int|
                    0 <= x <= h && 0 <= j < n && (x < h || j < i) ==> #[trigger] row_widened(
                        codec,
                        c,
                        c.plane(side)[x][select@[j] as int],
                        rows@[x * n + j],
                    ),
            decreases n - i,
        {
            let stored: Vec<u8> = cache.read_row(side, select[i], h);
            let ghost mid = rows@;
            let ghost row = c.plane(side)[h as int][select@[i as int] as int];
            if shape.dtype == DType::F32 {
                rows.write(base + i, &stored);
                assert(row_widened(codec, c, row, stored@));
            } else {
                let out = codec.recode(&stored, from, to);
                proof {
                    assert(call_ensures(C::recode, (codec, &stored, from, to), out));
                    assert(row_widened(codec, c, row, out@));
                }
                if out.len() != width {
                    assert(widens_wrong(codec, c, row));
                    return None;
                }
                rows.write(base + i, &out);
            }
            proof {
                assert forall|x: int, j: int|
                    0 <= x <= h && 0 <= j < n && (x < h || j < i + 1) implies #[trigger] row_widened(
                    codec,
                    c,
                    c.plane(side)[x][select@[j] as int],
                    rows@[x * n + j],
                ) by {
                    lemma_row_in_bounds(x, heads as int, n as int);
                    if x < h {
                        crate::rows::lemma_rows_disjoint(x, h as int, n as int);
                        assert(x * n + j != base + i);
                        assert(rows@[x * n + j] == mid[x * n + j]);
                        assert(row_widened(
                            codec,
                            c,
                            c.plane(side)[x][select@[j] as int],
                            mid[x * n + j],
                        ));
                    } else if j < i {
                        assert(rows@[x * n + j] == mid[x * n + j]);
                        assert(row_widened(
                            codec,
                            c,
                            c.plane(side)[x][select@[j] as int],
                            mid[x * n + j],
                        ));
                    }
                }
            }
            i = i + 1;
        }
        h = h + 1;
    }
    Some(rows)
}

/// Why `n` positions of a cache cannot be gathered, if they cannot: buffers on a device, a format
/// without typed elements, or rows that would not fit.
pub open spec fn gather_refusal(shape: CacheShape, n: nat) -> Option<KvError> {
    if shape.on_device {
        Some(KvError::NotOnHost)
    } else if shape.dtype == DType::U8 {
        Some(KvError::UnsupportedDType)
    } else if shape.head_dim * 4 > usize::MAX || shape.kv_heads * n > usize::MAX || (shape.kv_heads
        * n) * (shape.head_dim * 4) > usize::MAX {
        Some(KvError::CapacityExceeded)
    } else {
        None
    }
}

/// Why a gather of positions failed. One that is not refused fails only where rows are cast and the
/// coder returned one of the selected rows in another width.
pub open spec fn gather_failed<C: RowCodec>(
    codec: &C,
    c: CacheView,
    select: Seq<usize>,
    e: KvError,
) -> bool {
    match gather_refusal(c.shape, select.len()) {
        Some(refusal) => e == refusal,
        None => {
            &&& e == KvError::CodecShape
            &&& c.shape.dtype != DType::F32
            &&& side_misfits(codec, c, Side::Key, select) || side_misfits(
                codec,
                c,
                Side::Value,
                select,
            )
        },
    }
}

/// The keys and values at the selected positions, head after head, in single precision. Refused for
/// buffers on a device and for a format without typed elements; fails when the rows would not fit or
/// the coder returns a row of another width.
pub fn gather_selected_kv<C: RowCodec>(cache: &KVCache, codec: &C, select: &Vec<usize>) -> (r: Result<
    (RowBuffer, RowBuffer),
    KvError,
>)
    requires
        cache.wf(),
        forall|i: int| 0 <= i < select@.len() ==> #[trigger] select@[i] < cache@.shape.capacity,
    ensures
        r matches Err(e) ==> gather_failed(codec, cache@, select@, e),
        gather_refusal(cache@.shape, select@.len()) is Some ==> r is Err,
        r matches Ok(kv) ==> {
            &&& kv.0.wf()
            &&& kv.1.wf()
            &&& kv.0.width() == cache@.shape.head_dim * 4
            &&& kv.1.width() == cache@.shape.head_dim * 4
            &&& side_gathered(codec, cache@, Side::Key, select@, kv.0@)
            &&& side_gathered(codec, cache@, Side::Value, select@, kv.1@)
        },
{
    proof {
        cache.lemma_wf();
    }
    if cache.on_device() {
        return Err(KvError::NotOnHost);
    }
    let shape = cache.shape();
    if shape.dtype == DType::U8 {
        return Err(KvError::UnsupportedDType);
    }
    let width: usize = match shape.head_dim.checked_mul(4) {
        Some(w) => w,
        None => {
            return Err(KvError::CapacityExceeded);
        },
    };
    let count: usize = match shape.kv_heads.checked_mul(select.len()) {
        Some(n) => n,
        None => {
            return Err(KvError::CapacityExceeded);
        },
    };
    if count.checked_mul(width).is_none() {
        return Err(KvError::CapacityExceeded);
    }
    let k: RowBuffer = match gather_side_rows(cache, codec, Side::Key, select, width) {
        Some(rows) => rows,
        None => {
            return Err(KvError::CodecShape);
        },
    };
    let v: RowBuffer = match gather_side_rows(cache, codec, Side::Value, select, width) {
        Some(rows) => rows,
        None => {
            return Err(KvError::CodecShape);
        },
    };
    Ok((k, v))
}

/// How a selected read goes on.
pub enum SelectedRead {
    /// Nothing is selected, or nothing is there: the output is zero.
    Zero,
    /// Gather these positions from the cache and attend to them.
    Gather(Vec<usize>),
    /// Copy the buffers to the host first, then gather these positions from the copy.
    SnapshotThenGather(Vec<usize>),
}

/// The positions that a selection names.
pub open spec fn selected_positions(select: Seq<usize>, granularity: ReadGranularity, current_pos: usize)
    -> Seq<usize> {
    if current_pos == 0 || select.len() == 0 {
        Seq::empty()
    } else {
        match granularity {
            ReadGranularity::Token => select,
            ReadGranularity::Page { page_size } => pages_positions(
                select,
                page_size as usize,
                current_pos,
            ),
        }
    }
}

/// What a read stage sees of a layer.
pub struct ReadCtx {
    pub current_pos: usize,
    pub n_kv_heads: usize,
    pub head_dim: usize,
    /// The keys of every head in single precision, position after position.
    pub keys: RowBuffer,
    /// The values of every head in single precision, position after position.
    pub values: RowBuffer,
    /// The query of the current step, where there is one: bit patterns of single-precision numbers.
    pub query: Option<Vec<u32>>,
    /// What was accumulated of earlier queries, where it is: bit patterns of single-precision
    /// numbers.
    pub query_stats: Option<Vec<u32>>,
}

/// Chooses what a decode step reads. Implemented by plugins.
pub trait KVReadStage {
    /// The indices to read; `None` reads everything.
    fn read_plan(&self, ctx: &ReadCtx) -> Option<KVReadPlan>;
}

/// The context is the frame of `c`, in single precision.
pub open spec fn read_ctx_of<C: RowCodec>(
    codec: &C,
    c: CacheView,
    query: Option<Vec<u32>>,
    query_stats: Option<Vec<u32>>,
    ctx: ReadCtx,
) -> bool {
    &&& ctx.current_pos == c.current_pos
    &&& ctx.n_kv_heads == c.shape.kv_heads
    &&& ctx.head_dim == c.shape.head_dim
    &&& ctx.query == query
    &&& ctx.query_stats == query_stats
    &&& side_gathered(codec, c, Side::Key, span(0, c.current_pos), ctx.keys@)
    &&& side_gathered(codec, c, Side::Value, span(0, c.current_pos), ctx.values@)
}

/// `plan` is what the stage answered to the frame of `c`.
pub open spec fn stage_answered<C: RowCodec, S: KVReadStage>(
    codec: &C,
    stage: &S,
    c: CacheView,
    query: Option<Vec<u32>>,
    query_stats: Option<Vec<u32>>,
    plan: Option<KVReadPlan>,
) -> bool {
    exists|ctx: ReadCtx|
        read_ctx_of(codec, c, query, query_stats, ctx) && #[trigger] call_ensures(
            S::read_plan,
            (stage, &ctx),
            plan,
        )
}

impl StandardFormat {
    /// This format can read selected positions.
    pub fn as_selective_read(&self) -> (r: Option<&StandardFormat>)
        ensures
            r == Some(self),
    {
        Some(self)
    }

    /// How a read of the selected positions goes on: zero output when nothing is selected or
    /// present, else a gather of the positions, from a host copy when the buffers are on a device.
    pub fn plan_selected(&self, select: &Vec<usize>, granularity: ReadGranularity) -> (r:
        SelectedRead)
        requires
            granularity matches ReadGranularity::Page { page_size } ==> pages_fit(
                select@,
                page_size as usize,
            ),
        ensures
            ({
                let c = self.inner()@;
                let positions = selected_positions(select@, granularity, c.current_pos);
                match r {
                    SelectedRead::Zero => positions.len() == 0,
                    SelectedRead::Gather(list) => positions.len() > 0 && list@ == positions
                        && !c.shape.on_device,
                    SelectedRead::SnapshotThenGather(list) => positions.len() > 0 && list@
                        == positions && c.shape.on_device,
                }
            }),
    {
        let current_pos: usize = self.current_pos();
        if current_pos == 0 || select.len() == 0 {
            return SelectedRead::Zero;
        }
        let positions: Vec<usize> = match granularity {
            ReadGranularity::Token => {
                let copy = select.clone();
                assert(copy@ =~= select@);
                copy
            },
            ReadGranularity::Page { page_size } => page_indices_to_positions(
                select,
                page_size as usize,
                current_pos,
            ),
        };
        if positions.len() == 0 {
            return SelectedRead::Zero;
        }
        if self.plan_lock().on_device() {
            SelectedRead::SnapshotThenGather(positions)
        } else {
            SelectedRead::Gather(positions)
        }
    }

    /// Asks a read stage what to read. The stage sees the layer's frame in single precision, from
    /// `host_copy` when the buffers are on a device. `None`, which reads everything, when the frame
    /// cannot be read that way or the stage says so.
    pub fn read_plan<C: RowCodec, S: KVReadStage>(
        &self,
        codec: &C,
        stage: &S,
        host_copy: Option<&KVCache>,
        query: Option<Vec<u32>>,
        query_stats: Option<Vec<u32>>,
    ) -> (r: Option<KVReadPlan>)
        requires
            self.inner().wf(),
            host_copy matches Some(c) ==> c.wf(),
        ensures
            ({
                let source = if !self.inner()@.shape.on_device {
                    Some(self.inner()@)
                } else {
                    match host_copy {
                        Some(c) => Some(c@),
                        None => None,
                    }
                };
                match source {
                    None => r is None,
                    Some(c) => if gather_refusal(c.shape, c.current_pos as nat) is Some {
                        r is None
                    } else {
                        stage_answered(codec, stage, c, query, query_stats, r) || (r is None && gather_failed(
                            codec,
                            c,
                            span(0, c.current_pos),
                            KvError::CodecShape,
                        ))
                    },
                }
            }),
    {
        let own: &KVCache = self.plan_lock();
        let source: &KVCache = if own.on_device() {
            match host_copy {
                Some(c) => c,
                None => {
                    return None;
                },
            }
        } else {
            own
        };
        proof {
            source.lemma_wf();
        }
        let current_pos: usize = source.current_pos();
        let all: Vec<usize> = span_list(0, current_pos);
        match gather_selected_kv(source, codec, &all) {
            Ok((keys, values)) => {
                let ctx = ReadCtx {
                    current_pos,
                    n_kv_heads: source.kv_heads(),
                    head_dim: source.head_dim(),
                    keys,
                    values,
                    query,
                    query_stats,
                };
                let plan = stage.read_plan(&ctx);
                proof {
                    assert(read_ctx_of(codec, source@, query, query_stats, ctx));
                    assert(call_ensures(S::read_plan, (stage, &ctx), plan));
                }
                plan
            },
            Err(e) => {
                assert(gather_failed(codec, source@, span(0, source@.current_pos), e));
                None
            },
        }
    }
}

/// Selecting every position of the frame gathers every row of the frame: in a single-precision
/// cache a read of all positions reads what a full read reads.
pub proof fn lemma_select_all_reads_the_frame<C: RowCodec>(
    codec: &C,
    c: CacheView,
    side: Side,
    rows: Seq<Seq<u8>>,
    h: int,
    p: int,
)
    requires
        c.wf(),
        c.shape.dtype == DType::F32,
        side_gathered(codec, c, side, span(0, c.current_pos), rows),
        0 <= h < c.shape.kv_heads,
        0 <= p < c.current_pos,
    ensures
        rows[h * c.current_pos + p] == c.plane(side)[h][p],
{
    let select = span(0, c.current_pos);
    assert(select.len() == c.current_pos);
    assert(select[p] == p);
    assert(row_widened(
        codec,
        c,
        c.plane(side)[h][select[p] as int],
        rows[h * select.len() + p],
    ));
}

/// A position of the frame is read exactly where its page is selected.
pub proof fn lemma_pages_name_their_positions(
    pages: Seq<usize>,
    page_size: usize,
    current_pos: usize,
    p: usize,
)
    requires
        pages_fit(pages, page_size),
        page_size > 0,
    ensures
        pages_positions(pages, page_size, current_pos).contains(p) <==> p < current_pos
            && pages.contains(p / page_size),
    decreases pages.len(),
{
    let all = pages_positions(pages, page_size, current_pos);
    let w = page_size as int;
    if pages.len() > 0 {
        let init = pages.drop_last();
        let page = pages.last();
        assert forall|i: int| 0 <= i < init.len() implies #[trigger] init[i] * page_size + page_size
            <= usize::MAX by {
            assert(pages[i] * page_size + page_size <= usize::MAX);
        }
        lemma_pages_name_their_positions(init, page_size, current_pos, p);
        assert(pages[pages.len() - 1] * page_size + page_size <= usize::MAX);
        lemma_page_names_its_positions(page, page_size, current_pos, p);
        let first = pages_positions(init, page_size, current_pos);
        let rest = page_positions(page, page_size, current_pos);
        assert(all == first + rest);
        if first.contains(p) {
            let i = choose|i: int| 0 <= i < first.len() && first[i] == p;
            assert(all[i] == p);
        }
        if rest.contains(p) {
            let i = choose|i: int| 0 <= i < rest.len() && rest[i] == p;
            assert(all[first.len() + i] == p);
        }
        if all.contains(p) {
            let i = choose|i: int| 0 <= i < all.len() && all[i] == p;
            if i < first.len() {
                assert(first[i] == p);
            } else {
                assert(rest[i - first.len()] == p);
            }
        }
        let q = p / page_size;
        if init.contains(q) {
            let i = choose|i: int| 0 <= i < init.len() && init[i] == q;
            assert(pages[i] == q);
        }
        if pages.contains(q) {
            let i = choose|i: int| 0 <= i < pages.len() && pages[i] == q;
            if i < init.len() {
                assert(init[i] == q);
            }
        }
    }
}

/// A page names the positions whose quotient by the page size it is.
proof fn lemma_page_names_its_positions(
    page: usize,
    page_size: usize,
    current_pos: usize,
    p: usize,
)
    requires
        page * page_size + page_size <= usize::MAX,
        page_size > 0,
    ensures
        page_positions(page, page_size, current_pos).contains(p) <==> p < current_pos && p
            / page_size == page,
{
    let w = page_size as int;
    let start = page * w;
    let list = page_positions(page, page_size, current_pos);
    vstd::arithmetic::div_mod::lemma_fundamental_div_mod(p as int, w);
    vstd::arithmetic::div_mod::lemma_mod_bound(p as int, w);
    let d = p as int / w;
    assert(0 <= start) by (nonlinear_arith)
        requires
            start == page * w,
            w > 0,
    ;
    assert(d == page <==> start <= p < start + w) by (nonlinear_arith)
        requires
            p == w * d + p as int % w,
            0 <= p as int % w < w,
            start == page * w,
    ;
    if start <= p < start + w && p < current_pos {
        assert(list[p - start] == p);
    }
    if list.contains(p) {
        let i = choose|i: int| 0 <= i < list.len() && list[i] == p;
        assert(p == start + i);
    }
}

/// Pages are read one after the other, each from its first position on as far as the frame goes: a
/// list of pages is read as its parts are, and a single page in ascending order without a gap.
pub proof fn lemma_pages_are_read_in_order(
    pages: Seq<usize>,
    more: Seq<usize>,
    page: usize,
    page_size: usize,
    current_pos: usize,
    i: int,
)
    requires
        page * page_size + page_size <= usize::MAX,
        0 <= i,
    ensures
        pages_positions(pages + more, page_size, current_pos) == pages_positions(
            pages,
            page_size,
            current_pos,
        ) + pages_positions(more, page_size, current_pos),
        ({
            let one = pages_positions(seq![page], page_size, current_pos);
            let start = page * page_size;
            &&& i < one.len() <==> i < page_size && start + i < current_pos
            &&& i < one.len() ==> one[i] == start + i
        }),
    decreases more.len(),
{
    reveal_with_fuel(pages_positions, 2);
    let start = page * page_size;
    assert(0 <= start) by (nonlinear_arith)
        requires
            start == page * page_size,
            page_size >= 0,
    ;
    assert(seq![page].drop_last().len() == 0);
    assert(pages_positions(seq![page], page_size, current_pos) =~= page_positions(
        page,
        page_size,
        current_pos,
    ));
    if more.len() == 0 {
        assert(pages + more =~= pages);
        assert(pages_positions(pages, page_size, current_pos) + pages_positions(
            more,
            page_size,
            current_pos,
        ) =~= pages_positions(pages, page_size, current_pos));
    } else {
        lemma_pages_are_read_in_order(pages, more.drop_last(), page, page_size, current_pos, i);
        let all = pages + more;
        assert(all.drop_last() =~= pages + more.drop_last());
        assert(all.last() == more.last());
        assert(pages_positions(all, page_size, current_pos) =~= pages_positions(
            pages,
            page_size,
            current_pos,
        ) + pages_positions(more, page_size, current_pos));
    }
}

/// What is refused of a gather: buffers on a device, stores of packed bytes, and rows that no buffer
/// could hold. Nothing else is.
pub proof fn lemma_gather_is_refused(shape: CacheShape, n: nat)
    ensures
        gather_refusal(shape, n) == Some(KvError::NotOnHost) <==> shape.on_device,
        gather_refusal(shape, n) == Some(KvError::UnsupportedDType) <==> !shape.on_device
            && shape.dtype == DType::U8,
        !shape.on_device && shape.dtype != DType::U8 && (shape.kv_heads * n) * (shape.head_dim * 4)
            <= usize::MAX && shape.head_dim * 4 <= usize::MAX && shape.kv_heads * n <= usize::MAX
            ==> gather_refusal(shape, n) is None,
{
}

/// A stage that is asked what to read sees every row of the frame at its place, in single precision.
pub proof fn lemma_read_stage_sees_the_frame<C: RowCodec>(
    codec: &C,
    c: CacheView,
    query: Option<Vec<u32>>,
    query_stats: Option<Vec<u32>>,
    ctx: ReadCtx,
    h: int,
    p: int,
)
    requires
        c.wf(),
        read_ctx_of(codec, c, query, query_stats, ctx),
        0 <= h < c.shape.kv_heads,
        0 <= p < c.current_pos,
    ensures
        ctx.current_pos == c.current_pos,
        ctx.n_kv_heads == c.shape.kv_heads,
        ctx.head_dim == c.shape.head_dim,
        ctx.query == query,
        ctx.query_stats == query_stats,
        in_single_precision(codec, c, c.keys[h][p], ctx.keys@[h * c.current_pos + p]),
        in_single_precision(codec, c, c.values[h][p], ctx.values@[h * c.current_pos + p]),
{
    let all = span(0, c.current_pos);
    assert(all.len() == c.current_pos && all[p] == p);
    assert(row_widened(
        codec,
        c,
        c.plane(Side::Key)[h][all[p] as int],
        ctx.keys@[h * all.len() + p],
    ));
    assert(row_widened(
        codec,
        c,
        c.plane(Side::Value)[h][all[p] as int],
        ctx.values@[h * all.len() + p],
    ));
}

/// A stored row and the same row in single precision: the same bytes where it is stored so, and else
/// what the coder made of it.
pub open spec fn in_single_precision<C: RowCodec>(
    codec: &C,
    c: CacheView,
    row: Seq<u8>,
    out: Seq<u8>,
) -> bool {
    &&& c.shape.dtype == DType::F32 ==> out == row
    &&& c.shape.dtype != DType::F32 ==> recoded(
        codec,
        row,
        (RowFormat { dtype: c.shape.dtype, opaque: c.shape.opaque, head_dim: c.shape.head_dim }),
        (RowFormat { dtype: DType::F32, opaque: None, head_dim: c.shape.head_dim }),
        out,
    )
}

} // verus!
