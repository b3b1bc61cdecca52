//! Attention over selected positions of a layer.

use crate::attention::{attended, spec_route, Q2Gate};
use crate::codec::RowCodec;
use crate::dtype::{DType, KVLayout};
use crate::kv_cache::{CacheView, KVCache, KvError, Side};
use crate::rows::RowBuffer;
use crate::selective_read::{gather_failed, gather_refusal, gather_selected_kv, in_single_precision,
    lemma_pages_name_their_positions, lemma_pages_stay_in_frame, pages_fit, row_widened, selected_positions, side_gathered,
    ReadGranularity, SelectedRead};
use crate::standard_format::{BackendCaps, StandardFormat};
use crate::swap::span;
use vstd::prelude::*;

verus! {

/// The rows that a step attends to.
pub struct SelectedRows {
    /// Keys in single precision, head after head.
    pub keys: RowBuffer,
    /// Values in single precision, head after head.
    pub values: RowBuffer,
    /// How the rows lie.
    pub layout: KVLayout,
    pub n_selected: usize,
    pub n_kv_heads: usize,
    pub head_dim: usize,
    /// The rows came from a host copy: the query is read to the host, and the output written back.
    pub by_host: bool,
}

/// How a step over selected positions goes on.
pub enum SelectedStep {
    /// Nothing is attended to, and the output is zero.
    Zero,
    Attend(SelectedRows),
}

/// The copy of a layer that is read: the layer itself unless it is on a device.
pub open spec fn read_source(cache: KVCache, host_copy: Option<&KVCache>) -> Option<KVCache> {
    if !cache@.shape.on_device {
        Some(cache)
    } else {
        match host_copy {
            Some(c) => Some(*c),
            None => None,
        }
    }
}

/// The rows are those of the positions.
pub open spec fn rows_selected<C: RowCodec>(
    codec: &C,
    c: CacheView,
    positions: Seq<usize>,
    rows: SelectedRows,
) -> bool {
    &&& rows.keys.wf()
    &&& rows.values.wf()
    &&& rows.layout == KVLayout::HeadMajor
    &&& rows.n_selected == positions.len()
    &&& rows.n_kv_heads == c.shape.kv_heads
    &&& rows.head_dim == c.shape.head_dim
    &&& side_gathered(codec, c, Side::Key, positions, rows.keys@)
    &&& side_gathered(codec, c, Side::Value, positions, rows.values@)
}

/// Every selected token is a position that there is room for.
pub open spec fn selection_fits(select: Seq<usize>, granularity: ReadGranularity, capacity: usize) -> bool {
    match granularity {
        ReadGranularity::Token => forall|i: int|
            0 <= i < select.len() ==> #[trigger] select[i] < capacity,
        ReadGranularity::Page { page_size } => pages_fit(select, page_size as usize),
    }
}

/// How a step over selected positions goes on: zero where nothing is selected or there; an error where
/// there is no copy to read, or the gather failed; and else the rows of the positions.
pub open spec fn step_selected<C: RowCodec>(
    codec: &C,
    cache: KVCache,
    host_copy: Option<&KVCache>,
    select: Seq<usize>,
    granularity: ReadGranularity,
    r: Result<SelectedStep, KvError>,
) -> bool {
    let positions = selected_positions(select, granularity, cache@.current_pos);
    let source = read_source(cache, host_copy);
    if positions.len() == 0 {
        r matches Ok(SelectedStep::Zero)
    } else {
        match source {
            None => r == Err::<SelectedStep, KvError>(KvError::NotOnHost),
            Some(c) => match r {
                Ok(SelectedStep::Zero) => false,
                Ok(SelectedStep::Attend(rows)) => {
                    &&& gather_refusal(c@.shape, positions.len()) is None
                    &&& rows_selected(codec, c@, positions, rows)
                    &&& rows.by_host == cache@.shape.on_device
                },
                Err(e) => gather_failed(codec, c@, positions, e),
            },
        }
    }
}

impl StandardFormat {
    /// The rows that a step over selected positions attends to. For a layer on a device they come
    /// from a host copy.
    pub fn attention_into_selected<C: RowCodec>(
        &self,
        codec: &C,
        host_copy: Option<&KVCache>,
        select: &Vec<usize>,
        granularity: ReadGranularity,
    ) -> (r: Result<SelectedStep, KvError>)
        requires
            self.inner().wf(),
            host_copy matches Some(c) ==> c.wf() && c@.shape.capacity
                >= self.inner()@.shape.capacity,
            selection_fits(select@, granularity, self.inner()@.shape.capacity),
        ensures
            step_selected(codec, self.inner(), host_copy, select@, granularity, r),
    {
        let positions = match self.plan_selected(select, granularity) {
            SelectedRead::Zero => {
                return Ok(SelectedStep::Zero);
            },
            SelectedRead::Gather(list) => list,
            SelectedRead::SnapshotThenGather(list) => list,
        };
        let cache: &KVCache = self.plan_lock();
        let on_device: bool = cache.on_device();
        let source: &KVCache = if !on_device {
            cache
        } else {
            match host_copy {
                Some(c) => c,
                None => {
                    return Err(KvError::NotOnHost);
                },
            }
        };
        proof {
            cache.lemma_wf();
            if let ReadGranularity::Page { page_size } = granularity {
                lemma_pages_stay_in_frame(select@, page_size as usize, cache@.current_pos);
            }
            assert(forall|i: int|
                0 <= i < positions@.len() ==> #[trigger] positions@[i] < source@.shape.capacity);
        }
        let n_selected: usize = positions.len();
        let shape = source.shape();
        match gather_selected_kv(source, codec, &positions) {
            Ok((keys, values)) => Ok(
                SelectedStep::Attend(
                    SelectedRows {
                        keys,
                        values,
                        layout: KVLayout::HeadMajor,
                        n_selected,
                        n_kv_heads: shape.kv_heads,
                        head_dim: shape.head_dim,
                        by_host: on_device,
                    },
                ),
            ),
            Err(e) => Err(e),
        }
    }
}

/// Selecting every position of a layer on the host is a dense step: it reads, for every head, the row of
/// every position that the dense step attends to and no other, in order and in single precision. A
/// single-precision layer whose rows fit always answers so, and with its own rows.
pub proof fn lemma_full_selection_is_a_dense_step<C: RowCodec>(
    codec: &C,
    cache: KVCache,
    caps: BackendCaps,
    gate: Q2Gate,
    r: Result<SelectedStep, KvError>,
)
    requires
        cache@.wf(),
        !cache@.is_ragged(),
        !cache@.shape.on_device,
        cache@.shape.opaque is None,
        !caps.is_gpu,
        cache@.current_pos > 0,
        step_selected(
            codec,
            cache,
            None,
            span(0, cache@.current_pos),
            ReadGranularity::Token,
            r,
        ),
    ensures
        cache@.shape.dtype == DType::F32 && gather_refusal(
            cache@.shape,
            cache@.current_pos as nat,
        ) is None ==> r matches Ok(SelectedStep::Attend(_)),
        r matches Ok(step) ==> step matches SelectedStep::Attend(rows) && {
            &&& rows.n_kv_heads == cache@.shape.kv_heads
            &&& rows.head_dim == cache@.shape.head_dim
            &&& !rows.by_host
            &&& forall|h: int|
                0 <= h < cache@.shape.kv_heads ==> #[trigger] attended(
                    spec_route(cache@, caps, gate, 1, None),
                    None,
                    h,
                    cache@.current_pos - 1,
                ) == (0int, rows.n_selected as int)
            &&& forall|h: int, p: int|
                0 <= h < cache@.shape.kv_heads && 0 <= p < rows.n_selected ==> #[trigger] row_read_at(
                    codec,
                    cache@,
                    rows,
                    h,
                    p,
                )
        },
{
    let c = cache@;
    let all = span(0, c.current_pos);
    assert(all.len() == c.current_pos);
    assert(selected_positions(all, ReadGranularity::Token, c.current_pos) == all);
    if let Ok(SelectedStep::Attend(rows)) = r {
        assert forall|h: int, p: int|
            0 <= h < c.shape.kv_heads && 0 <= p < rows.n_selected implies #[trigger] row_read_at(
            codec,
            c,
            rows,
            h,
            p,
        ) by {
            assert(all[p] == p);
            assert(row_widened(
                codec,
                c,
                c.plane(Side::Key)[h][all[p] as int],
                rows.keys@[h * all.len() + p],
            ));
            assert(row_widened(
                codec,
                c,
                c.plane(Side::Value)[h][all[p] as int],
                rows.values@[h * all.len() + p],
            ));
        }
    }
}

/// Row `p` of head `h` is the layer's key and value at position `p`, in single precision.
pub open spec fn row_read_at<C: RowCodec>(
    codec: &C,
    c: CacheView,
    rows: SelectedRows,
    h: int,
    p: int,
) -> bool {
    &&& row_widened(codec, c, c.keys[h][p], rows.keys@[h * rows.n_selected + p])
    &&& row_widened(codec, c, c.values[h][p], rows.values@[h * rows.n_selected + p])
}

/// A step over a selection attends to nothing exactly where nothing of the frame is selected, and in
/// a single-precision layer on the host it fails only where its rows would not fit a buffer.
pub proof fn lemma_empty_selection_attends_to_nothing<C: RowCodec>(
    codec: &C,
    cache: KVCache,
    host_copy: Option<&KVCache>,
    select: Seq<usize>,
    granularity: ReadGranularity,
    r: Result<SelectedStep, KvError>,
)
    requires
        cache@.wf(),
        cache@.current_pos > 0,
        selection_fits(select, granularity, cache@.shape.capacity),
        step_selected(codec, cache, host_copy, select, granularity, r),
        granularity matches ReadGranularity::Page { page_size } ==> page_size > 0,
    ensures
        r matches Ok(SelectedStep::Zero) <==> match granularity {
            ReadGranularity::Token => select.len() == 0,
            ReadGranularity::Page { page_size } => forall|x: usize|
                x < cache@.current_pos ==> !select.contains(#[trigger] page_of(x, page_size)),
        },
        r is Err && !cache@.shape.on_device && cache@.shape.dtype == DType::F32 ==> r
            == Err::<SelectedStep, KvError>(KvError::CapacityExceeded),
{
    let positions = selected_positions(select, granularity, cache@.current_pos);
    if let ReadGranularity::Page { page_size } = granularity {
        lemma_selected_pages(select, page_size, cache@.current_pos);
        if positions.len() > 0 {
            assert(positions.contains(positions[0]));
        }
        if r matches Ok(SelectedStep::Zero) {
            assert forall|x: usize| x < cache@.current_pos implies !select.contains(
                #[trigger] page_of(x, page_size),
            ) by {
                assert(!positions.contains(x));
            }
        }
    }
}

/// The positions of selected pages are those whose page is selected.
proof fn lemma_selected_pages(select: Seq<usize>, page_size: u32, current_pos: usize)
    requires
        page_size > 0,
        pages_fit(select, page_size as usize),
    ensures
        forall|x: usize| #[trigger]
            selected_positions(
                select,
                ReadGranularity::Page { page_size },
                current_pos,
            ).contains(x) <==> x < current_pos && select.contains(page_of(x, page_size)),
{
    let positions = selected_positions(select, ReadGranularity::Page { page_size }, current_pos);
    assert forall|x: usize| #[trigger] positions.contains(x) <==> x < current_pos
        && select.contains(page_of(x, page_size)) by {
        if select.len() > 0 {
            lemma_pages_name_their_positions(select, page_size as usize, current_pos, x);
        }
    }
}

/// What a step over a selection attends to. By tokens, the rows are those of the selected positions,
/// one for one and in order. By pages, there is a row for every position of the frame whose page is
/// selected, and none for any other. The rows are of every head, head after head, and come from the
/// layer itself unless it is on a device.
pub proof fn lemma_selected_step_reads_the_selection<C: RowCodec>(
    codec: &C,
    cache: KVCache,
    host_copy: Option<&KVCache>,
    select: Seq<usize>,
    granularity: ReadGranularity,
    rows: SelectedRows,
    c: CacheView,
    h: int,
    p: usize,
    i: int,
)
    requires
        cache@.wf(),
        selection_fits(select, granularity, cache@.shape.capacity),
        step_selected(
            codec,
            cache,
            host_copy,
            select,
            granularity,
            Ok(SelectedStep::Attend(rows)),
        ),
        granularity matches ReadGranularity::Page { page_size } ==> page_size > 0,
        p < cache@.current_pos,
        c == if cache@.shape.on_device {
            (host_copy->0)@
        } else {
            cache@
        },
        0 <= h < c.shape.kv_heads,
        0 <= i < rows.n_selected,
    ensures
        cache@.shape.on_device ==> host_copy is Some,
        rows.by_host == cache@.shape.on_device,
        rows.layout == KVLayout::HeadMajor,
        rows.n_kv_heads == c.shape.kv_heads,
        rows.head_dim == c.shape.head_dim,
        rows.keys@.len() == rows.n_kv_heads * rows.n_selected,
        rows.values@.len() == rows.n_kv_heads * rows.n_selected,
        match granularity {
            ReadGranularity::Token => rows.n_selected == select.len() && row_is(
                codec,
                c,
                rows,
                h,
                i,
                select[i] as int,
            ),
            ReadGranularity::Page { page_size } => {
                &&& select.contains(page_of(p, page_size)) ==> exists|x: int|
                    0 <= x < rows.n_selected && #[trigger] row_is(codec, c, rows, h, x, p as int)
                &&& exists|x: usize|
                    x < cache@.current_pos && select.contains(#[trigger] page_of(x, page_size))
                        && row_is(codec, c, rows, h, i, x as int)
            },
        },
{
    let positions = selected_positions(select, granularity, cache@.current_pos);
    lemma_row_of_the_position(codec, c, positions, rows, h, i);
    if let ReadGranularity::Page { page_size } = granularity {
        lemma_selected_pages(select, page_size, cache@.current_pos);
        let y = positions[i];
        assert(positions.contains(y));
        assert(select.contains(page_of(y, page_size)));
        if select.contains(page_of(p, page_size)) {
            assert(positions.contains(p));
            let x = choose|x: int| 0 <= x < positions.len() && positions[x] == p;
            lemma_row_of_the_position(codec, c, positions, rows, h, x);
            assert(row_is(codec, c, rows, h, x, p as int));
        }
    }
}

/// A gathered row is that of its position.
proof fn lemma_row_of_the_position<C: RowCodec>(
    codec: &C,
    c: CacheView,
    positions: Seq<usize>,
    rows: SelectedRows,
    h: int,
    x: int,
)
    requires
        rows_selected(codec, c, positions, rows),
        0 <= h < c.shape.kv_heads,
        0 <= x < positions.len(),
    ensures
        row_is(codec, c, rows, h, x, positions[x] as int),
{
    assert(row_widened(
        codec,
        c,
        c.plane(Side::Key)[h][positions[x] as int],
        rows.keys@[h * positions.len() + x],
    ));
    assert(row_widened(
        codec,
        c,
        c.plane(Side::Value)[h][positions[x] as int],
        rows.values@[h * positions.len() + x],
    ));
}

/// The page that a position is on.
pub open spec fn page_of(p: usize, page_size: u32) -> usize {
    p / page_size as usize
}

/// Row `i` of head `h` is the key and the value at position `p`, in single precision.
pub open spec fn row_is<C: RowCodec>(
    codec: &C,
    c: CacheView,
    rows: SelectedRows,
    h: int,
    i: int,
    p: int,
) -> bool {
    &&& in_single_precision(codec, c, c.keys[h][p], rows.keys@[h * rows.n_selected + i])
    &&& in_single_precision(codec, c, c.values[h][p], rows.values@[h * rows.n_selected + i])
}

} // verus!
