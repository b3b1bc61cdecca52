//! Rows that were moved out of a layer as flat bytes, for a medium that stores bytes.

use crate::rows::{lemma_row_in_bounds, rows_of, RowBuffer};
use vstd::prelude::*;

verus! {

/// Every head has `count` rows of `width` bytes.
pub open spec fn uniform(planes: Seq<Seq<Seq<u8>>>, count: nat, width: nat) -> bool {
    &&& forall|h: int| 0 <= h < planes.len() ==> (#[trigger] planes[h]).len() == count
    &&& forall|h: int, p: int|
        0 <= h < planes.len() && 0 <= p < count ==> (#[trigger] planes[h][p]).len() == width
}

/// The bytes are the rows, head after head.
pub open spec fn flattened(
    planes: Seq<Seq<Seq<u8>>>,
    count: nat,
    width: nat,
    bytes: Seq<u8>,
) -> bool {
    let n = planes.len() * count;
    &&& bytes.len() == n * width
    &&& forall|h: int, p: int|
        0 <= h < planes.len() && 0 <= p < count ==> #[trigger] planes[h][p] == rows_of(
            bytes,
            n,
            width,
        )[h * count + p]
}

/// So many rows and bytes fit a machine word.
pub open spec fn flat_fits(heads: nat, count: nat, width: nat) -> bool {
    heads * count <= usize::MAX && (heads * count) * width <= usize::MAX
}

/// The rows of every head as flat bytes; `None` when a head has another number of rows, a row another
/// width, or the bytes would not fit.
pub fn flatten(planes: &Vec<Vec<Vec<u8>>>, count: usize, width: usize) -> (r: Option<Vec<u8>>)
    ensures
        r is Some <==> uniform(planes.deep_view(), count as nat, width as nat) && flat_fits(
            planes@.len(),
            count as nat,
            width as nat,
        ),
        r matches Some(bytes) ==> flattened(
            planes.deep_view(),
            count as nat,
            width as nat,
            bytes@,
        ),
{
    let ghost all = planes.deep_view();
    let heads: usize = planes.len();
    let total: usize = heads.checked_mul(count)?;
    total.checked_mul(width)?;
    let mut rows = RowBuffer::zeroed(total, width);
    let mut h: usize = 0;
    while h < heads
        invariant
            h <= heads,
            heads == planes@.len(),
            all == planes.deep_view(),
            total == heads * count,
            rows.wf(),
            rows.width() == width,
            rows@.len() == total,
            forall|x: int| 0 <= x < h ==> (#[trigger] all[x]).len() == count,
            forall|x: int, p: int|
                0 <= x < h && 0 <= p < count ==> (#[trigger] all[x][p]).len() == width && all[x][p]
                    == rows@[x * count + p],
        decreases heads - h,
    {
        let plane = &planes[h];
        let ghost view = all[h as int];
        assert(view.len() == plane@.len());
        if plane.len() != count {
            return None;
        }
        proof {
            lemma_row_in_bounds(h as int, heads as int, count as int);
        }
        let base: usize = h * count;
        let mut p: usize = 0;
        while p < count
            invariant
                h < heads,
                p <= count,
                base == h * count,
                base + count <= total,
                plane@ == planes@[h as int]@,
                plane@.len() == count,
                all == planes.deep_view(),
                all.len() == heads,
                total == heads * count,
                rows.wf(),
                rows.width() == width,
                rows@.len() == total,
                forall|x: int| 0 <= x <= h ==> (#[trigger] all[x]).len() == count,
                forall|x: int, q: int|
                    0 <= x <= h && 0 <= q < count && (x < h || q < p) ==> (
                    #[trigger] all[x][q]).len() == width && all[x][q] == rows@[x * count + q],
            decreases count - p,
        {
            let row = &plane[p];
            assert(all[h as int][p as int] == row@);
            if row.len() != width {
                assert(all[h as int][p as int].len() != width);
                return None;
            }
            let ghost mid = rows@;
            rows.write(base + p, row);
            proof {
                assert forall|x: int, q: int|
                    0 <= x <= h && 0 <= q < count && (x < h || q < p + 1) implies (
                #[trigger] all[x][q]).len() == width && all[x][q] == rows@[x * count + q] by {
                    lemma_row_in_bounds(x, heads as int, count as int);
                    if x < h {
                        crate::rows::lemma_rows_disjoint(x, h as int, count as int);
                        assert(rows@[x * count + q] == mid[x * count + q]);
                    } else if q < p {
                        assert(rows@[x * count + q] == mid[x * count + q]);
                    }
                }
            }
            p = p + 1;
        }
        h = h + 1;
    }
    let bytes: Vec<u8> = rows.as_bytes().clone();
    proof {
        rows.lemma_view();
        assert(bytes@ =~= rows.flat());
    }
    Some(bytes)
}

/// The rows of flat bytes, head after head; `None` when the bytes are not so many rows.
pub fn unflatten(bytes: Vec<u8>, heads: usize, count: usize, width: usize) -> (r: Option<
    Vec<Vec<Vec<u8>>>,
>)
    ensures
        r is Some <==> heads * count <= usize::MAX && bytes@.len() == (heads * count) * width,
        r matches Some(planes) ==> {
            &&& planes@.len() == heads
            &&& uniform(planes.deep_view(), count as nat, width as nat)
            &&& flattened(planes.deep_view(), count as nat, width as nat, bytes@)
        },
{
    let total: usize = heads.checked_mul(count)?;
    let rows: RowBuffer = RowBuffer::from_bytes(bytes, total, width)?;
    proof {
        rows.lemma_view();
    }
    let mut planes: Vec<Vec<Vec<u8>>> = Vec::new();
    let mut h: usize = 0;
    while h < heads
        invariant
            h <= heads,
            total == heads * count,
            rows.wf(),
            rows.width() == width,
            rows@.len() == total,
            forall|i: int| 0 <= i < rows@.len() ==> (#[trigger] rows@[i]).len() == width,
            planes@.len() == h,
            forall|x: int| 0 <= x < h ==> (#[trigger] planes@[x])@.len() == count,
            forall|x: int, p: int|
                0 <= x < h && 0 <= p < count ==> (#[trigger] planes@[x]@[p])@ == rows@[x * count
                    + p],
        decreases heads - h,
    {
        proof {
            lemma_row_in_bounds(h as int, heads as int, count as int);
        }
        let base: usize = h * count;
        let mut plane: Vec<Vec<u8>> = Vec::new();
        let mut p: usize = 0;
        while p < count
            invariant
                p <= count,
                base == h * count,
                base + count <= total,
                rows.wf(),
                rows@.len() == total,
                plane@.len() == p,
                forall|q: int| 0 <= q < p ==> (#[trigger] plane@[q])@ == rows@[base + q],
            decreases count - p,
        {
            plane.push(rows.read(base + p));
            p = p + 1;
        }
        planes.push(plane);
        h = h + 1;
    }
    proof {
        let all = planes.deep_view();
        assert forall|x: int| 0 <= x < all.len() implies (#[trigger] all[x]).len() == count by {
            assert(planes@[x]@.len() == count);
        }
        assert forall|x: int, p: int| 0 <= x < all.len() && 0 <= p < count implies (
        #[trigger] all[x][p]).len() == width && all[x][p] == rows@[x * count + p] by {
            assert(planes@[x]@[p]@ == rows@[x * count + p]);
            lemma_row_in_bounds(x, heads as int, count as int);
            assert(all[x][p] =~= planes@[x]@[p]@);
        }
    }
    Some(planes)
}

/// What comes back from flat bytes is what was made flat.
pub proof fn lemma_unflatten_undoes_flatten(
    before: Seq<Seq<Seq<u8>>>,
    after: Seq<Seq<Seq<u8>>>,
    count: nat,
    width: nat,
    bytes: Seq<u8>,
)
    requires
        uniform(before, count, width),
        uniform(after, count, width),
        flattened(before, count, width, bytes),
        flattened(after, count, width, bytes),
        after.len() == before.len(),
    ensures
        after == before,
{
    assert forall|h: int| 0 <= h < before.len() implies #[trigger] after[h] == before[h] by {
        assert forall|p: int| 0 <= p < count implies #[trigger] after[h][p] == before[h][p] by {}
        assert(after[h] =~= before[h]);
    }
    assert(after =~= before);
}

/// Where a row's bytes lie among flat ones: head after head and row after row, the row's own order
/// within.
pub proof fn lemma_where_flat_bytes_lie(
    planes: Seq<Seq<Seq<u8>>>,
    count: nat,
    width: nat,
    bytes: Seq<u8>,
    h: int,
    p: int,
    j: int,
)
    requires
        flattened(planes, count, width, bytes),
        0 <= h < planes.len(),
        0 <= p < count,
        0 <= j < width,
    ensures
        bytes.len() == (planes.len() * count) * width,
        0 <= (h * count + p) * width + j < bytes.len(),
        planes[h][p].len() == width,
        planes[h][p][j] == bytes[(h * count + p) * width + j],
{
    let n = planes.len() * count;
    let i = h * count + p;
    assert(0 <= i < n) by (nonlinear_arith)
        requires
            i == h * count + p,
            n == planes.len() * count,
            0 <= h,
            h + 1 <= planes.len(),
            0 <= p < count,
    ;
    lemma_row_in_bounds(i, n as int, width as int);
    assert(planes[h][p] == rows_of(bytes, n, width)[i]);
    assert((i + 1) * width == i * width + width) by (nonlinear_arith);
}

/// When rows can be made flat: where every head has so many rows of such a width and all of it can be
/// counted; and flat bytes come back as rows exactly when there are as many.
pub proof fn lemma_when_rows_are_flat(
    planes: Vec<Vec<Vec<u8>>>,
    count: usize,
    width: usize,
    r: Option<Vec<u8>>,
    h: int,
    p: int,
)
    requires
        call_ensures(flatten, (&planes, count, width), r),
    ensures
        r is Some && 0 <= h < planes@.len() ==> planes@[h]@.len() == count,
        r is Some && 0 <= h < planes@.len() && 0 <= p < count ==> planes@[h]@[p]@.len() == width,
        (forall|a: int| 0 <= a < planes@.len() ==> (#[trigger] planes@[a])@.len() == count) && (
        forall|a: int, b: int|
            0 <= a < planes@.len() && 0 <= b < count ==> (#[trigger] planes@[a]@[b])@.len() == width)
            && planes@.len() * count <= usize::MAX && (planes@.len() * count) * width <= usize::MAX
            ==> r is Some,
        r is Some ==> (planes@.len() * count) * width <= usize::MAX,
{
    let views = planes.deep_view();
    assert forall|a: int| 0 <= a < planes@.len() implies (#[trigger] views[a]).len()
        == planes@[a]@.len() by {}
    if 0 <= h < planes@.len() {
        assert(views[h].len() == planes@[h]@.len());
        if 0 <= p < planes@[h]@.len() {
            assert(views[h][p] == planes@[h]@[p]@);
        }
    }
    if (forall|a: int| 0 <= a < planes@.len() ==> (#[trigger] planes@[a])@.len() == count) && (
    forall|a: int, b: int|
        0 <= a < planes@.len() && 0 <= b < count ==> (#[trigger] planes@[a]@[b])@.len() == width) {
        assert forall|a: int, b: int| 0 <= a < views.len() && 0 <= b < count implies (
        #[trigger] views[a][b]).len() == width by {
            assert(views[a][b] == planes@[a]@[b]@);
        }
        assert(uniform(views, count as nat, width as nat));
    }
}

/// Flat bytes come back as rows exactly when there are as many, and every byte comes back in its row.
pub proof fn lemma_flat_bytes_come_back(
    bytes: Vec<u8>,
    heads: usize,
    count: usize,
    width: usize,
    r: Option<Vec<Vec<Vec<u8>>>>,
    h: int,
    p: int,
    j: int,
)
    requires
        call_ensures(unflatten, (bytes, heads, count, width), r),
        0 <= h < heads,
        0 <= p < count,
        0 <= j < width,
    ensures
        r is Some <==> heads * count <= usize::MAX && bytes@.len() == (heads * count) * width,
        r matches Some(planes) ==> planes@.len() == heads && planes@[h]@.len() == count
            && planes@[h]@[p]@.len() == width && planes@[h]@[p]@[j] == bytes@[(h * count + p) * width
            + j],
{
    if let Some(planes) = r {
        let views = planes.deep_view();
        lemma_where_flat_bytes_lie(views, count as nat, width as nat, bytes@, h, p, j);
        assert(views[h].len() == planes@[h]@.len());
        assert(views[h][p] == planes@[h]@[p]@);
    }
}

} // verus!
