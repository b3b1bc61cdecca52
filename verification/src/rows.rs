//! Fixed-width byte rows.
//!
//! A K or V buffer is a run of equally long rows, one row per (position, head). Everything the
//! cache does to its contents short of arithmetic is a movement of whole rows, so the buffer's view
//! is the sequence of its rows and no caller reasons about byte offsets.

use vstd::prelude::*;

verus! {

/// A flat byte buffer read as `count` rows of `row_bytes` bytes each.
pub struct RowBuffer {
    row_bytes: usize,
    count: usize,
    bytes: Vec<u8>,
}

/// The rows of a flat byte sequence.
pub open spec fn rows_of(bytes: Seq<u8>, count: nat, row_bytes: nat) -> Seq<Seq<u8>> {
    Seq::new(count, |i: int| bytes.subrange(i * row_bytes, (i + 1) * row_bytes))
}

impl View for RowBuffer {
    type V = Seq<Seq<u8>>;

    closed spec fn view(&self) -> Seq<Seq<u8>> {
        rows_of(self.bytes@, self.count as nat, self.row_bytes as nat)
    }
}

/// Row `i` of `n` rows of `w` bytes lies inside `n * w` bytes.
pub(crate) proof fn lemma_row_in_bounds(i: int, n: int, w: int)
    requires
        0 <= i < n,
        0 <= w,
    ensures
        0 <= i * w,
        i * w + w == (i + 1) * w,
        (i + 1) * w <= n * w,
{
    assert(0 <= i * w) by (nonlinear_arith)
        requires
            0 <= i,
            0 <= w,
    ;
    assert(i * w + w == (i + 1) * w) by (nonlinear_arith);
    assert((i + 1) * w <= n * w) by (nonlinear_arith)
        requires
            i + 1 <= n,
            0 <= w,
    ;
}

/// Two different rows do not overlap.
pub(crate) proof fn lemma_rows_disjoint(i: int, j: int, w: int)
    requires
        i < j,
        0 <= w,
    ensures
        (i + 1) * w <= j * w,
{
    assert((i + 1) * w <= j * w) by (nonlinear_arith)
        requires
            i + 1 <= j,
            0 <= w,
    ;
}

impl RowBuffer {
    /// The byte count is exactly the rows.
    pub closed spec fn wf(self) -> bool {
        self.bytes@.len() == self.count * self.row_bytes
    }

    /// Bytes per row.
    pub closed spec fn width(self) -> nat {
        self.row_bytes as nat
    }

    /// The buffer as flat bytes.
    pub closed spec fn flat(self) -> Seq<u8> {
        self.bytes@
    }

    /// What well-formedness gives a reader: the row count, every row's width, and the flat bytes.
    pub proof fn lemma_view(self)
        requires
            self.wf(),
        ensures
            self@.len() <= usize::MAX,
            self.width() <= usize::MAX,
            self.flat().len() == self@.len() * self.width(),
            self.flat().len() <= usize::MAX,
            self@ == rows_of(self.flat(), self@.len(), self.width()),
            forall|i: int| 0 <= i < self@.len() ==> (#[trigger] self@[i]).len() == self.width(),
    {
        assert(self.bytes@.len() == self.bytes.len());
        assert forall|i: int| 0 <= i < self@.len() implies (#[trigger] self@[i]).len()
            == self.width() by {
            lemma_row_in_bounds(i, self.count as int, self.row_bytes as int);
        }
    }

    /// `count` rows of zero bytes.
    pub fn zeroed(count: usize, row_bytes: usize) -> (r: RowBuffer)
        requires
            count * row_bytes <= usize::MAX,
        ensures
            r.wf(),
            r.width() == row_bytes,
            r@ == Seq::new(count as nat, |i: int| Seq::new(row_bytes as nat, |j: int| 0u8)),
    {
        let total: usize = count * row_bytes;
        let bytes = vec![0u8; total];
        let r = RowBuffer { row_bytes, count, bytes };
        proof {
            assert forall|i: int| 0 <= i < count implies #[trigger] r@[i] == Seq::new(
                row_bytes as nat,
                |j: int| 0u8,
            ) by {
                lemma_row_in_bounds(i, count as int, row_bytes as int);
                assert(r@[i] =~= Seq::new(row_bytes as nat, |j: int| 0u8));
            }
            assert(r@ =~= Seq::new(
                count as nat,
                |i: int| Seq::new(row_bytes as nat, |j: int| 0u8),
            ));
        }
        r
    }

    /// Reads `bytes` as `count` rows of `row_bytes`; `None` when the sizes disagree.
    pub fn from_bytes(bytes: Vec<u8>, count: usize, row_bytes: usize) -> (r: Option<RowBuffer>)
        ensures
            r is Some <==> bytes@.len() == count * row_bytes,
            r matches Some(b) ==> b.wf() && b.width() == row_bytes && b.flat() == bytes@ && b@
                == rows_of(bytes@, count as nat, row_bytes as nat),
    {
        assert(bytes@.len() == bytes.len());
        match count.checked_mul(row_bytes) {
            Some(total) => if total == bytes.len() {
                Some(RowBuffer { row_bytes, count, bytes })
            } else {
                None
            },
            None => None,
        }
    }

    /// Number of rows.
    pub fn count(&self) -> (n: usize)
        ensures
            n == self@.len(),
    {
        self.count
    }

    /// Bytes per row.
    pub fn row_bytes(&self) -> (n: usize)
        ensures
            n == self.width(),
    {
        self.row_bytes
    }

    /// The flat bytes.
    pub fn as_bytes(&self) -> (b: &Vec<u8>)
        ensures
            b@ == self.flat(),
    {
        &self.bytes
    }

    /// A copy of row `i`.
    pub fn read(&self, i: usize) -> (row: Vec<u8>)
        requires
            self.wf(),
            i < self@.len(),
        ensures
            row@ == self@[i as int],
            row@.len() == self.width(),
    {
        proof {
            lemma_row_in_bounds(i as int, self.count as int, self.row_bytes as int);
            assert(self.bytes@.len() == self.bytes.len());
        }
        let start: usize = i * self.row_bytes;
        let mut row: Vec<u8> = Vec::with_capacity(self.row_bytes);
        let mut j: usize = 0;
        while j < self.row_bytes
            invariant
                j <= self.row_bytes,
                start == i * self.row_bytes,
                start + self.row_bytes <= self.bytes.len(),
                self.bytes@.len() == self.bytes.len(),
                row@ == self.bytes@.subrange(start as int, start + j),
            decreases self.row_bytes - j,
        {
            row.push(self.bytes[start + j]);
            j = j + 1;
            assert(row@ =~= self.bytes@.subrange(start as int, start + j));
        }
        row
    }

    /// Replaces row `i`; every other row keeps its bytes.
    pub fn write(&mut self, i: usize, row: &Vec<u8>)
        requires
            old(self).wf(),
            i < old(self)@.len(),
            row@.len() == old(self).width(),
        ensures
            final(self).wf(),
            final(self).width() == old(self).width(),
            final(self)@ == old(self)@.update(i as int, row@),
    {
        let ghost before = self.bytes@;
        let ghost n = self.count as int;
        let ghost w = self.row_bytes as int;
        proof {
            lemma_row_in_bounds(i as int, n, w);
            assert(self.bytes@.len() == self.bytes.len());
        }
        let start: usize = i * self.row_bytes;
        let width: usize = self.row_bytes;
        let mut j: usize = 0;
        while j < width
            invariant
                j <= width,
                width == w,
                width == self.row_bytes,
                self.count == n,
                row@.len() == width,
                start == i * w,
                start + width <= before.len(),
                before.len() <= usize::MAX,
                self.bytes@.len() == before.len(),
                before.len() == n * w,
                forall|x: int|
                    0 <= x < before.len() ==> #[trigger] self.bytes@[x] == (if start <= x < start
                        + j {
                        row@[x - start]
                    } else {
                        before[x]
                    }),
            decreases width - j,
        {
            self.bytes[start + j] = row[j];
            j = j + 1;
        }
        proof {
            let after = self.bytes@;
            assert forall|x: int| 0 <= x < n implies #[trigger] rows_of(after, n as nat, w as nat)[x]
                == rows_of(before, n as nat, w as nat).update(i as int, row@)[x] by {
                lemma_row_in_bounds(x, n, w);
                if x == i {
                    assert(after.subrange(x * w, (x + 1) * w) =~= row@);
                } else {
                    if x < i {
                        lemma_rows_disjoint(x, i as int, w);
                    } else {
                        lemma_rows_disjoint(i as int, x, w);
                    }
                    assert(after.subrange(x * w, (x + 1) * w) =~= before.subrange(
                        x * w,
                        (x + 1) * w,
                    ));
                }
            }
            assert(self@ == rows_of(after, n as nat, w as nat));
            assert(old(self)@ == rows_of(before, n as nat, w as nat));
            assert(self@ =~= old(self)@.update(i as int, row@));
        }
    }
}

/// Row `i` of flat bytes starts `i` rows in, and its bytes are those there.
pub proof fn lemma_where_row_bytes_lie(bytes: Seq<u8>, count: nat, row_bytes: nat, i: int, j: int)
    requires
        bytes.len() == count * row_bytes,
        0 <= i < count,
        0 <= j < row_bytes,
    ensures
        rows_of(bytes, count, row_bytes).len() == count,
        rows_of(bytes, count, row_bytes)[i].len() == row_bytes,
        rows_of(bytes, count, row_bytes)[i][j] == bytes[i * row_bytes + j],
{
    lemma_row_in_bounds(i, count as int, row_bytes as int);
    assert((i + 1) * row_bytes == i * row_bytes + row_bytes) by (nonlinear_arith);
}

} // verus!
