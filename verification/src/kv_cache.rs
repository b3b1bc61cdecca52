//! One layer's K/V cache.
//!
//! The cache is seen per head: `keys[head][position]` is the row of bytes stored there, whatever
//! the layout. A uniform cache holds every head's tokens in `[0, current_pos)`. A ragged cache is
//! right-aligned: head `h` holds its tokens in `[head_start(h), current_pos)`, and the slots below
//! are holes that nothing may read.

use crate::arith::{div_up, up};
use crate::dtype::{spec_row_bytes, typed_row_bytes, DType, KVLayout, KVLayoutDesc};
use crate::rows::{lemma_rows_disjoint, RowBuffer};
use vstd::prelude::*;

verus! {

/// Which of the two buffers an operation addresses.
#[derive(Clone, Copy, Debug, PartialEq, Eq, Structural)]
pub enum Side {
    Key,
    Value,
}

/// What a cache is made of: everything but its contents and its cursors.
#[derive(Clone, Copy, Debug, PartialEq, Eq, Structural)]
pub struct CacheShape {
    pub dtype: DType,
    /// The block codec, for a store of opaque bytes.
    pub opaque: Option<KVLayoutDesc>,
    pub layout: KVLayout,
    pub kv_heads: usize,
    pub head_dim: usize,
    /// Positions the buffers have room for now.
    pub capacity: usize,
    /// Positions the buffers may ever grow to.
    pub max_seq_len: usize,
    /// Whether the cache has an allocator to grow, and to cast, with.
    pub dynamic: bool,
    /// Whether the buffers live on a device and cannot be read from the host.
    pub on_device: bool,
}

/// Why a cache operation was refused.
#[derive(Clone, Copy, Debug, PartialEq, Eq, Structural)]
pub enum KvError {
    /// The positions asked for do not fit.
    CapacityExceeded,
    /// The rows handed in have another shape than the cache.
    ShapeMismatch,
    /// A write in another stored format needs a cache with an allocator.
    NeedsDynamicCache,
    /// A row coder returned a row of the wrong width.
    CodecShape,
    /// The operation needs buffers that the host can read.
    NotOnHost,
    /// The stored format has no such operation.
    UnsupportedDType,
    /// A cursor outside the frame, or below the longest head.
    InvalidCursor,
    /// A keep-list that is not ascending, or names a position outside the frame.
    InvalidKeep,
    /// The cursor is not where the operation needs it.
    PositionMismatch,
    /// The operation needs every head to hold the same positions.
    Ragged,
    /// A keep-list that names a hole.
    NotResident,
}

impl KvError {
    /// The refusal in words.
    pub open spec fn words(self) -> Seq<char> {
        match self {
            KvError::CapacityExceeded => "the positions do not fit the cache"@,
            KvError::ShapeMismatch => "the rows have another shape than the cache"@,
            KvError::NeedsDynamicCache => "a write in another stored format needs a cache with an allocator"@,
            KvError::CodecShape => "the row coder returned a row of another width"@,
            KvError::NotOnHost => "the buffers are not on the host"@,
            KvError::UnsupportedDType => "the stored format has no such operation"@,
            KvError::InvalidCursor => "the cursor is outside the frame or below the longest head"@,
            KvError::InvalidKeep => "the keep-list is not ascending or leaves the frame"@,
            KvError::PositionMismatch => "the cursor is not where the operation needs it"@,
            KvError::Ragged => "the heads hold different positions"@,
            KvError::NotResident => "the keep-list names a position that is not resident"@,
        }
    }

    /// The refusal in words.
    pub fn message(&self) -> (m: String)
        ensures
            m@ == self.words(),
    {
        match self {
            KvError::CapacityExceeded => "the positions do not fit the cache".to_owned(),
            KvError::ShapeMismatch => "the rows have another shape than the cache".to_owned(),
            KvError::NeedsDynamicCache => "a write in another stored format needs a cache with an allocator".to_owned(),
            KvError::CodecShape => "the row coder returned a row of another width".to_owned(),
            KvError::NotOnHost => "the buffers are not on the host".to_owned(),
            KvError::UnsupportedDType => "the stored format has no such operation".to_owned(),
            KvError::InvalidCursor => "the cursor is outside the frame or below the longest head".to_owned(),
            KvError::InvalidKeep => "the keep-list is not ascending or leaves the frame".to_owned(),
            KvError::PositionMismatch => "the cursor is not where the operation needs it".to_owned(),
            KvError::Ragged => "the heads hold different positions".to_owned(),
            KvError::NotResident => "the keep-list names a position that is not resident".to_owned(),
        }
    }
}

/// A cache as its contracts speak of it.
#[verifier::ext_equal]
pub struct CacheView {
    pub shape: CacheShape,
    pub current_pos: usize,
    pub high_water_pos: usize,
    /// First resident position of each head.
    pub starts: Seq<usize>,
    /// `keys[head][position]` is a row of bytes.
    pub keys: Seq<Seq<Seq<u8>>>,
    /// `values[head][position]` is a row of bytes.
    pub values: Seq<Seq<Seq<u8>>>,
}

impl CacheShape {
    /// The row that holds `(pos, head)`.
    pub open spec fn slot(self, pos: int, head: int) -> int {
        match self.layout {
            KVLayout::SeqMajor => pos * self.kv_heads + head,
            KVLayout::HeadMajor => head * self.capacity + pos,
        }
    }

    /// Bytes per row; `None` when the stored format cannot tile the head dimension.
    pub open spec fn row_bytes(self) -> Option<nat> {
        spec_row_bytes(self.dtype, self.opaque, self.head_dim as nat)
    }

    /// Rows that are not all in one place can only be told apart in a typed head-major store.
    pub open spec fn spec_supports_ragged(self) -> bool {
        self.layout == KVLayout::HeadMajor && self.opaque is None
    }

    /// The format tiles the head dimension and the row width fits a machine word.
    pub open spec fn row_fits(self) -> bool {
        &&& self.row_bytes() matches Some(b) && b <= usize::MAX
        &&& (self.opaque matches Some(d) ==> d.counts_fit(self.head_dim as nat))
    }

    /// A cache of this shape can be made: its capacity is within its maximum, a block codec stores
    /// bytes, and its buffers fit.
    pub open spec fn fits(self) -> bool {
        &&& self.capacity <= self.max_seq_len
        &&& (self.opaque is Some ==> self.dtype == DType::U8)
        &&& self.row_fits()
        &&& self.capacity * self.kv_heads <= usize::MAX
        &&& (self.capacity * self.kv_heads) * self.row_bytes()->0 <= usize::MAX
    }

    pub(crate) proof fn lemma_slot_in_bounds(self, pos: int, head: int)
        requires
            0 <= pos < self.capacity,
            0 <= head < self.kv_heads,
        ensures
            0 <= self.slot(pos, head) < self.capacity * self.kv_heads,
    {
        let c = self.capacity as int;
        let h = self.kv_heads as int;
        match self.layout {
            KVLayout::SeqMajor => {
                assert(0 <= pos * h && pos * h + h <= c * h) by (nonlinear_arith)
                    requires
                        0 <= pos < c,
                        0 <= h,
                ;
            },
            KVLayout::HeadMajor => {
                assert(0 <= head * c && head * c + c <= c * h) by (nonlinear_arith)
                    requires
                        0 <= head < h,
                        0 <= c,
                ;
            },
        }
    }

    pub(crate) proof fn lemma_slot_injective(self, pos1: int, head1: int, pos2: int, head2: int)
        requires
            0 <= pos1 < self.capacity,
            0 <= pos2 < self.capacity,
            0 <= head1 < self.kv_heads,
            0 <= head2 < self.kv_heads,
            self.slot(pos1, head1) == self.slot(pos2, head2),
        ensures
            pos1 == pos2,
            head1 == head2,
    {
        match self.layout {
            KVLayout::SeqMajor => {
                let w = self.kv_heads as int;
                assert((pos1 + 1) * w == pos1 * w + w) by (nonlinear_arith);
                assert((pos2 + 1) * w == pos2 * w + w) by (nonlinear_arith);
                if pos1 < pos2 {
                    lemma_rows_disjoint(pos1, pos2, w);
                } else if pos2 < pos1 {
                    lemma_rows_disjoint(pos2, pos1, w);
                }
            },
            KVLayout::HeadMajor => {
                let w = self.capacity as int;
                assert((head1 + 1) * w == head1 * w + w) by (nonlinear_arith);
                assert((head2 + 1) * w == head2 * w + w) by (nonlinear_arith);
                if head1 < head2 {
                    lemma_rows_disjoint(head1, head2, w);
                } else if head2 < head1 {
                    lemma_rows_disjoint(head2, head1, w);
                }
            },
        }
    }

    /// Bytes per row; `None` when the stored format cannot tile the head dimension or the width
    /// does not fit.
    pub fn row_width(&self) -> (r: Option<usize>)
        ensures
            r is Some <==> self.row_fits(),
            r matches Some(w) ==> self.row_bytes() == Some(w as nat),
    {
        match self.opaque {
            Some(desc) => desc.bytes_for_elems(self.head_dim),
            None => typed_row_bytes(self.dtype, self.head_dim),
        }
    }
}

/// A plane of zero rows: `positions` rows of `width` bytes.
pub open spec fn zero_plane(positions: nat, width: nat) -> Seq<Seq<u8>> {
    Seq::new(positions, |p: int| Seq::new(width, |j: int| 0u8))
}

impl CacheView {
    /// The contents of one side.
    pub open spec fn plane(self, side: Side) -> Seq<Seq<Seq<u8>>> {
        match side {
            Side::Key => self.keys,
            Side::Value => self.values,
        }
    }

    /// The view with one head's rows replaced.
    pub open spec fn with_plane(self, side: Side, head: int, plane: Seq<Seq<u8>>) -> CacheView {
        match side {
            Side::Key => CacheView { keys: self.keys.update(head, plane), ..self },
            Side::Value => CacheView { values: self.values.update(head, plane), ..self },
        }
    }

    /// The view with one row replaced.
    pub open spec fn with_row(self, side: Side, pos: int, head: int, row: Seq<u8>) -> CacheView {
        self.with_plane(side, head, self.plane(side)[head].update(pos, row))
    }

    /// Every buffer has the shape's dimensions, the cursors are in range, and only a store that can
    /// be ragged has a head that starts past zero.
    pub open spec fn wf(self) -> bool {
        &&& self.shape.capacity <= self.shape.max_seq_len
        &&& self.current_pos <= self.shape.capacity
        &&& self.high_water_pos <= self.shape.capacity
        &&& self.starts.len() == self.shape.kv_heads
        &&& forall|h: int|
            0 <= h < self.shape.kv_heads ==> #[trigger] self.starts[h] <= self.current_pos
        &&& forall|h: int|
            0 <= h < self.shape.kv_heads && #[trigger] self.starts[h] > 0
                ==> self.shape.spec_supports_ragged()
        &&& self.shape.row_bytes() is Some
        &&& (self.shape.opaque is Some ==> self.shape.dtype == DType::U8)
        &&& self.plane_wf(Side::Key)
        &&& self.plane_wf(Side::Value)
    }

    /// One side is `kv_heads` planes of `capacity` rows of the row width.
    pub open spec fn plane_wf(self, side: Side) -> bool {
        let plane = self.plane(side);
        &&& plane.len() == self.shape.kv_heads
        &&& forall|h: int|
            0 <= h < self.shape.kv_heads ==> (#[trigger] plane[h]).len() == self.shape.capacity
        &&& forall|h: int, p: int|
            0 <= h < self.shape.kv_heads && 0 <= p < self.shape.capacity
                ==> (#[trigger] plane[h][p]).len() == self.shape.row_bytes()->0
    }

    /// Positions that hold a token, over the first `heads` heads.
    pub open spec fn resident(self, heads: int) -> nat
        decreases heads,
    {
        if heads <= 0 {
            0
        } else {
            (self.resident(heads - 1) + self.current_pos - self.starts[heads - 1]) as nat
        }
    }

    /// Tokens per head: the mean over the heads, rounded up.
    pub open spec fn spec_resident_tokens(self) -> nat {
        let heads = self.shape.kv_heads as nat;
        if heads == 0 {
            0
        } else {
            up(self.resident(heads as int), heads)
        }
    }

    /// The resident positions of some heads are no more than their slots.
    pub proof fn lemma_resident_bounds(self, heads: int)
        requires
            self.wf(),
            0 <= heads <= self.shape.kv_heads,
        ensures
            self.resident(heads) <= heads * self.shape.capacity,
        decreases heads,
    {
        if heads > 0 {
            self.lemma_resident_bounds(heads - 1);
            assert(self.starts[heads - 1] <= self.current_pos);
            assert(heads * self.shape.capacity == (heads - 1) * self.shape.capacity
                + self.shape.capacity) by (nonlinear_arith);
        }
    }

    /// Whether some head starts past zero.
    pub open spec fn is_ragged(self) -> bool {
        exists|h: int| 0 <= h < self.starts.len() && #[trigger] self.starts[h] > 0
    }
}

/// K/V rows of `seq_len` tokens, in token order, each token's heads in head order.
pub struct Tensor {
    pub dtype: DType,
    pub seq_len: usize,
    pub kv_heads: usize,
    pub head_dim: usize,
    pub data: RowBuffer,
}

impl Tensor {
    /// One row per token and head.
    pub open spec fn wf(self) -> bool {
        &&& self.data.wf()
        &&& self.data@.len() == self.seq_len * self.kv_heads
    }

    /// The row of token `s`, head `h`.
    pub open spec fn row(self, s: int, h: int) -> Seq<u8> {
        self.data@[s * self.kv_heads + h]
    }

    /// Rows over `data`; `None` when the byte count is not `seq_len * kv_heads` rows of the
    /// format's width.
    pub fn new(dtype: DType, seq_len: usize, kv_heads: usize, head_dim: usize, data: Vec<u8>) -> (r:
        Option<Tensor>)
        ensures
            r matches Some(t) ==> {
                &&& t.wf()
                &&& t.dtype == dtype
                &&& t.seq_len == seq_len
                &&& t.kv_heads == kv_heads
                &&& t.head_dim == head_dim
                &&& t.data.flat() == data@
                &&& spec_row_bytes(dtype, None, head_dim as nat) == Some(t.data.width())
            },
            r is None ==> {
                ||| spec_row_bytes(dtype, None, head_dim as nat) is None
                ||| spec_row_bytes(dtype, None, head_dim as nat)->0 > usize::MAX
                ||| seq_len * kv_heads > usize::MAX
                ||| data@.len() != (seq_len * kv_heads) * spec_row_bytes(
                    dtype,
                    None,
                    head_dim as nat,
                )->0
            },
    {
        let width: usize = match typed_row_bytes(dtype, head_dim) {
            Some(w) => w,
            None => {
                return None;
            },
        };
        let count: usize = match seq_len.checked_mul(kv_heads) {
            Some(n) => n,
            None => {
                return None;
            },
        };
        match RowBuffer::from_bytes(data, count, width) {
            Some(rows) => Some(Tensor { dtype, seq_len, kv_heads, head_dim, data: rows }),
            None => None,
        }
    }

    /// The row of token `s`, head `h`.
    pub fn read(&self, s: usize, h: usize) -> (row: Vec<u8>)
        requires
            self.wf(),
            s < self.seq_len,
            h < self.kv_heads,
        ensures
            row@ == self.row(s as int, h as int),
            row@.len() == self.data.width(),
    {
        proof {
            self.data.lemma_view();
            let w = self.kv_heads as int;
            assert(0 <= s * w && s * w + w <= self.seq_len * w) by (nonlinear_arith)
                requires
                    0 <= s < self.seq_len,
                    0 <= w,
            ;
        }
        self.data.read(s * self.kv_heads + h)
    }
}

/// One layer's K/V cache.
pub struct KVCache {
    shape: CacheShape,
    current_pos: usize,
    high_water_pos: usize,
    head_start: Vec<usize>,
    k_buffer: RowBuffer,
    v_buffer: RowBuffer,
}

/// The rows of a buffer, per head and position.
pub open spec fn planes_of(shape: CacheShape, rows: Seq<Seq<u8>>) -> Seq<Seq<Seq<u8>>> {
    Seq::new(
        shape.kv_heads as nat,
        |h: int| Seq::new(shape.capacity as nat, |p: int| rows[shape.slot(p, h)]),
    )
}

/// Replacing the row of a slot replaces exactly that position of that head.
proof fn lemma_planes_update(
    shape: CacheShape,
    rows: Seq<Seq<u8>>,
    pos: int,
    head: int,
    row: Seq<u8>,
)
    requires
        0 <= pos < shape.capacity,
        0 <= head < shape.kv_heads,
        rows.len() == shape.capacity * shape.kv_heads,
    ensures
        planes_of(shape, rows.update(shape.slot(pos, head), row)) == planes_of(shape, rows).update(
            head,
            planes_of(shape, rows)[head].update(pos, row),
        ),
{
    let before = planes_of(shape, rows);
    let after = planes_of(shape, rows.update(shape.slot(pos, head), row));
    let expected = before.update(head, before[head].update(pos, row));
    shape.lemma_slot_in_bounds(pos, head);
    assert forall|h: int| 0 <= h < shape.kv_heads implies #[trigger] after[h] == expected[h] by {
        assert forall|p: int| 0 <= p < shape.capacity implies #[trigger] after[h][p]
            == expected[h][p] by {
            shape.lemma_slot_in_bounds(p, h);
            if shape.slot(p, h) == shape.slot(pos, head) {
                shape.lemma_slot_injective(p, h, pos, head);
            }
        }
        assert(after[h] =~= expected[h]);
    }
    assert(after =~= expected);
}

impl View for KVCache {
    type V = CacheView;

    closed spec fn view(&self) -> CacheView {
        CacheView {
            shape: self.shape,
            current_pos: self.current_pos,
            high_water_pos: self.high_water_pos,
            starts: self.head_start@,
            keys: planes_of(self.shape, self.k_buffer@),
            values: planes_of(self.shape, self.v_buffer@),
        }
    }
}

impl KVCache {
    /// The buffers hold one row per position and head, and the view is consistent.
    pub closed spec fn wf(self) -> bool {
        &&& self.k_buffer.wf()
        &&& self.v_buffer.wf()
        &&& self.k_buffer@.len() == self.shape.capacity * self.shape.kv_heads
        &&& self.v_buffer@.len() == self.shape.capacity * self.shape.kv_heads
        &&& self.shape.row_bytes() == Some(self.k_buffer.width())
        &&& self.shape.row_bytes() == Some(self.v_buffer.width())
        &&& self@.wf()
    }

    /// The flat bytes of one side, as they lie in memory.
    pub closed spec fn flat(self, side: Side) -> Seq<u8> {
        match side {
            Side::Key => self.k_buffer.flat(),
            Side::Value => self.v_buffer.flat(),
        }
    }

    /// A well-formed cache has a well-formed view.
    pub proof fn lemma_wf(self)
        requires
            self.wf(),
        ensures
            self@.wf(),
            self@.shape.row_bytes()->0 <= usize::MAX,
            self@.shape.capacity * self@.shape.kv_heads <= usize::MAX,
    {
        self.k_buffer.lemma_view();
    }

    /// The bytes on each side lie row after row, in the order the layout gives the slots.
    pub proof fn lemma_flat(self)
        requires
            self.wf(),
        ensures
            self.flat(Side::Key).len() == (self@.shape.capacity * self@.shape.kv_heads)
                * self@.shape.row_bytes()->0,
            self.flat(Side::Value).len() == (self@.shape.capacity * self@.shape.kv_heads)
                * self@.shape.row_bytes()->0,
            self.flat(Side::Key).len() <= usize::MAX,
            self@.keys == planes_of(
                self@.shape,
                crate::rows::rows_of(
                    self.flat(Side::Key),
                    (self@.shape.capacity * self@.shape.kv_heads) as nat,
                    self@.shape.row_bytes()->0,
                ),
            ),
            self@.values == planes_of(
                self@.shape,
                crate::rows::rows_of(
                    self.flat(Side::Value),
                    (self@.shape.capacity * self@.shape.kv_heads) as nat,
                    self@.shape.row_bytes()->0,
                ),
            ),
    {
        self.k_buffer.lemma_view();
        self.v_buffer.lemma_view();
    }

    /// An empty cache of zero rows; `None` when the stored format cannot tile the head dimension,
    /// when a block codec is not over bytes, when the capacity exceeds the maximum length, or when
    /// the buffers would not fit.
    pub fn new(shape: CacheShape) -> (r: Option<KVCache>)
        ensures
            r is Some <==> shape.fits(),
            r matches Some(c) ==> {
                &&& c.wf()
                &&& c@.shape == shape
                &&& c@.current_pos == 0
                &&& c@.high_water_pos == 0
                &&& c@.starts == Seq::new(shape.kv_heads as nat, |h: int| 0usize)
                &&& c@.keys == Seq::new(
                    shape.kv_heads as nat,
                    |h: int| zero_plane(shape.capacity as nat, shape.row_bytes()->0),
                )
                &&& c@.values == c@.keys
            },
    {
        if shape.capacity > shape.max_seq_len || (shape.opaque.is_some() && shape.dtype != DType::U8) {
            return None;
        }
        let width: usize = match shape.row_width() {
            Some(w) => w,
            None => {
                return None;
            },
        };
        let count: usize = match shape.capacity.checked_mul(shape.kv_heads) {
            Some(n) => n,
            None => {
                return None;
            },
        };
        if count.checked_mul(width).is_none() {
            return None;
        }
        let k_buffer = RowBuffer::zeroed(count, width);
        let v_buffer = RowBuffer::zeroed(count, width);
        let head_start = vec![0usize; shape.kv_heads];
        let c = KVCache {
            shape,
            current_pos: 0,
            high_water_pos: 0,
            head_start,
            k_buffer,
            v_buffer,
        };
        proof {
            let zeros = Seq::new(
                shape.kv_heads as nat,
                |h: int| zero_plane(shape.capacity as nat, width as nat),
            );
            assert forall|h: int| 0 <= h < shape.kv_heads implies #[trigger] c@.keys[h]
                == zeros[h] by {
                assert forall|p: int| 0 <= p < shape.capacity implies #[trigger] c@.keys[h][p]
                    == zeros[h][p] by {
                    shape.lemma_slot_in_bounds(p, h);
                }
                assert(c@.keys[h] =~= zeros[h]);
            }
            assert(c@.keys =~= zeros);
            assert(c@.values =~= c@.keys);
            assert(c@.starts =~= Seq::new(shape.kv_heads as nat, |h: int| 0usize));
        }
        Some(c)
    }

    /// A copy of the shape.
    pub fn shape(&self) -> (r: CacheShape)
        ensures
            r == self@.shape,
    {
        self.shape
    }

    /// Tokens written so far, holes included.
    pub fn current_pos(&self) -> (r: usize)
        ensures
            r == self@.current_pos,
    {
        self.current_pos
    }

    /// Highest cursor the cache has had.
    pub fn high_water_pos(&self) -> (r: usize)
        ensures
            r == self@.high_water_pos,
    {
        self.high_water_pos
    }

    /// Positions the buffers have room for.
    pub fn capacity(&self) -> (r: usize)
        ensures
            r == self@.shape.capacity,
    {
        self.shape.capacity
    }

    pub fn kv_heads(&self) -> (r: usize)
        ensures
            r == self@.shape.kv_heads,
    {
        self.shape.kv_heads
    }

    pub fn head_dim(&self) -> (r: usize)
        ensures
            r == self@.shape.head_dim,
    {
        self.shape.head_dim
    }

    pub fn layout(&self) -> (r: KVLayout)
        ensures
            r == self@.shape.layout,
    {
        self.shape.layout
    }

    pub fn kv_dtype(&self) -> (r: DType)
        ensures
            r == self@.shape.dtype,
    {
        self.shape.dtype
    }

    /// Whether the store is opaque bytes of a block codec.
    pub fn is_opaque(&self) -> (r: bool)
        ensures
            r == (self@.shape.opaque is Some),
    {
        self.shape.opaque.is_some()
    }

    /// Whether the buffers live on a device.
    pub fn on_device(&self) -> (r: bool)
        ensures
            r == self@.shape.on_device,
    {
        self.shape.on_device
    }

    /// Bytes per row.
    pub fn row_width(&self) -> (r: usize)
        requires
            self.wf(),
        ensures
            self@.shape.row_bytes() == Some(r as nat),
    {
        self.k_buffer.row_bytes()
    }

    /// The key buffer's bytes.
    pub fn k_bytes(&self) -> (r: &Vec<u8>)
        ensures
            r@ == self.flat(Side::Key),
    {
        self.k_buffer.as_bytes()
    }

    /// The value buffer's bytes.
    pub fn v_bytes(&self) -> (r: &Vec<u8>)
        ensures
            r@ == self.flat(Side::Value),
    {
        self.v_buffer.as_bytes()
    }

    /// Replaces one side's bytes as a whole. `bytes` is as long as what it replaces.
    pub fn set_bytes(&mut self, side: Side, bytes: Vec<u8>)
        requires
            old(self).wf(),
            bytes@.len() == old(self).flat(side).len(),
        ensures
            final(self).wf(),
            final(self).flat(side) == bytes@,
            final(self)@ == (match side {
                Side::Key => CacheView { keys: final(self)@.keys, ..old(self)@ },
                Side::Value => CacheView { values: final(self)@.values, ..old(self)@ },
            }),
            side == Side::Key ==> final(self).flat(Side::Value) == old(self).flat(Side::Value),
            side == Side::Value ==> final(self).flat(Side::Key) == old(self).flat(Side::Key),
    {
        proof {
            self.k_buffer.lemma_view();
            self.v_buffer.lemma_view();
        }
        let count: usize = self.k_buffer.count();
        let width: usize = self.k_buffer.row_bytes();
        let rows: RowBuffer = RowBuffer::from_bytes(bytes, count, width).unwrap();
        match side {
            Side::Key => {
                self.k_buffer = rows;
            },
            Side::Value => {
                self.v_buffer = rows;
            },
        }
        proof {
            rows.lemma_view();
            assert forall|h: int, p: int|
                0 <= h < self.shape.kv_heads && 0 <= p < self.shape.capacity implies (
            #[trigger] self@.plane(side)[h][p]).len() == self.shape.row_bytes()->0 by {
                self.shape.lemma_slot_in_bounds(p, h);
            }
        }
    }

    /// The row that holds `(pos, head)`.
    pub fn slot(&self, pos: usize, head: usize) -> (r: usize)
        requires
            self.wf(),
            pos < self@.shape.capacity,
            head < self@.shape.kv_heads,
        ensures
            r == self@.shape.slot(pos as int, head as int),
            r < self@.shape.capacity * self@.shape.kv_heads,
    {
        proof {
            self.shape.lemma_slot_in_bounds(pos as int, head as int);
            self.k_buffer.lemma_view();
            assert(0 <= pos * self.shape.kv_heads) by (nonlinear_arith)
                requires
                    0 <= pos,
                    0 <= self.shape.kv_heads,
            ;
            assert(0 <= head * self.shape.capacity) by (nonlinear_arith)
                requires
                    0 <= head,
                    0 <= self.shape.capacity,
            ;
        }
        match self.shape.layout {
            KVLayout::SeqMajor => pos * self.shape.kv_heads + head,
            KVLayout::HeadMajor => head * self.shape.capacity + pos,
        }
    }

    /// A copy of the row at `(pos, head)`.
    pub fn read_row(&self, side: Side, pos: usize, head: usize) -> (row: Vec<u8>)
        requires
            self.wf(),
            pos < self@.shape.capacity,
            head < self@.shape.kv_heads,
        ensures
            row@ == self@.plane(side)[head as int][pos as int],
            row@.len() == self@.shape.row_bytes()->0,
    {
        let s: usize = self.slot(pos, head);
        match side {
            Side::Key => self.k_buffer.read(s),
            Side::Value => self.v_buffer.read(s),
        }
    }

    /// Replaces the row at `(pos, head)`; nothing else changes.
    pub fn write_row(&mut self, side: Side, pos: usize, head: usize, row: &Vec<u8>)
        requires
            old(self).wf(),
            pos < old(self)@.shape.capacity,
            head < old(self)@.shape.kv_heads,
            row@.len() == old(self)@.shape.row_bytes()->0,
        ensures
            final(self).wf(),
            final(self)@ == old(self)@.with_row(side, pos as int, head as int, row@),
    {
        let s: usize = self.slot(pos, head);
        match side {
            Side::Key => {
                proof {
                    lemma_planes_update(
                        self.shape,
                        self.k_buffer@,
                        pos as int,
                        head as int,
                        row@,
                    );
                }
                self.k_buffer.write(s, row);
            },
            Side::Value => {
                proof {
                    lemma_planes_update(
                        self.shape,
                        self.v_buffer@,
                        pos as int,
                        head as int,
                        row@,
                    );
                }
                self.v_buffer.write(s, row);
            },
        }
        proof {
            assert(self@ =~= old(self)@.with_row(side, pos as int, head as int, row@));
        }
    }

    /// Moves the cursor to `pos`; every head then holds `[0, pos)`.
    pub fn set_current_pos(&mut self, pos: usize)
        requires
            old(self).wf(),
            pos <= old(self)@.shape.capacity,
        ensures
            final(self).wf(),
            forall|side: Side| #[trigger] final(self).flat(side) == old(self).flat(side),
            final(self)@ == (CacheView {
                current_pos: pos,
                starts: Seq::new(old(self)@.shape.kv_heads as nat, |h: int| 0usize),
                ..old(self)@
            }),
    {
        self.current_pos = pos;
        self.head_start = vec![0usize; self.shape.kv_heads];
        proof {
            assert(self.head_start@ =~= Seq::new(self.shape.kv_heads as nat, |h: int| 0usize));
        }
    }

    /// Moves the cursor to `pos`; head `h` then holds `[starts[h], pos)`.
    pub fn set_head_starts(&mut self, pos: usize, starts: Vec<usize>)
        requires
            old(self).wf(),
            pos <= old(self)@.shape.capacity,
            starts@.len() == old(self)@.shape.kv_heads,
            forall|h: int| 0 <= h < starts@.len() ==> #[trigger] starts@[h] <= pos,
            old(self)@.shape.spec_supports_ragged() || forall|h: int|
                0 <= h < starts@.len() ==> #[trigger] starts@[h] == 0,
        ensures
            final(self).wf(),
            forall|side: Side| #[trigger] final(self).flat(side) == old(self).flat(side),
            final(self)@ == (CacheView { current_pos: pos, starts: starts@, ..old(self)@ }),
    {
        self.current_pos = pos;
        self.head_start = starts;
    }

    /// Moves the cursor on by `n` tokens, and the high-water mark with it.
    pub fn advance_pos(&mut self, n: usize)
        requires
            old(self).wf(),
            old(self)@.current_pos + n <= old(self)@.shape.capacity,
        ensures
            final(self).wf(),
            forall|side: Side| #[trigger] final(self).flat(side) == old(self).flat(side),
            final(self)@ == (CacheView {
                current_pos: (old(self)@.current_pos + n) as usize,
                high_water_pos: if old(self)@.current_pos + n > old(self)@.high_water_pos {
                    (old(self)@.current_pos + n) as usize
                } else {
                    old(self)@.high_water_pos
                },
                ..old(self)@
            }),
    {
        self.current_pos = self.current_pos + n;
        if self.current_pos > self.high_water_pos {
            self.high_water_pos = self.current_pos;
        }
    }

    /// Raises the high-water mark to `pos`, if it is lower.
    pub fn raise_high_water(&mut self, pos: usize)
        requires
            old(self).wf(),
            pos <= old(self)@.shape.capacity,
        ensures
            final(self).wf(),
            forall|side: Side| #[trigger] final(self).flat(side) == old(self).flat(side),
            final(self)@ == (CacheView {
                high_water_pos: if pos > old(self)@.high_water_pos {
                    pos
                } else {
                    old(self)@.high_water_pos
                },
                ..old(self)@
            }),
    {
        if pos > self.high_water_pos {
            self.high_water_pos = pos;
        }
    }

    /// First resident position of `head`.
    pub fn head_start(&self, head: usize) -> (r: usize)
        requires
            self.wf(),
            head < self@.shape.kv_heads,
        ensures
            r == self@.starts[head as int],
            r <= self@.current_pos,
    {
        self.head_start[head]
    }

    /// First resident position of every head.
    pub fn head_starts(&self) -> (r: Vec<usize>)
        requires
            self.wf(),
        ensures
            r@ == self@.starts,
    {
        let r = self.head_start.clone();
        proof {
            assert(r@ =~= self@.starts);
        }
        r
    }

    /// Tokens that `head` holds.
    pub fn head_len(&self, head: usize) -> (r: usize)
        requires
            self.wf(),
            head < self@.shape.kv_heads,
        ensures
            r == self@.current_pos - self@.starts[head as int],
    {
        self.current_pos - self.head_start[head]
    }

    /// Positions that hold a token, over all heads.
    pub fn resident_positions(&self) -> (n: usize)
        requires
            self.wf(),
        ensures
            n == self@.resident(self@.shape.kv_heads as int),
    {
        proof {
            self.lemma_wf();
        }
        let mut n: usize = 0;
        let mut h: usize = 0;
        while h < self.shape.kv_heads
            invariant
                h <= self.shape.kv_heads,
                self.wf(),
                self@.wf(),
                n == self@.resident(h as int),
                self@.shape == self.shape,
                self@.shape.capacity * self@.shape.kv_heads <= usize::MAX,
            decreases self.shape.kv_heads - h,
        {
            proof {
                self@.lemma_resident_bounds(h + 1);
                let c = self@.shape.capacity as int;
                let k = self@.shape.kv_heads as int;
                assert((h + 1) * c <= c * k) by (nonlinear_arith)
                    requires
                        h + 1 <= k,
                        0 <= c,
                ;
            }
            n = n + self.head_len(h);
            h = h + 1;
        }
        n
    }

    /// Tokens per head: the mean over the heads, rounded up.
    pub fn resident_tokens(&self) -> (n: usize)
        requires
            self.wf(),
        ensures
            n == self@.spec_resident_tokens(),
    {
        let positions: usize = self.resident_positions();
        let heads: usize = self.shape.kv_heads;
        if heads == 0 {
            return 0;
        }
        div_up(positions as u128, heads as u128) as usize
    }

    /// Bytes of the rows that hold a token, keys and values together. A count that does not fit
    /// stands at the machine's maximum.
    pub fn memory_usage_bytes(&self) -> (n: usize)
        requires
            self.wf(),
        ensures
            ({
                let side = self@.resident(self@.shape.kv_heads as int)
                    * self@.shape.row_bytes()->0;
                n == if 2 * side <= usize::MAX {
                    2 * side
                } else {
                    usize::MAX as nat
                }
            }),
    {
        proof {
            self.lemma_wf();
            self.lemma_flat();
            self.k_buffer.lemma_view();
            self@.lemma_resident_bounds(self@.shape.kv_heads as int);
            let r = self@.resident(self@.shape.kv_heads as int) as int;
            let all = self@.shape.capacity * self@.shape.kv_heads;
            let w = self@.shape.row_bytes()->0 as int;
            assert(self@.shape.kv_heads * self@.shape.capacity == all) by (nonlinear_arith)
                requires
                    all == self@.shape.capacity * self@.shape.kv_heads,
            ;
            assert(r * w <= all * w) by (nonlinear_arith)
                requires
                    r <= all,
                    0 <= w,
            ;
        }
        let side: usize = self.resident_positions() * self.row_width();
        side.saturating_add(side)
    }

    /// Whether some head starts past zero.
    pub fn is_ragged(&self) -> (r: bool)
        requires
            self.wf(),
        ensures
            r == self@.is_ragged(),
    {
        let mut h: usize = 0;
        while h < self.head_start.len()
            invariant
                h <= self.head_start@.len(),
                forall|x: int| 0 <= x < h ==> #[trigger] self.head_start@[x] == 0,
            decreases self.head_start@.len() - h,
        {
            if self.head_start[h] > 0 {
                assert(self@.starts[h as int] > 0);
                return true;
            }
            h = h + 1;
        }
        false
    }

    /// Whether heads may hold different counts.
    pub fn supports_ragged(&self) -> (r: bool)
        ensures
            r == self@.shape.spec_supports_ragged(),
    {
        self.shape.layout == KVLayout::HeadMajor && self.shape.opaque.is_none()
    }
}

/// Where a row lies: in a buffer that is laid out position after position, behind the rows of all heads
/// of the positions before it; in one laid out head after head, behind all the room of the heads before
/// it. The cache's rows are the buffer's there.
pub proof fn lemma_where_a_row_lies(c: KVCache, side: Side, pos: int, head: int, j: int)
    requires
        c.wf(),
        0 <= pos < c@.shape.capacity,
        0 <= head < c@.shape.kv_heads,
        0 <= j < c@.shape.row_bytes()->0,
    ensures
        ({
            let s = c@.shape;
            let row = match s.layout {
                KVLayout::SeqMajor => pos * s.kv_heads + head,
                KVLayout::HeadMajor => head * s.capacity + pos,
            };
            c@.plane(side)[head][pos][j] == c.flat(side)[row * s.row_bytes()->0 + j]
        }),
{
    c.lemma_wf();
    c.lemma_flat();
    let s = c@.shape;
    let w = s.row_bytes()->0 as int;
    s.lemma_slot_in_bounds(pos, head);
    let row = s.slot(pos, head);
    let n = s.capacity * s.kv_heads;
    assert(0 <= row * w && (row + 1) * w == row * w + w && (row + 1) * w <= n * w)
        by (nonlinear_arith)
        requires
            0 <= row,
            row + 1 <= n,
            0 <= w,
    ;
}

/// How many tokens a cache holds per head: where every head starts at zero, those of the frame; and
/// never more. The mean is rounded up, so it covers the heads' own.
pub proof fn lemma_resident_tokens(c: CacheView)
    requires
        c.wf(),
        c.shape.kv_heads > 0,
    ensures
        c.spec_resident_tokens() <= c.current_pos,
        !c.is_ragged() ==> c.spec_resident_tokens() == c.current_pos,
        c.resident(c.shape.kv_heads as int) <= c.spec_resident_tokens() * c.shape.kv_heads,
        c.resident(c.shape.kv_heads as int) > (c.spec_resident_tokens() - 1) * c.shape.kv_heads
            || c.spec_resident_tokens() == 0,
{
    let n = c.shape.kv_heads as int;
    lemma_resident_sum(c, n);
    let sum = c.resident(n);
    let q = c.spec_resident_tokens() as int;
    let p = c.current_pos as int;
    crate::arith::lemma_up_is_the_least_enough(sum, n as nat);
    assert(q <= p) by (nonlinear_arith)
        requires
            sum <= n * p,
            sum > 0 ==> (q - 1) * n < sum,
            sum == 0 ==> q == 0,
            n > 0,
            p >= 0,
            sum >= 0,
    ;
    if !c.is_ragged() {
        assert(q >= p) by (nonlinear_arith)
            requires
                sum == n * p,
                sum <= q * n,
                n > 0,
        ;
    }
}

proof fn lemma_resident_sum(c: CacheView, heads: int)
    requires
        c.wf(),
        0 <= heads <= c.shape.kv_heads,
    ensures
        c.resident(heads) <= heads * c.current_pos,
        !c.is_ragged() ==> c.resident(heads) == heads * c.current_pos,
    decreases heads,
{
    let p = c.current_pos as int;
    if heads > 0 {
        lemma_resident_sum(c, heads - 1);
        assert(heads * p == (heads - 1) * p + p) by (nonlinear_arith);
        assert(c.starts[heads - 1] <= c.current_pos);
        if !c.is_ragged() {
            assert(!(c.starts[heads - 1] > 0));
        }
    } else {
        assert(0 * p == 0) by (nonlinear_arith);
    }
}

/// The resident positions of one more head are those from its start to the cursor.
pub proof fn lemma_resident_adds_a_head(c: CacheView, heads: int)
    requires
        c.wf(),
        0 <= heads < c.shape.kv_heads,
    ensures
        c.resident(0) == 0,
        c.resident(heads + 1) - c.resident(heads) == c.current_pos - c.starts[heads],
{
    assert(c.starts[heads] <= c.current_pos);
}

/// Which stores may hold different positions in different heads, and which shapes a cache can have:
/// the room within the maximum, block codecs over bytes, a row with a width, and buffers that fit.
pub proof fn lemma_what_a_shape_allows(s: CacheShape)
    ensures
        s.spec_supports_ragged() <==> s.layout == KVLayout::HeadMajor && s.opaque is None,
        s.opaque is None && s.capacity <= s.max_seq_len && (s.row_bytes() matches Some(w) && w
            <= usize::MAX && (s.capacity * s.kv_heads) * w <= usize::MAX) && s.capacity * s.kv_heads
            <= usize::MAX ==> s.fits(),
        s.fits() ==> s.capacity <= s.max_seq_len && s.row_bytes() is Some && (s.opaque is Some
            ==> s.dtype == DType::U8),
        s.row_bytes() == spec_row_bytes(s.dtype, s.opaque, s.head_dim as nat),
{
}

/// A row that is written is the row that is there, and no other row of either side changes, nor any
/// cursor.
pub proof fn lemma_a_written_row_is_there(
    c: CacheView,
    side: Side,
    pos: int,
    head: int,
    row: Seq<u8>,
    other: Side,
    p: int,
    h: int,
)
    requires
        c.wf(),
        0 <= pos < c.shape.capacity,
        0 <= head < c.shape.kv_heads,
        0 <= p < c.shape.capacity,
        0 <= h < c.shape.kv_heads,
    ensures
        ({
            let after = c.with_row(side, pos, head, row);
            &&& after.plane(side)[head][pos] == row
            &&& !(other == side && p == pos && h == head) ==> after.plane(other)[h][p] == c.plane(
                other,
            )[h][p]
            &&& after.shape == c.shape
            &&& after.current_pos == c.current_pos
            &&& after.starts == c.starts
            &&& after.high_water_pos == c.high_water_pos
        }),
        c.plane(Side::Key) == c.keys,
        c.plane(Side::Value) == c.values,
{
    assert(c.plane(side)[head].len() == c.shape.capacity);
    assert(c.plane(other)[h].len() == c.shape.capacity);
}

/// What a new cache is: of the shape it was asked for, empty, every head at its front and every byte zero.
/// There is one exactly when the shape fits.
pub proof fn lemma_a_new_cache_is_empty(shape: CacheShape, r: Option<KVCache>, side: Side, h: int, p: int, j: int)
    requires
        call_ensures(KVCache::new, (shape,), r),
    ensures
        r is Some <==> shape.fits(),
        r matches Some(c) ==> {
            &&& c@.shape == shape
            &&& c@.current_pos == 0
            &&& c@.high_water_pos == 0
            &&& 0 <= h < shape.kv_heads ==> c@.starts[h] == 0
            &&& 0 <= h < shape.kv_heads && 0 <= p < shape.capacity && 0 <= j < shape.row_bytes()->0
                ==> c@.plane(side)[h][p][j] == 0
        },
{
}

/// What a cache's tokens take: the bytes of every resident row, once for the keys and once for the values;
/// where every head starts at the front, those of all heads and positions.
pub proof fn lemma_bytes_that_tokens_take(c: KVCache, n: usize)
    requires
        c.wf(),
        call_ensures(KVCache::memory_usage_bytes, (&c,), n),
    ensures
        ({
            let rows = c@.resident(c@.shape.kv_heads as int);
            let w = c@.shape.row_bytes()->0;
            &&& rows * w + rows * w <= usize::MAX ==> n == rows * w + rows * w
            &&& rows * w + rows * w > usize::MAX ==> n == usize::MAX
        }),
{
}

} // verus!
