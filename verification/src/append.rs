//! Writing tokens into a cache, and growing it to hold them.

use crate::codec::{misfits, recoded, RowCodec, RowFormat};
use crate::kv_cache::{zero_plane, CacheShape, CacheView, KVCache, KvError, Side, Tensor};
use crate::rows::RowBuffer;
use vstd::prelude::*;

verus! {

/// The capacity a growing cache takes for `required` positions: twice what it has, at least what is
/// required, and never more than the maximum length.
pub open spec fn grown_capacity(shape: CacheShape, required: int) -> int {
    let doubled = if shape.capacity * 2 > required {
        shape.capacity * 2
    } else {
        required
    };
    if doubled > shape.max_seq_len {
        shape.max_seq_len as int
    } else {
        doubled
    }
}

impl CacheShape {
    /// The shape with another capacity.
    pub open spec fn with_capacity(self, capacity: usize) -> CacheShape {
        CacheShape { capacity, ..self }
    }

    /// The cache has room for `required` positions, or can grow to have it.
    pub open spec fn can_hold(self, required: int) -> bool {
        ||| required <= self.capacity
        ||| self.dynamic && required <= self.max_seq_len && self.with_capacity(
            grown_capacity(self, required) as usize,
        ).fits()
    }
}

impl CacheView {
    /// The cache with room for `capacity` positions: the new rows are zero.
    pub open spec fn with_room(self, capacity: usize) -> CacheView {
        let width = self.shape.row_bytes()->0;
        let more = (capacity - self.shape.capacity) as nat;
        CacheView {
            shape: self.shape.with_capacity(capacity),
            keys: Seq::new(
                self.shape.kv_heads as nat,
                |h: int| self.keys[h] + zero_plane(more, width),
            ),
            values: Seq::new(
                self.shape.kv_heads as nat,
                |h: int| self.values[h] + zero_plane(more, width),
            ),
            ..self
        }
    }

    /// The cache once it has room for `required` positions.
    pub open spec fn holding(self, required: int) -> CacheView {
        if required <= self.shape.capacity {
            self
        } else {
            self.with_room(grown_capacity(self.shape, required) as usize)
        }
    }

    /// The cache with tokens written at its cursor, which moves behind them.
    pub open spec fn appended(self, k: Seq<Seq<Seq<u8>>>, v: Seq<Seq<Seq<u8>>>) -> CacheView {
        let pos = self.current_pos as int;
        let end = pos + k.len();
        CacheView {
            current_pos: end as usize,
            high_water_pos: if end > self.high_water_pos {
                end as usize
            } else {
                self.high_water_pos
            },
            keys: Seq::new(
                self.shape.kv_heads as nat,
                |h: int| written(self.keys[h], k, h, pos),
            ),
            values: Seq::new(
                self.shape.kv_heads as nat,
                |h: int| written(self.values[h], v, h, pos),
            ),
            ..self
        }
    }
}

/// `rows` with head `h` of `tokens` written from position `pos` on.
pub open spec fn written(rows: Seq<Seq<u8>>, tokens: Seq<Seq<Seq<u8>>>, h: int, pos: int) -> Seq<
    Seq<u8>,
> {
    Seq::new(
        rows.len(),
        |p: int|
            if pos <= p < pos + tokens.len() {
                tokens[p - pos][h]
            } else {
                rows[p]
            },
    )
}

impl Tensor {
    /// `tokens()[s][h]` is the row of token `s`, head `h`.
    pub open spec fn tokens(self) -> Seq<Seq<Seq<u8>>> {
        Seq::new(
            self.seq_len as nat,
            |s: int| Seq::new(self.kv_heads as nat, |h: int| self.row(s, h)),
        )
    }

    /// The tensor's rows fit the cache's: as many heads, of the cache's width.
    pub open spec fn fits(self, shape: CacheShape) -> bool {
        &&& self.kv_heads == shape.kv_heads
        &&& shape.row_bytes() == Some(self.data.width())
    }
}

/// Grows a plane-by-plane copy: the first `heads` heads, and `rows` rows of the next, are copied.
spec fn partly_copied(c: CacheView, zero: CacheView, heads: int, rows: int) -> CacheView {
    CacheView {
        keys: Seq::new(
            c.shape.kv_heads as nat,
            |h: int|
                Seq::new(
                    zero.shape.capacity as nat,
                    |p: int|
                        if p < c.shape.capacity && (h < heads || (h == heads && p < rows)) {
                            c.keys[h][p]
                        } else {
                            zero.keys[h][p]
                        },
                ),
        ),
        values: Seq::new(
            c.shape.kv_heads as nat,
            |h: int|
                Seq::new(
                    zero.shape.capacity as nat,
                    |p: int|
                        if p < c.shape.capacity && (h < heads || (h == heads && p < rows)) {
                            c.values[h][p]
                        } else {
                            zero.values[h][p]
                        },
                ),
        ),
        ..zero
    }
}

impl KVCache {
    /// Whether the cache has, or can grow, room for `required` positions.
    pub fn can_hold(&self, required: usize) -> (r: bool)
        requires
            self.wf(),
        ensures
            r == self@.shape.can_hold(required as int),
    {
        let shape = self.shape();
        if required <= shape.capacity {
            return true;
        }
        if !shape.dynamic || required > shape.max_seq_len {
            return false;
        }
        let capacity: usize = self.next_capacity(required);
        let grown = CacheShape { capacity, ..shape };
        shape_fits(&grown)
    }

    /// The capacity to grow to for `required` positions.
    fn next_capacity(&self, required: usize) -> (r: usize)
        requires
            self.wf(),
            required <= self@.shape.max_seq_len,
        ensures
            r == grown_capacity(self@.shape, required as int),
            required <= r <= self@.shape.max_seq_len,
    {
        let shape = self.shape();
        let doubled: usize = match shape.capacity.checked_mul(2) {
            Some(x) => x,
            None => usize::MAX,
        };
        let wanted: usize = if doubled > required {
            doubled
        } else {
            required
        };
        if wanted > shape.max_seq_len {
            shape.max_seq_len
        } else {
            wanted
        }
    }

    /// Makes room for `required` positions. Refused, with nothing changed, when a fixed cache is
    /// full, or the maximum length is too short, or the grown buffers would not fit.
    pub fn ensure_capacity(&mut self, required: usize) -> (r: Result<(), KvError>)
        requires
            old(self).wf(),
        ensures
            final(self).wf(),
            r is Ok <==> old(self)@.shape.can_hold(required as int),
            r is Ok ==> final(self)@ == old(self)@.holding(required as int),
            r matches Err(e) ==> e == KvError::CapacityExceeded && final(self)@ == old(self)@,
    {
        let ghost before = self@;
        proof {
            self.lemma_wf();
        }
        if required <= self.capacity() {
            return Ok(());
        }
        if !self.can_hold(required) {
            return Err(KvError::CapacityExceeded);
        }
        let shape = self.shape();
        let capacity: usize = self.next_capacity(required);
        let grown = CacheShape { capacity, ..shape };
        let mut fresh: KVCache = match KVCache::new(grown) {
            Some(c) => c,
            None => {
                assert(false);
                return Err(KvError::CapacityExceeded);
            },
        };
        let ghost zero = fresh@;
        let heads: usize = shape.kv_heads;
        let old_capacity: usize = shape.capacity;
        let mut h: usize = 0;
        proof {
            fresh.lemma_wf();
            let start = partly_copied(before, zero, 0, 0);
            assert forall|x: int|
    #![trigger start.keys[x]]
    #![trigger start.values[x]]
    0 <= x < heads implies start.keys[x] == zero.keys[x] && start.values[x] == zero.values[x] by {
                assert(zero.plane(Side::Key)[x].len() == capacity);
                assert(zero.plane(Side::Value)[x].len() == capacity);
                assert(start.keys[x] =~= zero.keys[x]);
                assert(start.values[x] =~= zero.values[x]);
            }
            assert(start.keys =~= zero.keys);
            assert(start.values =~= zero.values);
            assert(start =~= zero);
        }
        while h < heads
            invariant
                h <= heads,
                heads == before.shape.kv_heads,
                self@ == before,
                self.wf(),
                before.wf(),
                zero.wf(),
                old_capacity == before.shape.capacity,
                old_capacity <= capacity,
                zero.shape == before.shape.with_capacity(capacity),
                fresh.wf(),
                fresh@ == partly_copied(before, zero, h as int, 0),
            decreases heads - h,
        {
            let mut p: usize = 0;
            while p < old_capacity
                invariant
                    h < heads,
                    p <= old_capacity,
                    heads == before.shape.kv_heads,
                    self@ == before,
                    self.wf(),
                    before.wf(),
                    zero.wf(),
                    old_capacity == before.shape.capacity,
                    old_capacity <= capacity,
                    zero.shape == before.shape.with_capacity(capacity),
                    fresh.wf(),
                    fresh@ == partly_copied(before, zero, h as int, p as int),
                decreases old_capacity - p,
            {
                let k_row: Vec<u8> = self.read_row(Side::Key, p, h);
                let v_row: Vec<u8> = self.read_row(Side::Value, p, h);
                fresh.write_row(Side::Key, p, h, &k_row);
                fresh.write_row(Side::Value, p, h, &v_row);
                proof {
                    let now = partly_copied(before, zero, h as int, p as int);
                    let next = partly_copied(before, zero, h as int, p + 1);
                    assert forall|x: int|
    #![trigger fresh@.keys[x]]
    #![trigger fresh@.values[x]]
    0 <= x < heads implies fresh@.keys[x] == next.keys[x] && fresh@.values[x] == next.values[x] by {
                        if x == h {
                            assert(now.keys[x].update(p as int, k_row@) =~= next.keys[x]);
                            assert(now.values[x].update(p as int, v_row@) =~= next.values[x]);
                        } else {
                            assert(now.keys[x] =~= next.keys[x]);
                            assert(now.values[x] =~= next.values[x]);
                        }
                    }
                    assert(fresh@.keys =~= next.keys);
                    assert(fresh@.values =~= next.values);
                    assert(fresh@ =~= next);
                }
                p = p + 1;
            }
            proof {
                let now = partly_copied(before, zero, h as int, old_capacity as int);
                let next = partly_copied(before, zero, h + 1, 0);
                assert forall|x: int|
    #![trigger now.keys[x]]
    #![trigger now.values[x]]
    0 <= x < heads implies now.keys[x] == next.keys[x] && now.values[x] == next.values[x] by {
                    assert(now.keys[x] =~= next.keys[x]);
                    assert(now.values[x] =~= next.values[x]);
                }
                assert(now.keys =~= next.keys);
                assert(now.values =~= next.values);
                assert(now =~= next);
            }
            h = h + 1;
        }
        let ghost full = fresh@;
        fresh.raise_high_water(self.high_water_pos());
        fresh.set_head_starts(self.current_pos(), self.head_starts());
        proof {
            let expected = before.with_room(capacity);
            assert forall|x: int|
    #![trigger fresh@.keys[x]]
    #![trigger fresh@.values[x]]
    0 <= x < heads implies fresh@.keys[x] == expected.keys[x] && fresh@.values[x] == expected.values[x] by {
                assert(before.plane(Side::Key)[x].len() == old_capacity);
                assert(before.plane(Side::Value)[x].len() == old_capacity);
                assert(fresh@.keys[x] =~= expected.keys[x]);
                assert(fresh@.values[x] =~= expected.values[x]);
            }
            assert(fresh@.keys =~= expected.keys);
            assert(fresh@.values =~= expected.values);
            assert(fresh@ =~= expected);
        }
        *self = fresh;
        Ok(())
    }

    /// Writes tokens at the cursor, in the cache's own format, and moves the cursor behind them.
    /// Refused, with nothing changed, when the rows have another shape or there is no room.
    pub fn update(&mut self, new_k: &Tensor, new_v: &Tensor) -> (r: Result<(), KvError>)
        requires
            old(self).wf(),
            new_k.wf(),
            new_v.wf(),
        ensures
            final(self).wf(),
            ({
                let fits = new_k.fits(old(self)@.shape) && new_v.fits(old(self)@.shape)
                    && new_k.seq_len == new_v.seq_len;
                let required = old(self)@.current_pos + new_k.seq_len;
                if !fits {
                    r == Err::<(), KvError>(KvError::ShapeMismatch)
                } else if !old(self)@.shape.can_hold(required) || required > usize::MAX {
                    r == Err::<(), KvError>(KvError::CapacityExceeded)
                } else {
                    r is Ok && final(self)@ == old(self)@.holding(required).appended(
                        new_k.tokens(),
                        new_v.tokens(),
                    )
                }
            }),
            r is Err ==> final(self)@ == old(self)@,
    {
        let width: usize = self.row_width();
        let heads: usize = self.kv_heads();
        if new_k.kv_heads != heads || new_v.kv_heads != heads || new_k.seq_len != new_v.seq_len
            || new_k.data.row_bytes() != width || new_v.data.row_bytes() != width {
            return Err(KvError::ShapeMismatch);
        }
        let pos: usize = self.current_pos();
        let n: usize = new_k.seq_len;
        let required: usize = match pos.checked_add(n) {
            Some(x) => x,
            None => {
                return Err(KvError::CapacityExceeded);
            },
        };
        self.ensure_capacity(required)?;
        let ghost before = self@;
        let ghost k = new_k.tokens();
        let ghost v = new_v.tokens();
        proof {
            self.lemma_wf();
            let start = partly_written(before, k, v, 0, 0);
            assert forall|x: int|
    #![trigger start.keys[x]]
    #![trigger start.values[x]]
    0 <= x < heads implies start.keys[x] == before.keys[x] && start.values[x] == before.values[x] by {
                assert(start.keys[x] =~= before.keys[x]);
                assert(start.values[x] =~= before.values[x]);
            }
            assert(start.keys =~= before.keys);
            assert(start.values =~= before.values);
            assert(start =~= before);
        }
        let mut s: usize = 0;
        while s < n
            invariant
                s <= n,
                n == new_k.seq_len,
                n == new_v.seq_len,
                heads == new_k.kv_heads,
                heads == new_v.kv_heads,
                heads == before.shape.kv_heads,
                before.shape.row_bytes() == Some(new_k.data.width()),
                before.shape.row_bytes() == Some(new_v.data.width()),
                new_k.wf(),
                new_v.wf(),
                k == new_k.tokens(),
                v == new_v.tokens(),
                pos == before.current_pos,
                pos + n <= before.shape.capacity,
                before.wf(),
                self.wf(),
                self@ == partly_written(before, k, v, s as int, 0),
            decreases n - s,
        {
            let mut h: usize = 0;
            while h < heads
                invariant
                    s < n,
                    h <= heads,
                    n == new_k.seq_len,
                    n == new_v.seq_len,
                    heads == new_k.kv_heads,
                    heads == new_v.kv_heads,
                    heads == before.shape.kv_heads,
                    before.shape.row_bytes() == Some(new_k.data.width()),
                    before.shape.row_bytes() == Some(new_v.data.width()),
                    new_k.wf(),
                    new_v.wf(),
                    k == new_k.tokens(),
                    v == new_v.tokens(),
                    pos == before.current_pos,
                    pos + n <= before.shape.capacity,
                    before.wf(),
                    self.wf(),
                    self@ == partly_written(before, k, v, s as int, h as int),
                decreases heads - h,
            {
                let k_row: Vec<u8> = new_k.read(s, h);
                let v_row: Vec<u8> = new_v.read(s, h);
                self.write_row(Side::Key, pos + s, h, &k_row);
                self.write_row(Side::Value, pos + s, h, &v_row);
                proof {
                    let now = partly_written(before, k, v, s as int, h as int);
                    let next = partly_written(before, k, v, s as int, h + 1);
                    assert(k_row@ == k[s as int][h as int]);
                    assert(v_row@ == v[s as int][h as int]);
                    assert forall|x: int|
    #![trigger self@.keys[x]]
    #![trigger self@.values[x]]
    0 <= x < heads implies self@.keys[x] == next.keys[x] && self@.values[x] == next.values[x] by {
                        assert(before.plane(Side::Key)[x].len() == before.shape.capacity);
                        assert(before.plane(Side::Value)[x].len() == before.shape.capacity);
                        if x == h {
                            assert(now.keys[x].update(pos + s, k_row@) =~= next.keys[x]);
                            assert(now.values[x].update(pos + s, v_row@) =~= next.values[x]);
                        } else {
                            assert(now.keys[x] =~= next.keys[x]);
                            assert(now.values[x] =~= next.values[x]);
                        }
                    }
                    assert(self@.keys =~= next.keys);
                    assert(self@.values =~= next.values);
                    assert(self@ =~= next);
                }
                h = h + 1;
            }
            proof {
                let now = partly_written(before, k, v, s as int, heads as int);
                let next = partly_written(before, k, v, s + 1, 0);
                assert forall|x: int|
    #![trigger now.keys[x]]
    #![trigger now.values[x]]
    0 <= x < heads implies now.keys[x] == next.keys[x] && now.values[x] == next.values[x] by {
                    assert(now.keys[x] =~= next.keys[x]);
                    assert(now.values[x] =~= next.values[x]);
                }
                assert(now.keys =~= next.keys);
                assert(now.values =~= next.values);
                assert(now =~= next);
            }
            s = s + 1;
        }
        self.advance_pos(n);
        proof {
            let expected = before.appended(k, v);
            assert forall|x: int|
    #![trigger self@.keys[x]]
    #![trigger self@.values[x]]
    0 <= x < heads implies self@.keys[x] == expected.keys[x] && self@.values[x] == expected.values[x] by {
                assert(self@.keys[x] =~= expected.keys[x]);
                assert(self@.values[x] =~= expected.values[x]);
            }
            assert(self@.keys =~= expected.keys);
            assert(self@.values =~= expected.values);
            assert(self@ =~= expected);
        }
        Ok(())
    }
}

/// The first `s` tokens, and `heads` heads of the next, are written; the cursor has not moved.
spec fn partly_written(
    c: CacheView,
    k: Seq<Seq<Seq<u8>>>,
    v: Seq<Seq<Seq<u8>>>,
    s: int,
    heads: int,
) -> CacheView {
    let pos = c.current_pos as int;
    CacheView {
        keys: Seq::new(
            c.shape.kv_heads as nat,
            |h: int|
                Seq::new(
                    c.keys[h].len(),
                    |p: int|
                        if pos <= p < pos + s || (p == pos + s && h < heads) {
                            k[p - pos][h]
                        } else {
                            c.keys[h][p]
                        },
                ),
        ),
        values: Seq::new(
            c.shape.kv_heads as nat,
            |h: int|
                Seq::new(
                    c.values[h].len(),
                    |p: int|
                        if pos <= p < pos + s || (p == pos + s && h < heads) {
                            v[p - pos][h]
                        } else {
                            c.values[h][p]
                        },
                ),
        ),
        ..c
    }
}

/// Whether a cache of this shape can be made.
pub fn shape_fits(shape: &CacheShape) -> (r: bool)
    ensures
        r == shape.fits(),
{
    if shape.capacity > shape.max_seq_len || (shape.opaque.is_some() && shape.dtype
        != crate::dtype::DType::U8) {
        return false;
    }
    match shape.row_width() {
        Some(width) => match shape.capacity.checked_mul(shape.kv_heads) {
            Some(count) => count.checked_mul(width).is_some(),
            None => false,
        },
        None => false,
    }
}

/// Every row of `out` is what the coder returned for the same row of `tokens`.
pub open spec fn tokens_recoded<C: RowCodec>(
    codec: &C,
    tokens: Seq<Seq<Seq<u8>>>,
    from: RowFormat,
    to: RowFormat,
    out: Seq<Seq<Seq<u8>>>,
) -> bool {
    &&& out.len() == tokens.len()
    &&& forall|s: int|
        0 <= s < tokens.len() ==> (#[trigger] out[s]).len() == tokens[s].len()
    &&& forall|s: int, h: int|
        0 <= s < tokens.len() && 0 <= h < tokens[s].len() ==> recoded(
            codec,
            #[trigger] tokens[s][h],
            from,
            to,
            out[s][h],
        )
}

/// For a row of `tokens` the coder returned a row of another width than `width`.
pub open spec fn tokens_misfit<C: RowCodec>(
    codec: &C,
    tokens: Seq<Seq<Seq<u8>>>,
    from: RowFormat,
    to: RowFormat,
    width: nat,
) -> bool {
    exists|s: int, h: int|
        0 <= s < tokens.len() && 0 <= h < tokens[s].len() && #[trigger] misfits(
            codec,
            tokens[s][h],
            from,
            to,
            width,
        )
}

/// The tensor's rows in another format; `None` when the coder returns a row of another width than
/// `width` for one of them, or the rows would not fit.
pub fn cast_tensor<C: RowCodec>(
    codec: &C,
    t: &Tensor,
    from: RowFormat,
    to: RowFormat,
    width: usize,
) -> (r: Option<Tensor>)
    requires
        t.wf(),
    ensures
        r matches Some(out) ==> {
            &&& out.wf()
            &&& out.data.width() == width
            &&& out.seq_len == t.seq_len
            &&& out.kv_heads == t.kv_heads
            &&& tokens_recoded(codec, t.tokens(), from, to, out.tokens())
        },
        r is None ==> t.data@.len() * width > usize::MAX || tokens_misfit(
            codec,
            t.tokens(),
            from,
            to,
            width as nat,
        ),
{
    proof {
        t.data.lemma_view();
    }
    let count: usize = t.data.count();
    if count.checked_mul(width).is_none() {
        return None;
    }
    let mut data = RowBuffer::zeroed(count, width);
    let mut i: usize = 0;
    while i < count
        invariant
            i <= count,
            count == t.data@.len(),
            t.wf(),
            data.wf(),
            data@.len() == count,
            data.width() == width,
            forall|x: int|
                0 <= x < i ==> recoded(codec, #[trigger] t.data@[x], from, to, data@[x]),
        decreases count - i,
    {
        let row: Vec<u8> = t.data.read(i);
        let out = codec.recode(&row, from, to);
        proof {
            assert(call_ensures(C::recode, (codec, &row, from, to), out));
            assert(recoded(codec, t.data@[i as int], from, to, out@));
        }
        if out.len() != width {
            proof {
                let (s, h) = lemma_row_is_of_a_token(*t, i as int);
                assert(misfits(codec, t.tokens()[s][h], from, to, width as nat));
            }
            return None;
        }
        let ghost mid = data@;
        data.write(i, &out);
        proof {
            assert forall|x: int| 0 <= x < i + 1 implies recoded(
                codec,
                #[trigger] t.data@[x],
                from,
                to,
                data@[x],
            ) by {
                if x < i {
                    assert(data@[x] == mid[x]);
                }
            }
        }
        i = i + 1;
    }
    let out = Tensor {
        dtype: to.dtype,
        seq_len: t.seq_len,
        kv_heads: t.kv_heads,
        head_dim: t.head_dim,
        data,
    };
    proof {
        assert forall|s: int, h: int|
            0 <= s < t.tokens().len() && 0 <= h < t.tokens()[s].len() implies recoded(
            codec,
            #[trigger] t.tokens()[s][h],
            from,
            to,
            out.tokens()[s][h],
        ) by {
            let w = t.kv_heads as int;
            assert(0 <= s * w && s * w + w <= t.seq_len * w) by (nonlinear_arith)
                requires
                    0 <= s < t.seq_len,
                    0 <= w,
            ;
            assert(recoded(codec, t.data@[s * w + h], from, to, out.data@[s * w + h]));
        }
    }
    Some(out)
}

/// Row `i` of a tensor is the row of some token and head.
proof fn lemma_row_is_of_a_token(t: Tensor, i: int) -> (at: (int, int))
    requires
        t.wf(),
        0 <= i < t.data@.len(),
    ensures
        0 <= at.0 < t.tokens().len(),
        0 <= at.1 < t.tokens()[at.0].len(),
        t.tokens()[at.0][at.1] == t.data@[i],
{
    let w = t.kv_heads as int;
    let n = t.seq_len as int;
    assert(w > 0) by (nonlinear_arith)
        requires
            i < n * w,
            0 <= i,
            0 <= w,
    ;
    vstd::arithmetic::div_mod::lemma_fundamental_div_mod(i, w);
    let s = i / w;
    let h = i % w;
    assert(0 <= s < n) by (nonlinear_arith)
        requires
            i == w * s + h,
            0 <= h < w,
            0 <= i < n * w,
    ;
    assert(w * s == s * w) by (nonlinear_arith);
    (s, h)
}

/// The tensor's first token.
pub fn first_token(t: &Tensor) -> (r: Tensor)
    requires
        t.wf(),
        t.seq_len > 0,
    ensures
        r.wf(),
        r.dtype == t.dtype,
        r.seq_len == 1,
        r.kv_heads == t.kv_heads,
        r.head_dim == t.head_dim,
        r.data.width() == t.data.width(),
        r.tokens() == t.tokens().take(1),
{
    proof {
        t.data.lemma_view();
        let n = t.seq_len as int;
        let w = t.kv_heads as int;
        let b = t.data.width() as int;
        assert(w <= n * w && w * b <= (n * w) * b) by (nonlinear_arith)
            requires
                n >= 1,
                w >= 0,
                b >= 0,
        ;
    }
    let heads: usize = t.kv_heads;
    let width: usize = t.data.row_bytes();
    let mut data = RowBuffer::zeroed(heads, width);
    let mut h: usize = 0;
    while h < heads
        invariant
            h <= heads,
            heads == t.kv_heads,
            heads <= t.data@.len(),
            t.wf(),
            data.wf(),
            data@.len() == heads,
            data.width() == width,
            width == t.data.width(),
            forall|x: int| 0 <= x < h ==> #[trigger] data@[x] == t.data@[x],
        decreases heads - h,
    {
        proof {
            t.data.lemma_view();
        }
        let row: Vec<u8> = t.data.read(h);
        data.write(h, &row);
        h = h + 1;
    }
    let r = Tensor { dtype: t.dtype, seq_len: 1, kv_heads: heads, head_dim: t.head_dim, data };
    proof {
        assert(r.tokens()[0] =~= t.tokens()[0]);
        assert(r.tokens() =~= t.tokens().take(1));
    }
    r
}

/// Writing tokens in two goes is writing them in one: a batch write stores what token-by-token
/// writes store.
pub proof fn lemma_append_in_two(
    c: CacheView,
    k1: Seq<Seq<Seq<u8>>>,
    v1: Seq<Seq<Seq<u8>>>,
    k2: Seq<Seq<Seq<u8>>>,
    v2: Seq<Seq<Seq<u8>>>,
)
    requires
        k1.len() == v1.len(),
        k2.len() == v2.len(),
        c.current_pos + k1.len() + k2.len() <= c.shape.capacity,
    ensures
        c.appended(k1, v1).appended(k2, v2) == c.appended(k1 + k2, v1 + v2),
{
    let two = c.appended(k1, v1).appended(k2, v2);
    let one = c.appended(k1 + k2, v1 + v2);
    assert forall|h: int|
    #![trigger two.keys[h]]
    #![trigger two.values[h]]
    0 <= h < c.shape.kv_heads implies two.keys[h] == one.keys[h] && two.values[h] == one.values[h] by {
        assert(two.keys[h] =~= one.keys[h]);
        assert(two.values[h] =~= one.values[h]);
    }
    assert(two.keys =~= one.keys);
    assert(two.values =~= one.values);
    assert(two =~= one);
}

/// Growing keeps every row there was and every cursor.
pub proof fn lemma_growth_keeps_rows(c: CacheView, required: int, h: int, p: int)
    requires
        c.wf(),
        c.shape.can_hold(required),
        0 <= h < c.shape.kv_heads,
        0 <= p < c.shape.capacity,
    ensures
        c.holding(required).current_pos == c.current_pos,
        c.holding(required).starts == c.starts,
        c.holding(required).shape.capacity >= required,
        c.holding(required).keys[h][p] == c.keys[h][p],
        c.holding(required).values[h][p] == c.values[h][p],
{
    assert(c.plane(Side::Key)[h].len() == c.shape.capacity);
    assert(c.plane(Side::Value)[h].len() == c.shape.capacity);
}

/// Tokens that were written are what a reader finds at their positions, and what was before them
/// stays.
pub proof fn lemma_append_stores_tokens(
    c: CacheView,
    k: Seq<Seq<Seq<u8>>>,
    v: Seq<Seq<Seq<u8>>>,
    h: int,
    p: int,
)
    requires
        c.wf(),
        k.len() == v.len(),
        c.current_pos + k.len() <= c.shape.capacity,
        0 <= h < c.shape.kv_heads,
        0 <= p < c.current_pos + k.len(),
    ensures
        c.appended(k, v).current_pos == c.current_pos + k.len(),
        p < c.current_pos ==> c.appended(k, v).keys[h][p] == c.keys[h][p] && c.appended(
            k,
            v,
        ).values[h][p] == c.values[h][p],
        p >= c.current_pos ==> c.appended(k, v).keys[h][p] == k[p - c.current_pos][h] && c.appended(
            k,
            v,
        ).values[h][p] == v[p - c.current_pos][h],
{
    assert(c.plane(Side::Key)[h].len() == c.shape.capacity);
    assert(c.plane(Side::Value)[h].len() == c.shape.capacity);
}

/// How a cache makes room: not at all where it has it; else, if it may grow, to twice its room or as
/// much as is needed, whichever is more, and to its maximum at most. It cannot where it may not grow or
/// its maximum is less.
pub proof fn lemma_how_a_cache_grows(c: CacheView, required: int)
    requires
        c.wf(),
    ensures
        required <= c.shape.capacity ==> c.shape.can_hold(required) && c.holding(required) == c,
        required > c.shape.capacity && !c.shape.dynamic ==> !c.shape.can_hold(required),
        required > c.shape.max_seq_len ==> !c.shape.can_hold(required),
        c.shape.capacity < required <= c.shape.max_seq_len ==> {
            let room = c.holding(required).shape.capacity as int;
            &&& required <= room <= c.shape.max_seq_len
            &&& room == required || room == 2 * c.shape.capacity || room == c.shape.max_seq_len
            &&& room >= 2 * c.shape.capacity || room == c.shape.max_seq_len
            &&& room > required ==> room <= 2 * c.shape.capacity
            &&& c.holding(required).shape == (CacheShape { capacity: room as usize, ..c.shape })
        },
        c.shape.capacity < required <= c.shape.max_seq_len && c.shape.dynamic && c.shape.opaque
            is None && (c.shape.max_seq_len * c.shape.kv_heads) * c.shape.row_bytes()->0
            <= usize::MAX && c.shape.max_seq_len * c.shape.kv_heads <= usize::MAX
            && c.shape.row_bytes()->0 <= usize::MAX ==> c.shape.can_hold(required),
{
    if c.shape.capacity < required <= c.shape.max_seq_len {
        let room = grown_capacity(c.shape, required);
        let h = c.shape.kv_heads as int;
        let w = c.shape.row_bytes()->0 as int;
        let m = c.shape.max_seq_len as int;
        assert(room * h <= m * h && (room * h) * w <= (m * h) * w) by (nonlinear_arith)
            requires
                0 <= room <= m,
                0 <= h,
                0 <= w,
        ;
        assert(c.shape.with_capacity(room as usize).row_bytes() == c.shape.row_bytes());
    }
}

/// The rows that growing adds are zero, and those there were stay where they are.
pub proof fn lemma_grown_rows_are_zero(c: CacheView, required: int, h: int, p: int)
    requires
        c.wf(),
        c.shape.capacity < required <= c.shape.max_seq_len,
        0 <= h < c.shape.kv_heads,
        0 <= p < c.holding(required).shape.capacity,
    ensures
        p < c.shape.capacity ==> c.holding(required).keys[h][p] == c.keys[h][p]
            && c.holding(required).values[h][p] == c.values[h][p],
        p >= c.shape.capacity ==> c.holding(required).keys[h][p] == Seq::new(
            c.shape.row_bytes()->0,
            |j: int| 0u8,
        ) && c.holding(required).values[h][p] == Seq::new(c.shape.row_bytes()->0, |j: int| 0u8),
        c.holding(required).current_pos == c.current_pos,
        c.holding(required).high_water_pos == c.high_water_pos,
        c.holding(required).starts == c.starts,
{
    assert(c.plane(Side::Key)[h].len() == c.shape.capacity);
    assert(c.plane(Side::Value)[h].len() == c.shape.capacity);
}

} // verus!
