//! The observation window: the last queries of a session, and what they attend to.
//!
//! Numbers are bit patterns of single-precision numbers. The arithmetic on them is the
//! [`Metric`]'s; which rows it is given, and which of its answers count, is decided here.

use crate::codec::RowCodec;
use crate::eviction::all_wf;
use crate::keep_sets::run;
use crate::kv_cache::{KVCache, KvError, Side};
use crate::rows::RowBuffer;
use crate::selective_read::{gather_failed, gather_refusal, gather_selected_kv, in_single_precision,
    row_widened, side_gathered};
use vstd::prelude::*;

verus! {

/// The sizes of one decision.
#[derive(Clone, Copy, Debug, PartialEq, Eq)]
pub struct Geom {
    pub n_layers: usize,
    pub n_heads_q: usize,
    pub n_kv_heads: usize,
    pub head_dim: usize,
    pub current_pos: usize,
    /// Query rows, the last of them at the last position.
    pub rows: usize,
}

impl Geom {
    /// The position of a query row.
    pub open spec fn spec_row_pos(self, t: int) -> int {
        self.current_pos - self.rows + t
    }

    /// The position of a query row.
    pub fn row_pos(&self, t: usize) -> (p: usize)
        requires
            self.rows <= self.current_pos,
            t < self.rows,
        ensures
            p == self.spec_row_pos(t as int),
    {
        self.current_pos - self.rows + t
    }

    /// The positions that a query row sees in a head: those at or before its own, from the head's
    /// first on.
    pub open spec fn sees(self, t: int, head_start: usize, p: int) -> bool {
        head_start <= p <= self.spec_row_pos(t) && 0 <= p < self.current_pos
    }

    /// The range of positions that a query row sees in a head; `None` when it sees none.
    pub fn visible(&self, t: usize, head_start: usize) -> (r: Option<(usize, usize)>)
        requires
            self.rows <= self.current_pos,
            t < self.rows,
        ensures
            match r {
                None => forall|p: int| !#[trigger] self.sees(t as int, head_start, p),
                Some((start, end)) => start < end && forall|p: int| #[trigger]
                    self.sees(t as int, head_start, p) <==> start <= p < end,
            },
    {
        let start: usize = if head_start < self.current_pos {
            head_start
        } else {
            self.current_pos
        };
        let end: usize = self.row_pos(t) + 1;
        if end <= start {
            None
        } else {
            Some((start, end))
        }
    }
}

/// The queries that a session captured: the rows of its last positions.
pub struct QRowCapture {
    /// Each layer's rows, head after head, the earliest first.
    pub queries: Vec<Vec<u32>>,
    /// How many positions the rows are of.
    pub rows: usize,
    /// Positions that went past the capture.
    pub clock: usize,
    /// By how much the capture's positions are ahead of the cache's.
    pub drift: usize,
}

impl QRowCapture {
    /// A capture of rows that ended at a position.
    pub fn new(queries: Vec<Vec<u32>>, rows: usize, clock: usize) -> (r: Self)
        ensures
            r.queries == queries,
            r.rows == rows,
            r.clock == clock,
            r.drift == 0,
    {
        QRowCapture { queries, rows, clock, drift: 0 }
    }

    /// The rows are those of the last positions of a cache this long.
    pub open spec fn spec_covers(self, resident: usize) -> bool {
        resident + self.drift == self.clock
    }

    /// Whether the rows are those of the last positions of a cache this long.
    pub fn covers(&self, resident: usize) -> (r: bool)
        ensures
            r == self.spec_covers(resident),
    {
        match resident.checked_add(self.drift) {
            Some(n) => n == self.clock,
            None => false,
        }
    }

    /// The capture of a cache that was renumbered and is now this long.
    pub open spec fn renumbered(self, resident: usize) -> QRowCapture {
        QRowCapture {
            drift: if resident <= self.clock {
                (self.clock - resident) as usize
            } else {
                0
            },
            ..self
        }
    }

    /// Notes that the cache was renumbered, and how long it now is.
    pub fn renumbered_to(&mut self, resident: usize)
        ensures
            *final(self) == old(self).renumbered(resident),
            resident <= old(self).clock ==> final(self).spec_covers(resident),
    {
        self.drift = self.clock.saturating_sub(resident);
    }
}

/// The last `rows` of each head's `all_rows` rows, for `n` heads.
pub open spec fn tails(all: Seq<u32>, n: nat, all_rows: nat, rows: nat, head_dim: nat) -> Seq<u32>
    decreases n,
{
    if n == 0 {
        Seq::empty()
    } else {
        let h = (n - 1) as nat;
        let base = (h * all_rows + (all_rows - rows)) * head_dim;
        tails(all, h, all_rows, rows, head_dim) + all.subrange(base, base + rows * head_dim)
    }
}

/// How many heads there are rows of.
pub open spec fn heads_in(len: nat, all_rows: nat, head_dim: nat) -> nat {
    if all_rows * head_dim == 0 {
        len
    } else {
        len / (all_rows * head_dim)
    }
}

/// The last rows of every head; all of them when there are no more.
pub open spec fn spec_trailing(all: Seq<u32>, all_rows: usize, rows: usize, head_dim: usize) -> Seq<
    u32,
> {
    if rows >= all_rows {
        all
    } else {
        tails(
            all,
            heads_in(all.len(), all_rows as nat, head_dim as nat),
            all_rows as nat,
            rows as nat,
            head_dim as nat,
        )
    }
}

/// A copy.
fn copied(v: &Vec<u32>) -> (r: Vec<u32>)
    ensures
        r@ == v@,
{
    let r = v.clone();
    assert(r@ =~= v@);
    r
}

/// The last `rows` of each head's `all_rows` rows.
pub fn trailing_rows(all: &Vec<u32>, all_rows: usize, rows: usize, head_dim: usize) -> (out: Vec<
    u32,
>)
    ensures
        out@ == spec_trailing(all@, all_rows, rows, head_dim),
{
    if rows >= all_rows {
        return copied(all);
    }
    let mut out: Vec<u32> = Vec::new();
    let per_head: usize = match all_rows.checked_mul(head_dim) {
        Some(n) => n,
        None => {
            proof {
                assert(all@.len() == all.len());
                assert(all@.len() / (all_rows * head_dim) as nat == 0) by (nonlinear_arith)
                    requires
                        all@.len() < all_rows * head_dim,
                ;
            }
            return out;
        },
    };
    if per_head == 0 {
        proof {
            assert(head_dim == 0) by (nonlinear_arith)
                requires
                    all_rows * head_dim == 0,
                    all_rows > 0,
            ;
            lemma_no_columns(all@, all@.len(), all_rows as nat, rows as nat);
        }
        return out;
    }
    let n: usize = all.len() / per_head;
    proof {
        assert(n * per_head <= all@.len()) by (nonlinear_arith)
            requires
                n == all@.len() as int / per_head as int,
                per_head > 0,
        ;
        assert(rows * head_dim <= per_head && (all_rows - rows) * head_dim + rows * head_dim
            == per_head) by (nonlinear_arith)
            requires
                per_head == all_rows * head_dim,
                rows < all_rows,
        ;
    }
    let width: usize = rows * head_dim;
    let mut h: usize = 0;
    while h < n
        invariant
            h <= n,
            n * per_head <= all@.len(),
            all@.len() == all.len(),
            per_head == all_rows * head_dim,
            width == rows * head_dim,
            width <= per_head,
            rows < all_rows,
            (all_rows - rows) * head_dim + width == per_head,
            out@ == tails(all@, h as nat, all_rows as nat, rows as nat, head_dim as nat),
        decreases n - h,
    {
        let ghost before = out@;
        proof {
            assert((h + 1) * per_head <= n * per_head) by (nonlinear_arith)
                requires
                    h + 1 <= n,
                    0 <= per_head,
            ;
            assert((h * all_rows + (all_rows - rows)) * head_dim == h * per_head + (per_head
                - width)) by (nonlinear_arith)
                requires
                    per_head == all_rows * head_dim,
                    (all_rows - rows) * head_dim + width == per_head,
            ;
            assert((h + 1) * per_head == h * per_head + per_head) by (nonlinear_arith);
            assert(0 <= h * per_head) by (nonlinear_arith)
                requires
                    0 <= h,
                    0 <= per_head,
            ;
        }
        let base: usize = h * per_head + (per_head - width);
        let mut i: usize = 0;
        while i < width
            invariant
                i <= width,
                base + width <= all@.len(),
                all@.len() == all.len(),
                out@ == before + all@.subrange(base as int, base + i),
            decreases width - i,
        {
            out.push(all[base + i]);
            i = i + 1;
            assert(out@ =~= before + all@.subrange(base as int, base + i));
        }
        h = h + 1;
    }
    out
}

/// Rows without columns hold nothing.
proof fn lemma_no_columns(all: Seq<u32>, n: nat, all_rows: nat, rows: nat)
    requires
        n <= all.len(),
    ensures
        tails(all, n, all_rows, rows, 0) == Seq::<u32>::empty(),
    decreases n,
{
    if n > 0 {
        let h = (n - 1) as nat;
        lemma_no_columns(all, h, all_rows, rows);
        let base = (h * all_rows + (all_rows - rows)) * 0;
        assert(base == 0 && rows * 0 == 0) by (nonlinear_arith)
            requires
                base == (h * all_rows + (all_rows - rows)) * 0,
        ;
        assert(all.subrange(base, base + rows * 0) =~= Seq::<u32>::empty());
    }
}

/// Where the rows of a decision could not be read.
#[derive(Debug, PartialEq, Eq)]
pub enum ReadFault {
    /// A layer's queries were not captured.
    NotCaptured { layer: usize },
    /// A layer is on a device, and there is no copy of it.
    NotMirrored { layer: usize },
    /// A layer's rows are not those of the others.
    Geometry { layer: usize },
    /// A layer's rows could not be read.
    Rows { layer: usize, error: KvError },
}

/// What one decision reads of the layers.
pub struct HostLayers {
    /// The rows that are measured: the last `rows` of every head.
    pub q: Vec<Vec<u32>>,
    /// Each layer's keys in single precision, head after head.
    pub k: Vec<RowBuffer>,
    /// Each layer's values in single precision, head after head.
    pub v: Vec<RowBuffer>,
    pub rows: usize,
    /// Every captured row.
    pub window_q: Vec<Vec<u32>>,
    pub window_rows: usize,
    /// Where each head of each layer starts.
    pub starts: Vec<Vec<usize>>,
    /// What a device computed of the measured rows against every position, layer after layer.
    pub logits: Option<Vec<u32>>,
    pub logit_stride: usize,
}

/// How many rows are measured.
pub open spec fn spec_measured(captured: usize, metric_rows: usize) -> usize {
    let n = if captured < metric_rows {
        captured
    } else {
        metric_rows
    };
    if n == 0 {
        1
    } else {
        n
    }
}

/// How many rows are measured: no more than were captured or asked for, and at least one.
pub fn measured(captured: usize, metric_rows: usize) -> (n: usize)
    ensures
        n == spec_measured(captured, metric_rows),
{
    let n: usize = if captured < metric_rows {
        captured
    } else {
        metric_rows
    };
    if n == 0 {
        1
    } else {
        n
    }
}

/// The copy of a layer that is read: the layer itself unless it is on a device.
pub open spec fn source_of(caches: Seq<KVCache>, mirrors: Option<&Vec<KVCache>>, l: int) -> Option<
    KVCache,
> {
    if !caches[l]@.shape.on_device {
        Some(caches[l])
    } else {
        match mirrors {
            Some(m) => if l < m@.len() {
                Some(m@[l])
            } else {
                None
            },
            None => None,
        }
    }
}

/// One layer was read.
pub open spec fn layer_read<C: RowCodec>(
    codec: &C,
    caches: Seq<KVCache>,
    mirrors: Option<&Vec<KVCache>>,
    capture: QRowCapture,
    g: Geom,
    src: HostLayers,
    l: int,
) -> bool {
    &&& source_of(caches, mirrors, l) is Some
    &&& side_gathered(
        codec,
        source_of(caches, mirrors, l)->0@,
        Side::Key,
        run(0, g.current_pos),
        src.k@[l]@,
    )
    &&& side_gathered(
        codec,
        source_of(caches, mirrors, l)->0@,
        Side::Value,
        run(0, g.current_pos),
        src.v@[l]@,
    )
    &&& src.k@[l].wf()
    &&& src.v@[l].wf()
    &&& src.window_q@[l]@ == capture.queries@[l]@
    &&& src.q@[l]@ == spec_trailing(capture.queries@[l]@, capture.rows, g.rows, g.head_dim)
    &&& src.starts@[l]@ == caches[l]@.starts
}

/// The layers were read.
pub open spec fn layers_read<C: RowCodec>(
    codec: &C,
    caches: Seq<KVCache>,
    mirrors: Option<&Vec<KVCache>>,
    capture: QRowCapture,
    g: Geom,
    src: HostLayers,
) -> bool {
    &&& src.rows == g.rows
    &&& src.window_rows == capture.rows
    &&& src.logits is None
    &&& src.logit_stride == 0
    &&& src.q@.len() == caches.len()
    &&& src.k@.len() == caches.len()
    &&& src.v@.len() == caches.len()
    &&& src.window_q@.len() == caches.len()
    &&& src.starts@.len() == caches.len()
    &&& forall|l: int|
        0 <= l < caches.len() ==> #[trigger] layer_read(
            codec,
            caches,
            mirrors,
            capture,
            g,
            src,
            l,
        )
}

/// A layer's rows are of the decision's geometry.
pub open spec fn fits_geometry(c: KVCache, g: Geom) -> bool {
    c@.shape.kv_heads == g.n_kv_heads && c@.shape.head_dim == g.head_dim && c@.shape.capacity
        >= g.current_pos
}

/// A layer that is captured, has a copy to read, fits and is not refused.
pub open spec fn readable(
    caches: Seq<KVCache>,
    mirrors: Option<&Vec<KVCache>>,
    capture: QRowCapture,
    g: Geom,
    layer: int,
) -> bool {
    &&& layer < capture.queries@.len()
    &&& source_of(caches, mirrors, layer) matches Some(c) && fits_geometry(c, g) && gather_refusal(
        c@.shape,
        g.current_pos as nat,
    ) is None
}

impl ReadFault {
    /// The layer that could not be read.
    pub open spec fn spec_layer(self) -> usize {
        match self {
            ReadFault::NotCaptured { layer } => layer,
            ReadFault::NotMirrored { layer } => layer,
            ReadFault::Geometry { layer } => layer,
            ReadFault::Rows { layer, .. } => layer,
        }
    }
}

/// The fault of the first layer that cannot be read.
pub open spec fn first_fault<C: RowCodec>(
    codec: &C,
    caches: Seq<KVCache>,
    mirrors: Option<&Vec<KVCache>>,
    capture: QRowCapture,
    g: Geom,
    fault: ReadFault,
) -> bool {
    &&& unreadable(codec, caches, mirrors, capture, g, fault)
    &&& forall|l: int|
        0 <= l < fault.spec_layer() ==> #[trigger] readable(caches, mirrors, capture, g, l)
}

/// A fault that a layer, its capture or its rows in the coder have.
pub open spec fn unreadable<C: RowCodec>(
    codec: &C,
    caches: Seq<KVCache>,
    mirrors: Option<&Vec<KVCache>>,
    capture: QRowCapture,
    g: Geom,
    fault: ReadFault,
) -> bool {
    match fault {
        ReadFault::NotCaptured { layer } => layer < caches.len() && layer
            >= capture.queries@.len(),
        ReadFault::NotMirrored { layer } => layer < caches.len() && source_of(
            caches,
            mirrors,
            layer as int,
        ) is None,
        ReadFault::Geometry { layer } => layer < caches.len() && (source_of(
            caches,
            mirrors,
            layer as int,
        ) matches Some(c) && !fits_geometry(c, g)),
        ReadFault::Rows { layer, error } => layer < caches.len() && (source_of(
            caches,
            mirrors,
            layer as int,
        ) matches Some(c) && fits_geometry(c, g) && gather_failed(
            codec,
            c@,
            run(0, g.current_pos),
            error,
        )),
    }
}

/// The positions of a cache.
fn positions(n: usize) -> (r: Vec<usize>)
    ensures
        r@ == run(0, n),
{
    let mut r: Vec<usize> = Vec::new();
    let mut i: usize = 0;
    while i < n
        invariant
            i <= n,
            r@.len() == i,
            forall|k: int| 0 <= k < i ==> #[trigger] r@[k] == k,
        decreases n - i,
    {
        r.push(i);
        i = i + 1;
    }
    assert(r@ =~= run(0, n));
    r
}

/// The keys and values of one layer in single precision, head after head.
pub fn read_layer_kv<C: RowCodec>(source: &KVCache, g: &Geom, layer: usize, codec: &C) -> (r: Result<
    (RowBuffer, RowBuffer),
    ReadFault,
>)
    requires
        source.wf(),
    ensures
        !fits_geometry(*source, *g) ==> r == Err::<(RowBuffer, RowBuffer), ReadFault>(
            ReadFault::Geometry { layer },
        ),
        fits_geometry(*source, *g) && gather_refusal(source@.shape, g.current_pos as nat) is Some
            ==> r is Err,
        r matches Ok(kv) ==> {
            &&& kv.0.wf()
            &&& kv.1.wf()
            &&& side_gathered(codec, source@, Side::Key, run(0, g.current_pos), kv.0@)
            &&& side_gathered(codec, source@, Side::Value, run(0, g.current_pos), kv.1@)
        },
        r matches Err(e) ==> match e {
            ReadFault::Geometry { layer: l } => l == layer && !fits_geometry(*source, *g),
            ReadFault::Rows { layer: l, error } => l == layer && fits_geometry(*source, *g)
                && gather_failed(codec, source@, run(0, g.current_pos), error),
            _ => false,
        },
{
    if source.kv_heads() != g.n_kv_heads || source.head_dim() != g.head_dim || source.capacity()
        < g.current_pos {
        return Err(ReadFault::Geometry { layer });
    }
    let select: Vec<usize> = positions(g.current_pos);
    match gather_selected_kv(source, codec, &select) {
        Ok(kv) => Ok(kv),
        Err(error) => Err(ReadFault::Rows { layer, error }),
    }
}

/// What was read, with a device's logits where there are exactly as many as the decision is over.
pub open spec fn logits_accepted(src: HostLayers, z: Option<Vec<u32>>, g: Geom) -> HostLayers {
    let stride = g.n_heads_q * g.rows * g.current_pos;
    if stride > 0 && (z matches Some(v) && v@.len() == g.n_layers * stride) {
        HostLayers { logits: z, logit_stride: stride as usize, ..src }
    } else {
        src
    }
}

/// A product is no less than a product of some of its factors, unless it is nothing.
proof fn lemma_too_many(a: nat, b: nat, c: nat, d: nat)
    requires
        d > 0,
    ensures
        a * b * c > 0 ==> a * b <= a * b * c && a * b * c <= d * (a * b * c),
{
    let ab = a * b;
    let abc = a * b * c;
    assert(abc > 0 ==> ab <= abc && abc <= d * abc) by (nonlinear_arith)
        requires
            abc == ab * c,
            d > 0,
    ;
}

impl HostLayers {
    /// Reads what a decision needs of the layers.
    pub fn read<C: RowCodec>(
        caches: &Vec<KVCache>,
        mirrors: Option<&Vec<KVCache>>,
        capture: &QRowCapture,
        g: &Geom,
        codec: &C,
    ) -> (r: Result<HostLayers, ReadFault>)
        requires
            all_wf(caches@),
            mirrors matches Some(m) ==> all_wf(m@),
        ensures
            r matches Ok(src) ==> layers_read(codec, caches@, mirrors, *capture, *g, src),
            r matches Err(e) ==> first_fault(codec, caches@, mirrors, *capture, *g, e),
    {
        let ghost all = caches@;
        let mut src = HostLayers {
            q: Vec::new(),
            k: Vec::new(),
            v: Vec::new(),
            rows: g.rows,
            window_q: Vec::new(),
            window_rows: capture.rows,
            starts: Vec::new(),
            logits: None,
            logit_stride: 0,
        };
        let mut l: usize = 0;
        while l < caches.len()
            invariant
                l <= caches@.len(),
                all == caches@,
                all_wf(all),
                mirrors matches Some(m) ==> all_wf(m@),
                src.rows == g.rows,
                src.window_rows == capture.rows,
                src.logits is None,
                src.logit_stride == 0,
                src.q@.len() == l,
                src.k@.len() == l,
                src.v@.len() == l,
                src.window_q@.len() == l,
                src.starts@.len() == l,
                forall|x: int|
                    0 <= x < l ==> #[trigger] layer_read(
                        codec,
                        all,
                        mirrors,
                        *capture,
                        *g,
                        src,
                        x,
                    ),
                forall|x: int| 0 <= x < l ==> #[trigger] readable(all, mirrors, *capture, *g, x),
            decreases caches@.len() - l,
        {
            if l >= capture.queries.len() {
                return Err(ReadFault::NotCaptured { layer: l });
            }
            let cache = &caches[l];
            let source: &KVCache = if !cache.on_device() {
                cache
            } else {
                match mirrors {
                    Some(m) => {
                        if l < m.len() {
                            &m[l]
                        } else {
                            return Err(ReadFault::NotMirrored { layer: l });
                        }
                    },
                    None => {
                        return Err(ReadFault::NotMirrored { layer: l });
                    },
                }
            };
            assert(source_of(all, mirrors, l as int) == Some(*source));
            assert(source.wf());
            let (k, v) = match read_layer_kv(source, g, l, codec) {
                Ok(kv) => kv,
                Err(e) => {
                    return Err(e);
                },
            };
            let ghost before = src;
            src.q.push(trailing_rows(&capture.queries[l], capture.rows, g.rows, g.head_dim));
            src.window_q.push(copied(&capture.queries[l]));
            src.k.push(k);
            src.v.push(v);
            src.starts.push(cache.head_starts());
            proof {
                assert forall|x: int| 0 <= x < l + 1 implies #[trigger] layer_read(
                    codec,
                    all,
                    mirrors,
                    *capture,
                    *g,
                    src,
                    x,
                ) by {
                    if x < l {
                        assert(layer_read(codec, all, mirrors, *capture, *g, before, x));
                        assert(src.k@[x] == before.k@[x]);
                        assert(src.v@[x] == before.v@[x]);
                        assert(src.q@[x] == before.q@[x]);
                        assert(src.window_q@[x] == before.window_q@[x]);
                        assert(src.starts@[x] == before.starts@[x]);
                    }
                }
            }
            l = l + 1;
        }
        Ok(src)
    }

    /// Where a head starts; a head that is not there starts at the first position.
    pub fn head_start(&self, layer: usize, kv_head: usize) -> (r: usize)
        requires
            layer < self.starts@.len(),
        ensures
            r == if kv_head < self.starts@[layer as int]@.len() {
                self.starts@[layer as int]@[kv_head as int]
            } else {
                0
            },
    {
        if kv_head < self.starts[layer].len() {
            self.starts[layer][kv_head]
        } else {
            0
        }
    }

    /// A layer's logits, if there are any.
    pub open spec fn spec_logits(self, layer: usize) -> Option<Seq<u32>> {
        match self.logits {
            Some(z) => if (layer + 1) * self.logit_stride <= z@.len() {
                Some(
                    z@.subrange(layer * self.logit_stride, (layer + 1) * self.logit_stride),
                )
            } else {
                None
            },
            None => None,
        }
    }

    /// A layer's logits, if there are any.
    pub fn layer_logits(&self, layer: usize) -> (r: Option<&[u32]>)
        ensures
            match r {
                Some(z) => self.spec_logits(layer) == Some(z@),
                None => self.spec_logits(layer) is None,
            },
    {
        let z = match &self.logits {
            Some(z) => z,
            None => {
                return None;
            },
        };
        let stride: usize = self.logit_stride;
        assert((layer + 1) * stride == layer * stride + stride) by (nonlinear_arith);
        assert(z@.len() == z.len());
        let start: usize = match layer.checked_mul(stride) {
            Some(n) => n,
            None => {
                return None;
            },
        };
        let end: usize = match start.checked_add(stride) {
            Some(n) => n,
            None => {
                return None;
            },
        };
        if end > z.len() {
            return None;
        }
        Some(vstd::slice::slice_subrange(z.as_slice(), start, end))
    }

    /// Takes a device's logits where there are exactly as many as the decision is over; else the
    /// metric computes them itself.
    pub fn accept_logits(&mut self, z: Option<Vec<u32>>, g: &Geom)
        requires
            g.n_layers > 0,
        ensures
            *final(self) == logits_accepted(*old(self), z, *g),
    {
        let v = match z {
            Some(v) => v,
            None => {
                return;
            },
        };
        proof {
            assert(v@.len() == v.len());
            lemma_too_many(g.n_heads_q as nat, g.rows as nat, g.current_pos as nat, g.n_layers as nat);
        }
        let per_head: usize = match g.n_heads_q.checked_mul(g.rows) {
            Some(n) => n,
            None => {
                return;
            },
        };
        let all: usize = match per_head.checked_mul(g.current_pos) {
            Some(n) => n,
            None => {
                return;
            },
        };
        if all == 0 {
            return;
        }
        match g.n_layers.checked_mul(all) {
            Some(n) => {
                if n == v.len() {
                    self.logits = Some(v);
                    self.logit_stride = all;
                }
            },
            None => {},
        }
    }
}

/// What a query row sees: the last row is at the last position and each row before it one earlier, and a
/// row sees from the head's first position up to its own.
pub proof fn lemma_row_sees_up_to_itself(g: Geom, t: int, head_start: usize, p: int)
    requires
        g.rows <= g.current_pos,
        0 <= t < g.rows,
    ensures
        g.spec_row_pos(t) + (g.rows - t) == g.current_pos,
        g.sees(t, head_start, p) <==> head_start <= p && p + g.rows <= g.current_pos + t,
{
}

/// When a capture is of a cache: a new one where as many positions went past it as the cache has, and
/// one of a cache that was renumbered where the cache still has the length it was noted with.
/// Renumbering touches nothing else.
pub proof fn lemma_when_a_capture_covers(capture: QRowCapture, noted: usize, resident: usize)
    ensures
        capture.drift == 0 ==> (capture.spec_covers(resident) <==> resident == capture.clock),
        noted <= capture.clock ==> (capture.renumbered(noted).spec_covers(resident) <==> resident
            == noted),
        noted > capture.clock ==> (capture.renumbered(noted).spec_covers(resident) <==> resident
            == capture.clock),
        capture.renumbered(noted).queries == capture.queries,
        capture.renumbered(noted).rows == capture.rows,
        capture.renumbered(noted).clock == capture.clock,
        capture.renumbered(noted).renumbered(resident) == capture.renumbered(resident),
{
}

/// The last rows of a head among those of all heads.
proof fn lemma_tail_entry(all: Seq<u32>, n: nat, all_rows: nat, rows: nat, head_dim: nat, h: nat, i: int)
    requires
        rows <= all_rows,
        n * (all_rows * head_dim) <= all.len(),
        h < n,
        0 <= i < rows * head_dim,
    ensures
        tails(all, n, all_rows, rows, head_dim).len() == n * (rows * head_dim),
        0 <= h * (rows * head_dim) + i < n * (rows * head_dim),
        tails(all, n, all_rows, rows, head_dim)[h * (rows * head_dim) + i] == all[(h * all_rows + (
        all_rows - rows)) * head_dim + i],
    decreases n,
{
    lemma_tails_len(all, n, all_rows, rows, head_dim);
    let last = (n - 1) as nat;
    let w = rows * head_dim;
    lemma_tail_place(all.len(), n, all_rows, rows, head_dim, last);
    lemma_tails_len(all, last, all_rows, rows, head_dim);
    assert(h * w + w <= n * w && 0 <= h * w) by (nonlinear_arith)
        requires
            h + 1 <= n,
    ;
    let base = (last * all_rows + (all_rows - rows)) * head_dim;
    let mine = all.subrange(base, base + w);
    let before = tails(all, last, all_rows, rows, head_dim);
    if h == last {
        assert((before + mine)[before.len() + i] == mine[i]);
    } else {
        lemma_tail_entry(all, last, all_rows, rows, head_dim, h, i);
        assert((before + mine)[h * w + i] == before[h * w + i]);
    }
}

/// Where the last rows of a head lie.
proof fn lemma_tail_place(len: nat, n: nat, all_rows: nat, rows: nat, head_dim: nat, h: nat)
    requires
        rows <= all_rows,
        n * (all_rows * head_dim) <= len,
        h < n,
    ensures
        0 <= (h * all_rows + (all_rows - rows)) * head_dim,
        (h * all_rows + (all_rows - rows)) * head_dim + rows * head_dim <= len,
        n * (all_rows * head_dim) == (n - 1) * (all_rows * head_dim) + all_rows * head_dim,
        0 <= all_rows * head_dim,
        n * (rows * head_dim) == (n - 1) * (rows * head_dim) + rows * head_dim,
{
    assert((h * all_rows + (all_rows - rows)) * head_dim + rows * head_dim == (h + 1) * (all_rows
        * head_dim)) by (nonlinear_arith);
    assert((h + 1) * (all_rows * head_dim) <= n * (all_rows * head_dim)) by (nonlinear_arith)
        requires
            h + 1 <= n,
            0 <= all_rows * head_dim,
    ;
    assert(0 <= (h * all_rows + (all_rows - rows)) * head_dim) by (nonlinear_arith)
        requires
            rows <= all_rows,
            0 <= h * all_rows,
    ;
    assert(n * (all_rows * head_dim) == (n - 1) * (all_rows * head_dim) + all_rows * head_dim)
        by (nonlinear_arith);
    assert(n * (rows * head_dim) == (n - 1) * (rows * head_dim) + rows * head_dim)
        by (nonlinear_arith);
}

proof fn lemma_tails_len(all: Seq<u32>, n: nat, all_rows: nat, rows: nat, head_dim: nat)
    requires
        rows <= all_rows,
        n * (all_rows * head_dim) <= all.len(),
    ensures
        tails(all, n, all_rows, rows, head_dim).len() == n * (rows * head_dim),
    decreases n,
{
    if n > 0 {
        lemma_tail_place(all.len(), n, all_rows, rows, head_dim, (n - 1) as nat);
        lemma_tails_len(all, (n - 1) as nat, all_rows, rows, head_dim);
    } else {
        assert(0 * (rows * head_dim) == 0) by (nonlinear_arith);
    }
}

/// The rows that are measured: of every head the last `rows` of its `all_rows`, in order. Element `d` of
/// measured row `t` is that of captured row `all_rows - rows + t`.
pub proof fn lemma_trailing_rows_are_the_last(
    all: Seq<u32>,
    heads: nat,
    all_rows: usize,
    rows: usize,
    head_dim: usize,
    h: nat,
    t: int,
    d: int,
)
    requires
        0 < rows <= all_rows,
        0 < head_dim,
        all.len() == heads * (all_rows * head_dim),
        h < heads,
        0 <= t < rows,
        0 <= d < head_dim,
    ensures
        spec_trailing(all, all_rows, rows, head_dim).len() == heads * (rows * head_dim),
        spec_trailing(all, all_rows, rows, head_dim)[(h * rows + t) * head_dim + d] == all[(h
            * all_rows + all_rows - rows + t) * head_dim + d],
{
    let per = (all_rows * head_dim) as nat;
    assert(per > 0) by (nonlinear_arith)
        requires
            per == all_rows * head_dim,
            all_rows > 0,
            head_dim > 0,
    ;
    vstd::arithmetic::div_mod::lemma_div_multiples_vanish(heads as int, per as int);
    assert(per * heads == heads * per) by (nonlinear_arith);
    if rows < all_rows {
        let i = t * head_dim + d;
        assert(0 <= i < rows * head_dim) by (nonlinear_arith)
            requires
                i == t * head_dim + d,
                0 <= t,
                t + 1 <= rows,
                0 <= d < head_dim,
        ;
        assert(heads_in(all.len(), all_rows as nat, head_dim as nat) == heads);
        lemma_tail_entry(all, heads, all_rows as nat, rows as nat, head_dim as nat, h, i);
        assert(h * (rows * head_dim) + (t * head_dim + d) == (h * rows + t) * head_dim + d)
            by (nonlinear_arith);
        assert((h * all_rows + (all_rows - rows)) * head_dim + (t * head_dim + d) == (h * all_rows
            + all_rows - rows + t) * head_dim + d) by (nonlinear_arith);
    }
}

/// How many rows are measured: never none, never more than were asked for unless that is none, and never
/// more than were captured unless that is none; and as many of them as that allows.
pub proof fn lemma_measured_rows(captured: usize, metric_rows: usize)
    ensures
        spec_measured(captured, metric_rows) >= 1,
        captured >= 1 ==> spec_measured(captured, metric_rows) <= captured,
        metric_rows >= 1 ==> spec_measured(captured, metric_rows) <= metric_rows,
        spec_measured(captured, metric_rows) == captured || spec_measured(captured, metric_rows)
            == metric_rows || (spec_measured(captured, metric_rows) == 1 && (captured == 0
            || metric_rows == 0)),
{
}

/// What a decision has read of a layer: every row of the frame at its place in single precision, keys as
/// keys and values as values, from the layer itself or, where it is on a device, from its copy; the
/// captured queries, the last of them for the metric, and where the layer's heads start.
pub proof fn lemma_what_is_read_of_a_layer<C: RowCodec>(
    codec: &C,
    caches: Seq<KVCache>,
    mirrors: Option<&Vec<KVCache>>,
    capture: QRowCapture,
    g: Geom,
    src: HostLayers,
    source: KVCache,
    l: int,
    h: int,
    p: int,
)
    requires
        layers_read(codec, caches, mirrors, capture, g, src),
        0 <= l < caches.len(),
        source == (if caches[l]@.shape.on_device {
            mirrors->0@[l]
        } else {
            caches[l]
        }),
        0 <= h < source@.shape.kv_heads,
        0 <= p < g.current_pos,
    ensures
        caches[l]@.shape.on_device ==> mirrors is Some && l < mirrors->0@.len(),
        in_single_precision(
            codec,
            source@,
            source@.keys[h][p],
            src.k@[l]@[h * g.current_pos + p],
        ),
        in_single_precision(
            codec,
            source@,
            source@.values[h][p],
            src.v@[l]@[h * g.current_pos + p],
        ),
        src.k@[l]@.len() == source@.shape.kv_heads * g.current_pos,
        src.v@[l]@.len() == source@.shape.kv_heads * g.current_pos,
        src.window_q@[l]@ == capture.queries@[l]@,
        src.starts@[l]@ == caches[l]@.starts,
        src.window_rows == capture.rows,
        src.rows == g.rows,
        src.logits is None,
{
    assert(layer_read(codec, caches, mirrors, capture, g, src, l));
    let all = run(0, g.current_pos);
    assert(all.len() == g.current_pos && all[p] == p);
    assert(row_widened(
        codec,
        source@,
        source@.plane(Side::Key)[h][all[p] as int],
        src.k@[l]@[h * all.len() + p],
    ));
    assert(row_widened(
        codec,
        source@,
        source@.plane(Side::Value)[h][all[p] as int],
        src.v@[l]@[h * all.len() + p],
    ));
}

/// When a layer cannot be read, by the fault that says so.
pub proof fn lemma_why_a_layer_is_not_read<C: RowCodec>(
    codec: &C,
    caches: Seq<KVCache>,
    mirrors: Option<&Vec<KVCache>>,
    capture: QRowCapture,
    g: Geom,
    fault: ReadFault,
)
    requires
        first_fault(codec, caches, mirrors, capture, g, fault),
    ensures
        fault matches ReadFault::NotCaptured { layer } ==> capture.queries@.len() <= layer
            < caches.len(),
        fault matches ReadFault::NotMirrored { layer } ==> layer < caches.len()
            && caches[layer as int]@.shape.on_device && (mirrors matches Some(m) ==> m@.len()
            <= layer),
        fault matches ReadFault::Geometry { layer } ==> {
            let c = if caches[layer as int]@.shape.on_device {
                mirrors->0@[layer as int]
            } else {
                caches[layer as int]
            };
            layer < caches.len() && (c@.shape.kv_heads != g.n_kv_heads || c@.shape.head_dim
                != g.head_dim || c@.shape.capacity < g.current_pos)
        },
        forall|l: int|
            0 <= l < fault.spec_layer() ==> l < capture.queries@.len() && ((
            #[trigger] caches[l])@.shape.on_device ==> mirrors is Some && l < mirrors->0@.len()),
        forall|l: int|
            0 <= l < fault.spec_layer() && !(#[trigger] caches[l])@.shape.on_device ==> {
                &&& caches[l]@.shape.kv_heads == g.n_kv_heads
                &&& caches[l]@.shape.head_dim == g.head_dim
                &&& caches[l]@.shape.capacity >= g.current_pos
            },
{
    assert forall|l: int| 0 <= l < fault.spec_layer() implies l < capture.queries@.len() && ((
    #[trigger] caches[l])@.shape.on_device ==> mirrors is Some && l < mirrors->0@.len()) by {
        assert(readable(caches, mirrors, capture, g, l));
    }
    assert forall|l: int|
        0 <= l < fault.spec_layer() && !(#[trigger] caches[l])@.shape.on_device implies {
        &&& caches[l]@.shape.kv_heads == g.n_kv_heads
        &&& caches[l]@.shape.head_dim == g.head_dim
        &&& caches[l]@.shape.capacity >= g.current_pos
    } by {
        assert(readable(caches, mirrors, capture, g, l));
    }
}

/// A device's logits, once taken: those of layer `l` start behind those of the layers before it, one for
/// every head, row and position. They are taken only where there are exactly as many.
pub proof fn lemma_logits_of_a_layer(src: HostLayers, z: Vec<u32>, g: Geom, l: usize, i: int)
    requires
        src.logits is None,
        l < g.n_layers,
        0 <= i < g.n_heads_q * g.rows * g.current_pos,
        g.n_heads_q * g.rows * g.current_pos <= usize::MAX,
    ensures
        ({
            let stride = g.n_heads_q * g.rows * g.current_pos;
            let taken = logits_accepted(src, Some(z), g);
            &&& taken.logits is Some <==> z@.len() == g.n_layers * stride
            &&& taken.logits is None ==> taken == src && taken.spec_logits(l) is None
            &&& taken.logits is Some ==> {
                &&& taken.spec_logits(l) matches Some(mine) && mine.len() == stride && mine[i]
                    == z@[l * stride + i]
            }
            &&& taken.q == src.q && taken.k == src.k && taken.v == src.v && taken.rows == src.rows
            &&& taken.window_q == src.window_q && taken.window_rows == src.window_rows
            &&& taken.starts == src.starts
            &&& logits_accepted(src, None, g) == src
        }),
{
    let stride = g.n_heads_q * g.rows * g.current_pos;
    assert((l + 1) * stride <= g.n_layers * stride && (l + 1) * stride == l * stride + stride && 0
        <= l * stride) by (nonlinear_arith)
        requires
            l + 1 <= g.n_layers,
            0 <= l,
            0 <= stride,
    ;
}

} // verus!
