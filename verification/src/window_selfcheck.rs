//! Holding a device's window pass against the host's.
//!
//! A check runs both on the same layers and counts where they part: columns that are far apart, heads
//! that put different positions first, and, for exported logits, rows whose first position moved
//! further than the two passes' own deviations explain. Numbers are bit patterns of single-precision
//! numbers; distances between them are the backend's to compute.

use crate::score_bits::{exceeds, not_a_number, spec_exceeds, spec_order};
use crate::text::{decimal, decimal_text};
use crate::window::Geom;
use crate::window_pass::{argmax, argmax_mismatches, greatest, head_scores, mismatches, rank_alike,
    spec_argmax};
use vstd::prelude::*;

verus! {

/// Distances between numbers, as the backend computes them.
pub trait DeviationMath {
    /// How far apart two numbers are.
    fn apart(&self, x: u32, y: u32) -> u32;

    /// A distance as a share of the number it is from, which counts as at least a millionth.
    fn relative(&self, distance: u32, from: u32) -> u32;

    /// The sum of two distances.
    fn sum(&self, a: u32, b: u32) -> u32;
}

/// How far apart two columns are.
#[derive(Clone, Copy, Debug, PartialEq, Eq, Structural)]
pub struct Deviation {
    pub abs: u32,
    pub rel: u32,
}

/// What the check found. Distances are bit patterns of single-precision numbers.
#[derive(Clone, Copy, Debug, PartialEq, Eq, Structural)]
pub struct WindowSelfcheck {
    /// The device ran the pass; otherwise the host was held against itself.
    pub gpu_ran: bool,
    pub max_abs: u32,
    pub max_rel: u32,
    /// Heads that put different positions first.
    pub argmax_mismatch: usize,
    /// Columns further apart than a thousandth.
    pub loose_cols: usize,
    /// The device exported logits.
    pub z_gpu_ran: bool,
    pub z_rows_compared: usize,
    /// Rows of logits that put different positions first.
    pub z_argmax_mismatch: usize,
    /// Those among them that the deviations do not explain.
    pub z_argmax_unexplained: usize,
    pub z_max_abs: u32,
    pub z_max_rel: u32,
}

/// Why nothing can be compared.
#[derive(Clone, Copy, Debug, PartialEq, Eq, Structural)]
pub enum SelfcheckFault {
    /// A layer has other columns on the device than on the host.
    LayerLength,
    /// The exported logits are not as many as the layers have.
    ExportLength { got: usize, expected: usize },
}

impl SelfcheckFault {
    /// The fault in words.
    pub open spec fn words(self) -> Seq<char> {
        match self {
            SelfcheckFault::LayerLength => "window selfcheck: layer length mismatch"@,
            SelfcheckFault::ExportLength { got, expected } =>
                "window selfcheck: the exported z is "@ + decimal(got as nat)
                + " elements, expected "@ + decimal(expected as nat),
        }
    }

    /// The fault in words.
    pub fn message(&self) -> (s: String)
        ensures
            s@ == self.words(),
    {
        match self {
            SelfcheckFault::LayerLength => "window selfcheck: layer length mismatch".to_owned(),
            SelfcheckFault::ExportLength { got, expected } => {
                let mut s: String = "window selfcheck: the exported z is ".to_owned();
                let digits: String = decimal_text(*got);
                s.append(digits.as_str());
                s.append(" elements, expected ");
                let digits: String = decimal_text(*expected);
                s.append(digits.as_str());
                s
            },
        }
    }
}

/// A column that is further off than a thousandth is loose.
pub const LOOSE: u32 = 0x3a83_126f;

/// The largest distances so far, and how many columns are loose.
#[derive(Clone, Copy, Debug, PartialEq, Eq, Structural)]
pub struct Tally {
    pub max_abs: u32,
    pub max_rel: u32,
    pub loose: usize,
}

impl Tally {
    /// Nothing compared.
    pub open spec fn spec_empty() -> Tally {
        Tally { max_abs: 0, max_rel: 0, loose: 0 }
    }

    /// One more column; a distance that is no number is passed over.
    pub open spec fn with(self, d: Deviation) -> Tally {
        Tally {
            max_abs: if spec_exceeds(d.abs, self.max_abs) {
                d.abs
            } else {
                self.max_abs
            },
            max_rel: if spec_exceeds(d.rel, self.max_rel) {
                d.rel
            } else {
                self.max_rel
            },
            loose: if spec_exceeds(d.rel, LOOSE) && self.loose < usize::MAX {
                (self.loose + 1) as usize
            } else {
                self.loose
            },
        }
    }

    /// Many more columns.
    pub open spec fn with_all(self, devs: Seq<Deviation>) -> Tally
        decreases devs.len(),
    {
        if devs.len() == 0 {
            self
        } else {
            self.with_all(devs.drop_last()).with(devs.last())
        }
    }

    /// The columns of many rows.
    pub open spec fn with_rows(self, rows: Seq<Seq<Deviation>>) -> Tally
        decreases rows.len(),
    {
        if rows.len() == 0 {
            self
        } else {
            self.with_rows(rows.drop_last()).with_all(rows.last())
        }
    }

    /// Takes columns in.
    fn take(&mut self, devs: &Vec<Deviation>)
        ensures
            *final(self) == old(self).with_all(devs@),
    {
        let ghost start = *self;
        let mut i: usize = 0;
        assert(devs@.take(0) =~= Seq::<Deviation>::empty());
        while i < devs.len()
            invariant
                i <= devs@.len(),
                *self == start.with_all(devs@.take(i as int)),
            decreases devs@.len() - i,
        {
            let d = devs[i];
            if exceeds(d.abs, self.max_abs) {
                self.max_abs = d.abs;
            }
            if exceeds(d.rel, self.max_rel) {
                self.max_rel = d.rel;
            }
            if exceeds(d.rel, LOOSE) && self.loose < usize::MAX {
                self.loose = self.loose + 1;
            }
            i = i + 1;
            assert(devs@.take(i as int).drop_last() =~= devs@.take(i - 1));
        }
        assert(devs@.take(i as int) =~= devs@);
    }
}

/// The distances that the backend computed between two rows.
pub open spec fn deviate<D: DeviationMath>(
    math: &D,
    a: Seq<u32>,
    b: Seq<u32>,
    devs: Seq<Deviation>,
) -> bool {
    &&& devs.len() == a.len()
    &&& forall|i: int|
        0 <= i < a.len() ==> {
            &&& call_ensures(D::apart, (math, a[i], b[i]), (#[trigger] devs[i]).abs)
            &&& call_ensures(D::relative, (math, devs[i].abs, a[i]), devs[i].rel)
        }
}

/// The distances between two rows.
fn deviations<D: DeviationMath>(math: &D, a: &Vec<u32>, b: &Vec<u32>) -> (devs: Vec<Deviation>)
    requires
        a@.len() == b@.len(),
    ensures
        deviate(math, a@, b@, devs@),
{
    let mut devs: Vec<Deviation> = Vec::with_capacity(a.len());
    let mut i: usize = 0;
    while i < a.len()
        invariant
            i <= a@.len() == b@.len(),
            devs@.len() == i,
            forall|k: int|
                0 <= k < i ==> {
                    &&& call_ensures(D::apart, (math, a@[k], b@[k]), (#[trigger] devs@[k]).abs)
                    &&& call_ensures(D::relative, (math, devs@[k].abs, a@[k]), devs@[k].rel)
                },
        decreases a@.len() - i,
    {
        let abs: u32 = math.apart(a[i], b[i]);
        let rel: u32 = math.relative(abs, a[i]);
        devs.push(Deviation { abs, rel });
        i = i + 1;
    }
    devs
}

/// The first position of each head of a layer under check: the heads of a ragged layer start ever
/// later, up to half of the frame.
pub fn check_starts(n_kv_heads: usize, current_pos: usize, ragged: bool) -> (starts: Vec<usize>)
    requires
        n_kv_heads * current_pos <= usize::MAX,
        2 * n_kv_heads <= usize::MAX,
    ensures
        starts@.len() == n_kv_heads,
        forall|h: int|
            0 <= h < n_kv_heads ==> #[trigger] starts@[h] == if ragged {
                (h * current_pos) / (2 * n_kv_heads)
            } else {
                0
            },
        forall|h: int| 0 <= h < n_kv_heads ==> 2 * #[trigger] starts@[h] <= current_pos,
{
    let mut starts: Vec<usize> = Vec::with_capacity(n_kv_heads);
    let mut h: usize = 0;
    while h < n_kv_heads
        invariant
            h <= n_kv_heads,
            n_kv_heads * current_pos <= usize::MAX,
            2 * n_kv_heads <= usize::MAX,
            starts@.len() == h,
            forall|x: int|
                0 <= x < h ==> #[trigger] starts@[x] == if ragged {
                    (x * current_pos) / (2 * n_kv_heads)
                } else {
                    0
                },
            forall|x: int| 0 <= x < h ==> 2 * #[trigger] starts@[x] <= current_pos,
        decreases n_kv_heads - h,
    {
        proof {
            let p = current_pos as int;
            let n = n_kv_heads as int;
            assert(0 <= h * p <= n * p && 2 * ((h * p) / (2 * n)) <= p) by (nonlinear_arith)
                requires
                    0 <= h < n,
                    0 <= p,
            ;
        }
        starts.push(
            if ragged {
                h * current_pos / (2 * n_kv_heads)
            } else {
                0
            },
        );
        h = h + 1;
    }
    starts
}

/// The layers of the one pass that the other has too.
pub open spec fn paired(host: Seq<Vec<u32>>, got: Seq<Vec<u32>>) -> Seq<Vec<u32>> {
    if host.len() <= got.len() {
        host
    } else {
        host.take(got.len() as int)
    }
}

/// Every layer that both passes have has the same columns in both.
pub open spec fn same_columns(host: Seq<Vec<u32>>, got: Seq<Vec<u32>>) -> bool {
    forall|l: int|
        0 <= l < host.len() && l < got.len() ==> (#[trigger] host[l])@.len() == got[l]@.len()
}

/// Heads of the layers that put different positions first.
pub open spec fn heads_apart(host: Seq<Vec<u32>>, got: Seq<Vec<u32>>, g: Geom) -> nat
    decreases host.len(),
{
    if host.len() == 0 {
        0
    } else {
        heads_apart(host.drop_last(), got, g) + mismatches(
            host.last()@,
            got[host.len() - 1]@,
            g.n_heads_q as nat,
            g.current_pos as nat,
        )
    }
}

/// The distances that the backend computed between the layers of two passes.
pub open spec fn layers_deviate<D: DeviationMath>(
    math: &D,
    host: Seq<Vec<u32>>,
    got: Seq<Vec<u32>>,
    devs: Seq<Seq<Deviation>>,
) -> bool {
    &&& devs.len() == host.len()
    &&& forall|l: int|
        0 <= l < host.len() ==> deviate(math, host[l]@, got[l]@, #[trigger] devs[l])
}

/// A count, or the machine's maximum when it does not fit.
pub open spec fn capped(n: nat) -> usize {
    if n <= usize::MAX {
        n as usize
    } else {
        usize::MAX
    }
}

/// Holds the layers that two passes have against each other: how far apart their columns are, and how many
/// heads put different positions first. Refused when a layer has other columns in the one than in the
/// other.
pub fn compare_layers<D: DeviationMath>(
    math: &D,
    host: &Vec<Vec<u32>>,
    got: &Vec<Vec<u32>>,
    g: &Geom,
) -> (r: Result<(Tally, usize), SelfcheckFault>)
    requires
        g.current_pos > 0,
        forall|l: int|
            0 <= l < paired(host@, got@).len() ==> g.n_heads_q * g.current_pos <= (
            #[trigger] host@[l])@.len(),
    ensures
        r is Err <==> !same_columns(host@, got@),
        r matches Err(e) ==> e == SelfcheckFault::LayerLength,
        r matches Ok((tally, apart)) ==> {
            &&& apart == capped(heads_apart(paired(host@, got@), got@, *g))
            &&& exists|devs: Seq<Seq<Deviation>>| #[trigger]
                layers_deviate(math, paired(host@, got@), got@, devs) && tally == Tally::spec_empty().with_rows(
                    devs,
                )
        },
{
    let mut tally = Tally { max_abs: 0, max_rel: 0, loose: 0 };
    let mut apart: usize = 0;
    let ghost mut devs: Seq<Seq<Deviation>> = Seq::empty();
    let n_layers: usize = if host.len() <= got.len() {
        host.len()
    } else {
        got.len()
    };
    let mut l: usize = 0;
    assert(host@.take(0) =~= Seq::<Vec<u32>>::empty());
    while l < n_layers
        invariant
            l <= n_layers <= host@.len(),
            n_layers <= got@.len(),
            n_layers == paired(host@, got@).len(),
            g.current_pos > 0,
            forall|x: int|
                0 <= x < n_layers ==> g.n_heads_q * g.current_pos <= (
                #[trigger] host@[x])@.len(),
            forall|x: int| 0 <= x < l ==> (#[trigger] host@[x])@.len() == got@[x]@.len(),
            apart == capped(heads_apart(host@.take(l as int), got@, *g)),
            devs.len() == l,
            forall|x: int|
                0 <= x < l ==> deviate(math, host@[x]@, got@[x]@, #[trigger] devs[x]),
            tally == Tally::spec_empty().with_rows(devs),
        decreases n_layers - l,
    {
        let a = &host[l];
        let b = &got[l];
        if a.len() != b.len() {
            assert(host@[l as int]@.len() != got@[l as int]@.len());
            return Err(SelfcheckFault::LayerLength);
        }
        let row = deviations(math, a, b);
        tally.take(&row);
        let counted = argmax_mismatches(a, b, g.n_heads_q, g.current_pos);
        let n: usize = match counted {
            Some(n) => n,
            None => 0,
        };
        assert(counted is Some);
        apart = apart.saturating_add(n);
        proof {
            let before = devs;
            devs = devs.push(row@);
            assert(devs.drop_last() =~= before);
            assert(host@.take(l + 1).drop_last() =~= host@.take(l as int));
        }
        l = l + 1;
    }
    assert(host@.take(l as int) =~= paired(host@, got@));
    assert(layers_deviate(math, paired(host@, got@), got@, devs));
    Ok((tally, apart))
}

/// A part of a layer's logits: one row's columns that the row sees.
#[derive(Clone, Copy, Debug, PartialEq, Eq, Structural)]
pub struct RowSpan {
    pub layer: usize,
    pub start: usize,
    pub end: usize,
}

/// A geometry whose rows can be compared.
pub open spec fn comparable(g: Geom, starts: Seq<Vec<usize>>) -> bool {
    &&& 0 < g.rows <= g.current_pos
    &&& g.n_kv_heads > 0
    &&& g.n_heads_q % g.n_kv_heads == 0
    &&& starts.len() == g.n_layers
    &&& forall|l: int| 0 <= l < starts.len() ==> (#[trigger] starts[l])@.len() == g.n_kv_heads
    &&& g.n_layers * logit_stride(g) <= usize::MAX
}

/// Logits of one layer.
pub open spec fn logit_stride(g: Geom) -> int {
    (g.n_heads_q * g.rows) * g.current_pos
}

/// The columns that row `t` of head `h` sees in a layer; `None` when it sees none. Logits lie head
/// after head, row after row.
pub open spec fn span_of(g: Geom, starts: Seq<Vec<usize>>, l: int, h: int, t: int) -> Option<RowSpan> {
    let first = starts[l]@[h / (g.n_heads_q / g.n_kv_heads) as int] as int;
    let end = g.spec_row_pos(t) + 1;
    let base = (h * g.rows + t) * g.current_pos;
    if end <= first {
        None
    } else {
        Some(
            RowSpan {
                layer: l as usize,
                start: (base + first) as usize,
                end: (base + end) as usize,
            },
        )
    }
}

/// The layer of row `i`, counted layer after layer, head after head.
pub open spec fn layer_of(g: Geom, i: int) -> int {
    (i / (g.rows as int)) / (g.n_heads_q as int)
}

/// The head of row `i`.
pub open spec fn head_of(g: Geom, i: int) -> int {
    (i / (g.rows as int)) % (g.n_heads_q as int)
}

/// The place of row `i` in its head.
pub open spec fn row_of(g: Geom, i: int) -> int {
    i % (g.rows as int)
}

/// The spans of the first `n` rows, layer after layer.
pub open spec fn spans(g: Geom, starts: Seq<Vec<usize>>, n: nat) -> Seq<RowSpan>
    decreases n,
{
    if n == 0 {
        Seq::empty()
    } else {
        let i = n - 1;
        let rest = spans(g, starts, i as nat);
        match span_of(g, starts, layer_of(g, i), head_of(g, i), row_of(g, i)) {
            Some(span) => rest.push(span),
            None => rest,
        }
    }
}

/// Rows of all layers.
pub open spec fn row_count(g: Geom) -> nat {
    (g.n_layers * (g.n_heads_q * g.rows)) as nat
}

/// Where row `i` is, and that its columns are inside a layer.
proof fn lemma_row_place(g: Geom, i: int)
    requires
        0 <= i < row_count(g),
        0 < g.rows <= g.current_pos,
    ensures
        g.n_heads_q > 0,
        0 <= layer_of(g, i) < g.n_layers,
        0 <= head_of(g, i) < g.n_heads_q,
        0 <= row_of(g, i) < g.rows,
        forall|h: int, t: int|
            0 <= h < g.n_heads_q && 0 <= t < g.rows ==> 0 <= #[trigger] ((h * g.rows + t)
                * g.current_pos) <= logit_stride(g) - g.current_pos,
        forall|h: int, t: int|
            0 <= h < g.n_heads_q && 0 <= t < g.rows ==> 0 <= #[trigger] (h * g.rows + t)
                < g.n_heads_q * g.rows,
{
    let r = g.rows as int;
    let n = g.n_heads_q as int;
    let l = g.n_layers as int;
    let p = g.current_pos as int;
    assert(n > 0) by (nonlinear_arith)
        requires
            0 <= i < l * (n * r),
            0 <= n,
    ;
    let q = i / r;
    assert(0 <= q < l * n && 0 <= i % r < r) by (nonlinear_arith)
        requires
            q == i / r,
            0 <= i < l * (n * r),
            r > 0,
    ;
    assert(0 <= q / n < l && 0 <= q % n < n) by (nonlinear_arith)
        requires
            0 <= q < l * n,
            n > 0,
    ;
    assert forall|h: int, t: int| 0 <= h < n && 0 <= t < r implies 0 <= #[trigger] (h * r + t) < n
        * r by {
        assert(0 <= h * r + t < n * r) by (nonlinear_arith)
            requires
                0 <= h < n,
                0 <= t < r,
        ;
    }
    assert forall|h: int, t: int| 0 <= h < n && 0 <= t < r implies 0 <= #[trigger] ((h * r + t)
        * p) <= (n * r) * p - p by {
        assert(0 <= h * r + t < n * r);
        let x = h * r + t;
        let y = n * r;
        assert(0 <= x * p <= y * p - p) by (nonlinear_arith)
            requires
                0 <= x < y,
                0 < p,
        ;
    }
}

/// A head's key head is one of the layer's.
proof fn lemma_kv_head(n_heads_q: int, n_kv_heads: int, h: int)
    requires
        0 < n_kv_heads,
        n_heads_q % n_kv_heads == 0,
        0 <= h < n_heads_q,
    ensures
        n_heads_q / n_kv_heads > 0,
        0 <= h / (n_heads_q / n_kv_heads) < n_kv_heads,
{
    let rep = n_heads_q / n_kv_heads;
    assert(n_heads_q == rep * n_kv_heads) by (nonlinear_arith)
        requires
            rep == n_heads_q / n_kv_heads,
            n_heads_q % n_kv_heads == 0,
            0 < n_kv_heads,
    ;
    assert(rep > 0) by (nonlinear_arith)
        requires
            n_heads_q == rep * n_kv_heads,
            0 < n_heads_q,
            0 < n_kv_heads,
    ;
    assert(0 <= h / rep < n_kv_heads) by (nonlinear_arith)
        requires
            0 <= h < rep * n_kv_heads,
            rep > 0,
    ;
}

/// The columns that each row of logits sees, layer after layer, head after head. Rows that see
/// nothing are left out.
pub fn compared_spans(g: &Geom, starts: &Vec<Vec<usize>>) -> (r: Vec<RowSpan>)
    requires
        comparable(*g, starts@),
    ensures
        r@ == spans(*g, starts@, row_count(*g)),
        forall|i: int|
            0 <= i < r@.len() ==> {
                &&& (#[trigger] r@[i]).layer < g.n_layers
                &&& r@[i].start < r@[i].end <= logit_stride(*g)
            },
{
    let mut r: Vec<RowSpan> = Vec::new();
    proof {
        let a = g.n_heads_q * g.rows;
        let p = g.current_pos as int;
        let l = g.n_layers as int;
        assert(l * a <= l * (a * p)) by (nonlinear_arith)
            requires
                0 <= l,
                0 <= a,
                1 <= p,
        ;
    }
    if g.n_layers == 0 || g.n_heads_q == 0 {
        proof {
            assert(row_count(*g) == 0) by (nonlinear_arith)
                requires
                    row_count(*g) == g.n_layers * (g.n_heads_q * g.rows),
                    g.n_layers == 0 || g.n_heads_q == 0,
            ;
        }
        return r;
    }
    proof {
        let a = g.n_heads_q * g.rows;
        let l = g.n_layers as int;
        assert(a <= l * a) by (nonlinear_arith)
            requires
                1 <= l,
                0 <= a,
        ;
    }
    let per_layer: usize = g.n_heads_q * g.rows;
    let total: usize = g.n_layers * per_layer;
    let group: usize = g.n_heads_q / g.n_kv_heads;
    let mut i: usize = 0;
    while i < total
        invariant
            i <= total,
            total == row_count(*g),
            comparable(*g, starts@),
            g.n_heads_q > 0,
            g.n_layers > 0,
            group == g.n_heads_q as int / g.n_kv_heads as int,
            r@ == spans(*g, starts@, i as nat),
            forall|k: int|
                0 <= k < r@.len() ==> {
                    &&& (#[trigger] r@[k]).layer < g.n_layers
                    &&& r@[k].start < r@[k].end <= logit_stride(*g)
                },
        decreases total - i,
    {
        proof {
            lemma_row_place(*g, i as int);
            lemma_kv_head(g.n_heads_q as int, g.n_kv_heads as int, head_of(*g, i as int));
        }
        let l: usize = (i / g.rows) / g.n_heads_q;
        let h: usize = (i / g.rows) % g.n_heads_q;
        let t: usize = i % g.rows;
        proof {
            let s = logit_stride(*g);
            let n = g.n_layers as int;
            assert(s <= n * s) by (nonlinear_arith)
                requires
                    1 <= n,
                    0 <= s,
            ;
            assert(0 <= h * g.rows + t < g.n_heads_q * g.rows);
            assert(0 <= (h * g.rows + t) * g.current_pos <= s - g.current_pos);
            let a = g.n_heads_q * g.rows;
            assert(a <= a * g.current_pos) by (nonlinear_arith)
                requires
                    0 <= a,
                    1 <= g.current_pos,
            ;
            assert(h * g.rows <= h * g.rows + t);
        }
        let first: usize = starts[l][h / group];
        let end: usize = g.row_pos(t) + 1;
        let base: usize = (h * g.rows + t) * g.current_pos;
        if end > first {
            r.push(RowSpan { layer: l, start: base + first, end: base + end });
        }
        i = i + 1;
    }
    r
}

/// What the comparison of one row of logits gave.
pub struct RowOutcome {
    pub devs: Seq<Deviation>,
    /// The rows put different positions first.
    pub flipped: bool,
    /// They do, and the deviations do not explain it.
    pub unexplained: bool,
}

/// How a flip was judged: the positions that each row puts first, how far apart the one row has them,
/// and how far the rows are from each other at the two.
pub open spec fn flip_judged<D: DeviationMath>(
    math: &D,
    a: Seq<u32>,
    b: Seq<u32>,
    ia: int,
    ib: int,
    gap: u32,
    dev: u32,
) -> bool {
    &&& greatest(a, ia)
    &&& greatest(b, ib)
    &&& call_ensures(D::apart, (math, a[ia], a[ib]), gap)
    &&& exists|da: u32, db: u32|
        {
            &&& call_ensures(D::apart, (math, a[ia], b[ia]), da)
            &&& call_ensures(D::apart, (math, a[ib], b[ib]), db)
            &&& #[trigger] call_ensures(D::sum, (math, da, db), dev)
        }
}

/// What the comparison of two rows of logits gave. A flip is explained when the rows' own deviations
/// at the two positions cover the gap between them.
pub open spec fn row_compared<D: DeviationMath>(
    math: &D,
    a: Seq<u32>,
    b: Seq<u32>,
    r: RowOutcome,
) -> bool {
    &&& deviate(math, a, b, r.devs)
    &&& r.flipped == !rank_alike(a, b)
    &&& !r.flipped ==> !r.unexplained
    &&& r.flipped ==> exists|ia: int, ib: int, gap: u32, dev: u32| #[trigger]
        flip_judged(math, a, b, ia, ib, gap, dev) && r.unexplained == spec_exceeds(gap, dev)
}

/// Compares two rows of logits: the distances of their columns, whether they put different positions
/// first, and whether that is unexplained.
pub fn compare_row<D: DeviationMath>(math: &D, a: &Vec<u32>, b: &Vec<u32>) -> (r: (
    Vec<Deviation>,
    bool,
    bool,
))
    requires
        0 < a@.len() == b@.len(),
    ensures
        row_compared(
            math,
            a@,
            b@,
            (RowOutcome { devs: r.0@, flipped: r.1, unexplained: r.2 }),
        ),
{
    let devs = deviations(math, a, b);
    assert(a@.subrange(0, a@.len() as int) =~= a@);
    assert(b@.subrange(0, b@.len() as int) =~= b@);
    let (ia, ib) = match (argmax(a, 0, a.len()), argmax(b, 0, b.len())) {
        (Some(i), Some(j)) => (i, j),
        _ => {
            assert(false);
            return (devs, false, false);
        },
    };
    proof {
        assert(greatest(a@, ia as int) && greatest(b@, ib as int));
        assert(rank_alike(a@, b@) == (ia == ib));
    }
    if ia == ib {
        return (devs, false, false);
    }
    let gap: u32 = math.apart(a[ia], a[ib]);
    let da: u32 = math.apart(a[ia], b[ia]);
    let db: u32 = math.apart(a[ib], b[ib]);
    let dev: u32 = math.sum(da, db);
    assert(call_ensures(D::sum, (math, da, db), dev));
    assert(flip_judged(math, a@, b@, ia as int, ib as int, gap, dev));
    (devs, true, exceeds(gap, dev))
}

/// A part of a list.
fn part(v: &Vec<u32>, start: usize, end: usize) -> (r: Vec<u32>)
    requires
        start <= end <= v@.len(),
    ensures
        r@ == v@.subrange(start as int, end as int),
{
    let mut r: Vec<u32> = Vec::with_capacity(end - start);
    let mut i: usize = start;
    while i < end
        invariant
            start <= i <= end <= v@.len(),
            r@ == v@.subrange(start as int, i as int),
        decreases end - i,
    {
        r.push(v[i]);
        i = i + 1;
        assert(r@ =~= v@.subrange(start as int, i as int));
    }
    r
}

/// The columns of a span in the host's logits.
pub open spec fn host_columns(z: Seq<Vec<u32>>, span: RowSpan) -> Seq<u32> {
    z[span.layer as int]@.subrange(span.start as int, span.end as int)
}

/// The columns of a span in the export, where the layers lie one after the other.
pub open spec fn device_columns(z: Seq<u32>, g: Geom, span: RowSpan) -> Seq<u32> {
    let at = span.layer * logit_stride(g);
    z.subrange(at + span.start, at + span.end)
}

/// Every span was compared.
pub open spec fn rows_compared<D: DeviationMath>(
    math: &D,
    z_ref: Seq<Vec<u32>>,
    exported: Seq<u32>,
    g: Geom,
    list: Seq<RowSpan>,
    rows: Seq<RowOutcome>,
) -> bool {
    &&& rows.len() == list.len()
    &&& forall|i: int|
        0 <= i < list.len() ==> row_compared(
            math,
            host_columns(z_ref, list[i]),
            device_columns(exported, g, list[i]),
            #[trigger] rows[i],
        )
}

/// The columns of compared rows.
pub open spec fn columns_of(rows: Seq<RowOutcome>) -> Seq<Seq<Deviation>> {
    Seq::new(rows.len(), |i: int| rows[i].devs)
}

/// Rows that put different positions first.
pub open spec fn flips(rows: Seq<RowOutcome>) -> nat
    decreases rows.len(),
{
    if rows.len() == 0 {
        0
    } else {
        flips(rows.drop_last()) + if rows.last().flipped {
            1nat
        } else {
            0nat
        }
    }
}

/// Rows whose first position moved without an explanation.
pub open spec fn unexplained_flips(rows: Seq<RowOutcome>) -> nat
    decreases rows.len(),
{
    if rows.len() == 0 {
        0
    } else {
        unexplained_flips(rows.drop_last()) + if rows.last().unexplained {
            1nat
        } else {
            0nat
        }
    }
}

/// What the comparison of exported logits found.
#[derive(Clone, Copy, Debug, PartialEq, Eq, Structural)]
pub struct RowReport {
    pub tally: Tally,
    pub rows: usize,
    pub flipped: usize,
    pub unexplained: usize,
}

/// The report over compared rows.
pub open spec fn reported(rows: Seq<RowOutcome>, r: RowReport) -> bool {
    &&& r.tally == Tally::spec_empty().with_rows(columns_of(rows))
    &&& r.rows == rows.len()
    &&& r.flipped == flips(rows)
    &&& r.unexplained == unexplained_flips(rows)
}

/// Holds exported logits against the host's, row by row, where the rows see something. Refused when
/// the export is not as long as the layers' logits are.
pub fn compare_export<D: DeviationMath>(
    math: &D,
    z_ref: &Vec<Vec<u32>>,
    exported: &Vec<u32>,
    g: &Geom,
    starts: &Vec<Vec<usize>>,
) -> (r: Result<RowReport, SelfcheckFault>)
    requires
        comparable(*g, starts@),
        z_ref@.len() == g.n_layers,
        forall|l: int|
            0 <= l < z_ref@.len() ==> (#[trigger] z_ref@[l])@.len() == logit_stride(*g),
    ensures
        r is Err <==> exported@.len() != g.n_layers * logit_stride(*g),
        r matches Err(e) ==> e == (SelfcheckFault::ExportLength {
            got: exported@.len() as usize,
            expected: (g.n_layers * logit_stride(*g)) as usize,
        }),
        r matches Ok(report) ==> exists|rows: Seq<RowOutcome>| #[trigger]
            rows_compared(
                math,
                z_ref@,
                exported@,
                *g,
                spans(*g, starts@, row_count(*g)),
                rows,
            ) && reported(rows, report),
{
    assert(exported@.len() == exported.len());
    if g.n_layers == 0 {
        proof {
            assert(g.n_layers * logit_stride(*g) == 0) by (nonlinear_arith)
                requires
                    g.n_layers == 0,
            ;
            assert(row_count(*g) == 0) by (nonlinear_arith)
                requires
                    row_count(*g) == g.n_layers * (g.n_heads_q * g.rows),
                    g.n_layers == 0,
            ;
        }
        if exported.len() != 0 {
            return Err(SelfcheckFault::ExportLength { got: exported.len(), expected: 0 });
        }
        let report = RowReport {
            tally: Tally { max_abs: 0, max_rel: 0, loose: 0 },
            rows: 0,
            flipped: 0,
            unexplained: 0,
        };
        proof {
            let none = Seq::<RowOutcome>::empty();
            assert(columns_of(none) =~= Seq::empty());
            assert(rows_compared(
                math,
                z_ref@,
                exported@,
                *g,
                spans(*g, starts@, row_count(*g)),
                none,
            ));
            assert(reported(none, report));
        }
        return Ok(report);
    }
    proof {
        let s = logit_stride(*g);
        let n = g.n_layers as int;
        let a = g.n_heads_q * g.rows;
        assert(0 <= a && a <= s && s <= n * s) by (nonlinear_arith)
            requires
                1 <= n,
                s == a * g.current_pos,
                1 <= g.current_pos,
                a == g.n_heads_q * g.rows,
        ;
    }
    let stride: usize = g.n_heads_q * g.rows * g.current_pos;
    let expected: usize = g.n_layers * stride;
    if exported.len() != expected {
        return Err(SelfcheckFault::ExportLength { got: exported.len(), expected });
    }
    let list = compared_spans(g, starts);
    let mut report = RowReport {
        tally: Tally { max_abs: 0, max_rel: 0, loose: 0 },
        rows: 0,
        flipped: 0,
        unexplained: 0,
    };
    let ghost mut rows: Seq<RowOutcome> = Seq::empty();
    assert(columns_of(rows) =~= Seq::empty());
    let mut i: usize = 0;
    while i < list.len()
        invariant
            i <= list@.len(),
            list@ == spans(*g, starts@, row_count(*g)),
            forall|k: int|
                0 <= k < list@.len() ==> {
                    &&& (#[trigger] list@[k]).layer < g.n_layers
                    &&& list@[k].start < list@[k].end <= logit_stride(*g)
                },
            z_ref@.len() == g.n_layers,
            forall|l: int|
                0 <= l < z_ref@.len() ==> (#[trigger] z_ref@[l])@.len() == logit_stride(*g),
            stride == logit_stride(*g),
            exported@.len() == g.n_layers * stride,
            exported@.len() == exported.len(),
            rows.len() == i,
            report.rows == i,
            report.flipped <= i,
            report.unexplained <= i,
            reported(rows, report),
            forall|k: int|
                0 <= k < i ==> row_compared(
                    math,
                    host_columns(z_ref@, list@[k]),
                    device_columns(exported@, *g, list@[k]),
                    #[trigger] rows[k],
                ),
        decreases list@.len() - i,
    {
        let span = list[i];
        proof {
            let l = span.layer as int;
            let n = g.n_layers as int;
            let s = stride as int;
            assert(0 <= l * s && l * s + s <= n * s) by (nonlinear_arith)
                requires
                    0 <= l < n,
                    0 <= s,
            ;
        }
        let at: usize = span.layer * stride;
        let a = part(&z_ref[span.layer], span.start, span.end);
        let b = part(exported, at + span.start, at + span.end);
        let (devs, flipped, unexplained) = compare_row(math, &a, &b);
        let ghost before = rows;
        proof {
            rows = rows.push(RowOutcome { devs: devs@, flipped, unexplained });
            assert(rows.drop_last() =~= before);
            assert(columns_of(rows).drop_last() =~= columns_of(before));
            assert(columns_of(rows).last() == devs@);
        }
        report.tally.take(&devs);
        report.rows = report.rows + 1;
        if flipped {
            report.flipped = report.flipped + 1;
        }
        if unexplained {
            report.unexplained = report.unexplained + 1;
        }
        i = i + 1;
    }
    assert(rows_compared(math, z_ref@, exported@, *g, list@, rows));
    Ok(report)
}

/// What a device's pass came back with.
pub struct DeviceResult {
    /// How much the window attends to each position, layer by layer.
    pub scores: Vec<Vec<u32>>,
    /// The logits of the metric's rows, layer after layer, where they were exported.
    pub logits: Option<Vec<u32>>,
}

/// What the layers' comparison and the rows' comparison found, as one report.
pub open spec fn report_of(
    gpu_ran: bool,
    tally: Tally,
    apart: usize,
    rows: Option<RowReport>,
) -> WindowSelfcheck {
    WindowSelfcheck {
        gpu_ran,
        max_abs: tally.max_abs,
        max_rel: tally.max_rel,
        argmax_mismatch: apart,
        loose_cols: tally.loose,
        z_gpu_ran: rows is Some,
        z_rows_compared: match rows {
            Some(r) => r.rows,
            None => 0,
        },
        z_argmax_mismatch: match rows {
            Some(r) => r.flipped,
            None => 0,
        },
        z_argmax_unexplained: match rows {
            Some(r) => r.unexplained,
            None => 0,
        },
        z_max_abs: match rows {
            Some(r) => r.tally.max_abs,
            None => 0,
        },
        z_max_rel: match rows {
            Some(r) => r.tally.max_rel,
            None => 0,
        },
    }
}

/// The host's layers were held against `got`, and the exported logits, if any, against `z_ref`.
pub open spec fn checked<D: DeviationMath>(
    math: &D,
    host: Seq<Vec<u32>>,
    got: Seq<Vec<u32>>,
    z_ref: Seq<Vec<u32>>,
    exported: Option<Vec<u32>>,
    g: Geom,
    starts: Seq<Vec<usize>>,
    gpu_ran: bool,
    out: WindowSelfcheck,
) -> bool {
    exists|devs: Seq<Seq<Deviation>>, tally: Tally, apart: usize, rows: Option<RowReport>|
        {
            &&& #[trigger] layers_deviate(math, paired(host, got), got, devs)
            &&& tally == Tally::spec_empty().with_rows(devs)
            &&& apart == capped(heads_apart(paired(host, got), got, g))
            &&& match (exported, rows) {
                (Some(z), Some(r)) => exists|list: Seq<RowOutcome>| #[trigger]
                    rows_compared(math, z_ref, z@, g, spans(g, starts, row_count(g)), list)
                        && reported(list, r),
                (None, None) => true,
                _ => false,
            }
            &&& out == #[trigger] report_of(gpu_ran, tally, apart, rows)
        }
}

/// Holds a device's window pass against the host's. Where the device did not run, the host is held
/// against itself and the report says so. Fails when a layer has other columns on the device, or the
/// export is not as long as the layers' logits are.
pub fn window_attention_selfcheck<D: DeviationMath>(
    math: &D,
    host: &Vec<Vec<u32>>,
    device: &Option<DeviceResult>,
    z_ref: &Vec<Vec<u32>>,
    g: &Geom,
    starts: &Vec<Vec<usize>>,
) -> (r: Result<WindowSelfcheck, SelfcheckFault>)
    requires
        comparable(*g, starts@),
        forall|l: int|
            0 <= l < host@.len() ==> g.n_heads_q * g.current_pos <= (#[trigger] host@[l])@.len(),
        z_ref@.len() == g.n_layers,
        forall|l: int|
            0 <= l < z_ref@.len() ==> (#[trigger] z_ref@[l])@.len() == logit_stride(*g),
    ensures
        r == Err::<WindowSelfcheck, SelfcheckFault>(SelfcheckFault::LayerLength) <==> (
        device matches Some(d) && !same_columns(host@, d.scores@)),
        (r matches Err(SelfcheckFault::ExportLength { .. })) <==> (device matches Some(d)
            && same_columns(host@, d.scores@) && (d.logits matches Some(z) && z@.len()
            != g.n_layers * logit_stride(*g))),
        r matches Err(SelfcheckFault::ExportLength { got, expected }) ==> {
            &&& device matches Some(d)
            &&& d.logits matches Some(z)
            &&& got == z@.len()
            &&& expected == g.n_layers * logit_stride(*g)
        },
        r matches Ok(out) ==> match device {
            Some(d) => checked(
                math,
                host@,
                d.scores@,
                z_ref@,
                d.logits,
                *g,
                starts@,
                true,
                out,
            ),
            None => checked(math, host@, host@, z_ref@, None, *g, starts@, false, out),
        },
{
    let (got, logits): (&Vec<Vec<u32>>, Option<&Vec<u32>>) = match device {
        Some(d) => (
            &d.scores,
            match &d.logits {
                Some(z) => Some(z),
                None => None,
            },
        ),
        None => (host, None),
    };
    let gpu_ran: bool = device.is_some();
    let (tally, apart) = match compare_layers(math, host, got, g) {
        Ok(found) => found,
        Err(e) => {
            return Err(e);
        },
    };
    let rows: Option<RowReport> = match logits {
        Some(z) => match compare_export(math, z_ref, z, g, starts) {
            Ok(report) => Some(report),
            Err(e) => {
                proof {
                    let stride = logit_stride(*g);
                    assert(z@.len() == z.len());
                    assert(0 <= g.n_layers * stride) by (nonlinear_arith)
                        requires
                            stride == (g.n_heads_q * g.rows) * g.current_pos,
                    ;
                }
                return Err(e);
            },
        },
        None => None,
    };
    let none = RowReport {
        tally: Tally { max_abs: 0, max_rel: 0, loose: 0 },
        rows: 0,
        flipped: 0,
        unexplained: 0,
    };
    let z = match rows {
        Some(report) => report,
        None => none,
    };
    let out = WindowSelfcheck {
        gpu_ran,
        max_abs: tally.max_abs,
        max_rel: tally.max_rel,
        argmax_mismatch: apart,
        loose_cols: tally.loose,
        z_gpu_ran: rows.is_some(),
        z_rows_compared: z.rows,
        z_argmax_mismatch: z.flipped,
        z_argmax_unexplained: z.unexplained,
        z_max_abs: z.tally.max_abs,
        z_max_rel: z.tally.max_rel,
    };
    proof {
        assert(out == report_of(gpu_ran, tally, apart, rows));
    }
    Ok(out)
}

/// A layer held against itself has no head whose first position differs.
proof fn lemma_layer_agrees_with_itself(v: Seq<u32>, heads: nat, width: nat)
    requires
        width > 0,
        heads * width <= v.len(),
    ensures
        mismatches(v, v, heads, width) == 0,
    decreases heads,
{
    if heads > 0 {
        let h = heads - 1;
        assert(h * width + width == heads * width && 0 <= h * width) by (nonlinear_arith)
            requires
                h == heads - 1,
                0 <= h,
        ;
        assert((h + 1) * width == heads * width);
        lemma_layer_agrees_with_itself(v, h as nat, width);
        let row = head_scores(v, h, width);
        assert(greatest(row, spec_argmax(row)));
    }
}

/// A pass held against itself agrees on every head's first position: a report of a check that no
/// device ran counts no head.
pub proof fn lemma_host_agrees_with_itself(host: Seq<Vec<u32>>, got: Seq<Vec<u32>>, g: Geom)
    requires
        g.current_pos > 0,
        host.len() <= got.len(),
        host == got.take(host.len() as int),
        forall|l: int|
            0 <= l < host.len() ==> g.n_heads_q * g.current_pos <= (#[trigger] host[l])@.len(),
    ensures
        heads_apart(host, got, g) == 0,
    decreases host.len(),
{
    if host.len() > 0 {
        let rest = host.drop_last();
        assert(rest =~= got.take(rest.len() as int));
        assert forall|l: int| 0 <= l < rest.len() implies g.n_heads_q * g.current_pos <= (
        #[trigger] rest[l])@.len() by {
            assert(rest[l] == host[l]);
        }
        lemma_host_agrees_with_itself(rest, got, g);
        assert(host.last() == got[host.len() - 1]);
        assert(g.n_heads_q * g.current_pos <= host[host.len() - 1]@.len());
        lemma_layer_agrees_with_itself(
            host.last()@,
            g.n_heads_q as nat,
            g.current_pos as nat,
        );
    }
}

/// Where the heads of a layer under check start: at the front, or, in a ragged layer, each at the whole
/// part of its share of half the frame; so a later head never starts earlier.
pub proof fn lemma_check_starts(n_kv_heads: usize, current_pos: usize, ragged: bool, starts: Vec<usize>, h: int, k: int)
    requires
        n_kv_heads * current_pos <= usize::MAX,
        2 * n_kv_heads <= usize::MAX,
        call_ensures(check_starts, (n_kv_heads, current_pos, ragged), starts),
        0 <= h <= k < n_kv_heads,
    ensures
        starts@.len() == n_kv_heads,
        !ragged ==> starts@[h] == 0,
        ragged ==> starts@[h] * (2 * n_kv_heads) <= h * current_pos < (starts@[h] + 1) * (2
            * n_kv_heads),
        starts@[h] <= starts@[k],
{
    let n = 2 * n_kv_heads;
    let p = current_pos as int;
    let a = h * p;
    let b = k * p;
    assert(0 <= a <= b) by (nonlinear_arith)
        requires
            a == h * p,
            b == k * p,
            0 <= h <= k,
            0 <= p,
    ;
    assert(starts@[h] == if ragged {
        a / n
    } else {
        0
    });
    assert(starts@[k] == if ragged {
        b / n
    } else {
        0
    });
    vstd::arithmetic::div_mod::lemma_fundamental_div_mod(a, n);
    vstd::arithmetic::div_mod::lemma_mod_bound(a, n);
    vstd::arithmetic::div_mod::lemma_div_is_ordered(a, b, n);
    let q = a / n;
    assert(q * n <= a < (q + 1) * n) by (nonlinear_arith)
        requires
            a == n * q + a % n,
            0 <= a % n < n,
    ;
}

/// The columns that a row of logits is compared in: from the first position of the head's group up to the
/// row's own, at the row's place among its layer's logits.
pub proof fn lemma_columns_of_a_row(g: Geom, starts: Seq<Vec<usize>>, l: int, group: int, k: int, t: int)
    requires
        comparable(g, starts),
        0 <= l < g.n_layers,
        0 <= group < g.n_kv_heads,
        0 <= k,
        k * g.n_kv_heads < g.n_heads_q,
        0 <= t < g.rows,
    ensures
        ({
            let h = group * (g.n_heads_q / g.n_kv_heads) + k;
            let first = starts[l]@[group] as int;
            let own = g.current_pos - g.rows + t;
            let row = (h * g.rows + t) * g.current_pos;
            &&& span_of(g, starts, l, h, t) is None <==> own < first
            &&& span_of(g, starts, l, h, t) matches Some(span) ==> {
                &&& span.layer == l
                &&& span.start == row + first
                &&& span.end == row + own + 1
                &&& span.end <= (g.n_heads_q * g.rows) * g.current_pos
            }
        }),
{
    let rep = (g.n_heads_q / g.n_kv_heads) as int;
    let n = g.n_kv_heads as int;
    vstd::arithmetic::div_mod::lemma_fundamental_div_mod(g.n_heads_q as int, n);
    assert(k < rep) by (nonlinear_arith)
        requires
            k * n < g.n_heads_q,
            g.n_heads_q == n * rep,
            n > 0,
    ;
    let h = group * rep + k;
    assert(rep * group + k == h) by (nonlinear_arith)
        requires
            h == group * rep + k,
    ;
    vstd::arithmetic::div_mod::lemma_fundamental_div_mod_converse(h, rep, group, k);
    assert(0 <= h < g.n_heads_q) by (nonlinear_arith)
        requires
            h == group * rep + k,
            g.n_heads_q == n * rep,
            0 <= group,
            group + 1 <= n,
            0 <= k < rep,
    ;
    let r = g.rows as int;
    let p = g.current_pos as int;
    let base = (h * r + t) * p;
    assert(0 <= base && base + p <= (g.n_heads_q * r) * p) by (nonlinear_arith)
        requires
            base == (h * r + t) * p,
            0 <= h,
            h + 1 <= g.n_heads_q,
            0 <= t,
            t + 1 <= r,
            0 <= p,
    ;
    let stride = logit_stride(g);
    assert(stride <= g.n_layers * stride) by (nonlinear_arith)
        requires
            1 <= g.n_layers,
            0 <= stride,
    ;
}

/// The order in which rows are compared: layer after layer, head after head and row after row, each that
/// sees something once.
pub proof fn lemma_rows_are_compared_in_order(g: Geom, starts: Seq<Vec<usize>>, l: int, h: int, t: int)
    requires
        comparable(g, starts),
        0 <= l < g.n_layers,
        0 <= h < g.n_heads_q,
        0 <= t < g.rows,
    ensures
        spans(g, starts, 0) == Seq::<RowSpan>::empty(),
        ({
            let i = (l * g.n_heads_q + h) * g.rows + t;
            let before = spans(g, starts, i as nat);
            let after = spans(g, starts, (i + 1) as nat);
            &&& 0 <= i < row_count(g)
            &&& match span_of(g, starts, l, h, t) {
                Some(span) => after == before.push(span),
                None => after == before,
            }
        }),
{
    let r = g.rows as int;
    let n = g.n_heads_q as int;
    let j = l * n + h;
    let i = j * r + t;
    assert(0 <= j) by (nonlinear_arith)
        requires
            j == l * n + h,
            0 <= l,
            0 <= n,
            0 <= h,
    ;
    assert(0 <= i < g.n_layers * (n * r)) by (nonlinear_arith)
        requires
            i == j * r + t,
            j == l * n + h,
            0 <= l,
            l + 1 <= g.n_layers,
            0 <= h,
            h + 1 <= n,
            0 <= t,
            t + 1 <= r,
    ;
    assert(i == r * j + t) by (nonlinear_arith)
        requires
            i == j * r + t,
    ;
    assert(j == n * l + h) by (nonlinear_arith)
        requires
            j == l * n + h,
    ;
    vstd::arithmetic::div_mod::lemma_fundamental_div_mod_converse(i, r, j, t);
    vstd::arithmetic::div_mod::lemma_fundamental_div_mod_converse(j, n, l, h);
}

/// Where the columns of a span are read: in the host's logits of the layer, and in the export behind the
/// logits of the layers before.
pub proof fn lemma_columns_are_read_at_the_span(
    z_ref: Seq<Vec<u32>>,
    exported: Seq<u32>,
    g: Geom,
    span: RowSpan,
    i: int,
)
    requires
        span.layer < z_ref.len(),
        span.start <= span.end <= z_ref[span.layer as int]@.len(),
        span.end <= g.n_heads_q * g.rows * g.current_pos,
        z_ref.len() * (g.n_heads_q * g.rows * g.current_pos) <= exported.len(),
        0 <= i < span.end - span.start,
    ensures
        host_columns(z_ref, span).len() == span.end - span.start,
        device_columns(exported, g, span).len() == span.end - span.start,
        host_columns(z_ref, span)[i] == z_ref[span.layer as int]@[span.start + i],
        device_columns(exported, g, span)[i] == exported[span.layer * (g.n_heads_q * g.rows
            * g.current_pos) + span.start + i],
{
    let stride = g.n_heads_q * g.rows * g.current_pos;
    assert((span.layer + 1) * stride <= z_ref.len() * stride && (span.layer + 1) * stride
        == span.layer * stride + stride && 0 <= span.layer * stride) by (nonlinear_arith)
        requires
            span.layer + 1 <= z_ref.len(),
            0 <= stride,
    ;
}

/// One column more: the largest distances are never below what they were nor below the column's, and are
/// one of the two; a column is loose exactly when it is further off than a thousandth. What is no number
/// changes nothing.
pub proof fn lemma_tally_of_one_more(tally: Tally, devs: Seq<Deviation>, d: Deviation)
    ensures
        tally.with_all(Seq::empty()) == tally,
        tally.with_all(devs.push(d)) == tally.with_all(devs).with(d),
        ({
            let r = tally.with(d);
            &&& r.max_abs == tally.max_abs || r.max_abs == d.abs
            &&& r.max_rel == tally.max_rel || r.max_rel == d.rel
            &&& tally.max_abs <= 0x7f80_0000 && d.abs <= 0x7f80_0000 ==> r.max_abs >= tally.max_abs
                && r.max_abs >= d.abs
            &&& tally.max_rel <= 0x7f80_0000 && d.rel <= 0x7f80_0000 ==> r.max_rel >= tally.max_rel
                && r.max_rel >= d.rel
            &&& 0x7f80_0000 < d.abs < 0x8000_0000 || d.abs > 0xff80_0000 ==> r.max_abs
                == tally.max_abs
            &&& 0x7f80_0000 < d.rel < 0x8000_0000 || d.rel > 0xff80_0000 ==> r.max_rel
                == tally.max_rel && r.loose == tally.loose
            &&& tally.loose < usize::MAX && 0x3a83_126f < d.rel <= 0x7f80_0000 ==> r.loose
                == tally.loose + 1
            &&& d.rel <= 0x3a83_126f || 0x8000_0000 <= d.rel <= 0xff80_0000 ==> r.loose
                == tally.loose
        }),
{
    assert(devs.push(d).drop_last() =~= devs);
}

/// One row more: its columns are taken in behind those of the rows before it.
pub proof fn lemma_tally_of_one_more_row(tally: Tally, rows: Seq<Seq<Deviation>>, row: Seq<Deviation>)
    ensures
        tally.with_rows(Seq::empty()) == tally,
        tally.with_rows(rows.push(row)) == tally.with_rows(rows).with_all(row),
        Tally::spec_empty().max_abs == 0,
        Tally::spec_empty().max_rel == 0,
        Tally::spec_empty().loose == 0,
{
    assert(rows.push(row).drop_last() =~= rows);
}

/// Which distances a row's comparison reports: of every column the distance of the two numbers, and that
/// distance as a share of the first row's.
pub proof fn lemma_distances_are_the_columns<D: DeviationMath>(
    math: &D,
    a: Seq<u32>,
    b: Seq<u32>,
    r: RowOutcome,
    i: int,
)
    requires
        a.len() > 0,
        a.len() == b.len(),
        row_compared(math, a, b, r),
        0 <= i < a.len(),
    ensures
        r.devs.len() == a.len(),
        call_ensures(D::apart, (math, a[i], b[i]), r.devs[i].abs),
        call_ensures(D::relative, (math, r.devs[i].abs, a[i]), r.devs[i].rel),
        r.flipped <==> spec_argmax(a) != spec_argmax(b),
        r.unexplained ==> r.flipped,
{
    assert(greatest(a, spec_argmax(a)));
    assert(greatest(b, spec_argmax(b)));
    let d = r.devs[i];
    assert(call_ensures(D::apart, (math, a[i], b[i]), d.abs));
    if spec_argmax(a) == spec_argmax(b) {
        assert(rank_alike(a, b));
    }
}

/// When a flip is unexplained: where the first row has the two first positions further apart than the
/// rows are from each other at the two together.
pub proof fn lemma_when_a_flip_is_unexplained<D: DeviationMath>(
    math: &D,
    a: Seq<u32>,
    b: Seq<u32>,
    r: RowOutcome,
)
    requires
        a.len() > 0,
        a.len() == b.len(),
        row_compared(math, a, b, r),
        spec_argmax(a) != spec_argmax(b),
    ensures
        exists|gap: u32, da: u32, db: u32, dev: u32|
            {
                &&& call_ensures(D::apart, (math, a[spec_argmax(a)], b[spec_argmax(a)]), da)
                &&& call_ensures(D::apart, (math, a[spec_argmax(b)], b[spec_argmax(b)]), db)
                &&& #[trigger] call_ensures(
                    D::apart,
                    (math, a[spec_argmax(a)], a[spec_argmax(b)]),
                    gap,
                )
                &&& #[trigger] call_ensures(D::sum, (math, da, db), dev)
                &&& r.unexplained <==> !not_a_number(gap) && !not_a_number(dev) && spec_order(gap)
                    > spec_order(dev)
            },
{
    assert(!rank_alike(a, b));
    let (ia, ib, gap, dev) = choose|ia: int, ib: int, gap: u32, dev: u32| #[trigger]
        flip_judged(math, a, b, ia, ib, gap, dev) && r.unexplained == spec_exceeds(gap, dev);
    assert(flip_judged(math, a, b, ia, ib, gap, dev));
    let (da, db) = choose|da: u32, db: u32|
        {
            &&& call_ensures(D::apart, (math, a[ia], b[ia]), da)
            &&& call_ensures(D::apart, (math, a[ib], b[ib]), db)
            &&& #[trigger] call_ensures(D::sum, (math, da, db), dev)
        };
    assert(ia == spec_argmax(a) && ib == spec_argmax(b));
    assert(call_ensures(D::apart, (math, a[spec_argmax(a)], a[spec_argmax(b)]), gap));
    assert(call_ensures(D::sum, (math, da, db), dev));
}

/// One row more in the counts: of flips where it flipped, of unexplained ones where it is that too.
pub proof fn lemma_flips_of_one_more(rows: Seq<RowOutcome>, row: RowOutcome)
    ensures
        flips(Seq::empty()) == 0,
        unexplained_flips(Seq::empty()) == 0,
        row.flipped ==> flips(rows.push(row)) == flips(rows) + 1,
        !row.flipped ==> flips(rows.push(row)) == flips(rows),
        row.unexplained ==> unexplained_flips(rows.push(row)) == unexplained_flips(rows) + 1,
        !row.unexplained ==> unexplained_flips(rows.push(row)) == unexplained_flips(rows),
{
    assert(rows.push(row).drop_last() =~= rows);
}

/// One layer more in the count of heads that put different positions first; a layer that only the one
/// pass has is left out, and a count that does not fit stands at the machine's maximum.
pub proof fn lemma_heads_apart_of_one_more(host: Seq<Vec<u32>>, layer: Vec<u32>, got: Seq<Vec<u32>>, g: Geom, n: nat)
    ensures
        heads_apart(Seq::empty(), got, g) == 0,
        heads_apart(host.push(layer), got, g) == heads_apart(host, got, g) + mismatches(
            layer@,
            got[host.len() as int]@,
            g.n_heads_q as nat,
            g.current_pos as nat,
        ),
        paired(host, got).len() <= host.len(),
        paired(host, got).len() <= got.len(),
        paired(host, got).len() == host.len() || paired(host, got).len() == got.len(),
        forall|l: int| 0 <= l < paired(host, got).len() ==> #[trigger] paired(host, got)[l] == host[l],
        n <= usize::MAX ==> capped(n) == n,
        n > usize::MAX ==> capped(n) == usize::MAX,
{
    assert(host.push(layer).drop_last() =~= host);
}

/// What a report says, entry by entry: the layers' distances and heads, and the rows' beside them; without
/// exported logits those of the rows are nothing.
pub proof fn lemma_report_entries(gpu_ran: bool, tally: Tally, apart: usize, rows: Option<RowReport>)
    ensures
        ({
            let out = report_of(gpu_ran, tally, apart, rows);
            &&& out.gpu_ran == gpu_ran
            &&& out.max_abs == tally.max_abs
            &&& out.max_rel == tally.max_rel
            &&& out.loose_cols == tally.loose
            &&& out.argmax_mismatch == apart
            &&& out.z_gpu_ran == rows is Some
            &&& rows matches Some(r) ==> {
                &&& out.z_rows_compared == r.rows
                &&& out.z_argmax_mismatch == r.flipped
                &&& out.z_argmax_unexplained == r.unexplained
                &&& out.z_max_abs == r.tally.max_abs
                &&& out.z_max_rel == r.tally.max_rel
            }
            &&& rows is None ==> {
                &&& out.z_rows_compared == 0
                &&& out.z_argmax_mismatch == 0
                &&& out.z_argmax_unexplained == 0
                &&& out.z_max_abs == 0
                &&& out.z_max_rel == 0
            }
        }),
{
}

/// When a check refuses a device's scores: where some layer that both have has another number of columns
/// on the device. Without a device nothing is refused.
pub proof fn lemma_when_columns_are_refused<D: DeviationMath>(
    math: &D,
    host: Vec<Vec<u32>>,
    device: Option<DeviceResult>,
    z_ref: Vec<Vec<u32>>,
    g: Geom,
    starts: Vec<Vec<usize>>,
    r: Result<WindowSelfcheck, SelfcheckFault>,
    l: int,
)
    requires
        comparable(g, starts@),
        call_ensures(
            window_attention_selfcheck::<D>,
            (math, &host, &device, &z_ref, &g, &starts),
            r,
        ),
    ensures
        device is None ==> r is Ok && !r->Ok_0.gpu_ran && !r->Ok_0.z_gpu_ran,
        (device matches Some(d) && 0 <= l < host@.len() && l < d.scores@.len() && host@[l]@.len()
            != d.scores@[l]@.len()) ==> r == Err::<WindowSelfcheck, SelfcheckFault>(
            SelfcheckFault::LayerLength,
        ),
        r is Ok && device is Some ==> r->Ok_0.gpu_ran && (r->Ok_0.z_gpu_ran
            <==> device->0.logits is Some),
{
    if let Some(d) = device {
        if 0 <= l < host@.len() && l < d.scores@.len() && host@[l]@.len() != d.scores@[l]@.len() {
            assert(!same_columns(host@, d.scores@));
        }
    }
}

} // verus!
