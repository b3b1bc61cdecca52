//! Which positions each head of each layer retains.

use crate::text::{decimal, decimal_text};
use vstd::prelude::*;

verus! {

/// The positions that every head of every layer retains, ascending. Cells are filled layer by
/// layer, and head by head within a layer.
#[derive(Debug, PartialEq, Eq)]
pub struct KeepSets {
    n_layers: usize,
    n_kv_heads: usize,
    cells: Vec<Vec<usize>>,
}

/// What is wrong with retained positions.
#[derive(Clone, Copy, Debug, PartialEq, Eq, Structural)]
pub enum KeepError {
    /// A cell that is not the next to fill.
    OutOfOrder { layer: usize, kv_head: usize },
    /// Some cell was never filled.
    Incomplete { filled: usize },
    /// A position that does not follow the one before it.
    NotAscending { layer: usize, kv_head: usize, pos: usize },
    /// A position outside the frame.
    OutOfRange { layer: usize, kv_head: usize, pos: usize },
    /// A position below the head's first resident one.
    Hole { layer: usize, kv_head: usize, pos: usize, start: usize },
    /// Sets of other dimensions.
    Geometry,
}

impl KeepError {
    /// The fault in words.
    pub open spec fn words(self) -> Seq<char> {
        match self {
            KeepError::OutOfOrder { layer, kv_head } => "layer "@ + decimal(layer as nat) + ", KV head "@ + decimal(kv_head as nat) + ": not the next cell to fill"@,
            KeepError::Incomplete { filled } => "only "@ + decimal(filled as nat) + " cell(s) were filled"@,
            KeepError::NotAscending { layer, kv_head, pos } => "layer "@ + decimal(layer as nat) + ", KV head "@ + decimal(kv_head as nat) + ": position "@ + decimal(pos as nat) + " does not follow the one before it"@,
            KeepError::OutOfRange { layer, kv_head, pos } => "layer "@ + decimal(layer as nat) + ", KV head "@ + decimal(kv_head as nat) + ": position "@ + decimal(pos as nat) + " is outside the resident cache"@,
            KeepError::Hole { layer, kv_head, pos, start } => "layer "@ + decimal(layer as nat) + ", KV head "@ + decimal(kv_head as nat) + ": position "@ + decimal(pos as nat) + " is below the first resident position "@ + decimal(start as nat),
            KeepError::Geometry => "the sets have other dimensions"@,
        }
    }

    /// The fault in words.
    pub fn message(&self) -> (m: String)
        ensures
            m@ == self.words(),
    {
        match self {
            KeepError::OutOfOrder { layer, kv_head } => {
                let mut m: String = "layer ".to_owned();
                m.append(decimal_text(*layer).as_str());
                m.append(", KV head ");
                m.append(decimal_text(*kv_head).as_str());
                m.append(": not the next cell to fill");
                m
            },
            KeepError::Incomplete { filled } => {
                let mut m: String = "only ".to_owned();
                m.append(decimal_text(*filled).as_str());
                m.append(" cell(s) were filled");
                m
            },
            KeepError::NotAscending { layer, kv_head, pos } => {
                let mut m: String = "layer ".to_owned();
                m.append(decimal_text(*layer).as_str());
                m.append(", KV head ");
                m.append(decimal_text(*kv_head).as_str());
                m.append(": position ");
                m.append(decimal_text(*pos).as_str());
                m.append(" does not follow the one before it");
                m
            },
            KeepError::OutOfRange { layer, kv_head, pos } => {
                let mut m: String = "layer ".to_owned();
                m.append(decimal_text(*layer).as_str());
                m.append(", KV head ");
                m.append(decimal_text(*kv_head).as_str());
                m.append(": position ");
                m.append(decimal_text(*pos).as_str());
                m.append(" is outside the resident cache");
                m
            },
            KeepError::Hole { layer, kv_head, pos, start } => {
                let mut m: String = "layer ".to_owned();
                m.append(decimal_text(*layer).as_str());
                m.append(", KV head ");
                m.append(decimal_text(*kv_head).as_str());
                m.append(": position ");
                m.append(decimal_text(*pos).as_str());
                m.append(" is below the first resident position ");
                m.append(decimal_text(*start).as_str());
                m
            },
            KeepError::Geometry => "the sets have other dimensions".to_owned(),
        }
    }
}

/// Retained positions as contracts speak of them.
#[verifier::ext_equal]
pub struct KeepSetsView {
    pub n_layers: usize,
    pub n_kv_heads: usize,
    /// The filled cells, layer after layer.
    pub cells: Seq<Seq<usize>>,
}

impl View for KeepSets {
    type V = KeepSetsView;

    closed spec fn view(&self) -> KeepSetsView {
        KeepSetsView {
            n_layers: self.n_layers,
            n_kv_heads: self.n_kv_heads,
            cells: self.cells.deep_view(),
        }
    }
}

/// The integers of `[low, high)`, ascending.
pub open spec fn run(low: usize, high: usize) -> Seq<usize> {
    if low < high {
        Seq::new((high - low) as nat, |i: int| (low + i) as usize)
    } else {
        Seq::empty()
    }
}

/// Every position follows the one before it.
pub open spec fn ascending(list: Seq<usize>) -> bool {
    forall|i: int, j: int| 0 <= i < j < list.len() ==> #[trigger] list[i] < #[trigger] list[j]
}

/// The first position that is out of place does not follow the one before it.
pub open spec fn steps_back(list: Seq<usize>, frame: usize, pos: usize) -> bool {
    exists|k: int|
        0 < k < list.len() && pos == #[trigger] list[k] && list[k - 1] >= pos && ascending(
            list.take(k),
        ) && within(list.take(k), 0, frame)
}

/// The first position that is out of place is outside the frame.
pub open spec fn leaves(list: Seq<usize>, frame: usize, pos: usize) -> bool {
    exists|k: int|
        0 <= k < list.len() && pos == #[trigger] list[k] && pos >= frame && ascending(
            list.take(k + 1),
        ) && within(list.take(k), 0, frame)
}

/// The first position below `start`.
pub open spec fn first_below(list: Seq<usize>, start: usize, pos: usize) -> bool {
    exists|k: int|
        0 <= k < list.len() && pos == #[trigger] list[k] && pos < start && forall|j: int|
            0 <= j < k ==> #[trigger] list[j] >= start
}

/// Every position is in `[low, high)`.
pub open spec fn within(list: Seq<usize>, low: usize, high: usize) -> bool {
    forall|i: int| 0 <= i < list.len() ==> low <= #[trigger] list[i] < high
}

/// How many positions the cells hold; a count that does not fit stands at the machine's maximum.
pub open spec fn cells_total(cells: Seq<Seq<usize>>) -> usize
    decreases cells.len(),
{
    if cells.len() == 0 {
        0
    } else {
        let sum = cells_total(cells.drop_last()) + cells.last().len();
        if sum <= usize::MAX {
            sum as usize
        } else {
            usize::MAX
        }
    }
}

impl KeepSetsView {
    /// The cell of a head.
    pub open spec fn cell(self, layer: int, kv_head: int) -> Seq<usize> {
        self.cells[layer * self.n_kv_heads + kv_head]
    }

    /// Every cell is filled.
    pub open spec fn complete(self) -> bool {
        self.cells.len() == self.n_layers * self.n_kv_heads
    }

    /// Every cell is filled with ascending positions of the frame.
    pub open spec fn valid(self, frame: usize) -> bool {
        &&& self.complete()
        &&& forall|i: int|
            0 <= i < self.cells.len() ==> ascending(#[trigger] self.cells[i]) && within(
                self.cells[i],
                0,
                frame,
            )
    }

    /// The cell is there, and it is the first that is not ascending positions of the frame.
    pub open spec fn first_unfit(self, frame: usize, layer: usize, kv_head: usize) -> bool {
        let at = layer * self.n_kv_heads + kv_head;
        &&& self.complete()
        &&& layer < self.n_layers
        &&& kv_head < self.n_kv_heads
        &&& forall|i: int|
            0 <= i < at ==> ascending(#[trigger] self.cells[i]) && within(self.cells[i], 0, frame)
    }

    /// What is wrong with the positions: cells are missing, or the first position of the first unfit
    /// cell that is out of place does not follow the one before it or leaves the frame.
    pub open spec fn has_fault(self, frame: usize, e: KeepError) -> bool {
        match e {
            KeepError::Incomplete { filled } => filled == self.cells.len() && !self.complete(),
            KeepError::NotAscending { layer, kv_head, pos } => self.first_unfit(
                frame,
                layer,
                kv_head,
            ) && steps_back(self.cell(layer as int, kv_head as int), frame, pos),
            KeepError::OutOfRange { layer, kv_head, pos } => self.first_unfit(
                frame,
                layer,
                kv_head,
            ) && leaves(self.cell(layer as int, kv_head as int), frame, pos),
            _ => false,
        }
    }

    /// The first position of a cell; past every position when it has none.
    pub open spec fn start(self, i: int) -> usize {
        if self.cells[i].len() == 0 {
            usize::MAX
        } else {
            self.cells[i][0]
        }
    }

    /// The first position that is below the first of the other sets' cell, and its cell.
    pub open spec fn first_hole(
        self,
        base: KeepSetsView,
        layer: usize,
        kv_head: usize,
        pos: usize,
        start: usize,
    ) -> bool {
        let at = layer * self.n_kv_heads + kv_head;
        &&& layer < self.n_layers
        &&& kv_head < self.n_kv_heads
        &&& start == base.start(at)
        &&& first_below(self.cell(layer as int, kv_head as int), start, pos)
        &&& forall|i: int, k: int|
            0 <= i < at && 0 <= k < self.cells[i].len() ==> #[trigger] self.cells[i][k] >= base.start(
                i,
            )
    }

    /// Every position is at or past the first of the other sets' cell.
    pub open spec fn at_or_past(self, base: KeepSetsView) -> bool {
        forall|i: int, k: int|
            0 <= i < self.cells.len() && 0 <= k < self.cells[i].len() ==> #[trigger] self.cells[i][k]
                >= base.start(i)
    }
}

/// A cell's index.
proof fn lemma_cell_index(layer: int, kv_head: int, n_layers: int, n_kv_heads: int)
    requires
        0 <= layer < n_layers,
        0 <= kv_head < n_kv_heads,
    ensures
        0 <= layer * n_kv_heads + kv_head < n_layers * n_kv_heads,
{
    assert(0 <= layer * n_kv_heads && layer * n_kv_heads + n_kv_heads <= n_layers * n_kv_heads)
        by (nonlinear_arith)
        requires
            0 <= layer < n_layers,
            0 <= n_kv_heads,
    ;
}

fn copied(list: &Vec<usize>) -> (r: Vec<usize>)
    ensures
        r@ == list@,
{
    let mut r: Vec<usize> = Vec::new();
    let mut i: usize = 0;
    while i < list.len()
        invariant
            i <= list@.len(),
            r@ == list@.take(i as int),
        decreases list@.len() - i,
    {
        r.push(list[i]);
        i = i + 1;
        assert(r@ =~= list@.take(i as int));
    }
    assert(list@.take(i as int) =~= list@);
    r
}

impl KeepSets {
    /// No cell filled.
    pub fn with_capacity(n_layers: usize, n_kv_heads: usize) -> (r: KeepSets)
        ensures
            r@ == (KeepSetsView { n_layers, n_kv_heads, cells: Seq::empty() }),
    {
        let r = KeepSets { n_layers, n_kv_heads, cells: Vec::new() };
        assert(r@.cells =~= Seq::<Seq<usize>>::empty());
        r
    }

    /// Fills the next cell.
    pub fn push(&mut self, layer: usize, kv_head: usize, list: &Vec<usize>) -> (r: Result<
        (),
        KeepError,
    >)
        ensures
            r is Ok <==> layer < old(self)@.n_layers && kv_head < old(self)@.n_kv_heads && layer
                * old(self)@.n_kv_heads + kv_head == old(self)@.cells.len(),
            r is Ok ==> final(self)@ == (KeepSetsView {
                cells: old(self)@.cells.push(list@),
                ..old(self)@
            }),
            r is Err ==> final(self)@ == old(self)@ && r == Err::<(), KeepError>(
                KeepError::OutOfOrder { layer, kv_head },
            ),
    {
        let ghost before = self@;
        let ghost held = self.cells@;
        proof {
            assert(before.cells.len() == self.cells@.len());
            assert(self.cells@.len() == self.cells.len());
        }
        if layer >= self.n_layers || kv_head >= self.n_kv_heads {
            return Err(KeepError::OutOfOrder { layer, kv_head });
        }
        let base: usize = match layer.checked_mul(self.n_kv_heads) {
            Some(b) => b,
            None => {
                return Err(KeepError::OutOfOrder { layer, kv_head });
            },
        };
        let at: usize = match base.checked_add(kv_head) {
            Some(a) => a,
            None => {
                return Err(KeepError::OutOfOrder { layer, kv_head });
            },
        };
        if at != self.cells.len() {
            return Err(KeepError::OutOfOrder { layer, kv_head });
        }
        let copy = copied(list);
        self.cells.push(copy);
        proof {
            assert forall|i: int| 0 <= i < self@.cells.len() implies #[trigger] self@.cells[i]
                == before.cells.push(list@)[i] by {
                assert(self@.cells[i] =~= self.cells@[i]@);
                if i < held.len() {
                    assert(before.cells[i] =~= held[i]@);
                }
            }
            assert(self@.cells =~= before.cells.push(list@));
        }
        Ok(())
    }

    /// Every head retains `[starts[layer][head], frame)`.
    pub fn resident(starts: &Vec<Vec<usize>>, n_kv_heads: usize, frame: usize) -> (r: Option<KeepSets>)
        ensures
            r is Some <==> forall|l: int|
                0 <= l < starts@.len() ==> (#[trigger] starts@[l])@.len() == n_kv_heads,
            r matches Some(sets) ==> {
                &&& sets@.n_layers == starts@.len()
                &&& sets@.n_kv_heads == n_kv_heads
                &&& sets@.complete()
                &&& forall|l: int, h: int|
                    0 <= l < starts@.len() && 0 <= h < n_kv_heads ==> #[trigger] sets@.cell(l, h)
                        == run(starts@[l]@[h], frame)
            },
    {
        let n_layers: usize = starts.len();
        let mut sets = KeepSets::with_capacity(n_layers, n_kv_heads);
        let mut l: usize = 0;
        proof {
            assert(0 * n_kv_heads == 0) by (nonlinear_arith);
        }
        while l < n_layers
            invariant
                l <= n_layers,
                n_layers == starts@.len(),
                sets@.n_layers == n_layers,
                sets@.n_kv_heads == n_kv_heads,
                sets@.cells.len() == l * n_kv_heads,
                forall|k: int| 0 <= k < l ==> (#[trigger] starts@[k])@.len() == n_kv_heads,
                forall|k: int, h: int|
                    0 <= k < l && 0 <= h < n_kv_heads ==> #[trigger] sets@.cell(k, h) == run(
                        starts@[k]@[h],
                        frame,
                    ),
            decreases n_layers - l,
        {
            if starts[l].len() != n_kv_heads {
                return None;
            }
            let mut h: usize = 0;
            while h < n_kv_heads
                invariant
                    l < n_layers,
                    h <= n_kv_heads,
                    n_layers == starts@.len(),
                    starts@[l as int]@.len() == n_kv_heads,
                    sets@.n_layers == n_layers,
                    sets@.n_kv_heads == n_kv_heads,
                    sets@.cells.len() == l * n_kv_heads + h,
                    forall|k: int, g: int|
                        0 <= k <= l && 0 <= g < n_kv_heads && (k < l || g < h)
                            ==> #[trigger] sets@.cell(k, g) == run(starts@[k]@[g], frame),
                decreases n_kv_heads - h,
            {
                let start: usize = starts[l][h];
                let mut list: Vec<usize> = Vec::new();
                let mut p: usize = start;
                while p < frame
                    invariant
                        start <= p,
                        p <= frame || p == start,
                        list@ == run(start, p),
                    decreases frame - p,
                {
                    list.push(p);
                    p = p + 1;
                    assert(list@ =~= run(start, p));
                }
                assert(list@ =~= run(start, frame));
                let ghost earlier = sets@;
                let pushed = sets.push(l, h, &list);
                proof {
                    assert(pushed is Ok);
                    assert forall|k: int, g: int|
                        0 <= k <= l && 0 <= g < n_kv_heads && (k < l || g < h + 1)
                            implies #[trigger] sets@.cell(k, g) == run(starts@[k]@[g], frame) by {
                        if k < l || g < h {
                            assert(k * n_kv_heads + g < l * n_kv_heads + h) by {
                                if k < l {
                                    lemma_cell_index(k, g, l as int, n_kv_heads as int);
                                }
                            }
                            assert(0 <= k * n_kv_heads) by (nonlinear_arith)
                                requires
                                    0 <= k,
                            ;
                            assert(sets@.cell(k, g) == earlier.cell(k, g));
                        }
                    }
                }
                h = h + 1;
            }
            proof {
                assert((l + 1) * n_kv_heads == l * n_kv_heads + n_kv_heads) by (nonlinear_arith);
            }
            l = l + 1;
        }
        Some(sets)
    }

    /// Every head retains the whole frame.
    pub fn identity(n_layers: usize, n_kv_heads: usize, frame: usize) -> (sets: KeepSets)
        ensures
            sets@.n_layers == n_layers,
            sets@.n_kv_heads == n_kv_heads,
            sets@.complete(),
            forall|l: int, h: int|
                0 <= l < n_layers && 0 <= h < n_kv_heads ==> #[trigger] sets@.cell(l, h) == run(
                    0,
                    frame,
                ),
    {
        let mut starts: Vec<Vec<usize>> = Vec::new();
        let mut l: usize = 0;
        while l < n_layers
            invariant
                l <= n_layers,
                starts@.len() == l,
                forall|k: int|
                    0 <= k < l ==> (#[trigger] starts@[k])@.len() == n_kv_heads && forall|h: int|
                        0 <= h < n_kv_heads ==> starts@[k]@[h] == 0,
            decreases n_layers - l,
        {
            let mut row: Vec<usize> = Vec::new();
            let mut h: usize = 0;
            while h < n_kv_heads
                invariant
                    h <= n_kv_heads,
                    row@.len() == h,
                    forall|k: int| 0 <= k < h ==> row@[k] == 0,
                decreases n_kv_heads - h,
            {
                row.push(0);
                h = h + 1;
            }
            starts.push(row);
            l = l + 1;
        }
        KeepSets::resident(&starts, n_kv_heads, frame).unwrap()
    }

    /// The cell of a head.
    pub fn head(&self, layer: usize, kv_head: usize) -> (list: &Vec<usize>)
        requires
            self@.complete(),
            layer < self@.n_layers,
            kv_head < self@.n_kv_heads,
        ensures
            list@ == self@.cell(layer as int, kv_head as int),
    {
        proof {
            lemma_cell_index(
                layer as int,
                kv_head as int,
                self.n_layers as int,
                self.n_kv_heads as int,
            );
            assert(self@.cells.len() == self.cells@.len());
            assert(self.cells@.len() == self.cells.len());
            let i = layer * self.n_kv_heads + kv_head;
            assert(self@.cells[i] =~= self.cells@[i]@);
        }
        &self.cells[layer * self.n_kv_heads + kv_head]
    }

    /// Whether two cells differ in length.
    pub fn is_ragged(&self) -> (r: bool)
        ensures
            r == exists|i: int|
                0 <= i < self@.cells.len() && (#[trigger] self@.cells[i]).len()
                    != self@.cells[0].len(),
    {
        let mut i: usize = 0;
        assert(self@.cells.len() == self.cells@.len());
        while i < self.cells.len()
            invariant
                i <= self.cells@.len(),
                self@.cells.len() == self.cells@.len(),
                forall|k: int|
                    0 <= k < i ==> (#[trigger] self@.cells[k]).len() == self@.cells[0].len(),
            decreases self.cells@.len() - i,
        {
            proof {
                assert(self@.cells[i as int] =~= self.cells@[i as int]@);
                assert(self@.cells[0] =~= self.cells@[0]@);
            }
            if self.cells[i].len() != self.cells[0].len() {
                assert(self@.cells[i as int].len() != self@.cells[0].len());
                return true;
            }
            i = i + 1;
        }
        false
    }

    /// How many positions are retained.
    pub fn total(&self) -> (n: usize)
        ensures
            n == cells_total(self@.cells),
    {
        let ghost all = self@.cells;
        let mut n: usize = 0;
        let mut i: usize = 0;
        assert(all.len() == self.cells@.len());
        assert(all.take(0) =~= Seq::<Seq<usize>>::empty());
        while i < self.cells.len()
            invariant
                i <= self.cells@.len(),
                all == self@.cells,
                all.len() == self.cells@.len(),
                n == cells_total(all.take(i as int)),
            decreases self.cells@.len() - i,
        {
            assert(all.take(i + 1).drop_last() =~= all.take(i as int));
            assert(all[i as int] =~= self.cells@[i as int]@);
            n = n.saturating_add(self.cells[i].len());
            i = i + 1;
        }
        assert(all.take(i as int) =~= all);
        n
    }

    /// Checks that every cell is filled with ascending positions of the frame.
    pub fn validate(&self, frame: usize) -> (r: Result<(), KeepError>)
        ensures
            r is Ok <==> self@.valid(frame),
            r matches Err(e) ==> self@.has_fault(frame, e),
    {
        let ghost all = self@.cells;
        assert(all.len() == self.cells@.len());
        assert(self.cells@.len() == self.cells.len());
        let full: bool = match self.n_layers.checked_mul(self.n_kv_heads) {
            Some(n) => n == self.cells.len(),
            None => false,
        };
        if !full {
            return Err(KeepError::Incomplete { filled: self.cells.len() });
        }
        let mut i: usize = 0;
        let mut layer: usize = 0;
        let mut kv_head: usize = 0;
        proof {
            assert(0 * self.n_kv_heads == 0) by (nonlinear_arith);
            if all.len() > 0 {
                assert(self.n_kv_heads > 0) by (nonlinear_arith)
                    requires
                        self.n_layers * self.n_kv_heads > 0,
                        self.n_layers >= 0,
                ;
            }
        }
        while i < self.cells.len()
            invariant
                i <= self.cells@.len(),
                all == self@.cells,
                all.len() == self.cells@.len(),
                self@.complete(),
                all.len() == self.n_layers * self.n_kv_heads,
                i == layer * self.n_kv_heads + kv_head,
                i < all.len() ==> kv_head < self.n_kv_heads,
                kv_head <= self.n_kv_heads,
                forall|k: int|
                    0 <= k < i ==> ascending(#[trigger] all[k]) && within(all[k], 0, frame),
            decreases self.cells@.len() - i,
        {
            let ghost cell = all[i as int];
            assert(cell =~= self.cells@[i as int]@);
            assert(cell == self@.cell(layer as int, kv_head as int));
            proof {
                assert(layer < self.n_layers) by (nonlinear_arith)
                    requires
                        layer * self.n_kv_heads + kv_head < self.n_layers * self.n_kv_heads,
                        0 <= kv_head,
                ;
                assert(self@.first_unfit(frame, layer, kv_head));
            }
            let mut k: usize = 0;
            while k < self.cells[i].len()
                invariant
                    i < self.cells@.len(),
                    k <= cell.len(),
                    cell == self.cells@[i as int]@,
                    cell == all[i as int],
                    all == self@.cells,
                    self@.complete(),
                    self@.first_unfit(frame, layer, kv_head),
                    cell == self@.cell(layer as int, kv_head as int),
                    forall|a: int, b: int|
                        0 <= a < b < k ==> #[trigger] cell[a] < #[trigger] cell[b],
                    forall|a: int| 0 <= a < k ==> #[trigger] cell[a] < frame,
                decreases cell.len() - k,
            {
                let pos: usize = self.cells[i][k];
                if k > 0 && self.cells[i][k - 1] >= pos {
                    proof {
                        assert(!ascending(cell)) by {
                            assert(cell[k - 1] >= cell[k as int]);
                        }
                        assert(cell[k as int] == pos);
                        assert(steps_back(cell, frame, pos));
                    }
                    return Err(KeepError::NotAscending { layer, kv_head, pos });
                }
                if pos >= frame {
                    proof {
                        assert(cell[k as int] == pos);
                        assert(!within(cell, 0, frame));
                        let upto = cell.take(k + 1);
                        assert forall|a: int, b: int| 0 <= a < b < upto.len() implies #[trigger] upto[a]
                            < #[trigger] upto[b] by {
                            if b == k {
                                assert(cell[k - 1] < cell[k as int]);
                                assert(a == k - 1 || cell[a] < cell[k - 1]);
                            } else {
                                assert(cell[a] < cell[b]);
                            }
                        }
                        assert(leaves(cell, frame, pos));
                    }
                    return Err(KeepError::OutOfRange { layer, kv_head, pos });
                }
                k = k + 1;
            }
            assert(ascending(cell) && within(cell, 0, frame));
            i = i + 1;
            kv_head = kv_head + 1;
            if kv_head == self.n_kv_heads {
                proof {
                    assert((layer + 1) * self.n_kv_heads == layer * self.n_kv_heads
                        + self.n_kv_heads) by (nonlinear_arith);
                    if i < all.len() {
                        assert(layer + 1 < self.n_layers) by (nonlinear_arith)
                            requires
                                (layer + 1) * self.n_kv_heads < self.n_layers * self.n_kv_heads,
                        ;
                    } else {
                        assert(layer + 1 <= self.n_layers) by (nonlinear_arith)
                            requires
                                (layer + 1) * self.n_kv_heads <= self.n_layers * self.n_kv_heads,
                                self.n_kv_heads > 0,
                        ;
                    }
                }
                layer = layer + 1;
                kv_head = 0;
            }
        }
        Ok(())
    }

    /// Checks that every retained position is resident in the head that retains it: at or past the
    /// first of `base`'s cell.
    pub fn validate_within(&self, base: &KeepSets) -> (r: Result<(), KeepError>)
        ensures
            r is Ok <==> self@.n_layers == base@.n_layers && self@.n_kv_heads == base@.n_kv_heads
                && self@.complete() && base@.complete() && self@.at_or_past(base@),
            r matches Err(e) ==> match e {
                KeepError::Geometry => !(self@.n_layers == base@.n_layers && self@.n_kv_heads
                    == base@.n_kv_heads && self@.complete() && base@.complete()),
                KeepError::Hole { layer, kv_head, pos, start } => {
                    &&& self@.n_layers == base@.n_layers && self@.n_kv_heads == base@.n_kv_heads
                    &&& self@.complete() && base@.complete()
                    &&& self@.first_hole(base@, layer, kv_head, pos, start)
                },
                _ => false,
            },
    {
        let ghost all = self@.cells;
        let ghost other = base@.cells;
        assert(all.len() == self.cells@.len() && other.len() == base.cells@.len());
        assert(self.cells@.len() == self.cells.len() && base.cells@.len() == base.cells.len());
        let full: bool = match self.n_layers.checked_mul(self.n_kv_heads) {
            Some(n) => n == self.cells.len() && n == base.cells.len(),
            None => false,
        };
        if self.n_layers != base.n_layers || self.n_kv_heads != base.n_kv_heads || !full {
            return Err(KeepError::Geometry);
        }
        let mut i: usize = 0;
        let mut layer: usize = 0;
        let mut kv_head: usize = 0;
        proof {
            assert(0 * self.n_kv_heads == 0) by (nonlinear_arith);
            if all.len() > 0 {
                assert(self.n_kv_heads > 0) by (nonlinear_arith)
                    requires
                        self.n_layers * self.n_kv_heads > 0,
                        self.n_layers >= 0,
                ;
            }
        }
        while i < self.cells.len()
            invariant
                i <= self.cells@.len(),
                all == self@.cells,
                other == base@.cells,
                all.len() == self.cells@.len(),
                other.len() == base.cells@.len(),
                self@.complete(),
                base@.complete(),
                all.len() == other.len(),
                self.n_layers == base.n_layers,
                self.n_kv_heads == base.n_kv_heads,
                all.len() == self.n_layers * self.n_kv_heads,
                i == layer * self.n_kv_heads + kv_head,
                i < all.len() ==> kv_head < self.n_kv_heads,
                kv_head <= self.n_kv_heads,
                forall|c: int, k: int|
                    0 <= c < i && 0 <= k < all[c].len() ==> #[trigger] all[c][k] >= base@.start(c),
            decreases self.cells@.len() - i,
        {
            let ghost cell = all[i as int];
            assert(cell =~= self.cells@[i as int]@);
            assert(other[i as int] =~= base.cells@[i as int]@);
            assert(cell == self@.cell(layer as int, kv_head as int));
            let start: usize = if base.cells[i].len() == 0 {
                usize::MAX
            } else {
                base.cells[i][0]
            };
            assert(start == base@.start(i as int));
            proof {
                assert(layer < self.n_layers) by (nonlinear_arith)
                    requires
                        layer * self.n_kv_heads + kv_head < self.n_layers * self.n_kv_heads,
                        0 <= kv_head,
                ;
            }
            let mut k: usize = 0;
            while k < self.cells[i].len()
                invariant
                    i < self.cells@.len(),
                    k <= cell.len(),
                    cell == self.cells@[i as int]@,
                    cell == all[i as int],
                    all == self@.cells,
                    self@.complete(),
                    base@.complete(),
                    i == layer * self.n_kv_heads + kv_head,
                    layer < self.n_layers,
                    kv_head < self.n_kv_heads,
                    self.n_layers == base.n_layers,
                    self.n_kv_heads == base.n_kv_heads,
                    forall|c: int, x: int|
                        0 <= c < i && 0 <= x < all[c].len() ==> #[trigger] all[c][x] >= base@.start(c),
                    start == base@.start(i as int),
                    cell == self@.cell(layer as int, kv_head as int),
                    forall|a: int| 0 <= a < k ==> #[trigger] cell[a] >= start,
                decreases cell.len() - k,
            {
                let pos: usize = self.cells[i][k];
                if pos < start {
                    proof {
                        assert(cell[k as int] == pos);
                        assert(self@.cells[i as int][k as int] < base@.start(i as int));
                        assert(first_below(cell, start, pos));
                        assert(self@.first_hole(base@, layer, kv_head, pos, start));
                    }
                    return Err(KeepError::Hole { layer, kv_head, pos, start });
                }
                k = k + 1;
            }
            i = i + 1;
            kv_head = kv_head + 1;
            if kv_head == self.n_kv_heads {
                proof {
                    assert((layer + 1) * self.n_kv_heads == layer * self.n_kv_heads
                        + self.n_kv_heads) by (nonlinear_arith);
                    assert(layer + 1 <= self.n_layers) by (nonlinear_arith)
                        requires
                            (layer + 1) * self.n_kv_heads <= self.n_layers * self.n_kv_heads,
                            self.n_kv_heads > 0,
                    ;
                }
                layer = layer + 1;
                kv_head = 0;
            }
        }
        Ok(())
    }

    /// Whether two sets retain the same positions everywhere.
    pub fn same_as(&self, other: &KeepSets) -> (r: bool)
        ensures
            r == (self@ == other@),
    {
        let ghost a = self@.cells;
        let ghost b = other@.cells;
        assert(a.len() == self.cells@.len() && b.len() == other.cells@.len());
        if self.n_layers != other.n_layers || self.n_kv_heads != other.n_kv_heads
            || self.cells.len() != other.cells.len() {
            return false;
        }
        let mut i: usize = 0;
        while i < self.cells.len()
            invariant
                i <= self.cells@.len(),
                a == self@.cells,
                b == other@.cells,
                a.len() == self.cells@.len(),
                b.len() == other.cells@.len(),
                a.len() == b.len(),
                forall|k: int| 0 <= k < i ==> #[trigger] a[k] == b[k],
            decreases self.cells@.len() - i,
        {
            assert(a[i as int] =~= self.cells@[i as int]@);
            assert(b[i as int] =~= other.cells@[i as int]@);
            if !same_list(&self.cells[i], &other.cells[i]) {
                assert(a[i as int] != b[i as int]);
                return false;
            }
            i = i + 1;
        }
        assert(a =~= b);
        assert(self@ =~= other@);
        true
    }
}

/// Whether two lists hold the same.
fn same_list(a: &Vec<usize>, b: &Vec<usize>) -> (r: bool)
    ensures
        r == (a@ == b@),
{
    if a.len() != b.len() {
        return false;
    }
    let mut i: usize = 0;
    while i < a.len()
        invariant
            i <= a@.len(),
            a@.len() == b@.len(),
            forall|k: int| 0 <= k < i ==> a@[k] == b@[k],
        decreases a@.len() - i,
    {
        if a[i] != b[i] {
            return false;
        }
        i = i + 1;
    }
    assert(a@ =~= b@);
    true
}

/// Sets of ascending positions are within themselves.
pub proof fn lemma_resident_sets_are_within_themselves(sets: KeepSetsView)
    requires
        sets.complete(),
        forall|i: int| 0 <= i < sets.cells.len() ==> ascending(#[trigger] sets.cells[i]),
    ensures
        sets.at_or_past(sets),
{
    assert forall|i: int, k: int|
        0 <= i < sets.cells.len() && 0 <= k < sets.cells[i].len() implies #[trigger] sets.cells[i][k]
        >= sets.start(i) by {
        if k > 0 {
            assert(ascending(sets.cells[i]));
            assert(sets.cells[i][0] < sets.cells[i][k]);
        }
    }
}

/// A run holds exactly the positions from its low end up to its high end, each once and in order.
pub proof fn lemma_run_holds_its_range(low: usize, high: usize, p: usize)
    ensures
        run(low, high).contains(p) <==> low <= p < high,
        ascending(run(low, high)),
        low <= high ==> run(low, high).len() == high - low,
        low >= high ==> run(low, high).len() == 0,
        within(run(low, high), low, high),
{
    if low <= p < high {
        assert(run(low, high)[p - low] == p);
    }
}

/// What resident heads retain: every position from the head's first up to the frame's end, and no other.
/// They are refused exactly when some layer has another number of heads.
pub proof fn lemma_resident_heads_retain_the_rest(
    starts: Vec<Vec<usize>>,
    n_kv_heads: usize,
    frame: usize,
    r: Option<KeepSets>,
    l: int,
    h: int,
    p: usize,
)
    requires
        call_ensures(KeepSets::resident, (&starts, n_kv_heads, frame), r),
        0 <= l < starts@.len(),
        0 <= h < n_kv_heads,
    ensures
        starts@[l]@.len() != n_kv_heads ==> r is None,
        r matches Some(sets) ==> {
            let cell = sets@.cells[l * n_kv_heads + h];
            &&& sets@.n_layers == starts@.len()
            &&& sets@.n_kv_heads == n_kv_heads
            &&& sets@.cells.len() == starts@.len() * n_kv_heads
            &&& cell.contains(p) <==> starts@[l]@[h] <= p < frame
            &&& forall|a: int, b: int| 0 <= a < b < cell.len() ==> cell[a] < cell[b]
        },
{
    if let Some(sets) = r {
        lemma_run_holds_its_range(starts@[l]@[h], frame, p);
        assert(sets@.cell(l, h) == run(starts@[l]@[h], frame));
        assert(ascending(sets@.cell(l, h)));
    }
}

/// What the identity retains: every position of the frame, in every head.
pub proof fn lemma_identity_retains_everything(
    n_layers: usize,
    n_kv_heads: usize,
    frame: usize,
    sets: KeepSets,
    l: int,
    h: int,
    p: usize,
)
    requires
        call_ensures(KeepSets::identity, (n_layers, n_kv_heads, frame), sets),
        0 <= l < n_layers,
        0 <= h < n_kv_heads,
    ensures
        sets@.cells.len() == n_layers * n_kv_heads,
        sets@.cells[l * n_kv_heads + h].len() == frame,
        sets@.cells[l * n_kv_heads + h].contains(p) <==> p < frame,
{
    lemma_run_holds_its_range(0, frame, p);
    assert(sets@.cell(l, h) == run(0, frame));
}

/// Which positions are valid: one list for every head of every layer, each list rising, each position
/// inside the frame.
pub proof fn lemma_which_positions_are_valid(sets: KeepSets, frame: usize, r: Result<(), KeepError>, i: int, a: int, b: int)
    requires
        call_ensures(KeepSets::validate, (&sets, frame), r),
    ensures
        r is Ok ==> sets@.cells.len() == sets@.n_layers * sets@.n_kv_heads,
        r is Ok && 0 <= i < sets@.cells.len() && 0 <= a < b < sets@.cells[i].len()
            ==> sets@.cells[i][a] < sets@.cells[i][b],
        r is Ok && 0 <= i < sets@.cells.len() && 0 <= a < sets@.cells[i].len() ==> sets@.cells[i][a]
            < frame,
        sets@.cells.len() == sets@.n_layers * sets@.n_kv_heads && (forall|k: int, x: int, y: int|
            0 <= k < sets@.cells.len() && 0 <= x < y < sets@.cells[k].len()
                ==> #[trigger] sets@.cells[k][x] < #[trigger] sets@.cells[k][y]) && (forall|k: int, x: int|
            0 <= k < sets@.cells.len() && 0 <= x < sets@.cells[k].len()
                ==> #[trigger] sets@.cells[k][x] < frame) ==> r is Ok,
{
    if r is Ok && 0 <= i < sets@.cells.len() {
        assert(ascending(sets@.cells[i]) && within(sets@.cells[i], 0, frame));
    }
}

/// Which positions are resident: every one at or behind the first of the other sets' list for its head,
/// for sets of the same dimensions.
pub proof fn lemma_which_positions_are_resident(
    sets: KeepSets,
    base: KeepSets,
    r: Result<(), KeepError>,
    i: int,
    k: int,
)
    requires
        call_ensures(KeepSets::validate_within, (&sets, &base), r),
    ensures
        r is Ok ==> sets@.n_layers == base@.n_layers && sets@.n_kv_heads == base@.n_kv_heads,
        r is Ok && 0 <= i < sets@.cells.len() && 0 <= k < sets@.cells[i].len()
            && base@.cells[i].len() > 0 ==> sets@.cells[i][k] >= base@.cells[i][0],
        sets@.n_layers == base@.n_layers && sets@.n_kv_heads == base@.n_kv_heads
            && sets@.cells.len() == sets@.n_layers * sets@.n_kv_heads && base@.cells.len()
            == base@.n_layers * base@.n_kv_heads && (forall|a: int, b: int|
            0 <= a < sets@.cells.len() && 0 <= b < sets@.cells[a].len() ==> base@.cells[a].len() > 0
                && #[trigger] sets@.cells[a][b] >= base@.cells[a][0]) ==> r is Ok,
        r == Err::<(), KeepError>(KeepError::Geometry) ==> !(sets@.n_layers == base@.n_layers
            && sets@.n_kv_heads == base@.n_kv_heads && sets@.cells.len() == sets@.n_layers
            * sets@.n_kv_heads && base@.cells.len() == base@.n_layers * base@.n_kv_heads),
{
    if r is Ok && 0 <= i < sets@.cells.len() && 0 <= k < sets@.cells[i].len() {
        assert(sets@.cells[i][k] >= base@.start(i));
    }
}

/// One cell more adds its positions to the total, up to the machine's maximum.
pub proof fn lemma_total_of_one_more_cell(cells: Seq<Seq<usize>>, cell: Seq<usize>)
    ensures
        cells_total(Seq::empty()) == 0,
        cells_total(cells) + cell.len() <= usize::MAX ==> cells_total(cells.push(cell))
            == cells_total(cells) + cell.len(),
        cells_total(cells) + cell.len() > usize::MAX ==> cells_total(cells.push(cell)) == usize::MAX,
{
    assert(cells.push(cell).drop_last() =~= cells);
}

/// What a fault says of the positions: the cell is one of the sets', and its position is there; one that
/// does not follow is no greater than the one before it, and one that leaves the frame lies at or behind
/// its end.
pub proof fn lemma_what_a_fault_says(sets: KeepSets, frame: usize, r: Result<(), KeepError>)
    requires
        call_ensures(KeepSets::validate, (&sets, frame), r),
    ensures
        r matches Err(KeepError::Incomplete { filled }) ==> filled == sets@.cells.len() && filled
            != sets@.n_layers * sets@.n_kv_heads,
        r matches Err(KeepError::NotAscending { layer, kv_head, pos }) ==> layer < sets@.n_layers
            && kv_head < sets@.n_kv_heads && exists|k: int|
            {
                &&& 0 < k < sets@.cell(layer as int, kv_head as int).len()
                &&& #[trigger] sets@.cell(layer as int, kv_head as int)[k] == pos
                &&& sets@.cell(layer as int, kv_head as int)[k - 1] >= pos
            },
        r matches Err(KeepError::OutOfRange { layer, kv_head, pos }) ==> layer < sets@.n_layers
            && kv_head < sets@.n_kv_heads && pos >= frame && exists|k: int|
            {
                &&& 0 <= k < sets@.cell(layer as int, kv_head as int).len()
                &&& #[trigger] sets@.cell(layer as int, kv_head as int)[k] == pos
            },
        !(r matches Err(KeepError::OutOfOrder { .. })),
        !(r matches Err(KeepError::Hole { .. })),
        !(r matches Err(KeepError::Geometry)),
{
}

/// What a hole says: the position is one of its cell's, it lies below the first position of the other
/// sets' cell, and that first position is named with it.
pub proof fn lemma_what_a_hole_says(sets: KeepSets, base: KeepSets, r: Result<(), KeepError>)
    requires
        call_ensures(KeepSets::validate_within, (&sets, &base), r),
    ensures
        r matches Err(KeepError::Hole { layer, kv_head, pos, start }) ==> {
            &&& layer < sets@.n_layers
            &&& kv_head < sets@.n_kv_heads
            &&& pos < start
            &&& base@.cell(layer as int, kv_head as int).len() > 0 ==> start == base@.cell(
                layer as int,
                kv_head as int,
            )[0]
            &&& exists|k: int|
                {
                    &&& 0 <= k < sets@.cell(layer as int, kv_head as int).len()
                    &&& #[trigger] sets@.cell(layer as int, kv_head as int)[k] == pos
                }
        },
{
}

} // verus!
