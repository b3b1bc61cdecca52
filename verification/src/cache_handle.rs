//! A transaction on one layer's cache.
//!
//! A stage that mutates a cache stages what it wants and commits once. Every request is checked when
//! it is made, against the frame the transaction started in: a refused request stages nothing and
//! changes nothing. At most one request may move positions. Committing applies, in this order, the
//! re-encode, the merges (in the frame before the move) and the move.

use crate::codec::RowCodec;
use crate::compaction::{head_lists_ok, keep_heads_ok, keep_is_valid, keep_ok,
    lemma_equal_heads_keep_is_layer_wide};
use crate::dtype::{DType, KVLayout, QK4_0};
use crate::format_apply::{current_format_name, reencode_cache, reencode_failed, reencoded, FormatId};
use crate::keep::{keep_intersect_of, keep_top_k, keep_union_of, KeepSpec, KeepTopK};
use crate::keepset_dump::{copy_lists, head_lists, KeepsetDump, RecorderView};
use crate::kv_cache::{CacheShape, CacheView, KVCache, KvError};
use crate::merge::{apply_weighted_merges, lemma_merges_move_nothing,
    lemma_merges_touch_only_targets, merge_views,
    merges_applied, merges_stopped, MergeView, WeightedMerge};
use crate::swap::{offloaded, recall_refusal, recalled, RecordView, SwapHandler};
use vstd::prelude::*;

verus! {

/// Why a request was refused.
#[derive(Debug, PartialEq, Eq)]
pub enum CacheOpError {
    /// A second request that moves positions.
    MultipleCompactions,
    /// A keep-list that is not ascending, names a position outside the frame, or is not one per
    /// head.
    InvalidKeep,
    /// A keep-list that names a hole.
    NotResident,
    /// The store cannot do this.
    WrongContainer,
    /// The buffers are not on the host.
    NotOnHost,
    /// Merges were staged before.
    MergeAlreadyStaged,
    /// A merge that names a position outside the frame.
    InvalidMerge,
    /// A format that cannot be read or written.
    UnsupportedFormat(String),
    /// No place to move tokens to.
    NoResidencyBackend,
    /// The dimensions of a cache do not change.
    GeometryImmutable,
}

impl CacheOpError {
    /// The refusal in words.
    pub open spec fn words(self) -> Seq<char> {
        match self {
            CacheOpError::MultipleCompactions => "a second request that moves positions"@,
            CacheOpError::InvalidKeep => "the keep-list is not ascending, leaves the frame, or is not one per head"@,
            CacheOpError::NotResident => "the keep-list names a position that is not resident"@,
            CacheOpError::WrongContainer => "the store cannot do this"@,
            CacheOpError::NotOnHost => "the buffers are not on the host"@,
            CacheOpError::MergeAlreadyStaged => "merges were staged before"@,
            CacheOpError::InvalidMerge => "a merge names a position outside the frame"@,
            CacheOpError::UnsupportedFormat(name) => "unsupported format: "@ + name@,
            CacheOpError::NoResidencyBackend => "there is no place to move tokens to"@,
            CacheOpError::GeometryImmutable => "the dimensions of a cache do not change"@,
        }
    }

    /// The refusal in words.
    pub fn message(&self) -> (m: String)
        ensures
            m@ == self.words(),
    {
        match self {
            CacheOpError::MultipleCompactions => "a second request that moves positions".to_owned(),
            CacheOpError::InvalidKeep => "the keep-list is not ascending, leaves the frame, or is not one per head".to_owned(),
            CacheOpError::NotResident => "the keep-list names a position that is not resident".to_owned(),
            CacheOpError::WrongContainer => "the store cannot do this".to_owned(),
            CacheOpError::NotOnHost => "the buffers are not on the host".to_owned(),
            CacheOpError::MergeAlreadyStaged => "merges were staged before".to_owned(),
            CacheOpError::InvalidMerge => "a merge names a position outside the frame".to_owned(),
            CacheOpError::UnsupportedFormat(name) => {
                let mut m: String = "unsupported format: ".to_owned();
                m.append(name.as_str());
                m
            },
            CacheOpError::NoResidencyBackend => "there is no place to move tokens to".to_owned(),
            CacheOpError::GeometryImmutable => "the dimensions of a cache do not change".to_owned(),
        }
    }
}

/// The one request that moves positions.
pub enum Compaction {
    Keep(Vec<usize>),
    KeepPerHead(Vec<Vec<usize>>),
    Offload(usize),
    Recall,
}

/// The move as contracts speak of it.
pub enum CompactionView {
    Keep(Seq<usize>),
    KeepPerHead(Seq<Seq<usize>>),
    Offload(usize),
    Recall,
}

impl View for Compaction {
    type V = CompactionView;

    open spec fn view(&self) -> CompactionView {
        match self {
            Compaction::Keep(list) => CompactionView::Keep(list@),
            Compaction::KeepPerHead(heads) => CompactionView::KeepPerHead(heads.deep_view()),
            Compaction::Offload(n) => CompactionView::Offload(*n),
            Compaction::Recall => CompactionView::Recall,
        }
    }
}

/// What a transaction has staged.
pub struct Staged {
    pub merges: Option<Vec<WeightedMerge>>,
    pub compaction: Option<Compaction>,
    pub reencode: Option<DType>,
}

/// What is staged, as contracts speak of it.
#[verifier::ext_equal]
pub struct StagedView {
    pub merges: Option<Seq<MergeView>>,
    pub compaction: Option<CompactionView>,
    pub reencode: Option<DType>,
}

impl View for Staged {
    type V = StagedView;

    open spec fn view(&self) -> StagedView {
        StagedView {
            merges: match self.merges {
                Some(m) => Some(merge_views(m@)),
                None => None,
            },
            compaction: match self.compaction {
                Some(c) => Some(c@),
                None => None,
            },
            reencode: self.reencode,
        }
    }
}

/// The longest list.
pub open spec fn longest(heads: Seq<Seq<usize>>) -> nat
    decreases heads.len(),
{
    if heads.len() == 0 {
        0
    } else if heads.last().len() > longest(heads.drop_last()) {
        heads.last().len()
    } else {
        longest(heads.drop_last())
    }
}

/// No list is longer than the longest, and one is as long.
pub proof fn lemma_longest_bounds(heads: Seq<Seq<usize>>)
    ensures
        forall|h: int| 0 <= h < heads.len() ==> (#[trigger] heads[h]).len() <= longest(heads),
        heads.len() > 0 ==> exists|h: int|
            0 <= h < heads.len() && (#[trigger] heads[h]).len() == longest(heads),
    decreases heads.len(),
{
    if heads.len() > 0 {
        let init = heads.drop_last();
        lemma_longest_bounds(init);
        assert forall|h: int| 0 <= h < heads.len() implies (#[trigger] heads[h]).len() <= longest(
            heads,
        ) by {
            if h < init.len() {
                assert(init[h].len() <= longest(init));
            }
        }
        if heads.last().len() > longest(init) {
            assert(heads[heads.len() - 1].len() == longest(heads));
        } else if init.len() > 0 {
            let h = choose|h: int| 0 <= h < init.len() && (#[trigger] init[h]).len() == longest(
                init,
            );
            assert(heads[h].len() == longest(heads));
        } else {
            assert(heads[heads.len() - 1].len() == longest(heads));
        }
    }
}

/// Every position of the list is resident in a head that starts at `start`.
pub open spec fn all_from(list: Seq<usize>, start: usize) -> bool {
    forall|i: int| 0 <= i < list.len() ==> #[trigger] list[i] >= start
}

/// Every position of the list is resident in every head.
pub open spec fn resident_in_all(c: CacheView, list: Seq<usize>) -> bool {
    forall|h: int| 0 <= h < c.starts.len() ==> all_from(list, #[trigger] c.starts[h])
}

/// Every head's list is resident in that head.
pub open spec fn resident_per_head(c: CacheView, heads: Seq<Seq<usize>>) -> bool {
    forall|h: int| 0 <= h < heads.len() ==> all_from(#[trigger] heads[h], c.starts[h])
}

/// Every list is as long as the longest.
pub open spec fn equal_lengths(heads: Seq<Seq<usize>>) -> bool {
    forall|h: int| 0 <= h < heads.len() ==> (#[trigger] heads[h]).len() == longest(heads)
}

/// Every list is ascending and inside the frame.
pub open spec fn lists_ok(heads: Seq<Seq<usize>>, frame: usize) -> bool {
    forall|h: int| 0 <= h < heads.len() ==> keep_ok(#[trigger] heads[h], frame as int)
}

/// What the answer to a layer-wide keep is.
pub open spec fn keep_answer(c: CacheView, staged: StagedView, list: Seq<usize>) -> Result<
    (),
    CacheOpError,
> {
    if !keep_ok(list, c.current_pos as int) {
        Err(CacheOpError::InvalidKeep)
    } else if !resident_in_all(c, list) {
        Err(CacheOpError::NotResident)
    } else if staged.compaction is Some {
        Err(CacheOpError::MultipleCompactions)
    } else {
        Ok(())
    }
}

/// What the answer to a per-head keep is.
pub open spec fn keep_per_head_answer(c: CacheView, staged: StagedView, heads: Seq<Seq<usize>>) -> Result<
    (),
    CacheOpError,
> {
    if c.shape.layout != KVLayout::HeadMajor {
        Err(CacheOpError::WrongContainer)
    } else if heads.len() != c.shape.kv_heads || !lists_ok(heads, c.current_pos) {
        Err(CacheOpError::InvalidKeep)
    } else if !resident_per_head(c, heads) {
        Err(CacheOpError::NotResident)
    } else if !c.shape.spec_supports_ragged() && !equal_lengths(heads) {
        Err(CacheOpError::WrongContainer)
    } else if staged.compaction is Some {
        Err(CacheOpError::MultipleCompactions)
    } else {
        Ok(())
    }
}

/// Every merge names positions of the frame.
pub open spec fn merges_inside(merges: Seq<MergeView>, frame: usize) -> bool {
    forall|i: int| 0 <= i < merges.len() ==> (#[trigger] merges[i]).below(frame as int)
}

/// What the answer to a merge request is.
pub open spec fn merge_answer(c: CacheView, staged: StagedView, merges: Seq<MergeView>) -> Result<
    (),
    CacheOpError,
> {
    if c.shape.on_device {
        Err(CacheOpError::NotOnHost)
    } else if staged.merges is Some {
        Err(CacheOpError::MergeAlreadyStaged)
    } else if !merges_inside(merges, c.current_pos) {
        Err(CacheOpError::InvalidMerge)
    } else {
        Ok(())
    }
}

/// The typed format of a name.
pub open spec fn typed_format(name: Seq<char>) -> Option<DType> {
    if name == "f32"@ {
        Some(DType::F32)
    } else if name == "f16"@ {
        Some(DType::F16)
    } else if name == "q4_0"@ {
        Some(DType::Q4_0)
    } else {
        None
    }
}

/// The typed format of a name.
fn format_of(target: &FormatId) -> (r: Option<DType>)
    ensures
        r == typed_format(target.0@),
{
    if target.is_named("f32") {
        Some(DType::F32)
    } else if target.is_named("f16") {
        Some(DType::F16)
    } else if target.is_named("q4_0") {
        Some(DType::Q4_0)
    } else {
        None
    }
}

/// A re-encode of this cache to this format can be staged.
pub open spec fn reencode_feasible(shape: CacheShape, target: DType) -> bool {
    &&& !shape.on_device
    &&& shape.dtype != DType::U8
    &&& target != DType::U8
    &&& (target == DType::Q4_0 ==> shape.head_dim % 32 == 0)
}

/// What is staged is what a checked request may stage.
pub open spec fn staged_ok(c: CacheView, staged: StagedView, has_swap: bool) -> bool {
    &&& (staged.merges matches Some(m) ==> merges_inside(m, c.current_pos) && !c.shape.on_device)
    &&& (staged.reencode matches Some(t) ==> reencode_feasible(c.shape, t) && t != c.shape.dtype)
    &&& match staged.compaction {
        None => true,
        Some(CompactionView::Keep(list)) => keep_ok(list, c.current_pos as int) && resident_in_all(
            c,
            list,
        ),
        Some(CompactionView::KeepPerHead(heads)) => {
            &&& heads.len() == c.shape.kv_heads
            &&& lists_ok(heads, c.current_pos)
            &&& resident_per_head(c, heads)
            &&& (c.shape.spec_supports_ragged() || equal_lengths(heads))
        },
        Some(CompactionView::Offload(_)) => has_swap,
        Some(CompactionView::Recall) => has_swap,
    }
}

/// A transaction on one layer's cache.
pub struct EngineCacheHandle<'a> {
    pub cache: &'a mut KVCache,
    pub layer_idx: usize,
    pub n_layers: usize,
    /// Where tokens can be moved to.
    pub swap: Option<&'a mut SwapHandler>,
    pub staged: Staged,
}

/// The cache after the staged re-encode, if there is one.
pub open spec fn reencode_step<C: RowCodec>(
    codec: &C,
    before: CacheView,
    target: Option<DType>,
    after: CacheView,
) -> bool {
    match target {
        Some(t) => reencoded(codec, before, t, after),
        None => after == before,
    }
}

/// The cache after the staged merges, if there are any.
pub open spec fn merge_step<C: RowCodec>(
    codec: &C,
    before: CacheView,
    merges: Option<Seq<MergeView>>,
    after: CacheView,
) -> bool {
    match merges {
        Some(m) => merges_applied(codec, m, before, after),
        None => after == before,
    }
}

/// The cache after a staged keep.
pub open spec fn keep_step(before: CacheView, compaction: Option<CompactionView>) -> CacheView {
    match compaction {
        Some(CompactionView::Keep(list)) => before.kept(list),
        Some(CompactionView::KeepPerHead(heads)) => before.kept_at(heads, longest(heads) as usize),
        _ => before,
    }
}

/// The recorder after a commit: a committed keep is recorded with the frame it was made in.
pub open spec fn record_step(
    before: RecorderView,
    c: CacheView,
    compaction: Option<CompactionView>,
    layer_idx: usize,
    n_layers: usize,
) -> RecorderView {
    match compaction {
        Some(CompactionView::Keep(list)) => before.recorded(
            Seq::new(
                if c.shape.kv_heads == 0 {
                    1
                } else {
                    c.shape.kv_heads as nat
                },
                |h: int| list,
            ),
            c.current_pos,
            c.shape.kv_heads,
            layer_idx,
            n_layers,
        ),
        Some(CompactionView::KeepPerHead(heads)) => before.recorded(
            heads,
            c.current_pos,
            c.shape.kv_heads,
            layer_idx,
            n_layers,
        ),
        _ => before,
    }
}

/// The move is to or from the swap.
pub open spec fn is_residency(compaction: Option<CompactionView>) -> bool {
    compaction matches Some(CompactionView::Offload(_)) || compaction matches Some(
        CompactionView::Recall,
    )
}

/// Bytes change without the move: a re-encode, or at least one merge.
pub open spec fn rewrites(staged: StagedView) -> bool {
    staged.reencode is Some || (staged.merges matches Some(m) && m.len() > 0)
}

impl<'a> EngineCacheHandle<'a> {
    /// The cache that the transaction reads: as it was when the transaction started.
    pub open spec fn frame(self) -> CacheView {
        self.cache@
    }

    /// The cache is well-formed and everything staged was checked against it.
    pub open spec fn wf(self) -> bool {
        &&& self.cache.wf()
        &&& staged_ok(self.cache@, self.staged@, self.swap is Some)
    }

    /// A transaction without a place to move tokens to.
    pub fn new(cache: &'a mut KVCache, layer_idx: usize, n_layers: usize) -> (r: Self)
        requires
            old(cache).wf(),
        ensures
            r.wf(),
            *r.cache == *old(cache),
            *final(r.cache) == *final(cache),
            r.layer_idx == layer_idx,
            r.n_layers == n_layers,
            r.swap is None,
            r.staged@ == (StagedView { merges: None, compaction: None, reencode: None }),
    {
        EngineCacheHandle {
            cache,
            layer_idx,
            n_layers,
            swap: None,
            staged: Staged { merges: None, compaction: None, reencode: None },
        }
    }

    /// A transaction that can move tokens to and from `swap`.
    pub fn with_swap(
        cache: &'a mut KVCache,
        layer_idx: usize,
        n_layers: usize,
        swap: &'a mut SwapHandler,
    ) -> (r: Self)
        requires
            old(cache).wf(),
        ensures
            r.wf(),
            *r.cache == *old(cache),
            *final(r.cache) == *final(cache),
            r.layer_idx == layer_idx,
            r.n_layers == n_layers,
            r.swap matches Some(s) && *s == *old(swap) && *final(s) == *final(swap),
            r.staged@ == (StagedView { merges: None, compaction: None, reencode: None }),
    {
        EngineCacheHandle {
            cache,
            layer_idx,
            n_layers,
            swap: Some(swap),
            staged: Staged { merges: None, compaction: None, reencode: None },
        }
    }

    /// The cursor of the frame.
    pub fn current_pos(&self) -> (r: usize)
        ensures
            r == self.frame().current_pos,
    {
        self.cache.current_pos()
    }

    pub fn n_kv_heads(&self) -> (r: usize)
        ensures
            r == self.frame().shape.kv_heads,
    {
        self.cache.kv_heads()
    }

    pub fn head_dim(&self) -> (r: usize)
        ensures
            r == self.frame().shape.head_dim,
    {
        self.cache.head_dim()
    }

    /// First resident position of `head`.
    pub fn head_start(&self, head: usize) -> (r: usize)
        requires
            self.wf(),
            head < self.cache@.shape.kv_heads,
        ensures
            r == self.frame().starts[head as int],
    {
        self.cache.head_start(head)
    }

    /// Whether the buffers are on a device.
    pub fn kv_on_device(&self) -> (r: bool)
        ensures
            r == self.frame().shape.on_device,
    {
        self.cache.on_device()
    }

    /// Checks that every position of an ascending list is resident in `head`.
    fn resident_in(&self, list: &Vec<usize>, head: usize) -> (r: bool)
        requires
            self.wf(),
            head < self.cache@.shape.kv_heads,
        ensures
            r == all_from(list@, self.frame().starts[head as int]),
    {
        let start: usize = self.cache.head_start(head);
        let mut i: usize = 0;
        while i < list.len()
            invariant
                i <= list@.len(),
                start == self.frame().starts[head as int],
                forall|j: int| 0 <= j < i ==> #[trigger] list@[j] >= start,
            decreases list@.len() - i,
        {
            if list[i] < start {
                return false;
            }
            i = i + 1;
        }
        true
    }

    /// Stages a layer-wide keep.
    pub fn keep(&mut self, keep: &Vec<usize>) -> (r: Result<(), CacheOpError>)
        requires
            old(self).wf(),
        ensures
            final(self).wf(),
            final(self).cache == old(self).cache,
            final(self).swap == old(self).swap,
            final(self).layer_idx == old(self).layer_idx,
            final(self).n_layers == old(self).n_layers,
            r == keep_answer(old(self).cache@, old(self).staged@, keep@),
            final(self).staged@ == (if r is Ok {
                StagedView { compaction: Some(CompactionView::Keep(keep@)), ..old(self).staged@ }
            } else {
                old(self).staged@
            }),
    {
        proof {
            self.cache.lemma_wf();
        }
        let frame: usize = self.cache.current_pos();
        if !keep_is_valid(keep, frame) {
            return Err(CacheOpError::InvalidKeep);
        }
        let heads: usize = self.cache.kv_heads();
        let mut h: usize = 0;
        while h < heads
            invariant
                h <= heads,
                heads == self.cache@.shape.kv_heads,
                *self == *old(self),
                self.wf(),
                self.cache@.wf(),
                keep_ok(keep@, self.cache@.current_pos as int),
                forall|x: int| 0 <= x < h ==> all_from(keep@, #[trigger] self.cache@.starts[x]),
            decreases heads - h,
        {
            if !self.resident_in(keep, h) {
                assert(!all_from(keep@, self.cache@.starts[h as int]));
                return Err(CacheOpError::NotResident);
            }
            h = h + 1;
        }
        if self.staged.compaction.is_some() {
            return Err(CacheOpError::MultipleCompactions);
        }
        let list = keep.clone();
        proof {
            assert(list@ =~= keep@);
        }
        self.staged.compaction = Some(Compaction::Keep(list));
        Ok(())
    }

    /// Stages a keep with one list per head. Lists of different lengths leave the heads
    /// right-aligned on the longest.
    pub fn keep_per_head(&mut self, keep: &Vec<Vec<usize>>) -> (r: Result<(), CacheOpError>)
        requires
            old(self).wf(),
        ensures
            final(self).wf(),
            final(self).cache == old(self).cache,
            final(self).swap == old(self).swap,
            final(self).layer_idx == old(self).layer_idx,
            final(self).n_layers == old(self).n_layers,
            r == keep_per_head_answer(old(self).cache@, old(self).staged@, keep.deep_view()),
            final(self).staged@ == (if r is Ok {
                StagedView {
                    compaction: Some(CompactionView::KeepPerHead(keep.deep_view())),
                    ..old(self).staged@
                }
            } else {
                old(self).staged@
            }),
    {
        let ghost lists = keep.deep_view();
        proof {
            self.cache.lemma_wf();
        }
        if self.cache.layout() != KVLayout::HeadMajor {
            return Err(CacheOpError::WrongContainer);
        }
        let heads: usize = self.cache.kv_heads();
        let frame: usize = self.cache.current_pos();
        if keep.len() != heads {
            return Err(CacheOpError::InvalidKeep);
        }
        let mut h: usize = 0;
        while h < heads
            invariant
                h <= heads,
                heads == keep@.len(),
                heads == self.cache@.shape.kv_heads,
                frame == self.cache@.current_pos,
                *self == *old(self),
                self.wf(),
                self.cache@.shape.layout == KVLayout::HeadMajor,
                lists == keep.deep_view(),
                forall|x: int| 0 <= x < h ==> keep_ok(#[trigger] lists[x], frame as int),
            decreases heads - h,
        {
            assert(lists[h as int] =~= keep@[h as int]@);
            if !keep_is_valid(&keep[h], frame) {
                assert(!keep_ok(lists[h as int], frame as int));
                return Err(CacheOpError::InvalidKeep);
            }
            h = h + 1;
        }
        h = 0;
        while h < heads
            invariant
                h <= heads,
                heads == keep@.len(),
                heads == self.cache@.shape.kv_heads,
                frame == self.cache@.current_pos,
                *self == *old(self),
                self.wf(),
                self.cache@.shape.layout == KVLayout::HeadMajor,
                lists == keep.deep_view(),
                lists_ok(lists, frame),
                forall|x: int|
                    0 <= x < h ==> all_from(#[trigger] lists[x], self.cache@.starts[x]),
            decreases heads - h,
        {
            assert(lists[h as int] =~= keep@[h as int]@);
            if !self.resident_in(&keep[h], h) {
                assert(!all_from(lists[h as int], self.cache@.starts[h as int]));
                return Err(CacheOpError::NotResident);
            }
            h = h + 1;
        }
        let cursor: usize = longest_list(keep);
        if !self.cache.supports_ragged() && !all_of_length(keep, cursor) {
            return Err(CacheOpError::WrongContainer);
        }
        if self.staged.compaction.is_some() {
            return Err(CacheOpError::MultipleCompactions);
        }
        self.staged.compaction = Some(Compaction::KeepPerHead(copy_lists(keep)));
        Ok(())
    }

    /// Stages a keep of the prefix, the heaviest and the most recent tokens. A rank list that is
    /// too short is refused as a list outside the frame would be.
    pub fn keep_top_k(&mut self, k: KeepTopK, ranks: &Vec<u64>) -> (r: Result<(), CacheOpError>)
        requires
            old(self).wf(),
        ensures
            final(self).wf(),
            final(self).cache == old(self).cache,
            final(self).swap == old(self).swap,
            final(self).layer_idx == old(self).layer_idx,
            final(self).n_layers == old(self).n_layers,
            ranks@.len() < k.current ==> r == Err::<(), CacheOpError>(CacheOpError::InvalidKeep)
                && final(self).staged@ == old(self).staged@,
            ranks@.len() >= k.current ==> exists|list: Seq<usize>|
                {
                    &&& crate::keep::ascending(list)
                    &&& forall|p: usize| #[trigger]
                        list.contains(p) <==> crate::keep::top_k_keeps(k, ranks@, p as int)
                    &&& r == #[trigger] keep_answer(old(self).cache@, old(self).staged@, list)
                    &&& final(self).staged@ == (if r is Ok {
                        StagedView {
                            compaction: Some(CompactionView::Keep(list)),
                            ..old(self).staged@
                        }
                    } else {
                        old(self).staged@
                    })
                },
    {
        match keep_top_k(k, ranks) {
            Some(list) => {
                let r = self.keep(&list);
                proof {
                    assert forall|p: usize| #[trigger]
                        list@.contains(p) <==> crate::keep::top_k_keeps(k, ranks@, p as int) by {
                        if list@.contains(p) {
                            let i = choose|i: int| 0 <= i < list@.len() && list@[i] == p;
                            assert(crate::keep::top_k_keeps(k, ranks@, list@[i] as int));
                        }
                    }
                    assert(r == keep_answer(old(self).cache@, old(self).staged@, list@));
                }
                r
            },
            None => Err(CacheOpError::InvalidKeep),
        }
    }

    /// Stages a keep of the positions that every list holds.
    pub fn keep_intersect_of(&mut self, lists: &Vec<Vec<usize>>) -> (r: Result<(), CacheOpError>)
        requires
            old(self).wf(),
        ensures
            final(self).wf(),
            final(self).cache == old(self).cache,
            final(self).swap == old(self).swap,
            final(self).layer_idx == old(self).layer_idx,
            final(self).n_layers == old(self).n_layers,
            exists|list: Seq<usize>|
                {
                    &&& crate::keep::ascending(list)
                    &&& forall|x: usize| #[trigger]
                        list.contains(x) <==> lists@.len() > 0 && crate::keep::in_all(
                            lists.deep_view(),
                            x,
                        )
                    &&& r == #[trigger] keep_answer(old(self).cache@, old(self).staged@, list)
                    &&& final(self).staged@ == (if r is Ok {
                        StagedView {
                            compaction: Some(CompactionView::Keep(list)),
                            ..old(self).staged@
                        }
                    } else {
                        old(self).staged@
                    })
                },
    {
        let list = keep_intersect_of(lists);
        let r = self.keep(&list);
        proof {
            assert(r == keep_answer(old(self).cache@, old(self).staged@, list@));
        }
        r
    }

    /// Stages a keep of the positions that some list holds.
    pub fn keep_union_of(&mut self, lists: &Vec<Vec<usize>>) -> (r: Result<(), CacheOpError>)
        requires
            old(self).wf(),
        ensures
            final(self).wf(),
            final(self).cache == old(self).cache,
            final(self).swap == old(self).swap,
            final(self).layer_idx == old(self).layer_idx,
            final(self).n_layers == old(self).n_layers,
            exists|list: Seq<usize>|
                {
                    &&& crate::keep::ascending(list)
                    &&& forall|x: usize| #[trigger]
                        list.contains(x) <==> crate::keep::in_some(lists.deep_view(), x)
                    &&& r == #[trigger] keep_answer(old(self).cache@, old(self).staged@, list)
                    &&& final(self).staged@ == (if r is Ok {
                        StagedView {
                            compaction: Some(CompactionView::Keep(list)),
                            ..old(self).staged@
                        }
                    } else {
                        old(self).staged@
                    })
                },
    {
        let list = keep_union_of(lists);
        let r = self.keep(&list);
        proof {
            assert(r == keep_answer(old(self).cache@, old(self).staged@, list@));
        }
        r
    }

    /// Stages weighted merges, once.
    pub fn merge(&mut self, merges: Vec<WeightedMerge>) -> (r: Result<(), CacheOpError>)
        requires
            old(self).wf(),
        ensures
            final(self).wf(),
            final(self).cache == old(self).cache,
            final(self).swap == old(self).swap,
            final(self).layer_idx == old(self).layer_idx,
            final(self).n_layers == old(self).n_layers,
            r == merge_answer(old(self).cache@, old(self).staged@, merge_views(merges@)),
            final(self).staged@ == (if r is Ok {
                StagedView { merges: Some(merge_views(merges@)), ..old(self).staged@ }
            } else {
                old(self).staged@
            }),
    {
        if self.cache.on_device() {
            return Err(CacheOpError::NotOnHost);
        }
        if self.staged.merges.is_some() {
            return Err(CacheOpError::MergeAlreadyStaged);
        }
        let frame: usize = self.cache.current_pos();
        let ghost views = merge_views(merges@);
        let mut i: usize = 0;
        while i < merges.len()
            invariant
                i <= merges@.len(),
                frame == self.cache@.current_pos,
                views == merge_views(merges@),
                *self == *old(self),
                self.wf(),
                !self.cache@.shape.on_device,
                self.staged@.merges is None,
                forall|x: int| 0 <= x < i ==> (#[trigger] views[x]).below(frame as int),
            decreases merges@.len() - i,
        {
            if !merge_inside(&merges[i], frame) {
                assert(!views[i as int].below(frame as int));
                return Err(CacheOpError::InvalidMerge);
            }
            i = i + 1;
        }
        self.staged.merges = Some(merges);
        Ok(())
    }

    /// Stages a re-encode; the last one staged counts. Asking for the format the cache already has
    /// withdraws an earlier one.
    pub fn reencode(&mut self, target: FormatId) -> (r: Result<(), CacheOpError>)
        requires
            old(self).wf(),
        ensures
            final(self).wf(),
            final(self).cache == old(self).cache,
            final(self).swap == old(self).swap,
            final(self).layer_idx == old(self).layer_idx,
            final(self).n_layers == old(self).n_layers,
            ({
                let shape = old(self).cache@.shape;
                let staged = old(self).staged@;
                if shape.on_device {
                    r == Err::<(), CacheOpError>(CacheOpError::NotOnHost) && final(self).staged@
                        == staged
                } else if shape.dtype == DType::U8 {
                    &&& r matches Err(CacheOpError::UnsupportedFormat(name)) && name@ == "unknown"@
                    &&& final(self).staged@ == staged
                } else {
                    match typed_format(target.0@) {
                        None => {
                            &&& r matches Err(CacheOpError::UnsupportedFormat(name)) && name@
                                == target.0@
                            &&& final(self).staged@ == staged
                        },
                        Some(t) => if t == shape.dtype {
                            r is Ok && final(self).staged@ == (StagedView {
                                reencode: None,
                                ..staged
                            })
                        } else if t == DType::Q4_0 && shape.head_dim % 32 != 0 {
                            &&& r matches Err(CacheOpError::UnsupportedFormat(name)) && name@
                                == target.0@
                            &&& final(self).staged@ == staged
                        } else {
                            r is Ok && final(self).staged@ == (StagedView {
                                reencode: Some(t),
                                ..staged
                            })
                        },
                    }
                }
            }),
    {
        if self.cache.on_device() {
            return Err(CacheOpError::NotOnHost);
        }
        let dtype = self.cache.kv_dtype();
        if dtype == DType::U8 {
            let name: &str = current_format_name(self.cache);
            return Err(CacheOpError::UnsupportedFormat(name.to_owned()));
        }
        match format_of(&target) {
            None => Err(CacheOpError::UnsupportedFormat(target.0)),
            Some(t) => {
                if t == dtype {
                    self.staged.reencode = None;
                    return Ok(());
                }
                if t == DType::Q4_0 && self.cache.head_dim() % QK4_0 != 0 {
                    return Err(CacheOpError::UnsupportedFormat(target.0));
                }
                self.staged.reencode = Some(t);
                Ok(())
            },
        }
    }

    /// A cache of one format has no bit-width to change.
    pub fn transition_quant_bits(&mut self, bits: u8) -> (r: Result<(), CacheOpError>)
        ensures
            *final(self) == *old(self),
            r == Err::<(), CacheOpError>(CacheOpError::WrongContainer),
    {
        Err(CacheOpError::WrongContainer)
    }

    /// The dimensions of a cache do not change.
    pub fn prune_channels(&mut self, channels: &Vec<usize>) -> (r: Result<(), CacheOpError>)
        ensures
            *final(self) == *old(self),
            r == Err::<(), CacheOpError>(CacheOpError::GeometryImmutable),
    {
        Err(CacheOpError::GeometryImmutable)
    }

    /// The dimensions of a cache do not change.
    pub fn set_head_dim(&mut self, head_dim: usize) -> (r: Result<(), CacheOpError>)
        ensures
            *final(self) == *old(self),
            r == Err::<(), CacheOpError>(CacheOpError::GeometryImmutable),
    {
        Err(CacheOpError::GeometryImmutable)
    }

    /// The dimensions of a cache do not change.
    pub fn project_rank(&mut self, rank: usize) -> (r: Result<(), CacheOpError>)
        ensures
            *final(self) == *old(self),
            r == Err::<(), CacheOpError>(CacheOpError::GeometryImmutable),
    {
        Err(CacheOpError::GeometryImmutable)
    }

    /// Stages moving the first `prefix_len` tokens out.
    pub fn offload(&mut self, prefix_len: usize) -> (r: Result<(), CacheOpError>)
        requires
            old(self).wf(),
        ensures
            final(self).wf(),
            final(self).cache == old(self).cache,
            final(self).swap == old(self).swap,
            final(self).layer_idx == old(self).layer_idx,
            final(self).n_layers == old(self).n_layers,
            r == residency_answer(old(self).swap is Some, old(self).staged@),
            final(self).staged@ == (if r is Ok {
                StagedView {
                    compaction: Some(CompactionView::Offload(prefix_len)),
                    ..old(self).staged@
                }
            } else {
                old(self).staged@
            }),
    {
        if self.swap.is_none() {
            return Err(CacheOpError::NoResidencyBackend);
        }
        if self.staged.compaction.is_some() {
            return Err(CacheOpError::MultipleCompactions);
        }
        self.staged.compaction = Some(Compaction::Offload(prefix_len));
        Ok(())
    }

    /// Stages moving the layer's latest prefix back.
    pub fn recall(&mut self) -> (r: Result<(), CacheOpError>)
        requires
            old(self).wf(),
        ensures
            final(self).wf(),
            final(self).cache == old(self).cache,
            final(self).swap == old(self).swap,
            final(self).layer_idx == old(self).layer_idx,
            final(self).n_layers == old(self).n_layers,
            r == residency_answer(old(self).swap is Some, old(self).staged@),
            final(self).staged@ == (if r is Ok {
                StagedView { compaction: Some(CompactionView::Recall), ..old(self).staged@ }
            } else {
                old(self).staged@
            }),
    {
        if self.swap.is_none() {
            return Err(CacheOpError::NoResidencyBackend);
        }
        if self.staged.compaction.is_some() {
            return Err(CacheOpError::MultipleCompactions);
        }
        self.staged.compaction = Some(Compaction::Recall);
        Ok(())
    }
}

/// The swap and the cache after a staged move to or from the swap; `n` tokens moved.
pub open spec fn residency_step(
    before: CacheView,
    out: Seq<RecordView>,
    compaction: Option<CompactionView>,
    layer_idx: usize,
    n: usize,
    after: CacheView,
    out_after: Seq<RecordView>,
) -> bool {
    match compaction {
        Some(CompactionView::Offload(prefix)) => !before.is_ragged() && offloaded(
            before,
            out,
            layer_idx,
            prefix,
            n,
            after,
            out_after,
        ),
        Some(CompactionView::Recall) => recall_refusal(before, out, layer_idx) is None && recalled(
            before,
            out,
            layer_idx,
            n,
            after,
            out_after,
        ),
        _ => false,
    }
}

/// Why a commit failed before it came to the move, and what it left: the re-encode failed and nothing
/// changed, or the merges stopped where the coder returned a blend in another width.
pub open spec fn rewrite_failed<C: RowCodec>(
    codec: &C,
    before: CacheView,
    staged: StagedView,
    after: CacheView,
    e: KvError,
) -> bool {
    ||| staged.reencode matches Some(target) && reencode_failed(codec, before, target, e) && after
        == before
    ||| exists|c1: CacheView|
        {
            &&& #[trigger] reencode_step(codec, before, staged.reencode, c1)
            &&& e == KvError::CodecShape
            &&& staged.merges matches Some(m) && merges_stopped(codec, m, c1, after)
        }
}

/// Why a move to or from the swap failed: nothing is moved, and what came before it stays.
pub open spec fn residency_failed<C: RowCodec>(
    codec: &C,
    before: CacheView,
    out: Seq<RecordView>,
    staged: StagedView,
    layer_idx: usize,
    after: CacheView,
    e: KvError,
) -> bool {
    exists|c1: CacheView|
        {
            &&& #[trigger] reencode_step(codec, before, staged.reencode, c1)
            &&& merge_step(codec, c1, staged.merges, after)
            &&& match staged.compaction {
                Some(CompactionView::Offload(_)) => after.is_ragged() && e == KvError::Ragged,
                Some(CompactionView::Recall) => recall_refusal(after, out, layer_idx) == Some(e),
                _ => false,
            }
        }
}

/// What a commit that moves nothing to or from the swap did.
pub open spec fn committed<C: RowCodec>(
    codec: &C,
    before: CacheView,
    staged: StagedView,
    after: CacheView,
    changed: bool,
) -> bool {
    &&& changed == (rewrites(staged) || staged.compaction is Some)
    &&& exists|c1: CacheView, c2: CacheView|
        {
            &&& #[trigger] reencode_step(codec, before, staged.reencode, c1)
            &&& #[trigger] merge_step(codec, c1, staged.merges, c2)
            &&& after == keep_step(c2, staged.compaction)
        }
}

/// What a commit that moves tokens to or from the swap did.
pub open spec fn committed_residency<C: RowCodec>(
    codec: &C,
    before: CacheView,
    out: Seq<RecordView>,
    staged: StagedView,
    layer_idx: usize,
    after: CacheView,
    out_after: Seq<RecordView>,
    changed: bool,
) -> bool {
    exists|c1: CacheView, c2: CacheView, n: usize|
        {
            &&& #[trigger] reencode_step(codec, before, staged.reencode, c1)
            &&& #[trigger] merge_step(codec, c1, staged.merges, c2)
            &&& #[trigger] residency_step(
                c2,
                out,
                staged.compaction,
                layer_idx,
                n,
                after,
                out_after,
            )
            &&& changed == (rewrites(staged) || n > 0)
        }
}

impl<'a> EngineCacheHandle<'a> {
    /// Applies what is staged, in order: the re-encode, the merges, the move. Returns whether bytes
    /// changed. A committed keep is recorded before it moves anything. Only the coder and the swap
    /// can make a commit fail; a commit that asks one of them for one thing then leaves the cache as
    /// it was.
    pub fn commit<C: RowCodec>(self, codec: &C, recorder: &mut KeepsetDump) -> (r: Result<
        bool,
        KvError,
    >)
        requires
            self.wf(),
            old(recorder).wf(),
        ensures
            final(self.cache).wf(),
            final(recorder).wf(),
            !is_residency(self.staged@.compaction) ==> (r matches Ok(changed) ==> committed(
                codec,
                self.frame(),
                self.staged@,
                final(self.cache)@,
                changed,
            )),
            is_residency(self.staged@.compaction) ==> (r matches Ok(changed) ==> committed_residency(
                codec,
                self.frame(),
                old(self.swap->0)@,
                self.staged@,
                self.layer_idx,
                final(self.cache)@,
                final(self.swap->0)@,
                changed,
            )),
            r matches Err(e) ==> rewrite_failed(
                codec,
                self.frame(),
                self.staged@,
                final(self.cache)@,
                e,
            ) || (is_residency(self.staged@.compaction) && residency_failed(
                codec,
                self.frame(),
                old(self.swap->0)@,
                self.staged@,
                self.layer_idx,
                final(self.cache)@,
                e,
            )),
            r is Err && self.swap is Some ==> final(self.swap->0)@ == old(self.swap->0)@,
            r is Ok ==> final(recorder)@ == record_step(
                old(recorder)@,
                self.frame(),
                self.staged@.compaction,
                self.layer_idx,
                self.n_layers,
            ),
            r is Err ==> final(recorder)@ == old(recorder)@,
            !is_residency(self.staged@.compaction) && self.swap is Some ==> final(self.swap->0)@
                == old(self.swap->0)@,
    {
        let EngineCacheHandle { cache, layer_idx, n_layers, swap, staged } = self;
        let Staged { merges, compaction, reencode } = staged;
        let ghost before = cache@;
        let mut changed: bool = false;
        proof {
            cache.lemma_wf();
        }
        if let Some(target) = reencode {
            reencode_cache(cache, codec, target)?;
            changed = true;
        }
        let ghost c1 = cache@;
        proof {
            cache.lemma_wf();
            assert(reencode_step(codec, before, reencode, c1));
        }
        match &merges {
            Some(list) => {
                proof {
                    assert forall|i: int| 0 <= i < list@.len() implies (
                    #[trigger] list@[i])@.below(cache@.shape.capacity as int) by {
                        assert(merge_views(list@)[i].below(before.current_pos as int));
                    }
                }
                apply_weighted_merges(cache, codec, list)?;
                if list.len() > 0 {
                    changed = true;
                }
            },
            None => {},
        }
        let ghost c2 = cache@;
        proof {
            cache.lemma_wf();
            assert(merge_step(codec, c1, self.staged@.merges, c2));
            assert(c2.current_pos == before.current_pos);
            assert(c2.shape.kv_heads == before.shape.kv_heads);
            assert(changed == rewrites(self.staged@));
        }
        match compaction {
            Some(Compaction::Keep(list)) => {
                let spec = KeepSpec::LayerWide(list);
                if recorder.is_active() {
                    recorder.record(cache, &spec, layer_idx, n_layers);
                }
                if let KeepSpec::LayerWide(list) = &spec {
                    match cache.compact_keep_positions(list, 0) {
                        Ok(()) => {},
                        Err(e) => {
                            proof {
                                lemma_ascending_fits(list@, before.current_pos as int);
                                assert(false);
                            }
                            return Err(e);
                        },
                    }
                    proof {
                        lemma_ascending_fits(list@, before.current_pos as int);
                    }
                    cache.set_current_pos(list.len());
                    proof {
                        let kept = c2.kept(list@);
                        assert(cache@.keys =~= kept.keys);
                        assert(cache@.values =~= kept.values);
                        assert(cache@.starts =~= kept.starts);
                        assert(cache@ =~= kept);
                        assert(head_lists(spec, before.shape.kv_heads) =~= Seq::new(
                            if before.shape.kv_heads == 0 {
                                1
                            } else {
                                before.shape.kv_heads as nat
                            },
                            |h: int| list@,
                        ));
                    }
                }
                proof {
                    assert(old(recorder)@ =~= old(recorder)@.recorded(
                        head_lists(spec, before.shape.kv_heads),
                        before.current_pos,
                        before.shape.kv_heads,
                        layer_idx,
                        n_layers,
                    ) || old(recorder)@.active());
                }
                Ok(true)
            },
            Some(Compaction::KeepPerHead(heads)) => {
                let ghost lists = heads.deep_view();
                let cursor: usize = longest_list(&heads);
                proof {
                    lemma_longest_bounds(lists);
                    if lists.len() > 0 {
                        let h = choose|h: int|
                            0 <= h < lists.len() && (#[trigger] lists[h]).len() == longest(lists);
                        assert(keep_ok(lists[h], before.current_pos as int));
                        lemma_ascending_fits(lists[h], before.current_pos as int);
                    }
                    assert(keep_heads_ok(c2, lists, cursor));
                }
                let spec = KeepSpec::PerHead(heads);
                if recorder.is_active() {
                    recorder.record(cache, &spec, layer_idx, n_layers);
                }
                if let KeepSpec::PerHead(heads) = &spec {
                    match cache.keep_heads_at(heads, cursor) {
                        Ok(()) => {},
                        Err(e) => {
                            assert(false);
                            return Err(e);
                        },
                    }
                }
                proof {
                    assert(old(recorder)@ =~= old(recorder)@.recorded(
                        head_lists(spec, before.shape.kv_heads),
                        before.current_pos,
                        before.shape.kv_heads,
                        layer_idx,
                        n_layers,
                    ) || old(recorder)@.active());
                }
                Ok(true)
            },
            Some(Compaction::Offload(prefix)) => {
                match swap {
                    Some(s) => {
                        let ghost out = s@;
                        let n: usize = s.offload_prefix(layer_idx, cache, prefix)?;
                        proof {
                            assert(residency_step(
                                c2,
                                out,
                                self.staged@.compaction,
                                layer_idx,
                                n,
                                cache@,
                                s@,
                            ));
                        }
                        Ok(changed || n > 0)
                    },
                    None => {
                        assert(false);
                        Err(KvError::NotResident)
                    },
                }
            },
            Some(Compaction::Recall) => {
                match swap {
                    Some(s) => {
                        let ghost out = s@;
                        let n: usize = s.recall_layer(layer_idx, cache)?;
                        proof {
                            assert(residency_step(
                                c2,
                                out,
                                self.staged@.compaction,
                                layer_idx,
                                n,
                                cache@,
                                s@,
                            ));
                        }
                        Ok(changed || n > 0)
                    },
                    None => {
                        assert(false);
                        Err(KvError::NotResident)
                    },
                }
            },
            None => Ok(changed),
        }
    }
}

/// An ascending list inside a frame is no longer than the frame.
pub(crate) proof fn lemma_ascending_fits(list: Seq<usize>, frame: int)
    requires
        keep_ok(list, frame),
        0 <= frame,
    ensures
        list.len() <= frame,
        forall|i: int| 0 <= i < list.len() ==> #[trigger] list[i] >= i,
    decreases list.len(),
{
    if list.len() > 0 {
        let init = list.drop_last();
        assert forall|i: int| 0 <= i < init.len() implies #[trigger] init[i] < list.last() by {
            assert(list[i] < list[list.len() - 1]);
        }
        assert forall|i: int, j: int| 0 <= i < j < init.len() implies #[trigger] init[i]
            < #[trigger] init[j] by {
            assert(list[i] < list[j]);
        }
        lemma_ascending_fits(init, list.last() as int);
        assert forall|i: int| 0 <= i < list.len() implies #[trigger] list[i] >= i by {
            if i < init.len() {
                assert(init[i] >= i);
            }
        }
        assert(list[list.len() - 1] < frame);
    }
}

/// What the answer to a request to move tokens out or back is.
pub open spec fn residency_answer(has_swap: bool, staged: StagedView) -> Result<(), CacheOpError> {
    if !has_swap {
        Err(CacheOpError::NoResidencyBackend)
    } else if staged.compaction is Some {
        Err(CacheOpError::MultipleCompactions)
    } else {
        Ok(())
    }
}

/// Whether a merge names positions of the frame only.
fn merge_inside(m: &WeightedMerge, frame: usize) -> (r: bool)
    ensures
        r == m@.below(frame as int),
{
    if m.into >= frame {
        return false;
    }
    let mut i: usize = 0;
    while i < m.from.len()
        invariant
            i <= m.from@.len(),
            m.into < frame,
            forall|j: int| 0 <= j < i ==> (#[trigger] m@.from[j]).0 < frame,
        decreases m.from@.len() - i,
    {
        if m.from[i].0 >= frame {
            assert(!(m@.from[i as int].0 < frame));
            return false;
        }
        i = i + 1;
    }
    true
}

/// The length of the longest list.
pub fn longest_list(lists: &Vec<Vec<usize>>) -> (n: usize)
    ensures
        n == longest(lists.deep_view()),
{
    let ghost views = lists.deep_view();
    let mut n: usize = 0;
    let mut i: usize = 0;
    proof {
        assert(views.take(0).len() == 0);
    }
    while i < lists.len()
        invariant
            i <= lists@.len(),
            views == lists.deep_view(),
            n == longest(views.take(i as int)),
        decreases lists@.len() - i,
    {
        let len: usize = lists[i].len();
        proof {
            assert(views[i as int] =~= lists@[i as int]@);
            let next = views.take(i + 1);
            assert(next.drop_last() =~= views.take(i as int));
        }
        if len > n {
            n = len;
        }
        i = i + 1;
    }
    proof {
        assert(views.take(i as int) =~= views);
    }
    n
}

/// Whether every list has `n` entries.
fn all_of_length(lists: &Vec<Vec<usize>>, n: usize) -> (r: bool)
    ensures
        r == (forall|h: int| 0 <= h < lists.deep_view().len() ==> (
        #[trigger] lists.deep_view()[h]).len() == n),
{
    let ghost views = lists.deep_view();
    let mut i: usize = 0;
    while i < lists.len()
        invariant
            i <= lists@.len(),
            views == lists.deep_view(),
            forall|h: int| 0 <= h < i ==> (#[trigger] views[h]).len() == n,
        decreases lists@.len() - i,
    {
        assert(views[i as int] =~= lists@[i as int]@);
        if lists[i].len() != n {
            assert(views[i as int].len() != n);
            return false;
        }
        i = i + 1;
    }
    true
}

/// Why one list per head cannot be kept on a cursor, if they cannot: unless there is one ascending
/// list per head inside the frame, no list names a hole, and the cursor is no lower than the longest
/// list, no higher than the frame, and equal to every list's length where heads cannot differ.
pub open spec fn keep_at_refusal(c: CacheView, heads: Seq<Seq<usize>>, cursor: usize) -> Option<
    KvError,
> {
    if !head_lists_ok(c, heads) {
        Some(KvError::InvalidKeep)
    } else if !resident_per_head(c, heads) {
        Some(KvError::NotResident)
    } else if !keep_heads_ok(c, heads, cursor) {
        Some(KvError::InvalidCursor)
    } else {
        None
    }
}

/// Why one list per head cannot be kept on a cursor, if they cannot.
pub fn check_keep_at(cache: &KVCache, keep: &Vec<Vec<usize>>, cursor: usize) -> (r: Option<KvError>)
    requires
        cache.wf(),
    ensures
        r == keep_at_refusal(cache@, keep.deep_view(), cursor),
{
    let ghost lists = keep.deep_view();
    proof {
        cache.lemma_wf();
    }
    let frame: usize = cache.current_pos();
    let heads: usize = cache.kv_heads();
    if keep.len() != heads {
        return Some(KvError::InvalidKeep);
    }
    let mut h: usize = 0;
    while h < heads
        invariant
            h <= heads,
            heads == keep@.len(),
            heads == cache@.shape.kv_heads,
            frame == cache@.current_pos,
            lists == keep.deep_view(),
            forall|x: int| 0 <= x < h ==> keep_ok(#[trigger] lists[x], frame as int),
        decreases heads - h,
    {
        assert(lists[h as int] =~= keep@[h as int]@);
        if !keep_is_valid(&keep[h], frame) {
            assert(!keep_ok(lists[h as int], frame as int));
            return Some(KvError::InvalidKeep);
        }
        h = h + 1;
    }
    h = 0;
    while h < heads
        invariant
            h <= heads,
            heads == keep@.len(),
            heads == cache@.shape.kv_heads,
            frame == cache@.current_pos,
            cache.wf(),
            lists == keep.deep_view(),
            head_lists_ok(cache@, lists),
            forall|x: int| 0 <= x < h ==> all_from(#[trigger] lists[x], cache@.starts[x]),
        decreases heads - h,
    {
        assert(lists[h as int] =~= keep@[h as int]@);
        let start: usize = cache.head_start(h);
        if keep[h].len() > 0 && keep[h][0] < start {
            assert(lists[h as int][0] < start);
            assert(!all_from(lists[h as int], cache@.starts[h as int]));
            return Some(KvError::NotResident);
        }
        proof {
            assert(keep_ok(lists[h as int], frame as int));
            assert forall|i: int| 0 <= i < lists[h as int].len() implies #[trigger] lists[h as int][i]
                >= start by {
                if i > 0 {
                    assert(lists[h as int][0] < lists[h as int][i]);
                }
            }
        }
        h = h + 1;
    }
    if cursor > frame {
        return Some(KvError::InvalidCursor);
    }
    let ragged_ok: bool = cache.supports_ragged();
    h = 0;
    while h < heads
        invariant
            h <= heads,
            heads == keep@.len(),
            heads == cache@.shape.kv_heads,
            lists == keep.deep_view(),
            head_lists_ok(cache@, lists),
            resident_per_head(cache@, lists),
            ragged_ok == cache@.shape.spec_supports_ragged(),
            cursor <= cache@.current_pos,
            forall|x: int|
                0 <= x < h ==> {
                    &&& (#[trigger] lists[x]).len() <= cursor
                    &&& (!ragged_ok ==> lists[x].len() == cursor)
                },
        decreases heads - h,
    {
        assert(lists[h as int] =~= keep@[h as int]@);
        let n: usize = keep[h].len();
        if n > cursor || (!ragged_ok && n != cursor) {
            assert(!keep_heads_ok(cache@, lists, cursor));
            return Some(KvError::InvalidCursor);
        }
        h = h + 1;
    }
    None
}

/// Keeps one list per head, right-aligned on a cursor of the caller's choice, and records the keep.
/// A refused keep moves and records nothing.
pub fn apply_per_head_keep_at(
    cache: &mut KVCache,
    recorder: &mut KeepsetDump,
    layer_idx: usize,
    n_layers: usize,
    keep: &Vec<Vec<usize>>,
    cursor: usize,
) -> (r: Result<(), KvError>)
    requires
        old(cache).wf(),
        old(recorder).wf(),
    ensures
        final(cache).wf(),
        final(recorder).wf(),
        match keep_at_refusal(old(cache)@, keep.deep_view(), cursor) {
            Some(e) => r == Err::<(), KvError>(e),
            None => r is Ok,
        },
        r is Ok ==> final(cache)@ == old(cache)@.kept_at(keep.deep_view(), cursor) && final(
            recorder)@ == old(recorder)@.recorded(
            keep.deep_view(),
            old(cache)@.current_pos,
            old(cache)@.shape.kv_heads,
            layer_idx,
            n_layers,
        ),
        r is Err ==> final(cache)@ == old(cache)@ && final(recorder)@ == old(recorder)@,
{
    if let Some(e) = check_keep_at(cache, keep, cursor) {
        return Err(e);
    }
    let frame: usize = cache.current_pos();
    let heads: usize = cache.kv_heads();
    cache.keep_heads_at(keep, cursor)?;
    let spec = KeepSpec::PerHead(copy_lists(keep));
    recorder.record_frame(frame, heads, &spec, layer_idx, n_layers);
    Ok(())
}

/// A keep on its own moves rows and rewrites none: whatever the coder, every kept row has the bytes
/// it had.
pub proof fn lemma_keep_preserves_bytes<C: RowCodec>(
    codec: &C,
    before: CacheView,
    list: Seq<usize>,
    after: CacheView,
    changed: bool,
)
    requires
        before.wf(),
        keep_ok(list, before.current_pos as int),
        committed(
            codec,
            before,
            StagedView {
                merges: None,
                compaction: Some(CompactionView::Keep(list)),
                reencode: None,
            },
            after,
            changed,
        ),
    ensures
        changed,
        after == before.kept(list),
        after.current_pos == list.len(),
        forall|h: int, i: int|
            0 <= h < before.shape.kv_heads && 0 <= i < list.len() ==> #[trigger] after.keys[h][i]
                == before.keys[h][list[i] as int] && after.values[h][i]
                == before.values[h][list[i] as int],
{
    lemma_ascending_fits(list, before.current_pos as int);
    assert forall|h: int, i: int|
        0 <= h < before.shape.kv_heads && 0 <= i
            < list.len() implies #[trigger] after.keys[h][i] == before.keys[h][list[i] as int]
        && after.values[h][i] == before.values[h][list[i] as int] by {
        assert(before.plane(crate::kv_cache::Side::Key)[h].len() == before.shape.capacity);
        assert(before.plane(crate::kv_cache::Side::Value)[h].len() == before.shape.capacity);
    }
}

/// Merges come before the keep: a kept token that no merge targets comes through a commit of merges
/// and a keep with the bytes it had.
pub proof fn lemma_merge_then_keep<C: RowCodec>(
    codec: &C,
    before: CacheView,
    merges: Seq<MergeView>,
    list: Seq<usize>,
    after: CacheView,
    changed: bool,
    h: int,
    i: int,
)
    requires
        before.wf(),
        merges_inside(merges, before.current_pos),
        keep_ok(list, before.current_pos as int),
        committed(
            codec,
            before,
            StagedView {
                merges: Some(merges),
                compaction: Some(CompactionView::Keep(list)),
                reencode: None,
            },
            after,
            changed,
        ),
        0 <= h < before.shape.kv_heads,
        0 <= i < list.len(),
        forall|m: int| 0 <= m < merges.len() ==> (#[trigger] merges[m]).into != list[i],
    ensures
        after.current_pos == list.len(),
        after.keys[h][i] == before.keys[h][list[i] as int],
        after.values[h][i] == before.values[h][list[i] as int],
{
    let staged = StagedView {
        merges: Some(merges),
        compaction: Some(CompactionView::Keep(list)),
        reencode: None,
    };
    let (c1, c2) = choose|c1: CacheView, c2: CacheView|
        {
            &&& #[trigger] reencode_step(codec, before, staged.reencode, c1)
            &&& #[trigger] merge_step(codec, c1, staged.merges, c2)
            &&& after == keep_step(c2, staged.compaction)
        };
    assert(c1 == before);
    lemma_ascending_fits(list, before.current_pos as int);
    assert forall|m: int| 0 <= m < merges.len() implies (#[trigger] merges[m]).below(
        before.shape.capacity as int,
    ) by {
        assert(merges[m].below(before.current_pos as int));
    }
    lemma_merges_touch_only_targets(codec, merges, before, c2, h, list[i] as int);
    assert(before.plane(crate::kv_cache::Side::Key)[h].len() == before.shape.capacity);
    assert(before.plane(crate::kv_cache::Side::Value)[h].len() == before.shape.capacity);
}

/// A commit that moves nothing to or from the swap never grows a layer: the cursor stays, or falls
/// to the length of the keep.
pub proof fn lemma_commit_never_grows<C: RowCodec>(
    codec: &C,
    before: CacheView,
    staged: StagedView,
    after: CacheView,
    changed: bool,
)
    requires
        before.wf(),
        staged_ok(before, staged, false),
        committed(codec, before, staged, after, changed),
    ensures
        after.current_pos <= before.current_pos,
        after.current_pos == match staged.compaction {
            Some(CompactionView::Keep(list)) => list.len(),
            Some(CompactionView::KeepPerHead(heads)) => longest(heads),
            _ => before.current_pos as nat,
        },
{
    let (c1, c2) = choose|c1: CacheView, c2: CacheView|
        {
            &&& #[trigger] reencode_step(codec, before, staged.reencode, c1)
            &&& #[trigger] merge_step(codec, c1, staged.merges, c2)
            &&& after == keep_step(c2, staged.compaction)
        };
    if let Some(m) = staged.merges {
        lemma_merges_move_nothing(codec, m, c1, c2);
    }
    match staged.compaction {
        Some(CompactionView::Keep(list)) => {
            lemma_ascending_fits(list, before.current_pos as int);
        },
        Some(CompactionView::KeepPerHead(heads)) => {
            lemma_longest_bounds(heads);
            if heads.len() > 0 {
                let h = choose|h: int|
                    0 <= h < heads.len() && (#[trigger] heads[h]).len() == longest(heads);
                assert(keep_ok(heads[h], before.current_pos as int));
                lemma_ascending_fits(heads[h], before.current_pos as int);
            }
        },
        _ => {},
    }
}

/// At most one request that moves positions is staged: with one staged, every other one is refused.
pub proof fn lemma_second_move_is_refused(
    c: CacheView,
    staged: StagedView,
    list: Seq<usize>,
    heads: Seq<Seq<usize>>,
    has_swap: bool,
)
    requires
        staged.compaction is Some,
    ensures
        keep_answer(c, staged, list) is Err,
        keep_per_head_answer(c, staged, heads) is Err,
        residency_answer(has_swap, staged) is Err,
{
}

/// Keeping one list in every head is keeping it in the layer, whatever else is staged: the same
/// requests are accepted, and one commit does what the other does. Without a re-encode and merges both
/// leave the same cache, its heads in step at the list's length.
pub proof fn lemma_equal_heads_commit_is_layer_wide<C: RowCodec>(
    codec: &C,
    c: CacheView,
    staged: StagedView,
    list: Seq<usize>,
    heads: Seq<Seq<usize>>,
    after: CacheView,
    changed: bool,
)
    requires
        c.wf(),
        c.shape.layout == KVLayout::HeadMajor,
        c.shape.kv_heads > 0,
        heads == Seq::new(c.shape.kv_heads as nat, |h: int| list),
    ensures
        keep_per_head_answer(c, staged, heads) == keep_answer(c, staged, list),
        ({
            let per_head = StagedView {
                compaction: Some(CompactionView::KeepPerHead(heads)),
                ..staged
            };
            let layer_wide = StagedView { compaction: Some(CompactionView::Keep(list)), ..staged };
            &&& committed(codec, c, per_head, after, changed) == committed(
                codec,
                c,
                layer_wide,
                after,
                changed,
            )
            &&& committed(codec, c, per_head, after, changed) && staged.reencode is None
                && staged.merges is None && keep_ok(list, c.current_pos as int) ==> {
                &&& after == c.kept(list)
                &&& after.current_pos == list.len()
                &&& !after.is_ragged()
                &&& changed
            }
        }),
{
    lemma_longest_bounds(heads);
    assert(heads[0] == list);
    let h = choose|h: int| 0 <= h < heads.len() && (#[trigger] heads[h]).len() == longest(heads);
    assert(longest(heads) == list.len());
    assert(lists_ok(heads, c.current_pos) == keep_ok(list, c.current_pos as int));
    assert(resident_per_head(c, heads) == resident_in_all(c, list)) by {
        if resident_per_head(c, heads) {
            assert forall|g: int| 0 <= g < c.starts.len() implies all_from(
                list,
                #[trigger] c.starts[g],
            ) by {
                assert(all_from(heads[g], c.starts[g]));
            }
        }
        if resident_in_all(c, list) {
            assert forall|g: int| 0 <= g < heads.len() implies all_from(
                #[trigger] heads[g],
                c.starts[g],
            ) by {}
        }
    }
    assert(equal_lengths(heads));
    let per_head = StagedView { compaction: Some(CompactionView::KeepPerHead(heads)), ..staged };
    let layer_wide = StagedView { compaction: Some(CompactionView::Keep(list)), ..staged };
    assert forall|c1: CacheView, c2: CacheView|
        #[trigger] reencode_step(codec, c, staged.reencode, c1) && #[trigger] merge_step(
            codec,
            c1,
            staged.merges,
            c2,
        ) implies keep_step(c2, per_head.compaction) == keep_step(c2, layer_wide.compaction) by {
        if staged.merges is Some {
            lemma_merges_move_nothing(codec, staged.merges->0, c1, c2);
        }
        assert(c2.shape.kv_heads == c.shape.kv_heads);
        assert(heads =~= Seq::new(c2.shape.kv_heads as nat, |h: int| list));
    }
    if committed(codec, c, per_head, after, changed) {
        let (c1, c2) = choose|c1: CacheView, c2: CacheView|
            {
                &&& #[trigger] reencode_step(codec, c, staged.reencode, c1)
                &&& #[trigger] merge_step(codec, c1, staged.merges, c2)
                &&& after == keep_step(c2, per_head.compaction)
            };
        assert(after == keep_step(c2, layer_wide.compaction));
        if keep_ok(list, c.current_pos as int) {
            lemma_ascending_fits(list, c.current_pos as int);
            lemma_equal_heads_keep_is_layer_wide(c, heads, list);
        }
    }
    if committed(codec, c, layer_wide, after, changed) {
        let (c1, c2) = choose|c1: CacheView, c2: CacheView|
            {
                &&& #[trigger] reencode_step(codec, c, staged.reencode, c1)
                &&& #[trigger] merge_step(codec, c1, staged.merges, c2)
                &&& after == keep_step(c2, layer_wide.compaction)
            };
        assert(after == keep_step(c2, per_head.compaction));
    }
}

/// Committing with nothing staged changes nothing and says so.
pub proof fn lemma_empty_commit_changes_nothing<C: RowCodec>(
    codec: &C,
    before: CacheView,
    after: CacheView,
    changed: bool,
)
    requires
        committed(
            codec,
            before,
            StagedView { merges: None, compaction: None, reencode: None },
            after,
            changed,
        ),
    ensures
        after == before,
        !changed,
{
}

/// When a keep is accepted: exactly where no move is staged, the positions ascend, each is in the
/// frame, and each is at or past the start of every head.
pub proof fn lemma_when_a_keep_is_accepted(c: CacheView, staged: StagedView, list: Seq<usize>)
    requires
        c.wf(),
    ensures
        keep_answer(c, staged, list) is Ok <==> {
            &&& staged.compaction is None
            &&& forall|i: int, j: int|
                0 <= i < j < list.len() ==> #[trigger] list[i] < #[trigger] list[j]
            &&& forall|i: int| 0 <= i < list.len() ==> #[trigger] list[i] < c.current_pos
            &&& forall|h: int, i: int|
                0 <= h < c.shape.kv_heads && 0 <= i < list.len() ==> #[trigger] list[i]
                    >= #[trigger] c.starts[h]
        },
{
    if keep_answer(c, staged, list) is Ok {
        assert forall|h: int, i: int|
            0 <= h < c.shape.kv_heads && 0 <= i < list.len() implies #[trigger] list[i]
            >= #[trigger] c.starts[h] by {
            assert(all_from(list, c.starts[h]));
        }
    }
}

/// When a keep per head is accepted: exactly where no move is staged, the store is laid out head after
/// head, there is a list for each head, every list ascends within its head's resident positions, and
/// the lists are of one length unless heads may differ.
pub proof fn lemma_when_a_per_head_keep_is_accepted(
    c: CacheView,
    staged: StagedView,
    heads: Seq<Seq<usize>>,
)
    requires
        c.wf(),
    ensures
        keep_per_head_answer(c, staged, heads) is Ok <==> {
            &&& staged.compaction is None
            &&& c.shape.layout == KVLayout::HeadMajor
            &&& heads.len() == c.shape.kv_heads
            &&& forall|h: int, i: int, j: int|
                0 <= h < heads.len() && 0 <= i < j < heads[h].len() ==> #[trigger] heads[h][i]
                    < #[trigger] heads[h][j]
            &&& forall|h: int, i: int|
                0 <= h < heads.len() && 0 <= i < heads[h].len() ==> c.starts[h]
                    <= #[trigger] heads[h][i] < c.current_pos
            &&& c.shape.opaque is None || forall|h: int, g: int|
                0 <= h < heads.len() && 0 <= g < heads.len() ==> (#[trigger] heads[h]).len() == (
                #[trigger] heads[g]).len()
        },
{
    lemma_longest_bounds(heads);
    if keep_per_head_answer(c, staged, heads) is Ok {
        assert forall|h: int, i: int, j: int|
            0 <= h < heads.len() && 0 <= i < j < heads[h].len() implies #[trigger] heads[h][i]
            < #[trigger] heads[h][j] by {
            assert(keep_ok(heads[h], c.current_pos as int));
        }
        assert forall|h: int, i: int|
            0 <= h < heads.len() && 0 <= i < heads[h].len() implies c.starts[h]
            <= #[trigger] heads[h][i] < c.current_pos by {
            assert(keep_ok(heads[h], c.current_pos as int));
            assert(all_from(heads[h], c.starts[h]));
        }
    } else if staged.compaction is None && c.shape.layout == KVLayout::HeadMajor && heads.len()
        == c.shape.kv_heads && (forall|h: int, i: int, j: int|
        0 <= h < heads.len() && 0 <= i < j < heads[h].len() ==> #[trigger] heads[h][i]
            < #[trigger] heads[h][j]) && (forall|h: int, i: int|
        0 <= h < heads.len() && 0 <= i < heads[h].len() ==> c.starts[h] <= #[trigger] heads[h][i]
            < c.current_pos) {
        assert forall|h: int| 0 <= h < heads.len() implies keep_ok(
            #[trigger] heads[h],
            c.current_pos as int,
        ) by {}
        assert forall|h: int| 0 <= h < heads.len() implies all_from(
            #[trigger] heads[h],
            c.starts[h],
        ) by {}
        if heads.len() > 0 {
            let x = choose|x: int|
                0 <= x < heads.len() && (#[trigger] heads[x]).len() == longest(heads);
            if !equal_lengths(heads) {
                let y = choose|y: int|
                    0 <= y < heads.len() && (#[trigger] heads[y]).len() != longest(heads);
                assert(heads[x].len() != heads[y].len());
            }
        }
    }
}

/// When merges are accepted: exactly on the host, once, and with every position they name in the frame.
/// A move to or from the swap is accepted exactly where there is a swap and no move is staged.
pub proof fn lemma_when_merges_and_moves_are_accepted(
    c: CacheView,
    staged: StagedView,
    merges: Seq<MergeView>,
    has_swap: bool,
)
    ensures
        merge_answer(c, staged, merges) is Ok <==> {
            &&& !c.shape.on_device
            &&& staged.merges is None
            &&& forall|m: int|
                0 <= m < merges.len() ==> (#[trigger] merges[m]).into < c.current_pos
            &&& forall|m: int, i: int|
                0 <= m < merges.len() && 0 <= i < merges[m].from.len() ==> (
                #[trigger] merges[m].from[i]).0 < c.current_pos
        },
        residency_answer(has_swap, staged) is Ok <==> has_swap && staged.compaction is None,
{
    if merge_answer(c, staged, merges) is Ok {
        assert forall|m: int| 0 <= m < merges.len() implies (#[trigger] merges[m]).into
            < c.current_pos by {
            assert(merges[m].below(c.current_pos as int));
        }
        assert forall|m: int, i: int|
            0 <= m < merges.len() && 0 <= i < merges[m].from.len() implies (
        #[trigger] merges[m].from[i]).0 < c.current_pos by {
            assert(merges[m].below(c.current_pos as int));
        }
    }
}

/// A commit works in order: the re-encode first, then the merges, then the keep of what they left; and
/// it reports a change where there was anything to do.
pub proof fn lemma_a_commit_works_in_order<C: RowCodec>(
    codec: &C,
    before: CacheView,
    staged: StagedView,
    after: CacheView,
    changed: bool,
)
    requires
        committed(codec, before, staged, after, changed),
    ensures
        changed <==> staged.compaction is Some || staged.reencode is Some || (
        staged.merges matches Some(m) && m.len() > 0),
        staged.reencode is None && staged.merges is None ==> match staged.compaction {
            Some(CompactionView::Keep(list)) => after == before.kept(list),
            Some(CompactionView::KeepPerHead(heads)) => after.current_pos == longest(heads) as usize
                && after == before.kept_at(heads, longest(heads) as usize),
            _ => after == before,
        },
        staged.reencode is None && staged.compaction is None ==> match staged.merges {
            Some(m) => merges_applied(codec, m, before, after),
            None => after == before,
        },
        staged.merges is None && staged.compaction is None ==> match staged.reencode {
            Some(t) => reencoded(codec, before, t, after),
            None => after == before,
        },
        staged.compaction is None ==> after.current_pos == before.current_pos || staged.merges is Some
            || staged.reencode is Some,
{
}

/// Which format names a re-encode knows, and which layers it can be staged for: those on the host with
/// typed elements, in whole blocks where the target packs.
pub proof fn lemma_which_formats_a_reencode_knows(name: Seq<char>, shape: CacheShape, target: DType)
    ensures
        typed_format("f32"@) == Some(DType::F32),
        typed_format("f16"@) == Some(DType::F16),
        typed_format("q4_0"@) == Some(DType::Q4_0),
        name != "f32"@ && name != "f16"@ && name != "q4_0"@ ==> typed_format(name) is None,
        reencode_feasible(shape, target) ==> !shape.on_device && shape.dtype != DType::U8 && target
            != DType::U8,
        reencode_feasible(shape, DType::Q4_0) ==> shape.head_dim % 32 == 0,
        !shape.on_device && shape.dtype != DType::U8 ==> reencode_feasible(shape, DType::F32)
            && reencode_feasible(shape, DType::F16),
        !shape.on_device && shape.dtype != DType::U8 && shape.head_dim % 32 == 0
            ==> reencode_feasible(shape, DType::Q4_0),
{
    reveal_strlit("f32");
    reveal_strlit("f16");
    reveal_strlit("q4_0");
    assert("f32"@[1] == '3' && "f16"@[1] == '1');
    assert("q4_0"@.len() == 4 && "f32"@.len() == 3 && "f16"@.len() == 3);
}

/// When a list per head cannot be kept on a cursor, and why.
pub proof fn lemma_when_a_keep_at_is_refused(c: CacheView, heads: Seq<Seq<usize>>, cursor: usize, h: int, i: int)
    ensures
        keep_at_refusal(c, heads, cursor) is None ==> {
            &&& heads.len() == c.shape.kv_heads
            &&& cursor <= c.current_pos
            &&& 0 <= h < heads.len() ==> heads[h].len() <= cursor
            &&& 0 <= h < heads.len() && !c.shape.spec_supports_ragged() ==> heads[h].len() == cursor
            &&& 0 <= h < heads.len() && 0 <= i < heads[h].len() ==> heads[h][i] < c.current_pos
            &&& 0 <= h < heads.len() && 0 < i < heads[h].len() ==> heads[h][i - 1] < heads[h][i]
            &&& 0 <= h < heads.len() && h < c.starts.len() && 0 <= i < heads[h].len() ==> heads[h][i]
                >= c.starts[h]
        },
        heads.len() != c.shape.kv_heads ==> keep_at_refusal(c, heads, cursor) == Some(
            KvError::InvalidKeep,
        ),
        keep_at_refusal(c, heads, cursor) == Some(KvError::InvalidCursor) ==> cursor > c.current_pos
            || exists|k: int|
            0 <= k < heads.len() && ((#[trigger] heads[k]).len() > cursor || (
            !c.shape.spec_supports_ragged() && heads[k].len() != cursor)),
{
    if keep_at_refusal(c, heads, cursor) is None && 0 <= h < heads.len() {
        assert(keep_ok(heads[h], c.current_pos as int));
        assert(all_from(heads[h], c.starts[h]) || h >= c.starts.len());
    }
}

/// What a commit of an offload alone did: of every head the oldest rows left for a new record, as many as
/// were asked for or all there are, the rest moved up; and bytes changed exactly when some left.
pub proof fn lemma_an_offload_alone_moves_the_oldest<C: RowCodec>(
    codec: &C,
    before: CacheView,
    out: Seq<RecordView>,
    prefix: usize,
    layer_idx: usize,
    after: CacheView,
    out_after: Seq<RecordView>,
    changed: bool,
    h: int,
    p: int,
)
    requires
        before.wf(),
        committed_residency(
            codec,
            before,
            out,
            StagedView {
                merges: None,
                compaction: Some(CompactionView::Offload(prefix)),
                reencode: None,
            },
            layer_idx,
            after,
            out_after,
            changed,
        ),
        0 <= h < before.shape.kv_heads,
        0 <= p < before.current_pos,
    ensures
        ({
            let n = before.current_pos - after.current_pos;
            &&& n == prefix || n == before.current_pos
            &&& 0 <= n <= prefix
            &&& changed <==> n > 0
            &&& out_after.len() == out.len() + (if n > 0 {
                1int
            } else {
                0
            })
            &&& p < n ==> out_after.last().layer == layer_idx && out_after.last().count == n
                && out_after.last().keys[h][p] == before.keys[h][p]
                && out_after.last().values[h][p] == before.values[h][p]
            &&& p >= n ==> after.keys[h][p - n] == before.keys[h][p] && after.values[h][p - n]
                == before.values[h][p]
        }),
{
    let staged = StagedView {
        merges: None,
        compaction: Some(CompactionView::Offload(prefix)),
        reencode: None,
    };
    let (c1, c2, n) = choose|c1: CacheView, c2: CacheView, n: usize|
        {
            &&& #[trigger] reencode_step(codec, before, staged.reencode, c1)
            &&& #[trigger] merge_step(codec, c1, staged.merges, c2)
            &&& #[trigger] residency_step(
                c2,
                out,
                staged.compaction,
                layer_idx,
                n,
                after,
                out_after,
            )
            &&& changed == (rewrites(staged) || n > 0)
        };
    assert(c1 == before && c2 == before);
    crate::swap::lemma_offload_moves_the_oldest_rows(
        before,
        out,
        layer_idx,
        prefix,
        n,
        after,
        out_after,
        h,
        p,
    );
}

/// What a commit of a recall alone did: the rows of the layer's latest record are in front again, that
/// record is gone, and bytes changed exactly when it held some token.
pub proof fn lemma_a_recall_alone_brings_the_latest_back<C: RowCodec>(
    codec: &C,
    before: CacheView,
    out: Seq<RecordView>,
    layer_idx: usize,
    at: int,
    after: CacheView,
    out_after: Seq<RecordView>,
    changed: bool,
    h: int,
    p: int,
)
    requires
        before.wf(),
        !before.is_ragged(),
        committed_residency(
            codec,
            before,
            out,
            StagedView { merges: None, compaction: Some(CompactionView::Recall), reencode: None },
            layer_idx,
            after,
            out_after,
            changed,
        ),
        0 <= at < out.len(),
        out[at].layer == layer_idx,
        forall|i: int| at < i < out.len() ==> (#[trigger] out[i]).layer != layer_idx,
        0 <= h < before.shape.kv_heads,
        0 <= p < before.current_pos + out[at].count,
    ensures
        changed <==> out[at].count > 0,
        after.current_pos == before.current_pos + out[at].count,
        out_after.len() == out.len() - 1,
        p < out[at].count ==> after.keys[h][p] == out[at].keys[h][p] && after.values[h][p]
            == out[at].values[h][p],
        p >= out[at].count ==> after.keys[h][p] == before.keys[h][p - out[at].count]
            && after.values[h][p] == before.values[h][p - out[at].count],
{
    let staged = StagedView {
        merges: None,
        compaction: Some(CompactionView::Recall),
        reencode: None,
    };
    let (c1, c2, n) = choose|c1: CacheView, c2: CacheView, n: usize|
        {
            &&& #[trigger] reencode_step(codec, before, staged.reencode, c1)
            &&& #[trigger] merge_step(codec, c1, staged.merges, c2)
            &&& #[trigger] residency_step(
                c2,
                out,
                staged.compaction,
                layer_idx,
                n,
                after,
                out_after,
            )
            &&& changed == (rewrites(staged) || n > 0)
        };
    assert(c1 == before && c2 == before);
    crate::swap::lemma_latest_is_the_last_of_its_layer(out, layer_idx);
    let found = crate::swap::latest(out, layer_idx);
    if found < at {
        assert(out[at].layer != layer_idx);
    }
    assert(found == at);
    assert(n == out[at].count);
    crate::swap::lemma_recall_puts_the_rows_in_front(
        before,
        out,
        layer_idx,
        at,
        n,
        after,
        out_after,
        h,
        p,
    );
}

/// Why a move alone fails, and that it then changes nothing: an offload of heads that hold different
/// numbers of tokens, and a recall that the record refuses.
pub proof fn lemma_a_failed_move_changes_nothing<C: RowCodec>(
    codec: &C,
    before: CacheView,
    out: Seq<RecordView>,
    compaction: CompactionView,
    layer_idx: usize,
    after: CacheView,
    e: KvError,
)
    requires
        residency_failed(
            codec,
            before,
            out,
            StagedView { merges: None, compaction: Some(compaction), reencode: None },
            layer_idx,
            after,
            e,
        ),
    ensures
        after == before,
        compaction is Offload || compaction is Recall,
        compaction is Offload ==> before.is_ragged() && e == KvError::Ragged,
        compaction is Recall ==> recall_refusal(before, out, layer_idx) == Some(e),
{
}

/// Why a commit that only re-encodes fails, and that it then changes nothing.
pub proof fn lemma_a_failed_reencode_changes_nothing<C: RowCodec>(
    codec: &C,
    before: CacheView,
    target: DType,
    after: CacheView,
    e: KvError,
)
    requires
        rewrite_failed(
            codec,
            before,
            StagedView { merges: None, compaction: None, reencode: Some(target) },
            after,
            e,
        ),
    ensures
        after == before,
        e == KvError::CapacityExceeded || e == KvError::CodecShape,
        e == KvError::CapacityExceeded <==> !before.shape.with_dtype(target).fits(),
{
}

/// Which moves are to or from the swap, and what counts as a rewrite beside a move: a re-encode, or a
/// merge of some tokens.
pub proof fn lemma_moves_and_rewrites(staged: StagedView)
    ensures
        is_residency(staged.compaction) ==> staged.compaction is Some,
        staged.compaction matches Some(m) ==> (is_residency(staged.compaction) <==> m is Offload || m
            is Recall),
        staged.reencode is Some ==> rewrites(staged),
        staged.reencode is None && staged.merges is None ==> !rewrites(staged),
        staged.reencode is None ==> (staged.merges matches Some(m) ==> (rewrites(staged) <==> m.len()
            != 0)),
{
}

} // verus!
