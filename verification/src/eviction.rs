//! Eviction: what a policy asks of a layer, and how the engine carries it out.
//!
//! A policy looks at a layer and returns a plan. The engine checks the plan against the layer and
//! applies it in one transaction, so a layer is either evicted as planned or left alone.

use crate::cache_handle::{committed, keep_answer, keep_per_head_answer,
    lemma_commit_never_grows, merge_answer, record_step, CacheOpError, CompactionView,
    EngineCacheHandle, StagedView};
use crate::codec::RowCodec;
use crate::keep::KeepSpec;
use crate::keepset_dump::{KeepsetDump, RecorderView};
use crate::kv_cache::{CacheView, KVCache, KvError};
use crate::merge::{merge_views, merges_stopped, WeightedMerge};
use vstd::prelude::*;

verus! {

/// Tokens that an eviction must remove to be worth the moves.
pub const MIN_EVICT_TOKENS: usize = 64;

/// Why an eviction failed.
#[derive(Debug, PartialEq, Eq)]
pub enum EvictError {
    /// The policy could not plan, in its words.
    Policy(String),
    /// The plan does not fit the layer.
    Refused(CacheOpError),
    /// The plan could not be carried out.
    Failed(KvError),
    /// Layers of different lengths, for a plan over all of them.
    NotUniform,
}

impl EvictError {
    /// The failure in words.
    pub open spec fn words(self) -> Seq<char> {
        match self {
            EvictError::Policy(words) => words@,
            EvictError::Refused(e) => e.words(),
            EvictError::Failed(e) => e.words(),
            EvictError::NotUniform => "the layers have different lengths"@,
        }
    }

    /// The failure in words.
    pub fn message(&self) -> (m: String)
        ensures
            m@ == self.words(),
    {
        match self {
            EvictError::Policy(words) => words.as_str().to_owned(),
            EvictError::Refused(e) => e.message(),
            EvictError::Failed(e) => e.message(),
            EvictError::NotUniform => "the layers have different lengths".to_owned(),
        }
    }
}

/// What a policy asks of one layer.
pub struct StagePlan {
    /// The positions to keep; without it every position stays.
    pub keep: Option<KeepSpec>,
    /// Merges to apply first.
    pub merges: Vec<WeightedMerge>,
}

impl StagePlan {
    /// The move that the plan stages.
    pub open spec fn compaction(self) -> Option<CompactionView> {
        match self.keep {
            Some(KeepSpec::LayerWide(list)) => Some(CompactionView::Keep(list@)),
            Some(KeepSpec::PerHead(heads)) => Some(CompactionView::KeepPerHead(heads.deep_view())),
            None => None,
        }
    }

    /// What the plan stages after its merges.
    pub open spec fn merged(self) -> StagedView {
        StagedView {
            merges: if self.merges@.len() == 0 {
                None
            } else {
                Some(merge_views(self.merges@))
            },
            compaction: None,
            reencode: None,
        }
    }

    /// What the plan stages.
    pub open spec fn staged(self) -> StagedView {
        StagedView { compaction: self.compaction(), ..self.merged() }
    }

    /// Why the plan does not fit a layer, if it does not.
    pub open spec fn refusal(self, c: CacheView) -> Option<CacheOpError> {
        let nothing = StagedView { merges: None, compaction: None, reencode: None };
        let merge = if self.merges@.len() == 0 {
            Ok(())
        } else {
            merge_answer(c, nothing, merge_views(self.merges@))
        };
        let keep = match self.keep {
            Some(KeepSpec::LayerWide(list)) => keep_answer(c, self.merged(), list@),
            Some(KeepSpec::PerHead(heads)) => keep_per_head_answer(
                c,
                self.merged(),
                heads.deep_view(),
            ),
            None => Ok(()),
        };
        match merge {
            Err(e) => Some(e),
            Ok(()) => match keep {
                Err(e) => Some(e),
                Ok(()) => None,
            },
        }
    }
}

/// What applying a plan did to a layer.
pub open spec fn plan_applied<C: RowCodec>(
    codec: &C,
    before: CacheView,
    plan: StagePlan,
    after: CacheView,
    r: Result<bool, EvictError>,
) -> bool {
    match plan.refusal(before) {
        Some(e) => r == Err::<bool, EvictError>(EvictError::Refused(e)) && after == before,
        None => match r {
            Ok(changed) => {
                &&& committed(codec, before, plan.staged(), after, changed)
                &&& after.current_pos <= before.current_pos
            },
            Err(e) => {
                &&& e == EvictError::Failed(KvError::CodecShape)
                &&& merges_stopped(codec, merge_views(plan.merges@), before, after)
            },
        },
    }
}

/// The recorder after a plan was applied.
pub open spec fn plan_recorded(
    before: RecorderView,
    c: CacheView,
    plan: StagePlan,
    layer_idx: usize,
    n_layers: usize,
    r: Result<bool, EvictError>,
) -> RecorderView {
    if r is Ok {
        record_step(before, c, plan.compaction(), layer_idx, n_layers)
    } else {
        before
    }
}

/// Applies a plan to a layer, in one transaction.
pub fn apply_plan<C: RowCodec>(
    cache: &mut KVCache,
    plan: StagePlan,
    layer_idx: usize,
    n_layers: usize,
    codec: &C,
    recorder: &mut KeepsetDump,
) -> (r: Result<bool, EvictError>)
    requires
        old(cache).wf(),
        old(recorder).wf(),
    ensures
        final(cache).wf(),
        final(recorder).wf(),
        plan_applied(codec, old(cache)@, plan, final(cache)@, r),
        final(recorder)@ == plan_recorded(
            old(recorder)@,
            old(cache)@,
            plan,
            layer_idx,
            n_layers,
            r,
        ),
{
    let ghost before = cache@;
    proof {
        cache.lemma_wf();
    }
    let StagePlan { keep, merges } = plan;
    let mut h = EngineCacheHandle::new(cache, layer_idx, n_layers);
    if merges.len() > 0 {
        match h.merge(merges) {
            Ok(()) => {},
            Err(e) => {
                return Err(EvictError::Refused(e));
            },
        }
    }
    assert(h.staged@ =~= plan.merged());
    match keep {
        Some(KeepSpec::LayerWide(list)) => match h.keep(&list) {
            Ok(()) => {},
            Err(e) => {
                return Err(EvictError::Refused(e));
            },
        },
        Some(KeepSpec::PerHead(heads)) => match h.keep_per_head(&heads) {
            Ok(()) => {},
            Err(e) => {
                return Err(EvictError::Refused(e));
            },
        },
        None => {},
    }
    assert(h.staged@ =~= plan.staged());
    match h.commit(codec, recorder) {
        Ok(changed) => {
            proof {
                lemma_commit_never_grows(codec, before, plan.staged(), cache@, changed);
            }
            Ok(changed)
        },
        Err(e) => Err(EvictError::Failed(e)),
    }
}

/// Scores for one eviction: bit patterns of single-precision numbers.
pub enum ScoreContext<'a> {
    /// No scores.
    Unscored,
    /// One score per position, and the last layer's attention in the last step where a policy
    /// weighs values by it.
    Flat { importance: &'a Vec<u32>, last_attn: Option<&'a Vec<u32>> },
    /// One score per position, and one per head and position.
    PerHead { flat: &'a Vec<u32>, head: &'a Vec<u32>, n_kv_heads: usize },
    /// Each layer's own scores, `max_seq` of them, layer after layer.
    PerLayerFlat { layer_flat: &'a Vec<u32>, max_seq: usize, last_attn: Option<&'a Vec<u32>> },
}

/// The outcome of an eviction attempt.
#[derive(Clone, Copy, Debug, PartialEq, Eq, Structural)]
pub struct EvictionResult {
    /// Whether an eviction was carried out.
    pub evicted: bool,
    /// Tokens removed per layer.
    pub tokens_removed: usize,
    /// The longest layer afterwards.
    pub new_pos: usize,
}

/// How tokens are chosen for eviction.
///
/// A policy reads a layer and plans; the engine applies the plan. Scores are bit patterns of
/// single-precision numbers.
pub trait EvictionPolicy {
    /// Whether to evict at all, given the memory that is left.
    fn should_evict(&self, cache: &KVCache, mem_available: usize) -> bool;

    /// Plans an eviction down to `target_len` tokens.
    fn evict(&self, cache: &KVCache, target_len: usize) -> Result<StagePlan, EvictError>;

    /// The policy's name.
    fn name(&self) -> String;

    /// Plans by the positions' scores. A policy without scores plans without them.
    fn evict_with_scores(&self, cache: &KVCache, target_len: usize, importance: &Vec<u32>) -> (r:
        Result<StagePlan, EvictError>)
        default_ensures
            call_ensures(Self::evict, (self, cache, target_len), r),
    {
        self.evict(cache, target_len)
    }

    /// Plans by each head's own scores. A policy without them plans by the positions' scores.
    fn evict_with_head_scores(
        &self,
        cache: &KVCache,
        target_len: usize,
        flat_importance: &Vec<u32>,
        head_importance: &Vec<u32>,
        n_kv_heads: usize,
        layer_idx: usize,
        n_layers: usize,
    ) -> (r: Result<StagePlan, EvictError>)
        default_ensures
            call_ensures(Self::evict_with_scores, (self, cache, target_len, flat_importance), r),
    {
        self.evict_with_scores(cache, target_len, flat_importance)
    }

    /// Plans for one layer of several. A policy that treats layers alike plans by whether there are
    /// scores.
    fn evict_layer(
        &self,
        cache: &KVCache,
        target_len: usize,
        importance: Option<&Vec<u32>>,
        last_attn: Option<&Vec<u32>>,
        layer_idx: usize,
        n_layers: usize,
    ) -> (r: Result<StagePlan, EvictError>)
        default_ensures
            match importance {
                Some(scores) => call_ensures(
                    Self::evict_with_scores,
                    (self, cache, target_len, scores),
                    r,
                ),
                None => call_ensures(Self::evict, (self, cache, target_len), r),
            },
    {
        match importance {
            Some(scores) => self.evict_with_scores(cache, target_len, scores),
            None => self.evict(cache, target_len),
        }
    }

    /// Whether the policy decides over all layers at once.
    fn is_whole_model(&self) -> (r: bool)
        default_ensures
            !r,
    {
        false
    }

    /// Plans over all layers at once: one list of positions that every layer keeps, or none.
    /// `positions` says where each resident token stood in the text.
    fn keep_over_all_layers(
        &self,
        caches: &Vec<KVCache>,
        target_len: usize,
        positions: &Vec<usize>,
    ) -> (r: Result<Option<Vec<usize>>, EvictError>)
        default_ensures
            r == Ok::<Option<Vec<usize>>, EvictError>(None),
    {
        Ok(None)
    }
}

/// Every layer is well-formed.
pub open spec fn all_wf(caches: Seq<KVCache>) -> bool {
    forall|i: int| 0 <= i < caches.len() ==> (#[trigger] caches[i]).wf()
}

/// The longest layer.
pub open spec fn max_pos(caches: Seq<KVCache>) -> usize
    decreases caches.len(),
{
    if caches.len() == 0 {
        0
    } else {
        let rest = max_pos(caches.drop_last());
        if caches.last()@.current_pos > rest {
            caches.last()@.current_pos
        } else {
            rest
        }
    }
}

/// The longest layer.
pub fn max_cache_pos(caches: &Vec<KVCache>) -> (n: usize)
    ensures
        n == max_pos(caches@),
{
    let mut n: usize = 0;
    let mut i: usize = 0;
    assert(caches@.take(0) =~= Seq::<KVCache>::empty());
    while i < caches.len()
        invariant
            i <= caches@.len(),
            n == max_pos(caches@.take(i as int)),
        decreases caches@.len() - i,
    {
        assert(caches@.take(i + 1).drop_last() =~= caches@.take(i as int));
        let pos: usize = caches[i].current_pos();
        if pos > n {
            n = pos;
        }
        i = i + 1;
    }
    assert(caches@.take(i as int) =~= caches@);
    n
}

/// The longest layer is one of them, and no layer is longer.
pub proof fn lemma_max_pos(caches: Seq<KVCache>)
    ensures
        forall|i: int|
            0 <= i < caches.len() ==> (#[trigger] caches[i])@.current_pos <= max_pos(caches),
        caches.len() > 0 ==> exists|i: int|
            0 <= i < caches.len() && (#[trigger] caches[i])@.current_pos == max_pos(caches),
        caches.len() == 0 ==> max_pos(caches) == 0,
    decreases caches.len(),
{
    if caches.len() > 0 {
        let init = caches.drop_last();
        lemma_max_pos(init);
        assert forall|i: int| 0 <= i < caches.len() implies (#[trigger] caches[i])@.current_pos
            <= max_pos(caches) by {
            if i < init.len() {
                assert(init[i]@.current_pos <= max_pos(init));
            }
        }
        if caches.last()@.current_pos >= max_pos(init) {
            assert(caches[caches.len() - 1]@.current_pos == max_pos(caches));
        } else {
            let i = choose|i: int|
                0 <= i < init.len() && (#[trigger] init[i])@.current_pos == max_pos(init);
            assert(caches[i]@.current_pos == max_pos(caches));
        }
    }
}

/// Layers that do not grow have a longest layer that does not grow.
pub proof fn lemma_max_pos_shrinks(before: Seq<KVCache>, after: Seq<KVCache>)
    requires
        before.len() == after.len(),
        forall|i: int|
            0 <= i < after.len() ==> (#[trigger] after[i])@.current_pos <= before[i]@.current_pos,
    ensures
        max_pos(after) <= max_pos(before),
{
    lemma_max_pos(before);
    lemma_max_pos(after);
    if after.len() > 0 {
        let i = choose|i: int|
            0 <= i < after.len() && (#[trigger] after[i])@.current_pos == max_pos(after);
        assert(before[i]@.current_pos <= max_pos(before));
    }
}

/// A layer's own scores in a list of all layers' scores, if the list reaches that far.
pub open spec fn layer_window(flat: Seq<u32>, max_seq: usize, layer: usize) -> Option<Seq<u32>> {
    if layer * max_seq + max_seq <= flat.len() {
        Some(flat.subrange((layer * max_seq) as int, (layer * max_seq + max_seq) as int))
    } else {
        None
    }
}

/// A layer's own scores in a list of all layers' scores, if the list reaches that far.
pub fn layer_scores(flat: &Vec<u32>, max_seq: usize, layer: usize) -> (r: Option<Vec<u32>>)
    ensures
        r is Some <==> layer_window(flat@, max_seq, layer) is Some,
        r matches Some(v) ==> v@ == layer_window(flat@, max_seq, layer)->0,
{
    assert(flat@.len() == flat.len());
    let base: usize = match layer.checked_mul(max_seq) {
        Some(b) => b,
        None => {
            return None;
        },
    };
    let end: usize = match base.checked_add(max_seq) {
        Some(e) => e,
        None => {
            return None;
        },
    };
    if end > flat.len() {
        return None;
    }
    let mut out: Vec<u32> = Vec::new();
    let mut i: usize = base;
    while i < end
        invariant
            base <= i <= end <= flat@.len(),
            out@ == flat@.subrange(base as int, i as int),
        decreases end - i,
    {
        out.push(flat[i]);
        i = i + 1;
        assert(out@ =~= flat@.subrange(base as int, i as int));
    }
    Some(out)
}

/// What the policy is asked for one layer: by the layer's own scores where there are any, else by
/// each head's, else by the positions', else without scores.
pub open spec fn layer_asked<P: EvictionPolicy>(
    policy: &P,
    cache: KVCache,
    scores: ScoreContext,
    target: usize,
    layer: usize,
    n_layers: usize,
    r: Result<StagePlan, EvictError>,
) -> bool {
    match scores {
        ScoreContext::Unscored => call_ensures(
            P::evict_layer,
            (policy, &cache, target, None, None, layer, n_layers),
            r,
        ),
        ScoreContext::Flat { importance, last_attn } => call_ensures(
            P::evict_layer,
            (policy, &cache, target, Some(importance), last_attn, layer, n_layers),
            r,
        ),
        ScoreContext::PerHead { flat, head, n_kv_heads } => if n_kv_heads > 0 {
            call_ensures(
                P::evict_with_head_scores,
                (policy, &cache, target, flat, head, n_kv_heads, layer, n_layers),
                r,
            )
        } else {
            call_ensures(
                P::evict_layer,
                (policy, &cache, target, Some(flat), None, layer, n_layers),
                r,
            )
        },
        ScoreContext::PerLayerFlat { layer_flat, max_seq, last_attn } => match layer_window(
            layer_flat@,
            max_seq,
            layer,
        ) {
            Some(w) => exists|own: Vec<u32>|
                own@ == w && #[trigger] call_ensures(
                    P::evict_layer,
                    (policy, &cache, target, Some(&own), last_attn, layer, n_layers),
                    r,
                ),
            None => call_ensures(
                P::evict_layer,
                (policy, &cache, target, None, last_attn, layer, n_layers),
                r,
            ),
        },
    }
}

/// Asks the policy for one layer's plan.
pub(crate) fn ask_layer<P: EvictionPolicy>(
    policy: &P,
    cache: &KVCache,
    scores: &ScoreContext,
    target: usize,
    layer: usize,
    n_layers: usize,
) -> (r: Result<StagePlan, EvictError>)
    ensures
        layer_asked(policy, *cache, *scores, target, layer, n_layers, r),
{
    match scores {
        ScoreContext::Unscored => policy.evict_layer(cache, target, None, None, layer, n_layers),
        ScoreContext::Flat { importance, last_attn } => policy.evict_layer(
            cache,
            target,
            Some(importance),
            *last_attn,
            layer,
            n_layers,
        ),
        ScoreContext::PerHead { flat, head, n_kv_heads } => if *n_kv_heads > 0 {
            policy.evict_with_head_scores(cache, target, flat, head, *n_kv_heads, layer, n_layers)
        } else {
            policy.evict_layer(cache, target, Some(flat), None, layer, n_layers)
        },
        ScoreContext::PerLayerFlat { layer_flat, max_seq, last_attn } => {
            match layer_scores(layer_flat, *max_seq, layer) {
                Some(own) => policy.evict_layer(
                    cache,
                    target,
                    Some(&own),
                    *last_attn,
                    layer,
                    n_layers,
                ),
                None => policy.evict_layer(cache, target, None, *last_attn, layer, n_layers),
            }
        },
    }
}

/// What a policy is handed for a layer: the layer, its target and its place among the layers as they
/// are; and of the scores the layer's own stretch where they are kept per layer and reach it, each
/// head's where there are heads, and else the positions'.
pub proof fn lemma_policy_is_handed_the_layer<P: EvictionPolicy>(
    policy: &P,
    cache: KVCache,
    scores: ScoreContext,
    target: usize,
    layer: usize,
    n_layers: usize,
    r: Result<StagePlan, EvictError>,
)
    requires
        layer_asked(policy, cache, scores, target, layer, n_layers, r),
    ensures
        scores is Unscored ==> call_ensures(
            P::evict_layer,
            (policy, &cache, target, None, None, layer, n_layers),
            r,
        ),
        scores matches ScoreContext::Flat { importance, last_attn } ==> call_ensures(
            P::evict_layer,
            (policy, &cache, target, Some(importance), last_attn, layer, n_layers),
            r,
        ),
        scores matches ScoreContext::PerHead { flat, head, n_kv_heads } ==> n_kv_heads >= 1
            ==> call_ensures(
            P::evict_with_head_scores,
            (policy, &cache, target, flat, head, n_kv_heads, layer, n_layers),
            r,
        ),
        scores matches ScoreContext::PerHead { flat, head, n_kv_heads } ==> n_kv_heads == 0
            ==> call_ensures(
            P::evict_layer,
            (policy, &cache, target, Some(flat), None, layer, n_layers),
            r,
        ),
        scores matches ScoreContext::PerLayerFlat { layer_flat, max_seq, last_attn } ==> (layer
            + 1) * max_seq <= layer_flat@.len() ==> exists|own: Vec<u32>|
            {
                &&& #[trigger] call_ensures(
                    P::evict_layer,
                    (policy, &cache, target, Some(&own), last_attn, layer, n_layers),
                    r,
                )
                &&& own@.len() == max_seq
                &&& forall|i: int|
                    0 <= i < max_seq ==> #[trigger] own@[i] == layer_flat@[layer * max_seq + i]
            },
        scores matches ScoreContext::PerLayerFlat { layer_flat, max_seq, last_attn } ==> (layer
            + 1) * max_seq > layer_flat@.len() ==> call_ensures(
            P::evict_layer,
            (policy, &cache, target, None, last_attn, layer, n_layers),
            r,
        ),
{
    if let ScoreContext::PerLayerFlat { layer_flat, max_seq, last_attn } = scores {
        assert((layer + 1) * max_seq == layer * max_seq + max_seq) by (nonlinear_arith);
        assert(0 <= layer * max_seq) by (nonlinear_arith)
            requires
                0 <= layer,
                0 <= max_seq,
        ;
    }
}

/// What a plan does to a layer that accepts it. Without merges and with one list, every head holds the
/// listed rows, in order, and ends at the list's length. With a list per head, each head holds its own
/// rows, in order, and all end at the longest list's length. With neither, nothing changes. A plan that
/// does not fit is refused and changes nothing.
pub proof fn lemma_plan_leaves_what_it_keeps<C: RowCodec>(
    codec: &C,
    before: CacheView,
    plan: StagePlan,
    after: CacheView,
    r: Result<bool, EvictError>,
    h: int,
    i: int,
)
    requires
        before.wf(),
        plan_applied(codec, before, plan, after, r),
        plan.merges@.len() == 0,
        0 <= h < before.shape.kv_heads,
        0 <= i,
    ensures
        r is Err ==> after == before,
        plan.keep is None ==> r == Ok::<bool, EvictError>(false) && after == before,
        r is Ok ==> {
            &&& plan.keep matches Some(KeepSpec::LayerWide(list)) ==> {
                &&& r == Ok::<bool, EvictError>(true)
                &&& after.current_pos == list@.len()
                &&& after.starts[h] == 0
                &&& i < list@.len() ==> after.keys[h][i] == before.keys[h][list@[i] as int]
                    && after.values[h][i] == before.values[h][list@[i] as int]
            }
            &&& plan.keep matches Some(KeepSpec::PerHead(heads)) ==> {
                let own = heads@[h]@;
                &&& r == Ok::<bool, EvictError>(true)
                &&& heads@.len() == before.shape.kv_heads
                &&& after.starts[h] + own.len() == after.current_pos
                &&& exists|x: int|
                    0 <= x < heads@.len() && (#[trigger] heads@[x])@.len() == after.current_pos
                &&& i < own.len() ==> after.keys[h][after.starts[h] + i]
                    == before.keys[h][own[i] as int] && after.values[h][after.starts[h] + i]
                    == before.values[h][own[i] as int]
            }
        },
{
    assert(before.plane(crate::kv_cache::Side::Key)[h].len() == before.shape.capacity);
    assert(before.plane(crate::kv_cache::Side::Value)[h].len() == before.shape.capacity);
    if plan.refusal(before) is None {
        if let Err(e) = r {
            assert(merge_views(plan.merges@).len() == 0);
        }
        if let Some(KeepSpec::LayerWide(list)) = plan.keep {
            crate::cache_handle::lemma_ascending_fits(list@, before.current_pos as int);
        }
        if let Some(KeepSpec::PerHead(heads)) = plan.keep {
            let lists = heads.deep_view();
            crate::cache_handle::lemma_longest_bounds(lists);
            assert(lists[h] == heads@[h]@);
            assert(crate::compaction::keep_ok(lists[h], before.current_pos as int));
            let x = choose|x: int|
                0 <= x < lists.len() && (#[trigger] lists[x]).len() == crate::cache_handle::longest(
                    lists,
                );
            assert(lists[x] == heads@[x]@);
            assert(crate::compaction::keep_ok(lists[x], before.current_pos as int));
            crate::cache_handle::lemma_ascending_fits(lists[x], before.current_pos as int);
        }
    }
}

/// The scores of a layer are its stretch of the flat scores, as long as the positions of a layer; there
/// are none for a layer that the flat scores do not reach.
pub proof fn lemma_scores_of_a_layer(flat: Vec<u32>, max_seq: usize, layer: usize, r: Option<Vec<u32>>, i: int)
    requires
        call_ensures(layer_scores, (&flat, max_seq, layer), r),
    ensures
        (layer + 1) * max_seq <= flat@.len() && (layer + 1) * max_seq <= usize::MAX ==> r is Some,
        r matches Some(v) ==> v@.len() == max_seq && (0 <= i < max_seq ==> v@[i] == flat@[layer
            * max_seq + i]),
{
    assert((layer + 1) * max_seq == layer * max_seq + max_seq && 0 <= layer * max_seq)
        by (nonlinear_arith);
}

} // verus!
