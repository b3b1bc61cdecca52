//! One eviction over all layers: the guards, the layers one by one, and the plans that span them.

use crate::cache_handle::{committed, keep_answer, record_step, CacheOpError, CompactionView,
    EngineCacheHandle, StagedView};
use crate::codec::RowCodec;
use crate::eviction::{all_wf, apply_plan, layer_asked, lemma_max_pos_shrinks, max_cache_pos,
    max_pos, plan_applied, plan_recorded, EvictError, EvictionPolicy, EvictionResult,
    ScoreContext, StagePlan, MIN_EVICT_TOKENS};
use crate::keep::KeepSpec;
use crate::keepset_dump::{KeepsetDump, RecorderView};
use crate::kv_cache::{CacheView, KVCache};
use vstd::prelude::*;

verus! {

/// A layer's target: its own where it has one, else the common one.
pub open spec fn layer_target(per_layer: Option<Seq<usize>>, target_len: usize, layer: int) -> usize {
    match per_layer {
        Some(list) => if layer < list.len() {
            list[layer]
        } else {
            target_len
        },
        None => target_len,
    }
}

/// The views of an optional list.
pub open spec fn list_view(list: Option<&Vec<usize>>) -> Option<Seq<usize>> {
    match list {
        Some(v) => Some(v@),
        None => None,
    }
}

/// Too few tokens lie between a length and a target to be worth an eviction.
pub open spec fn near_target(pos: usize, target: usize) -> bool {
    target > 0 && (pos <= target || pos - target < MIN_EVICT_TOKENS)
}

/// Too few tokens lie between a length and a target to be worth an eviction.
fn is_near_target(pos: usize, target: usize) -> (r: bool)
    ensures
        r == near_target(pos, target),
{
    target > 0 && (pos <= target || pos - target < MIN_EVICT_TOKENS)
}

/// A layer that has a target of its own and is near it.
pub open spec fn spared(
    per_layer: Option<Seq<usize>>,
    target_len: usize,
    before: Seq<KVCache>,
    layer: int,
) -> bool {
    per_layer is Some && near_target(
        before[layer]@.current_pos,
        layer_target(per_layer, target_len, layer),
    )
}

/// Some layer is not spared.
pub open spec fn any_evicted(
    per_layer: Option<Seq<usize>>,
    target_len: usize,
    before: Seq<KVCache>,
) -> bool {
    exists|layer: int|
        0 <= layer < before.len() && !#[trigger] spared(per_layer, target_len, before, layer)
}

/// Whether some layer is not spared.
fn evicts_any(caches: &Vec<KVCache>, per_layer: Option<&Vec<usize>>, target_len: usize) -> (r: bool)
    ensures
        r == any_evicted(list_view(per_layer), target_len, caches@),
{
    let mut i: usize = 0;
    while i < caches.len()
        invariant
            i <= caches@.len(),
            forall|j: int|
                0 <= j < i ==> #[trigger] spared(list_view(per_layer), target_len, caches@, j),
        decreases caches@.len() - i,
    {
        let target: usize = match per_layer {
            Some(list) => if i < list.len() {
                list[i]
            } else {
                target_len
            },
            None => target_len,
        };
        let near: bool = per_layer.is_some() && is_near_target(caches[i].current_pos(), target);
        assert(near == spared(list_view(per_layer), target_len, caches@, i as int));
        if !near {
            return true;
        }
        i = i + 1;
    }
    false
}

/// One layer's part of an eviction: with targets per layer, a layer near its own is spared; any
/// other is evicted as the policy plans.
pub open spec fn layer_evicted<P: EvictionPolicy, C: RowCodec>(
    policy: &P,
    codec: &C,
    scores: ScoreContext,
    per_layer: Option<Seq<usize>>,
    target_len: usize,
    layer: usize,
    n_layers: usize,
    before: KVCache,
    after: KVCache,
    rec_before: RecorderView,
    rec_after: RecorderView,
    r: Result<(), EvictError>,
) -> bool {
    let target = layer_target(per_layer, target_len, layer as int);
    if per_layer is Some && near_target(before@.current_pos, target) {
        r is Ok && after == before && rec_after == rec_before
    } else {
        exists|answer: Result<StagePlan, EvictError>|
            #[trigger] layer_asked(policy, before, scores, target, layer, n_layers, answer)
                && answer_applied(
                codec,
                before@,
                answer,
                layer,
                n_layers,
                after@,
                rec_before,
                rec_after,
                r,
            )
    }
}

/// What a policy's answer did to a layer.
pub open spec fn answer_applied<C: RowCodec>(
    codec: &C,
    before: CacheView,
    answer: Result<StagePlan, EvictError>,
    layer: usize,
    n_layers: usize,
    after: CacheView,
    rec_before: RecorderView,
    rec_after: RecorderView,
    r: Result<(), EvictError>,
) -> bool {
    match answer {
        Err(e) => r == Err::<(), EvictError>(e) && after == before && rec_after == rec_before,
        Ok(plan) => exists|done: Result<bool, EvictError>|
            {
                &&& #[trigger] plan_applied(codec, before, plan, after, done)
                &&& rec_after == plan_recorded(rec_before, before, plan, layer, n_layers, done)
                &&& match done {
                    Ok(_) => r is Ok,
                    Err(e) => r == Err::<(), EvictError>(e),
                }
            },
    }
}

/// Layers `0..upto` were evicted, in order; `recs` is the recorder before each of them and after
/// the last.
pub open spec fn layers_evicted<P: EvictionPolicy, C: RowCodec>(
    policy: &P,
    codec: &C,
    scores: ScoreContext,
    per_layer: Option<Seq<usize>>,
    target_len: usize,
    before: Seq<KVCache>,
    after: Seq<KVCache>,
    recs: Seq<RecorderView>,
    upto: int,
) -> bool {
    &&& recs.len() == upto + 1
    &&& forall|i: int|
        0 <= i < upto ==> layer_evicted(
            policy,
            codec,
            scores,
            per_layer,
            target_len,
            i as usize,
            before.len() as usize,
            before[i],
            #[trigger] after[i],
            recs[i],
            recs[i + 1],
            Ok(()),
        )
}

/// Every layer was evicted, or the first that failed ended it and those behind it are untouched.
pub open spec fn eviction_ran<P: EvictionPolicy, C: RowCodec>(
    policy: &P,
    codec: &C,
    scores: ScoreContext,
    per_layer: Option<Seq<usize>>,
    target_len: usize,
    before: Seq<KVCache>,
    after: Seq<KVCache>,
    rec_before: RecorderView,
    rec_after: RecorderView,
    r: Result<(), EvictError>,
) -> bool {
    exists|recs: Seq<RecorderView>, upto: int|
        {
            &&& 0 <= upto <= before.len()
            &&& recs[0] == rec_before
            &&& #[trigger] layers_evicted(
                policy,
                codec,
                scores,
                per_layer,
                target_len,
                before,
                after,
                recs,
                upto,
            )
            &&& match r {
                Ok(()) => upto == before.len() && recs[upto] == rec_after,
                Err(e) => {
                    &&& upto < before.len()
                    &&& layer_evicted(
                        policy,
                        codec,
                        scores,
                        per_layer,
                        target_len,
                        upto as usize,
                        before.len() as usize,
                        before[upto],
                        after[upto],
                        recs[upto],
                        rec_after,
                        Err(e),
                    )
                    &&& forall|i: int|
                        upto < i < before.len() ==> #[trigger] after[i] == before[i]
                },
            }
        }
}

/// Evicts one layer.
fn evict_one<P: EvictionPolicy, C: RowCodec>(
    policy: &P,
    codec: &C,
    scores: &ScoreContext,
    per_layer: Option<&Vec<usize>>,
    target_len: usize,
    layer: usize,
    n_layers: usize,
    cache: &mut KVCache,
    recorder: &mut KeepsetDump,
) -> (r: Result<(), EvictError>)
    requires
        old(cache).wf(),
        old(recorder).wf(),
    ensures
        final(cache).wf(),
        final(recorder).wf(),
        r is Ok ==> final(cache)@.current_pos <= old(cache)@.current_pos,
        layer_evicted(
            policy,
            codec,
            *scores,
            list_view(per_layer),
            target_len,
            layer,
            n_layers,
            *old(cache),
            *final(cache),
            old(recorder)@,
            final(recorder)@,
            r,
        ),
{
    let ghost before = *cache;
    let ghost rec_before = recorder@;
    let target: usize = match per_layer {
        Some(list) => if layer < list.len() {
            list[layer]
        } else {
            target_len
        },
        None => target_len,
    };
    if per_layer.is_some() && is_near_target(cache.current_pos(), target) {
        return Ok(());
    }
    let answer = crate::eviction::ask_layer(policy, cache, scores, target, layer, n_layers);
    let ghost said = answer;
    let ghost asked = layer_target(list_view(per_layer), target_len, layer as int);
    assert(target == asked);
    assert(layer_asked(policy, before, *scores, asked, layer, n_layers, said));
    match answer {
        Err(e) => {
            assert(answer_applied(
                codec,
                before@,
                said,
                layer,
                n_layers,
                cache@,
                rec_before,
                recorder@,
                Err(e),
            ));
            Err(e)
        },
        Ok(plan) => {
            let done = apply_plan(cache, plan, layer, n_layers, codec, recorder);
            assert(plan_applied(codec, before@, plan, cache@, done));
            match done {
                Ok(_) => {
                    assert(answer_applied(
                        codec,
                        before@,
                        said,
                        layer,
                        n_layers,
                        cache@,
                        rec_before,
                        recorder@,
                        Ok(()),
                    ));
                    Ok(())
                },
                Err(e) => {
                    assert(answer_applied(
                        codec,
                        before@,
                        said,
                        layer,
                        n_layers,
                        cache@,
                        rec_before,
                        recorder@,
                        Err(e),
                    ));
                    Err(e)
                },
            }
        },
    }
}

/// Evicts every layer, in order. The first that fails ends it.
pub fn evict_layers<P: EvictionPolicy, C: RowCodec>(
    policy: &P,
    codec: &C,
    scores: &ScoreContext,
    per_layer: Option<&Vec<usize>>,
    target_len: usize,
    caches: &mut Vec<KVCache>,
    recorder: &mut KeepsetDump,
) -> (r: Result<(), EvictError>)
    requires
        all_wf(old(caches)@),
        old(recorder).wf(),
    ensures
        all_wf(final(caches)@),
        final(recorder).wf(),
        final(caches)@.len() == old(caches)@.len(),
        eviction_ran(
            policy,
            codec,
            *scores,
            list_view(per_layer),
            target_len,
            old(caches)@,
            final(caches)@,
            old(recorder)@,
            final(recorder)@,
            r,
        ),
        r is Ok ==> forall|i: int|
            0 <= i < final(caches)@.len() ==> (#[trigger] final(caches)@[i])@.current_pos <= old(caches)@[i]@.current_pos,
{
    let ghost before = caches@;
    let ghost mut recs = seq![recorder@];
    let n: usize = caches.len();
    let mut i: usize = 0;
    while i < n
        invariant
            i <= n,
            n == before.len(),
            n == caches@.len(),
            before == old(caches)@,
            all_wf(caches@),
            recorder.wf(),
            recs[0] == old(recorder)@,
            recs[i as int] == recorder@,
            layers_evicted(
                policy,
                codec,
                *scores,
                list_view(per_layer),
                target_len,
                before,
                caches@,
                recs,
                i as int,
            ),
            forall|j: int| i <= j < n ==> #[trigger] caches@[j] == before[j],
            forall|j: int|
                0 <= j < i ==> (#[trigger] caches@[j])@.current_pos <= before[j]@.current_pos,
        decreases n - i,
    {
        let ghost held = caches@;
        let ghost rec_now = recorder@;
        let r = evict_one(
            policy,
            codec,
            scores,
            per_layer,
            target_len,
            i,
            n,
            &mut caches[i],
            recorder,
        );
        proof {
            assert(forall|j: int|
                0 <= j < n && j != i ==> #[trigger] caches@[j] == held[j]);
        }
        match r {
            Ok(()) => {
                proof {
                    let later = recs.push(recorder@);
                    assert forall|j: int| 0 <= j < i + 1 implies layer_evicted(
                        policy,
                        codec,
                        *scores,
                        list_view(per_layer),
                        target_len,
                        j as usize,
                        before.len() as usize,
                        before[j],
                        #[trigger] caches@[j],
                        later[j],
                        later[j + 1],
                        Ok(()),
                    ) by {
                        if j < i {
                            assert(caches@[j] == held[j]);
                            assert(later[j] == recs[j] && later[j + 1] == recs[j + 1]);
                        }
                    }
                    recs = later;
                }
            },
            Err(e) => {
                proof {
                    assert(layers_evicted(
                        policy,
                        codec,
                        *scores,
                        list_view(per_layer),
                        target_len,
                        before,
                        caches@,
                        recs,
                        i as int,
                    )) by {
                        assert forall|j: int| 0 <= j < i implies layer_evicted(
                            policy,
                            codec,
                            *scores,
                            list_view(per_layer),
                            target_len,
                            j as usize,
                            before.len() as usize,
                            before[j],
                            #[trigger] caches@[j],
                            recs[j],
                            recs[j + 1],
                            Ok(()),
                        ) by {
                            assert(caches@[j] == held[j]);
                        }
                    }
                }
                return Err(e);
            },
        }
        i = i + 1;
    }
    Ok(())
}

/// Nothing is staged.
pub open spec fn nothing_staged() -> StagedView {
    StagedView { merges: None, compaction: None, reencode: None }
}

/// Every layer is as long as the first.
pub open spec fn uniform(caches: Seq<KVCache>) -> bool {
    forall|i: int|
        0 <= i < caches.len() ==> (#[trigger] caches[i])@.current_pos == caches[0]@.current_pos
}

/// Why some layer cannot keep the list: the first layer's reason.
pub open spec fn model_refusal(caches: Seq<KVCache>, list: Seq<usize>) -> Option<CacheOpError>
    decreases caches.len(),
{
    if caches.len() == 0 {
        None
    } else {
        match model_refusal(caches.drop_last(), list) {
            Some(e) => Some(e),
            None => match keep_answer(caches.last()@, nothing_staged(), list) {
                Err(e) => Some(e),
                Ok(()) => None,
            },
        }
    }
}

/// Every layer keeps the list, and each keep is recorded.
pub open spec fn model_kept(
    before: Seq<KVCache>,
    list: Seq<usize>,
    after: Seq<KVCache>,
    recs: Seq<RecorderView>,
) -> bool {
    &&& recs.len() == before.len() + 1
    &&& after.len() == before.len()
    &&& forall|i: int|
        0 <= i < before.len() ==> {
            &&& (#[trigger] after[i])@ == before[i]@.kept(list)
            &&& recs[i + 1] == record_step(
                recs[i],
                before[i]@,
                Some(CompactionView::Keep(list)),
                i as usize,
                before.len() as usize,
            )
        }
}

/// What a keep over all layers did.
pub open spec fn model_keep_ran(
    before: Seq<KVCache>,
    list: Seq<usize>,
    after: Seq<KVCache>,
    rec_before: RecorderView,
    rec_after: RecorderView,
    r: Result<EvictionResult, EvictError>,
) -> bool {
    match model_refusal(before, list) {
        Some(e) => {
            &&& r == Err::<EvictionResult, EvictError>(EvictError::Refused(e))
            &&& after == before
            &&& rec_after == rec_before
        },
        None => {
            &&& r == Ok::<EvictionResult, EvictError>(
                EvictionResult {
                    evicted: list.len() < before[0]@.current_pos,
                    tokens_removed: (before[0]@.current_pos - list.len()) as usize,
                    new_pos: list.len() as usize,
                },
            )
            &&& exists|recs: Seq<RecorderView>|
                #[trigger] model_kept(before, list, after, recs) && recs[0] == rec_before
                    && recs.last() == rec_after
        },
    }
}

/// What an eviction over all layers at once did: nothing without layers, an error for layers of
/// different lengths, nothing for layers already short enough, and else what the policy's one list
/// says.
pub open spec fn cross_layer_ran<P: EvictionPolicy>(
    policy: &P,
    target_len: usize,
    positions: Vec<usize>,
    before: Seq<KVCache>,
    after: Seq<KVCache>,
    rec_before: RecorderView,
    rec_after: RecorderView,
    r: Result<EvictionResult, EvictError>,
) -> bool {
    let still = EvictionResult { evicted: false, tokens_removed: 0, new_pos: max_pos(before) };
    if before.len() == 0 {
        &&& r == Ok::<EvictionResult, EvictError>(still)
        &&& after == before
        &&& rec_after == rec_before
    } else if !uniform(before) {
        &&& r == Err::<EvictionResult, EvictError>(EvictError::NotUniform)
        &&& after == before
        &&& rec_after == rec_before
    } else if target_len > 0 && before[0]@.current_pos <= target_len {
        &&& r == Ok::<EvictionResult, EvictError>(still)
        &&& after == before
        &&& rec_after == rec_before
    } else {
        exists|layers: Vec<KVCache>, answer: Result<Option<Vec<usize>>, EvictError>|
            {
                &&& layers@ == before
                &&& #[trigger] call_ensures(
                    P::keep_over_all_layers,
                    (policy, &layers, target_len, &positions),
                    answer,
                )
                &&& match answer {
                    Err(e) => {
                        &&& r == Err::<EvictionResult, EvictError>(e)
                        &&& after == before
                        &&& rec_after == rec_before
                    },
                    Ok(None) => {
                        &&& r == Ok::<EvictionResult, EvictError>(still)
                        &&& after == before
                        &&& rec_after == rec_before
                    },
                    Ok(Some(list)) => model_keep_ran(
                        before,
                        list@,
                        after,
                        rec_before,
                        rec_after,
                        r,
                    ),
                }
            }
    }
}

/// Layers of one length have that length as their longest.
proof fn lemma_uniform_max(caches: Seq<KVCache>)
    requires
        caches.len() > 0,
        uniform(caches),
    ensures
        max_pos(caches) == caches[0]@.current_pos,
{
    crate::eviction::lemma_max_pos(caches);
    let i = choose|i: int|
        0 <= i < caches.len() && (#[trigger] caches[i])@.current_pos == max_pos(caches);
    assert(caches[i]@.current_pos == caches[0]@.current_pos);
}

/// Why a layer cannot keep the list, if it cannot. The layer is left as it is.
fn keep_refusal(cache: &mut KVCache, list: &Vec<usize>) -> (r: Option<CacheOpError>)
    requires
        old(cache).wf(),
    ensures
        *final(cache) == *old(cache),
        match r {
            Some(e) => keep_answer(old(cache)@, nothing_staged(), list@) == Err::<(), CacheOpError>(
                e,
            ),
            None => keep_answer(old(cache)@, nothing_staged(), list@) is Ok,
        },
{
    let mut h = EngineCacheHandle::new(cache, 0, 1);
    match h.keep(list) {
        Ok(()) => None,
        Err(e) => Some(e),
    }
}

/// Keeps one list of positions in every layer, or, where some layer cannot, in none.
fn keep_in_every_layer<C: RowCodec>(
    caches: &mut Vec<KVCache>,
    list: &Vec<usize>,
    codec: &C,
    recorder: &mut KeepsetDump,
) -> (r: Result<(), EvictError>)
    requires
        all_wf(old(caches)@),
        old(recorder).wf(),
    ensures
        all_wf(final(caches)@),
        final(recorder).wf(),
        match model_refusal(old(caches)@, list@) {
            Some(e) => {
                &&& r == Err::<(), EvictError>(EvictError::Refused(e))
                &&& final(caches)@ == old(caches)@
                &&& final(recorder)@ == old(recorder)@
            },
            None => {
                &&& r is Ok
                &&& exists|recs: Seq<RecorderView>|
                    #[trigger] model_kept(old(caches)@, list@, final(caches)@, recs) && recs[0]
                        == old(recorder)@ && recs.last() == final(recorder)@
            },
        },
{
    let ghost before = caches@;
    let n: usize = caches.len();
    let mut i: usize = 0;
    assert(before.take(0) =~= Seq::<KVCache>::empty());
    while i < n
        invariant
            i <= n,
            n == before.len(),
            caches@ == before,
            before == old(caches)@,
            recorder@ == old(recorder)@,
            recorder.wf(),
            all_wf(before),
            model_refusal(before.take(i as int), list@) is None,
        decreases n - i,
    {
        assert(before.take(i + 1).drop_last() =~= before.take(i as int));
        let refusal = keep_refusal(&mut caches[i], list);
        assert(caches@ =~= before);
        match refusal {
            Some(e) => {
                proof {
                    lemma_refusal_is_final(before, list@, i + 1);
                }
                return Err(EvictError::Refused(e));
            },
            None => {},
        }
        i = i + 1;
    }
    assert(before.take(n as int) =~= before);
    let ghost mut recs = seq![recorder@];
    i = 0;
    while i < n
        invariant
            i <= n,
            n == before.len(),
            n == caches@.len(),
            before == old(caches)@,
            all_wf(before),
            all_wf(caches@),
            recorder.wf(),
            model_refusal(before, list@) is None,
            recs.len() == i + 1,
            recs[0] == old(recorder)@,
            recs[i as int] == recorder@,
            forall|j: int| i <= j < n ==> #[trigger] caches@[j] == before[j],
            forall|j: int|
                0 <= j < i ==> {
                    &&& (#[trigger] caches@[j])@ == before[j]@.kept(list@)
                    &&& recs[j + 1] == record_step(
                        recs[j],
                        before[j]@,
                        Some(CompactionView::Keep(list@)),
                        j as usize,
                        before.len() as usize,
                    )
                },
        decreases n - i,
    {
        let ghost held = caches@;
        proof {
            lemma_no_refusal(before, list@, i as int);
        }
        let mut copy: Vec<usize> = Vec::new();
        let mut k: usize = 0;
        while k < list.len()
            invariant
                k <= list@.len(),
                copy@ == list@.take(k as int),
            decreases list@.len() - k,
        {
            copy.push(list[k]);
            k = k + 1;
            assert(copy@ =~= list@.take(k as int));
        }
        assert(copy@ =~= list@);
        let plan = StagePlan { keep: Some(KeepSpec::LayerWide(copy)), merges: Vec::new() };
        let done = apply_plan(&mut caches[i], plan, i, n, codec, recorder);
        proof {
            assert(plan.merged() =~= nothing_staged());
            assert(plan.refusal(before[i as int]@) is None);
            assert(plan_applied(codec, before[i as int]@, plan, caches@[i as int]@, done));
            assert(done is Ok);
            lemma_keep_commit(codec, before[i as int]@, plan, caches@[i as int]@, done->Ok_0);
            assert(forall|j: int| 0 <= j < n && j != i ==> #[trigger] caches@[j] == held[j]);
            recs = recs.push(recorder@);
        }
        i = i + 1;
    }
    assert(model_kept(before, list@, caches@, recs));
    Ok(())
}

/// A commit of a keep alone leaves the kept rows.
proof fn lemma_keep_commit<C: RowCodec>(
    codec: &C,
    before: CacheView,
    plan: StagePlan,
    after: CacheView,
    changed: bool,
)
    requires
        plan.merges@.len() == 0,
        plan.keep matches Some(KeepSpec::LayerWide(_)),
        committed(codec, before, plan.staged(), after, changed),
    ensures
        after == before.kept((plan.keep->0)->LayerWide_0@),
{
}

/// The first layers' reason is the reason.
proof fn lemma_refusal_is_final(caches: Seq<KVCache>, list: Seq<usize>, upto: int)
    requires
        0 <= upto <= caches.len(),
        model_refusal(caches.take(upto), list) is Some,
    ensures
        model_refusal(caches, list) == model_refusal(caches.take(upto), list),
    decreases caches.len() - upto,
{
    if upto < caches.len() {
        assert(caches.take(upto + 1).drop_last() =~= caches.take(upto));
        lemma_refusal_is_final(caches, list, upto + 1);
    } else {
        assert(caches.take(upto) =~= caches);
    }
}

/// Where no layer refuses, each accepts.
proof fn lemma_no_refusal(caches: Seq<KVCache>, list: Seq<usize>, i: int)
    requires
        model_refusal(caches, list) is None,
        0 <= i < caches.len(),
    ensures
        keep_answer(caches[i]@, nothing_staged(), list) is Ok,
    decreases caches.len(),
{
    if i < caches.len() - 1 {
        assert(caches.drop_last()[i] == caches[i]);
        lemma_no_refusal(caches.drop_last(), list, i);
    }
}

/// Evicts all layers by one list of positions.
pub fn run_cross_layer_keepset_eviction<P: EvictionPolicy, C: RowCodec>(
    policy: &P,
    codec: &C,
    caches: &mut Vec<KVCache>,
    target_len: usize,
    positions: &Vec<usize>,
    recorder: &mut KeepsetDump,
) -> (r: Result<EvictionResult, EvictError>)
    requires
        all_wf(old(caches)@),
        old(recorder).wf(),
    ensures
        all_wf(final(caches)@),
        final(recorder).wf(),
        final(caches)@.len() == old(caches)@.len(),
        cross_layer_ran(
            policy,
            target_len,
            *positions,
            old(caches)@,
            final(caches)@,
            old(recorder)@,
            final(recorder)@,
            r,
        ),
{
    let ghost before = caches@;
    let still = EvictionResult { evicted: false, tokens_removed: 0, new_pos: max_cache_pos(caches) };
    if caches.len() == 0 {
        return Ok(still);
    }
    let n: usize = caches.len();
    let current: usize = caches[0].current_pos();
    let mut i: usize = 0;
    while i < n
        invariant
            i <= n,
            n == before.len(),
            n > 0,
            caches@ == before,
            before == old(caches)@,
            all_wf(before),
            recorder.wf(),
            recorder@ == old(recorder)@,
            current == before[0]@.current_pos,
            forall|j: int| 0 <= j < i ==> (#[trigger] before[j])@.current_pos == current,
        decreases n - i,
    {
        if caches[i].current_pos() != current {
            assert(!uniform(before));
            return Err(EvictError::NotUniform);
        }
        i = i + 1;
    }
    assert(uniform(before));
    if target_len > 0 && current <= target_len {
        return Ok(still);
    }
    let answer = policy.keep_over_all_layers(caches, target_len, positions);
    let ghost said = answer;
    proof {
        lemma_uniform_max(before);
        assert(call_ensures(
            P::keep_over_all_layers,
            (policy, &*caches, target_len, positions),
            said,
        ));
    }
    let ghost layers = *caches;
    assert(layers@ == before);
    match answer {
        Err(e) => Err(e),
        Ok(None) => Ok(still),
        Ok(Some(list)) => {
            let kept = keep_in_every_layer(caches, &list, codec, recorder);
            match kept {
                Err(e) => {
                    assert(model_keep_ran(
                        before,
                        list@,
                        caches@,
                        old(recorder)@,
                        recorder@,
                        Err(e),
                    ));
                    Err(e)
                },
                Ok(()) => {
                    proof {
                        lemma_no_refusal(before, list@, 0);
                        lemma_no_refusal_fits(before[0]@, list@);
                    }
                    let new_pos: usize = list.len();
                    Ok(
                        EvictionResult {
                            evicted: new_pos < current,
                            tokens_removed: current - new_pos,
                            new_pos,
                        },
                    )
                },
            }
        },
    }
}

/// A list that a layer accepts is no longer than the layer.
proof fn lemma_no_refusal_fits(c: CacheView, list: Seq<usize>)
    requires
        keep_answer(c, nothing_staged(), list) is Ok,
    ensures
        list.len() <= c.current_pos,
{
    crate::cache_handle::lemma_ascending_fits(list, c.current_pos as int);
}

/// What an eviction layer by layer did. With one target for all layers, nothing happens while the
/// longest layer is near it; with targets per layer, nothing is evicted where every layer is spared.
pub open spec fn layerwise_ran<P: EvictionPolicy, C: RowCodec>(
    policy: &P,
    codec: &C,
    scores: ScoreContext,
    per_layer: Option<Seq<usize>>,
    target_len: usize,
    before: Seq<KVCache>,
    after: Seq<KVCache>,
    rec_before: RecorderView,
    rec_after: RecorderView,
    r: Result<EvictionResult, EvictError>,
) -> bool {
    if per_layer is None && near_target(max_pos(before), target_len) {
        &&& r == Ok::<EvictionResult, EvictError>(
            EvictionResult { evicted: false, tokens_removed: 0, new_pos: max_pos(before) },
        )
        &&& after == before
        &&& rec_after == rec_before
    } else {
        exists|done: Result<(), EvictError>|
            {
                &&& #[trigger] eviction_ran(
                    policy,
                    codec,
                    scores,
                    per_layer,
                    target_len,
                    before,
                    after,
                    rec_before,
                    rec_after,
                    done,
                )
                &&& match done {
                    Err(e) => r == Err::<EvictionResult, EvictError>(e),
                    Ok(()) => r == Ok::<EvictionResult, EvictError>(
                        EvictionResult {
                            evicted: any_evicted(per_layer, target_len, before),
                            tokens_removed: (max_pos(before) - max_pos(after)) as usize,
                            new_pos: max_pos(after),
                        },
                    ),
                }
            }
    }
}

/// The positions of tokens that have never been moved.
pub open spec fn identity(n: usize) -> Seq<usize> {
    Seq::new(n as nat, |i: int| i as usize)
}

/// What an eviction did: nothing without layers; by one list for all layers where the policy decides
/// over all of them; and else layer by layer.
pub open spec fn policy_ran<P: EvictionPolicy, C: RowCodec>(
    policy: &P,
    codec: &C,
    scores: ScoreContext,
    per_layer: Option<Seq<usize>>,
    positions: Option<Seq<usize>>,
    target_len: usize,
    before: Seq<KVCache>,
    after: Seq<KVCache>,
    rec_before: RecorderView,
    rec_after: RecorderView,
    r: Result<EvictionResult, EvictError>,
) -> bool {
    if before.len() == 0 {
        &&& r == Ok::<EvictionResult, EvictError>(
            EvictionResult { evicted: false, tokens_removed: 0, new_pos: 0 },
        )
        &&& after == before
        &&& rec_after == rec_before
    } else {
        exists|whole: bool|
            {
                &&& #[trigger] call_ensures(P::is_whole_model, (policy,), whole)
                &&& if whole {
                    exists|stood: Vec<usize>|
                        {
                            &&& stood@ == match positions {
                                Some(p) => p,
                                None => identity(max_pos(before)),
                            }
                            &&& #[trigger] cross_layer_ran(
                                policy,
                                target_len,
                                stood,
                                before,
                                after,
                                rec_before,
                                rec_after,
                                r,
                            )
                        }
                } else {
                    layerwise_ran(
                        policy,
                        codec,
                        scores,
                        per_layer,
                        target_len,
                        before,
                        after,
                        rec_before,
                        rec_after,
                        r,
                    )
                }
            }
    }
}

fn identity_list(n: usize) -> (list: Vec<usize>)
    ensures
        list@ == identity(n),
{
    let mut list: Vec<usize> = Vec::new();
    let mut i: usize = 0;
    while i < n
        invariant
            i <= n,
            list@ == identity(i),
        decreases n - i,
    {
        list.push(i);
        i = i + 1;
        assert(list@ =~= identity(i));
    }
    assert(list@ =~= identity(n));
    list
}

/// Evicts layer by layer.
fn run_layerwise<P: EvictionPolicy, C: RowCodec>(
    policy: &P,
    codec: &C,
    caches: &mut Vec<KVCache>,
    target_len: usize,
    scores: &ScoreContext,
    per_layer: Option<&Vec<usize>>,
    recorder: &mut KeepsetDump,
) -> (r: Result<EvictionResult, EvictError>)
    requires
        all_wf(old(caches)@),
        old(recorder).wf(),
    ensures
        all_wf(final(caches)@),
        final(recorder).wf(),
        final(caches)@.len() == old(caches)@.len(),
        layerwise_ran(
            policy,
            codec,
            *scores,
            list_view(per_layer),
            target_len,
            old(caches)@,
            final(caches)@,
            old(recorder)@,
            final(recorder)@,
            r,
        ),
        r matches Ok(res) ==> res.new_pos == max_pos(final(caches)@) && res.tokens_removed
            == max_pos(old(caches)@) - max_pos(final(caches)@),
{
    let ghost before = caches@;
    let current: usize = max_cache_pos(caches);
    if per_layer.is_none() && is_near_target(current, target_len) {
        return Ok(EvictionResult { evicted: false, tokens_removed: 0, new_pos: current });
    }
    let evicted: bool = evicts_any(caches, per_layer, target_len);
    let done = evict_layers(policy, codec, scores, per_layer, target_len, caches, recorder);
    let ghost said = done;
    assert(eviction_ran(
        policy,
        codec,
        *scores,
        list_view(per_layer),
        target_len,
        before,
        caches@,
        old(recorder)@,
        recorder@,
        said,
    ));
    match done {
        Err(e) => Err(e),
        Ok(()) => {
            proof {
                lemma_max_pos_shrinks(before, caches@);
            }
            let new_pos: usize = max_cache_pos(caches);
            Ok(EvictionResult { evicted, tokens_removed: current - new_pos, new_pos })
        },
    }
}

/// Evicts all layers as the policy decides. A target of zero leaves the length to the policy.
pub fn run_policy_eviction<P: EvictionPolicy, C: RowCodec>(
    policy: &P,
    codec: &C,
    caches: &mut Vec<KVCache>,
    target_len: usize,
    scores: &ScoreContext,
    per_layer: Option<&Vec<usize>>,
    positions: Option<&Vec<usize>>,
    recorder: &mut KeepsetDump,
) -> (r: Result<EvictionResult, EvictError>)
    requires
        all_wf(old(caches)@),
        old(recorder).wf(),
    ensures
        all_wf(final(caches)@),
        final(recorder).wf(),
        final(caches)@.len() == old(caches)@.len(),
        policy_ran(
            policy,
            codec,
            *scores,
            list_view(per_layer),
            list_view(positions),
            target_len,
            old(caches)@,
            final(caches)@,
            old(recorder)@,
            final(recorder)@,
            r,
        ),
        r matches Ok(res) ==> res.new_pos == max_pos(final(caches)@) && res.tokens_removed
            == max_pos(old(caches)@) - max_pos(final(caches)@),
{
    let ghost before = caches@;
    if caches.len() == 0 {
        return Ok(EvictionResult { evicted: false, tokens_removed: 0, new_pos: 0 });
    }
    let whole: bool = policy.is_whole_model();
    assert(call_ensures(P::is_whole_model, (policy,), whole));
    if whole {
        let r = match positions {
            Some(stood) => run_cross_layer_keepset_eviction(
                policy,
                codec,
                caches,
                target_len,
                stood,
                recorder,
            ),
            None => {
                let stood = identity_list(max_cache_pos(caches));
                let r = run_cross_layer_keepset_eviction(
                    policy,
                    codec,
                    caches,
                    target_len,
                    &stood,
                    recorder,
                );
                assert(cross_layer_ran(
                    policy,
                    target_len,
                    stood,
                    before,
                    caches@,
                    old(recorder)@,
                    recorder@,
                    r,
                ));
                r
            },
        };
        proof {
            lemma_cross_layer_counts(
                policy,
                target_len,
                choose|stood: Vec<usize>|
                    #[trigger] cross_layer_ran(
                        policy,
                        target_len,
                        stood,
                        before,
                        caches@,
                        old(recorder)@,
                        recorder@,
                        r,
                    ),
                before,
                caches@,
                old(recorder)@,
                recorder@,
                r,
            );
        }
        return r;
    }
    run_layerwise(policy, codec, caches, target_len, scores, per_layer, recorder)
}

/// An eviction over all layers at once reports the length it leaves and the tokens it removed, and
/// leaves every layer with the same length.
pub proof fn lemma_cross_layer_counts<P: EvictionPolicy>(
    policy: &P,
    target_len: usize,
    positions: Vec<usize>,
    before: Seq<KVCache>,
    after: Seq<KVCache>,
    rec_before: RecorderView,
    rec_after: RecorderView,
    r: Result<EvictionResult, EvictError>,
)
    requires
        cross_layer_ran(
            policy,
            target_len,
            positions,
            before,
            after,
            rec_before,
            rec_after,
            r,
        ),
    ensures
        r matches Ok(res) ==> {
            &&& res.new_pos == max_pos(after)
            &&& res.tokens_removed == max_pos(before) - max_pos(after)
            &&& res.evicted == (max_pos(after) < max_pos(before))
            &&& uniform(after)
        },
        r is Err ==> after == before && rec_after == rec_before,
{
    if before.len() > 0 && uniform(before) {
        lemma_uniform_max(before);
        if !(target_len > 0 && before[0]@.current_pos <= target_len) {
            let (layers, answer) = choose|
                layers: Vec<KVCache>,
                answer: Result<Option<Vec<usize>>, EvictError>,
            |
                {
                    &&& layers@ == before
                    &&& #[trigger] call_ensures(
                        P::keep_over_all_layers,
                        (policy, &layers, target_len, &positions),
                        answer,
                    )
                    &&& match answer {
                        Err(e) => {
                            &&& r == Err::<EvictionResult, EvictError>(e)
                            &&& after == before
                            &&& rec_after == rec_before
                        },
                        Ok(None) => {
                            &&& r == Ok::<EvictionResult, EvictError>(
                                EvictionResult {
                                    evicted: false,
                                    tokens_removed: 0,
                                    new_pos: max_pos(before),
                                },
                            )
                            &&& after == before
                            &&& rec_after == rec_before
                        },
                        Ok(Some(list)) => model_keep_ran(
                            before,
                            list@,
                            after,
                            rec_before,
                            rec_after,
                            r,
                        ),
                    }
                };
            if let Ok(Some(list)) = answer {
                if model_refusal(before, list@) is None {
                    lemma_no_refusal(before, list@, 0);
                    lemma_no_refusal_fits(before[0]@, list@);
                    let recs = choose|recs: Seq<RecorderView>|
                        #[trigger] model_kept(before, list@, after, recs) && recs[0] == rec_before
                            && recs.last() == rec_after;
                    assert(forall|i: int|
                        0 <= i < after.len() ==> (#[trigger] after[i])@.current_pos
                            == list@.len());
                    assert(uniform(after));
                    lemma_uniform_max(after);
                    assert(after[0]@.current_pos == list@.len());
                }
            }
        }
    }
}

/// Scores make no difference to a policy that decides over all layers at once.
pub proof fn lemma_whole_model_ignores_scores<P: EvictionPolicy, C: RowCodec>(
    policy: &P,
    codec: &C,
    some: ScoreContext,
    other: ScoreContext,
    per_layer: Option<Seq<usize>>,
    positions: Option<Seq<usize>>,
    target_len: usize,
    before: Seq<KVCache>,
    after: Seq<KVCache>,
    rec_before: RecorderView,
    rec_after: RecorderView,
    r: Result<EvictionResult, EvictError>,
)
    requires
        forall|whole: bool| #[trigger] call_ensures(P::is_whole_model, (policy,), whole) ==> whole,
        policy_ran(
            policy,
            codec,
            some,
            per_layer,
            positions,
            target_len,
            before,
            after,
            rec_before,
            rec_after,
            r,
        ),
    ensures
        policy_ran(
            policy,
            codec,
            other,
            per_layer,
            positions,
            target_len,
            before,
            after,
            rec_before,
            rec_after,
            r,
        ),
{
}

/// With targets per layer, a layer near its own target comes through an eviction untouched, whatever
/// happens to the others.
pub proof fn lemma_spared_layer_is_untouched<P: EvictionPolicy, C: RowCodec>(
    policy: &P,
    codec: &C,
    scores: ScoreContext,
    targets: Seq<usize>,
    target_len: usize,
    before: Seq<KVCache>,
    after: Seq<KVCache>,
    rec_before: RecorderView,
    rec_after: RecorderView,
    r: Result<(), EvictError>,
    layer: int,
)
    requires
        eviction_ran(
            policy,
            codec,
            scores,
            Some(targets),
            target_len,
            before,
            after,
            rec_before,
            rec_after,
            r,
        ),
        0 <= layer < before.len() <= usize::MAX,
        near_target(before[layer]@.current_pos, layer_target(Some(targets), target_len, layer)),
    ensures
        after[layer] == before[layer],
{
    let (recs, upto) = choose|recs: Seq<RecorderView>, upto: int|
        {
            &&& 0 <= upto <= before.len()
            &&& recs[0] == rec_before
            &&& #[trigger] layers_evicted(
                policy,
                codec,
                scores,
                Some(targets),
                target_len,
                before,
                after,
                recs,
                upto,
            )
            &&& match r {
                Ok(()) => upto == before.len() && recs[upto] == rec_after,
                Err(e) => {
                    &&& upto < before.len()
                    &&& layer_evicted(
                        policy,
                        codec,
                        scores,
                        Some(targets),
                        target_len,
                        upto as usize,
                        before.len() as usize,
                        before[upto],
                        after[upto],
                        recs[upto],
                        rec_after,
                        Err(e),
                    )
                    &&& forall|i: int|
                        upto < i < before.len() ==> #[trigger] after[i] == before[i]
                },
            }
        };
    if layer < upto {
        assert(layer_evicted(
            policy,
            codec,
            scores,
            Some(targets),
            target_len,
            layer as usize,
            before.len() as usize,
            before[layer],
            after[layer],
            recs[layer],
            recs[layer + 1],
            Ok(()),
        ));
    }
}

/// Where every layer is near its own target nothing is asked and nothing changes, and the result says
/// that nothing was evicted.
pub proof fn lemma_all_spared_evicts_nothing<P: EvictionPolicy, C: RowCodec>(
    policy: &P,
    codec: &C,
    scores: ScoreContext,
    targets: Seq<usize>,
    positions: Option<Seq<usize>>,
    target_len: usize,
    before: Seq<KVCache>,
    after: Seq<KVCache>,
    rec_before: RecorderView,
    rec_after: RecorderView,
    r: Result<EvictionResult, EvictError>,
)
    requires
        forall|whole: bool| #[trigger] call_ensures(P::is_whole_model, (policy,), whole) ==> !whole,
        policy_ran(
            policy,
            codec,
            scores,
            Some(targets),
            positions,
            target_len,
            before,
            after,
            rec_before,
            rec_after,
            r,
        ),
        0 < before.len() <= usize::MAX,
        after.len() == before.len(),
        forall|layer: int|
            0 <= layer < before.len() ==> #[trigger] spared(
                Some(targets),
                target_len,
                before,
                layer,
            ),
    ensures
        after == before,
        rec_after == rec_before,
        r == Ok::<EvictionResult, EvictError>(
            EvictionResult { evicted: false, tokens_removed: 0, new_pos: max_pos(before) },
        ),
{
    let done = choose|done: Result<(), EvictError>|
        {
            &&& #[trigger] eviction_ran(
                policy,
                codec,
                scores,
                Some(targets),
                target_len,
                before,
                after,
                rec_before,
                rec_after,
                done,
            )
            &&& match done {
                Err(e) => r == Err::<EvictionResult, EvictError>(e),
                Ok(()) => r == Ok::<EvictionResult, EvictError>(
                    EvictionResult {
                        evicted: any_evicted(Some(targets), target_len, before),
                        tokens_removed: (max_pos(before) - max_pos(after)) as usize,
                        new_pos: max_pos(after),
                    },
                ),
            }
        };
    assert forall|layer: int| 0 <= layer < before.len() implies after[layer] == before[layer] by {
        assert(spared(Some(targets), target_len, before, layer));
        lemma_spared_layer_is_untouched(
            policy,
            codec,
            scores,
            targets,
            target_len,
            before,
            after,
            rec_before,
            rec_after,
            done,
            layer,
        );
    }
    assert(after =~= before);
    let (recs, upto) = choose|recs: Seq<RecorderView>, upto: int|
        {
            &&& 0 <= upto <= before.len()
            &&& recs[0] == rec_before
            &&& #[trigger] layers_evicted(
                policy,
                codec,
                scores,
                Some(targets),
                target_len,
                before,
                after,
                recs,
                upto,
            )
            &&& match done {
                Ok(()) => upto == before.len() && recs[upto] == rec_after,
                Err(e) => {
                    &&& upto < before.len()
                    &&& layer_evicted(
                        policy,
                        codec,
                        scores,
                        Some(targets),
                        target_len,
                        upto as usize,
                        before.len() as usize,
                        before[upto],
                        after[upto],
                        recs[upto],
                        rec_after,
                        Err(e),
                    )
                    &&& forall|i: int|
                        upto < i < before.len() ==> #[trigger] after[i] == before[i]
                },
            }
        };
    if upto < before.len() {
        assert(spared(Some(targets), target_len, before, upto));
    }
    lemma_spared_layers_record_nothing(
        policy,
        codec,
        scores,
        targets,
        target_len,
        before,
        after,
        recs,
        upto,
        upto,
    );
}

/// The recorder stays as it was while layers are spared.
proof fn lemma_spared_layers_record_nothing<P: EvictionPolicy, C: RowCodec>(
    policy: &P,
    codec: &C,
    scores: ScoreContext,
    targets: Seq<usize>,
    target_len: usize,
    before: Seq<KVCache>,
    after: Seq<KVCache>,
    recs: Seq<RecorderView>,
    upto: int,
    n: int,
)
    requires
        layers_evicted(
            policy,
            codec,
            scores,
            Some(targets),
            target_len,
            before,
            after,
            recs,
            upto,
        ),
        0 <= n <= upto <= before.len() <= usize::MAX,
        forall|layer: int|
            0 <= layer < before.len() ==> #[trigger] spared(
                Some(targets),
                target_len,
                before,
                layer,
            ),
    ensures
        recs[n] == recs[0],
    decreases n,
{
    if n > 0 {
        lemma_spared_layers_record_nothing(
            policy,
            codec,
            scores,
            targets,
            target_len,
            before,
            after,
            recs,
            upto,
            n - 1,
        );
        assert(spared(Some(targets), target_len, before, n - 1));
        let kept = after[n - 1];
        assert(layer_evicted(
            policy,
            codec,
            scores,
            Some(targets),
            target_len,
            (n - 1) as usize,
            before.len() as usize,
            before[n - 1],
            kept,
            recs[n - 1],
            recs[n - 1 + 1],
            Ok(()),
        ));
    }
}

/// An eviction that removed much less than it was asked to.
#[derive(Clone, Copy, Debug, PartialEq, Eq, Structural)]
pub struct Undershoot {
    pub removed: usize,
    pub expected: usize,
    /// The removed tokens in hundredths of the expected.
    pub percent: usize,
}

/// Whether an eviction that had a target removed less than half of what the target asked for, as one
/// does that may not touch the tokens it would have to remove.
pub fn undershoot(before: usize, target: usize, removed: usize) -> (r: Option<Undershoot>)
    ensures
        r is Some <==> before > target && removed < (before - target) / 2,
        r matches Some(u) ==> {
            &&& u.removed == removed
            &&& u.expected == before - target
            &&& u.percent == (removed * 100) / (before - target)
        },
{
    if before <= target {
        return None;
    }
    let expected: usize = before - target;
    if removed >= expected / 2 {
        return None;
    }
    let wide: u128 = (removed as u128 * 100) / expected as u128;
    assert(wide <= 100) by (nonlinear_arith)
        requires
            wide == (removed * 100) / expected as int,
            0 <= removed < expected,
    ;
    Some(Undershoot { removed, expected, percent: wide as usize })
}

/// The layer was evicted as the policy planned for it, down to `target`.
pub open spec fn evicted_as_planned<P: EvictionPolicy, C: RowCodec>(
    policy: &P,
    codec: &C,
    scores: ScoreContext,
    target: usize,
    layer: usize,
    n_layers: usize,
    before: KVCache,
    after: KVCache,
) -> bool {
    exists|plan: StagePlan, changed: bool|
        {
            &&& #[trigger] layer_asked(policy, before, scores, target, layer, n_layers, Ok(plan))
            &&& #[trigger] plan_applied(codec, before@, plan, after@, Ok(changed))
        }
}

/// Which layers an eviction asks its policy about, in tokens. With one target for all layers: all of
/// them, wherever one is at least 64 tokens above it, or there is no target; and none where every one
/// is less than that above it. With a target per layer: each that is at least 64 tokens above its
/// own, or has none; the others stay as they are. An eviction is reported where some layer was asked
/// about. What is removed is what the longest layer lost.
pub proof fn lemma_layers_far_from_their_target_are_evicted<P: EvictionPolicy, C: RowCodec>(
    policy: &P,
    codec: &C,
    scores: ScoreContext,
    per_layer: Option<Seq<usize>>,
    positions: Option<Seq<usize>>,
    target_len: usize,
    before: Seq<KVCache>,
    after: Seq<KVCache>,
    rec_before: RecorderView,
    rec_after: RecorderView,
    res: EvictionResult,
    layer: int,
)
    requires
        before.len() <= usize::MAX,
        after.len() == before.len(),
        forall|whole: bool| #[trigger]
            call_ensures(P::is_whole_model, (policy,), whole) ==> !whole,
        policy_ran(
            policy,
            codec,
            scores,
            per_layer,
            positions,
            target_len,
            before,
            after,
            rec_before,
            rec_after,
            Ok(res),
        ),
        0 <= layer < before.len(),
    ensures
        per_layer is None ==> {
            let far = target_len == 0 || exists|l: int|
                0 <= l < before.len() && (#[trigger] before[l])@.current_pos >= target_len + 64;
            &&& res.evicted == far
            &&& far ==> evicted_as_planned(
                policy,
                codec,
                scores,
                target_len,
                layer as usize,
                before.len() as usize,
                before[layer],
                after[layer],
            )
            &&& !far ==> after == before && rec_after == rec_before && res.tokens_removed == 0
        },
        per_layer matches Some(targets) ==> {
            let own = if layer < targets.len() {
                targets[layer]
            } else {
                target_len
            };
            let far = own == 0 || before[layer]@.current_pos >= own + 64;
            &&& far ==> res.evicted && evicted_as_planned(
                policy,
                codec,
                scores,
                own,
                layer as usize,
                before.len() as usize,
                before[layer],
                after[layer],
            )
            &&& !far ==> after[layer] == before[layer]
        },
        exists|l: int|
            0 <= l < after.len() && (#[trigger] after[l])@.current_pos == res.new_pos,
        after[layer]@.current_pos <= res.new_pos,
        before[layer]@.current_pos <= res.new_pos + res.tokens_removed,
        exists|l: int|
            0 <= l < before.len() && (#[trigger] before[l])@.current_pos == res.new_pos
                + res.tokens_removed,
{
    crate::eviction::lemma_max_pos(before);
    crate::eviction::lemma_max_pos(after);
    let whole = choose|whole: bool| #[trigger] call_ensures(P::is_whole_model, (policy,), whole)
        && !whole;
    let low = choose|l: int|
        0 <= l < before.len() && (#[trigger] before[l])@.current_pos == max_pos(before);
    if per_layer is None && near_target(max_pos(before), target_len) {
        assert(before[low]@.current_pos == res.new_pos + res.tokens_removed);
        assert(after[low]@.current_pos == res.new_pos);
    } else {
        let done = choose|done: Result<(), EvictError>|
            {
                &&& #[trigger] eviction_ran(
                    policy,
                    codec,
                    scores,
                    per_layer,
                    target_len,
                    before,
                    after,
                    rec_before,
                    rec_after,
                    done,
                )
                &&& match done {
                    Err(e) => false,
                    Ok(()) => res == (EvictionResult {
                        evicted: any_evicted(per_layer, target_len, before),
                        tokens_removed: (max_pos(before) - max_pos(after)) as usize,
                        new_pos: max_pos(after),
                    }),
                }
            };
        let (recs, upto) = choose|recs: Seq<RecorderView>, upto: int|
            {
                &&& 0 <= upto <= before.len()
                &&& recs[0] == rec_before
                &&& #[trigger] layers_evicted(
                    policy,
                    codec,
                    scores,
                    per_layer,
                    target_len,
                    before,
                    after,
                    recs,
                    upto,
                )
                &&& upto == before.len() && recs[upto] == rec_after
            };
        assert forall|i: int| 0 <= i < before.len() implies layer_evicted(
            policy,
            codec,
            scores,
            per_layer,
            target_len,
            i as usize,
            before.len() as usize,
            before[i],
            #[trigger] after[i],
            recs[i],
            recs[i + 1],
            Ok(()),
        ) by {}
        assert forall|i: int| 0 <= i < after.len() implies (#[trigger] after[i])@.current_pos
            <= before[i]@.current_pos by {
            assert(layer_evicted(
                policy,
                codec,
                scores,
                per_layer,
                target_len,
                i as usize,
                before.len() as usize,
                before[i],
                after[i],
                recs[i],
                recs[i + 1],
                Ok(()),
            ));
        }
        lemma_max_pos_shrinks(before, after);
        assert(before[low]@.current_pos == res.new_pos + res.tokens_removed);
        assert(layer_evicted(
            policy,
            codec,
            scores,
            per_layer,
            target_len,
            layer as usize,
            before.len() as usize,
            before[layer],
            after[layer],
            recs[layer],
            recs[layer + 1],
            Ok(()),
        ));
        let target = layer_target(per_layer, target_len, layer);
        if !spared(per_layer, target_len, before, layer) {
            let answer = choose|answer: Result<StagePlan, EvictError>|
                #[trigger] layer_asked(
                    policy,
                    before[layer],
                    scores,
                    target,
                    layer as usize,
                    before.len() as usize,
                    answer,
                ) && answer_applied(
                    codec,
                    before[layer]@,
                    answer,
                    layer as usize,
                    before.len() as usize,
                    after[layer]@,
                    recs[layer],
                    recs[layer + 1],
                    Ok(()),
                );
            assert(answer is Ok);
            assert(evicted_as_planned(
                policy,
                codec,
                scores,
                target,
                layer as usize,
                before.len() as usize,
                before[layer],
                after[layer],
            ));
        }
        if per_layer is None {
            assert(!spared(per_layer, target_len, before, layer));
            if target_len > 0 {
                assert(before[low]@.current_pos >= target_len + 64);
            }
        }
    }
}

/// A layer near its target is the one with a target and fewer than 64 tokens above it; a target is the
/// layer's own in a list that reaches it, and else the common one.
pub proof fn lemma_near_a_target(
    pos: usize,
    target: usize,
    per_layer: Option<Seq<usize>>,
    target_len: usize,
    layer: int,
)
    requires
        0 <= layer,
    ensures
        near_target(pos, target) <==> 0 < target && pos < target + 64,
        per_layer matches Some(list) ==> layer < list.len() ==> layer_target(
            per_layer,
            target_len,
            layer,
        ) == list[layer],
        per_layer matches Some(list) ==> layer >= list.len() ==> layer_target(
            per_layer,
            target_len,
            layer,
        ) == target_len,
        per_layer is None ==> layer_target(per_layer, target_len, layer) == target_len,
{
}

/// An eviction over all layers at once keeps one list in every layer: of every head the listed rows
/// come first, in order, and the layers all end at the list's length. It happens where the layers are
/// of one length, longer than a target there may be; and it is reported with what it removed.
pub proof fn lemma_model_keep_leaves_the_list<P: EvictionPolicy>(
    policy: &P,
    target_len: usize,
    positions: Vec<usize>,
    before: Seq<KVCache>,
    after: Seq<KVCache>,
    rec_before: RecorderView,
    rec_after: RecorderView,
    res: EvictionResult,
    layer: int,
)
    requires
        all_wf(before),
        cross_layer_ran(
            policy,
            target_len,
            positions,
            before,
            after,
            rec_before,
            rec_after,
            Ok(res),
        ),
        0 <= layer < before.len(),
    ensures
        forall|l: int|
            0 <= l < before.len() ==> (#[trigger] before[l])@.current_pos
                == before[0]@.current_pos,
        target_len > 0 && before[0]@.current_pos <= target_len ==> after == before && !res.evicted,
        after == before || exists|layers: Vec<KVCache>, list: Vec<usize>|
            {
                &&& layers@ == before
                &&& #[trigger] call_ensures(
                    P::keep_over_all_layers,
                    (policy, &layers, target_len, &positions),
                    Ok(Some(list)),
                )
                &&& rows_kept(before[layer]@, list@, after[layer]@)
                &&& res.new_pos == list@.len()
                &&& res.tokens_removed + list@.len() == before[0]@.current_pos
                &&& res.evicted == (list@.len() < before[0]@.current_pos)
            },
{
    lemma_uniform_max(before);
    if !(target_len > 0 && before[0]@.current_pos <= target_len) && after != before {
        let (layers, answer) = choose|
            layers: Vec<KVCache>,
            answer: Result<Option<Vec<usize>>, EvictError>,
        |
            {
                &&& layers@ == before
                &&& #[trigger] call_ensures(
                    P::keep_over_all_layers,
                    (policy, &layers, target_len, &positions),
                    answer,
                )
                &&& match answer {
                    Err(e) => false,
                    Ok(None) => {
                        &&& after == before
                        &&& rec_after == rec_before
                    },
                    Ok(Some(list)) => model_keep_ran(
                        before,
                        list@,
                        after,
                        rec_before,
                        rec_after,
                        Ok(res),
                    ),
                }
            };
        let list = answer->Ok_0->0;
        let recs = choose|recs: Seq<RecorderView>|
            #[trigger] model_kept(before, list@, after, recs) && recs[0] == rec_before && recs.last()
                == rec_after;
        assert(after[layer]@ == before[layer]@.kept(list@));
        lemma_model_accepts(before, list@, layer);
        lemma_model_accepts(before, list@, 0);
        lemma_no_refusal_fits(before[0]@, list@);
        assert(before[layer].wf());
        before[layer].lemma_wf();
        lemma_kept_rows_are_the_lists(before[layer]@, list@);
    }
}

/// Where no layer refuses the list, each accepts it.
proof fn lemma_model_accepts(caches: Seq<KVCache>, list: Seq<usize>, layer: int)
    requires
        model_refusal(caches, list) is None,
        0 <= layer < caches.len(),
    ensures
        keep_answer(caches[layer]@, nothing_staged(), list) is Ok,
    decreases caches.len(),
{
    if layer < caches.len() - 1 {
        lemma_model_accepts(caches.drop_last(), list, layer);
    }
}

/// `after` holds, of every head, the rows of the list in order and nothing else.
pub open spec fn rows_kept(before: CacheView, list: Seq<usize>, after: CacheView) -> bool {
    &&& after.current_pos == list.len()
    &&& after.starts.len() == before.shape.kv_heads
    &&& forall|h: int| 0 <= h < before.shape.kv_heads ==> #[trigger] after.starts[h] == 0
    &&& forall|h: int, i: int|
        0 <= h < before.shape.kv_heads && 0 <= i < list.len() ==> #[trigger] after.keys[h][i]
            == before.keys[h][list[i] as int] && after.values[h][i]
            == before.values[h][list[i] as int]
}

/// A keep leaves the rows of its list.
pub proof fn lemma_kept_rows_are_the_lists(c: CacheView, list: Seq<usize>)
    requires
        c.wf(),
        keep_answer(c, nothing_staged(), list) is Ok,
    ensures
        rows_kept(c, list, c.kept(list)),
{
    lemma_no_refusal_fits(c, list);
    let after = c.kept(list);
    assert forall|h: int, i: int|
        0 <= h < c.shape.kv_heads && 0 <= i < list.len() implies #[trigger] after.keys[h][i]
        == c.keys[h][list[i] as int] && after.values[h][i] == c.values[h][list[i] as int] by {
        assert(c.plane(crate::kv_cache::Side::Key)[h].len() == c.shape.capacity);
        assert(c.plane(crate::kv_cache::Side::Value)[h].len() == c.shape.capacity);
    }
}

/// When an eviction is reported as falling short: where more was there than the target and less than half
/// of the difference went, and what is then reported: what went, what should have, and the whole per cent
/// of it.
pub proof fn lemma_when_an_eviction_falls_short(before: usize, target: usize, removed: usize, r: Option<Undershoot>)
    requires
        call_ensures(undershoot, (before, target, removed), r),
    ensures
        r is Some <==> before > target && 2 * removed + 1 < before - target,
        r matches Some(u) ==> {
            &&& u.removed == removed
            &&& u.expected + target == before
            &&& u.percent * (before - target) <= 100 * removed < (u.percent + 1) * (before - target)
            &&& u.percent < 50
        },
{
    if let Some(u) = r {
        let n = before - target;
        let x = removed * 100;
        vstd::arithmetic::div_mod::lemma_fundamental_div_mod(x, n);
        vstd::arithmetic::div_mod::lemma_mod_bound(x, n);
        let q = x / n;
        assert(q * n <= x < (q + 1) * n) by (nonlinear_arith)
            requires
                x == n * q + x % n,
                0 <= x % n < n,
        ;
        assert(q < 50) by (nonlinear_arith)
            requires
                q * n <= x,
                2 * x < 100 * n,
                n > 0,
        ;
    }
}

} // verus!
