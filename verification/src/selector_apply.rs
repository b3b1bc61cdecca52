//! Applying a chosen plan to every layer.

use crate::arith::{div_up, up};
use crate::cache_handle::{apply_per_head_keep_at, check_keep_at, keep_answer, keep_at_refusal,
    keep_per_head_answer, keep_step, longest, longest_list, record_step, CompactionView,
    EngineCacheHandle, StagedView};
use crate::codec::RowCodec;
use crate::eviction::{all_wf, EvictError};
use crate::keep::KeepSpec;
use crate::keepset_dump::{KeepsetDump, RecorderView};
use crate::kv_cache::{CacheView, KVCache};
use crate::selector_plan::{layer_answered, stage_said, Candidate, Exclusion, Signals};
use crate::stage_registry::KVMutationStage;
use vstd::prelude::*;

verus! {

/// Every layer has a list for each of its heads, and some head.
pub open spec fn all_per_head(layers: Seq<KeepSpec>) -> bool {
    forall|l: int|
        0 <= l < layers.len() ==> (#[trigger] layers[l] matches KeepSpec::PerHead(heads)
            && heads@.len() > 0)
}

/// The longest list of a layer; nothing for a layer that keeps one list.
pub open spec fn layer_longest(keep: KeepSpec) -> nat {
    match keep {
        KeepSpec::PerHead(heads) => longest(heads.deep_view()),
        KeepSpec::LayerWide(_) => 0,
    }
}

/// The longest list of any layer.
pub open spec fn plan_longest(layers: Seq<KeepSpec>) -> nat
    decreases layers.len(),
{
    if layers.len() == 0 {
        0
    } else {
        let before = plan_longest(layers.drop_last());
        let own = layer_longest(layers.last());
        if own > before {
            own
        } else {
            before
        }
    }
}

/// Every layer holds at least so many positions.
pub open spec fn all_hold(caches: Seq<KVCache>, n: nat) -> bool {
    forall|l: int| 0 <= l < caches.len() ==> n <= (#[trigger] caches[l])@.current_pos
}

/// The cursor on which all layers are aligned: the longest list of any layer, where every layer
/// keeps a list per head and none would grow.
pub open spec fn spec_shared_cursor(layers: Seq<KeepSpec>, caches: Seq<KVCache>) -> Option<usize> {
    if layers.len() > 0 && all_per_head(layers) && all_hold(caches, plan_longest(layers)) {
        Some(plan_longest(layers) as usize)
    } else {
        None
    }
}

/// The cursor on which all layers are aligned.
pub fn shared_cursor(layers: &Vec<KeepSpec>, caches: &Vec<KVCache>) -> (r: Option<usize>)
    ensures
        r == spec_shared_cursor(layers@, caches@),
{
    if layers.len() == 0 {
        return None;
    }
    let mut n: usize = 0;
    let mut l: usize = 0;
    assert(layers@.take(0) =~= Seq::<KeepSpec>::empty());
    while l < layers.len()
        invariant
            l <= layers@.len(),
            n == plan_longest(layers@.take(l as int)),
            forall|x: int|
                0 <= x < l ==> (#[trigger] layers@[x] matches KeepSpec::PerHead(heads)
                    && heads@.len() > 0),
        decreases layers@.len() - l,
    {
        assert(layers@.take(l + 1).drop_last() =~= layers@.take(l as int));
        assert(layers@.take(l + 1).last() == layers@[l as int]);
        match &layers[l] {
            KeepSpec::LayerWide(_) => {
                assert(layers@[l as int] is LayerWide);
                return None;
            },
            KeepSpec::PerHead(heads) => {
                if heads.len() == 0 {
                    assert(layers@[l as int] == KeepSpec::PerHead(*heads));
                    return None;
                }
                let own: usize = longest_list(heads);
                if own > n {
                    n = own;
                }
            },
        }
        l = l + 1;
    }
    assert(layers@.take(l as int) =~= layers@);
    let mut c: usize = 0;
    while c < caches.len()
        invariant
            c <= caches@.len(),
            n == plan_longest(layers@),
            forall|x: int| 0 <= x < c ==> n <= (#[trigger] caches@[x])@.current_pos,
        decreases caches@.len() - c,
    {
        if n > caches[c].current_pos() {
            assert(!all_hold(caches@, n as nat));
            return None;
        }
        c = c + 1;
    }
    Some(n)
}

/// Nothing staged.
pub open spec fn nothing() -> StagedView {
    StagedView { merges: None, compaction: None, reencode: None }
}

/// The move that a keep stages.
pub open spec fn compaction_of(keep: KeepSpec) -> CompactionView {
    match keep {
        KeepSpec::LayerWide(list) => CompactionView::Keep(list@),
        KeepSpec::PerHead(heads) => CompactionView::KeepPerHead(heads.deep_view()),
    }
}

/// Why a keep cannot be applied to a layer, if it cannot.
pub open spec fn refused(c: CacheView, keep: KeepSpec, cursor: Option<usize>) -> Option<EvictError> {
    match keep {
        KeepSpec::LayerWide(list) => match keep_answer(c, nothing(), list@) {
            Ok(()) => None,
            Err(e) => Some(EvictError::Refused(e)),
        },
        KeepSpec::PerHead(heads) => match cursor {
            None => match keep_per_head_answer(c, nothing(), heads.deep_view()) {
                Ok(()) => None,
                Err(e) => Some(EvictError::Refused(e)),
            },
            Some(at) => match keep_at_refusal(c, heads.deep_view(), at) {
                Some(e) => Some(EvictError::Failed(e)),
                None => None,
            },
        },
    }
}

/// The layer after a keep.
pub open spec fn applied(c: CacheView, keep: KeepSpec, cursor: Option<usize>) -> CacheView {
    match (keep, cursor) {
        (KeepSpec::PerHead(heads), Some(at)) => c.kept_at(heads.deep_view(), at),
        _ => keep_step(c, Some(compaction_of(keep))),
    }
}

/// Why a keep cannot be applied to a layer, if it cannot; the layer stays as it is.
fn refusal(cache: &mut KVCache, keep: &KeepSpec, cursor: Option<usize>) -> (r: Option<EvictError>)
    requires
        old(cache).wf(),
    ensures
        *final(cache) == *old(cache),
        r == refused(old(cache)@, *keep, cursor),
{
    match (keep, cursor) {
        (KeepSpec::PerHead(heads), Some(at)) => {
            return match check_keep_at(cache, heads, at) {
                Some(e) => Some(EvictError::Failed(e)),
                None => None,
            };
        },
        _ => {},
    }
    let mut h = EngineCacheHandle::new(cache, 0, 1);
    assert(h.staged@ =~= nothing());
    let answer = match keep {
        KeepSpec::LayerWide(list) => h.keep(list),
        KeepSpec::PerHead(heads) => h.keep_per_head(heads),
    };
    match answer {
        Ok(()) => None,
        Err(e) => Some(EvictError::Refused(e)),
    }
}

/// Applies one layer's keep, per-head lists on the shared cursor if there is one.
fn apply_planned<C: RowCodec>(
    cache: &mut KVCache,
    layer_idx: usize,
    n_layers: usize,
    keep: &KeepSpec,
    cursor: Option<usize>,
    codec: &C,
    recorder: &mut KeepsetDump,
) -> (r: Result<(), EvictError>)
    requires
        old(cache).wf(),
        old(recorder).wf(),
    ensures
        final(cache).wf(),
        final(recorder).wf(),
        match refused(old(cache)@, *keep, cursor) {
            Some(e) => r == Err::<(), EvictError>(e) && final(cache)@ == old(cache)@ && final(recorder)@ == old(recorder)@,
            None => r is Ok && final(cache)@ == applied(old(cache)@, *keep, cursor) && final(recorder)@ == record_step(
                old(recorder)@,
                old(cache)@,
                Some(compaction_of(*keep)),
                layer_idx,
                n_layers,
            ),
        },
{
    proof {
        cache.lemma_wf();
    }
    match (keep, cursor) {
        (KeepSpec::PerHead(heads), Some(at)) => {
            return match apply_per_head_keep_at(cache, recorder, layer_idx, n_layers, heads, at) {
                Ok(()) => Ok(()),
                Err(e) => Err(EvictError::Failed(e)),
            };
        },
        _ => {},
    }
    let ghost before = cache@;
    let mut h = EngineCacheHandle::new(cache, layer_idx, n_layers);
    match keep {
        KeepSpec::LayerWide(list) => match h.keep(list) {
            Ok(()) => {},
            Err(e) => {
                return Err(EvictError::Refused(e));
            },
        },
        KeepSpec::PerHead(heads) => match h.keep_per_head(heads) {
            Ok(()) => {},
            Err(e) => {
                return Err(EvictError::Refused(e));
            },
        },
    }
    assert(h.staged@ =~= (StagedView { compaction: Some(compaction_of(*keep)), ..nothing() }));
    match h.commit(codec, recorder) {
        Ok(_) => Ok(()),
        Err(e) => Err(EvictError::Failed(e)),
    }
}

/// The recorder after the leading layers' keeps.
pub open spec fn layers_recorded(
    rec: RecorderView,
    caches: Seq<KVCache>,
    layers: Seq<KeepSpec>,
    n: nat,
) -> RecorderView
    decreases n,
{
    if n == 0 {
        rec
    } else {
        record_step(
            layers_recorded(rec, caches, layers, (n - 1) as nat),
            caches[n - 1]@,
            Some(compaction_of(layers[n - 1])),
            (n - 1) as usize,
            caches.len() as usize,
        )
    }
}

/// Every layer took its keep.
pub open spec fn layers_applied(
    before: Seq<KVCache>,
    layers: Seq<KeepSpec>,
    cursor: Option<usize>,
    after: Seq<KVCache>,
) -> bool {
    &&& after.len() == before.len()
    &&& forall|l: int|
        0 <= l < before.len() ==> refused(before[l]@, layers[l], cursor) is None && (
        #[trigger] after[l])@ == applied(before[l]@, layers[l], cursor)
}

/// `layer` is the first that refuses its keep, for this reason.
pub open spec fn first_refusal(
    caches: Seq<KVCache>,
    layers: Seq<KeepSpec>,
    cursor: Option<usize>,
    layer: usize,
    e: EvictError,
) -> bool {
    &&& layer < caches.len()
    &&& refused(caches[layer as int]@, layers[layer as int], cursor) == Some(e)
    &&& forall|l: int|
        0 <= l < layer ==> refused((#[trigger] caches[l])@, layers[l], cursor) is None
}

/// The first layer that refuses its keep, and why; the layers stay as they are.
fn find_refusal(caches: &mut Vec<KVCache>, layers: &Vec<KeepSpec>, cursor: Option<usize>) -> (r:
    Option<(usize, EvictError)>)
    requires
        all_wf(old(caches)@),
        layers@.len() == old(caches)@.len(),
    ensures
        final(caches)@ == old(caches)@,
        match r {
            Some((k, e)) => first_refusal(old(caches)@, layers@, cursor, k, e),
            None => forall|l: int|
                0 <= l < layers@.len() ==> refused(
                    (#[trigger] old(caches)@[l])@,
                    layers@[l],
                    cursor,
                ) is None,
        },
{
    let ghost before = caches@;
    let n: usize = caches.len();
    let mut l: usize = 0;
    while l < n
        invariant
            l <= n,
            n == before.len(),
            n == layers@.len(),
            before == old(caches)@,
            caches@ == before,
            all_wf(before),
            forall|x: int|
                0 <= x < l ==> refused((#[trigger] before[x])@, layers@[x], cursor) is None,
        decreases n - l,
    {
        let answer = refusal(&mut caches[l], &layers[l], cursor);
        assert(caches@ =~= before);
        if let Some(e) = answer {
            return Some((l, e));
        }
        l = l + 1;
    }
    None
}

/// Applies a plan to every layer. Where a layer refuses its keep, no layer takes its own.
pub fn apply_layers<C: RowCodec>(
    caches: &mut Vec<KVCache>,
    layers: &Vec<KeepSpec>,
    cursor: Option<usize>,
    codec: &C,
    recorder: &mut KeepsetDump,
) -> (r: Result<(), (usize, EvictError)>)
    requires
        all_wf(old(caches)@),
        old(recorder).wf(),
        layers@.len() == old(caches)@.len(),
    ensures
        all_wf(final(caches)@),
        final(recorder).wf(),
        match r {
            Ok(()) => {
                &&& layers_applied(old(caches)@, layers@, cursor, final(caches)@)
                &&& final(recorder)@ == layers_recorded(
                    old(recorder)@,
                    old(caches)@,
                    layers@,
                    layers@.len(),
                )
            },
            Err((k, e)) => {
                &&& first_refusal(old(caches)@, layers@, cursor, k, e)
                &&& final(caches)@ == old(caches)@
                &&& final(recorder)@ == old(recorder)@
            },
        },
{
    let ghost before = caches@;
    if let Some((k, e)) = find_refusal(caches, layers, cursor) {
        return Err((k, e));
    }
    let n: usize = caches.len();
    let mut l: usize = 0;
    while l < n
        invariant
            l <= n,
            n == before.len(),
            n == layers@.len(),
            caches@.len() == n,
            before == old(caches)@,
            all_wf(caches@),
            recorder.wf(),
            forall|x: int|
                0 <= x < n ==> refused((#[trigger] before[x])@, layers@[x], cursor) is None,
            forall|x: int|
                0 <= x < l ==> (#[trigger] caches@[x])@ == applied(before[x]@, layers@[x], cursor),
            forall|x: int| l <= x < n ==> (#[trigger] caches@[x])@ == before[x]@,
            recorder@ == layers_recorded(old(recorder)@, before, layers@, l as nat),
        decreases n - l,
    {
        let ghost mid = caches@;
        assert(refused(before[l as int]@, layers@[l as int], cursor) is None);
        let answer = apply_planned(&mut caches[l], l, n, &layers[l], cursor, codec, recorder);
        proof {
            assert(mid[l as int]@ == before[l as int]@);
            assert(caches@ =~= mid.update(l as int, caches@[l as int]));
            assert forall|x: int| 0 <= x < n && x != l implies #[trigger] caches@[x] == mid[x] by {}
            assert forall|x: int| 0 <= x < caches@.len() implies (#[trigger] caches@[x]).wf() by {
                if x != l {
                    assert(mid[x].wf());
                }
            }
        }
        match answer {
            Ok(()) => {},
            Err(e) => {
                assert(false);
                return Err((l, e));
            },
        }
        l = l + 1;
    }
    Ok(())
}

/// Tokens that the leading layers hold, each quoted as the mean of its heads, rounded up.
pub open spec fn layers_resident(caches: Seq<KVCache>, n: nat) -> nat
    decreases n,
{
    if n == 0 {
        0
    } else {
        layers_resident(caches, (n - 1) as nat) + caches[n - 1]@.spec_resident_tokens()
    }
}

/// The mean over the layers, rounded up; nothing where there are no layers.
pub open spec fn spec_mean_resident(caches: Seq<KVCache>) -> nat {
    if caches.len() == 0 {
        0
    } else {
        up(layers_resident(caches, caches.len()), caches.len())
    }
}

/// How many tokens a layer holds on average, rounded up.
pub fn layer_mean_resident(caches: &Vec<KVCache>) -> (n: usize)
    requires
        all_wf(caches@),
    ensures
        n == spec_mean_resident(caches@),
{
    assert(caches@.len() == caches.len());
    if caches.len() == 0 {
        return 0;
    }
    let mut sum: u128 = 0;
    let mut l: usize = 0;
    assert(0 * usize::MAX == 0);
    while l < caches.len()
        invariant
            l <= caches@.len(),
            all_wf(caches@),
            caches@.len() == caches.len(),
            sum == layers_resident(caches@, l as nat),
            sum <= l * usize::MAX,
        decreases caches@.len() - l,
    {
        let own: usize = caches[l].resident_tokens();
        proof {
            assert(l * usize::MAX + usize::MAX == (l + 1) * usize::MAX) by (nonlinear_arith);
            assert(l * usize::MAX + usize::MAX <= u128::MAX) by (nonlinear_arith)
                requires
                    l < usize::MAX,
            ;
        }
        sum = sum + own as u128;
        l = l + 1;
    }
    let n: u128 = caches.len() as u128;
    let mean: u128 = div_up(sum, n);
    proof {
        let s = sum as int;
        let k = n as int;
        let q = mean as int;
        vstd::arithmetic::div_mod::lemma_fundamental_div_mod(s + k - 1, k);
        assert(q <= usize::MAX) by (nonlinear_arith)
            requires
                s <= k * usize::MAX,
                q == (s + k - 1) / k,
                s + k - 1 == k * ((s + k - 1) / k) + (s + k - 1) % k,
                0 <= (s + k - 1) % k,
                k > 0,
        ;
    }
    mean as usize
}

/// A keep that a candidate answered with for a layer is not refused there; on a shared cursor it is
/// not refused where heads may differ and the cursor is no shorter than its lists and no longer
/// than the layer.
pub proof fn lemma_answered_keep_lands<S: KVMutationStage>(
    cand: &Candidate<S>,
    n_heads_q: usize,
    n_kv_heads: usize,
    cache: KVCache,
    layer: usize,
    n_layers: usize,
    ask: usize,
    signals: Signals,
    keep: KeepSpec,
    cursor: usize,
)
    requires
        layer_answered(
            cand,
            n_heads_q,
            n_kv_heads,
            cache,
            layer,
            n_layers,
            ask,
            signals,
            Ok(keep),
        ),
        layer_longest(keep) <= cursor <= cache@.current_pos,
        cache@.shape.spec_supports_ragged(),
    ensures
        refused(cache@, keep, None) is None,
        refused(cache@, keep, Some(cursor)) is None,
{
    assert(forall|ctx, r| #[trigger]
        stage_said(&cand.stage, ctx, cache@, r) && r == Ok::<Option<KeepSpec>, Exclusion>(Some(keep))
            ==> refused(cache@, keep, None) is None);
    if let KeepSpec::PerHead(heads) = keep {
        let lists = heads.deep_view();
        assert forall|h: int| 0 <= h < lists.len() implies (#[trigger] lists[h]).len() <= cursor by {
            lemma_longest(lists, h);
        }
    }
}

/// No list is longer than the longest.
proof fn lemma_longest(heads: Seq<Seq<usize>>, h: int)
    requires
        0 <= h < heads.len(),
    ensures
        heads[h].len() <= longest(heads),
    decreases heads.len(),
{
    if h < heads.len() - 1 {
        lemma_longest(heads.drop_last(), h);
    }
}

/// The longest list of a plan bounds every list, and some list has its length.
proof fn lemma_plan_longest_bounds(layers: Seq<KeepSpec>, l: int)
    requires
        0 <= l < layers.len(),
    ensures
        layer_longest(layers[l]) <= plan_longest(layers),
        exists|k: int|
            0 <= k < layers.len() && layer_longest(#[trigger] layers[k]) == plan_longest(layers),
    decreases layers.len(),
{
    let init = layers.drop_last();
    if init.len() > 0 {
        let m = if l < init.len() {
            l
        } else {
            0
        };
        lemma_plan_longest_bounds(init, m);
        if l < init.len() {
            assert(init[l] == layers[l]);
        }
        let k = choose|k: int|
            0 <= k < init.len() && layer_longest(#[trigger] init[k]) == plan_longest(init);
        assert(init[k] == layers[k]);
        if layer_longest(layers.last()) > plan_longest(init) {
            assert(layer_longest(layers[layers.len() - 1]) == plan_longest(layers));
        } else {
            assert(layer_longest(layers[k]) == plan_longest(layers));
        }
    } else {
        assert(plan_longest(init) == 0);
        assert(layer_longest(layers[layers.len() - 1]) == plan_longest(layers));
    }
}

/// The cursor that layers share: no list of any head is longer, some list is as long, every layer keeps a
/// list per head and holds that many positions. There is one exactly where that can be.
pub proof fn lemma_shared_cursor_is_the_longest_list(
    layers: Seq<KeepSpec>,
    caches: Seq<KVCache>,
    l: int,
    h: int,
)
    requires
        0 <= l < layers.len(),
    ensures
        spec_shared_cursor(layers, caches) matches Some(n) ==> {
            &&& layers[l] matches KeepSpec::PerHead(heads) && heads@.len() > 0 && (0 <= h
                < heads@.len() ==> heads@[h]@.len() <= n)
            &&& forall|k: int| 0 <= k < caches.len() ==> n <= (#[trigger] caches[k])@.current_pos
        },
        layers[l] is LayerWide ==> spec_shared_cursor(layers, caches) is None,
        (layers[l] matches KeepSpec::PerHead(heads) && 0 <= h < heads@.len() && exists|k: int|
            0 <= k < caches.len() && (#[trigger] caches[k])@.current_pos < heads@[h]@.len())
            ==> spec_shared_cursor(layers, caches) is None,
{
    lemma_plan_longest_bounds(layers, l);
    if let KeepSpec::PerHead(heads) = layers[l] {
        if 0 <= h < heads@.len() {
            lemma_longest(heads.deep_view(), h);
        }
    }
    if all_per_head(layers) && all_hold(caches, plan_longest(layers)) {
        let keep = layers[l];
        assert(keep is PerHead);
        let k = choose|k: int|
            0 <= k < layers.len() && layer_longest(#[trigger] layers[k]) == plan_longest(layers);
        assert(layers[k] is PerHead);
        let lists = layers[k]->PerHead_0;
        assert(lists@.len() > 0);
        crate::cache_handle::lemma_longest_bounds(lists.deep_view());
        let m = choose|m: int|
            0 <= m < lists.deep_view().len() && (#[trigger] lists.deep_view()[m]).len() == longest(
                lists.deep_view(),
            );
        assert(lists.deep_view()[m] == lists@[m]@);
        assert(lists@[m]@.len() == lists@[m].len());
        assert(plan_longest(layers) <= usize::MAX);
    }
}

/// Where every layer keeps a list per head and every layer holds as many positions as the longest list,
/// there is a shared cursor, and some list has its length.
pub proof fn lemma_when_a_cursor_is_shared(layers: Seq<KeepSpec>, caches: Seq<KVCache>)
    requires
        layers.len() > 0,
        forall|l: int|
            0 <= l < layers.len() ==> (#[trigger] layers[l] matches KeepSpec::PerHead(heads)
                && heads@.len() > 0),
        forall|l: int, k: int|
            0 <= l < layers.len() && 0 <= k < caches.len() ==> layer_longest(#[trigger] layers[l])
                <= (#[trigger] caches[k])@.current_pos,
    ensures
        spec_shared_cursor(layers, caches) matches Some(n) && exists|l: int, h: int|
            0 <= l < layers.len() && layers[l] is PerHead && 0 <= h < layers[l]->PerHead_0@.len() && (
            #[trigger] layers[l]->PerHead_0@[h])@.len() == n,
{
    lemma_plan_longest_bounds(layers, 0);
    let k = choose|k: int|
        0 <= k < layers.len() && layer_longest(#[trigger] layers[k]) == plan_longest(layers);
    assert forall|c: int| 0 <= c < caches.len() implies plan_longest(layers) <= (
    #[trigger] caches[c])@.current_pos by {
        assert(layer_longest(layers[k]) <= caches[c]@.current_pos);
    }
    assert(layers[k] is PerHead);
    let lists = layers[k]->PerHead_0;
    assert(lists@.len() > 0);
    crate::cache_handle::lemma_longest_bounds(lists.deep_view());
    let m = choose|m: int|
        0 <= m < lists.deep_view().len() && (#[trigger] lists.deep_view()[m]).len() == longest(
            lists.deep_view(),
        );
    assert(lists.deep_view()[m] == lists@[m]@);
    assert(lists@[m]@.len() == lists@[m].len());
    assert(plan_longest(layers) <= usize::MAX);
    assert(layers[k]->PerHead_0@[m]@.len() == plan_longest(layers));
}

/// What a plan leaves of a layer: of every head the rows of its list, in order; one list for all heads
/// fills the frame from its front, and lists of their own stand at the end of the shared cursor.
pub proof fn lemma_a_plan_leaves_its_lists(
    before: Seq<KVCache>,
    layers: Seq<KeepSpec>,
    cursor: Option<usize>,
    after: Seq<KVCache>,
    l: int,
    h: int,
    i: int,
)
    requires
        layers_applied(before, layers, cursor, after),
        0 <= l < before.len(),
        before[l]@.wf(),
        0 <= h < before[l]@.shape.kv_heads,
    ensures
        layers[l] matches KeepSpec::LayerWide(list) ==> {
            &&& after[l]@.current_pos == list@.len()
            &&& 0 <= i < list@.len() ==> after[l]@.keys[h][i] == before[l]@.keys[h][list@[i] as int]
            &&& 0 <= i < list@.len() ==> after[l]@.values[h][i]
                == before[l]@.values[h][list@[i] as int]
        },
        layers[l] matches KeepSpec::PerHead(heads) ==> (cursor matches Some(at) ==> {
            let front = at - heads@[h]@.len();
            &&& after[l]@.current_pos == at
            &&& after[l]@.starts[h] == front
            &&& 0 <= i < heads@[h]@.len() ==> after[l]@.keys[h][front + i]
                == before[l]@.keys[h][heads@[h]@[i] as int]
            &&& 0 <= i < heads@[h]@.len() ==> after[l]@.values[h][front + i]
                == before[l]@.values[h][heads@[h]@[i] as int]
        }),
{
    let c = before[l]@;
    let done = after[l]@;
    assert(refused(c, layers[l], cursor) is None);
    match layers[l] {
        KeepSpec::LayerWide(list) => {
            crate::policy_run::lemma_kept_rows_are_the_lists(c, list@);
        },
        KeepSpec::PerHead(heads) => {
            if let Some(at) = cursor {
                let lists = heads.deep_view();
                assert(lists[h] == heads@[h]@);
                if 0 <= i < lists[h].len() {
                    crate::compaction::lemma_kept_rows(c, lists, at, h, i);
                }
                assert(lists[h].len() <= at);
            }
        },
    }
}

/// One layer more in the count of tokens that layers hold, and the mean of it: enough for all layers,
/// and one less would not be.
pub proof fn lemma_mean_covers_the_layers(caches: Seq<KVCache>, n: nat)
    requires
        n < caches.len(),
    ensures
        layers_resident(caches, 0) == 0,
        layers_resident(caches, n + 1) == layers_resident(caches, n)
            + caches[n as int]@.spec_resident_tokens(),
        spec_mean_resident(caches) * caches.len() >= layers_resident(caches, caches.len()),
        spec_mean_resident(caches) > 0 ==> (spec_mean_resident(caches) - 1) * caches.len()
            < layers_resident(caches, caches.len()),
{
    crate::arith::lemma_up_is_the_least_enough(
        layers_resident(caches, caches.len()),
        caches.len(),
    );
}

/// One layer more in the record: its keep, with its own frame and heads, behind those before it.
pub proof fn lemma_layers_are_recorded_in_order(
    rec: RecorderView,
    caches: Seq<KVCache>,
    layers: Seq<KeepSpec>,
    n: nat,
)
    requires
        n < caches.len() <= usize::MAX,
        caches.len() == layers.len(),
    ensures
        layers_recorded(rec, caches, layers, 0) == rec,
        ({
            let before = layers_recorded(rec, caches, layers, n);
            let after = layers_recorded(rec, caches, layers, n + 1);
            let c = caches[n as int]@;
            &&& after.armed == before.armed
            &&& before.armed ==> {
                &&& after.captured.len() == before.captured.len() + 1
                &&& after.captured.last().layer_idx == n
                &&& after.captured.last().seq_len == c.current_pos
                &&& after.captured.last().n_kv_heads == c.shape.kv_heads
                &&& layers[n as int] matches KeepSpec::PerHead(heads)
                    ==> after.captured.last().keep == heads.deep_view()
                &&& layers[n as int] matches KeepSpec::LayerWide(list) ==> forall|h: int|
                    0 <= h < after.captured.last().keep.len() ==> #[trigger] after.captured.last().keep[h]
                        == list@
            }
            &&& before.to_file ==> after.state.n_layers == caches.len() && after.state.seq_len
                == c.current_pos && after.state.keep.dom().contains(n as usize)
        }),
{
}

/// A plan that is applied leaves as many layers as there were, and one that a layer refuses names the first
/// such layer.
pub proof fn lemma_a_plan_covers_every_layer(
    before: Seq<KVCache>,
    layers: Seq<KeepSpec>,
    cursor: Option<usize>,
    after: Seq<KVCache>,
    layer: usize,
    e: EvictError,
    l: int,
)
    ensures
        layers_applied(before, layers, cursor, after) ==> after.len() == before.len(),
        layers_applied(before, layers, cursor, after) ==> !first_refusal(
            before,
            layers,
            cursor,
            layer,
            e,
        ),
        first_refusal(before, layers, cursor, layer, e) ==> layer < before.len(),
        first_refusal(before, layers, cursor, layer, e) && 0 <= l < layer ==> refused(
            before[l]@,
            layers[l],
            cursor,
        ) is None,
{
    if layers_applied(before, layers, cursor, after) && layer < before.len() {
        let done = after[layer as int];
        assert(refused(before[layer as int]@, layers[layer as int], cursor) is None);
    }
    if first_refusal(before, layers, cursor, layer, e) && 0 <= l < layer {
        let c = before[l];
        assert(refused(c@, layers[l], cursor) is None);
    }
}

} // verus!
