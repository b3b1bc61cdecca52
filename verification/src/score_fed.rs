//! Evictions that are fed with attention scores.
//!
//! Scores are bit patterns of single-precision numbers: nothing here computes with them.

use crate::cache_manager::{work_of, CacheManager, SystemMonitor};
use crate::eviction::{all_wf, EvictError, EvictionResult, ScoreContext};
use crate::keepset_dump::KeepsetDump;
use crate::kv_cache::KVCache;
use crate::pressure::CachePressureHandler;
use vstd::prelude::*;

verus! {

/// Attention scores accumulated over the steps of a run.
pub struct AttentionScoreAccumulator {
    /// Whether scores are being accumulated.
    pub active: bool,
    /// Score of each position, over all layers.
    pub importance: Vec<u32>,
    /// Score of each head's positions, head after head.
    pub head_importance: Vec<u32>,
    /// The last layer's attention in the last step, head after head.
    pub last_step_head_attn: Option<Vec<u32>>,
    /// Score of each layer's positions, layer after layer, where layers are scored apart.
    pub layer_flat: Option<Vec<u32>>,
}

/// Scores pulled out of an accumulator for one eviction.
pub struct ExtractedScores {
    /// Score of each position, over all layers.
    pub scores: Vec<u32>,
    /// The last layer's attention in the last step.
    pub last_attn: Option<Vec<u32>>,
    /// Score of each layer's positions, and the positions per layer.
    pub per_layer: Option<(Vec<u32>, usize)>,
}

/// Two optional lists hold the same.
pub open spec fn same_list(a: Option<Vec<u32>>, b: Option<Vec<u32>>) -> bool {
    match (a, b) {
        (Some(x), Some(y)) => x@ == y@,
        (None, None) => true,
        _ => false,
    }
}

impl ExtractedScores {
    /// The scores as an eviction takes them.
    pub fn as_args(&self) -> (r: (
        Option<&Vec<u32>>,
        Option<&Vec<u32>>,
        Option<(&Vec<u32>, usize)>,
    ))
        ensures
            r.0 == Some(&self.scores),
            r.1 == match self.last_attn {
                Some(a) => Some(&a),
                None => None,
            },
            r.2 == match self.per_layer {
                Some(p) => Some((&p.0, p.1)),
                None => None,
            },
    {
        let last_attn = match &self.last_attn {
            Some(a) => Some(a),
            None => None,
        };
        let per_layer = match &self.per_layer {
            Some((flat, max_seq)) => Some((flat, *max_seq)),
            None => None,
        };
        (Some(&self.scores), last_attn, per_layer)
    }
}

fn copy_of(list: &Vec<u32>) -> (r: Vec<u32>)
    ensures
        r@ == list@,
{
    let mut r: Vec<u32> = Vec::new();
    let mut i: usize = 0;
    while i < list.len()
        invariant
            i <= list@.len(),
            r@ == list@.take(i as int),
        decreases list@.len() - i,
    {
        r.push(list[i]);
        i = i + 1;
        assert(r@ =~= list@.take(i as int));
    }
    assert(list@.take(i as int) =~= list@);
    r
}

/// Pulls the scores out of an accumulator; `None` when it accumulates nothing, and the eviction goes
/// by recency then. Where layers are scored apart, each has as many positions as the collapsed
/// scores.
pub fn extract_scores(acc: &AttentionScoreAccumulator) -> (r: Option<ExtractedScores>)
    ensures
        r is Some <==> acc.active,
        r matches Some(s) ==> {
            &&& s.scores@ == acc.importance@
            &&& same_list(s.last_attn, acc.last_step_head_attn)
            &&& (s.per_layer is Some <==> acc.layer_flat is Some)
            &&& (s.per_layer matches Some(p) ==> p.0@ == acc.layer_flat->0@ && p.1
                == acc.importance@.len())
        },
{
    if !acc.active {
        return None;
    }
    let last_attn = match &acc.last_step_head_attn {
        Some(a) => Some(copy_of(a)),
        None => None,
    };
    let per_layer = match &acc.layer_flat {
        Some(flat) => Some((copy_of(flat), acc.importance.len())),
        None => None,
    };
    Some(ExtractedScores { scores: copy_of(&acc.importance), last_attn, per_layer })
}

/// What a device accumulator holds, as far as it could be read back.
pub struct DeviceScores {
    /// Whether the device accumulates scores.
    pub active: bool,
    /// Score of each position, and of each head's positions.
    pub collapsed: Option<(Vec<u32>, Vec<u32>)>,
    /// Score of each layer's positions.
    pub layer_flat: Option<Vec<u32>>,
}

/// Whether the device's scores replace the accumulator's.
pub open spec fn device_scores_count(
    acc: AttentionScoreAccumulator,
    device: Option<DeviceScores>,
) -> bool {
    acc.active && (device matches Some(d) && d.active && d.collapsed is Some)
}

/// Brings the device's scores into the accumulator before an eviction reads them. Without a device,
/// and while either side accumulates nothing, nothing changes.
pub fn sync_gpu_scores_to_cpu(acc: &mut AttentionScoreAccumulator, device: Option<DeviceScores>)
    ensures
        final(acc).active == old(acc).active,
        final(acc).last_step_head_attn == old(acc).last_step_head_attn,
        !device_scores_count(*old(acc), device) ==> *final(acc) == *old(acc),
        device_scores_count(*old(acc), device) ==> {
            &&& final(acc).importance == (device->0.collapsed->0).0
            &&& final(acc).head_importance == (device->0.collapsed->0).1
            &&& final(acc).layer_flat == if old(acc).layer_flat is Some && device->0.layer_flat
                is Some {
                device->0.layer_flat
            } else {
                old(acc).layer_flat
            }
        },
{
    if !acc.active {
        return;
    }
    if let Some(scores) = device {
        if !scores.active {
            return;
        }
        if let Some((flat, head)) = scores.collapsed {
            acc.importance = flat;
            acc.head_importance = head;
            if acc.layer_flat.is_some() && scores.layer_flat.is_some() {
                acc.layer_flat = scores.layer_flat;
            }
        }
    }
}

/// Whether the device's per-layer scores start over with the accumulator's: they do where both
/// sides score layers apart.
pub fn reset_gpu_layer_flat(acc: &AttentionScoreAccumulator, device_active: Option<bool>) -> (clear:
    bool)
    ensures
        clear == (acc.active && acc.layer_flat is Some && device_active == Some(true)),
{
    match device_active {
        Some(active) => acc.active && acc.layer_flat.is_some() && active,
        None => false,
    }
}

/// The scores that count: each layer's own before the positions', and none without either.
pub open spec fn routed<'a>(
    scores: Option<&'a Vec<u32>>,
    last_attn: Option<&'a Vec<u32>>,
    per_layer: Option<(&'a Vec<u32>, usize)>,
) -> ScoreContext<'a> {
    match per_layer {
        Some((layer_flat, max_seq)) => ScoreContext::PerLayerFlat {
            layer_flat,
            max_seq,
            last_attn,
        },
        None => match scores {
            Some(importance) => ScoreContext::Flat { importance, last_attn },
            None => ScoreContext::Unscored,
        },
    }
}

/// Evicts by the scores that count: down to a share of the tokens when forced, and else where memory
/// is short.
pub fn route_evict<H: CachePressureHandler, M: SystemMonitor>(
    cm: &CacheManager<H, M>,
    caches: &mut Vec<KVCache>,
    recorder: &mut KeepsetDump,
    scores: Option<&Vec<u32>>,
    last_attn: Option<&Vec<u32>>,
    per_layer: Option<(&Vec<u32>, usize)>,
    force: bool,
    target_ratio: u32,
) -> (r: Result<EvictionResult, EvictError>)
    requires
        all_wf(old(caches)@),
        old(recorder).wf(),
    ensures
        all_wf(final(caches)@),
        final(recorder).wf(),
        final(caches)@.len() == old(caches)@.len(),
        cm.attempted(
            routed(scores, last_attn, per_layer),
            force,
            if force {
                Some(target_ratio)
            } else {
                None
            },
            work_of(*old(caches), *old(recorder)),
            work_of(*final(caches), *final(recorder)),
            r,
        ),
{
    match per_layer {
        Some((flat, max_seq)) => if force {
            cm.force_evict_with_per_layer_scores(
                caches,
                recorder,
                target_ratio,
                flat,
                max_seq,
                last_attn,
            )
        } else {
            cm.maybe_evict_with_per_layer_scores(caches, recorder, flat, max_seq, last_attn)
        },
        None => match scores {
            Some(importance) => if force {
                cm.force_evict_with_scores(caches, recorder, target_ratio, importance, last_attn)
            } else {
                cm.maybe_evict_with_scores(caches, recorder, importance, last_attn)
            },
            None => if force {
                cm.force_evict(caches, recorder, target_ratio)
            } else {
                cm.maybe_evict(caches, recorder)
            },
        },
    }
}

/// Which scores count: each layer's own where there are any, else those of the positions, else none; the
/// last attention goes with either.
pub proof fn lemma_which_scores_count<'a>(
    scores: Option<&'a Vec<u32>>,
    last_attn: Option<&'a Vec<u32>>,
    per_layer: Option<(&'a Vec<u32>, usize)>,
)
    ensures
        routed(scores, last_attn, per_layer) is Unscored <==> scores is None && per_layer is None,
        per_layer matches Some(own) ==> routed(scores, last_attn, per_layer) == (
        ScoreContext::PerLayerFlat { layer_flat: own.0, max_seq: own.1, last_attn }),
        per_layer is None ==> (scores matches Some(all) ==> routed(scores, last_attn, per_layer) == (
        ScoreContext::Flat { importance: all, last_attn })),
{
}

/// What is pulled out of an accumulator: nothing while it accumulates nothing, and else its scores as
/// they are; layers that are scored apart have as many positions each as there are scores.
pub proof fn lemma_what_is_extracted(acc: AttentionScoreAccumulator, r: Option<ExtractedScores>)
    requires
        call_ensures(extract_scores, (&acc,), r),
    ensures
        r is Some <==> acc.active,
        r matches Some(s) ==> {
            &&& s.scores@ == acc.importance@
            &&& s.last_attn is Some <==> acc.last_step_head_attn is Some
            &&& s.last_attn is Some ==> s.last_attn->0@ == acc.last_step_head_attn->0@
            &&& s.per_layer is Some <==> acc.layer_flat is Some
            &&& s.per_layer is Some ==> (s.per_layer->0).0@ == acc.layer_flat->0@ && (
            s.per_layer->0).1 == acc.importance@.len()
        },
{
}

/// When a device's scores replace the accumulator's: where both accumulate and the device's could be
/// read.
pub proof fn lemma_when_device_scores_count(acc: AttentionScoreAccumulator, device: Option<DeviceScores>)
    ensures
        device_scores_count(acc, device) ==> acc.active && device is Some && device->0.active
            && device->0.collapsed is Some,
        acc.active && device is Some && device->0.active && device->0.collapsed is Some
            ==> device_scores_count(acc, device),
{
}

/// When a device's per-layer scores start over: where both sides accumulate and layers are scored apart.
pub proof fn lemma_when_layer_scores_start_over(
    acc: AttentionScoreAccumulator,
    device_active: Option<bool>,
    clear: bool,
)
    requires
        call_ensures(reset_gpu_layer_flat, (&acc, device_active), clear),
    ensures
        clear ==> acc.active && acc.layer_flat is Some && device_active is Some && device_active->0,
        acc.active && acc.layer_flat is Some && device_active is Some && device_active->0 ==> clear,
{
}

} // verus!
