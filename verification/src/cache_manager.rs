//! The manager: reads the memory that is left, decides how hard to press, and has the pipeline
//! answer. Tokens moved to the swap come and go only when it is told so.

use crate::codec::RowCodec;
use crate::eviction::{all_wf, max_cache_pos, max_pos, EvictError, EvictionPolicy, EvictionResult,
    ScoreContext};
use crate::keepset_dump::KeepsetDump;
use crate::kv_cache::{CacheView, KVCache, KvError, Side};
use crate::pressure::{armed, clamp_bits, clamped_between, labelled, pipeline_ran,
    pipeline_results_to_eviction_result, results_view, spec_combined, ActionResult,
    CachePressureHandler, CachePressurePipeline, EvictionHandler, EvictionWork, HandlerContext,
    PressureLevel, PressureStageConfig, RatioMath};
use crate::swap::{latest, lemma_recall_undoes_offload, offloaded, recall_refusal, recalled,
    record_views, RecordView, SwapHandler, SwapRecord};
use vstd::prelude::*;

verus! {

/// Bytes of memory.
#[derive(Clone, Copy, Debug, PartialEq, Eq, Structural)]
pub struct MemoryStats {
    pub total: usize,
    pub available: usize,
    pub free: usize,
}

/// Memory could not be measured.
#[derive(Clone, Copy, Debug, PartialEq, Eq, Structural)]
pub struct MonitorError;

/// A way to measure memory.
pub trait SystemMonitor {
    fn mem_stats(&self) -> Result<MemoryStats, MonitorError>;
}

/// Evicts under memory pressure, or when told to.
pub struct CacheManager<H, M> {
    pipeline: CachePressurePipeline<H>,
    monitor: M,
    threshold_bytes: usize,
    swap_handler: Option<SwapHandler>,
}

/// The level at which the pipeline runs and the memory it is told of; `None` when it does not run.
/// A forced run is at the highest level whatever the memory; otherwise the pipeline runs only where
/// memory was measured and is short.
pub open spec fn run_level(stats: Result<MemoryStats, MonitorError>, threshold: usize, force: bool) -> Option<
    (PressureLevel, usize),
> {
    match stats {
        Ok(s) => if force {
            Some((PressureLevel::Emergency, s.available))
        } else if PressureLevel::spec_of(s.available, threshold) == PressureLevel::Normal {
            None
        } else {
            Some((PressureLevel::spec_of(s.available, threshold), s.available))
        },
        Err(_) => if force {
            Some((PressureLevel::Emergency, usize::MAX))
        } else {
            None
        },
    }
}

/// The level at which the pipeline runs and the memory it is told of.
pub fn decide_run(stats: Result<MemoryStats, MonitorError>, threshold: usize, force: bool) -> (r: Option<
    (PressureLevel, usize),
>)
    ensures
        r == run_level(stats, threshold, force),
{
    match stats {
        Ok(s) => {
            if force {
                return Some((PressureLevel::Emergency, s.available));
            }
            let level = PressureLevel::from_mem_available(s.available, threshold);
            if level == PressureLevel::Normal {
                None
            } else {
                Some((level, s.available))
            }
        },
        Err(_) => if force {
            Some((PressureLevel::Emergency, usize::MAX))
        } else {
            None
        },
    }
}

/// What an attempt did: nothing without layers or without pressure; otherwise what the pipeline did,
/// put together.
pub open spec fn dispatched<H: CachePressureHandler>(
    stages: Seq<PressureStageConfig<H>>,
    threshold: usize,
    stats: Result<MemoryStats, MonitorError>,
    scores: ScoreContext,
    force: bool,
    target_ratio: Option<u32>,
    before: EvictionWork,
    after: EvictionWork,
    r: Result<EvictionResult, EvictError>,
) -> bool {
    let level = run_level(stats, threshold, force);
    if before.caches@.len() == 0 || level is None {
        &&& r == Ok::<EvictionResult, EvictError>(
            EvictionResult { evicted: false, tokens_removed: 0, new_pos: max_pos(before.caches@) },
        )
        &&& after == before
    } else {
        let ctx = HandlerContext {
            pressure_level: (level->0).0,
            mem_available: (level->0).1,
            target_ratio,
            scores,
        };
        match r {
            Err(e) => pipeline_ran(stages, ctx, before, after, Err(e)),
            Ok(result) => exists|results: Seq<ActionResult>|
                #[trigger] pipeline_ran(stages, ctx, before, after, Ok(results)) && result
                    == spec_combined(results, max_pos(after.caches@)),
        }
    }
}

/// The layers and the recorder as one piece of work.
pub open spec fn work_of(caches: Vec<KVCache>, recorder: KeepsetDump) -> EvictionWork {
    EvictionWork { caches, recorder }
}

impl<H: CachePressureHandler, M: SystemMonitor> CacheManager<H, M> {
    /// The pipeline's stages.
    pub closed spec fn stages(self) -> Seq<PressureStageConfig<H>> {
        self.pipeline.stages@
    }

    /// The monitor.
    pub closed spec fn monitor(self) -> M {
        self.monitor
    }

    /// Bytes below which memory is short.
    pub closed spec fn threshold(self) -> usize {
        self.threshold_bytes
    }

    /// What is in the swap, where it is enabled.
    pub closed spec fn swap(self) -> Option<Seq<RecordView>> {
        match self.swap_handler {
            Some(s) => Some(s@),
            None => None,
        }
    }

    /// An attempt was made on what the monitor measured.
    pub open spec fn attempted(
        self,
        scores: ScoreContext,
        force: bool,
        target_ratio: Option<u32>,
        before: EvictionWork,
        after: EvictionWork,
        r: Result<EvictionResult, EvictError>,
    ) -> bool {
        exists|stats: Result<MemoryStats, MonitorError>|
            #[trigger] call_ensures(M::mem_stats, (&self.monitor(),), stats) && dispatched(
                self.stages(),
                self.threshold(),
                stats,
                scores,
                force,
                target_ratio,
                before,
                after,
                r,
            )
    }

    /// A manager over a pipeline, with the swap off.
    pub fn with_pipeline(pipeline: CachePressurePipeline<H>, monitor: M, threshold_bytes: usize) -> (r:
        Self)
        ensures
            r.stages() == pipeline.stages@,
            r.monitor() == monitor,
            r.threshold() == threshold_bytes,
            r.swap() is None,
    {
        CacheManager { pipeline, monitor, threshold_bytes, swap_handler: None }
    }

    /// Turns the swap on, empty.
    pub fn enable_swap(&mut self)
        ensures
            final(self).swap() == Some(Seq::<RecordView>::empty()),
            final(self).stages() == old(self).stages(),
            final(self).monitor() == old(self).monitor(),
            final(self).threshold() == old(self).threshold(),
    {
        self.swap_handler = Some(SwapHandler::new());
    }

    /// Runs the pipeline on what was measured.
    pub fn dispatch(
        &self,
        stats: Result<MemoryStats, MonitorError>,
        caches: &mut Vec<KVCache>,
        recorder: &mut KeepsetDump,
        scores: ScoreContext,
        force: bool,
        target_ratio: Option<u32>,
    ) -> (r: Result<EvictionResult, EvictError>)
        requires
            all_wf(old(caches)@),
            old(recorder).wf(),
        ensures
            all_wf(final(caches)@),
            final(recorder).wf(),
            final(caches)@.len() == old(caches)@.len(),
            dispatched(
                self.stages(),
                self.threshold(),
                stats,
                scores,
                force,
                target_ratio,
                work_of(*old(caches), *old(recorder)),
                work_of(*final(caches), *final(recorder)),
                r,
            ),
    {
        let still = EvictionResult {
            evicted: false,
            tokens_removed: 0,
            new_pos: max_cache_pos(caches),
        };
        if caches.len() == 0 {
            return Ok(still);
        }
        let (pressure_level, mem_available) = match decide_run(stats, self.threshold_bytes, force) {
            Some(level) => level,
            None => {
                return Ok(still);
            },
        };
        let mut layers: Vec<KVCache> = Vec::new();
        std::mem::swap(caches, &mut layers);
        let mut records = KeepsetDump::new(false);
        std::mem::swap(recorder, &mut records);
        let ctx = HandlerContext { pressure_level, mem_available, target_ratio, scores };
        let (work, outcome) = self.pipeline.execute(
            EvictionWork { caches: layers, recorder: records },
            &ctx,
        );
        let ghost said = results_view(outcome);
        let EvictionWork { caches: layers, recorder: records } = work;
        *caches = layers;
        *recorder = records;
        match outcome {
            Err(e) => Err(e),
            Ok(results) => {
                assert(said == Ok::<Seq<ActionResult>, EvictError>(results@));
                Ok(pipeline_results_to_eviction_result(&results, caches))
            },
        }
    }

    /// Measures memory, and runs the pipeline on it.
    fn execute_dispatch(
        &self,
        caches: &mut Vec<KVCache>,
        recorder: &mut KeepsetDump,
        scores: ScoreContext,
        force: bool,
        target_ratio: Option<u32>,
    ) -> (r: Result<EvictionResult, EvictError>)
        requires
            all_wf(old(caches)@),
            old(recorder).wf(),
        ensures
            all_wf(final(caches)@),
            final(recorder).wf(),
            final(caches)@.len() == old(caches)@.len(),
            self.attempted(
                scores,
                force,
                target_ratio,
                work_of(*old(caches), *old(recorder)),
                work_of(*final(caches), *final(recorder)),
                r,
            ),
    {
        let stats = self.monitor.mem_stats();
        assert(call_ensures(M::mem_stats, (&self.monitor(),), stats));
        self.dispatch(stats, caches, recorder, scores, force, target_ratio)
    }

    /// Evicts where memory is short.
    pub fn maybe_evict(&self, caches: &mut Vec<KVCache>, recorder: &mut KeepsetDump) -> (r: Result<
        EvictionResult,
        EvictError,
    >)
        requires
            all_wf(old(caches)@),
            old(recorder).wf(),
        ensures
            all_wf(final(caches)@),
            final(recorder).wf(),
            final(caches)@.len() == old(caches)@.len(),
            self.attempted(
                ScoreContext::Unscored,
                false,
                None,
                work_of(*old(caches), *old(recorder)),
                work_of(*final(caches), *final(recorder)),
                r,
            ),
    {
        self.execute_dispatch(caches, recorder, ScoreContext::Unscored, false, None)
    }

    /// Evicts by the positions' scores where memory is short.
    pub fn maybe_evict_with_scores(
        &self,
        caches: &mut Vec<KVCache>,
        recorder: &mut KeepsetDump,
        importance: &Vec<u32>,
        last_attn: Option<&Vec<u32>>,
    ) -> (r: Result<EvictionResult, EvictError>)
        requires
            all_wf(old(caches)@),
            old(recorder).wf(),
        ensures
            all_wf(final(caches)@),
            final(recorder).wf(),
            final(caches)@.len() == old(caches)@.len(),
            self.attempted(
                (ScoreContext::Flat { importance, last_attn }),
                false,
                None,
                work_of(*old(caches), *old(recorder)),
                work_of(*final(caches), *final(recorder)),
                r,
            ),
    {
        self.execute_dispatch(
            caches,
            recorder,
            ScoreContext::Flat { importance, last_attn },
            false,
            None,
        )
    }

    /// Evicts by each head's scores where memory is short.
    pub fn maybe_evict_with_head_scores(
        &self,
        caches: &mut Vec<KVCache>,
        recorder: &mut KeepsetDump,
        flat: &Vec<u32>,
        head: &Vec<u32>,
        n_kv_heads: usize,
    ) -> (r: Result<EvictionResult, EvictError>)
        requires
            all_wf(old(caches)@),
            old(recorder).wf(),
        ensures
            all_wf(final(caches)@),
            final(recorder).wf(),
            final(caches)@.len() == old(caches)@.len(),
            self.attempted(
                (ScoreContext::PerHead { flat, head, n_kv_heads }),
                false,
                None,
                work_of(*old(caches), *old(recorder)),
                work_of(*final(caches), *final(recorder)),
                r,
            ),
    {
        self.execute_dispatch(
            caches,
            recorder,
            ScoreContext::PerHead { flat, head, n_kv_heads },
            false,
            None,
        )
    }

    /// Evicts by each layer's own scores where memory is short.
    pub fn maybe_evict_with_per_layer_scores(
        &self,
        caches: &mut Vec<KVCache>,
        recorder: &mut KeepsetDump,
        layer_flat: &Vec<u32>,
        max_seq: usize,
        last_attn: Option<&Vec<u32>>,
    ) -> (r: Result<EvictionResult, EvictError>)
        requires
            all_wf(old(caches)@),
            old(recorder).wf(),
        ensures
            all_wf(final(caches)@),
            final(recorder).wf(),
            final(caches)@.len() == old(caches)@.len(),
            self.attempted(
                (ScoreContext::PerLayerFlat { layer_flat, max_seq, last_attn }),
                false,
                None,
                work_of(*old(caches), *old(recorder)),
                work_of(*final(caches), *final(recorder)),
                r,
            ),
    {
        self.execute_dispatch(
            caches,
            recorder,
            ScoreContext::PerLayerFlat { layer_flat, max_seq, last_attn },
            false,
            None,
        )
    }

    /// Evicts down to a share of the tokens, whatever the memory.
    pub fn force_evict(
        &self,
        caches: &mut Vec<KVCache>,
        recorder: &mut KeepsetDump,
        target_ratio: u32,
    ) -> (r: Result<EvictionResult, EvictError>)
        requires
            all_wf(old(caches)@),
            old(recorder).wf(),
        ensures
            all_wf(final(caches)@),
            final(recorder).wf(),
            final(caches)@.len() == old(caches)@.len(),
            self.attempted(
                ScoreContext::Unscored,
                true,
                Some(target_ratio),
                work_of(*old(caches), *old(recorder)),
                work_of(*final(caches), *final(recorder)),
                r,
            ),
    {
        self.execute_dispatch(caches, recorder, ScoreContext::Unscored, true, Some(target_ratio))
    }

    /// Evicts by the positions' scores down to a share of the tokens, whatever the memory.
    pub fn force_evict_with_scores(
        &self,
        caches: &mut Vec<KVCache>,
        recorder: &mut KeepsetDump,
        target_ratio: u32,
        importance: &Vec<u32>,
        last_attn: Option<&Vec<u32>>,
    ) -> (r: Result<EvictionResult, EvictError>)
        requires
            all_wf(old(caches)@),
            old(recorder).wf(),
        ensures
            all_wf(final(caches)@),
            final(recorder).wf(),
            final(caches)@.len() == old(caches)@.len(),
            self.attempted(
                (ScoreContext::Flat { importance, last_attn }),
                true,
                Some(target_ratio),
                work_of(*old(caches), *old(recorder)),
                work_of(*final(caches), *final(recorder)),
                r,
            ),
    {
        self.execute_dispatch(
            caches,
            recorder,
            ScoreContext::Flat { importance, last_attn },
            true,
            Some(target_ratio),
        )
    }

    /// Evicts by each head's scores down to a share of the tokens, whatever the memory.
    pub fn force_evict_with_head_scores(
        &self,
        caches: &mut Vec<KVCache>,
        recorder: &mut KeepsetDump,
        target_ratio: u32,
        flat: &Vec<u32>,
        head: &Vec<u32>,
        n_kv_heads: usize,
    ) -> (r: Result<EvictionResult, EvictError>)
        requires
            all_wf(old(caches)@),
            old(recorder).wf(),
        ensures
            all_wf(final(caches)@),
            final(recorder).wf(),
            final(caches)@.len() == old(caches)@.len(),
            self.attempted(
                (ScoreContext::PerHead { flat, head, n_kv_heads }),
                true,
                Some(target_ratio),
                work_of(*old(caches), *old(recorder)),
                work_of(*final(caches), *final(recorder)),
                r,
            ),
    {
        self.execute_dispatch(
            caches,
            recorder,
            ScoreContext::PerHead { flat, head, n_kv_heads },
            true,
            Some(target_ratio),
        )
    }

    /// Evicts by each layer's own scores down to a share of the tokens, whatever the memory.
    pub fn force_evict_with_per_layer_scores(
        &self,
        caches: &mut Vec<KVCache>,
        recorder: &mut KeepsetDump,
        target_ratio: u32,
        layer_flat: &Vec<u32>,
        max_seq: usize,
        last_attn: Option<&Vec<u32>>,
    ) -> (r: Result<EvictionResult, EvictError>)
        requires
            all_wf(old(caches)@),
            old(recorder).wf(),
        ensures
            all_wf(final(caches)@),
            final(recorder).wf(),
            final(caches)@.len() == old(caches)@.len(),
            self.attempted(
                (ScoreContext::PerLayerFlat { layer_flat, max_seq, last_attn }),
                true,
                Some(target_ratio),
                work_of(*old(caches), *old(recorder)),
                work_of(*final(caches), *final(recorder)),
                r,
            ),
    {
        self.execute_dispatch(
            caches,
            recorder,
            ScoreContext::PerLayerFlat { layer_flat, max_seq, last_attn },
            true,
            Some(target_ratio),
        )
    }

    /// The pipeline, for logs: each handler's name and the level from which it answers.
    pub fn policy_name(&self) -> (s: String)
        ensures
            labelled(self.stages(), true, s@),
    {
        self.pipeline.name()
    }

    /// The pipeline's identity: the handlers' names alone.
    pub fn policy_id(&self) -> (s: String)
        ensures
            labelled(self.stages(), false, s@),
    {
        self.pipeline.policy_id()
    }
}

impl<P: EvictionPolicy, C: RowCodec, R: RatioMath, M: SystemMonitor> CacheManager<
    EvictionHandler<P, C, R>,
    M,
> {
    /// A manager with one policy, which answers as soon as memory is short.
    pub fn new(policy: P, codec: C, math: R, monitor: M, threshold_bytes: usize, target_ratio: u32) -> (r:
        Self)
        ensures
            r.stages() == seq![
                PressureStageConfig {
                    min_level: PressureLevel::Warning,
                    handler: EvictionHandler { policy, codec, math, target_ratio },
                },
            ],
            r.monitor() == monitor,
            r.threshold() == threshold_bytes,
            r.swap() is None,
    {
        let stages = vec![
            PressureStageConfig {
                min_level: PressureLevel::Warning,
                handler: EvictionHandler { policy, codec, math, target_ratio },
            },
        ];
        assert(stages@ =~= seq![
            PressureStageConfig {
                min_level: PressureLevel::Warning,
                handler: EvictionHandler { policy, codec, math, target_ratio },
            },
        ]);
        CacheManager::with_pipeline(CachePressurePipeline::new(stages), monitor, threshold_bytes)
    }
}

/// The bit pattern of one, the largest share that can be moved out.
pub const WHOLE: u32 = 0x3f80_0000;

/// The sum of the counts; a sum that does not fit stands at the machine's maximum.
pub open spec fn total(counts: Seq<usize>) -> usize
    decreases counts.len(),
{
    if counts.len() == 0 {
        0
    } else {
        let sum = total(counts.drop_last()) + counts.last();
        if sum <= usize::MAX {
            sum as usize
        } else {
            usize::MAX
        }
    }
}

/// One layer's share was moved out.
pub open spec fn share_offloaded<R: RatioMath>(
    math: &R,
    ratio: u32,
    before: CacheView,
    out: Seq<RecordView>,
    layer: usize,
    n: usize,
    after: CacheView,
    out_after: Seq<RecordView>,
) -> bool {
    exists|prefix: usize|
        #[trigger] call_ensures(
            R::portion,
            (math, clamped_between(ratio, 0, WHOLE), before.current_pos),
            prefix,
        ) && offloaded(before, out, layer, prefix, n, after, out_after)
}

/// The first `upto` layers' shares were moved out, in order; `outs` is the swap before each of them
/// and after the last, `counts` the tokens moved.
pub open spec fn layers_offloaded<R: RatioMath>(
    math: &R,
    ratio: u32,
    before: Seq<KVCache>,
    after: Seq<KVCache>,
    outs: Seq<Seq<RecordView>>,
    counts: Seq<usize>,
) -> bool {
    &&& outs.len() == counts.len() + 1
    &&& counts.len() <= before.len()
    &&& forall|i: int|
        0 <= i < counts.len() ==> share_offloaded(
            math,
            ratio,
            before[i]@,
            outs[i],
            i as usize,
            counts[i],
            (#[trigger] after[i])@,
            outs[i + 1],
        )
    &&& forall|i: int| counts.len() <= i < before.len() ==> (#[trigger] after[i])@ == before[i]@
}

/// The first layers' latest prefixes were put back, in order.
pub open spec fn layers_recalled(
    before: Seq<KVCache>,
    after: Seq<KVCache>,
    outs: Seq<Seq<RecordView>>,
    counts: Seq<usize>,
) -> bool {
    &&& outs.len() == counts.len() + 1
    &&& counts.len() <= before.len()
    &&& forall|i: int|
        0 <= i < counts.len() ==> recalled(
            before[i]@,
            outs[i],
            i as usize,
            counts[i],
            (#[trigger] after[i])@,
            outs[i + 1],
        )
    &&& forall|i: int| counts.len() <= i < before.len() ==> (#[trigger] after[i])@ == before[i]@
}

/// What moving tokens out did. The first layer that refuses ends it.
pub open spec fn offload_ran<R: RatioMath>(
    math: &R,
    ratio: u32,
    swap: Option<Seq<RecordView>>,
    before: Seq<KVCache>,
    swap_after: Option<Seq<RecordView>>,
    after: Seq<KVCache>,
    r: Result<usize, KvError>,
) -> bool {
    if swap is None {
        r == Ok::<usize, KvError>(0) && swap_after is None && after == before
    } else {
        swap_after is Some && exists|outs: Seq<Seq<RecordView>>, counts: Seq<usize>|
            {
                &&& #[trigger] layers_offloaded(math, ratio, before, after, outs, counts)
                &&& outs[0] == swap->0
                &&& outs.last() == swap_after->0
                &&& match r {
                    Ok(n) => counts.len() == before.len() && n == total(counts),
                    Err(e) => {
                        &&& counts.len() < before.len()
                        &&& before[counts.len() as int]@.is_ragged()
                        &&& e == KvError::Ragged
                    },
                }
            }
    }
}

/// What putting tokens back did. The first layer that refuses ends it.
pub open spec fn recall_ran(
    swap: Option<Seq<RecordView>>,
    before: Seq<KVCache>,
    swap_after: Option<Seq<RecordView>>,
    after: Seq<KVCache>,
    r: Result<usize, KvError>,
) -> bool {
    if swap is None {
        r == Ok::<usize, KvError>(0) && swap_after is None && after == before
    } else {
        swap_after is Some && exists|outs: Seq<Seq<RecordView>>, counts: Seq<usize>|
            {
                &&& #[trigger] layers_recalled(before, after, outs, counts)
                &&& outs[0] == swap->0
                &&& outs.last() == swap_after->0
                &&& match r {
                    Ok(n) => counts.len() == before.len() && n == total(counts),
                    Err(e) => {
                        &&& counts.len() < before.len()
                        &&& recall_refusal(
                            before[counts.len() as int]@,
                            outs.last(),
                            counts.len() as usize,
                        ) == Some(e)
                    },
                }
            }
    }
}

/// Moves a share of every layer's oldest tokens out.
fn offload_layers<R: RatioMath>(
    swap: &mut SwapHandler,
    caches: &mut Vec<KVCache>,
    ratio: u32,
    math: &R,
) -> (r: Result<usize, KvError>)
    requires
        all_wf(old(caches)@),
    ensures
        all_wf(final(caches)@),
        final(caches)@.len() == old(caches)@.len(),
        offload_ran(
            math,
            ratio,
            Some(old(swap)@),
            old(caches)@,
            Some(final(swap)@),
            final(caches)@,
            r,
        ),
{
    let ghost before = caches@;
    let ghost mut outs = seq![swap@];
    let ghost mut counts: Seq<usize> = Seq::empty();
    let share: u32 = clamp_bits(ratio, 0, WHOLE);
    let n: usize = caches.len();
    let mut moved: usize = 0;
    let mut i: usize = 0;
    while i < n
        invariant
            i <= n,
            n == before.len(),
            n == caches@.len(),
            before == old(caches)@,
            all_wf(caches@),
            share == clamped_between(ratio, 0, WHOLE),
            counts.len() == i,
            outs[0] == old(swap)@,
            outs[i as int] == swap@,
            moved == total(counts),
            layers_offloaded(math, ratio, before, caches@, outs, counts),
        decreases n - i,
    {
        let ghost held = caches@;
        let ghost out = swap@;
        let ghost c = before[i as int]@;
        assert(caches@[i as int]@ == before[i as int]@);
        let prefix: usize = math.portion(share, caches[i].current_pos());
        assert(call_ensures(R::portion, (math, share, c.current_pos), prefix));
        let outcome = swap.offload_prefix(i, &mut caches[i], prefix);
        proof {
            assert(forall|j: int| 0 <= j < n && j != i ==> #[trigger] caches@[j] == held[j]);
        }
        match outcome {
            Err(e) => {
                assert(layers_offloaded(math, ratio, before, caches@, outs, counts));
                return Err(e);
            },
            Ok(count) => {
                proof {
                    let later = outs.push(swap@);
                    let more = counts.push(count);
                    assert(share_offloaded(math, ratio, c, out, i, count, caches@[i as int]@, swap@));
                    assert(more.drop_last() =~= counts);
                    assert forall|j: int| 0 <= j < more.len() implies share_offloaded(
                        math,
                        ratio,
                        before[j]@,
                        later[j],
                        j as usize,
                        more[j],
                        (#[trigger] caches@[j])@,
                        later[j + 1],
                    ) by {
                        if j < i {
                            assert(caches@[j] == held[j]);
                            assert(later[j] == outs[j] && later[j + 1] == outs[j + 1]);
                            assert(more[j] == counts[j]);
                        }
                    }
                    outs = later;
                    counts = more;
                }
                moved = moved.saturating_add(count);
            },
        }
        i = i + 1;
    }
    Ok(moved)
}

/// Puts every layer's latest prefix back.
fn recall_layers(swap: &mut SwapHandler, caches: &mut Vec<KVCache>) -> (r: Result<usize, KvError>)
    requires
        all_wf(old(caches)@),
    ensures
        all_wf(final(caches)@),
        final(caches)@.len() == old(caches)@.len(),
        recall_ran(Some(old(swap)@), old(caches)@, Some(final(swap)@), final(caches)@, r),
{
    let ghost before = caches@;
    let ghost mut outs = seq![swap@];
    let ghost mut counts: Seq<usize> = Seq::empty();
    let n: usize = caches.len();
    let mut moved: usize = 0;
    let mut i: usize = 0;
    while i < n
        invariant
            i <= n,
            n == before.len(),
            n == caches@.len(),
            before == old(caches)@,
            all_wf(caches@),
            counts.len() == i,
            outs[0] == old(swap)@,
            outs[i as int] == swap@,
            moved == total(counts),
            layers_recalled(before, caches@, outs, counts),
        decreases n - i,
    {
        let ghost held = caches@;
        assert(caches@[i as int]@ == before[i as int]@);
        let outcome = swap.recall_layer(i, &mut caches[i]);
        proof {
            assert(forall|j: int| 0 <= j < n && j != i ==> #[trigger] caches@[j] == held[j]);
        }
        match outcome {
            Err(e) => {
                assert(layers_recalled(before, caches@, outs, counts));
                return Err(e);
            },
            Ok(count) => {
                proof {
                    let later = outs.push(swap@);
                    let more = counts.push(count);
                    assert(more.drop_last() =~= counts);
                    assert forall|j: int| 0 <= j < more.len() implies recalled(
                        before[j]@,
                        later[j],
                        j as usize,
                        more[j],
                        (#[trigger] caches@[j])@,
                        later[j + 1],
                    ) by {
                        if j < i {
                            assert(caches@[j] == held[j]);
                            assert(later[j] == outs[j] && later[j + 1] == outs[j + 1]);
                            assert(more[j] == counts[j]);
                        }
                    }
                    outs = later;
                    counts = more;
                }
                moved = moved.saturating_add(count);
            },
        }
        i = i + 1;
    }
    Ok(moved)
}

impl<H: CachePressureHandler, M: SystemMonitor> CacheManager<H, M> {
    /// Moves a share of every layer's oldest tokens to the swap; returns how many. Without a swap
    /// nothing moves.
    pub fn offload<R: RatioMath>(&mut self, caches: &mut Vec<KVCache>, ratio: u32, math: &R) -> (r:
        Result<usize, KvError>)
        requires
            all_wf(old(caches)@),
        ensures
            all_wf(final(caches)@),
            final(caches)@.len() == old(caches)@.len(),
            final(self).stages() == old(self).stages(),
            final(self).monitor() == old(self).monitor(),
            final(self).threshold() == old(self).threshold(),
            offload_ran(
                math,
                ratio,
                old(self).swap(),
                old(caches)@,
                final(self).swap(),
                final(caches)@,
                r,
            ),
    {
        match &mut self.swap_handler {
            None => Ok(0),
            Some(swap) => offload_layers(swap, caches, ratio, math),
        }
    }

    /// Hands out what the swap holds, for a medium that holds it meanwhile.
    pub fn take_swapped(&mut self) -> (r: Vec<SwapRecord>)
        ensures
            match old(self).swap() {
                Some(out) => record_views(r@) == out && final(self).swap() == Some(
                    Seq::<RecordView>::empty(),
                ),
                None => r@.len() == 0 && final(self).swap() is None,
            },
            final(self).stages() == old(self).stages(),
            final(self).monitor() == old(self).monitor(),
            final(self).threshold() == old(self).threshold(),
    {
        match &mut self.swap_handler {
            None => Vec::new(),
            Some(swap) => swap.take_records(),
        }
    }

    /// Gives the swap back what it handed out. Without a swap nothing is taken in.
    pub fn put_swapped(&mut self, records: Vec<SwapRecord>)
        ensures
            final(self).swap() == match old(self).swap() {
                Some(_) => Some(record_views(records@)),
                None => None,
            },
            final(self).stages() == old(self).stages(),
            final(self).monitor() == old(self).monitor(),
            final(self).threshold() == old(self).threshold(),
    {
        match &mut self.swap_handler {
            None => {},
            Some(swap) => {
                swap.put_records(records);
            },
        }
    }

    /// Puts the latest prefix of every layer back; returns how many tokens. Without a swap nothing
    /// moves.
    pub fn recall(&mut self, caches: &mut Vec<KVCache>) -> (r: Result<usize, KvError>)
        requires
            all_wf(old(caches)@),
        ensures
            all_wf(final(caches)@),
            final(caches)@.len() == old(caches)@.len(),
            final(self).stages() == old(self).stages(),
            final(self).monitor() == old(self).monitor(),
            final(self).threshold() == old(self).threshold(),
            recall_ran(
                old(self).swap(),
                old(caches)@,
                final(self).swap(),
                final(caches)@,
                r,
            ),
    {
        match &mut self.swap_handler {
            None => Ok(0),
            Some(swap) => recall_layers(swap, caches),
        }
    }
}

/// With memory at or above the threshold an attempt that is not forced changes nothing, and neither
/// does one whose measurement failed.
pub proof fn lemma_no_pressure_changes_nothing<H: CachePressureHandler>(
    stages: Seq<PressureStageConfig<H>>,
    threshold: usize,
    stats: Result<MemoryStats, MonitorError>,
    scores: ScoreContext,
    target_ratio: Option<u32>,
    before: EvictionWork,
    after: EvictionWork,
    r: Result<EvictionResult, EvictError>,
)
    requires
        stats matches Ok(s) ==> s.available >= threshold,
        dispatched(stages, threshold, stats, scores, false, target_ratio, before, after, r),
    ensures
        after == before,
        r == Ok::<EvictionResult, EvictError>(
            EvictionResult { evicted: false, tokens_removed: 0, new_pos: max_pos(before.caches@) },
        ),
{
}

/// A forced attempt reaches every stage, whatever level it answers from.
pub proof fn lemma_forced_run_arms_every_stage<H>(
    stages: Seq<PressureStageConfig<H>>,
    stats: Result<MemoryStats, MonitorError>,
    threshold: usize,
)
    ensures
        run_level(stats, threshold, true) matches Some(level) && forall|i: int|
            0 <= i < stages.len() ==> armed(#[trigger] stages[i], level.0),
{
}

/// A stage that answers at a level answers at every higher one.
pub proof fn lemma_higher_level_arms_more<H>(
    stage: PressureStageConfig<H>,
    low: PressureLevel,
    high: PressureLevel,
)
    requires
        low.spec_rank() <= high.spec_rank(),
        armed(stage, low),
    ensures
        armed(stage, high),
{
}

/// A pipeline without stages changes nothing at any level.
pub proof fn lemma_empty_pipeline_changes_nothing<H: CachePressureHandler>(
    threshold: usize,
    stats: Result<MemoryStats, MonitorError>,
    scores: ScoreContext,
    force: bool,
    target_ratio: Option<u32>,
    before: EvictionWork,
    after: EvictionWork,
    r: Result<EvictionResult, EvictError>,
)
    requires
        dispatched::<H>(
            Seq::empty(),
            threshold,
            stats,
            scores,
            force,
            target_ratio,
            before,
            after,
            r,
        ),
    ensures
        after == before,
        r == Ok::<EvictionResult, EvictError>(
            EvictionResult { evicted: false, tokens_removed: 0, new_pos: max_pos(before.caches@) },
        ),
{
}

/// The record of a layer's first `n` tokens.
pub open spec fn prefix_record(c: CacheView, layer: usize, n: usize) -> RecordView {
    RecordView {
        layer,
        count: n,
        keys: c.prefix_rows(Side::Key, n as int),
        values: c.prefix_rows(Side::Value, n as int),
    }
}

/// The records of layers `low..high` that had tokens moved out, in order.
pub open spec fn layer_records(
    caches: Seq<KVCache>,
    counts: Seq<usize>,
    low: int,
    high: int,
) -> Seq<RecordView>
    decreases high - low,
{
    if high <= low {
        Seq::empty()
    } else {
        let rest = layer_records(caches, counts, low, high - 1);
        if counts[high - 1] == 0 {
            rest
        } else {
            rest.push(prefix_record(caches[high - 1]@, (high - 1) as usize, counts[high - 1]))
        }
    }
}

/// Where layer `low` had tokens moved out its record is the first, and it is its latest; where it
/// had none there is no record of it.
proof fn lemma_first_record(caches: Seq<KVCache>, counts: Seq<usize>, low: int, high: int)
    requires
        0 <= low < high <= counts.len() <= usize::MAX,
    ensures
        counts[low] == 0 ==> {
            &&& latest(layer_records(caches, counts, low, high), low as usize) == -1
            &&& layer_records(caches, counts, low, high) == layer_records(
                caches,
                counts,
                low + 1,
                high,
            )
        },
        counts[low] > 0 ==> {
            let records = layer_records(caches, counts, low, high);
            &&& latest(records, low as usize) == 0
            &&& records.len() > 0
            &&& records[0] == prefix_record(caches[low]@, low as usize, counts[low])
            &&& records.remove(0) == layer_records(caches, counts, low + 1, high)
        },
    decreases high - low,
{
    let records = layer_records(caches, counts, low, high);
    let rest = layer_records(caches, counts, low, high - 1);
    if high - 1 > low {
        lemma_first_record(caches, counts, low, high - 1);
        if counts[high - 1] > 0 {
            let added = prefix_record(caches[high - 1]@, (high - 1) as usize, counts[high - 1]);
            assert(records == rest.push(added));
            assert(records.drop_last() =~= rest);
            assert(records.last() == added);
            if counts[low] > 0 {
                assert(records.remove(0) =~= rest.remove(0).push(added));
            }
        }
    } else {
        assert(rest =~= Seq::empty());
        assert(layer_records(caches, counts, low + 1, high) =~= Seq::empty());
        if counts[low] > 0 {
            assert(records.last() == records[0]);
            assert(records.remove(0) =~= Seq::empty());
        }
    }
}

/// What is out after the first `k` layers' shares were moved to an empty swap.
proof fn lemma_offloaded_records<R: RatioMath>(
    math: &R,
    ratio: u32,
    before: Seq<KVCache>,
    after: Seq<KVCache>,
    outs: Seq<Seq<RecordView>>,
    counts: Seq<usize>,
    k: int,
)
    requires
        layers_offloaded(math, ratio, before, after, outs, counts),
        outs[0] == Seq::<RecordView>::empty(),
        0 <= k <= counts.len(),
    ensures
        outs[k] == layer_records(before, counts, 0, k),
    decreases k,
{
    if k > 0 {
        lemma_offloaded_records(math, ratio, before, after, outs, counts, k - 1);
        assert(share_offloaded(
            math,
            ratio,
            before[k - 1]@,
            outs[k - 1],
            (k - 1) as usize,
            counts[k - 1],
            after[k - 1]@,
            outs[k - 1 + 1],
        ));
    }
}

/// Moving a share of every layer to an empty swap and recalling it returns every layer to what it
/// was, and leaves the swap empty.
pub proof fn lemma_recall_returns_every_layer<R: RatioMath>(
    math: &R,
    ratio: u32,
    before: Seq<KVCache>,
    middle: Seq<KVCache>,
    after: Seq<KVCache>,
    out: Seq<RecordView>,
    left: Seq<RecordView>,
    moved: usize,
    returned: Result<usize, KvError>,
)
    requires
        forall|i: int| 0 <= i < before.len() ==> (#[trigger] before[i])@.wf(),
        forall|i: int| 0 <= i < before.len() ==> !(#[trigger] before[i])@.is_ragged(),
        before.len() <= usize::MAX,
        offload_ran(math, ratio, Some(Seq::empty()), before, Some(out), middle, Ok(moved)),
        recall_ran(Some(out), middle, Some(left), after, returned),
        middle.len() == before.len(),
    ensures
        returned == Ok::<usize, KvError>(moved),
        forall|i: int| 0 <= i < before.len() ==> (#[trigger] after[i])@ == before[i]@,
        left == Seq::<RecordView>::empty(),
{
    let (outs, counts) = choose|outs: Seq<Seq<RecordView>>, counts: Seq<usize>|
        {
            &&& #[trigger] layers_offloaded(math, ratio, before, middle, outs, counts)
            &&& outs[0] == Seq::<RecordView>::empty()
            &&& outs.last() == out
            &&& counts.len() == before.len() && moved == total(counts)
        };
    let (backs, counts2) = choose|outs: Seq<Seq<RecordView>>, counts: Seq<usize>|
        {
            &&& #[trigger] layers_recalled(middle, after, outs, counts)
            &&& outs[0] == out
            &&& outs.last() == left
            &&& match returned {
                Ok(n) => counts.len() == middle.len() && n == total(counts),
                Err(e) => {
                    &&& counts.len() < middle.len()
                    &&& recall_refusal(
                        middle[counts.len() as int]@,
                        outs.last(),
                        counts.len() as usize,
                    ) == Some(e)
                },
            }
        };
    let n = before.len() as int;
    lemma_offloaded_records(math, ratio, before, middle, outs, counts, n);
    assert(outs[n] == out);
    lemma_recalled_layers(math, ratio, before, middle, after, outs, counts, backs, counts2, counts2.len() as int);
    if returned is Err {
        let k = counts2.len() as int;
        lemma_recall_accepts(math, ratio, before, middle, outs, counts, k);
        assert(backs[k] == layer_records(before, counts, k, n));
        assert(false);
    }
    assert(counts2 =~= counts);
    assert(layer_records(before, counts, n, n) =~= Seq::empty());
}

/// A layer whose share is out as its record takes it back.
proof fn lemma_recall_accepts<R: RatioMath>(
    math: &R,
    ratio: u32,
    before: Seq<KVCache>,
    middle: Seq<KVCache>,
    outs: Seq<Seq<RecordView>>,
    counts: Seq<usize>,
    k: int,
)
    requires
        forall|i: int| 0 <= i < before.len() ==> (#[trigger] before[i])@.wf(),
        forall|i: int| 0 <= i < before.len() ==> !(#[trigger] before[i])@.is_ragged(),
        before.len() <= usize::MAX,
        layers_offloaded(math, ratio, before, middle, outs, counts),
        counts.len() == before.len(),
        0 <= k < before.len(),
    ensures
        recall_refusal(
            middle[k]@,
            layer_records(before, counts, k, before.len() as int),
            k as usize,
        ) is None,
        counts[k] > 0 ==> middle[k]@.with_prefix(
            prefix_record(before[k]@, k as usize, counts[k]),
        ) == before[k]@,
        counts[k] == 0 ==> middle[k]@ == before[k]@,
{
    let n = before.len() as int;
    lemma_first_record(before, counts, k, n);
    assert(share_offloaded(
        math,
        ratio,
        before[k]@,
        outs[k],
        k as usize,
        counts[k],
        middle[k]@,
        outs[k + 1],
    ));
    if counts[k] > 0 {
        assert(before[k]@.wf() && !before[k]@.is_ragged());
        lemma_recall_undoes_offload(
            before[k]@,
            counts[k],
            prefix_record(before[k]@, k as usize, counts[k]),
        );
    }
}

/// After `k` layers were recalled, they are what they were, as many tokens came back as went out,
/// and the records of the others are left.
proof fn lemma_recalled_layers<R: RatioMath>(
    math: &R,
    ratio: u32,
    before: Seq<KVCache>,
    middle: Seq<KVCache>,
    after: Seq<KVCache>,
    outs: Seq<Seq<RecordView>>,
    counts: Seq<usize>,
    backs: Seq<Seq<RecordView>>,
    counts2: Seq<usize>,
    k: int,
)
    requires
        forall|i: int| 0 <= i < before.len() ==> (#[trigger] before[i])@.wf(),
        forall|i: int| 0 <= i < before.len() ==> !(#[trigger] before[i])@.is_ragged(),
        before.len() <= usize::MAX,
        middle.len() == before.len(),
        layers_offloaded(math, ratio, before, middle, outs, counts),
        layers_recalled(middle, after, backs, counts2),
        counts.len() == before.len(),
        backs[0] == layer_records(before, counts, 0, before.len() as int),
        0 <= k <= counts2.len(),
    ensures
        backs[k] == layer_records(before, counts, k, before.len() as int),
        forall|i: int| 0 <= i < k ==> (#[trigger] after[i])@ == before[i]@,
        forall|i: int| 0 <= i < k ==> #[trigger] counts2[i] == counts[i],
    decreases k,
{
    if k > 0 {
        let j = k - 1;
        let n = before.len() as int;
        lemma_recalled_layers(math, ratio, before, middle, after, outs, counts, backs, counts2, j);
        lemma_first_record(before, counts, j, n);
        lemma_recall_accepts(math, ratio, before, middle, outs, counts, j);
        assert(recalled(
            middle[j]@,
            backs[j],
            j as usize,
            counts2[j],
            after[j]@,
            backs[j + 1],
        ));
    }
}

/// When an attempt reaches the pipeline, and at which level: a forced one always, at the highest; one
/// that is not forced only where memory was measured below the threshold, at the level of what is left.
/// The handlers are told the memory that was measured, and the machine's maximum where none was.
pub proof fn lemma_when_the_pipeline_runs(
    stats: Result<MemoryStats, MonitorError>,
    threshold: usize,
    force: bool,
)
    ensures
        ({
            let run = run_level(stats, threshold, force);
            &&& run is Some <==> force || (stats matches Ok(s) && s.available < threshold)
            &&& force ==> (run->0).0 == PressureLevel::Emergency
            &&& run is Some ==> (stats matches Ok(s) ==> (run->0).1 == s.available)
            &&& run is Some && stats is Err ==> (run->0).1 == usize::MAX
            &&& run is Some && !force ==> (stats matches Ok(s) && match (run->0).0 {
                PressureLevel::Normal => false,
                PressureLevel::Warning => 2 * s.available + 1 >= threshold,
                PressureLevel::Critical => 2 * s.available + 1 < threshold && 4 * s.available + 3
                    >= threshold,
                PressureLevel::Emergency => 4 * s.available + 3 < threshold,
            })
        }),
{
}

/// What an attempt that reaches the pipeline hands it and what it reports: the handlers see the level,
/// the memory, the caller's share and the caller's scores, and a result adds up what they did.
pub proof fn lemma_what_the_pipeline_is_told<H: CachePressureHandler>(
    stages: Seq<PressureStageConfig<H>>,
    threshold: usize,
    stats: Result<MemoryStats, MonitorError>,
    scores: ScoreContext,
    force: bool,
    target_ratio: Option<u32>,
    before: EvictionWork,
    after: EvictionWork,
    result: EvictionResult,
)
    requires
        before.caches@.len() > 0,
        force || (stats matches Ok(s) && s.available < threshold),
        dispatched(stages, threshold, stats, scores, force, target_ratio, before, after, Ok(result)),
    ensures
        exists|ctx: HandlerContext, results: Seq<ActionResult>|
            {
                &&& #[trigger] pipeline_ran(stages, ctx, before, after, Ok(results))
                &&& ctx.target_ratio == target_ratio
                &&& ctx.scores == scores
                &&& ctx.pressure_level == (if force {
                    PressureLevel::Emergency
                } else {
                    PressureLevel::spec_of(stats->Ok_0.available, threshold)
                })
                &&& stats is Ok ==> ctx.mem_available == stats->Ok_0.available
                &&& result == spec_combined(results, max_pos(after.caches@))
            },
{
    let level = run_level(stats, threshold, force);
    let ctx = HandlerContext {
        pressure_level: (level->0).0,
        mem_available: (level->0).1,
        target_ratio,
        scores,
    };
    let results = choose|results: Seq<ActionResult>|
        #[trigger] pipeline_ran(stages, ctx, before, after, Ok(results)) && result
            == spec_combined(results, max_pos(after.caches@));
    assert(pipeline_ran(stages, ctx, before, after, Ok(results)));
}

/// How a total grows: by the count, and never beyond the machine's maximum.
pub proof fn lemma_total_adds(counts: Seq<usize>, count: usize)
    ensures
        total(Seq::empty()) == 0,
        total(counts) + count <= usize::MAX ==> total(counts.push(count)) == total(counts) + count,
        total(counts) + count > usize::MAX ==> total(counts.push(count)) == usize::MAX,
{
    assert(counts.push(count).drop_last() =~= counts);
}

/// What moving tokens out does to each layer when it succeeds: of every layer the oldest tokens leave,
/// as many as the share of its own length that lies between none and all, and never more than there
/// are; the rest keep their order.
pub proof fn lemma_offload_takes_a_share_of_each_layer<R: RatioMath>(
    math: &R,
    ratio: u32,
    swap: Seq<RecordView>,
    before: Seq<KVCache>,
    swap_after: Option<Seq<RecordView>>,
    after: Seq<KVCache>,
    moved: usize,
    i: int,
)
    requires
        offload_ran(math, ratio, Some(swap), before, swap_after, after, Ok(moved)),
        forall|j: int| 0 <= j < before.len() ==> (#[trigger] before[j])@.wf(),
        forall|j: int| 0 <= j < before.len() ==> !(#[trigger] before[j])@.is_ragged(),
        0 <= i < before.len(),
    ensures
        swap_after is Some,
        exists|asked: usize, share: u32|
            {
                &&& #[trigger] call_ensures(
                    R::portion,
                    (math, share, before[i]@.current_pos),
                    asked,
                )
                &&& before[i]@.current_pos - after[i]@.current_pos == (if asked
                    < before[i]@.current_pos {
                    asked
                } else {
                    before[i]@.current_pos
                })
                &&& ratio <= 0x3f80_0000 ==> share == ratio
                &&& 0x3f80_0000 < ratio <= 0x7f80_0000 ==> share == 0x3f80_0000
                &&& 0x8000_0000 <= ratio <= 0xff80_0000 ==> share == 0
            },
        forall|h: int, p: int|
            0 <= h < before[i]@.shape.kv_heads && 0 <= p < after[i]@.current_pos
                ==> #[trigger] after[i]@.keys[h][p] == before[i]@.keys[h][p + before[i]@.current_pos
                - after[i]@.current_pos],
{
    let (outs, counts) = choose|outs: Seq<Seq<RecordView>>, counts: Seq<usize>|
        {
            &&& #[trigger] layers_offloaded(math, ratio, before, after, outs, counts)
            &&& outs[0] == swap
            &&& outs.last() == swap_after->0
            &&& counts.len() == before.len() && moved == total(counts)
        };
    assert(share_offloaded(
        math,
        ratio,
        before[i]@,
        outs[i],
        i as usize,
        counts[i],
        after[i]@,
        outs[i + 1],
    ));
    let asked = choose|prefix: usize|
        #[trigger] call_ensures(
            R::portion,
            (math, clamped_between(ratio, 0, WHOLE), before[i]@.current_pos),
            prefix,
        ) && offloaded(
            before[i]@,
            outs[i],
            i as usize,
            prefix,
            counts[i],
            after[i]@,
            outs[i + 1],
        );
    let n = counts[i];
    assert(call_ensures(
        R::portion,
        (math, clamped_between(ratio, 0, WHOLE), before[i]@.current_pos),
        asked,
    ));
    if before[i]@.current_pos > 0 && before[i]@.shape.kv_heads > 0 {
        crate::swap::lemma_offload_moves_the_oldest_rows(
            before[i]@,
            outs[i],
            i as usize,
            asked,
            n,
            after[i]@,
            outs[i + 1],
            0,
            0,
        );
    }
    assert forall|h: int, p: int|
        0 <= h < before[i]@.shape.kv_heads && 0 <= p
            < after[i]@.current_pos implies #[trigger] after[i]@.keys[h][p]
        == before[i]@.keys[h][p + before[i]@.current_pos - after[i]@.current_pos] by {
        crate::swap::lemma_offload_moves_the_oldest_rows(
            before[i]@,
            outs[i],
            i as usize,
            asked,
            n,
            after[i]@,
            outs[i + 1],
            h,
            p + n,
        );
    }
}

/// An attempt that is not forced changes nothing where the monitor never shows less memory than the
/// threshold.
pub proof fn lemma_enough_memory_changes_nothing<H: CachePressureHandler, M: SystemMonitor>(
    manager: CacheManager<H, M>,
    scores: ScoreContext,
    target_ratio: Option<u32>,
    before: EvictionWork,
    after: EvictionWork,
    r: Result<EvictionResult, EvictError>,
)
    requires
        manager.attempted(scores, false, target_ratio, before, after, r),
        forall|stats: Result<MemoryStats, MonitorError>| #[trigger]
            call_ensures(M::mem_stats, (&manager.monitor(),), stats) ==> (stats matches Ok(s)
                && s.available >= manager.threshold()),
    ensures
        after == before,
        r matches Ok(result) && !result.evicted && result.tokens_removed == 0,
{
}

/// An attempt that is forced hands the caller's share to the pipeline at the highest level, whatever the
/// monitor shows.
pub proof fn lemma_a_forced_attempt_runs_the_pipeline<H: CachePressureHandler, M: SystemMonitor>(
    manager: CacheManager<H, M>,
    scores: ScoreContext,
    target_ratio: Option<u32>,
    before: EvictionWork,
    after: EvictionWork,
    result: EvictionResult,
)
    requires
        before.caches@.len() > 0,
        manager.attempted(scores, true, target_ratio, before, after, Ok(result)),
    ensures
        exists|ctx: HandlerContext, results: Seq<ActionResult>|
            {
                &&& #[trigger] pipeline_ran(manager.stages(), ctx, before, after, Ok(results))
                &&& ctx.pressure_level == PressureLevel::Emergency
                &&& ctx.target_ratio == target_ratio
                &&& ctx.scores == scores
                &&& result == spec_combined(results, max_pos(after.caches@))
            },
{
    let stats = choose|stats: Result<MemoryStats, MonitorError>|
        #[trigger] call_ensures(M::mem_stats, (&manager.monitor(),), stats) && dispatched(
            manager.stages(),
            manager.threshold(),
            stats,
            scores,
            true,
            target_ratio,
            before,
            after,
            Ok(result),
        );
    lemma_what_the_pipeline_is_told(
        manager.stages(),
        manager.threshold(),
        stats,
        scores,
        true,
        target_ratio,
        before,
        after,
        result,
    );
}

} // verus!
