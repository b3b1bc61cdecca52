//! Memory pressure, and the pipeline of handlers that answers it.

use crate::codec::RowCodec;
use crate::eviction::{all_wf, max_cache_pos, max_pos, EvictError, EvictionPolicy, EvictionResult,
    ScoreContext};
use crate::keepset_dump::KeepsetDump;
use crate::kv_cache::KVCache;
use crate::policy_run::{policy_ran, run_policy_eviction};
use vstd::prelude::*;

verus! {

/// How short memory is.
#[derive(Clone, Copy, Debug, PartialEq, Eq, Structural)]
pub enum PressureLevel {
    Normal,
    Warning,
    Critical,
    Emergency,
}

impl PressureLevel {
    /// The levels in order of severity.
    pub open spec fn spec_rank(self) -> u8 {
        match self {
            PressureLevel::Normal => 0,
            PressureLevel::Warning => 1,
            PressureLevel::Critical => 2,
            PressureLevel::Emergency => 3,
        }
    }

    /// The levels in order of severity.
    pub fn rank(&self) -> (n: u8)
        ensures
            n == self.spec_rank(),
    {
        match self {
            PressureLevel::Normal => 0,
            PressureLevel::Warning => 1,
            PressureLevel::Critical => 2,
            PressureLevel::Emergency => 3,
        }
    }

    /// The level in words.
    pub open spec fn spec_label(self) -> Seq<char> {
        match self {
            PressureLevel::Normal => "Normal"@,
            PressureLevel::Warning => "Warning"@,
            PressureLevel::Critical => "Critical"@,
            PressureLevel::Emergency => "Emergency"@,
        }
    }

    /// The level in words.
    pub fn label(&self) -> (s: &'static str)
        ensures
            s@ == self.spec_label(),
    {
        match self {
            PressureLevel::Normal => "Normal",
            PressureLevel::Warning => "Warning",
            PressureLevel::Critical => "Critical",
            PressureLevel::Emergency => "Emergency",
        }
    }

    /// The level at which `available` bytes are left, by a threshold, its half and its quarter.
    pub open spec fn spec_of(available: usize, threshold: usize) -> PressureLevel {
        if available >= threshold {
            PressureLevel::Normal
        } else if available >= threshold / 2 {
            PressureLevel::Warning
        } else if available >= threshold / 4 {
            PressureLevel::Critical
        } else {
            PressureLevel::Emergency
        }
    }

    /// The level at which `available` bytes are left, by a threshold, its half and its quarter.
    pub fn from_mem_available(available: usize, threshold: usize) -> (level: PressureLevel)
        ensures
            level == Self::spec_of(available, threshold),
    {
        if available >= threshold {
            PressureLevel::Normal
        } else if available >= threshold / 2 {
            PressureLevel::Warning
        } else if available >= threshold / 4 {
            PressureLevel::Critical
        } else {
            PressureLevel::Emergency
        }
    }
}

/// Less memory never lowers the level, and a higher threshold never lowers it either.
pub proof fn lemma_pressure_is_monotone(less: usize, more: usize, low: usize, high: usize)
    requires
        less <= more,
        low <= high,
    ensures
        PressureLevel::spec_of(less, high).spec_rank() >= PressureLevel::spec_of(
            more,
            low,
        ).spec_rank(),
{
}

/// What a handler did.
#[derive(Clone, Copy, Debug, PartialEq, Eq, Structural)]
pub enum ActionResult {
    /// Nothing.
    NoOp,
    /// Tokens were evicted.
    Evicted { tokens_removed: usize, new_pos: usize },
    /// Something that removes no tokens.
    Acted,
}

/// What the handlers work on.
pub struct EvictionWork {
    pub caches: Vec<KVCache>,
    pub recorder: KeepsetDump,
}

impl EvictionWork {
    /// Every layer and the recorder are well-formed.
    pub open spec fn wf(self) -> bool {
        all_wf(self.caches@) && self.recorder.wf()
    }
}

/// What the handlers are told.
pub struct HandlerContext<'a> {
    pub pressure_level: PressureLevel,
    pub mem_available: usize,
    /// The share of tokens to keep, where the caller names one: the bit pattern of a
    /// single-precision number.
    pub target_ratio: Option<u32>,
    pub scores: ScoreContext<'a>,
}

/// An answer to memory pressure.
pub trait CachePressureHandler {
    /// Works on the layers, and hands all of them back.
    fn handle(&self, work: EvictionWork, ctx: &HandlerContext) -> (out: (
        EvictionWork,
        Result<ActionResult, EvictError>,
    ))
        requires
            work.wf(),
        ensures
            out.0.wf(),
            out.0.caches@.len() == work.caches@.len(),
    ;

    /// The handler's name.
    fn name(&self) -> String;
}

/// A handler, and the level from which it answers.
pub struct PressureStageConfig<H> {
    pub min_level: PressureLevel,
    pub handler: H,
}

/// Handlers in the order in which they answer.
pub struct CachePressurePipeline<H> {
    pub stages: Vec<PressureStageConfig<H>>,
}

/// A stage answers at this level.
pub open spec fn armed<H>(stage: PressureStageConfig<H>, level: PressureLevel) -> bool {
    stage.min_level.spec_rank() <= level.spec_rank()
}

/// What a handler answered.
pub open spec fn handled<H: CachePressureHandler>(
    handler: H,
    before: EvictionWork,
    ctx: HandlerContext,
    after: EvictionWork,
    r: Result<ActionResult, EvictError>,
) -> bool {
    call_ensures(H::handle, (&handler, before, &ctx), (after, r))
}

/// The stages that answer did so in order, each on what the one before it left.
pub open spec fn stages_ran<H: CachePressureHandler>(
    stages: Seq<PressureStageConfig<H>>,
    ctx: HandlerContext,
    before: EvictionWork,
    after: EvictionWork,
    results: Seq<ActionResult>,
) -> bool
    decreases stages.len(),
{
    if stages.len() == 0 {
        after == before && results.len() == 0
    } else if !armed(stages.last(), ctx.pressure_level) {
        stages_ran(stages.drop_last(), ctx, before, after, results)
    } else {
        results.len() > 0 && exists|mid: EvictionWork|
            stages_ran(stages.drop_last(), ctx, before, mid, results.drop_last())
                && #[trigger] handled(
                stages.last().handler,
                mid,
                ctx,
                after,
                Ok(results.last()),
            )
    }
}

/// The first stage that failed ended it.
pub open spec fn stage_failed<H: CachePressureHandler>(
    stages: Seq<PressureStageConfig<H>>,
    ctx: HandlerContext,
    before: EvictionWork,
    after: EvictionWork,
    e: EvictError,
) -> bool {
    exists|k: int, mid: EvictionWork, results: Seq<ActionResult>|
        {
            &&& 0 <= k < stages.len()
            &&& armed(stages[k], ctx.pressure_level)
            &&& #[trigger] stages_ran(stages.take(k), ctx, before, mid, results)
            &&& handled(stages[k].handler, mid, ctx, after, Err(e))
        }
}

/// What a pipeline did.
pub open spec fn pipeline_ran<H: CachePressureHandler>(
    stages: Seq<PressureStageConfig<H>>,
    ctx: HandlerContext,
    before: EvictionWork,
    after: EvictionWork,
    r: Result<Seq<ActionResult>, EvictError>,
) -> bool {
    match r {
        Ok(results) => stages_ran(stages, ctx, before, after, results),
        Err(e) => stage_failed(stages, ctx, before, after, e),
    }
}

/// The list in a result.
pub open spec fn results_view(r: Result<Vec<ActionResult>, EvictError>) -> Result<
    Seq<ActionResult>,
    EvictError,
> {
    match r {
        Ok(v) => Ok(v@),
        Err(e) => Err(e),
    }
}

/// The names, each with its level where there is one, joined by a plus sign.
pub open spec fn joined(names: Seq<Seq<char>>, levels: Option<Seq<PressureLevel>>) -> Seq<char>
    decreases names.len(),
{
    if names.len() == 0 {
        Seq::empty()
    } else {
        let last = match levels {
            Some(l) => names.last() + "@"@ + l[names.len() - 1].spec_label(),
            None => names.last(),
        };
        if names.len() == 1 {
            last
        } else {
            joined(names.drop_last(), levels) + "+"@ + last
        }
    }
}

/// A name that the handler gave.
pub open spec fn name_given<H: CachePressureHandler>(handler: H, name: Seq<char>) -> bool {
    exists|s: String| s@ == name && #[trigger] call_ensures(H::name, (&handler,), s)
}

/// The names that the handlers gave.
pub open spec fn names_given<H: CachePressureHandler>(
    stages: Seq<PressureStageConfig<H>>,
    names: Seq<Seq<char>>,
) -> bool {
    &&& names.len() == stages.len()
    &&& forall|i: int|
        0 <= i < stages.len() ==> name_given(stages[i].handler, #[trigger] names[i])
}

/// The levels of the stages.
pub open spec fn levels_of<H>(stages: Seq<PressureStageConfig<H>>) -> Seq<PressureLevel> {
    Seq::new(stages.len(), |i: int| stages[i].min_level)
}

/// The label of a pipeline: the handlers' names, each with the level from which it answers where
/// levels are wanted.
pub open spec fn labelled<H: CachePressureHandler>(
    stages: Seq<PressureStageConfig<H>>,
    with_levels: bool,
    label: Seq<char>,
) -> bool {
    exists|names: Seq<Seq<char>>|
        #[trigger] names_given(stages, names) && label == joined(
            names,
            if with_levels {
                Some(levels_of(stages))
            } else {
                None
            },
        )
}

impl<H: CachePressureHandler> CachePressurePipeline<H> {
    /// A pipeline of these stages.
    pub fn new(stages: Vec<PressureStageConfig<H>>) -> (r: Self)
        ensures
            r.stages == stages,
    {
        CachePressurePipeline { stages }
    }

    /// Runs the stages that answer at the level, in order.
    pub fn execute(&self, work: EvictionWork, ctx: &HandlerContext) -> (out: (
        EvictionWork,
        Result<Vec<ActionResult>, EvictError>,
    ))
        requires
            work.wf(),
        ensures
            out.0.wf(),
            out.0.caches@.len() == work.caches@.len(),
            pipeline_ran(self.stages@, *ctx, work, out.0, results_view(out.1)),
    {
        let ghost before = work;
        let mut results: Vec<ActionResult> = Vec::new();
        let mut current = work;
        let mut i: usize = 0;
        assert(self.stages@.take(0) =~= Seq::<PressureStageConfig<H>>::empty());
        while i < self.stages.len()
            invariant
                i <= self.stages@.len(),
                before == work,
                current.wf(),
                current.caches@.len() == before.caches@.len(),
                stages_ran(self.stages@.take(i as int), *ctx, before, current, results@),
            decreases self.stages@.len() - i,
        {
            let ghost ran = self.stages@.take(i as int);
            let ghost more = self.stages@.take(i + 1);
            assert(more.drop_last() =~= ran);
            assert(more.last() == self.stages@[i as int]);
            let stage = &self.stages[i];
            if stage.min_level.rank() <= ctx.pressure_level.rank() {
                let ghost mid = current;
                let ghost earlier = results@;
                let (after, r) = stage.handler.handle(current, ctx);
                assert(handled(stage.handler, mid, *ctx, after, r));
                match r {
                    Ok(action) => {
                        results.push(action);
                        assert(results@.drop_last() =~= earlier);
                        assert(handled(more.last().handler, mid, *ctx, after, Ok(results@.last())));
                    },
                    Err(e) => {
                        assert(stages_ran(self.stages@.take(i as int), *ctx, before, mid, earlier));
                        assert(stage_failed(self.stages@, *ctx, before, after, e));
                        return (after, Err(e));
                    },
                }
                current = after;
            }
            i = i + 1;
        }
        assert(self.stages@.take(i as int) =~= self.stages@);
        (current, Ok(results))
    }

    /// The handlers' names, each with the level from which it answers.
    pub fn name(&self) -> (s: String)
        ensures
            labelled(self.stages@, true, s@),
    {
        self.label(true)
    }

    /// The handlers' names alone.
    pub fn policy_id(&self) -> (s: String)
        ensures
            labelled(self.stages@, false, s@),
    {
        self.label(false)
    }

    fn label(&self, with_levels: bool) -> (s: String)
        ensures
            labelled(self.stages@, with_levels, s@),
    {
        let ghost levels = if with_levels {
            Some(levels_of(self.stages@))
        } else {
            None
        };
        let ghost mut names: Seq<Seq<char>> = Seq::empty();
        let mut s: String = "".to_owned();
        proof {
            reveal_strlit("");
            assert(s@ =~= Seq::<char>::empty());
        }
        let mut i: usize = 0;
        while i < self.stages.len()
            invariant
                i <= self.stages@.len(),
                names.len() == i,
                levels == if with_levels {
                    Some(levels_of(self.stages@))
                } else {
                    None
                },
                s@ == joined(names, levels),
                forall|k: int|
                    0 <= k < i ==> name_given(self.stages@[k].handler, #[trigger] names[k]),
            decreases self.stages@.len() - i,
        {
            let ghost earlier = names;
            let ghost start = s@;
            if i > 0 {
                s.append("+");
            }
            let given: String = self.stages[i].handler.name();
            s.append(given.as_str());
            if with_levels {
                s.append("@");
                s.append(self.stages[i].min_level.label());
            }
            proof {
                names = earlier.push(given@);
                assert(names.drop_last() =~= earlier);
                assert(name_given(self.stages@[i as int].handler, given@));
                assert forall|k: int| 0 <= k < i + 1 implies name_given(
                    self.stages@[k].handler,
                    #[trigger] names[k],
                ) by {
                    if k < i {
                        assert(names[k] == earlier[k]);
                    }
                }
                assert(s@ =~= joined(names, levels));
            }
            i = i + 1;
        }
        assert(names_given(self.stages@, names));
        s
    }
}

/// Tokens that the actions removed.
pub open spec fn removed(results: Seq<ActionResult>) -> nat
    decreases results.len(),
{
    if results.len() == 0 {
        0
    } else {
        removed(results.drop_last()) + match results.last() {
            ActionResult::Evicted { tokens_removed, .. } => tokens_removed as nat,
            _ => 0,
        }
    }
}

/// The length that the last eviction left, or `otherwise` without one.
pub open spec fn last_length(results: Seq<ActionResult>, otherwise: usize) -> usize
    decreases results.len(),
{
    if results.len() == 0 {
        otherwise
    } else {
        match results.last() {
            ActionResult::Evicted { new_pos, .. } => new_pos,
            _ => last_length(results.drop_last(), otherwise),
        }
    }
}

/// Something was done.
pub open spec fn acted(results: Seq<ActionResult>) -> bool {
    exists|i: int| 0 <= i < results.len() && #[trigger] results[i] != ActionResult::NoOp
}

/// The actions as one eviction: all tokens removed, the last length left. A count that does not fit
/// stands at the machine's maximum.
pub open spec fn spec_combined(results: Seq<ActionResult>, length: usize) -> EvictionResult {
    EvictionResult {
        evicted: acted(results),
        tokens_removed: if removed(results) <= usize::MAX {
            removed(results) as usize
        } else {
            usize::MAX
        },
        new_pos: last_length(results, length),
    }
}

/// The actions as one eviction.
pub fn pipeline_results_to_eviction_result(results: &Vec<ActionResult>, caches: &Vec<KVCache>) -> (r:
    EvictionResult)
    ensures
        r == spec_combined(results@, max_pos(caches@)),
{
    let length: usize = max_cache_pos(caches);
    let mut evicted: bool = false;
    let mut tokens_removed: usize = 0;
    let mut new_pos: usize = length;
    let mut i: usize = 0;
    assert(results@.take(0) =~= Seq::<ActionResult>::empty());
    while i < results.len()
        invariant
            i <= results@.len(),
            length == max_pos(caches@),
            evicted == acted(results@.take(i as int)),
            tokens_removed == if removed(results@.take(i as int)) <= usize::MAX {
                removed(results@.take(i as int)) as usize
            } else {
                usize::MAX
            },
            new_pos == last_length(results@.take(i as int), length),
        decreases results@.len() - i,
    {
        let ghost seen = results@.take(i as int);
        let ghost more = results@.take(i + 1);
        assert(more.drop_last() =~= seen);
        assert(more.last() == results@[i as int]);
        proof {
            assert forall|k: int| 0 <= k < seen.len() implies #[trigger] more[k] == seen[k] by {}
            if acted(seen) {
                let k = choose|k: int| 0 <= k < seen.len() && #[trigger] seen[k]
                    != ActionResult::NoOp;
                assert(more[k] != ActionResult::NoOp);
            }
        }
        match results[i] {
            ActionResult::Evicted { tokens_removed: n, new_pos: p } => {
                tokens_removed = tokens_removed.saturating_add(n);
                new_pos = p;
                evicted = true;
                assert(more[i as int] != ActionResult::NoOp);
            },
            ActionResult::NoOp => {
                proof {
                    if acted(more) {
                        let k = choose|k: int| 0 <= k < more.len() && #[trigger] more[k]
                            != ActionResult::NoOp;
                        assert(seen[k] != ActionResult::NoOp);
                    }
                }
            },
            ActionResult::Acted => {
                evicted = true;
                assert(more[i as int] != ActionResult::NoOp);
            },
        }
        i = i + 1;
    }
    assert(results@.take(i as int) =~= results@);
    EvictionResult { evicted, tokens_removed, new_pos }
}

/// The smallest share of tokens an eviction leaves: a tenth.
pub const MIN_RATIO: u32 = 0x3dcc_cccd;

/// The largest share of tokens an eviction leaves: ninety-nine hundredths.
pub const MAX_RATIO: u32 = 0x3f7d_70a4;

/// The bit pattern of a number brought between two positive ones. Patterns of positive numbers are
/// ordered as the numbers are, those of negative numbers lie above them, and what is no number stays
/// as it is.
pub open spec fn clamped_between(x: u32, low: u32, high: u32) -> u32 {
    if 0x7f80_0000 < x < 0x8000_0000 || x > 0xff80_0000 {
        x
    } else if x >= 0x8000_0000 || x < low {
        low
    } else if x > high {
        high
    } else {
        x
    }
}

/// The share of tokens to keep, brought into range.
pub open spec fn spec_clamped(ratio: u32) -> u32 {
    clamped_between(ratio, MIN_RATIO, MAX_RATIO)
}

/// The bit pattern of a number brought between two positive ones.
pub fn clamp_bits(x: u32, low: u32, high: u32) -> (r: u32)
    ensures
        r == clamped_between(x, low, high),
{
    if (x > 0x7f80_0000 && x < 0x8000_0000) || x > 0xff80_0000 {
        x
    } else if x >= 0x8000_0000 || x < low {
        low
    } else if x > high {
        high
    } else {
        x
    }
}

/// Shares of counts, as the backend computes them.
pub trait RatioMath {
    /// The share of `of`, rounded towards zero. The share is the bit pattern of a single-precision
    /// number.
    fn portion(&self, ratio: u32, of: usize) -> usize;
}

/// Evicts by a policy, down to a share of the longest layer.
pub struct EvictionHandler<P, C, R> {
    pub policy: P,
    pub codec: C,
    pub math: R,
    /// The share of tokens to keep where the caller names none.
    pub target_ratio: u32,
}

/// The target that a share gives: at least one token.
pub open spec fn target_given<R: RatioMath>(math: &R, ratio: u32, of: usize, target: usize) -> bool {
    exists|n: usize|
        #[trigger] call_ensures(R::portion, (math, spec_clamped(ratio), of), n) && target == if n
            < 1 {
            1
        } else {
            n
        }
}

/// The share that the caller names, or else the handler's own.
pub open spec fn wanted_ratio(named: Option<u32>, own: u32) -> u32 {
    match named {
        Some(x) => x,
        None => own,
    }
}

/// What an eviction handler did.
pub open spec fn eviction_handled<P: EvictionPolicy, C: RowCodec, R: RatioMath>(
    handler: EvictionHandler<P, C, R>,
    before: EvictionWork,
    ctx: HandlerContext,
    after: EvictionWork,
    r: Result<ActionResult, EvictError>,
) -> bool {
    exists|target: usize, done: Result<EvictionResult, EvictError>|
        {
            &&& #[trigger] target_given(
                &handler.math,
                wanted_ratio(ctx.target_ratio, handler.target_ratio),
                max_pos(before.caches@),
                target,
            )
            &&& #[trigger] policy_ran(
                &handler.policy,
                &handler.codec,
                ctx.scores,
                None,
                None,
                target,
                before.caches@,
                after.caches@,
                before.recorder@,
                after.recorder@,
                done,
            )
            &&& match done {
                Err(e) => r == Err::<ActionResult, EvictError>(e),
                Ok(res) => r == Ok::<ActionResult, EvictError>(
                    if res.evicted {
                        ActionResult::Evicted {
                            tokens_removed: res.tokens_removed,
                            new_pos: res.new_pos,
                        }
                    } else {
                        ActionResult::NoOp
                    },
                ),
            }
        }
}

impl<P: EvictionPolicy, C: RowCodec, R: RatioMath> CachePressureHandler for EvictionHandler<
    P,
    C,
    R,
> {
    fn handle(&self, work: EvictionWork, ctx: &HandlerContext) -> (out: (
        EvictionWork,
        Result<ActionResult, EvictError>,
    ))
        ensures
            eviction_handled(*self, work, *ctx, out.0, out.1),
    {
        let ghost before = work;
        let EvictionWork { caches, recorder } = work;
        let mut caches = caches;
        let mut recorder = recorder;
        let ratio: u32 = match ctx.target_ratio {
            Some(x) => x,
            None => self.target_ratio,
        };
        let length: usize = max_cache_pos(&caches);
        let share: usize = self.math.portion(clamp_bits(ratio, MIN_RATIO, MAX_RATIO), length);
        let target: usize = if share < 1 {
            1
        } else {
            share
        };
        assert(ratio == wanted_ratio(ctx.target_ratio, self.target_ratio));
        assert(target_given(&self.math, ratio, length, target));
        let done = run_policy_eviction(
            &self.policy,
            &self.codec,
            &mut caches,
            target,
            &ctx.scores,
            None,
            None,
            &mut recorder,
        );
        let ghost said = done;
        let after = EvictionWork { caches, recorder };
        assert(policy_ran(
            &self.policy,
            &self.codec,
            ctx.scores,
            None,
            None,
            target,
            before.caches@,
            after.caches@,
            before.recorder@,
            after.recorder@,
            said,
        ));
        match done {
            Err(e) => (after, Err(e)),
            Ok(res) => if res.evicted {
                (
                    after,
                    Ok(
                        ActionResult::Evicted {
                            tokens_removed: res.tokens_removed,
                            new_pos: res.new_pos,
                        },
                    ),
                )
            } else {
                (after, Ok(ActionResult::NoOp))
            },
        }
    }

    fn name(&self) -> (s: String)
        ensures
            call_ensures(P::name, (&self.policy,), s),
    {
        self.policy.name()
    }
}

/// A share is brought into range once: a share in range stays, and every share ends up in range or
/// is no number.
pub proof fn lemma_ratio_is_clamped_once(ratio: u32)
    ensures
        spec_clamped(spec_clamped(ratio)) == spec_clamped(ratio),
        !(0x7f80_0000 < ratio < 0x8000_0000 || ratio > 0xff80_0000) ==> MIN_RATIO <= spec_clamped(
            ratio,
        ) <= MAX_RATIO,
{
}

/// The levels in numbers: no pressure from the threshold on, then down to its half and down to its
/// quarter, each rounded down.
pub proof fn lemma_levels_by_half_and_quarter(available: usize, threshold: usize)
    ensures
        ({
            let level = PressureLevel::spec_of(available, threshold);
            &&& level == PressureLevel::Normal <==> available >= threshold
            &&& level == PressureLevel::Warning <==> available < threshold && 2 * available + 1
                >= threshold
            &&& level == PressureLevel::Critical <==> 2 * available + 1 < threshold && 4 * available
                + 3 >= threshold
            &&& level == PressureLevel::Emergency <==> 4 * available + 3 < threshold
        }),
{
}

/// At which levels a stage answers: at its own and at every more severe one.
pub proof fn lemma_when_a_stage_answers<H>(stage: PressureStageConfig<H>, level: PressureLevel)
    ensures
        armed(stage, level) <==> match stage.min_level {
            PressureLevel::Normal => true,
            PressureLevel::Warning => level != PressureLevel::Normal,
            PressureLevel::Critical => level == PressureLevel::Critical || level
                == PressureLevel::Emergency,
            PressureLevel::Emergency => level == PressureLevel::Emergency,
        },
{
}

/// One stage more at the end: one that does not answer changes nothing; one that does works on what the
/// stages before it left, and its result stands behind theirs.
pub proof fn lemma_stages_answer_in_order<H: CachePressureHandler>(
    stages: Seq<PressureStageConfig<H>>,
    stage: PressureStageConfig<H>,
    ctx: HandlerContext,
    before: EvictionWork,
    after: EvictionWork,
    results: Seq<ActionResult>,
    action: ActionResult,
)
    ensures
        stages_ran(Seq::<PressureStageConfig<H>>::empty(), ctx, before, after, results) <==> after
            == before && results.len() == 0,
        !armed(stage, ctx.pressure_level) ==> (stages_ran(
            stages.push(stage),
            ctx,
            before,
            after,
            results,
        ) <==> stages_ran(stages, ctx, before, after, results)),
        armed(stage, ctx.pressure_level) ==> !stages_ran(
            stages.push(stage),
            ctx,
            before,
            after,
            Seq::<ActionResult>::empty(),
        ),
        armed(stage, ctx.pressure_level) && stages_ran(
            stages.push(stage),
            ctx,
            before,
            after,
            results.push(action),
        ) ==> exists|mid: EvictionWork|
            #[trigger] stages_ran(stages, ctx, before, mid, results) && call_ensures(
                H::handle,
                (&stage.handler, mid, &ctx),
                (after, Ok(action)),
            ),
{
    let more = stages.push(stage);
    assert(more.drop_last() =~= stages);
    assert(more.last() == stage);
    assert(results.push(action).drop_last() =~= results);
    if armed(stage, ctx.pressure_level) && stages_ran(
        more,
        ctx,
        before,
        after,
        results.push(action),
    ) {
        let mid = choose|mid: EvictionWork|
            stages_ran(stages, ctx, before, mid, results) && #[trigger] handled(
                stage.handler,
                mid,
                ctx,
                after,
                Ok(action),
            );
        assert(stages_ran(stages, ctx, before, mid, results));
    }
}

/// A pipeline that failed stopped at a stage that answers, on what the stages before it left, with that
/// stage's error; every stage before it that answers had its result.
pub proof fn lemma_a_failed_stage_ends_the_run<H: CachePressureHandler>(
    stages: Seq<PressureStageConfig<H>>,
    ctx: HandlerContext,
    before: EvictionWork,
    after: EvictionWork,
    e: EvictError,
)
    requires
        pipeline_ran(stages, ctx, before, after, Err(e)),
    ensures
        exists|k: int, mid: EvictionWork, results: Seq<ActionResult>|
            0 <= k < stages.len() && armed(stages[k], ctx.pressure_level) && call_ensures(
                H::handle,
                (&stages[k].handler, mid, &ctx),
                (after, Err(e)),
            ) && #[trigger] stages_ran(stages.take(k), ctx, before, mid, results),
{
    let (k, mid, results) = choose|k: int, mid: EvictionWork, results: Seq<ActionResult>|
        {
            &&& 0 <= k < stages.len()
            &&& armed(stages[k], ctx.pressure_level)
            &&& #[trigger] stages_ran(stages.take(k), ctx, before, mid, results)
            &&& handled(stages[k].handler, mid, ctx, after, Err(e))
        };
    assert(stages_ran(stages.take(k), ctx, before, mid, results));
}

/// How one result more changes what the results add up to: an eviction adds its tokens and gives its
/// length, another action only shows that something was done, and a stage that did nothing changes
/// nothing. Without results the length is the one there was.
pub proof fn lemma_results_add_up(results: Seq<ActionResult>, action: ActionResult, length: usize)
    ensures
        spec_combined(Seq::empty(), length) == (EvictionResult {
            evicted: false,
            tokens_removed: 0,
            new_pos: length,
        }),
        action == ActionResult::NoOp ==> spec_combined(results.push(action), length)
            == spec_combined(results, length),
        action == ActionResult::Acted ==> spec_combined(results.push(action), length) == (
        EvictionResult { evicted: true, ..spec_combined(results, length) }),
        action matches ActionResult::Evicted { tokens_removed, new_pos } ==> {
            let sum = spec_combined(results, length).tokens_removed + tokens_removed;
            spec_combined(results.push(action), length) == (EvictionResult {
                evicted: true,
                tokens_removed: if sum <= usize::MAX {
                    sum as usize
                } else {
                    usize::MAX
                },
                new_pos,
            })
        },
{
    let more = results.push(action);
    assert(more.drop_last() =~= results);
    assert(more.last() == action);
    assert(more[results.len() as int] == action);
    if acted(results) {
        let i = choose|i: int| 0 <= i < results.len() && #[trigger] results[i] != ActionResult::NoOp;
        assert(more[i] == results[i]);
    }
    if acted(more) && action == ActionResult::NoOp {
        let i = choose|i: int| 0 <= i < more.len() && #[trigger] more[i] != ActionResult::NoOp;
        assert(more[i] == results[i]);
    }
    let none = Seq::<ActionResult>::empty();
    assert(removed(none) == 0);
    assert(last_length(none, length) == length);
}

/// A number brought into a range lies in it, and one that was in it stays; what lies below goes to the
/// lower end and what lies above to the upper. What is no number stays no number.
pub proof fn lemma_clamp_brings_into_range(x: u32, low: u32, high: u32)
    requires
        low <= high <= 0x7f80_0000,
    ensures
        ({
            let r = clamped_between(x, low, high);
            let no_number = 0x7f80_0000 < x < 0x8000_0000 || 0xff80_0000 < x;
            &&& no_number ==> r == x
            &&& !no_number ==> low <= r <= high
            &&& low <= x <= high ==> r == x
            &&& 0x8000_0000 <= x <= 0xff80_0000 ==> r == low
            &&& x < low ==> r == low
            &&& high < x <= 0x7f80_0000 ==> r == high
        }),
{
}

/// What an eviction handler aims at: at least one token, and otherwise the share of the longest layer
/// that the caller names, or else its own, which is brought between a tenth and ninety-nine hundredths.
pub proof fn lemma_target_of_a_share<R: RatioMath>(
    math: &R,
    named: Option<u32>,
    own: u32,
    of: usize,
    target: usize,
)
    requires
        target_given(math, wanted_ratio(named, own), of, target),
    ensures
        target >= 1,
        exists|n: usize, share: u32|
            {
                let ratio = if named is Some {
                    named->0
                } else {
                    own
                };
                &&& #[trigger] call_ensures(R::portion, (math, share, of), n)
                &&& target == n || (n == 0 && target == 1)
                &&& 0x3dcc_cccd <= ratio <= 0x3f7d_70a4 ==> share == ratio
                &&& ratio < 0x3dcc_cccd || 0x8000_0000 <= ratio <= 0xff80_0000 ==> share
                    == 0x3dcc_cccd
                &&& 0x3f7d_70a4 < ratio <= 0x7f80_0000 ==> share == 0x3f7d_70a4
            },
{
    let ratio = wanted_ratio(named, own);
    let n = choose|n: usize|
        #[trigger] call_ensures(R::portion, (math, spec_clamped(ratio), of), n) && target == if n
            < 1 {
            1
        } else {
            n
        };
    assert(call_ensures(R::portion, (math, spec_clamped(ratio), of), n));
}

/// How a label grows by a stage: the first stage's name stands alone, each further one behind a plus
/// sign, and where levels are wanted the level stands behind the name and an at sign.
pub proof fn lemma_label_grows_by_a_stage(
    names: Seq<Seq<char>>,
    name: Seq<char>,
    levels: Seq<PressureLevel>,
)
    requires
        levels.len() == names.len() + 1,
    ensures
        joined(Seq::empty(), None) == Seq::<char>::empty(),
        names.len() == 0 ==> joined(names.push(name), None) == name,
        names.len() > 0 ==> joined(names.push(name), None) == joined(names, None) + "+"@ + name,
        names.len() == 0 ==> joined(names.push(name), Some(levels)) == name + "@"@
            + levels.last().spec_label(),
        names.len() > 0 ==> joined(names.push(name), Some(levels)) == joined(names, Some(levels))
            + "+"@ + (name + "@"@ + levels.last().spec_label()),
        levels.last() == PressureLevel::Normal ==> levels.last().spec_label() == "Normal"@,
        levels.last() == PressureLevel::Warning ==> levels.last().spec_label() == "Warning"@,
        levels.last() == PressureLevel::Critical ==> levels.last().spec_label() == "Critical"@,
        levels.last() == PressureLevel::Emergency ==> levels.last().spec_label() == "Emergency"@,
{
    let more = names.push(name);
    assert(more.drop_last() =~= names);
    assert(more.last() == name);
}

/// What a pipeline's label is made of: the names that its handlers gave, in the order of the stages, and
/// where levels are wanted each stage's own level.
pub proof fn lemma_label_of_a_pipeline<H: CachePressureHandler>(
    stages: Seq<PressureStageConfig<H>>,
    with_levels: bool,
    label: Seq<char>,
    i: int,
)
    requires
        labelled(stages, with_levels, label),
        0 <= i < stages.len(),
    ensures
        exists|names: Seq<Seq<char>>, levels: Seq<PressureLevel>, name: String|
            {
                &&& names.len() == stages.len()
                &&& levels.len() == stages.len()
                &&& levels[i] == stages[i].min_level
                &&& names[i] == name@
                &&& #[trigger] call_ensures(H::name, (&stages[i].handler,), name)
                &&& with_levels ==> label == #[trigger] joined(names, Some(levels))
                &&& !with_levels ==> label == joined(names, None)
            },
        stages.len() == 1 && !with_levels ==> exists|name: String|
            #[trigger] call_ensures(H::name, (&stages[0].handler,), name) && label == name@,
{
    let names = choose|names: Seq<Seq<char>>|
        #[trigger] names_given(stages, names) && label == joined(
            names,
            if with_levels {
                Some(levels_of(stages))
            } else {
                None
            },
        );
    let levels = levels_of(stages);
    assert(name_given(stages[i].handler, names[i]));
    let name = choose|s: String|
        s@ == names[i] && #[trigger] call_ensures(H::name, (&stages[i].handler,), s);
    assert(call_ensures(H::name, (&stages[i].handler,), name));
    assert(joined(names, Some(levels)) == joined(names, Some(levels)));
}

} // verus!
