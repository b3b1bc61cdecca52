//! Asking the candidates of a compression what they would retain.
//!
//! Nothing here changes a layer. A candidate's plan is checked against the layer as a transaction
//! would check it, and the transaction is dropped.

use crate::arith::{div_up, up};
use crate::cache_handle::EngineCacheHandle;
use crate::descriptor::TensorKind;
use crate::eviction::{all_wf, EvictError, StagePlan};
use crate::keep::KeepSpec;
use crate::keep_sets::{cells_total, KeepError, KeepSets, KeepSetsView};
use crate::kv_cache::{CacheView, KVCache};
use crate::stage_registry::{spec_ctx, spec_window_ctx, KVMutationStage, StageCaps, StageCtx,
    WindowScores};
use crate::text::{decimal, decimal_text};
use vstd::prelude::*;

verus! {

/// A technique that may be chosen.
pub struct Candidate<S> {
    pub name: String,
    pub stage: S,
    pub caps: StageCaps,
    /// Leading tokens to protect, for a candidate that ranks by the observation window.
    pub protected_prefix: usize,
}

impl<S: KVMutationStage> Candidate<S> {
    /// A candidate that protects as many leading tokens as it declares.
    pub fn new(name: String, stage: S, caps: StageCaps) -> (r: Self)
        ensures
            r.name == name,
            r.stage == stage,
            r.caps == caps,
            r.protected_prefix == caps.default_protected_prefix,
    {
        let protected_prefix: usize = caps.default_protected_prefix;
        Candidate { name, stage, caps, protected_prefix }
    }

    /// The candidate with another number of protected tokens.
    pub fn with_protected_prefix(self, n: usize) -> (r: Self)
        ensures
            r == (Candidate { protected_prefix: n, ..self }),
    {
        Candidate {
            name: self.name,
            stage: self.stage,
            caps: self.caps,
            protected_prefix: n,
        }
    }

    /// The candidate ranks by the observation window.
    pub open spec fn spec_reads_window(self) -> bool {
        self.caps.reads@.contains(TensorKind::PrefillAttention)
    }

    /// Whether the candidate ranks by the observation window.
    pub fn reads_prefill_attn(&self) -> (r: bool)
        ensures
            r == self.spec_reads_window(),
    {
        self.caps.reads_kind(TensorKind::PrefillAttention)
    }
}

/// The scores that candidates may go by: bit patterns of single-precision numbers.
#[derive(Clone, Copy)]
pub struct Signals<'a> {
    pub importance: Option<&'a Vec<u32>>,
    pub head_scores: Option<&'a Vec<u32>>,
    pub last_attn: Option<&'a Vec<u32>>,
    /// Each layer's window attention, one row per query head.
    pub prefill_attn: Option<&'a Vec<Vec<u32>>>,
}

/// Why a candidate was not compared.
#[derive(Debug, PartialEq, Eq)]
pub enum Exclusion {
    /// It ranks by the observation window, which was captured for some layers only.
    WindowShort { captured: usize, n_layers: usize },
    /// It ranks by the observation window, which was never captured.
    WindowAbsent,
    /// It ranks by the observation window, and there are no queries.
    NoQueryHeads,
    /// The window covers another number of positions than are resident.
    WindowWidth { layer: usize, width: usize, resident: usize },
    /// It planned nothing for a layer.
    NoKeep { layer: usize },
    /// It planned for fewer heads than there are.
    MissingHead { layer: usize, kv_head: usize },
    /// It retains too much, and no less when asked for less.
    DoesNotShrink { total: usize, budget: usize },
    /// It retains too much, and there is no less to ask for.
    NoSmallerBudget { total: usize, budget: usize },
    /// It retains too much after every ask.
    StillOver { budget: usize },
    /// Its stage failed, or its plan does not fit the layer.
    Stage(EvictError),
    /// What it retains does not fit the frame.
    Invalid(KeepError),
}

impl Exclusion {
    /// The reason in words.
    pub open spec fn words(self) -> Seq<char> {
        match self {
            Exclusion::WindowShort { captured, n_layers } => "reads prefill attention, but only "@
                + decimal(captured as nat) + " of "@ + decimal(n_layers as nat)
                + " layers were captured"@,
            Exclusion::WindowAbsent => "reads prefill attention, which this run never captured"@,
            Exclusion::NoQueryHeads => "the model reports no query heads"@,
            Exclusion::WindowWidth { layer, width, resident } => "layer "@ + decimal(layer as nat)
                + ": the window attention covers "@ + decimal(width as nat) + " positions but "@
                + decimal(resident as nat) + " are resident"@,
            Exclusion::NoKeep { layer } => "staged no keep-set for layer "@ + decimal(layer as nat),
            Exclusion::MissingHead { layer, kv_head } => "layer "@ + decimal(layer as nat)
                + ": a per-head plan that does not cover KV head "@ + decimal(kv_head as nat),
            Exclusion::DoesNotShrink { total, budget } => "retains "@ + decimal(total as nat)
                + " of "@ + decimal(budget as nat)
                + " budgeted positions, and asking for less does not shrink it — its budget is not the one the contract names"@,
            Exclusion::NoSmallerBudget { total, budget } => "retains "@ + decimal(total as nat)
                + " of "@ + decimal(budget as nat)
                + " budgeted positions, and there is no smaller budget left to ask it for"@,
            Exclusion::StillOver { budget } => "still over the "@ + decimal(budget as nat)
                + "-position budget after "@ + decimal(MAX_BUDGET_PROBES as nat)
                + " asks — over budget, so its score is not comparable"@,
            Exclusion::Stage(e) => e.words(),
            Exclusion::Invalid(e) => e.words(),
        }
    }

    /// The reason in words.
    pub fn message(&self) -> (m: String)
        ensures
            m@ == self.words(),
    {
        match self {
            Exclusion::WindowShort { captured, n_layers } => {
                let mut m: String = "reads prefill attention, but only ".to_owned();
                m.append(decimal_text(*captured).as_str());
                m.append(" of ");
                m.append(decimal_text(*n_layers).as_str());
                m.append(" layers were captured");
                m
            },
            Exclusion::WindowAbsent => {
                "reads prefill attention, which this run never captured".to_owned()
            },
            Exclusion::NoQueryHeads => "the model reports no query heads".to_owned(),
            Exclusion::WindowWidth { layer, width, resident } => {
                let mut m: String = "layer ".to_owned();
                m.append(decimal_text(*layer).as_str());
                m.append(": the window attention covers ");
                m.append(decimal_text(*width).as_str());
                m.append(" positions but ");
                m.append(decimal_text(*resident).as_str());
                m.append(" are resident");
                m
            },
            Exclusion::NoKeep { layer } => {
                let mut m: String = "staged no keep-set for layer ".to_owned();
                m.append(decimal_text(*layer).as_str());
                m
            },
            Exclusion::MissingHead { layer, kv_head } => {
                let mut m: String = "layer ".to_owned();
                m.append(decimal_text(*layer).as_str());
                m.append(": a per-head plan that does not cover KV head ");
                m.append(decimal_text(*kv_head).as_str());
                m
            },
            Exclusion::DoesNotShrink { total, budget } => {
                let mut m: String = "retains ".to_owned();
                m.append(decimal_text(*total).as_str());
                m.append(" of ");
                m.append(decimal_text(*budget).as_str());
                m.append(
                    " budgeted positions, and asking for less does not shrink it — its budget is not the one the contract names",
                );
                m
            },
            Exclusion::NoSmallerBudget { total, budget } => {
                let mut m: String = "retains ".to_owned();
                m.append(decimal_text(*total).as_str());
                m.append(" of ");
                m.append(decimal_text(*budget).as_str());
                m.append(
                    " budgeted positions, and there is no smaller budget left to ask it for",
                );
                m
            },
            Exclusion::StillOver { budget } => {
                let mut m: String = "still over the ".to_owned();
                m.append(decimal_text(*budget).as_str());
                m.append("-position budget after ");
                m.append(decimal_text(MAX_BUDGET_PROBES).as_str());
                m.append(" asks — over budget, so its score is not comparable");
                m
            },
            Exclusion::Stage(e) => e.message(),
            Exclusion::Invalid(e) => e.message(),
        }
    }
}

/// How many budgets a candidate may be asked for.
pub const MAX_BUDGET_PROBES: usize = 4;

/// What checking a plan against a layer gives: the positions to keep, if it fits.
pub open spec fn plan_checked(answer: Result<StagePlan, EvictError>, c: CacheView) -> Result<
    Option<KeepSpec>,
    Exclusion,
> {
    match answer {
        Err(e) => Err(Exclusion::Stage(e)),
        Ok(plan) => match plan.refusal(c) {
            Some(e) => Err(Exclusion::Stage(EvictError::Refused(e))),
            None => Ok(plan.keep),
        },
    }
}

/// Checks a plan against a layer, and leaves the layer as it is.
fn check_plan(cache: &mut KVCache, answer: Result<StagePlan, EvictError>) -> (r: Result<
    Option<KeepSpec>,
    Exclusion,
>)
    requires
        old(cache).wf(),
    ensures
        *final(cache) == *old(cache),
        r == plan_checked(answer, old(cache)@),
{
    let plan = match answer {
        Err(e) => {
            return Err(Exclusion::Stage(e));
        },
        Ok(plan) => plan,
    };
    let StagePlan { keep, merges } = plan;
    let mut h = EngineCacheHandle::new(cache, 0, 1);
    if merges.len() > 0 {
        match h.merge(merges) {
            Ok(()) => {},
            Err(e) => {
                return Err(Exclusion::Stage(EvictError::Refused(e)));
            },
        }
    }
    assert(h.staged@ =~= plan.merged());
    match keep {
        Some(KeepSpec::LayerWide(list)) => match h.keep(&list) {
            Ok(()) => Ok(Some(KeepSpec::LayerWide(list))),
            Err(e) => Err(Exclusion::Stage(EvictError::Refused(e))),
        },
        Some(KeepSpec::PerHead(heads)) => match h.keep_per_head(&heads) {
            Ok(()) => Ok(Some(KeepSpec::PerHead(heads))),
            Err(e) => Err(Exclusion::Stage(EvictError::Refused(e))),
        },
        None => Ok(None),
    }
}

/// What the stage said of a layer, checked against it.
pub open spec fn stage_said<S: KVMutationStage>(
    stage: &S,
    ctx: StageCtx,
    c: CacheView,
    r: Result<Option<KeepSpec>, Exclusion>,
) -> bool {
    exists|answer: Result<StagePlan, EvictError>|
        #[trigger] call_ensures(S::plan, (stage, &ctx), answer) && r == plan_checked(answer, c)
}

/// The window scores of a layer, as a candidate is shown them.
pub open spec fn window_of(scores: &Vec<u32>, n_heads_q: usize, width: usize) -> WindowScores<'_> {
    WindowScores { scores, n_heads_q, width }
}

/// What a candidate planned for a layer.
pub open spec fn layer_planned<S: KVMutationStage>(
    cand: &Candidate<S>,
    n_heads_q: usize,
    cache: KVCache,
    layer: usize,
    n_layers: usize,
    ask: usize,
    signals: Signals,
    r: Result<Option<KeepSpec>, Exclusion>,
) -> bool {
    if cand.spec_reads_window() {
        let scores = &signals.prefill_attn->0@[layer as int];
        if n_heads_q == 0 {
            r == Err::<Option<KeepSpec>, Exclusion>(Exclusion::NoQueryHeads)
        } else if scores@.len() / n_heads_q as nat != cache@.current_pos {
            r == Err::<Option<KeepSpec>, Exclusion>(
                Exclusion::WindowWidth {
                    layer,
                    width: (scores@.len() / n_heads_q as nat) as usize,
                    resident: cache@.current_pos,
                },
            )
        } else {
            stage_said(
                &cand.stage,
                spec_window_ctx(
                    &cand.caps,
                    &cache,
                    layer,
                    n_layers,
                    ask,
                    window_of(scores, n_heads_q, cache@.current_pos),
                    cand.protected_prefix,
                ),
                cache@,
                r,
            )
        }
    } else {
        stage_said(
            &cand.stage,
            spec_ctx(
                &cand.caps,
                &cache,
                layer,
                n_layers,
                ask,
                signals.importance,
                signals.head_scores,
                signals.last_attn,
            ),
            cache@,
            r,
        )
    }
}

/// A keep that covers every head, or why there is none.
pub open spec fn covering(
    planned: Result<Option<KeepSpec>, Exclusion>,
    layer: usize,
    n_kv_heads: usize,
) -> Result<KeepSpec, Exclusion> {
    match planned {
        Err(e) => Err(e),
        Ok(None) => Err(Exclusion::NoKeep { layer }),
        Ok(Some(keep)) => match keep {
            KeepSpec::LayerWide(_) => Ok(keep),
            KeepSpec::PerHead(heads) => if heads@.len() < n_kv_heads {
                Err(Exclusion::MissingHead { layer, kv_head: heads@.len() as usize })
            } else {
                Ok(keep)
            },
        },
    }
}

/// What a candidate answered for a layer.
pub open spec fn layer_answered<S: KVMutationStage>(
    cand: &Candidate<S>,
    n_heads_q: usize,
    n_kv_heads: usize,
    cache: KVCache,
    layer: usize,
    n_layers: usize,
    ask: usize,
    signals: Signals,
    r: Result<KeepSpec, Exclusion>,
) -> bool {
    exists|planned: Result<Option<KeepSpec>, Exclusion>|
        #[trigger] layer_planned(cand, n_heads_q, cache, layer, n_layers, ask, signals, planned)
            && r == covering(planned, layer, n_kv_heads)
}

/// Why a candidate cannot be asked at all.
pub open spec fn window_missing<S: KVMutationStage>(
    cand: &Candidate<S>,
    n_layers: usize,
    signals: Signals,
) -> Option<Exclusion> {
    if !cand.spec_reads_window() {
        None
    } else {
        match signals.prefill_attn {
            None => Some(Exclusion::WindowAbsent),
            Some(p) => if p@.len() < n_layers {
                Some(Exclusion::WindowShort { captured: p@.len() as usize, n_layers })
            } else {
                None
            },
        }
    }
}

/// The candidate answered with these keeps for the leading layers.
pub open spec fn answered_for<S: KVMutationStage>(
    cand: &Candidate<S>,
    n_heads_q: usize,
    n_kv_heads: usize,
    caches: Seq<KVCache>,
    ask: usize,
    signals: Signals,
    layers: Seq<KeepSpec>,
) -> bool {
    forall|l: int|
        0 <= l < layers.len() ==> layer_answered(
            cand,
            n_heads_q,
            n_kv_heads,
            caches[l],
            l as usize,
            caches.len() as usize,
            ask,
            signals,
            Ok(#[trigger] layers[l]),
        )
}

/// What a candidate answered for all layers: a keep for each, or the first reason why not.
pub open spec fn answered<S: KVMutationStage>(
    cand: &Candidate<S>,
    n_heads_q: usize,
    n_kv_heads: usize,
    caches: Seq<KVCache>,
    ask: usize,
    signals: Signals,
    r: Result<Seq<KeepSpec>, Exclusion>,
) -> bool {
    match window_missing(cand, caches.len() as usize, signals) {
        Some(e) => r == Err::<Seq<KeepSpec>, Exclusion>(e),
        None => match r {
            Ok(layers) => layers.len() == caches.len() && answered_for(
                cand,
                n_heads_q,
                n_kv_heads,
                caches,
                ask,
                signals,
                layers,
            ),
            Err(e) => exists|before: Seq<KeepSpec>|
                before.len() < caches.len() && #[trigger] answered_for(
                    cand,
                    n_heads_q,
                    n_kv_heads,
                    caches,
                    ask,
                    signals,
                    before,
                ) && layer_answered(
                    cand,
                    n_heads_q,
                    n_kv_heads,
                    caches[before.len() as int],
                    before.len() as usize,
                    caches.len() as usize,
                    ask,
                    signals,
                    Err(e),
                ),
        },
    }
}

/// A list of keeps in a result.
pub open spec fn layers_view(r: Result<Vec<KeepSpec>, Exclusion>) -> Result<
    Seq<KeepSpec>,
    Exclusion,
> {
    match r {
        Ok(v) => Ok(v@),
        Err(e) => Err(e),
    }
}

/// Asks a candidate about one layer.
fn ask_layer<S: KVMutationStage>(
    cand: &Candidate<S>,
    n_heads_q: usize,
    n_kv_heads: usize,
    cache: &mut KVCache,
    layer: usize,
    n_layers: usize,
    ask: usize,
    signals: &Signals,
) -> (r: Result<KeepSpec, Exclusion>)
    requires
        old(cache).wf(),
        cand.spec_reads_window() ==> (signals.prefill_attn matches Some(p) && layer < p@.len()),
    ensures
        *final(cache) == *old(cache),
        layer_answered(
            cand,
            n_heads_q,
            n_kv_heads,
            *old(cache),
            layer,
            n_layers,
            ask,
            *signals,
            r,
        ),
{
    let ghost before = *cache;
    let planned: Result<Option<KeepSpec>, Exclusion> = match signals.prefill_attn {
        Some(windows) if cand.reads_prefill_attn() => {
            let scores = &windows[layer];
            if n_heads_q == 0 {
                Err(Exclusion::NoQueryHeads)
            } else {
                let width: usize = scores.len() / n_heads_q;
                if width != cache.current_pos() {
                    Err(Exclusion::WindowWidth { layer, width, resident: cache.current_pos() })
                } else {
                    let window = WindowScores { scores, n_heads_q, width };
                    let answer = {
                        let ctx = StageCtx::of_window(
                            &cand.caps,
                            cache,
                            layer,
                            n_layers,
                            ask,
                            window,
                            cand.protected_prefix,
                        );
                        let answer = cand.stage.plan(&ctx);
                        assert(call_ensures(S::plan, (&cand.stage, &ctx), answer));
                        answer
                    };
                    let ghost said = answer;
                    let r = check_plan(cache, answer);
                    assert(r == plan_checked(said, before@));
                    assert(window == window_of(scores, n_heads_q, before@.current_pos));
                    r
                }
            }
        },
        _ => {
            let answer = {
                let ctx = StageCtx::of(
                    &cand.caps,
                    cache,
                    layer,
                    n_layers,
                    ask,
                    signals.importance,
                    signals.head_scores,
                    signals.last_attn,
                );
                let answer = cand.stage.plan(&ctx);
                assert(call_ensures(S::plan, (&cand.stage, &ctx), answer));
                answer
            };
            let ghost said = answer;
            let r = check_plan(cache, answer);
            assert(r == plan_checked(said, before@));
            r
        },
    };
    assert(layer_planned(cand, n_heads_q, before, layer, n_layers, ask, *signals, planned));
    match planned {
        Err(e) => Err(e),
        Ok(None) => Err(Exclusion::NoKeep { layer }),
        Ok(Some(KeepSpec::LayerWide(list))) => Ok(KeepSpec::LayerWide(list)),
        Ok(Some(KeepSpec::PerHead(heads))) => if heads.len() < n_kv_heads {
            Err(Exclusion::MissingHead { layer, kv_head: heads.len() })
        } else {
            Ok(KeepSpec::PerHead(heads))
        },
    }
}

/// Asks a candidate about every layer, and leaves the layers as they are.
pub fn plan_one<S: KVMutationStage>(
    cand: &Candidate<S>,
    n_heads_q: usize,
    n_kv_heads: usize,
    caches: &mut Vec<KVCache>,
    ask: usize,
    signals: &Signals,
) -> (r: Result<Vec<KeepSpec>, Exclusion>)
    requires
        all_wf(old(caches)@),
    ensures
        final(caches)@ == old(caches)@,
        answered(cand, n_heads_q, n_kv_heads, old(caches)@, ask, *signals, layers_view(r)),
        r matches Ok(layers) ==> covers_heads(layers@, n_kv_heads),
{
    let ghost before = caches@;
    let n: usize = caches.len();
    if cand.reads_prefill_attn() {
        match signals.prefill_attn {
            None => {
                return Err(Exclusion::WindowAbsent);
            },
            Some(p) => {
                if p.len() < n {
                    return Err(Exclusion::WindowShort { captured: p.len(), n_layers: n });
                }
            },
        }
    }
    assert(window_missing(cand, n, *signals) is None);
    let mut layers: Vec<KeepSpec> = Vec::new();
    let mut l: usize = 0;
    while l < n
        invariant
            l <= n,
            n == before.len(),
            caches@ == before,
            before == old(caches)@,
            all_wf(before),
            layers@.len() == l,
            window_missing(cand, n, *signals) is None,
            answered_for(cand, n_heads_q, n_kv_heads, before, ask, *signals, layers@),
            covers_heads(layers@, n_kv_heads),
        decreases n - l,
    {
        let answer = ask_layer(
            cand,
            n_heads_q,
            n_kv_heads,
            &mut caches[l],
            l,
            n,
            ask,
            signals,
        );
        assert(caches@ =~= before);
        let ghost said = answer;
        assert(layer_answered(
            cand,
            n_heads_q,
            n_kv_heads,
            before[l as int],
            l,
            n,
            ask,
            *signals,
            said,
        ));
        match answer {
            Err(e) => {
                return Err(e);
            },
            Ok(keep) => {
                layers.push(keep);
            },
        }
        l = l + 1;
    }
    Ok(layers)
}

/// The positions that a head keeps.
pub open spec fn head_list(keep: KeepSpec, h: int) -> Seq<usize> {
    match keep {
        KeepSpec::LayerWide(list) => list@,
        KeepSpec::PerHead(heads) => heads@[h]@,
    }
}

/// Every keep has a list for every head.
pub open spec fn covers_heads(layers: Seq<KeepSpec>, n_kv_heads: usize) -> bool {
    forall|l: int|
        0 <= l < layers.len() ==> (#[trigger] layers[l] matches KeepSpec::PerHead(heads)
            ==> heads@.len() >= n_kv_heads)
}

/// The retained positions of a plan, head by head.
pub open spec fn spec_sets(layers: Seq<KeepSpec>, n_kv_heads: usize) -> KeepSetsView {
    KeepSetsView {
        n_layers: layers.len() as usize,
        n_kv_heads,
        cells: Seq::new(
            layers.len() * n_kv_heads as nat,
            |i: int| head_list(layers[i / n_kv_heads as int], i % n_kv_heads as int),
        ),
    }
}

/// How many positions a plan retains.
pub open spec fn retained(layers: Seq<KeepSpec>, n_kv_heads: usize) -> usize {
    cells_total(spec_sets(layers, n_kv_heads).cells)
}

/// The retained positions of a plan, head by head.
pub fn sets_of(layers: &Vec<KeepSpec>, n_kv_heads: usize) -> (sets: KeepSets)
    requires
        covers_heads(layers@, n_kv_heads),
    ensures
        sets@ == spec_sets(layers@, n_kv_heads),
        sets@.complete(),
{
    let ghost want = spec_sets(layers@, n_kv_heads);
    let mut sets = KeepSets::with_capacity(layers.len(), n_kv_heads);
    let mut l: usize = 0;
    proof {
        assert(0 * n_kv_heads == 0) by (nonlinear_arith);
    }
    while l < layers.len()
        invariant
            l <= layers@.len(),
            want == spec_sets(layers@, n_kv_heads),
            covers_heads(layers@, n_kv_heads),
            sets@.n_layers == layers@.len(),
            sets@.n_kv_heads == n_kv_heads,
            sets@.cells.len() == l * n_kv_heads,
            forall|i: int| 0 <= i < sets@.cells.len() ==> #[trigger] sets@.cells[i] == want.cells[i],
        decreases layers@.len() - l,
    {
        let mut h: usize = 0;
        while h < n_kv_heads
            invariant
                l < layers@.len(),
                h <= n_kv_heads,
                want == spec_sets(layers@, n_kv_heads),
                covers_heads(layers@, n_kv_heads),
                sets@.n_layers == layers@.len(),
                sets@.n_kv_heads == n_kv_heads,
                sets@.cells.len() == l * n_kv_heads + h,
                forall|i: int|
                    0 <= i < sets@.cells.len() ==> #[trigger] sets@.cells[i] == want.cells[i],
            decreases n_kv_heads - h,
        {
            let ghost at = (l * n_kv_heads + h) as int;
            proof {
                let w = n_kv_heads as int;
                assert(layers@[l as int] matches KeepSpec::PerHead(heads) ==> heads@.len()
                    >= n_kv_heads);
                assert(l * w == w * l) by (nonlinear_arith);
                vstd::arithmetic::div_mod::lemma_fundamental_div_mod_converse(
                    at,
                    w,
                    l as int,
                    h as int,
                );
                assert(at < layers@.len() * w) by (nonlinear_arith)
                    requires
                        at == l * w + h,
                        l < layers@.len(),
                        0 <= h < w,
                ;
                assert(want.cells[at] == head_list(layers@[l as int], h as int));
            }
            let pushed = match &layers[l] {
                KeepSpec::LayerWide(list) => sets.push(l, h, list),
                KeepSpec::PerHead(heads) => sets.push(l, h, &heads[h]),
            };
            assert(pushed is Ok);
            h = h + 1;
        }
        proof {
            assert((l + 1) * n_kv_heads == l * n_kv_heads + n_kv_heads) by (nonlinear_arith);
        }
        l = l + 1;
    }
    assert(sets@.cells =~= want.cells);
    sets
}

/// An accepted plan: the keeps, and the budget that the candidate was finally asked for.
pub struct CalibratedPlan {
    pub layers: Vec<KeepSpec>,
    pub asked: usize,
}

/// Cells that a budget is spread over: at least one, and at most the machine's maximum.
pub open spec fn spread(n_layers: nat, n_kv_heads: nat) -> nat {
    if n_layers * n_kv_heads == 0 {
        1
    } else if n_layers * n_kv_heads > usize::MAX {
        usize::MAX as nat
    } else {
        n_layers * n_kv_heads
    }
}

/// What an over-budget answer makes of the next ask: less by the overshoot per cell, rounded up.
pub open spec fn next_ask(ask: usize, total: usize, budget: usize, cells: nat) -> int {
    ask - up((total - budget) as nat, cells)
}

/// What asking a candidate came to. It is asked for a budget, and, while it answers with more, for
/// less; it is out when it does not answer with less, when there is no less to ask for, and after
/// `probes` asks.
pub open spec fn calibrated<S: KVMutationStage>(
    cand: &Candidate<S>,
    n_heads_q: usize,
    n_kv_heads: usize,
    caches: Seq<KVCache>,
    budget: usize,
    signals: Signals,
    ask: usize,
    prev_total: usize,
    probes: nat,
    r: Result<(Seq<KeepSpec>, usize), Exclusion>,
) -> bool
    decreases probes,
{
    if probes == 0 {
        r == Err::<(Seq<KeepSpec>, usize), Exclusion>(Exclusion::StillOver { budget })
    } else {
        exists|answer: Result<Seq<KeepSpec>, Exclusion>|
            {
                &&& #[trigger] answered(
                    cand,
                    n_heads_q,
                    n_kv_heads,
                    caches,
                    ask,
                    signals,
                    answer,
                )
                &&& match answer {
                    Err(e) => r == Err::<(Seq<KeepSpec>, usize), Exclusion>(e),
                    Ok(layers) => {
                        let total = retained(layers, n_kv_heads);
                        let next = next_ask(
                            ask,
                            total,
                            budget,
                            spread(caches.len(), n_kv_heads as nat),
                        );
                        if total <= budget {
                            r == Ok::<(Seq<KeepSpec>, usize), Exclusion>((layers, ask))
                        } else if total >= prev_total {
                            r == Err::<(Seq<KeepSpec>, usize), Exclusion>(
                                Exclusion::DoesNotShrink { total, budget },
                            )
                        } else if next <= 0 {
                            r == Err::<(Seq<KeepSpec>, usize), Exclusion>(
                                Exclusion::NoSmallerBudget { total, budget },
                            )
                        } else {
                            calibrated(
                                cand,
                                n_heads_q,
                                n_kv_heads,
                                caches,
                                budget,
                                signals,
                                next as usize,
                                total,
                                (probes - 1) as nat,
                                r,
                            )
                        }
                    },
                }
            }
    }
}

/// An accepted plan in a result.
pub open spec fn calibrated_view(r: Result<CalibratedPlan, Exclusion>) -> Result<
    (Seq<KeepSpec>, usize),
    Exclusion,
> {
    match r {
        Ok(plan) => Ok((plan.layers@, plan.asked)),
        Err(e) => Err(e),
    }
}

/// Asks a candidate, and asks again for less while it answers with more than the budget.
fn plan_from<S: KVMutationStage>(
    cand: &Candidate<S>,
    n_heads_q: usize,
    n_kv_heads: usize,
    caches: &mut Vec<KVCache>,
    budget: usize,
    signals: &Signals,
    ask: usize,
    prev_total: usize,
    probes: usize,
) -> (r: Result<CalibratedPlan, Exclusion>)
    requires
        all_wf(old(caches)@),
    ensures
        final(caches)@ == old(caches)@,
        calibrated(
            cand,
            n_heads_q,
            n_kv_heads,
            old(caches)@,
            budget,
            *signals,
            ask,
            prev_total,
            probes as nat,
            calibrated_view(r),
        ),
        r matches Ok(plan) ==> covers_heads(plan.layers@, n_kv_heads),
    decreases probes,
{
    if probes == 0 {
        return Err(Exclusion::StillOver { budget });
    }
    let ghost before = caches@;
    let n: usize = caches.len();
    let answer = plan_one(cand, n_heads_q, n_kv_heads, caches, ask, signals);
    let ghost said = layers_view(answer);
    assert(answered(cand, n_heads_q, n_kv_heads, before, ask, *signals, said));
    let layers = match answer {
        Err(e) => {
            return Err(e);
        },
        Ok(layers) => layers,
    };
    let total: usize = sets_of(&layers, n_kv_heads).total();
    assert(total == retained(layers@, n_kv_heads));
    if total <= budget {
        return Ok(CalibratedPlan { layers, asked: ask });
    }
    if total >= prev_total {
        return Err(Exclusion::DoesNotShrink { total, budget });
    }
    let cells: usize = match n.checked_mul(n_kv_heads) {
        None => usize::MAX,
        Some(0) => 1,
        Some(cells) => cells,
    };
    let step: usize = div_up((total - budget) as u128, cells as u128) as usize;
    assert(ask - step == next_ask(ask, total, budget, spread(before.len(), n_kv_heads as nat)));
    if ask <= step {
        return Err(Exclusion::NoSmallerBudget { total, budget });
    }
    plan_from(
        cand,
        n_heads_q,
        n_kv_heads,
        caches,
        budget,
        signals,
        ask - step,
        total,
        probes - 1,
    )
}

/// Asks a candidate for a budget, calibrating the ask to what it answers.
pub fn plan_calibrated<S: KVMutationStage>(
    cand: &Candidate<S>,
    n_heads_q: usize,
    n_kv_heads: usize,
    caches: &mut Vec<KVCache>,
    target_len: usize,
    budget: usize,
    signals: &Signals,
) -> (r: Result<CalibratedPlan, Exclusion>)
    requires
        all_wf(old(caches)@),
    ensures
        final(caches)@ == old(caches)@,
        calibrated(
            cand,
            n_heads_q,
            n_kv_heads,
            old(caches)@,
            budget,
            *signals,
            target_len,
            usize::MAX,
            MAX_BUDGET_PROBES as nat,
            calibrated_view(r),
        ),
        r matches Ok(plan) ==> covers_heads(plan.layers@, n_kv_heads),
{
    plan_from(
        cand,
        n_heads_q,
        n_kv_heads,
        caches,
        budget,
        signals,
        target_len,
        usize::MAX,
        MAX_BUDGET_PROBES,
    )
}

/// An accepted plan is within the budget, and the candidate was asked for no more than the target
/// and, where the target asks for something, for something.
pub proof fn lemma_accepted_plan_is_within_budget<S: KVMutationStage>(
    cand: &Candidate<S>,
    n_heads_q: usize,
    n_kv_heads: usize,
    caches: Seq<KVCache>,
    budget: usize,
    signals: Signals,
    ask: usize,
    prev_total: usize,
    probes: nat,
    layers: Seq<KeepSpec>,
    asked: usize,
)
    requires
        calibrated(
            cand,
            n_heads_q,
            n_kv_heads,
            caches,
            budget,
            signals,
            ask,
            prev_total,
            probes,
            Ok((layers, asked)),
        ),
    ensures
        retained(layers, n_kv_heads) <= budget,
        asked <= ask,
        ask > 0 ==> asked > 0,
        answered(cand, n_heads_q, n_kv_heads, caches, asked, signals, Ok(layers)),
    decreases probes,
{
    if probes > 0 {
        let r = Ok::<(Seq<KeepSpec>, usize), Exclusion>((layers, asked));
        let answer = choose|answer: Result<Seq<KeepSpec>, Exclusion>|
            {
                &&& #[trigger] answered(
                    cand,
                    n_heads_q,
                    n_kv_heads,
                    caches,
                    ask,
                    signals,
                    answer,
                )
                &&& match answer {
                    Err(e) => r == Err::<(Seq<KeepSpec>, usize), Exclusion>(e),
                    Ok(layers) => {
                        let total = retained(layers, n_kv_heads);
                        let next = next_ask(
                            ask,
                            total,
                            budget,
                            spread(caches.len(), n_kv_heads as nat),
                        );
                        if total <= budget {
                            r == Ok::<(Seq<KeepSpec>, usize), Exclusion>((layers, ask))
                        } else if total >= prev_total {
                            r == Err::<(Seq<KeepSpec>, usize), Exclusion>(
                                Exclusion::DoesNotShrink { total, budget },
                            )
                        } else if next <= 0 {
                            r == Err::<(Seq<KeepSpec>, usize), Exclusion>(
                                Exclusion::NoSmallerBudget { total, budget },
                            )
                        } else {
                            calibrated(
                                cand,
                                n_heads_q,
                                n_kv_heads,
                                caches,
                                budget,
                                signals,
                                next as usize,
                                total,
                                (probes - 1) as nat,
                                r,
                            )
                        }
                    },
                }
            };
        if let Ok(found) = answer {
            let total = retained(found, n_kv_heads);
            let cells = spread(caches.len(), n_kv_heads as nat);
            let next = next_ask(ask, total, budget, cells);
            if total > budget && total < prev_total && next > 0 {
                assert(up((total - budget) as nat, cells) >= 0);
                lemma_accepted_plan_is_within_budget(
                    cand,
                    n_heads_q,
                    n_kv_heads,
                    caches,
                    budget,
                    signals,
                    next as usize,
                    total,
                    (probes - 1) as nat,
                    layers,
                    asked,
                );
            }
        }
    }
}

/// The set of a head is the list that the plan has for it: a layer's one list, or the head's own.
pub proof fn lemma_set_of_a_head(layers: Seq<KeepSpec>, n_kv_heads: usize, l: int, h: int)
    requires
        0 <= l < layers.len() <= usize::MAX,
        0 <= h < n_kv_heads,
    ensures
        spec_sets(layers, n_kv_heads).n_layers == layers.len(),
        spec_sets(layers, n_kv_heads).n_kv_heads == n_kv_heads,
        spec_sets(layers, n_kv_heads).cells.len() == layers.len() * n_kv_heads,
        0 <= l * n_kv_heads + h < layers.len() * n_kv_heads,
        layers[l] matches KeepSpec::LayerWide(list) ==> spec_sets(layers, n_kv_heads).cells[l
            * n_kv_heads + h] == list@,
        layers[l] matches KeepSpec::PerHead(heads) ==> spec_sets(layers, n_kv_heads).cells[l
            * n_kv_heads + h] == heads@[h]@,
{
    let w = n_kv_heads as int;
    let at = l * w + h;
    assert(l * w == w * l) by (nonlinear_arith);
    vstd::arithmetic::div_mod::lemma_fundamental_div_mod_converse(at, w, l, h);
    assert(0 <= at < layers.len() * w) by (nonlinear_arith)
        requires
            at == l * w + h,
            0 <= l,
            l + 1 <= layers.len(),
            0 <= h < w,
    ;
}

/// The lengths of the first `n` lists together.
pub open spec fn lengths(heads: Seq<Vec<usize>>, n: nat) -> nat
    decreases n,
{
    if n == 0 {
        0
    } else {
        lengths(heads, (n - 1) as nat) + heads[n - 1]@.len()
    }
}

/// How many positions a keep retains over its heads: a layer's one list in every head, or each
/// head's own.
pub open spec fn kept_over_heads(keep: KeepSpec, n_kv_heads: nat) -> nat {
    match keep {
        KeepSpec::LayerWide(list) => n_kv_heads * list@.len(),
        KeepSpec::PerHead(heads) => lengths(heads@, n_kv_heads),
    }
}

/// How many positions a plan retains over its layers and heads.
pub open spec fn kept_over_layers(layers: Seq<KeepSpec>, n_kv_heads: nat) -> nat
    decreases layers.len(),
{
    if layers.len() == 0 {
        0
    } else {
        kept_over_layers(layers.drop_last(), n_kv_heads) + kept_over_heads(
            layers.last(),
            n_kv_heads,
        )
    }
}

/// What a plan retains is the lengths of all its heads' lists together; a sum past the machine's
/// range counts as its maximum.
pub proof fn lemma_retained_is_the_sum_over_heads(layers: Seq<KeepSpec>, n_kv_heads: usize)
    requires
        layers.len() <= usize::MAX,
    ensures
        retained(layers, n_kv_heads) == (if kept_over_layers(layers, n_kv_heads as nat)
            <= usize::MAX {
            kept_over_layers(layers, n_kv_heads as nat)
        } else {
            usize::MAX as nat
        }),
    decreases layers.len(),
{
    let w = n_kv_heads as int;
    let cells = spec_sets(layers, n_kv_heads).cells;
    if layers.len() == 0 {
        assert(0 * w == 0) by (nonlinear_arith);
        assert(cells.len() == 0);
    } else {
        let init = layers.drop_last();
        let at = init.len() * w;
        assert(layers.len() * w == at + w) by (nonlinear_arith)
            requires
                layers.len() == init.len() + 1,
                at == init.len() * w,
        ;
        assert(0 <= at) by (nonlinear_arith)
            requires
                at == init.len() * w,
                0 <= w,
        ;
        lemma_retained_is_the_sum_over_heads(init, n_kv_heads);
        let first = spec_sets(init, n_kv_heads).cells;
        assert forall|i: int| 0 <= i < at implies first[i] == cells.take(at)[i] by {
            vstd::arithmetic::div_mod::lemma_fundamental_div_mod(i, w);
            vstd::arithmetic::div_mod::lemma_mod_bound(i, w);
            let d = i / w;
            assert(0 <= d < init.len()) by (nonlinear_arith)
                requires
                    i == w * d + i % w,
                    0 <= i % w < w,
                    0 <= i < init.len() * w,
            ;
            assert(init[d] == layers[d]);
        }
        assert(cells.take(at) =~= first);
        lemma_last_layer_counts(layers, n_kv_heads, n_kv_heads as nat);
        assert(cells.take(at + w) =~= cells);
        if let KeepSpec::LayerWide(list) = layers.last() {
            lemma_lengths_of_one_list(layers.last(), n_kv_heads as nat);
        }
        lemma_head_lengths(layers.last(), n_kv_heads as nat);
    }
}

/// The lengths of the first `n` heads' lists of a keep.
spec fn head_lengths(keep: KeepSpec, n: nat) -> nat
    decreases n,
{
    if n == 0 {
        0
    } else {
        head_lengths(keep, (n - 1) as nat) + head_list(keep, n - 1).len()
    }
}

proof fn lemma_lengths_of_one_list(keep: KeepSpec, n: nat)
    requires
        keep is LayerWide,
    ensures
        head_lengths(keep, n) == n * (keep->LayerWide_0)@.len(),
    decreases n,
{
    let w = (keep->LayerWide_0)@.len();
    if n > 0 {
        lemma_lengths_of_one_list(keep, (n - 1) as nat);
        assert(n * w == (n - 1) * w + w) by (nonlinear_arith);
    } else {
        assert(0 * w == 0) by (nonlinear_arith);
    }
}

proof fn lemma_head_lengths(keep: KeepSpec, n: nat)
    ensures
        keep matches KeepSpec::PerHead(heads) ==> head_lengths(keep, n) == lengths(heads@, n),
    decreases n,
{
    if n > 0 {
        lemma_head_lengths(keep, (n - 1) as nat);
    }
}

/// The total once the first `n` heads of the last layer are counted.
proof fn lemma_last_layer_counts(layers: Seq<KeepSpec>, n_kv_heads: usize, n: nat)
    requires
        0 < layers.len() <= usize::MAX,
        n <= n_kv_heads,
    ensures
        ({
            let cells = spec_sets(layers, n_kv_heads).cells;
            let at = (layers.len() - 1) * n_kv_heads;
            let before = cells_total(cells.take(at));
            let sum = before + head_lengths(layers.last(), n);
            cells_total(cells.take(at + n)) == if sum > usize::MAX {
                usize::MAX as int
            } else {
                sum
            }
        }),
    decreases n,
{
    let w = n_kv_heads as int;
    let cells = spec_sets(layers, n_kv_heads).cells;
    let l = layers.len() - 1;
    let at = l * w;
    assert(layers.len() * w == at + w) by (nonlinear_arith)
        requires
            layers.len() == l + 1,
            at == l * w,
    ;
    assert(0 <= at) by (nonlinear_arith)
        requires
            at == l * w,
            0 <= w,
            0 <= l,
    ;
    if n > 0 {
        lemma_last_layer_counts(layers, n_kv_heads, (n - 1) as nat);
        let h = n - 1;
        let some = cells.take(at + n);
        assert(some.drop_last() =~= cells.take(at + h));
        assert(l * w == w * l) by (nonlinear_arith);
        vstd::arithmetic::div_mod::lemma_fundamental_div_mod_converse(at + h, w, l, h);
        assert(some.last() == head_list(layers[l], h));
    }
}

/// How a candidate is asked: for the target first, at most four times in all. An answer within the
/// budget is taken, with what it was asked for. One over it is asked again for less by the overshoot
/// spread over all heads of all layers, rounded up; unless it is no less than the one before, or
/// nothing would be left to ask for.
pub proof fn lemma_how_a_candidate_is_asked<S: KVMutationStage>(
    cand: &Candidate<S>,
    n_heads_q: usize,
    n_kv_heads: usize,
    caches: Seq<KVCache>,
    budget: usize,
    signals: Signals,
    ask: usize,
    prev_total: usize,
    probes: nat,
    layers: Seq<KeepSpec>,
    r: Result<(Seq<KeepSpec>, usize), Exclusion>,
    total: usize,
    step: int,
)
    requires
        layers.len() <= usize::MAX,
        probes > 0,
        forall|answer: Result<Seq<KeepSpec>, Exclusion>| #[trigger]
            answered(cand, n_heads_q, n_kv_heads, caches, ask, signals, answer) ==> answer
                == Ok::<Seq<KeepSpec>, Exclusion>(layers),
        calibrated(
            cand,
            n_heads_q,
            n_kv_heads,
            caches,
            budget,
            signals,
            ask,
            prev_total,
            probes,
            r,
        ),
        total == kept_over_layers(layers, n_kv_heads as nat) || (total == usize::MAX && total
            <= kept_over_layers(layers, n_kv_heads as nat)),
        0 < caches.len() * n_kv_heads <= usize::MAX,
        (step - 1) * (caches.len() * n_kv_heads) < total - budget <= step * (caches.len()
            * n_kv_heads),
    ensures
        MAX_BUDGET_PROBES == 4,
        total <= budget ==> r == Ok::<(Seq<KeepSpec>, usize), Exclusion>((layers, ask)),
        total > budget && total >= prev_total ==> r == Err::<(Seq<KeepSpec>, usize), Exclusion>(
            Exclusion::DoesNotShrink { total, budget },
        ),
        budget < total < prev_total && step >= ask ==> r == Err::<
            (Seq<KeepSpec>, usize),
            Exclusion,
        >(Exclusion::NoSmallerBudget { total, budget }),
        budget < total < prev_total && step < ask && probes == 1 ==> r == Err::<
            (Seq<KeepSpec>, usize),
            Exclusion,
        >(Exclusion::StillOver { budget }),
        budget < total < prev_total && step < ask ==> calibrated(
            cand,
            n_heads_q,
            n_kv_heads,
            caches,
            budget,
            signals,
            (ask - step) as usize,
            total,
            (probes - 1) as nat,
            r,
        ),
{
    reveal_with_fuel(calibrated, 2);
    lemma_retained_is_the_sum_over_heads(layers, n_kv_heads);
    let heads = caches.len() * n_kv_heads;
    if total > budget {
        let over = (total - budget) as nat;
        crate::arith::lemma_up_is_the_least_enough(over, heads as nat);
        let q = up(over, heads as nat) as int;
        assert(q == step) by (nonlinear_arith)
            requires
                (step - 1) * heads < over <= step * heads,
                (q - 1) * heads < over <= q * heads,
                heads > 0,
        ;
        assert(spread(caches.len(), n_kv_heads as nat) == heads);
    }
}

} // verus!
