//! Choosing, among techniques, the one whose compression deviates least, and applying it.

use crate::clock::{elapsed, spent, Clock};
use crate::codec::RowCodec;
use crate::descriptor::TensorKind;
use crate::eviction::{all_wf, EvictError};
use crate::keep::KeepSpec;
use crate::keep_sets::{cells_total, KeepSets};
use crate::keepset_dump::{KeepsetDump, RecorderView};
use crate::kv_cache::KVCache;
use crate::pressure::RatioMath;
use crate::selector_apply::{apply_layers, first_refusal, layer_mean_resident, layers_applied,
    layers_recorded, shared_cursor, spec_mean_resident, spec_shared_cursor};
use crate::selector_carry::{carried, carry};
use crate::selector_decide::{decide, decided, Decision};
use crate::score_bits::spec_order;
use crate::selector_plan::{calibrated, lemma_accepted_plan_is_within_budget, retained, spec_sets,
    Candidate, Exclusion, Signals, MAX_BUDGET_PROBES};
use crate::selector_pool::{eligible, entry_of, lemma_eligible, outcome, outcomes_of, plan_pool,
    pool_of, Asking, Pool};
use crate::stage_registry::KVMutationStage;
use crate::text::{decimal, decimal_text};
use crate::window::{first_fault, layers_read, logits_accepted, measured, spec_measured, Geom,
    HostLayers, QRowCapture, ReadFault};
use crate::window_pass::{window_attention_layers, window_ran, DeviceLatch, Metric, MetricError,
    WindowPass};
use vstd::prelude::*;

verus! {

/// Why no choice was made.
#[derive(Debug)]
pub enum NoChoice {
    /// The cache is no longer than the rows that are measured.
    TooShort { resident: usize, rows: usize },
    /// The captured rows are not those of the cache's last positions.
    StaleRows { resident: usize },
    /// No candidate could be compared, and why, in the order of the pool.
    AllExcluded(Vec<(String, Exclusion)>),
}

/// Exclusions in words, one after the other.
pub open spec fn reasons(list: Seq<(String, Exclusion)>) -> Seq<char>
    decreases list.len(),
{
    if list.len() == 0 {
        Seq::empty()
    } else {
        let own = list.last().0@ + ": "@ + list.last().1.words();
        if list.len() == 1 {
            own
        } else {
            reasons(list.drop_last()) + "; "@ + own
        }
    }
}

impl NoChoice {
    /// The reason in words.
    pub open spec fn words(self) -> Seq<char> {
        match self {
            NoChoice::TooShort { resident, rows } => "only "@ + decimal(resident as nat)
                + " token(s) resident but the metric scores "@ + decimal(rows as nat)
                + " query rows"@,
            NoChoice::StaleRows { resident } => "the captured query rows do not cover the "@
                + decimal(resident as nat)
                + " resident token(s) — the cache was renumbered after they were captured, so there is nothing to measure the candidates on"@,
            NoChoice::AllExcluded(list) => "no candidate was comparable: "@ + reasons(list@),
        }
    }

    /// The reason in words.
    pub fn message(&self) -> (m: String)
        ensures
            m@ == self.words(),
    {
        match self {
            NoChoice::TooShort { resident, rows } => {
                let mut m: String = "only ".to_owned();
                m.append(decimal_text(*resident).as_str());
                m.append(" token(s) resident but the metric scores ");
                m.append(decimal_text(*rows).as_str());
                m.append(" query rows");
                m
            },
            NoChoice::StaleRows { resident } => {
                let mut m: String = "the captured query rows do not cover the ".to_owned();
                m.append(decimal_text(*resident).as_str());
                m.append(
                    " resident token(s) — the cache was renumbered after they were captured, so there is nothing to measure the candidates on",
                );
                m
            },
            NoChoice::AllExcluded(list) => {
                let mut m: String = "no candidate was comparable: ".to_owned();
                let ghost start = m@;
                let mut i: usize = 0;
                assert(list@.take(0) =~= Seq::<(String, Exclusion)>::empty());
                assert(m@ =~= start + reasons(list@.take(0)));
                while i < list.len()
                    invariant
                        i <= list@.len(),
                        m@ == start + reasons(list@.take(i as int)),
                    decreases list@.len() - i,
                {
                    let ghost before = m@;
                    if i > 0 {
                        m.append("; ");
                    }
                    m.append(list[i].0.as_str());
                    m.append(": ");
                    m.append(list[i].1.message().as_str());
                    proof {
                        let more = list@.take(i + 1);
                        assert(more.drop_last() =~= list@.take(i as int));
                        assert(more.last() == list@[i as int]);
                        assert(m@ =~= start + reasons(more));
                    }
                    i = i + 1;
                }
                assert(list@.take(i as int) =~= list@);
                m
            },
        }
    }
}

/// Why a selection failed.
#[derive(Debug)]
pub enum SelectError {
    /// There are no layers.
    NoLayers,
    /// The metric's basis is for another number of layers.
    BasisLayers { basis: usize, layers: usize },
    /// The metric's basis is for queries of another width.
    BasisWidth { basis: usize },
    /// The layers could not be read.
    Read(ReadFault),
    /// A measurement failed.
    Metric(MetricError),
    /// A layer refused the winner's keep.
    Apply { layer: usize, error: EvictError },
}

/// What one candidate came to.
#[derive(Debug)]
pub struct Arm {
    pub name: String,
    /// How far it deviates; the bit pattern of a single-precision number.
    pub score: u32,
    /// Positions it retains over all layers and heads.
    pub kept_total: usize,
    /// The budget per layer that it was finally asked for.
    pub asked: usize,
    /// Nanoseconds that planning it took.
    pub plan_time: u64,
}

/// What a choice cost, in nanoseconds.
#[derive(Clone, Copy, Debug, PartialEq, Eq, Structural)]
pub struct ChoiceTimes {
    /// Putting the layers where the metric can read them.
    pub read: u64,
    /// The observation window over every layer; nothing where no candidate ranks by it.
    pub window: u64,
    /// Planning every candidate.
    pub plan: u64,
    /// Measuring, and picking the winner.
    pub decide: u64,
    /// Applying the winner to every layer.
    pub apply: u64,
    /// Carrying what was captured to the new numbering.
    pub carry: u64,
}

/// Every time up to the decision was measured; with no candidate that reads the window, none was
/// spent on it.
pub open spec fn timed<K: Clock>(clock: &K, times: ChoiceTimes, reads_window: bool) -> bool {
    &&& spent(clock, times.read)
    &&& spent(clock, times.plan)
    &&& spent(clock, times.decide)
    &&& if reads_window {
        spent(clock, times.window)
    } else {
        times.window == 0
    }
}

/// A choice, and what it came to.
#[derive(Debug)]
pub struct Choice {
    pub winner: String,
    /// Every candidate that was compared, in the order of the pool.
    pub arms: Vec<Arm>,
    /// Every candidate that was not, and why.
    pub excluded: Vec<(String, Exclusion)>,
    /// Tokens resident before, a mean over the layers.
    pub tokens_before: usize,
    /// Tokens resident after, a mean over the layers.
    pub tokens_after: usize,
    /// Positions that may be retained over all layers and heads.
    pub budget_total: usize,
    /// The budget per layer.
    pub target_len: usize,
    /// Candidates that retain what an earlier one retains.
    pub folded: usize,
    /// Layers attended to in measuring.
    pub attend_n: usize,
    /// What the choice cost.
    pub times: ChoiceTimes,
    /// The captured scores in the new numbering; `None` where they cannot be carried, and where
    /// nothing was renumbered.
    pub prefill_attn: Option<Vec<Vec<u32>>>,
}

/// What a selection works with.
pub struct Workshop<'a, C, R, M> {
    pub codec: &'a C,
    pub math: &'a R,
    pub metric: &'a M,
    /// Host copies of the layers, for layers on a device.
    pub mirrors: Option<&'a Vec<KVCache>>,
}

impl<'a, C, R, M> Workshop<'a, C, R, M> {
    /// The copies are well formed.
    pub open spec fn wf(self) -> bool {
        self.mirrors matches Some(m) ==> all_wf(m@)
    }
}

/// A pool of candidates, and the model they are compared on.
pub struct Selector<S> {
    pub candidates: Vec<Candidate<S>>,
    /// Layers that the metric's basis is for.
    pub basis_layers: usize,
    /// Width of the queries that the metric's basis is for.
    pub basis_width: usize,
    pub n_heads_q: usize,
    /// How many of the captured rows are measured at most.
    pub metric_rows: usize,
}

/// The sizes of a decision.
pub open spec fn geom<S>(sel: Selector<S>, caches: Seq<KVCache>, rows: usize) -> Geom {
    Geom {
        n_layers: caches.len() as usize,
        n_heads_q: sel.n_heads_q,
        n_kv_heads: caches[0]@.shape.kv_heads,
        head_dim: caches[0]@.shape.head_dim,
        current_pos: caches[0]@.current_pos,
        rows,
    }
}

/// Why nothing is even asked, if so: an error, or a reason for no choice.
pub open spec fn unready<S>(sel: Selector<S>, caches: Seq<KVCache>, capture: QRowCapture) -> Option<
    Result<NoChoice, SelectError>,
> {
    if caches.len() == 0 {
        Some(Err(SelectError::NoLayers))
    } else if sel.basis_layers != caches.len() {
        Some(
            Err(
                SelectError::BasisLayers {
                    basis: sel.basis_layers,
                    layers: caches.len() as usize,
                },
            ),
        )
    } else if sel.basis_width != sel.n_heads_q * caches[0]@.shape.head_dim {
        Some(Err(SelectError::BasisWidth { basis: sel.basis_width }))
    } else if capture.rows == 0 || caches[0]@.current_pos <= capture.rows {
        Some(
            Ok(NoChoice::TooShort { resident: caches[0]@.current_pos, rows: capture.rows }),
        )
    } else if !capture.spec_covers(caches[0]@.current_pos) {
        Some(Ok(NoChoice::StaleRows { resident: caches[0]@.current_pos }))
    } else {
        None
    }
}

/// The budget per layer: the share of the cache, and at least one.
pub open spec fn target_of<R: RatioMath>(math: &R, ratio: u32, resident: usize, target: usize) -> bool {
    exists|n: usize|
        #[trigger] call_ensures(R::portion, (math, ratio, resident), n) && target == if n == 0 {
            1
        } else {
            n
        }
}

/// The budget over all layers and heads. A count that does not fit stands at the machine's maximum.
pub open spec fn budget_of(target: usize, n_layers: nat, n_kv_heads: usize) -> usize {
    let n = target * (n_layers * n_kv_heads);
    if n <= usize::MAX {
        n as usize
    } else {
        usize::MAX
    }
}

/// Some candidate ranks by the observation window.
pub open spec fn any_reads_window<S: KVMutationStage>(candidates: Seq<Candidate<S>>) -> bool {
    exists|i: int| 0 <= i < candidates.len() && (#[trigger] candidates[i]).spec_reads_window()
}

/// How a pool came to be compared.
pub struct Account {
    pub target_len: usize,
    pub src: HostLayers,
    pub window: Option<WindowPass>,
    pub outcomes: Seq<Result<(Seq<KeepSpec>, usize), Exclusion>>,
    pub pool: Pool,
}

/// The scores that candidates plan by: the window's in place of the capture's.
pub open spec fn plan_signals<'a>(signals: Signals<'a>, window: &'a Option<WindowPass>) -> Signals<
    'a,
> {
    Signals {
        prefill_attn: match window {
            Some(w) => Some(&w.scores),
            None => None,
        },
        ..signals
    }
}

/// What a candidate is asked in.
pub open spec fn asking<S>(sel: Selector<S>, caches: Seq<KVCache>, target_len: usize) -> Asking {
    Asking {
        n_heads_q: sel.n_heads_q,
        n_kv_heads: caches[0]@.shape.kv_heads,
        target_len,
        budget: budget_of(target_len, caches.len(), caches[0]@.shape.kv_heads),
        frame: caches[0]@.current_pos,
    }
}

/// The sizes of the measurement.
pub open spec fn metric_geom<S>(sel: Selector<S>, caches: Seq<KVCache>, capture: QRowCapture) -> Geom {
    geom(sel, caches, spec_measured(capture.rows, sel.metric_rows))
}

/// What was read, with a device's logits if it exported any.
pub open spec fn measured_src(a: Account, g: Geom) -> HostLayers {
    match a.window {
        Some(w) => logits_accepted(a.src, w.logits, g),
        None => a.src,
    }
}

/// The layers were read, the window computed where a candidate ranks by it, and every candidate was
/// asked.
pub open spec fn asked<S: KVMutationStage, C: RowCodec, R: RatioMath, M: Metric>(
    sel: Selector<S>,
    with: Workshop<C, R, M>,
    caches: Seq<KVCache>,
    capture: QRowCapture,
    ratio: u32,
    signals: Signals,
    before: DeviceLatch,
    after: DeviceLatch,
    a: Account,
) -> bool {
    let g = metric_geom(sel, caches, capture);
    &&& target_of(with.math, ratio, caches[0]@.current_pos, a.target_len)
    &&& layers_read(with.codec, caches, with.mirrors, capture, g, a.src)
    &&& if any_reads_window(sel.candidates@) {
        a.window matches Some(w) && window_ran(
            with.metric,
            caches,
            a.src,
            geom(sel, caches, capture.rows),
            before,
            after,
            Ok(w),
        )
    } else {
        a.window is None && after == before
    }
    &&& a.outcomes.len() == sel.candidates@.len()
    &&& outcomes_of(
        sel.candidates@,
        caches,
        asking(sel, caches, a.target_len),
        plan_signals(signals, &a.window),
        a.outcomes,
    )
    &&& pool_of(sel.candidates@, caches[0]@.shape.kv_heads, a.outcomes, a.pool)
}

/// The window that a candidate ranks by could not be computed over the layers as they were read.
pub open spec fn window_failed<S: KVMutationStage, C: RowCodec, R, M: Metric>(
    sel: Selector<S>,
    with: Workshop<C, R, M>,
    caches: Seq<KVCache>,
    capture: QRowCapture,
    before: DeviceLatch,
    after: DeviceLatch,
    e: MetricError,
) -> bool {
    &&& any_reads_window(sel.candidates@)
    &&& exists|src: HostLayers|
        {
            &&& #[trigger] layers_read(
                with.codec,
                caches,
                with.mirrors,
                capture,
                metric_geom(sel, caches, capture),
                src,
            )
            &&& window_ran(
                with.metric,
                caches,
                src,
                geom(sel, caches, capture.rows),
                before,
                after,
                Err(e),
            )
        }
}

/// A choice that has not been applied.
pub struct Picked {
    pub pool: Pool,
    pub decision: Decision,
    pub target_len: usize,
    pub budget_total: usize,
    /// What it cost so far.
    pub times: ChoiceTimes,
}

/// What choosing came to, where everything was ready.
pub open spec fn chosen<S: KVMutationStage, C: RowCodec, R: RatioMath, M: Metric>(
    sel: Selector<S>,
    with: Workshop<C, R, M>,
    caches: Seq<KVCache>,
    capture: QRowCapture,
    ratio: u32,
    signals: Signals,
    before: DeviceLatch,
    after: DeviceLatch,
    r: Result<Result<Picked, NoChoice>, SelectError>,
) -> bool {
    match r {
        Err(SelectError::Read(fault)) => {
            &&& first_fault(
                with.codec,
                caches,
                with.mirrors,
                capture,
                metric_geom(sel, caches, capture),
                fault,
            )
            &&& after == before
        },
        Err(SelectError::Metric(e)) => {
            ||| window_failed(sel, with, caches, capture, before, after, e)
            ||| exists|a: Account|
                {
                    let g = metric_geom(sel, caches, capture);
                    &&& #[trigger] asked(sel, with, caches, capture, ratio, signals, before, after, a)
                    &&& a.pool.entries@.len() > 0
                    &&& decided(with.metric, measured_src(a, g), g, a.pool.sets@, Err(e))
                }
        },
        Err(_) => false,
        Ok(Err(NoChoice::AllExcluded(list))) => exists|a: Account|
            {
                &&& #[trigger] asked(sel, with, caches, capture, ratio, signals, before, after, a)
                &&& a.pool.entries@.len() == 0
                &&& list == a.pool.excluded
            },
        Ok(Err(_)) => false,
        Ok(Ok(p)) => exists|a: Account|
            {
                &&& #[trigger] asked(sel, with, caches, capture, ratio, signals, before, after, a)
                &&& picked(sel, with, caches, capture, a, p)
            },
    }
}

/// The choice is among what was asked.
pub open spec fn picked<S, C, R, M: Metric>(
    sel: Selector<S>,
    with: Workshop<C, R, M>,
    caches: Seq<KVCache>,
    capture: QRowCapture,
    a: Account,
    p: Picked,
) -> bool {
    let g = metric_geom(sel, caches, capture);
    &&& p.pool == a.pool
    &&& p.target_len == a.target_len
    &&& p.budget_total == budget_of(a.target_len, caches.len(), caches[0]@.shape.kv_heads)
    &&& decided(with.metric, measured_src(a, g), g, a.pool.sets@, Ok(p.decision))
}

/// What a candidate is reported with.
pub open spec fn arm_of(p: Picked, j: int, arm: Arm) -> bool {
    &&& arm.name@ == p.pool.entries@[j].name@
    &&& arm.score == p.decision.scores@[j]
    &&& arm.kept_total == cells_total(p.pool.sets@[j]@.cells)
    &&& arm.asked == p.pool.entries@[j].asked
    &&& arm.plan_time == p.pool.entries@[j].plan_time
}

/// The keeps of the winner.
pub open spec fn winning(p: Picked) -> Seq<KeepSpec> {
    p.pool.entries@[p.decision.winner as int].layers@
}

/// What a choice reports.
pub open spec fn reported<S>(
    sel: Selector<S>,
    before: Seq<KVCache>,
    after: Seq<KVCache>,
    signals: Signals,
    p: Picked,
    choice: Choice,
) -> bool {
    &&& choice.winner@ == p.pool.entries@[p.decision.winner as int].name@
    &&& choice.arms@.len() == p.pool.entries@.len()
    &&& forall|j: int| 0 <= j < choice.arms@.len() ==> arm_of(p, j, #[trigger] choice.arms@[j])
    &&& choice.excluded == p.pool.excluded
    &&& choice.tokens_before == spec_mean_resident(before)
    &&& choice.tokens_after == spec_mean_resident(after)
    &&& choice.budget_total == p.budget_total
    &&& choice.target_len == p.target_len
    &&& choice.folded == p.decision.folded
    &&& choice.attend_n == p.decision.attend_n
    &&& choice.times == (ChoiceTimes {
        apply: choice.times.apply,
        carry: choice.times.carry,
        ..p.times
    })
    &&& match signals.prefill_attn {
        Some(held) if after[0]@.current_pos < before[0]@.current_pos => carried(
            held@,
            winning(p),
            sel.n_heads_q,
            before[0]@.shape.kv_heads,
            after[0]@.current_pos,
            choice.prefill_attn,
        ),
        _ => choice.prefill_attn is None,
    }
}

/// The capture after a choice: it follows the first layer's cursor where that went down.
pub open spec fn followed(capture: QRowCapture, before: usize, after: usize) -> QRowCapture {
    if after < before {
        capture.renumbered(after)
    } else {
        capture
    }
}

/// A choice was made.
pub open spec fn chose<S: KVMutationStage, C: RowCodec, R: RatioMath, M: Metric>(
    sel: Selector<S>,
    with: Workshop<C, R, M>,
    ratio: u32,
    signals: Signals,
    before: Selection,
    after: Selection,
    r: Result<Result<Picked, NoChoice>, SelectError>,
) -> bool {
    chosen(
        sel,
        with,
        before.caches,
        before.capture,
        ratio,
        signals,
        before.latch,
        after.latch,
        r,
    )
}

/// The winner's keeps were applied to every layer.
pub open spec fn winner_applied(before: Selection, after: Selection, p: Picked) -> bool {
    &&& layers_applied(
        before.caches,
        winning(p),
        spec_shared_cursor(winning(p), before.caches),
        after.caches,
    )
    &&& after.recorder == layers_recorded(
        before.recorder,
        before.caches,
        winning(p),
        before.caches.len(),
    )
}

/// A choice was made, applied and reported.
pub open spec fn landed<S: KVMutationStage, C: RowCodec, R: RatioMath, M: Metric>(
    sel: Selector<S>,
    with: Workshop<C, R, M>,
    ratio: u32,
    signals: Signals,
    before: Selection,
    after: Selection,
    p: Picked,
    choice: Choice,
) -> bool {
    &&& chose(sel, with, ratio, signals, before, after, Ok(Ok(p)))
    &&& winner_applied(before, after, p)
    &&& after.capture == followed(
        before.capture,
        before.caches[0]@.current_pos,
        after.caches[0]@.current_pos,
    )
    &&& reported(sel, before.caches, after.caches, signals, p, choice)
}

/// A choice was made, and `layer` is the first that refused it: no layer took it.
pub open spec fn stranded<S: KVMutationStage, C: RowCodec, R: RatioMath, M: Metric>(
    sel: Selector<S>,
    with: Workshop<C, R, M>,
    ratio: u32,
    signals: Signals,
    before: Selection,
    after: Selection,
    p: Picked,
    layer: usize,
    error: EvictError,
) -> bool {
    &&& chose(sel, with, ratio, signals, before, after, Ok(Ok(p)))
    &&& first_refusal(
        before.caches,
        winning(p),
        spec_shared_cursor(winning(p), before.caches),
        layer,
        error,
    )
    &&& after.untouched(before)
}

/// What a selection did, where everything was ready.
pub open spec fn selected<S: KVMutationStage, C: RowCodec, R: RatioMath, M: Metric>(
    sel: Selector<S>,
    with: Workshop<C, R, M>,
    ratio: u32,
    signals: Signals,
    before: Selection,
    after: Selection,
    r: Result<Result<Choice, NoChoice>, SelectError>,
) -> bool {
    match r {
        Ok(Ok(choice)) => exists|p: Picked| #[trigger]
            landed(sel, with, ratio, signals, before, after, p, choice),
        Err(SelectError::Apply { layer, error }) => exists|p: Picked| #[trigger]
            stranded(sel, with, ratio, signals, before, after, p, layer, error),
        Ok(Err(why)) => after.untouched(before) && chose(
            sel,
            with,
            ratio,
            signals,
            before,
            after,
            Ok(Err(why)),
        ),
        Err(e) => after.untouched(before) && chose(
            sel,
            with,
            ratio,
            signals,
            before,
            after,
            Err(e),
        ),
    }
}

/// What a selection reads and changes.
pub struct Selection {
    pub caches: Seq<KVCache>,
    pub capture: QRowCapture,
    pub latch: DeviceLatch,
    pub recorder: RecorderView,
}

impl Selection {
    /// Nothing but the latch may differ.
    pub open spec fn untouched(self, before: Selection) -> bool {
        &&& self.caches == before.caches
        &&& self.capture == before.capture
        &&& self.recorder == before.recorder
    }
}

/// Unless a choice is made and applied, nothing changes: no layer, no capture, no record. There is no
/// other outcome in between.
pub proof fn lemma_no_choice_changes_nothing<
    S: KVMutationStage,
    C: RowCodec,
    R: RatioMath,
    M: Metric,
>(
    sel: Selector<S>,
    with: Workshop<C, R, M>,
    ratio: u32,
    signals: Signals,
    before: Selection,
    after: Selection,
    r: Result<Result<Choice, NoChoice>, SelectError>,
)
    requires
        selected(sel, with, ratio, signals, before, after, r),
        r matches Ok(Ok(_)) ==> false,
    ensures
        after.caches == before.caches,
        after.capture == before.capture,
        after.recorder == before.recorder,
{
}

/// What every layer retains after a choice is what was scored: the sets of the winner, of which
/// there are no more than the budget, and no candidate that was compared deviates less.
pub proof fn lemma_choice_is_within_budget<
    S: KVMutationStage,
    C: RowCodec,
    R: RatioMath,
    M: Metric,
>(
    sel: Selector<S>,
    with: Workshop<C, R, M>,
    caches: Seq<KVCache>,
    capture: QRowCapture,
    ratio: u32,
    signals: Signals,
    before: DeviceLatch,
    after: DeviceLatch,
    p: Picked,
)
    requires
        chosen(sel, with, caches, capture, ratio, signals, before, after, Ok(Ok(p))),
        caches.len() > 0,
    ensures
        retained(winning(p), caches[0]@.shape.kv_heads) <= p.budget_total,
        p.pool.sets@[p.decision.winner as int]@ == spec_sets(
            winning(p),
            caches[0]@.shape.kv_heads,
        ),
        forall|j: int|
            0 <= j < p.decision.scores@.len() ==> spec_order(
                p.decision.scores@[p.decision.winner as int],
            ) <= spec_order(#[trigger] p.decision.scores@[j]),
{
    let a = choose|a: Account|
        {
            &&& #[trigger] asked(sel, with, caches, capture, ratio, signals, before, after, a)
            &&& picked(sel, with, caches, capture, a, p)
        };
    let w = p.decision.winner as int;
    let entry = a.pool.entries@[w];
    assert(entry_of(sel.candidates@, a.outcomes, eligible(a.outcomes)[w], entry));
    lemma_eligible(a.outcomes);
    let i = eligible(a.outcomes)[w];
    let ask = asking(sel, caches, a.target_len);
    let shown = plan_signals(signals, &a.window);
    assert(outcome(&sel.candidates@[i], caches, ask, shown, a.outcomes[i]));
    let plan = choose|plan: Result<(Seq<KeepSpec>, usize), Exclusion>|
        #[trigger] calibrated(
            &sel.candidates@[i],
            ask.n_heads_q,
            ask.n_kv_heads,
            caches,
            ask.budget,
            shown,
            ask.target_len,
            usize::MAX,
            MAX_BUDGET_PROBES as nat,
            plan,
        ) && match plan {
            Err(e) => a.outcomes[i] == plan,
            Ok((layers, asked)) => if spec_sets(layers, ask.n_kv_heads).valid(ask.frame) {
                a.outcomes[i] == plan
            } else {
                a.outcomes[i] matches Err(Exclusion::Invalid(e)) && spec_sets(
                    layers,
                    ask.n_kv_heads,
                ).has_fault(ask.frame, e)
            },
        };
    assert(plan == Ok::<(Seq<KeepSpec>, usize), Exclusion>((entry.layers@, entry.asked)));
    lemma_accepted_plan_is_within_budget(
        &sel.candidates@[i],
        ask.n_heads_q,
        ask.n_kv_heads,
        caches,
        ask.budget,
        shown,
        ask.target_len,
        usize::MAX,
        MAX_BUDGET_PROBES as nat,
        entry.layers@,
        entry.asked,
    );
    assert(a.pool.sets@[w]@ == spec_sets(entry.layers@, caches[0]@.shape.kv_heads));
}

impl<S: KVMutationStage> Selector<S> {
    /// A selector over a pool; an empty pool is refused.
    pub fn new(
        candidates: Vec<Candidate<S>>,
        basis_layers: usize,
        basis_width: usize,
        n_heads_q: usize,
    ) -> (r: Result<Self, String>)
        ensures
            match r {
                Ok(sel) => candidates@.len() > 0 && sel == (Selector {
                    candidates,
                    basis_layers,
                    basis_width,
                    n_heads_q,
                    metric_rows: usize::MAX,
                }),
                Err(m) => candidates@.len() == 0 && m@
                    == "the candidate pool is empty — there is nothing to choose between"@,
            },
    {
        if candidates.len() == 0 {
            return Err(
                "the candidate pool is empty — there is nothing to choose between".to_owned(),
            );
        }
        Ok(Selector { candidates, basis_layers, basis_width, n_heads_q, metric_rows: usize::MAX })
    }

    /// The selector, measuring at most so many rows, and at least one.
    pub fn with_metric_rows(self, rows: usize) -> (r: Self)
        ensures
            r == (Selector {
                metric_rows: if rows == 0 {
                    1
                } else {
                    rows
                },
                ..self
            }),
    {
        Selector {
            candidates: self.candidates,
            basis_layers: self.basis_layers,
            basis_width: self.basis_width,
            n_heads_q: self.n_heads_q,
            metric_rows: if rows == 0 {
                1
            } else {
                rows
            },
        }
    }

    /// The candidates' names, in the order in which ties are broken.
    pub fn names(&self) -> (names: Vec<&str>)
        ensures
            names@.len() == self.candidates@.len(),
            forall|i: int|
                0 <= i < names@.len() ==> (#[trigger] names@[i])@ == self.candidates@[i].name@,
    {
        let mut names: Vec<&str> = Vec::new();
        let mut i: usize = 0;
        while i < self.candidates.len()
            invariant
                i <= self.candidates@.len(),
                names@.len() == i,
                forall|k: int|
                    0 <= k < i ==> (#[trigger] names@[k])@ == self.candidates@[k].name@,
            decreases self.candidates@.len() - i,
        {
            names.push(self.candidates[i].name.as_str());
            i = i + 1;
        }
        names
    }

    fn reads_window(&self) -> (r: bool)
        ensures
            r == any_reads_window(self.candidates@),
    {
        let mut i: usize = 0;
        while i < self.candidates.len()
            invariant
                i <= self.candidates@.len(),
                forall|k: int|
                    0 <= k < i ==> !(#[trigger] self.candidates@[k]).spec_reads_window(),
            decreases self.candidates@.len() - i,
        {
            if self.candidates[i].reads_prefill_attn() {
                assert(self.candidates@[i as int].spec_reads_window());
                return true;
            }
            i = i + 1;
        }
        false
    }

    /// Why nothing is even asked, if so.
    fn not_ready(&self, caches: &Vec<KVCache>, capture: &QRowCapture) -> (r: Option<
        Result<NoChoice, SelectError>,
    >)
        ensures
            r == unready(*self, caches@, *capture),
    {
        assert(caches@.len() == caches.len());
        if caches.len() == 0 {
            return Some(Err(SelectError::NoLayers));
        }
        if self.basis_layers != caches.len() {
            return Some(
                Err(
                    SelectError::BasisLayers { basis: self.basis_layers, layers: caches.len() },
                ),
            );
        }
        match self.n_heads_q.checked_mul(caches[0].head_dim()) {
            Some(width) if width == self.basis_width => {},
            _ => {
                return Some(Err(SelectError::BasisWidth { basis: self.basis_width }));
            },
        }
        let resident: usize = caches[0].current_pos();
        if capture.rows == 0 || resident <= capture.rows {
            return Some(Ok(NoChoice::TooShort { resident, rows: capture.rows }));
        }
        if !capture.covers(resident) {
            return Some(Ok(NoChoice::StaleRows { resident }));
        }
        None
    }

    /// Asks every candidate for a share of the cache, and picks the one that deviates least. The
    /// layers stay as they are.
    fn pick<C: RowCodec, R: RatioMath, M: Metric, K: Clock>(
        &self,
        with: &Workshop<C, R, M>,
        clock: &K,
        caches: &mut Vec<KVCache>,
        capture: &QRowCapture,
        ratio: u32,
        signals: &Signals,
        latch: &mut DeviceLatch,
    ) -> (r: Result<Result<Picked, NoChoice>, SelectError>)
        requires
            all_wf(old(caches)@),
            with.wf(),
            unready(*self, old(caches)@, *capture) is None,
        ensures
            final(caches)@ == old(caches)@,
            chosen(
                *self,
                *with,
                old(caches)@,
                *capture,
                ratio,
                *signals,
                *old(latch),
                *final(latch),
                r,
            ),
            r matches Ok(Ok(p)) ==> {
                &&& p.decision.winner < p.pool.entries@.len()
                &&& p.decision.scores@.len() == p.pool.entries@.len()
                &&& p.pool.sets@.len() == p.pool.entries@.len()
                &&& winning(p).len() == old(caches)@.len()
                &&& timed(clock, p.times, any_reads_window(self.candidates@))
                &&& forall|j: int|
                    0 <= j < p.pool.entries@.len() ==> spent(
                        clock,
                        (#[trigger] p.pool.entries@[j]).plan_time,
                    )
            },
    {
        let ghost before = caches@;
        let n_layers: usize = caches.len();
        let n_kv_heads: usize = caches[0].kv_heads();
        let head_dim: usize = caches[0].head_dim();
        let current_pos: usize = caches[0].current_pos();
        let share: usize = with.math.portion(ratio, current_pos);
        assert(call_ensures(R::portion, (with.math, ratio, current_pos), share));
        let target_len: usize = if share == 0 {
            1
        } else {
            share
        };
        assert(target_of(with.math, ratio, current_pos, target_len));
        let budget: usize = match n_layers.checked_mul(n_kv_heads) {
            Some(cells) => match target_len.checked_mul(cells) {
                Some(n) => n,
                None => usize::MAX,
            },
            None => usize::MAX,
        };
        proof {
            let cells = n_layers * n_kv_heads;
            assert(cells > usize::MAX ==> target_len * cells > usize::MAX) by (nonlinear_arith)
                requires
                    target_len >= 1,
            ;
        }
        let rows: usize = measured(capture.rows, self.metric_rows);
        let g = Geom {
            n_layers,
            n_heads_q: self.n_heads_q,
            n_kv_heads,
            head_dim,
            current_pos,
            rows,
        };
        assert(g == metric_geom(*self, before, *capture));
        let t_read: u64 = clock.now();
        assert(call_ensures(K::now, (clock,), t_read));
        let mut src = match HostLayers::read(caches, with.mirrors, capture, &g, with.codec) {
            Ok(src) => src,
            Err(fault) => {
                return Err(SelectError::Read(fault));
            },
        };
        let read_time: u64 = elapsed(clock, t_read);
        let mut window_time: u64 = 0;
        let ghost read = src;
        let window: Option<Vec<Vec<u32>>>;
        let ghost mut pass: Option<WindowPass> = None;
        if self.reads_window() {
            let gw = Geom {
                n_layers,
                n_heads_q: self.n_heads_q,
                n_kv_heads,
                head_dim,
                current_pos,
                rows: capture.rows,
            };
            assert(gw == geom(*self, before, capture.rows));
            let t_window: u64 = clock.now();
            assert(call_ensures(K::now, (clock,), t_window));
            let answer = window_attention_layers(with.metric, caches, &src, &gw, latch);
            match answer {
                Ok(w) => {
                    proof {
                        pass = Some(w);
                    }
                    src.accept_logits(w.logits, &g);
                    window = Some(w.scores);
                    window_time = elapsed(clock, t_window);
                },
                Err(e) => {
                    assert(window_failed(
                        *self,
                        *with,
                        before,
                        *capture,
                        *old(latch),
                        *latch,
                        e,
                    ));
                    return Err(SelectError::Metric(e));
                },
            }
        } else {
            window = None;
        }
        let shown = Signals {
            importance: signals.importance,
            head_scores: signals.head_scores,
            last_attn: signals.last_attn,
            prefill_attn: match &window {
                Some(scores) => Some(scores),
                None => None,
            },
        };
        assert(shown == plan_signals(*signals, &pass));
        let ask = Asking {
            n_heads_q: self.n_heads_q,
            n_kv_heads,
            target_len,
            budget,
            frame: current_pos,
        };
        assert(ask == asking(*self, before, target_len));
        let t_plan: u64 = clock.now();
        assert(call_ensures(K::now, (clock,), t_plan));
        let pool = plan_pool(clock, &self.candidates, caches, &ask, &shown);
        let plan_time: u64 = elapsed(clock, t_plan);
        let ghost outcomes = choose|outcomes: Seq<Result<(Seq<KeepSpec>, usize), Exclusion>>|
            outcomes.len() == self.candidates@.len() && #[trigger] outcomes_of(
                self.candidates@,
                before,
                ask,
                shown,
                outcomes,
            ) && pool_of(self.candidates@, n_kv_heads, outcomes, pool);
        let ghost a = Account { target_len, src: read, window: pass, outcomes, pool };
        assert(asked(*self, *with, before, *capture, ratio, *signals, *old(latch), *latch, a));
        if pool.entries.len() == 0 {
            return Ok(Err(NoChoice::AllExcluded(pool.excluded)));
        }
        assert(src == measured_src(a, g));
        let t_decide: u64 = clock.now();
        assert(call_ensures(K::now, (clock,), t_decide));
        match decide(with.metric, &src, &pool.sets, &g) {
            Ok(decision) => {
                let times = ChoiceTimes {
                    read: read_time,
                    window: window_time,
                    plan: plan_time,
                    decide: elapsed(clock, t_decide),
                    apply: 0,
                    carry: 0,
                };
                let p = Picked { pool, decision, target_len, budget_total: budget, times };
                assert(picked(*self, *with, before, *capture, a, p));
                Ok(Ok(p))
            },
            Err(e) => Err(SelectError::Metric(e)),
        }
    }

    /// Asks every candidate for a share of the cache, picks the one that deviates least, and applies
    /// what it planned. Where no choice is made, nothing changes but what is known of devices.
    pub fn choose_and_apply<C: RowCodec, R: RatioMath, M: Metric, K: Clock>(
        &self,
        with: &Workshop<C, R, M>,
        clock: &K,
        caches: &mut Vec<KVCache>,
        ratio: u32,
        capture: &mut QRowCapture,
        signals: &Signals,
        latch: &mut DeviceLatch,
        recorder: &mut KeepsetDump,
    ) -> (r: Result<Result<Choice, NoChoice>, SelectError>)
        requires
            all_wf(old(caches)@),
            with.wf(),
            old(recorder).wf(),
        ensures
            all_wf(final(caches)@),
            final(recorder).wf(),
            ({
                let before = Selection {
                    caches: old(caches)@,
                    capture: *old(capture),
                    latch: *old(latch),
                    recorder: old(recorder)@,
                };
                let after = Selection {
                    caches: final(caches)@,
                    capture: *final(capture),
                    latch: *final(latch),
                    recorder: final(recorder)@,
                };
                match unready(*self, old(caches)@, *old(capture)) {
                    Some(Err(e)) => r == Err::<Result<Choice, NoChoice>, SelectError>(e) && after
                        == before,
                    Some(Ok(why)) => r == Ok::<Result<Choice, NoChoice>, SelectError>(Err(why))
                        && after == before,
                    None => selected(*self, *with, ratio, *signals, before, after, r),
                }
            }),
            r matches Ok(Ok(choice)) ==> {
                &&& timed(clock, choice.times, any_reads_window(self.candidates@))
                &&& spent(clock, choice.times.apply)
                &&& spent(clock, choice.times.carry)
                &&& forall|j: int|
                    0 <= j < choice.arms@.len() ==> spent(
                        clock,
                        (#[trigger] choice.arms@[j]).plan_time,
                    )
            },
    {
        match self.not_ready(caches, capture) {
            Some(Err(e)) => {
                return Err(e);
            },
            Some(Ok(why)) => {
                return Ok(Err(why));
            },
            None => {},
        }
        let ghost start = Selection {
            caches: caches@,
            capture: *capture,
            latch: *latch,
            recorder: recorder@,
        };
        let ghost before = caches@;
        let answer = self.pick(with, clock, caches, capture, ratio, signals, latch);
        let p = match answer {
            Ok(Ok(p)) => p,
            Ok(Err(why)) => {
                return Ok(Err(why));
            },
            Err(e) => {
                return Err(e);
            },
        };
        assert(chosen(
            *self,
            *with,
            before,
            *capture,
            ratio,
            *signals,
            *old(latch),
            *latch,
            Ok(Ok(p)),
        ));
        let ghost decision = p;
        let n_kv_heads: usize = caches[0].kv_heads();
        let current_pos: usize = caches[0].current_pos();
        let tokens_before: usize = layer_mean_resident(caches);
        let winner: usize = p.decision.winner;
        let mut arms: Vec<Arm> = Vec::new();
        let mut j: usize = 0;
        while j < p.pool.entries.len()
            invariant
                j <= p.pool.entries@.len(),
                p.decision.scores@.len() == p.pool.entries@.len(),
                p.pool.sets@.len() == p.pool.entries@.len(),
                arms@.len() == j,
                forall|k: int| 0 <= k < j ==> arm_of(p, k, #[trigger] arms@[k]),
                forall|k: int|
                    0 <= k < p.pool.entries@.len() ==> spent(
                        clock,
                        (#[trigger] p.pool.entries@[k]).plan_time,
                    ),
                forall|k: int| 0 <= k < j ==> spent(clock, (#[trigger] arms@[k]).plan_time),
            decreases p.pool.entries@.len() - j,
        {
            let ghost earlier = arms@;
            arms.push(
                Arm {
                    name: p.pool.entries[j].name.clone(),
                    score: p.decision.scores[j],
                    kept_total: p.pool.sets[j].total(),
                    asked: p.pool.entries[j].asked,
                    plan_time: p.pool.entries[j].plan_time,
                },
            );
            assert(forall|k: int| 0 <= k < j ==> #[trigger] arms@[k] == earlier[k]);
            j = j + 1;
        }
        let t_apply: u64 = clock.now();
        assert(call_ensures(K::now, (clock,), t_apply));
        let cursor = shared_cursor(&p.pool.entries[winner].layers, caches);
        match apply_layers(caches, &p.pool.entries[winner].layers, cursor, with.codec, recorder) {
            Ok(()) => {},
            Err((layer, error)) => {
                let fault = SelectError::Apply { layer, error };
                proof {
                    let end = Selection {
                        caches: caches@,
                        capture: *capture,
                        latch: *latch,
                        recorder: recorder@,
                    };
                    assert(stranded(
                        *self,
                        *with,
                        ratio,
                        *signals,
                        start,
                        end,
                        decision,
                        fault->layer,
                        fault->error,
                    ));
                }
                return Err(fault);
            },
        }
        let apply: u64 = elapsed(clock, t_apply);
        let t_carry: u64 = clock.now();
        assert(call_ensures(K::now, (clock,), t_carry));
        let tokens_after: usize = layer_mean_resident(caches);
        let cursor_after: usize = caches[0].current_pos();
        if cursor_after < current_pos {
            capture.renumbered_to(cursor_after);
        }
        let prefill_attn: Option<Vec<Vec<u32>>> = match signals.prefill_attn {
            Some(held) if cursor_after < current_pos => carry(
                held,
                &p.pool.entries[winner].layers,
                self.n_heads_q,
                n_kv_heads,
                cursor_after,
            ),
            _ => None,
        };
        let carry: u64 = elapsed(clock, t_carry);
        let times = ChoiceTimes {
            read: p.times.read,
            window: p.times.window,
            plan: p.times.plan,
            decide: p.times.decide,
            apply,
            carry,
        };
        let name: String = p.pool.entries[winner].name.clone();
        let choice = Choice {
            winner: name,
            arms,
            excluded: p.pool.excluded,
            tokens_before,
            tokens_after,
            budget_total: p.budget_total,
            target_len: p.target_len,
            folded: p.decision.folded,
            attend_n: p.decision.attend_n,
            times,
            prefill_attn,
        };
        proof {
            let end = Selection {
                caches: caches@,
                capture: *capture,
                latch: *latch,
                recorder: recorder@,
            };
            assert(landed(*self, *with, ratio, *signals, start, end, decision, choice));
        }
        Ok(Ok(choice))
    }
}

/// What was measured is what lands, head by head. The set that the winner was scored by for a head is
/// the list that its plan has for that head; after the choice the head holds exactly the rows of that
/// list, in order, up to the cursor.
pub proof fn lemma_what_was_scored_lands<
    S: KVMutationStage,
    C: RowCodec,
    R: RatioMath,
    M: Metric,
>(
    sel: Selector<S>,
    with: Workshop<C, R, M>,
    ratio: u32,
    signals: Signals,
    before: Selection,
    after: Selection,
    p: Picked,
    choice: Choice,
    l: int,
    h: int,
    i: int,
)
    requires
        all_wf(before.caches),
        0 < before.caches.len() <= usize::MAX,
        landed(sel, with, ratio, signals, before, after, p, choice),
        0 <= l < before.caches.len(),
        0 <= h < before.caches[0]@.shape.kv_heads,
        h < before.caches[l]@.shape.kv_heads,
        0 <= i,
    ensures
        ({
            let n = before.caches[0]@.shape.kv_heads;
            let w = p.decision.winner as int;
            let scored = p.pool.sets@[w]@.cells[l * n + h];
            let list = match p.pool.entries@[w].layers@[l] {
                KeepSpec::LayerWide(list) => list@,
                KeepSpec::PerHead(heads) => heads@[h]@,
            };
            let (b, a) = (before.caches[l]@, after.caches[l]@);
            &&& w < p.pool.entries@.len()
            &&& choice.winner@ == p.pool.entries@[w].name@
            &&& scored == list
            &&& a.current_pos - a.starts[h] == list.len()
            &&& a.current_pos <= b.current_pos
            &&& i < list.len() ==> {
                &&& list[i] < b.current_pos
                &&& a.keys[h][a.starts[h] + i] == b.keys[h][list[i] as int]
                &&& a.values[h][a.starts[h] + i] == b.values[h][list[i] as int]
            }
        }),
{
    let caches = before.caches;
    let w = p.decision.winner as int;
    let n = caches[0]@.shape.kv_heads;
    lemma_choice_is_within_budget(
        sel,
        with,
        caches,
        before.capture,
        ratio,
        signals,
        before.latch,
        after.latch,
        p,
    );
    lemma_entries_have_every_layer(
        sel,
        with,
        caches,
        before.capture,
        ratio,
        signals,
        before.latch,
        after.latch,
        p,
        w,
    );
    let layers = winning(p);
    crate::selector_plan::lemma_set_of_a_head(layers, n, l, h);
    let cursor = spec_shared_cursor(layers, caches);
    let c = caches[l]@;
    assert(caches[l].wf());
    caches[l].lemma_wf();
    assert(after.caches[l]@ == crate::selector_apply::applied(c, layers[l], cursor));
    assert(c.plane(crate::kv_cache::Side::Key)[h].len() == c.shape.capacity);
    assert(c.plane(crate::kv_cache::Side::Value)[h].len() == c.shape.capacity);
    match layers[l] {
        KeepSpec::LayerWide(list) => {
            crate::cache_handle::lemma_ascending_fits(list@, c.current_pos as int);
        },
        KeepSpec::PerHead(heads) => {
            let lists = heads.deep_view();
            assert(lists[h] == heads@[h]@);
            assert(crate::compaction::keep_ok(lists[h], c.current_pos as int));
            crate::cache_handle::lemma_ascending_fits(lists[h], c.current_pos as int);
            crate::cache_handle::lemma_longest_bounds(lists);
            let x = choose|x: int|
                0 <= x < lists.len() && (#[trigger] lists[x]).len() == crate::cache_handle::longest(
                    lists,
                );
            assert(crate::compaction::keep_ok(lists[x], c.current_pos as int));
            crate::cache_handle::lemma_ascending_fits(lists[x], c.current_pos as int);
        },
    }
}

/// A candidate that was compared has a keep for every layer, and was scored by the sets of its own.
proof fn lemma_entries_have_every_layer<
    S: KVMutationStage,
    C: RowCodec,
    R: RatioMath,
    M: Metric,
>(
    sel: Selector<S>,
    with: Workshop<C, R, M>,
    caches: Seq<KVCache>,
    capture: QRowCapture,
    ratio: u32,
    signals: Signals,
    before: DeviceLatch,
    after: DeviceLatch,
    p: Picked,
    j: int,
)
    requires
        chosen(sel, with, caches, capture, ratio, signals, before, after, Ok(Ok(p))),
        caches.len() > 0,
        0 <= j < p.pool.entries@.len() || j == p.decision.winner,
    ensures
        j < p.pool.entries@.len(),
        p.pool.entries@[j].layers@.len() == caches.len(),
        p.pool.sets@[j]@ == spec_sets(p.pool.entries@[j].layers@, caches[0]@.shape.kv_heads),
        retained(p.pool.entries@[j].layers@, caches[0]@.shape.kv_heads) <= p.budget_total,
        p.pool.entries@[j].asked <= p.target_len,
{
    let a = choose|a: Account|
        {
            &&& #[trigger] asked(sel, with, caches, capture, ratio, signals, before, after, a)
            &&& picked(sel, with, caches, capture, a, p)
        };
    let entry = a.pool.entries@[j];
    assert(entry_of(sel.candidates@, a.outcomes, eligible(a.outcomes)[j], entry));
    lemma_eligible(a.outcomes);
    let i = eligible(a.outcomes)[j];
    let ask = asking(sel, caches, a.target_len);
    let shown = plan_signals(signals, &a.window);
    assert(outcome(&sel.candidates@[i], caches, ask, shown, a.outcomes[i]));
    let plan = choose|plan: Result<(Seq<KeepSpec>, usize), Exclusion>|
        #[trigger] calibrated(
            &sel.candidates@[i],
            ask.n_heads_q,
            ask.n_kv_heads,
            caches,
            ask.budget,
            shown,
            ask.target_len,
            usize::MAX,
            MAX_BUDGET_PROBES as nat,
            plan,
        ) && match plan {
            Err(e) => a.outcomes[i] == plan,
            Ok((layers, asked)) => if spec_sets(layers, ask.n_kv_heads).valid(ask.frame) {
                a.outcomes[i] == plan
            } else {
                a.outcomes[i] matches Err(Exclusion::Invalid(e)) && spec_sets(
                    layers,
                    ask.n_kv_heads,
                ).has_fault(ask.frame, e)
            },
        };
    assert(plan == Ok::<(Seq<KeepSpec>, usize), Exclusion>((entry.layers@, entry.asked)));
    lemma_accepted_plan_is_within_budget(
        &sel.candidates@[i],
        ask.n_heads_q,
        ask.n_kv_heads,
        caches,
        ask.budget,
        shown,
        ask.target_len,
        usize::MAX,
        MAX_BUDGET_PROBES as nat,
        entry.layers@,
        entry.asked,
    );
    assert(a.pool.sets@[j]@ == spec_sets(entry.layers@, caches[0]@.shape.kv_heads));
}

/// What a choice reports of a candidate: how many positions its plan retains over all layers and heads,
/// which is no more than the budget; its own score; and what it was finally asked for, at most the
/// target. The budget is the target for every head of every layer, and the target is the share of the
/// cache that was asked for, or one token.
pub proof fn lemma_a_choice_reports_what_each_candidate_keeps<
    S: KVMutationStage,
    C: RowCodec,
    R: RatioMath,
    M: Metric,
>(
    sel: Selector<S>,
    with: Workshop<C, R, M>,
    ratio: u32,
    signals: Signals,
    before: Selection,
    after: Selection,
    p: Picked,
    choice: Choice,
    j: int,
)
    requires
        0 < before.caches.len() <= usize::MAX,
        landed(sel, with, ratio, signals, before, after, p, choice),
        0 <= j < choice.arms@.len(),
    ensures
        ({
            let n = before.caches[0]@.shape.kv_heads as nat;
            let sum = crate::selector_plan::kept_over_layers(p.pool.entries@[j].layers@, n);
            let arm = choice.arms@[j];
            &&& p.pool.entries@[j].layers@.len() == before.caches.len()
            &&& arm.name@ == p.pool.entries@[j].name@
            &&& arm.kept_total <= choice.budget_total
            &&& sum <= usize::MAX ==> arm.kept_total == sum
            &&& arm.asked <= choice.target_len
            &&& exists|k: int|
                {
                    &&& 0 <= k <= j
                    &&& p.pool.sets@[k]@ == p.pool.sets@[j]@
                    &&& exists|src: HostLayers, g: Geom| #[trigger]
                        call_ensures(
                            M::score,
                            (with.metric, &src, &#[trigger] p.pool.sets@[k], &g),
                            Ok(arm.score),
                        )
                }
            &&& spec_order(p.decision.scores@[p.decision.winner as int]) <= spec_order(arm.score)
            &&& choice.budget_total == choice.target_len * (before.caches.len() * n)
                || choice.budget_total == usize::MAX
            &&& choice.budget_total <= choice.target_len * (before.caches.len() * n)
            &&& choice.target_len > 0
            &&& exists|share: usize| #[trigger]
                call_ensures(
                    R::portion,
                    (with.math, ratio, before.caches[0]@.current_pos),
                    share,
                ) && choice.target_len == (if share > 0 {
                    share
                } else {
                    1
                })
        }),
{
    let caches = before.caches;
    lemma_entries_have_every_layer(
        sel,
        with,
        caches,
        before.capture,
        ratio,
        signals,
        before.latch,
        after.latch,
        p,
        j,
    );
    assert(arm_of(p, j, choice.arms@[j]));
    crate::selector_plan::lemma_retained_is_the_sum_over_heads(
        p.pool.entries@[j].layers@,
        caches[0]@.shape.kv_heads,
    );
    let a = choose|a: Account|
        {
            &&& #[trigger] asked(
                sel,
                with,
                caches,
                before.capture,
                ratio,
                signals,
                before.latch,
                after.latch,
                a,
            )
            &&& picked(sel, with, caches, before.capture, a, p)
        };
    let g = metric_geom(sel, caches, before.capture);
    crate::selector_decide::lemma_scores_are_the_metrics(
        with.metric,
        measured_src(a, g),
        g,
        a.pool.sets@,
        p.decision,
        j,
    );
}

/// When a choice is not even tried: with no layers; where the metric's basis is of other layers or
/// another width; while no query rows were captured, or as many as there are tokens; and where the
/// captured rows are not the cache's last.
pub proof fn lemma_when_a_choice_is_not_tried<S>(
    sel: Selector<S>,
    caches: Seq<KVCache>,
    capture: QRowCapture,
)
    requires
        caches.len() > 0,
    ensures
        unready(sel, caches, capture) is None <==> {
            &&& sel.basis_layers == caches.len()
            &&& sel.basis_width == sel.n_heads_q * caches[0]@.shape.head_dim
            &&& 0 < capture.rows < caches[0]@.current_pos
            &&& capture.spec_covers(caches[0]@.current_pos)
        },
        sel.basis_layers == caches.len() && sel.basis_width == sel.n_heads_q
            * caches[0]@.shape.head_dim ==> (unready(sel, caches, capture) matches Some(why)
            ==> why is Ok),
        sel.basis_layers != caches.len() ==> unready(sel, caches, capture) matches Some(Err(_)),
{
}

/// The budget of a choice is the target for every head of every layer, and the machine's maximum where
/// that cannot be counted.
pub proof fn lemma_budget_is_the_target_for_every_head(target: usize, n_layers: nat, n_kv_heads: usize)
    ensures
        target * (n_layers * n_kv_heads) <= usize::MAX ==> budget_of(target, n_layers, n_kv_heads)
            == target * (n_layers * n_kv_heads),
        target * (n_layers * n_kv_heads) > usize::MAX ==> budget_of(target, n_layers, n_kv_heads)
            == usize::MAX,
{
}

/// The observation window is read for a pool exactly when some candidate of it says that it reads prefill
/// attention.
pub proof fn lemma_when_a_pool_reads_the_window<S: KVMutationStage>(candidates: Seq<Candidate<S>>, i: int, k: int)
    ensures
        0 <= i < candidates.len() && 0 <= k < candidates[i].caps.reads@.len()
            && candidates[i].caps.reads@[k] == TensorKind::PrefillAttention ==> any_reads_window(
            candidates,
        ),
        any_reads_window(candidates) ==> exists|c: int, r: int|
            0 <= c < candidates.len() && 0 <= r < candidates[c].caps.reads@.len()
                && #[trigger] candidates[c].caps.reads@[r] == TensorKind::PrefillAttention,
{
    if 0 <= i < candidates.len() && 0 <= k < candidates[i].caps.reads@.len()
        && candidates[i].caps.reads@[k] == TensorKind::PrefillAttention {
        assert(candidates[i].spec_reads_window());
    }
    if any_reads_window(candidates) {
        let c = choose|c: int|
            0 <= c < candidates.len() && (#[trigger] candidates[c]).spec_reads_window();
        let r = choose|r: int|
            0 <= r < candidates[c].caps.reads@.len() && candidates[c].caps.reads@[r]
                == TensorKind::PrefillAttention;
        assert(candidates[c].caps.reads@[r] == TensorKind::PrefillAttention);
    }
}

/// How the reasons grow by a candidate: its name, a colon and its reason, behind a semicolon where it is
/// not the first.
pub proof fn lemma_reasons_of_one_more(list: Seq<(String, Exclusion)>, more: (String, Exclusion))
    ensures
        reasons(Seq::empty()) == Seq::<char>::empty(),
        list.len() == 0 ==> reasons(list.push(more)) == more.0@ + ": "@ + more.1.words(),
        list.len() > 0 ==> reasons(list.push(more)) == reasons(list) + "; "@ + (more.0@ + ": "@
            + more.1.words()),
{
    assert(list.push(more).drop_last() =~= list);
}

} // verus!
