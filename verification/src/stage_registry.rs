//! Eviction stages: what a stage is told of a layer, stages as policies, and the registry that
//! knows them by name.

use crate::descriptor::TensorKind;
use crate::eviction::{EvictError, EvictionPolicy, StagePlan};
use crate::kv_cache::KVCache;
use vstd::prelude::*;

verus! {

/// What a stage declares of itself.
pub struct StageCaps {
    /// Signals it reads; a stage that reads any is fed with scores.
    pub reads: Vec<TensorKind>,
    /// How many leading tokens it protects unless told otherwise.
    pub default_protected_prefix: usize,
    /// Whether its plans may merge tokens.
    pub produces_merge_plan: bool,
    /// Whether it decides over all layers at once.
    pub whole_model: bool,
}

impl StageCaps {
    /// A stage that reads nothing, protects nothing and merges nothing.
    pub fn score_free() -> (r: StageCaps)
        ensures
            r.reads@.len() == 0,
            r.default_protected_prefix == 0,
            !r.produces_merge_plan,
            !r.whole_model,
    {
        StageCaps {
            reads: Vec::new(),
            default_protected_prefix: 0,
            produces_merge_plan: false,
            whole_model: false,
        }
    }

    /// Whether the stage reads a signal.
    pub fn reads_kind(&self, kind: TensorKind) -> (r: bool)
        ensures
            r == self.reads@.contains(kind),
    {
        let mut i: usize = 0;
        while i < self.reads.len()
            invariant
                i <= self.reads@.len(),
                forall|k: int| 0 <= k < i ==> self.reads@[k] != kind,
            decreases self.reads@.len() - i,
        {
            if self.reads[i] == kind {
                assert(self.reads@[i as int] == kind);
                return true;
            }
            i = i + 1;
        }
        false
    }

    /// The stage is given the layer's rows.
    pub open spec fn reads_rows(self) -> bool {
        self.reads@.contains(TensorKind::Key) || self.reads@.contains(TensorKind::Value)
    }
}

/// Why a store that cannot merge has no use for a merging stage.
pub open spec fn merge_constraint() -> Seq<char> {
    "stage produces weighted merges but the cache is device-resident (the merge executor is CPU-only); degrade to a keep-only plan or place KV on host"@
}

/// Checks that a store can carry out what a stage may plan: merges need a store that can merge.
pub fn validate_stage_constraints(caps: &StageCaps, supports_merge: bool) -> (r: Result<(), String>)
    ensures
        r is Err <==> caps.produces_merge_plan && !supports_merge,
        r matches Err(m) ==> m@ == merge_constraint(),
{
    if caps.produces_merge_plan && !supports_merge {
        return Err(
            "stage produces weighted merges but the cache is device-resident (the merge executor is CPU-only); degrade to a keep-only plan or place KV on host".to_owned(),
        );
    }
    Ok(())
}

/// What a stage is told of one layer.
pub struct StageCtx<'a> {
    pub layer_idx: usize,
    pub n_layers: usize,
    pub current_pos: usize,
    pub target_len: usize,
    pub n_kv_heads: usize,
    pub head_dim: usize,
    pub kv_on_device: bool,
    /// Score of each position.
    pub importance: Option<&'a Vec<u32>>,
    /// Score of each head's positions.
    pub head_scores: Option<&'a Vec<u32>>,
    /// The last layer's attention in the last step.
    pub last_attn: Option<&'a Vec<u32>>,
    /// The layer's rows, for a stage that reads them.
    pub rows: Option<&'a KVCache>,
    /// How much the observation window attended to each position, for a stage that ranks by it.
    pub window: Option<WindowScores<'a>>,
    /// Leading tokens to protect, for a stage that ranks by the observation window.
    pub protected_prefix: usize,
}

/// How much an observation window of queries attended to each position: one row of `width` scores
/// per query head.
#[derive(Clone, Copy)]
pub struct WindowScores<'a> {
    pub scores: &'a Vec<u32>,
    pub n_heads_q: usize,
    pub width: usize,
}

/// What a stage with these capabilities is told of a layer.
pub open spec fn spec_ctx<'a>(
    caps: &StageCaps,
    cache: &'a KVCache,
    layer_idx: usize,
    n_layers: usize,
    target_len: usize,
    importance: Option<&'a Vec<u32>>,
    head_scores: Option<&'a Vec<u32>>,
    last_attn: Option<&'a Vec<u32>>,
) -> StageCtx<'a> {
    StageCtx {
        layer_idx,
        n_layers,
        current_pos: cache@.current_pos,
        target_len,
        n_kv_heads: cache@.shape.kv_heads,
        head_dim: cache@.shape.head_dim,
        kv_on_device: cache@.shape.on_device,
        importance,
        head_scores,
        last_attn,
        rows: if caps.reads_rows() {
            Some(cache)
        } else {
            None
        },
        window: None,
        protected_prefix: 0,
    }
}

/// What a stage that ranks by the observation window is told of a layer.
pub open spec fn spec_window_ctx<'a>(
    caps: &StageCaps,
    cache: &'a KVCache,
    layer_idx: usize,
    n_layers: usize,
    target_len: usize,
    window: WindowScores<'a>,
    protected_prefix: usize,
) -> StageCtx<'a> {
    StageCtx {
        window: Some(window),
        protected_prefix,
        ..spec_ctx(caps, cache, layer_idx, n_layers, target_len, None, None, None)
    }
}

impl<'a> StageCtx<'a> {
    /// What a stage with these capabilities is told of a layer.
    pub fn of(
        caps: &StageCaps,
        cache: &'a KVCache,
        layer_idx: usize,
        n_layers: usize,
        target_len: usize,
        importance: Option<&'a Vec<u32>>,
        head_scores: Option<&'a Vec<u32>>,
        last_attn: Option<&'a Vec<u32>>,
    ) -> (ctx: StageCtx<'a>)
        ensures
            ctx == spec_ctx(
                caps,
                cache,
                layer_idx,
                n_layers,
                target_len,
                importance,
                head_scores,
                last_attn,
            ),
    {
        let rows: Option<&'a KVCache> = if caps.reads_kind(TensorKind::Key) || caps.reads_kind(
            TensorKind::Value,
        ) {
            Some(cache)
        } else {
            None
        };
        StageCtx {
            layer_idx,
            n_layers,
            current_pos: cache.current_pos(),
            target_len,
            n_kv_heads: cache.kv_heads(),
            head_dim: cache.head_dim(),
            kv_on_device: cache.on_device(),
            importance,
            head_scores,
            last_attn,
            rows,
            window: None,
            protected_prefix: 0,
        }
    }

    /// What a stage that ranks by the observation window is told of a layer.
    pub fn of_window(
        caps: &StageCaps,
        cache: &'a KVCache,
        layer_idx: usize,
        n_layers: usize,
        target_len: usize,
        window: WindowScores<'a>,
        protected_prefix: usize,
    ) -> (ctx: StageCtx<'a>)
        ensures
            ctx == spec_window_ctx(
                caps,
                cache,
                layer_idx,
                n_layers,
                target_len,
                window,
                protected_prefix,
            ),
    {
        let mut ctx = StageCtx::of(caps, cache, layer_idx, n_layers, target_len, None, None, None);
        ctx.window = Some(window);
        ctx.protected_prefix = protected_prefix;
        ctx
    }
}

/// An eviction technique.
pub trait KVMutationStage {
    /// The technique's name.
    fn name(&self) -> String;

    /// Plans for one layer.
    fn plan(&self, ctx: &StageCtx) -> Result<StagePlan, EvictError>;

    /// Plans over all layers at once: one list of positions that every layer keeps, or none.
    fn plan_whole_model(&self, caches: &Vec<KVCache>, target_len: usize, positions: &Vec<usize>) -> (r:
        Result<Option<Vec<usize>>, EvictError>)
        default_ensures
            r == Ok::<Option<Vec<usize>>, EvictError>(None),
    {
        Ok(None)
    }
}

/// A stage as an eviction policy.
pub struct StageBackedPolicy<S> {
    pub stage: S,
    pub caps: StageCaps,
}

impl<S: KVMutationStage> StageBackedPolicy<S> {
    pub fn new(stage: S, caps: StageCaps) -> (r: Self)
        ensures
            r.stage == stage,
            r.caps == caps,
    {
        StageBackedPolicy { stage, caps }
    }

    /// The stage was asked for a plan with this much to go by.
    pub open spec fn asked(
        self,
        cache: &KVCache,
        layer_idx: usize,
        n_layers: usize,
        target_len: usize,
        importance: Option<&Vec<u32>>,
        head_scores: Option<&Vec<u32>>,
        last_attn: Option<&Vec<u32>>,
        r: Result<StagePlan, EvictError>,
    ) -> bool {
        call_ensures(
            S::plan,
            (
                &self.stage,
                &spec_ctx(
                    &self.caps,
                    cache,
                    layer_idx,
                    n_layers,
                    target_len,
                    importance,
                    head_scores,
                    last_attn,
                ),
            ),
            r,
        )
    }

    fn run(
        &self,
        cache: &KVCache,
        layer_idx: usize,
        n_layers: usize,
        target_len: usize,
        importance: Option<&Vec<u32>>,
        head_scores: Option<&Vec<u32>>,
        last_attn: Option<&Vec<u32>>,
    ) -> (r: Result<StagePlan, EvictError>)
        ensures
            self.asked(
                cache,
                layer_idx,
                n_layers,
                target_len,
                importance,
                head_scores,
                last_attn,
                r,
            ),
    {
        let ctx = StageCtx::of(
            &self.caps,
            cache,
            layer_idx,
            n_layers,
            target_len,
            importance,
            head_scores,
            last_attn,
        );
        self.stage.plan(&ctx)
    }
}

impl<S: KVMutationStage> EvictionPolicy for StageBackedPolicy<S> {
    /// When to evict is not the stage's decision.
    fn should_evict(&self, cache: &KVCache, mem_available: usize) -> (r: bool)
        ensures
            r,
    {
        true
    }

    fn evict(&self, cache: &KVCache, target_len: usize) -> (r: Result<StagePlan, EvictError>)
        ensures
            self.asked(cache, 0, 1, target_len, None, None, None, r),
    {
        self.run(cache, 0, 1, target_len, None, None, None)
    }

    fn name(&self) -> (s: String)
        ensures
            call_ensures(S::name, (&self.stage,), s),
    {
        self.stage.name()
    }

    fn evict_with_scores(&self, cache: &KVCache, target_len: usize, importance: &Vec<u32>) -> (r:
        Result<StagePlan, EvictError>)
        ensures
            self.asked(cache, 0, 1, target_len, Some(importance), None, None, r),
    {
        self.run(cache, 0, 1, target_len, Some(importance), None, None)
    }

    fn evict_with_head_scores(
        &self,
        cache: &KVCache,
        target_len: usize,
        flat_importance: &Vec<u32>,
        head_importance: &Vec<u32>,
        n_kv_heads: usize,
        layer_idx: usize,
        n_layers: usize,
    ) -> (r: Result<StagePlan, EvictError>)
        ensures
            self.asked(
                cache,
                layer_idx,
                n_layers,
                target_len,
                Some(flat_importance),
                Some(head_importance),
                None,
                r,
            ),
    {
        self.run(
            cache,
            layer_idx,
            n_layers,
            target_len,
            Some(flat_importance),
            Some(head_importance),
            None,
        )
    }

    fn evict_layer(
        &self,
        cache: &KVCache,
        target_len: usize,
        importance: Option<&Vec<u32>>,
        last_attn: Option<&Vec<u32>>,
        layer_idx: usize,
        n_layers: usize,
    ) -> (r: Result<StagePlan, EvictError>)
        ensures
            self.asked(cache, layer_idx, n_layers, target_len, importance, None, last_attn, r),
    {
        self.run(cache, layer_idx, n_layers, target_len, importance, None, last_attn)
    }

    fn is_whole_model(&self) -> (r: bool)
        ensures
            r == self.caps.whole_model,
    {
        self.caps.whole_model
    }

    fn keep_over_all_layers(
        &self,
        caches: &Vec<KVCache>,
        target_len: usize,
        positions: &Vec<usize>,
    ) -> (r: Result<Option<Vec<usize>>, EvictError>)
        ensures
            call_ensures(
                S::plan_whole_model,
                (&self.stage, caches, target_len, positions),
                r,
            ),
    {
        self.stage.plan_whole_model(caches, target_len, positions)
    }
}

/// The parameters that every stage can be made with.
#[derive(Clone, Copy, Debug, PartialEq, Eq, Structural)]
pub struct StageParams {
    pub eviction_window: usize,
    pub protected_prefix: usize,
    /// The bit pattern of a single-precision number.
    pub keep_ratio: u32,
    pub sink_size: usize,
    pub streaming_window: usize,
}

/// No window, no prefix, no ratio.
pub open spec fn zero_params() -> StageParams {
    StageParams {
        eviction_window: 0,
        protected_prefix: 0,
        keep_ratio: 0,
        sink_size: 0,
        streaming_window: 0,
    }
}

/// A window and a prefix, and nothing else.
pub open spec fn window_params(window: usize, protected_prefix: usize) -> StageParams {
    StageParams { eviction_window: window, protected_prefix, ..zero_params() }
}

/// A stage's own argument.
pub struct PluginArg {
    pub key: String,
    pub val: String,
}

/// A registered stage.
pub struct StageReg {
    pub name: String,
    pub caps: StageCaps,
}

/// A registered quality estimator, and the curve it belongs to.
pub struct EstimatorReg {
    pub name: String,
    pub curve_key: String,
}

/// What has been registered.
pub struct StageRegistry {
    pub stages: Vec<StageReg>,
    pub estimators: Vec<EstimatorReg>,
}

/// Makes stages.
pub trait StageFactory<S> {
    /// Makes the stage of a name.
    fn make(&self, name: &str, params: &StageParams, args: &Vec<PluginArg>) -> S;
}

/// The first stage of a name at or after `from`, or -1.
pub open spec fn stage_index(stages: Seq<StageReg>, name: Seq<char>, from: int) -> int
    decreases stages.len() - from,
{
    if from >= stages.len() || from < 0 {
        -1
    } else if stages[from].name@ == name {
        from
    } else {
        stage_index(stages, name, from + 1)
    }
}

/// The first estimator of a name at or after `from`, or -1.
pub open spec fn estimator_index(list: Seq<EstimatorReg>, name: Seq<char>, from: int) -> int
    decreases list.len() - from,
{
    if from >= list.len() || from < 0 {
        -1
    } else if list[from].name@ == name {
        from
    } else {
        estimator_index(list, name, from + 1)
    }
}

/// The first stage at or after `from` that reads prefill attention, or -1.
pub open spec fn prefill_index(stages: Seq<StageReg>, from: int) -> int
    decreases stages.len() - from,
{
    if from >= stages.len() || from < 0 {
        -1
    } else if stages[from].caps.reads@.contains(TensorKind::PrefillAttention) {
        from
    } else {
        prefill_index(stages, from + 1)
    }
}

fn same_text(a: &String, b: &str) -> (r: bool)
    ensures
        r == (a@ == b@),
{
    let other: String = b.to_owned();
    *a == other
}

impl StageRegistry {
    /// The capabilities of a name, where it is registered.
    pub open spec fn spec_caps(self, name: Seq<char>) -> Option<StageCaps> {
        let i = stage_index(self.stages@, name, 0);
        if i < 0 {
            None
        } else {
            Some(self.stages@[i].caps)
        }
    }

    /// The capabilities of a name, where it is registered.
    pub fn mutation_stage_caps(&self, name: &str) -> (r: Option<&StageCaps>)
        ensures
            r == match self.spec_caps(name@) {
                Some(c) => Some(&c),
                None => None,
            },
    {
        let mut i: usize = 0;
        while i < self.stages.len()
            invariant
                i <= self.stages@.len(),
                stage_index(self.stages@, name@, 0) == stage_index(self.stages@, name@, i as int),
            decreases self.stages@.len() - i,
        {
            if same_text(&self.stages[i].name, name) {
                return Some(&self.stages[i].caps);
            }
            i = i + 1;
        }
        None
    }

    /// Whether the named stage is fed with scores; an unknown one is not.
    pub fn stage_is_score_based(&self, name: &str) -> (r: bool)
        ensures
            r == (self.spec_caps(name@) matches Some(c) && c.reads@.len() > 0),
    {
        match self.mutation_stage_caps(name) {
            Some(caps) => caps.reads.len() > 0,
            None => false,
        }
    }

    /// How many leading tokens the named stage protects unless told otherwise; an unknown one none.
    pub fn stage_default_protected_prefix(&self, name: &str) -> (r: usize)
        ensures
            r == match self.spec_caps(name@) {
                Some(c) => c.default_protected_prefix,
                None => 0,
            },
    {
        match self.mutation_stage_caps(name) {
            Some(caps) => caps.default_protected_prefix,
            None => 0,
        }
    }

    /// Whether the named stage's plans may merge tokens; an unknown one's do not.
    pub fn stage_produces_merge_plan(&self, name: &str) -> (r: bool)
        ensures
            r == (self.spec_caps(name@) matches Some(c) && c.produces_merge_plan),
    {
        match self.mutation_stage_caps(name) {
            Some(caps) => caps.produces_merge_plan,
            None => false,
        }
    }

    /// The name of the first stage that reads prefill attention.
    pub fn find_prefill_attn_stage_name(&self) -> (r: Option<String>)
        ensures
            ({
                let i = prefill_index(self.stages@, 0);
                match r {
                    Some(name) => i >= 0 && name@ == self.stages@[i].name@,
                    None => i < 0,
                }
            }),
    {
        let mut i: usize = 0;
        while i < self.stages.len()
            invariant
                i <= self.stages@.len(),
                prefill_index(self.stages@, 0) == prefill_index(self.stages@, i as int),
            decreases self.stages@.len() - i,
        {
            if self.stages[i].caps.reads_kind(TensorKind::PrefillAttention) {
                return Some(self.stages[i].name.clone());
            }
            i = i + 1;
        }
        None
    }

    /// The position of an estimator's registration.
    fn find_estimator(&self, name: &str) -> (r: Option<usize>)
        ensures
            match r {
                Some(i) => i == estimator_index(self.estimators@, name@, 0) && i
                    < self.estimators@.len(),
                None => estimator_index(self.estimators@, name@, 0) < 0,
            },
    {
        let mut i: usize = 0;
        while i < self.estimators.len()
            invariant
                i <= self.estimators@.len(),
                estimator_index(self.estimators@, name@, 0) == estimator_index(
                    self.estimators@,
                    name@,
                    i as int,
                ),
            decreases self.estimators@.len() - i,
        {
            if same_text(&self.estimators[i].name, name) {
                return Some(i);
            }
            i = i + 1;
        }
        None
    }
}

/// The stages that every build has, with their estimators' curves.
pub open spec fn builtin_stages() -> Seq<(Seq<char>, Seq<char>)> {
    seq![
        ("sliding"@, "kv.evict_sliding"@),
        ("streaming"@, "kv.evict_streaming"@),
        ("h2o"@, "kv.evict_h2o"@),
        ("d2o"@, "kv.merge_d2o"@),
    ]
}

/// What is wrong with a registry.
pub enum RegistryFault {
    /// A stage is not registered.
    StageMissing(String),
    /// A stage's estimator is not registered.
    EstimatorMissing(String),
    /// A stage's estimator belongs to another curve.
    CurveMismatch { name: String, found: String, expected: String },
}

/// A fault as contracts speak of it.
pub enum FaultView {
    StageMissing(Seq<char>),
    EstimatorMissing(Seq<char>),
    CurveMismatch { name: Seq<char>, found: Seq<char>, expected: Seq<char> },
}

impl View for RegistryFault {
    type V = FaultView;

    open spec fn view(&self) -> FaultView {
        match self {
            RegistryFault::StageMissing(name) => FaultView::StageMissing(name@),
            RegistryFault::EstimatorMissing(name) => FaultView::EstimatorMissing(name@),
            RegistryFault::CurveMismatch { name, found, expected } => FaultView::CurveMismatch {
                name: name@,
                found: found@,
                expected: expected@,
            },
        }
    }
}

impl FaultView {
    /// The fault in words.
    pub open spec fn words(self) -> Seq<char> {
        match self {
            FaultView::StageMissing(name) => "built-in KV mutation stage '"@ + name
                + "' not registered — suspect linkme fat-LTO --gc-sections silent drop of its force-linked crate (the #[distributed_slice] registration in the stage crate was not linked; see the `use X as _;` force-links)."@,
            FaultView::EstimatorMissing(name) => "QCF estimator '"@ + name
                + "' not registered — suspect linkme fat-LTO --gc-sections silent drop of its QCF_ESTIMATORS registration."@,
            FaultView::CurveMismatch { name, found, expected } => "QCF estimator '"@ + name
                + "' declares curve_key='"@ + found + "' but the engine expects '"@ + expected + "'."@,
        }
    }
}

impl RegistryFault {
    /// The fault in words.
    pub fn message(&self) -> (m: String)
        ensures
            m@ == self@.words(),
    {
        match self {
            RegistryFault::StageMissing(name) => {
                let mut m: String = "built-in KV mutation stage '".to_owned();
                m.append(name.as_str());
                m.append(
                    "' not registered — suspect linkme fat-LTO --gc-sections silent drop of its force-linked crate (the #[distributed_slice] registration in the stage crate was not linked; see the `use X as _;` force-links).",
                );
                m
            },
            RegistryFault::EstimatorMissing(name) => {
                let mut m: String = "QCF estimator '".to_owned();
                m.append(name.as_str());
                m.append(
                    "' not registered — suspect linkme fat-LTO --gc-sections silent drop of its QCF_ESTIMATORS registration.",
                );
                m
            },
            RegistryFault::CurveMismatch { name, found, expected } => {
                let mut m: String = "QCF estimator '".to_owned();
                m.append(name.as_str());
                m.append("' declares curve_key='");
                m.append(found.as_str());
                m.append("' but the engine expects '");
                m.append(expected.as_str());
                m.append("'.");
                m
            },
        }
    }
}

/// What is wrong with one stage's registration.
pub open spec fn stage_fault(registry: StageRegistry, name: Seq<char>) -> Option<FaultView> {
    if registry.spec_caps(name) is None {
        Some(FaultView::StageMissing(name))
    } else {
        None
    }
}

/// What is wrong with one estimator's registration.
pub open spec fn estimator_fault(
    registry: StageRegistry,
    name: Seq<char>,
    expected: Seq<char>,
) -> Option<FaultView> {
    let i = estimator_index(registry.estimators@, name, 0);
    if i < 0 {
        Some(FaultView::EstimatorMissing(name))
    } else if registry.estimators@[i].curve_key@ != expected {
        Some(
            FaultView::CurveMismatch {
                name,
                found: registry.estimators@[i].curve_key@,
                expected,
            },
        )
    } else {
        None
    }
}

/// The first of two faults.
pub open spec fn first_fault(a: Option<FaultView>, b: Option<FaultView>) -> Option<FaultView> {
    match a {
        Some(f) => Some(f),
        None => b,
    }
}

/// The first fault among the stages from `from` on.
pub open spec fn stages_fault(registry: StageRegistry, from: int) -> Option<FaultView>
    decreases 4 - from,
{
    if from >= 4 || from < 0 {
        None
    } else {
        first_fault(
            stage_fault(registry, builtin_stages()[from].0),
            stages_fault(registry, from + 1),
        )
    }
}

/// The first fault among the estimators from `from` on.
pub open spec fn estimators_fault(registry: StageRegistry, from: int) -> Option<FaultView>
    decreases 4 - from,
{
    if from >= 4 || from < 0 {
        None
    } else {
        first_fault(
            estimator_fault(registry, builtin_stages()[from].0, builtin_stages()[from].1),
            estimators_fault(registry, from + 1),
        )
    }
}

fn builtin_list() -> (list: Vec<(&'static str, &'static str)>)
    ensures
        list@.len() == 4,
        forall|i: int|
            0 <= i < 4 ==> (#[trigger] list@[i]).0@ == builtin_stages()[i].0 && list@[i].1@
                == builtin_stages()[i].1,
{
    vec![
        ("sliding", "kv.evict_sliding"),
        ("streaming", "kv.evict_streaming"),
        ("h2o", "kv.evict_h2o"),
        ("d2o", "kv.merge_d2o"),
    ]
}

impl StageRegistry {
    /// Checks that every built-in stage is registered, and then that each has its estimator with its
    /// curve. The first fault is the error.
    pub fn ensure_builtin_stages_registered(&self) -> (r: Result<(), RegistryFault>)
        ensures
            ({
                let fault = first_fault(stages_fault(*self, 0), estimators_fault(*self, 0));
                match r {
                    Ok(()) => fault is None,
                    Err(f) => fault == Some(f@),
                }
            }),
    {
        let list = builtin_list();
        let mut i: usize = 0;
        while i < list.len()
            invariant
                i <= list@.len(),
                list@.len() == 4,
                forall|k: int|
                    0 <= k < 4 ==> (#[trigger] list@[k]).0@ == builtin_stages()[k].0 && list@[k].1@
                        == builtin_stages()[k].1,
                stages_fault(*self, 0) == stages_fault(*self, i as int),
            decreases list@.len() - i,
        {
            let (name, _) = list[i];
            assert(name@ == list@[i as int].0@);
            if self.mutation_stage_caps(name).is_none() {
                return Err(RegistryFault::StageMissing(name.to_owned()));
            }
            i = i + 1;
        }
        i = 0;
        while i < list.len()
            invariant
                i <= list@.len(),
                list@.len() == 4,
                forall|k: int|
                    0 <= k < 4 ==> (#[trigger] list@[k]).0@ == builtin_stages()[k].0 && list@[k].1@
                        == builtin_stages()[k].1,
                stages_fault(*self, 0) is None,
                estimators_fault(*self, 0) == estimators_fault(*self, i as int),
            decreases list@.len() - i,
        {
            let (name, expected) = list[i];
            assert(name@ == list@[i as int].0@ && expected@ == list@[i as int].1@);
            match self.find_estimator(name) {
                None => {
                    return Err(RegistryFault::EstimatorMissing(name.to_owned()));
                },
                Some(at) => {
                    if !same_text(&self.estimators[at].curve_key, expected) {
                        return Err(
                            RegistryFault::CurveMismatch {
                                name: name.to_owned(),
                                found: self.estimators[at].curve_key.clone(),
                                expected: expected.to_owned(),
                            },
                        );
                    }
                },
            }
            i = i + 1;
        }
        Ok(())
    }
}

fn copied_caps(caps: &StageCaps) -> (r: StageCaps)
    ensures
        r.reads@ == caps.reads@,
        r.default_protected_prefix == caps.default_protected_prefix,
        r.produces_merge_plan == caps.produces_merge_plan,
        r.whole_model == caps.whole_model,
{
    let mut reads: Vec<TensorKind> = Vec::new();
    let mut i: usize = 0;
    while i < caps.reads.len()
        invariant
            i <= caps.reads@.len(),
            reads@ == caps.reads@.take(i as int),
        decreases caps.reads@.len() - i,
    {
        reads.push(caps.reads[i]);
        i = i + 1;
        assert(reads@ =~= caps.reads@.take(i as int));
    }
    assert(caps.reads@.take(i as int) =~= caps.reads@);
    StageCaps {
        reads,
        default_protected_prefix: caps.default_protected_prefix,
        produces_merge_plan: caps.produces_merge_plan,
        whole_model: caps.whole_model,
    }
}

/// The policy is of the named stage, made with these parameters, with the capabilities it is
/// registered with.
pub open spec fn policy_of<S, F: StageFactory<S>>(
    registry: &StageRegistry,
    factory: &F,
    name: &str,
    params: StageParams,
    args: Vec<PluginArg>,
    policy: StageBackedPolicy<S>,
) -> bool {
    &&& registry.spec_caps(name@) matches Some(caps) && {
        &&& policy.caps.reads@ == caps.reads@
        &&& policy.caps.default_protected_prefix == caps.default_protected_prefix
        &&& policy.caps.produces_merge_plan == caps.produces_merge_plan
        &&& policy.caps.whole_model == caps.whole_model
    }
    &&& call_ensures(F::make, (factory, name, &params, &args), policy.stage)
}

/// The named stage as a policy; `None` for a name that is not registered.
pub fn make_stage_backed_policy<S: KVMutationStage, F: StageFactory<S>>(
    registry: &StageRegistry,
    factory: &F,
    name: &str,
    params: &StageParams,
    args: &Vec<PluginArg>,
) -> (r: Option<StageBackedPolicy<S>>)
    ensures
        r is Some <==> registry.spec_caps(name@) is Some,
        r matches Some(policy) ==> policy_of(registry, factory, name, *params, *args, policy),
{
    match registry.mutation_stage_caps(name) {
        None => None,
        Some(caps) => Some(
            StageBackedPolicy::new(factory.make(name, params, args), copied_caps(caps)),
        ),
    }
}

/// The sliding window as a policy.
pub fn sliding_backed_policy<S: KVMutationStage, F: StageFactory<S>>(
    registry: &StageRegistry,
    factory: &F,
    window: usize,
    protected_prefix: usize,
) -> (r: Option<StageBackedPolicy<S>>)
    ensures
        r is Some <==> registry.spec_caps("sliding"@) is Some,
        r matches Some(policy) ==> exists|args: Vec<PluginArg>|
            args@.len() == 0 && #[trigger] policy_of(
                registry,
                factory,
                "sliding",
                window_params(window, protected_prefix),
                args,
                policy,
            ),
{
    let params = StageParams {
        eviction_window: window,
        protected_prefix,
        keep_ratio: 0,
        sink_size: 0,
        streaming_window: 0,
    };
    let args: Vec<PluginArg> = Vec::new();
    let r = make_stage_backed_policy(registry, factory, "sliding", &params, &args);
    assert(params == window_params(window, protected_prefix));
    r
}

/// The policy that evicts nothing.
pub fn none_backed_policy<S: KVMutationStage, F: StageFactory<S>>(
    registry: &StageRegistry,
    factory: &F,
) -> (r: Option<StageBackedPolicy<S>>)
    ensures
        r is Some <==> registry.spec_caps("none"@) is Some,
        r matches Some(policy) ==> exists|args: Vec<PluginArg>|
            args@.len() == 0 && #[trigger] policy_of(
                registry,
                factory,
                "none",
                zero_params(),
                args,
                policy,
            ),
{
    let params = StageParams {
        eviction_window: 0,
        protected_prefix: 0,
        keep_ratio: 0,
        sink_size: 0,
        streaming_window: 0,
    };
    let args: Vec<PluginArg> = Vec::new();
    let r = make_stage_backed_policy(registry, factory, "none", &params, &args);
    assert(params == zero_params());
    r
}

/// What the engine's own policies declare of themselves.
pub fn engine_internal_caps(name: &str) -> (r: Option<StageCaps>)
    ensures
        r is Some <==> name@ == "h2o_plus"@,
        r matches Some(caps) ==> {
            &&& caps.reads@ == seq![TensorKind::Scores]
            &&& caps.default_protected_prefix == 4
            &&& !caps.produces_merge_plan
            &&& !caps.whole_model
        },
{
    let known: String = "h2o_plus".to_owned();
    if same_text(&known, name) {
        let caps = StageCaps {
            reads: vec![TensorKind::Scores],
            default_protected_prefix: 4,
            produces_merge_plan: false,
            whole_model: false,
        };
        assert(caps.reads@ =~= seq![TensorKind::Scores]);
        Some(caps)
    } else {
        None
    }
}

/// With every stage registered under its curve, the check succeeds; and it succeeds only then.
pub proof fn lemma_registry_check_is_exact(registry: StageRegistry)
    ensures
        (first_fault(stages_fault(registry, 0), estimators_fault(registry, 0)) is None) <==> (
        forall|i: int|
            0 <= i < 4 ==> stage_fault(registry, (#[trigger] builtin_stages()[i]).0) is None
                && estimator_fault(registry, builtin_stages()[i].0, builtin_stages()[i].1) is None),
{
    reveal_with_fuel(stages_fault, 5);
    reveal_with_fuel(estimators_fault, 5);
}

/// A name stands for the first stage that is registered under it, and for none where there is no such
/// stage.
pub proof fn lemma_a_name_is_its_first_registration(registry: StageRegistry, name: Seq<char>, i: int)
    requires
        0 <= i < registry.stages@.len(),
        registry.stages@[i].name@ == name,
        forall|k: int| 0 <= k < i ==> (#[trigger] registry.stages@[k]).name@ != name,
    ensures
        registry.spec_caps(name) == Some(registry.stages@[i].caps),
{
    lemma_stage_index_from(registry.stages@, name, 0, i);
}

/// No registration, no capabilities.
pub proof fn lemma_an_unregistered_name_has_none(registry: StageRegistry, name: Seq<char>)
    requires
        forall|k: int|
            0 <= k < registry.stages@.len() ==> (#[trigger] registry.stages@[k]).name@ != name,
    ensures
        registry.spec_caps(name) is None,
{
    lemma_stage_index_none(registry.stages@, name, 0);
}

proof fn lemma_stage_index_from(stages: Seq<StageReg>, name: Seq<char>, from: int, i: int)
    requires
        0 <= from <= i < stages.len(),
        stages[i].name@ == name,
        forall|k: int| from <= k < i ==> (#[trigger] stages[k]).name@ != name,
    ensures
        stage_index(stages, name, from) == i,
    decreases i - from,
{
    if from < i {
        assert(stages[from].name@ != name);
        lemma_stage_index_from(stages, name, from + 1, i);
    }
}

proof fn lemma_stage_index_none(stages: Seq<StageReg>, name: Seq<char>, from: int)
    requires
        0 <= from <= stages.len(),
        forall|k: int| from <= k < stages.len() ==> (#[trigger] stages[k]).name@ != name,
    ensures
        stage_index(stages, name, from) == -1,
    decreases stages.len() - from,
{
    if from < stages.len() {
        assert(stages[from].name@ != name);
        lemma_stage_index_none(stages, name, from + 1);
    }
}

/// What a name's questions are answered by: the capabilities of its first registration; an unknown name
/// is fed nothing, protects nothing and merges nothing.
pub proof fn lemma_what_is_known_of_a_name(
    registry: StageRegistry,
    name: &str,
    scored: bool,
    prefix: usize,
    merges: bool,
    i: int,
)
    requires
        call_ensures(StageRegistry::stage_is_score_based, (&registry, name), scored),
        call_ensures(StageRegistry::stage_default_protected_prefix, (&registry, name), prefix),
        call_ensures(StageRegistry::stage_produces_merge_plan, (&registry, name), merges),
        -1 <= i < registry.stages@.len(),
        i >= 0 ==> registry.stages@[i].name@ == name@,
        forall|k: int|
            0 <= k < registry.stages@.len() && (i < 0 || k < i) ==> (
            #[trigger] registry.stages@[k]).name@ != name@,
    ensures
        i >= 0 ==> {
            let caps = registry.stages@[i].caps;
            &&& scored <==> caps.reads@.len() > 0
            &&& prefix == caps.default_protected_prefix
            &&& merges == caps.produces_merge_plan
        },
        i < 0 ==> !scored && prefix == 0 && !merges,
{
    if i >= 0 {
        lemma_a_name_is_its_first_registration(registry, name@, i);
    } else {
        lemma_an_unregistered_name_has_none(registry, name@);
    }
}

proof fn lemma_prefill_index_bounds(stages: Seq<StageReg>, from: int)
    requires
        0 <= from <= stages.len(),
    ensures
        ({
            let i = prefill_index(stages, from);
            &&& i == -1 || from <= i < stages.len()
            &&& i >= 0 ==> stages[i].caps.reads@.contains(TensorKind::PrefillAttention)
            &&& forall|k: int|
                from <= k < stages.len() && (i < 0 || k < i) ==> !(
                #[trigger] stages[k]).caps.reads@.contains(TensorKind::PrefillAttention)
        }),
    decreases stages.len() - from,
{
    if from < stages.len() && !stages[from].caps.reads@.contains(TensorKind::PrefillAttention) {
        lemma_prefill_index_bounds(stages, from + 1);
    }
}

/// The stage that is found for prefill attention is the first that reads it, and none is found only
/// where none does.
pub proof fn lemma_prefill_stage_is_the_first_reader(registry: StageRegistry, r: Option<String>)
    requires
        call_ensures(StageRegistry::find_prefill_attn_stage_name, (&registry,), r),
    ensures
        r is None ==> forall|k: int|
            0 <= k < registry.stages@.len() ==> !(
            #[trigger] registry.stages@[k]).caps.reads@.contains(TensorKind::PrefillAttention),
        r matches Some(name) ==> exists|i: int|
            {
                &&& 0 <= i < registry.stages@.len()
                &&& (#[trigger] registry.stages@[i]).name@ == name@
                &&& registry.stages@[i].caps.reads@.contains(TensorKind::PrefillAttention)
                &&& forall|k: int|
                    0 <= k < i ==> !(#[trigger] registry.stages@[k]).caps.reads@.contains(
                        TensorKind::PrefillAttention,
                    )
            },
{
    lemma_prefill_index_bounds(registry.stages@, 0);
    let i = prefill_index(registry.stages@, 0);
    if i >= 0 {
        assert(registry.stages@[i].caps.reads@.contains(TensorKind::PrefillAttention));
    }
}

/// What a stage is told of a layer: the layer's own sizes and place, the target and the scores as they
/// were given, and its rows only where it reads keys or values; one that ranks by the observation window
/// is told of that and of no other scores.
pub proof fn lemma_what_a_stage_is_told<'a>(
    caps: &StageCaps,
    cache: &'a KVCache,
    layer_idx: usize,
    n_layers: usize,
    target_len: usize,
    importance: Option<&'a Vec<u32>>,
    head_scores: Option<&'a Vec<u32>>,
    last_attn: Option<&'a Vec<u32>>,
    window: WindowScores<'a>,
    protected_prefix: usize,
)
    ensures
        ({
            let ctx = spec_ctx(
                caps,
                cache,
                layer_idx,
                n_layers,
                target_len,
                importance,
                head_scores,
                last_attn,
            );
            &&& ctx.layer_idx == layer_idx
            &&& ctx.n_layers == n_layers
            &&& ctx.target_len == target_len
            &&& ctx.current_pos == cache@.current_pos
            &&& ctx.n_kv_heads == cache@.shape.kv_heads
            &&& ctx.head_dim == cache@.shape.head_dim
            &&& ctx.kv_on_device == cache@.shape.on_device
            &&& ctx.importance == importance
            &&& ctx.head_scores == head_scores
            &&& ctx.last_attn == last_attn
            &&& ctx.window is None
            &&& ctx.protected_prefix == 0
            &&& ctx.rows is Some ==> ctx.rows == Some(cache)
            &&& ctx.rows is Some <==> exists|k: int|
                0 <= k < caps.reads@.len() && ((#[trigger] caps.reads@[k]) == TensorKind::Key
                    || caps.reads@[k] == TensorKind::Value)
        }),
        ({
            let ctx = spec_window_ctx(
                caps,
                cache,
                layer_idx,
                n_layers,
                target_len,
                window,
                protected_prefix,
            );
            &&& ctx.layer_idx == layer_idx
            &&& ctx.n_layers == n_layers
            &&& ctx.target_len == target_len
            &&& ctx.current_pos == cache@.current_pos
            &&& ctx.n_kv_heads == cache@.shape.kv_heads
            &&& ctx.head_dim == cache@.shape.head_dim
            &&& ctx.kv_on_device == cache@.shape.on_device
            &&& ctx.importance is None
            &&& ctx.head_scores is None
            &&& ctx.last_attn is None
            &&& ctx.window == Some(window)
            &&& ctx.protected_prefix == protected_prefix
        }),
{
    if caps.reads@.contains(TensorKind::Key) {
        let k = choose|k: int| 0 <= k < caps.reads@.len() && caps.reads@[k] == TensorKind::Key;
        assert(caps.reads@[k] == TensorKind::Key);
    }
    if caps.reads@.contains(TensorKind::Value) {
        let k = choose|k: int| 0 <= k < caps.reads@.len() && caps.reads@[k] == TensorKind::Value;
        assert(caps.reads@[k] == TensorKind::Value);
    }
}

proof fn lemma_estimator_index_bounds(list: Seq<EstimatorReg>, name: Seq<char>, from: int)
    requires
        0 <= from <= list.len(),
    ensures
        ({
            let i = estimator_index(list, name, from);
            &&& i == -1 || from <= i < list.len()
            &&& i >= 0 ==> list[i].name@ == name
            &&& forall|k: int|
                from <= k < list.len() && (i < 0 || k < i) ==> (#[trigger] list[k]).name@ != name
        }),
    decreases list.len() - from,
{
    if from < list.len() && list[from].name@ != name {
        lemma_estimator_index_bounds(list, name, from + 1);
    }
}

/// A registered stage under a name.
pub open spec fn has_stage(registry: StageRegistry, name: Seq<char>) -> bool {
    exists|i: int| 0 <= i < registry.stages@.len() && (#[trigger] registry.stages@[i]).name@ == name
}

/// The first estimator under a name is of a curve.
pub open spec fn has_estimator(registry: StageRegistry, name: Seq<char>, curve: Seq<char>) -> bool {
    exists|i: int|
        {
            &&& 0 <= i < registry.estimators@.len()
            &&& (#[trigger] registry.estimators@[i]).name@ == name
            &&& registry.estimators@[i].curve_key@ == curve
            &&& forall|k: int| 0 <= k < i ==> (#[trigger] registry.estimators@[k]).name@ != name
        }
}

proof fn lemma_stage_is_there(registry: StageRegistry, name: Seq<char>)
    ensures
        stage_fault(registry, name) is None <==> has_stage(registry, name),
        stage_fault(registry, name) matches Some(f) ==> f == FaultView::StageMissing(name),
{
    if has_stage(registry, name) {
        lemma_first_of_a_name(registry, name);
        let i = choose|i: int|
            {
                &&& 0 <= i < registry.stages@.len()
                &&& (#[trigger] registry.stages@[i]).name@ == name
                &&& forall|k: int| 0 <= k < i ==> (#[trigger] registry.stages@[k]).name@ != name
            };
        lemma_stage_index_from(registry.stages@, name, 0, i);
    } else {
        lemma_stage_index_none(registry.stages@, name, 0);
    }
}

proof fn lemma_first_of_a_name(registry: StageRegistry, name: Seq<char>)
    requires
        has_stage(registry, name),
    ensures
        exists|i: int|
            {
                &&& 0 <= i < registry.stages@.len()
                &&& (#[trigger] registry.stages@[i]).name@ == name
                &&& forall|k: int| 0 <= k < i ==> (#[trigger] registry.stages@[k]).name@ != name
            },
{
    let i = choose|i: int|
        0 <= i < registry.stages@.len() && (#[trigger] registry.stages@[i]).name@ == name;
    lemma_first_of_a_name_upto(registry.stages@, name, i);
}

proof fn lemma_first_of_a_name_upto(stages: Seq<StageReg>, name: Seq<char>, i: int)
    requires
        0 <= i < stages.len(),
        stages[i].name@ == name,
    ensures
        exists|k: int|
            {
                &&& 0 <= k < stages.len()
                &&& (#[trigger] stages[k]).name@ == name
                &&& forall|j: int| 0 <= j < k ==> (#[trigger] stages[j]).name@ != name
            },
    decreases i,
{
    if exists|j: int| 0 <= j < i && (#[trigger] stages[j]).name@ == name {
        let j = choose|j: int| 0 <= j < i && (#[trigger] stages[j]).name@ == name;
        lemma_first_of_a_name_upto(stages, name, j);
    } else {
        assert(stages[i].name@ == name);
    }
}

proof fn lemma_estimator_is_there(registry: StageRegistry, name: Seq<char>, curve: Seq<char>)
    ensures
        estimator_fault(registry, name, curve) is None <==> has_estimator(registry, name, curve),
{
    lemma_estimator_index_bounds(registry.estimators@, name, 0);
    let i = estimator_index(registry.estimators@, name, 0);
    if has_estimator(registry, name, curve) {
        let k = choose|i: int|
            {
                &&& 0 <= i < registry.estimators@.len()
                &&& (#[trigger] registry.estimators@[i]).name@ == name
                &&& registry.estimators@[i].curve_key@ == curve
                &&& forall|k: int| 0 <= k < i ==> (#[trigger] registry.estimators@[k]).name@ != name
            };
        if i < 0 || k < i {
            assert(registry.estimators@[k].name@ != name);
        } else if i < k {
            assert(registry.estimators@[i].name@ != name);
        }
    }
    if i >= 0 {
        assert(registry.estimators@[i].name@ == name);
    }
}

/// When a registry is complete: the four stages that every build has are registered, and each has its
/// estimator on its curve.
pub proof fn lemma_when_a_registry_is_complete(registry: StageRegistry, r: Result<(), RegistryFault>)
    requires
        call_ensures(StageRegistry::ensure_builtin_stages_registered, (&registry,), r),
    ensures
        r is Ok <==> {
            &&& has_stage(registry, "sliding"@)
            &&& has_stage(registry, "streaming"@)
            &&& has_stage(registry, "h2o"@)
            &&& has_stage(registry, "d2o"@)
            &&& has_estimator(registry, "sliding"@, "kv.evict_sliding"@)
            &&& has_estimator(registry, "streaming"@, "kv.evict_streaming"@)
            &&& has_estimator(registry, "h2o"@, "kv.evict_h2o"@)
            &&& has_estimator(registry, "d2o"@, "kv.merge_d2o"@)
        },
{
    lemma_stage_is_there(registry, "sliding"@);
    lemma_stage_is_there(registry, "streaming"@);
    lemma_stage_is_there(registry, "h2o"@);
    lemma_stage_is_there(registry, "d2o"@);
    lemma_estimator_is_there(registry, "sliding"@, "kv.evict_sliding"@);
    lemma_estimator_is_there(registry, "streaming"@, "kv.evict_streaming"@);
    lemma_estimator_is_there(registry, "h2o"@, "kv.evict_h2o"@);
    lemma_estimator_is_there(registry, "d2o"@, "kv.merge_d2o"@);
    reveal_with_fuel(stages_fault, 5);
    reveal_with_fuel(estimators_fault, 5);
}

/// The parameters of a window are the window, the prefix and nothing else, and no parameters are nothing
/// at all.
pub proof fn lemma_stage_parameters(window: usize, protected_prefix: usize)
    ensures
        window_params(window, protected_prefix).eviction_window == window,
        window_params(window, protected_prefix).protected_prefix == protected_prefix,
        window_params(window, protected_prefix).keep_ratio == 0,
        window_params(window, protected_prefix).sink_size == 0,
        window_params(window, protected_prefix).streaming_window == 0,
        zero_params() == window_params(0, 0),
{
}

/// What a policy of a stage is made of: the stage that the factory made with the parameters, and the
/// capabilities of the name's first registration.
pub proof fn lemma_a_policy_has_the_registered_capabilities<S, F: StageFactory<S>>(
    registry: &StageRegistry,
    factory: &F,
    name: &str,
    params: StageParams,
    args: Vec<PluginArg>,
    policy: StageBackedPolicy<S>,
    i: int,
)
    requires
        policy_of(registry, factory, name, params, args, policy),
        0 <= i < registry.stages@.len(),
        registry.stages@[i].name@ == name@,
        forall|k: int| 0 <= k < i ==> (#[trigger] registry.stages@[k]).name@ != name@,
    ensures
        policy.caps.reads@ == registry.stages@[i].caps.reads@,
        policy.caps.default_protected_prefix == registry.stages@[i].caps.default_protected_prefix,
        policy.caps.produces_merge_plan == registry.stages@[i].caps.produces_merge_plan,
        policy.caps.whole_model == registry.stages@[i].caps.whole_model,
        call_ensures(F::make, (factory, name, &params, &args), policy.stage),
{
    lemma_a_name_is_its_first_registration(*registry, name@, i);
}

/// Which stages a store refuses: those whose plans may merge, where it cannot merge.
pub proof fn lemma_which_stages_a_store_refuses(caps: StageCaps, supports_merge: bool, r: Result<(), String>)
    requires
        call_ensures(validate_stage_constraints, (&caps, supports_merge), r),
    ensures
        supports_merge ==> r is Ok,
        !caps.produces_merge_plan ==> r is Ok,
        caps.produces_merge_plan && !supports_merge ==> r is Err,
{
}

/// What the engine's own policies declare: one goes by scores, protects four tokens and merges nothing.
pub proof fn lemma_the_engines_own_policies(name: &str, r: Option<StageCaps>)
    requires
        call_ensures(engine_internal_caps, (name,), r),
    ensures
        r is Some <==> name@ == "h2o_plus"@,
        r matches Some(caps) ==> caps.reads@.len() == 1 && caps.reads@[0] == TensorKind::Scores
            && caps.default_protected_prefix == 4 && !caps.produces_merge_plan && !caps.whole_model,
{
}

} // verus!
