use argus_kv::cache_manager::{decide_run, CacheManager, MemoryStats, MonitorError, SystemMonitor};
use argus_kv::codec::{RowCodec, RowFormat};
use argus_kv::descriptor::TensorKind;
use argus_kv::dtype::{DType, KVLayout};
use argus_kv::eviction::{max_cache_pos, EvictError, EvictionPolicy, EvictionResult, ScoreContext,
    StagePlan, MIN_EVICT_TOKENS};
use argus_kv::keep::KeepSpec;
use argus_kv::keepset_dump::KeepsetDump;
use argus_kv::kv_cache::{CacheShape, KVCache, Side};
use argus_kv::policy_run::{run_cross_layer_keepset_eviction, run_policy_eviction, undershoot,
    Undershoot};
use argus_kv::pressure::{clamp_bits, pipeline_results_to_eviction_result, ActionResult,
    CachePressurePipeline, EvictionHandler, PressureLevel, PressureStageConfig, RatioMath,
    MAX_RATIO, MIN_RATIO};
use argus_kv::score_fed::{extract_scores, reset_gpu_layer_flat, route_evict,
    sync_gpu_scores_to_cpu, AttentionScoreAccumulator, DeviceScores};
use argus_kv::squeeze_budget::compute_squeeze_budgets;
use argus_kv::stage_registry::{make_stage_backed_policy, none_backed_policy,
    sliding_backed_policy, KVMutationStage, PluginArg, StageBackedPolicy, StageCaps, StageCtx,
    StageFactory, StageParams, StageReg, StageRegistry};

const MB: usize = 1024 * 1024;

struct Rows;

impl RowCodec for Rows {
    fn recode(&self, row: &Vec<u8>, _from: RowFormat, _to: RowFormat) -> Vec<u8> {
        row.clone()
    }

    fn merge(
        &self,
        _format: RowFormat,
        into: &Vec<u8>,
        _into_weight: u32,
        _from: &Vec<Vec<u8>>,
        _weights: &Vec<u32>,
    ) -> Vec<u8> {
        into.clone()
    }
}

struct Floats;

impl RatioMath for Floats {
    fn portion(&self, ratio: u32, of: usize) -> usize {
        (of as f32 * f32::from_bits(ratio)) as usize
    }
}

/// Memory as the test sets it; `None` cannot be measured.
struct MockMonitor {
    available: Option<usize>,
}

impl SystemMonitor for MockMonitor {
    fn mem_stats(&self) -> Result<MemoryStats, MonitorError> {
        match self.available {
            Some(available) => Ok(MemoryStats {
                total: 4 * 1024 * MB,
                available,
                free: available / 2,
            }),
            None => Err(MonitorError),
        }
    }
}

fn left(available: usize) -> MockMonitor {
    MockMonitor { available: Some(available) }
}

/// The techniques of these tests.
enum Technique {
    Nothing,
    Sliding { prefix: usize },
    HeavyHitters { hh: usize, recent: usize, prefix: usize },
    WholeModel { prefix: usize },
}

fn layer_wide(list: Vec<usize>) -> Result<StagePlan, EvictError> {
    Ok(StagePlan { keep: Some(KeepSpec::LayerWide(list)), merges: Vec::new() })
}

fn key_element(cache: &KVCache, pos: usize, head: usize, d: usize) -> f32 {
    let row = cache.read_row(Side::Key, pos, head);
    f32::from_le_bytes([row[4 * d], row[4 * d + 1], row[4 * d + 2], row[4 * d + 3]])
}

impl KVMutationStage for Technique {
    fn name(&self) -> String {
        match self {
            Technique::Nothing => "none".to_string(),
            Technique::Sliding { .. } => "sliding".to_string(),
            Technique::HeavyHitters { .. } => "h2o".to_string(),
            Technique::WholeModel { .. } => "whole".to_string(),
        }
    }

    fn plan(&self, ctx: &StageCtx) -> Result<StagePlan, EvictError> {
        let n = ctx.current_pos;
        match *self {
            Technique::Sliding { prefix } => {
                let keep = ctx.target_len.max(prefix).min(n);
                let recent = keep - prefix.min(keep);
                layer_wide((0..prefix.min(keep)).chain(n - recent..n).collect())
            }
            Technique::HeavyHitters { hh, recent, prefix } => {
                if n <= prefix + hh + recent {
                    return Ok(StagePlan { keep: None, merges: Vec::new() });
                }
                let score = |p: usize| match ctx.importance {
                    Some(s) => f32::from_bits(s[p]),
                    None => 0.0,
                };
                let mut middle: Vec<usize> = (prefix..n - recent).collect();
                middle.sort_by(|&a, &b| score(b).total_cmp(&score(a)).then(a.cmp(&b)));
                middle.truncate(hh);
                let mut keep: Vec<usize> = (0..prefix).chain(middle).collect();
                keep.extend(n - recent..n);
                keep.sort();
                layer_wide(keep)
            }
            _ => Ok(StagePlan { keep: None, merges: Vec::new() }),
        }
    }

    fn plan_whole_model(
        &self,
        caches: &Vec<KVCache>,
        target_len: usize,
        positions: &Vec<usize>,
    ) -> Result<Option<Vec<usize>>, EvictError> {
        let Technique::WholeModel { prefix } = *self else { return Ok(None) };
        let now = positions.iter().max().map_or(0, |p| p + 1);
        let score = |slot: usize| -> f32 {
            let phase = (now - positions[slot]) as f32;
            caches
                .iter()
                .map(|c| {
                    (0..c.kv_heads())
                        .map(|h| {
                            (0..c.head_dim())
                                .map(|d| key_element(c, slot, h, d) * (phase * 0.37 * d as f32).cos())
                                .sum::<f32>()
                        })
                        .fold(f32::MIN, f32::max)
                })
                .fold(f32::MIN, f32::max)
        };
        let mut decoded: Vec<usize> = (prefix..positions.len()).collect();
        decoded.sort_by(|&a, &b| score(b).total_cmp(&score(a)).then(a.cmp(&b)));
        decoded.truncate(target_len - prefix);
        let mut keep: Vec<usize> = (0..prefix).chain(decoded).collect();
        keep.sort();
        Ok(Some(keep))
    }
}

struct Factory;

impl StageFactory<Technique> for Factory {
    fn make(&self, name: &str, params: &StageParams, args: &Vec<PluginArg>) -> Technique {
        let arg = |key: &str| {
            args.iter().find(|a| a.key == key).map_or(0, |a| a.val.parse::<usize>().unwrap())
        };
        match name {
            "sliding" => Technique::Sliding { prefix: params.protected_prefix },
            "h2o" => Technique::HeavyHitters {
                hh: arg("hh_size"),
                recent: arg("recent_size"),
                prefix: params.protected_prefix,
            },
            "whole" => Technique::WholeModel { prefix: params.protected_prefix },
            _ => Technique::Nothing,
        }
    }
}

fn caps(reads: Vec<TensorKind>, whole_model: bool) -> StageCaps {
    StageCaps { reads, default_protected_prefix: 0, produces_merge_plan: false, whole_model }
}

fn registry() -> StageRegistry {
    let reg = |name: &str, caps: StageCaps| StageReg { name: name.to_string(), caps };
    StageRegistry {
        stages: vec![
            reg("none", StageCaps::score_free()),
            reg("sliding", StageCaps::score_free()),
            reg("h2o", caps(vec![TensorKind::Scores], false)),
            reg("whole", caps(vec![TensorKind::Key], true)),
        ],
        estimators: Vec::new(),
    }
}

type Policy = StageBackedPolicy<Technique>;
type Handler = EvictionHandler<Policy, Rows, Floats>;
type Manager = CacheManager<Handler, MockMonitor>;

fn none() -> Policy {
    none_backed_policy(&registry(), &Factory).unwrap()
}

fn sliding(window: usize, prefix: usize) -> Policy {
    sliding_backed_policy(&registry(), &Factory, window, prefix).unwrap()
}

fn params(prefix: usize) -> StageParams {
    StageParams {
        eviction_window: 0,
        protected_prefix: prefix,
        keep_ratio: 0,
        sink_size: 0,
        streaming_window: 0,
    }
}

fn h2o(hh: usize, recent: usize, prefix: usize) -> Policy {
    let arg = |key: &str, n: usize| PluginArg { key: key.to_string(), val: n.to_string() };
    make_stage_backed_policy(
        &registry(),
        &Factory,
        "h2o",
        &params(prefix),
        &vec![arg("hh_size", hh), arg("recent_size", recent)],
    )
    .unwrap()
}

fn manager(policy: Policy, monitor: MockMonitor, threshold: usize, ratio: f32) -> Manager {
    CacheManager::new(policy, Rows, Floats, monitor, threshold, ratio.to_bits())
}

fn stage(min_level: PressureLevel, policy: Policy, ratio: f32) -> PressureStageConfig<Handler> {
    PressureStageConfig {
        min_level,
        handler: EvictionHandler {
            policy,
            codec: Rows,
            math: Floats,
            target_ratio: ratio.to_bits(),
        },
    }
}

fn with_pipeline(
    stages: Vec<PressureStageConfig<Handler>>,
    monitor: MockMonitor,
    threshold: usize,
) -> Manager {
    CacheManager::with_pipeline(CachePressurePipeline::new(stages), monitor, threshold)
}

fn cache_of(kv_heads: usize, head_dim: usize, max_seq: usize) -> KVCache {
    cache_in(KVLayout::SeqMajor, kv_heads, head_dim, max_seq)
}

fn cache_in(layout: KVLayout, kv_heads: usize, head_dim: usize, max_seq: usize) -> KVCache {
    KVCache::new(CacheShape {
        dtype: DType::F32,
        opaque: None,
        layout,
        kv_heads,
        head_dim,
        capacity: max_seq,
        max_seq_len: max_seq,
        dynamic: false,
        on_device: false,
    })
    .unwrap()
}

fn make_caches(n_layers: usize, pos: usize) -> Vec<KVCache> {
    make_pos_caches(n_layers, pos, 100)
}

/// Every element of position `p` equals `p`.
fn make_pos_caches(n_layers: usize, pos: usize, max_seq: usize) -> Vec<KVCache> {
    (0..n_layers)
        .map(|_| {
            let mut cache = cache_of(1, 4, max_seq);
            for p in 0..pos {
                let row: Vec<u8> = (0..4).flat_map(|_| (p as f32).to_le_bytes()).collect();
                cache.write_row(Side::Key, p, 0, &row);
            }
            cache.set_current_pos(pos);
            cache
        })
        .collect()
}

fn survivors(c: &KVCache) -> Vec<usize> {
    (0..c.current_pos()).map(|s| key_element(c, s, 0, 0) as usize).collect()
}

fn bits(values: &[f32]) -> Vec<u32> {
    values.iter().map(|x| x.to_bits()).collect()
}

fn off() -> KeepsetDump {
    KeepsetDump::new(false)
}

#[test]
fn test_no_eviction_with_plenty_memory() {
    let cm = manager(none(), left(1024 * MB), 256 * MB, 0.75);
    let mut caches = make_caches(4, 50);
    let result = cm.maybe_evict(&mut caches, &mut off()).unwrap();
    assert!(!result.evicted);
    assert_eq!(caches[0].current_pos(), 50);
}

#[test]
fn test_sliding_window_with_memory_pressure() {
    let cm = manager(sliding(30, 0), left(100 * MB), 256 * MB, 0.3);
    let mut caches = make_caches(4, 100);
    let result = cm.maybe_evict(&mut caches, &mut off()).unwrap();
    assert!(result.evicted);
    for cache in &caches {
        assert!(cache.current_pos() < 100);
    }
}

#[test]
fn test_eviction_across_all_layers() {
    let cm = manager(sliding(20, 0), left(10 * MB), 256 * MB, 0.3);
    let mut caches = make_caches(16, 100);
    let result = cm.maybe_evict(&mut caches, &mut off()).unwrap();
    assert!(result.evicted);
    let pos = caches[0].current_pos();
    for cache in &caches {
        assert_eq!(cache.current_pos(), pos);
    }
}

#[test]
fn per_layer_budget_evicts_layers_independently() {
    let start = 100usize;
    let importance = [0.05f32, 0.05, 0.5, 0.5, 0.95, 0.95];
    let budgets = compute_squeeze_budgets(&bits(&importance), 360, 1);
    assert_eq!(budgets, vec![30, 30, 60, 60, 90, 90]);
    let mut caches = make_caches(importance.len(), start);
    let res = run_policy_eviction(
        &sliding(0, 0),
        &Rows,
        &mut caches,
        0,
        &ScoreContext::Unscored,
        Some(&budgets),
        None,
        &mut off(),
    )
    .unwrap();
    assert!(res.evicted);
    assert!(caches[0].current_pos() < start);
    assert!(caches[1].current_pos() < start);
    assert_eq!(caches[2].current_pos(), start);
    assert_eq!(caches[3].current_pos(), start);
    assert_eq!(caches[4].current_pos(), start);
    assert_eq!(caches[5].current_pos(), start);
}

#[test]
fn per_layer_budget_none_is_uniform() {
    let mut caches = make_caches(4, 100);
    let res = run_policy_eviction(
        &sliding(0, 0),
        &Rows,
        &mut caches,
        30,
        &ScoreContext::Unscored,
        None,
        None,
        &mut off(),
    )
    .unwrap();
    assert!(res.evicted);
    let p = caches[0].current_pos();
    assert!(p < 100);
    for c in &caches {
        assert_eq!(c.current_pos(), p);
    }
}

#[test]
fn test_empty_caches() {
    let cm = manager(none(), left(0), 256 * MB, 0.75);
    let mut caches: Vec<KVCache> = Vec::new();
    let result = cm.maybe_evict(&mut caches, &mut off()).unwrap();
    assert!(!result.evicted);
}

#[test]
fn test_policy_name() {
    let cm = manager(sliding(10, 0), left(0), 0, 0.75);
    assert!(cm.policy_name().contains("sliding"));
}

#[test]
fn test_monitor_error_skips_eviction() {
    let cm = manager(sliding(10, 0), MockMonitor { available: None }, 256 * MB, 0.75);
    let mut caches = make_caches(4, 50);
    let result = cm.maybe_evict(&mut caches, &mut off()).unwrap();
    assert!(!result.evicted);
    assert_eq!(result.new_pos, 50);
}

#[test]
fn test_maybe_evict_with_scores_triggers() {
    let cm = manager(h2o(15, 15, 0), left(10 * MB), 256 * MB, 0.3);
    let mut caches = make_caches(4, 100);
    let mut importance = vec![0.0f32; 100];
    importance[10] = 10.0;
    importance[20] = 9.0;
    importance[30] = 8.0;
    let result =
        cm.maybe_evict_with_scores(&mut caches, &mut off(), &bits(&importance), None).unwrap();
    assert!(result.evicted);
    let pos = caches[0].current_pos();
    for cache in &caches {
        assert_eq!(cache.current_pos(), pos);
    }
}

#[test]
fn faithful_h2o_per_layer_evicts_divergent_keepsets() {
    let (n_layers, pos, max_seq) = (2usize, 100usize, 200usize);
    let make_cm = || manager(h2o(1, 2, 0), left(0), 256 * MB, 0.03);
    let mut layer_flat = vec![0.0f32; n_layers * max_seq];
    layer_flat[30] = 10.0;
    layer_flat[max_seq + 60] = 20.0;

    let mut caches = make_pos_caches(n_layers, pos, max_seq);
    let res = make_cm()
        .force_evict_with_per_layer_scores(
            &mut caches,
            &mut off(),
            0.03f32.to_bits(),
            &bits(&layer_flat),
            max_seq,
            None,
        )
        .unwrap();
    assert!(res.evicted);
    let l0 = survivors(&caches[0]);
    let l1 = survivors(&caches[1]);
    assert_eq!(l0, vec![30, 98, 99]);
    assert_eq!(l1, vec![60, 98, 99]);
    assert_ne!(l0, l1);
    assert!(l0.contains(&30) && !l1.contains(&30));
    assert!(l1.contains(&60) && !l0.contains(&60));

    let collapsed: Vec<f32> =
        (0..max_seq).map(|t| layer_flat[t].max(layer_flat[max_seq + t])).collect();
    let mut caches_c = make_pos_caches(n_layers, pos, max_seq);
    make_cm()
        .force_evict_with_scores(
            &mut caches_c,
            &mut off(),
            0.03f32.to_bits(),
            &bits(&collapsed),
            None,
        )
        .unwrap();
    let c0 = survivors(&caches_c[0]);
    let c1 = survivors(&caches_c[1]);
    assert_eq!(c0, c1);
    assert_eq!(c0, vec![60, 98, 99]);
    assert!(!c0.contains(&30));
}

#[test]
fn test_maybe_evict_with_scores_no_eviction_needed() {
    let cm = manager(none(), left(1024 * MB), 256 * MB, 0.75);
    let mut caches = make_caches(4, 50);
    let importance = vec![1.0f32.to_bits(); 100];
    let result = cm.maybe_evict_with_scores(&mut caches, &mut off(), &importance, None).unwrap();
    assert!(!result.evicted);
    assert_eq!(caches[0].current_pos(), 50);
}

#[test]
fn test_force_evict_bypasses_should_evict() {
    let cm = manager(h2o(15, 15, 0), left(1024 * MB), 256 * MB, 0.75);
    let mut caches = make_caches(4, 100);
    let result = cm.maybe_evict(&mut caches, &mut off()).unwrap();
    assert!(!result.evicted);
    assert_eq!(caches[0].current_pos(), 100);
    let result = cm.force_evict(&mut caches, &mut off(), 0.3f32.to_bits()).unwrap();
    assert!(result.evicted);
    assert!(caches[0].current_pos() < 100);
}

#[test]
fn test_force_evict_with_scores_bypasses_checks() {
    let cm = manager(h2o(15, 15, 0), left(1024 * MB), 256 * MB, 0.75);
    let mut caches = make_caches(4, 100);
    let mut importance = vec![0.0f32; 100];
    importance[10] = 10.0;
    importance[20] = 9.0;
    importance[30] = 8.0;
    let result = cm
        .force_evict_with_scores(
            &mut caches,
            &mut off(),
            0.3f32.to_bits(),
            &bits(&importance),
            None,
        )
        .unwrap();
    assert!(result.evicted);
    let pos = caches[0].current_pos();
    for cache in &caches {
        assert_eq!(cache.current_pos(), pos);
    }
}

#[test]
fn test_force_evict_empty_caches() {
    let cm = manager(none(), left(0), 256 * MB, 0.75);
    let mut caches: Vec<KVCache> = Vec::new();
    let result = cm.force_evict(&mut caches, &mut off(), 0.5f32.to_bits()).unwrap();
    assert!(!result.evicted);
}

#[test]
fn test_force_evict_ratio_clamping() {
    let cm = manager(h2o(15, 15, 0), left(0), 0, 0.75);
    let mut caches = make_caches(1, 100);
    let result = cm.force_evict(&mut caches, &mut off(), 0.0f32.to_bits()).unwrap();
    assert!(result.evicted);
    assert!(caches[0].current_pos() > 0);
}

#[test]
fn test_target_ratio_clamping() {
    let cm = manager(sliding(10, 0), left(10), 256 * MB, 0.01);
    let mut caches = make_caches(1, 100);
    let result = cm.maybe_evict(&mut caches, &mut off()).unwrap();
    assert!(result.evicted);
    assert!(caches[0].current_pos() > 0);

    let cm2 = manager(sliding(10, 0), left(10), 256 * MB, 5.0);
    let mut caches2 = make_caches(1, 100);
    let result2 = cm2.maybe_evict(&mut caches2, &mut off()).unwrap();
    assert!(!result2.evicted);
    assert_eq!(caches2[0].current_pos(), 100);
}

#[test]
fn test_pipeline_manager_evicts_at_pressure() {
    let cm = with_pipeline(
        vec![stage(PressureLevel::Warning, sliding(10, 0), 0.3)],
        left(100 * MB),
        256 * MB,
    );
    let mut caches = make_caches(4, 100);
    let result = cm.maybe_evict(&mut caches, &mut off()).unwrap();
    assert!(result.evicted);
    for cache in &caches {
        assert!(cache.current_pos() < 100);
    }
}

#[test]
fn test_pipeline_manager_no_action_at_normal() {
    let cm = with_pipeline(
        vec![stage(PressureLevel::Warning, sliding(10, 0), 0.5)],
        left(512 * MB),
        256 * MB,
    );
    let mut caches = make_caches(4, 40);
    let result = cm.maybe_evict(&mut caches, &mut off()).unwrap();
    assert!(!result.evicted);
    assert_eq!(caches[0].current_pos(), 40);
}

#[test]
fn test_pipeline_manager_force_evict() {
    let cm = with_pipeline(
        vec![stage(PressureLevel::Emergency, sliding(10, 0), 0.3)],
        left(1024 * MB),
        256 * MB,
    );
    let mut caches = make_caches(4, 100);
    let result = cm.maybe_evict(&mut caches, &mut off()).unwrap();
    assert!(!result.evicted);
    let result = cm.force_evict(&mut caches, &mut off(), 0.3f32.to_bits()).unwrap();
    assert!(result.evicted);
    assert!(caches[0].current_pos() < 100);
}

#[test]
fn test_pipeline_manager_force_evict_with_scores() {
    let cm = with_pipeline(
        vec![stage(PressureLevel::Emergency, h2o(15, 15, 0), 0.3)],
        left(1024 * MB),
        256 * MB,
    );
    let mut caches = make_caches(4, 100);
    let mut importance = vec![0.0f32; 100];
    importance[10] = 10.0;
    importance[20] = 9.0;
    let result = cm
        .force_evict_with_scores(
            &mut caches,
            &mut off(),
            0.3f32.to_bits(),
            &bits(&importance),
            None,
        )
        .unwrap();
    assert!(result.evicted);
    assert!(caches[0].current_pos() < 100);
}

#[test]
fn test_pipeline_manager_with_scores() {
    let cm = with_pipeline(
        vec![stage(PressureLevel::Warning, h2o(15, 15, 0), 0.3)],
        left(100 * MB),
        256 * MB,
    );
    let mut caches = make_caches(4, 100);
    let mut importance = vec![0.0f32; 100];
    importance[10] = 10.0;
    importance[20] = 9.0;
    for i in 4..100 {
        if importance[i] == 0.0 {
            importance[i] = 0.01;
        }
    }
    let result =
        cm.maybe_evict_with_scores(&mut caches, &mut off(), &bits(&importance), None).unwrap();
    assert!(result.evicted);
    let pos = caches[0].current_pos();
    for cache in &caches {
        assert_eq!(cache.current_pos(), pos);
    }
}

#[test]
fn test_pipeline_manager_policy_name() {
    let cm = with_pipeline(
        vec![
            stage(PressureLevel::Warning, sliding(10, 0), 0.8),
            stage(PressureLevel::Critical, sliding(10, 0), 0.5),
        ],
        left(0),
        256 * MB,
    );
    let name = cm.policy_name();
    assert!(name.contains("sliding"));
    assert!(name.contains("Warning"));
    assert!(name.contains("Critical"));
    assert!(!cm.policy_id().contains("Warning"));
    assert!(cm.policy_id().contains("sliding"));
}

#[test]
fn test_pipeline_manager_multi_level_graduated_response() {
    let stages = || {
        vec![
            stage(PressureLevel::Warning, sliding(50, 0), 0.3),
            stage(PressureLevel::Critical, sliding(10, 0), 0.1),
        ]
    };
    let cm_warning = with_pipeline(stages(), left(200 * MB), 400 * MB);
    let mut caches = make_caches(4, 100);
    let result = cm_warning.maybe_evict(&mut caches, &mut off()).unwrap();
    assert!(result.evicted);
    let pos_after_warning = caches[0].current_pos();

    let cm_critical = with_pipeline(stages(), left(50 * MB), 400 * MB);
    let mut caches2 = make_caches(4, 100);
    let result2 = cm_critical.maybe_evict(&mut caches2, &mut off()).unwrap();
    assert!(result2.evicted);
    assert!(caches2[0].current_pos() <= pos_after_warning);
}

#[test]
fn test_pipeline_manager_empty_pipeline() {
    let cm = with_pipeline(Vec::new(), left(0), 256 * MB);
    let mut caches = make_caches(4, 40);
    let result = cm.maybe_evict(&mut caches, &mut off()).unwrap();
    assert!(!result.evicted);
}

#[test]
fn test_pipeline_manager_monitor_error_skips() {
    let cm = with_pipeline(
        vec![stage(PressureLevel::Warning, sliding(10, 0), 0.5)],
        MockMonitor { available: None },
        256 * MB,
    );
    let mut caches = make_caches(4, 40);
    let result = cm.maybe_evict(&mut caches, &mut off()).unwrap();
    assert!(!result.evicted);
    assert_eq!(result.new_pos, 40);
}

const N_LAYERS: usize = 3;
const N_KV: usize = 2;
const HD: usize = 64;
const RESIDENT: usize = 20;
const MAX_SEQ: usize = 32;
const PREFIX: usize = 4;

/// Keys of length one, whose frequency over the elements grows with the position.
fn build_cache(layer: usize) -> KVCache {
    let mut c = cache_of(N_KV, HD, MAX_SEQ);
    for pos in 0..RESIDENT {
        for head in 0..N_KV {
            let freq = 0.07 * (pos as f32 + 1.0) + 0.013 * (head as f32 + 1.0);
            let v: Vec<f32> =
                (0..HD).map(|d| (freq * d as f32 + 0.3 * layer as f32).sin()).collect();
            let norm = v.iter().map(|x| x * x).sum::<f32>().sqrt().max(1e-6);
            let row: Vec<u8> = v.iter().flat_map(|x| (x / norm).to_le_bytes()).collect();
            c.write_row(Side::Key, pos, head, &row);
        }
    }
    c.set_current_pos(RESIDENT);
    c
}

fn recovered_kept_slots(cache: &KVCache, layer: usize) -> Vec<usize> {
    let orig = build_cache(layer);
    (0..cache.current_pos())
        .map(|i| {
            let now = cache.read_row(Side::Key, i, 0);
            (0..RESIDENT).find(|&s| orig.read_row(Side::Key, s, 0) == now).unwrap()
        })
        .collect()
}

fn whole() -> Policy {
    make_stage_backed_policy(&registry(), &Factory, "whole", &params(PREFIX), &Vec::new()).unwrap()
}

#[test]
fn whole_model_list_is_kept_in_every_layer() {
    let cm = manager(whole(), left(0), 0, 0.5);
    let mut caches: Vec<KVCache> = (0..N_LAYERS).map(build_cache).collect();
    assert_eq!(max_cache_pos(&caches), RESIDENT);
    let importance = vec![0u32; RESIDENT];
    let res = cm
        .force_evict_with_scores(&mut caches, &mut off(), 0.5f32.to_bits(), &importance, None)
        .unwrap();
    assert_eq!(res, EvictionResult { evicted: true, tokens_removed: 10, new_pos: 10 });
    let kept = recovered_kept_slots(&caches[0], 0);
    assert_eq!(kept.len(), 10);
    assert_eq!(&kept[..PREFIX], &[0, 1, 2, 3]);
    for (l, c) in caches.iter().enumerate() {
        assert_eq!(c.current_pos(), 10);
        assert_eq!(recovered_kept_slots(c, l), kept);
    }

    let mut unscored: Vec<KVCache> = (0..N_LAYERS).map(build_cache).collect();
    cm.force_evict(&mut unscored, &mut off(), 0.5f32.to_bits()).unwrap();
    for (l, c) in unscored.iter().enumerate() {
        assert_eq!(recovered_kept_slots(c, l), kept);
    }
}

#[test]
fn whole_model_policy_sees_the_saved_positions() {
    let positions: Vec<usize> = vec![
        0, 1, 2, 3, 9, 17, 33, 64, 96, 128, 160, 192, 200, 201, 202, 203, 204, 205, 206, 207,
    ];
    let fresh = || -> Vec<KVCache> { (0..N_LAYERS).map(build_cache).collect() };
    let mut direct = fresh();
    let res_direct = run_cross_layer_keepset_eviction(
        &whole(),
        &Rows,
        &mut direct,
        10,
        &positions,
        &mut off(),
    )
    .unwrap();
    let routed = |positions: Option<&Vec<usize>>| {
        let mut caches = fresh();
        let res = run_policy_eviction(
            &whole(),
            &Rows,
            &mut caches,
            10,
            &ScoreContext::Unscored,
            None,
            positions,
            &mut off(),
        )
        .unwrap();
        (res, recovered_kept_slots(&caches[0], 0))
    };
    let (res_saved, kept_saved) = routed(Some(&positions));
    let (res_fresh, kept_fresh) = routed(None);
    assert!(res_direct.evicted && res_saved.evicted && res_fresh.evicted);
    assert_eq!(res_saved.new_pos, res_direct.new_pos);
    assert_eq!(kept_saved, recovered_kept_slots(&direct[0], 0));
    assert_ne!(kept_fresh, kept_saved);
}

#[test]
fn layers_of_different_lengths_have_no_common_list() {
    let mut caches: Vec<KVCache> = (0..N_LAYERS).map(build_cache).collect();
    caches[1].set_current_pos(RESIDENT - 1);
    let r = run_cross_layer_keepset_eviction(
        &whole(),
        &Rows,
        &mut caches,
        10,
        &(0..RESIDENT).collect(),
        &mut off(),
    );
    assert_eq!(r, Err(EvictError::NotUniform));
    assert_eq!(caches[0].current_pos(), RESIDENT);
}

#[test]
fn an_eviction_must_be_worth_the_moves() {
    assert_eq!(MIN_EVICT_TOKENS, 64);
    let run = |target: usize| {
        let mut caches = make_caches(2, 100);
        run_policy_eviction(
            &sliding(0, 0),
            &Rows,
            &mut caches,
            target,
            &ScoreContext::Unscored,
            None,
            None,
            &mut off(),
        )
        .unwrap()
    };
    assert_eq!(run(37), EvictionResult { evicted: false, tokens_removed: 0, new_pos: 100 });
    assert_eq!(run(36), EvictionResult { evicted: true, tokens_removed: 64, new_pos: 36 });
    assert_eq!(run(100), EvictionResult { evicted: false, tokens_removed: 0, new_pos: 100 });
}

/// Asks for a position that the layer does not hold.
struct OutOfRange;

impl EvictionPolicy for OutOfRange {
    fn should_evict(&self, _cache: &KVCache, _mem_available: usize) -> bool {
        true
    }

    fn evict(&self, _cache: &KVCache, _target_len: usize) -> Result<StagePlan, EvictError> {
        layer_wide(vec![100])
    }

    fn name(&self) -> String {
        "out_of_range".to_string()
    }

    fn evict_with_scores(
        &self,
        _cache: &KVCache,
        _target_len: usize,
        _importance: &Vec<u32>,
    ) -> Result<StagePlan, EvictError> {
        Err(EvictError::Policy("no plan".to_owned()))
    }
}

#[test]
fn a_plan_that_does_not_fit_changes_nothing() {
    let mut caches = make_caches(1, 100);
    let zeros = vec![0u32; 100];
    let mut run = |scores: ScoreContext| {
        run_policy_eviction(&OutOfRange, &Rows, &mut caches, 10, &scores, None, None, &mut off())
    };
    assert!(matches!(run(ScoreContext::Unscored), Err(EvictError::Refused(_))));
    assert_eq!(
        run(ScoreContext::Flat { importance: &zeros, last_attn: None }),
        Err(EvictError::Policy("no plan".to_owned()))
    );
    assert_eq!(caches[0].current_pos(), 100);
    assert_eq!(survivors(&caches[0]), (0..100).collect::<Vec<_>>());
}

#[test]
fn memory_left_gives_the_level() {
    let level = PressureLevel::from_mem_available;
    assert_eq!(level(256, 256), PressureLevel::Normal);
    assert_eq!(level(255, 256), PressureLevel::Warning);
    assert_eq!(level(128, 256), PressureLevel::Warning);
    assert_eq!(level(127, 256), PressureLevel::Critical);
    assert_eq!(level(64, 256), PressureLevel::Critical);
    assert_eq!(level(63, 256), PressureLevel::Emergency);
    assert_eq!(level(0, 0), PressureLevel::Normal);

    let stats = Ok(MemoryStats { total: 1000, available: 300, free: 10 });
    assert_eq!(decide_run(stats, 256, false), None);
    assert_eq!(decide_run(stats, 301, false), Some((PressureLevel::Warning, 300)));
    assert_eq!(decide_run(stats, 256, true), Some((PressureLevel::Emergency, 300)));
    assert_eq!(decide_run(Err(MonitorError), 256, false), None);
}

#[test]
fn a_share_is_brought_into_range() {
    let clamp = |x: f32| clamp_bits(x.to_bits(), MIN_RATIO, MAX_RATIO);
    assert_eq!(clamp(0.0), 0.1f32.to_bits());
    assert_eq!(clamp(-3.0), 0.1f32.to_bits());
    assert_eq!(clamp(0.5), 0.5f32.to_bits());
    assert_eq!(clamp(1.0), 0.99f32.to_bits());
    assert_eq!(clamp(f32::INFINITY), 0.99f32.to_bits());
    assert_eq!(clamp(f32::NEG_INFINITY), 0.1f32.to_bits());
    assert!(f32::from_bits(clamp(f32::NAN)).is_nan());
}

#[test]
fn handlers_answers_add_up() {
    let caches = make_caches(1, 30);
    let evicted = |tokens_removed, new_pos| ActionResult::Evicted { tokens_removed, new_pos };
    assert_eq!(
        pipeline_results_to_eviction_result(
            &vec![evicted(70, 30), ActionResult::NoOp, evicted(5, 25), ActionResult::Acted],
            &caches
        ),
        EvictionResult { evicted: true, tokens_removed: 75, new_pos: 25 }
    );
    assert_eq!(
        pipeline_results_to_eviction_result(&vec![ActionResult::NoOp], &caches),
        EvictionResult { evicted: false, tokens_removed: 0, new_pos: 30 }
    );
}

fn accumulator(active: bool, layer_flat: Option<Vec<u32>>) -> AttentionScoreAccumulator {
    AttentionScoreAccumulator {
        active,
        importance: vec![1, 2, 3],
        head_importance: vec![4, 5, 6],
        last_step_head_attn: Some(vec![7]),
        layer_flat,
    }
}

#[test]
fn scores_come_out_of_the_accumulator() {
    assert!(extract_scores(&accumulator(false, None)).is_none());
    let flat = extract_scores(&accumulator(true, None)).unwrap();
    assert_eq!(flat.as_args(), (Some(&vec![1, 2, 3]), Some(&vec![7]), None));
    let apart = extract_scores(&accumulator(true, Some(vec![9; 6]))).unwrap();
    assert_eq!(apart.as_args().2, Some((&vec![9; 6], 3)));
}

#[test]
fn device_scores_replace_the_accumulators() {
    let device = |active: bool| {
        Some(DeviceScores {
            active,
            collapsed: Some((vec![10], vec![20])),
            layer_flat: Some(vec![30]),
        })
    };
    let mut acc = accumulator(true, Some(vec![9]));
    sync_gpu_scores_to_cpu(&mut acc, device(true));
    assert_eq!(
        (acc.importance, acc.head_importance, acc.layer_flat),
        (vec![10], vec![20], Some(vec![30]))
    );
    let mut collapsed = accumulator(true, None);
    sync_gpu_scores_to_cpu(&mut collapsed, device(true));
    assert_eq!((collapsed.importance, collapsed.layer_flat), (vec![10], None));
    let mut asleep = accumulator(false, None);
    sync_gpu_scores_to_cpu(&mut asleep, device(true));
    assert_eq!(asleep.importance, vec![1, 2, 3]);
    let mut alone = accumulator(true, None);
    sync_gpu_scores_to_cpu(&mut alone, None);
    sync_gpu_scores_to_cpu(&mut alone, device(false));
    assert_eq!(alone.importance, vec![1, 2, 3]);

    assert!(reset_gpu_layer_flat(&accumulator(true, Some(vec![9])), Some(true)));
    assert!(!reset_gpu_layer_flat(&accumulator(true, None), Some(true)));
    assert!(!reset_gpu_layer_flat(&accumulator(true, Some(vec![9])), Some(false)));
    assert!(!reset_gpu_layer_flat(&accumulator(true, Some(vec![9])), None));
}

#[test]
fn scores_are_routed_to_the_eviction() {
    let max_seq = 200;
    let mut layer_flat = vec![0.0f32; 2 * max_seq];
    layer_flat[30] = 10.0;
    layer_flat[max_seq + 60] = 20.0;
    let layer_flat = bits(&layer_flat);
    let mut flat = vec![0.0f32; max_seq];
    flat[40] = 1.0;
    let flat = bits(&flat);
    let cm = manager(h2o(1, 2, 0), left(1024 * MB), 256 * MB, 0.03);
    let run = |scores, per_layer, force| {
        let mut caches = make_pos_caches(2, 100, max_seq);
        let ratio = 0.03f32.to_bits();
        let r = route_evict(&cm, &mut caches, &mut off(), scores, None, per_layer, force, ratio)
            .unwrap();
        (r.evicted, survivors(&caches[0]), survivors(&caches[1]))
    };
    assert_eq!(
        run(Some(&flat), Some((&layer_flat, max_seq)), true),
        (true, vec![30, 98, 99], vec![60, 98, 99])
    );
    assert_eq!(run(Some(&flat), None, true), (true, vec![40, 98, 99], vec![40, 98, 99]));
    assert_eq!(run(None, None, true), (true, vec![0, 98, 99], vec![0, 98, 99]));
    assert!(!run(Some(&flat), None, false).0);
}

#[test]
fn evicted_positions_are_recorded() {
    let cm = manager(sliding(0, 2), left(0), 256 * MB, 0.3);
    let mut caches = make_caches(2, 100);
    let mut recorder = off();
    recorder.arm_capture();
    cm.maybe_evict(&mut caches, &mut recorder).unwrap();
    let captured = recorder.drain_capture();
    assert_eq!(captured.len(), 2);
    let kept: Vec<usize> = (0..2).chain(72..100).collect();
    for (layer, c) in captured.iter().enumerate() {
        assert_eq!((c.layer_idx, c.seq_len, c.n_kv_heads), (layer, 100, 1));
        assert_eq!(c.keep, vec![kept.clone()]);
    }
}

#[test]
fn an_eviction_far_from_its_target_is_noticed() {
    assert_eq!(
        undershoot(100, 20, 39),
        Some(Undershoot { removed: 39, expected: 80, percent: 48 })
    );
    assert_eq!(undershoot(100, 20, 40), None);
    assert_eq!(undershoot(20, 20, 0), None);
    assert_eq!(undershoot(21, 20, 0), None);
    assert_eq!(
        undershoot(usize::MAX, 0, usize::MAX / 4).map(|u| u.percent),
        Some(24)
    );
}

/// Keeps, of every head, the position it scores highest; knows nothing without heads' scores.
struct HeadScored;

impl EvictionPolicy for HeadScored {
    fn should_evict(&self, _cache: &KVCache, _mem_available: usize) -> bool {
        false
    }

    fn evict(&self, _cache: &KVCache, _target_len: usize) -> Result<StagePlan, EvictError> {
        Err(EvictError::Policy("no plan".to_owned()))
    }

    fn name(&self) -> String {
        "head_scored".to_string()
    }

    fn evict_with_head_scores(
        &self,
        cache: &KVCache,
        _target_len: usize,
        _flat_importance: &Vec<u32>,
        head_importance: &Vec<u32>,
        n_kv_heads: usize,
        _layer_idx: usize,
        _n_layers: usize,
    ) -> Result<StagePlan, EvictError> {
        let n = cache.current_pos();
        let heads = (0..n_kv_heads)
            .map(|h| vec![(0..n).max_by_key(|p| head_importance[h * n + p]).unwrap()])
            .collect();
        Ok(StagePlan { keep: Some(KeepSpec::PerHead(heads)), merges: Vec::new() })
    }
}

#[test]
fn heads_scores_reach_the_policy() {
    let layer = || {
        let mut c = cache_in(KVLayout::HeadMajor, 2, 4, 100);
        for p in 0..100 {
            for h in 0..2 {
                let row: Vec<u8> =
                    (0..4).flat_map(|_| ((1000 * h + p) as f32).to_le_bytes()).collect();
                c.write_row(Side::Key, p, h, &row);
            }
        }
        c.set_current_pos(100);
        vec![c]
    };
    let flat = vec![0u32; 100];
    let mut head = vec![0u32; 200];
    head[17] = 1;
    head[142] = 1;
    let manager = |monitor| {
        CacheManager::new(HeadScored, Rows, Floats, monitor, 256 * MB, 0.3f32.to_bits())
    };

    let mut caches = layer();
    let r = manager(left(0)).maybe_evict_with_head_scores(&mut caches, &mut off(), &flat, &head, 2);
    assert_eq!(r, Ok(EvictionResult { evicted: true, tokens_removed: 99, new_pos: 1 }));
    assert_eq!(key_element(&caches[0], 0, 0, 0), 17.0);
    assert_eq!(key_element(&caches[0], 0, 1, 0), 1042.0);

    let mut forced = layer();
    let cm = manager(left(1024 * MB));
    let ratio = 0.3f32.to_bits();
    cm.force_evict_with_head_scores(&mut forced, &mut off(), ratio, &flat, &head, 2).unwrap();
    assert_eq!(forced[0].current_pos(), 1);

    let mut headless = layer();
    assert_eq!(
        cm.force_evict_with_head_scores(&mut headless, &mut off(), ratio, &flat, &head, 0),
        Err(EvictError::Policy("no plan".to_owned()))
    );
    assert_eq!(headless[0].current_pos(), 100);
}

#[test]
fn nothing_is_evicted_where_every_layer_is_spared() {
    let mut caches = make_caches(2, 100);
    let before: Vec<Vec<usize>> = caches.iter().map(survivors).collect();
    let run = |caches: &mut Vec<KVCache>, targets: &Vec<usize>| {
        run_policy_eviction(
            &sliding(0, 0),
            &Rows,
            caches,
            0,
            &ScoreContext::Unscored,
            Some(targets),
            None,
            &mut off(),
        )
        .unwrap()
    };
    assert_eq!(
        run(&mut caches, &vec![37, 200]),
        EvictionResult { evicted: false, tokens_removed: 0, new_pos: 100 }
    );
    assert_eq!(caches.iter().map(survivors).collect::<Vec<_>>(), before);
    assert_eq!(
        run(&mut caches, &vec![36, 200]),
        EvictionResult { evicted: true, tokens_removed: 0, new_pos: 100 }
    );
    assert_eq!((caches[0].current_pos(), caches[1].current_pos()), (36, 100));
}
