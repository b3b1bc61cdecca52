use argus_kv::cache_handle::EngineCacheHandle;
use argus_kv::codec::{RowCodec, RowFormat};
use argus_kv::descriptor::TensorKind;
use argus_kv::dtype::{DType, KVLayout};
use argus_kv::eviction::{EvictError, StagePlan};
use argus_kv::keep::KeepSpec;
use argus_kv::keepset_dump::KeepsetDump;
use argus_kv::kv_cache::{CacheShape, KVCache, Side};
use argus_kv::stage_registry::{
    engine_internal_caps, make_stage_backed_policy, none_backed_policy, sliding_backed_policy,
    validate_stage_constraints, EstimatorReg, KVMutationStage, PluginArg, RegistryFault, StageCaps,
    StageCtx, StageFactory, StageParams, StageReg, StageRegistry,
};

struct Rows;

impl RowCodec for Rows {
    fn recode(&self, row: &Vec<u8>, _from: RowFormat, _to: RowFormat) -> Vec<u8> {
        row.clone()
    }

    fn merge(
        &self,
        _format: RowFormat,
        into: &Vec<u8>,
        _into_weight: u32,
        _from: &Vec<Vec<u8>>,
        _weights: &Vec<u32>,
    ) -> Vec<u8> {
        into.clone()
    }
}

fn merge_caps() -> StageCaps {
    StageCaps {
        reads: vec![TensorKind::Scores],
        default_protected_prefix: 4,
        produces_merge_plan: true,
        whole_model: false,
    }
}

#[test]
fn merge_stage_requires_host_residency() {
    assert!(validate_stage_constraints(&merge_caps(), false).is_err());
    assert!(validate_stage_constraints(&merge_caps(), true).is_ok());
    assert!(validate_stage_constraints(&StageCaps::score_free(), false).is_ok());
    assert_eq!(
        validate_stage_constraints(&merge_caps(), false).unwrap_err(),
        "stage produces weighted merges but the cache is device-resident (the merge executor is \
         CPU-only); degrade to a keep-only plan or place KV on host"
    );
}

const PHD: usize = 32;

fn shape(on_device: bool, kv_heads: usize, head_dim: usize, capacity: usize) -> CacheShape {
    CacheShape {
        dtype: DType::F32,
        opaque: None,
        layout: KVLayout::SeqMajor,
        kv_heads,
        head_dim,
        capacity,
        max_seq_len: capacity,
        dynamic: false,
        on_device,
    }
}

/// A key turned by its position: pairs of elements, each by its own angle.
fn rotated_at(base: &[f32], p: usize) -> Vec<u8> {
    let half = base.len() / 2;
    let mut out = base.to_vec();
    for i in 0..half {
        let angle = p as f32 * 10_000.0f32.powf(-(2.0 * i as f32) / base.len() as f32);
        out[i] = base[i] * angle.cos() - base[i + half] * angle.sin();
        out[i + half] = base[i] * angle.sin() + base[i + half] * angle.cos();
    }
    out.iter().flat_map(|x| x.to_le_bytes()).collect()
}

#[test]
fn eviction_keeps_survivor_rope_phase_does_not_rerotate() {
    let base: Vec<f32> = (0..PHD).map(|d| d as f32 * 0.1 + 1.0).collect();
    let n = 8usize;
    let mut c = KVCache::new(shape(false, 1, PHD, 128)).unwrap();
    for p in 0..n {
        c.write_row(Side::Key, p, 0, &rotated_at(&base, p));
    }
    c.set_current_pos(n);
    let keep = vec![0usize, 3, 5, 7];
    {
        let mut h = EngineCacheHandle::new(&mut c, 0, 1);
        h.keep(&keep).unwrap();
        assert!(h.commit(&Rows, &mut KeepsetDump::new(false)).unwrap());
    }
    assert_eq!(c.current_pos(), keep.len());
    for (new_slot, &orig_pos) in keep.iter().enumerate() {
        let stored = c.read_row(Side::Key, new_slot, 0);
        assert_eq!(stored, rotated_at(&base, orig_pos));
        if new_slot != orig_pos {
            assert_ne!(stored, rotated_at(&base, new_slot));
        }
    }
}

#[test]
fn uma_buffer_is_on_device_across_v3_surfaces() {
    let mut cache = KVCache::new(shape(true, 2, 4, 8)).unwrap();
    cache.set_current_pos(4);
    let caps = StageCaps::score_free();
    let snap = StageCtx::of(&caps, &cache, 0, 1, 0, None, None, None);
    assert!(snap.kv_on_device);
    let h = EngineCacheHandle::new(&mut cache, 0, 1);
    assert!(h.kv_on_device());
}

fn reg(name: &str, caps: StageCaps) -> StageReg {
    StageReg { name: name.to_string(), caps }
}

fn curve(name: &str, key: &str) -> EstimatorReg {
    EstimatorReg { name: name.to_string(), curve_key: key.to_string() }
}

fn registry() -> StageRegistry {
    StageRegistry {
        stages: vec![
            reg("none", StageCaps::score_free()),
            reg("sliding", StageCaps::score_free()),
            reg("streaming", StageCaps::score_free()),
            reg(
                "h2o",
                StageCaps {
                    reads: vec![TensorKind::Scores],
                    default_protected_prefix: 4,
                    produces_merge_plan: false,
                    whole_model: false,
                },
            ),
            reg("d2o", merge_caps()),
            reg(
                "pyramidkv",
                StageCaps {
                    reads: vec![TensorKind::PrefillAttention],
                    default_protected_prefix: 0,
                    produces_merge_plan: false,
                    whole_model: false,
                },
            ),
        ],
        estimators: vec![
            curve("sliding", "kv.evict_sliding"),
            curve("streaming", "kv.evict_streaming"),
            curve("h2o", "kv.evict_h2o"),
            curve("d2o", "kv.merge_d2o"),
        ],
    }
}

#[test]
fn stages_are_known_by_their_names() {
    let r = registry();
    assert!(r.stage_is_score_based("h2o"));
    assert!(!r.stage_is_score_based("sliding"));
    assert!(!r.stage_is_score_based("nobody"));
    assert_eq!(r.stage_default_protected_prefix("d2o"), 4);
    assert_eq!(r.stage_default_protected_prefix("nobody"), 0);
    assert!(r.stage_produces_merge_plan("d2o"));
    assert!(!r.stage_produces_merge_plan("h2o"));
    assert_eq!(r.find_prefill_attn_stage_name(), Some("pyramidkv".to_string()));
    assert!(r.mutation_stage_caps("nobody").is_none());
    let inner = engine_internal_caps("h2o_plus").unwrap();
    assert_eq!((inner.reads, inner.default_protected_prefix), (vec![TensorKind::Scores], 4));
    assert!(engine_internal_caps("h2o").is_none());
}

#[test]
fn the_first_fault_of_a_registry_is_reported_in_words() {
    assert!(registry().ensure_builtin_stages_registered().is_ok());

    let mut r = registry();
    r.stages.remove(2);
    r.estimators.clear();
    let fault = r.ensure_builtin_stages_registered().unwrap_err();
    assert!(matches!(&fault, RegistryFault::StageMissing(n) if n == "streaming"));
    assert!(fault.message().starts_with("built-in KV mutation stage 'streaming' not registered"));

    let mut r = registry();
    r.estimators.remove(3);
    let fault = r.ensure_builtin_stages_registered().unwrap_err();
    assert!(matches!(&fault, RegistryFault::EstimatorMissing(n) if n == "d2o"));
    assert_eq!(
        fault.message(),
        "QCF estimator 'd2o' not registered — suspect linkme fat-LTO --gc-sections silent drop of \
         its QCF_ESTIMATORS registration."
    );

    let mut r = registry();
    r.estimators[2] = curve("h2o", "kv.evict_sliding");
    assert_eq!(
        r.ensure_builtin_stages_registered().unwrap_err().message(),
        "QCF estimator 'h2o' declares curve_key='kv.evict_sliding' but the engine expects \
         'kv.evict_h2o'."
    );
}

struct Named {
    name: String,
    params: StageParams,
    args: usize,
}

impl KVMutationStage for Named {
    fn name(&self) -> String {
        self.name.clone()
    }

    fn plan(&self, _ctx: &StageCtx) -> Result<StagePlan, EvictError> {
        Ok(StagePlan { keep: Some(KeepSpec::LayerWide(vec![0])), merges: Vec::new() })
    }
}

struct Factory;

impl StageFactory<Named> for Factory {
    fn make(&self, name: &str, params: &StageParams, args: &Vec<PluginArg>) -> Named {
        Named { name: name.to_string(), params: *params, args: args.len() }
    }
}

#[test]
fn a_policy_is_made_of_the_named_stage() {
    let r = registry();
    let sliding = sliding_backed_policy(&r, &Factory, 12, 3).unwrap();
    assert_eq!(sliding.stage.name, "sliding");
    assert_eq!(
        (sliding.stage.params.eviction_window, sliding.stage.params.protected_prefix),
        (12, 3)
    );
    assert_eq!(sliding.stage.args, 0);
    let none = none_backed_policy(&r, &Factory).unwrap();
    assert_eq!(none.stage.name, "none");
    let d2o =
        make_stage_backed_policy(&r, &Factory, "d2o", &none.stage.params, &Vec::new()).unwrap();
    assert!(d2o.caps.produces_merge_plan);
    assert!(make_stage_backed_policy(&r, &Factory, "nobody", &none.stage.params, &Vec::new())
        .is_none());
}
