use argus_kv::dtype::{DType, KVLayout};
use argus_kv::format_apply::{apply_format_plan, FormatApplyError, FormatId, FormatOverride,
    KVFormatPlan};
use argus_kv::keep::KeepSpec;
use argus_kv::kv_cache::{CacheShape, KVCache};
use argus_kv::merge::MergeAxis;

fn cache_f16(resident: usize) -> KVCache {
    let mut c = KVCache::new(CacheShape {
        dtype: DType::F16,
        opaque: None,
        layout: KVLayout::SeqMajor,
        kv_heads: 2,
        head_dim: 4,
        capacity: 32,
        max_seq_len: 32,
        dynamic: false,
        on_device: false,
    })
    .unwrap();
    c.set_current_pos(resident);
    c
}

fn id(name: &str) -> FormatId {
    FormatId(name.to_string())
}

fn plan(base: &str, region: Option<(KeepSpec, &str)>) -> KVFormatPlan {
    let overrides = match region {
        Some((region, name)) => {
            vec![FormatOverride { region, format: id(name), side: MergeAxis::Both }]
        }
        None => vec![],
    };
    KVFormatPlan { base: id(base), overrides }
}

#[test]
fn apply_format_plan_gate0_noop_ok() {
    assert_eq!(apply_format_plan(&cache_f16(8), &plan("f16", None), 0, 1), Ok(()));
}

#[test]
fn apply_format_plan_per_token_subset_rejected() {
    let p = plan("q2", Some((KeepSpec::LayerWide(vec![2, 3]), "f16")));
    assert_eq!(
        apply_format_plan(&cache_f16(8), &p, 0, 1),
        Err(FormatApplyError::HeterogeneousUnsupported)
    );
}

#[test]
fn apply_format_plan_per_head_rejected() {
    let p = plan("q2", Some((KeepSpec::PerHead(vec![vec![], vec![2]]), "f16")));
    assert_eq!(
        apply_format_plan(&cache_f16(8), &p, 0, 1),
        Err(FormatApplyError::HeterogeneousUnsupported)
    );
}

#[test]
fn apply_format_plan_uniform_reencode_not_wired() {
    let p = plan("f16", Some((KeepSpec::LayerWide(vec![0, 1, 2, 3]), "q4_0")));
    assert_eq!(
        apply_format_plan(&cache_f16(4), &p, 0, 1),
        Err(FormatApplyError::UniformReencodeNotWired)
    );
}

#[test]
fn apply_format_plan_bare_base_change_reports_not_wired_not_silent_noop() {
    assert_eq!(
        apply_format_plan(&cache_f16(8), &plan("q4_0", None), 0, 1),
        Err(FormatApplyError::UniformReencodeNotWired)
    );
}

#[test]
fn every_refusal_has_its_words() {
    assert_eq!(
        FormatApplyError::UniformReencodeNotWired.message(),
        "uniform-per-layer precision change is well-formed but per-layer re-encode is not yet \
         wired (L1, deferred)"
    );
    assert_eq!(
        FormatApplyError::UnsupportedFormat("q9".to_string()).message(),
        "KVFormatPlan names a format the backend cannot decode: q9"
    );
    assert!(FormatApplyError::HeterogeneousUnsupported.message().contains("per-head or per-token"));
}
