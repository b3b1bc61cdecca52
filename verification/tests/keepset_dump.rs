use argus_kv::dtype::{DType, KVLayout};
use argus_kv::keep::KeepSpec;
use argus_kv::keepset_dump::{build_json, dump_text, CapturedKeepSet, DumpState, KeepsetDump};
use argus_kv::kv_cache::{CacheShape, KVCache};
use serde_json::Value;

fn list(v: &[usize]) -> Value {
    Value::from(v)
}

fn sample() -> DumpState {
    let mut st = DumpState::new(2, 2, 5);
    st.insert(0, vec![vec![0, 1, 4], vec![0, 1, 4]]);
    st.insert(1, vec![vec![0, 2], vec![0, 3, 4]]);
    st
}

#[test]
fn build_json_matches_harness_schema() {
    let st = sample();
    let v = build_json(&st);
    assert_eq!(v["n_layers"], 2);
    assert_eq!(v["n_kv_heads"], 2);
    assert_eq!(v["seq_len"], 5);
    assert_eq!(v["keep"]["0"]["0"], list(&[0, 1, 4]));
    assert_eq!(v["keep"]["0"]["1"], list(&[0, 1, 4]));
    assert_eq!(v["keep"]["1"]["0"], list(&[0, 2]));
    assert_eq!(v["keep"]["1"]["1"], list(&[0, 3, 4]));
    assert_eq!(
        serde_json::to_string(&build_json(&st)).unwrap(),
        serde_json::to_string(&v).unwrap()
    );
}

#[test]
fn a_snapshot_is_written_on_one_line_with_its_keys_in_order() {
    assert_eq!(
        dump_text(&sample()).unwrap(),
        "{\"keep\":{\"0\":{\"0\":[0,1,4],\"1\":[0,1,4]},\"1\":{\"0\":[0,2],\"1\":[0,3,4]}},\
         \"n_kv_heads\":2,\"n_layers\":2,\"seq_len\":5}"
    );
    let mut st = DumpState::new(12, 1, 3);
    st.insert(11, vec![vec![7]]);
    st.insert(11, vec![vec![2]]);
    assert_eq!(
        dump_text(&st).unwrap(),
        "{\"keep\":{\"11\":{\"0\":[2]}},\"n_kv_heads\":1,\"n_layers\":12,\"seq_len\":3}"
    );
}

fn cache(resident: usize) -> KVCache {
    let mut c = KVCache::new(CacheShape {
        dtype: DType::F32,
        opaque: None,
        layout: KVLayout::SeqMajor,
        kv_heads: 2,
        head_dim: 4,
        capacity: 8,
        max_seq_len: 8,
        dynamic: false,
        on_device: false,
    })
    .unwrap();
    c.set_current_pos(resident);
    c
}

#[test]
fn in_memory_capture_is_arm_gated() {
    let c = cache(7);
    let keep = KeepSpec::LayerWide(vec![0, 1, 6]);
    let mine =
        |c: &CapturedKeepSet| c.seq_len == 7 && c.keep == vec![vec![0, 1, 6], vec![0, 1, 6]];
    let mut rec = KeepsetDump::new(false);
    rec.disarm_capture();
    rec.record(&c, &keep, 0, 2);
    assert_eq!(rec.drain_capture().iter().filter(|c| mine(c)).count(), 0);

    rec.arm_capture();
    rec.record(&c, &keep, 0, 2);
    rec.record(&c, &keep, 1, 2);
    let ours: Vec<_> = rec.drain_capture().into_iter().filter(mine).collect();
    assert_eq!(ours.len(), 2);
    assert_eq!(ours[0].n_kv_heads, 2);
    assert_eq!(ours[0].keep, vec![vec![0, 1, 6], vec![0, 1, 6]]);

    rec.record(&c, &keep, 0, 2);
    assert_eq!(rec.drain_capture().iter().filter(|c| mine(c)).count(), 0);
}

#[test]
fn a_recorder_for_a_file_keeps_the_last_keep_of_every_layer() {
    let mut rec = KeepsetDump::new(true);
    assert!(rec.is_active());
    assert!(!KeepsetDump::new(false).is_active());
    rec.record(&cache(7), &KeepSpec::PerHead(vec![vec![0], vec![1, 2]]), 1, 2);
    rec.record(&cache(6), &KeepSpec::LayerWide(vec![3]), 1, 2);
    assert_eq!(
        dump_text(rec.state()).unwrap(),
        "{\"keep\":{\"1\":{\"0\":[3],\"1\":[3]}},\"n_kv_heads\":2,\"n_layers\":2,\"seq_len\":6}"
    );
}
