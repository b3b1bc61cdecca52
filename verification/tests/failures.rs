use argus_kv::attention::{AttnDims, PrefillDims};
use argus_kv::cache_handle::{CacheOpError, EngineCacheHandle};
use argus_kv::codec::{RowCodec, RowFormat};
use argus_kv::dequant::{dequantize_k, dequantize_v};
use argus_kv::dtype::{DType, KVLayout};
use argus_kv::eviction::EvictError;
use argus_kv::format_apply::FormatId;
use argus_kv::keep_sets::KeepError;
use argus_kv::keepset_dump::KeepsetDump;
use argus_kv::kv_cache::{CacheShape, KVCache, KvError, Side, Tensor};
use argus_kv::merge::{apply_weighted_merges, MergeAxis, WeightedMerge};
use argus_kv::operands::host_operands;
use argus_kv::prefill::{prefill_attention, PrefillPlace, PrefillWork};
use argus_kv::selector_plan::Exclusion;
use argus_kv::selective_read::gather_selected_kv;
use argus_kv::standard_format::{BackendCaps, StandardFormat};
use argus_kv::text::decimal_text;

const HEADS: usize = 2;
const DIM: usize = 2;

/// Halves every element's bytes or doubles them, and chokes on a row that starts with a marked byte.
struct Choking(u8);

impl RowCodec for Choking {
    fn recode(&self, row: &Vec<u8>, _from: RowFormat, to: RowFormat) -> Vec<u8> {
        if row.first() == Some(&self.0) {
            return Vec::new();
        }
        let bytes = if to.dtype == DType::F32 { 4 } else { 2 };
        vec![row.first().copied().unwrap_or(0); to.head_dim * bytes]
    }

    fn merge(
        &self,
        _format: RowFormat,
        into: &Vec<u8>,
        _into_weight: u32,
        from: &Vec<Vec<u8>>,
        _weights: &Vec<u32>,
    ) -> Vec<u8> {
        if from.iter().any(|r| r.first() == Some(&self.0)) {
            return Vec::new();
        }
        vec![from[0][0]; into.len()]
    }
}

fn shape(dtype: DType) -> CacheShape {
    CacheShape {
        dtype,
        opaque: None,
        layout: KVLayout::HeadMajor,
        kv_heads: HEADS,
        head_dim: DIM,
        capacity: 8,
        max_seq_len: 8,
        dynamic: true,
        on_device: false,
    }
}

/// Row `(p, h)` of a side is filled with one byte.
fn mark(side: Side, p: usize, h: usize) -> u8 {
    (if side == Side::Key { 10 } else { 110 }) + (10 * h + p) as u8
}

fn filled(dtype: DType, tokens: usize) -> KVCache {
    let width = if dtype == DType::F32 { 4 } else { 2 } * DIM;
    let mut c = KVCache::new(shape(dtype)).unwrap();
    for p in 0..tokens {
        for h in 0..HEADS {
            for side in [Side::Key, Side::Value] {
                c.write_row(side, p, h, &vec![mark(side, p, h); width]);
            }
        }
    }
    c.set_current_pos(tokens);
    c
}

fn marks(c: &KVCache, side: Side, h: usize) -> Vec<u8> {
    (0..c.current_pos()).map(|p| c.read_row(side, p, h)[0]).collect()
}

fn tensor(first: &[u8]) -> Tensor {
    let data: Vec<u8> = first.iter().flat_map(|&b| vec![b; DIM * 4]).collect();
    Tensor::new(DType::F32, first.len() / HEADS, HEADS, DIM, data).unwrap()
}

fn caps(is_gpu: bool) -> BackendCaps {
    BackendCaps {
        is_gpu,
        kv_scatter_batch: true,
        kv_scatter_f32_batch: true,
        opaque_q2_dequant: false,
        nosub_device: false,
    }
}

#[test]
fn a_write_fails_by_its_own_rows_only() {
    let mut fmt = StandardFormat::new(0, filled(DType::F16, 2));
    let good = tensor(&[1, 2, 3, 4]);
    for bad in [&tensor(&[1, 2, 3, 9]), &tensor(&[9, 2, 3, 4])] {
        let r = fmt.write_kv_batch(&good, bad, &Choking(9), &caps(false));
        assert_eq!(r, Err(KvError::CodecShape));
        assert_eq!(fmt.current_pos(), 2);
    }
    assert_eq!(fmt.write_kv_batch(&good, &good, &Choking(9), &caps(false)), Ok(()));
    assert_eq!(marks(fmt.plan_lock(), Side::Key, 1), [20, 21, 2, 4]);
}

#[test]
fn a_fused_decode_step_takes_the_first_token() {
    for dtype in [DType::F16, DType::F32] {
        let mut fmt = StandardFormat::new(0, filled(dtype, 2));
        let two = tensor(&[1, 2, 9, 9]);
        assert_eq!(fmt.write_kv(&two, &two, &Choking(9), &caps(true)), Ok(()));
        assert_eq!(fmt.current_pos(), 3);
        assert_eq!(marks(fmt.plan_lock(), Side::Value, 1), [120, 121, 2]);
        let none = tensor(&[]);
        let r = fmt.write_kv(&none, &none, &Choking(9), &caps(true));
        assert_eq!(r, Err(KvError::ShapeMismatch));
    }
}

#[test]
fn merges_stop_where_a_blend_has_another_width() {
    let merge = |into, from| WeightedMerge {
        into,
        into_weight: 0,
        from: vec![(from, 0)],
        apply_to: MergeAxis::Both,
    };
    let mut c = filled(DType::F32, 4);
    let bad = mark(Side::Value, 3, 1);
    let r = apply_weighted_merges(&mut c, &Choking(bad), &vec![merge(0, 1), merge(2, 3), merge(1, 0)]);
    assert_eq!(r, Err(KvError::CodecShape));
    assert_eq!(marks(&c, Side::Key, 0), [11, 11, 13, 13]);
    assert_eq!(marks(&c, Side::Key, 1), [21, 21, 23, 23]);
    assert_eq!(marks(&c, Side::Value, 0), [111, 111, 113, 113]);
    assert_eq!(marks(&c, Side::Value, 1), [121, 121, 122, 123]);
}

#[test]
fn reads_fail_by_the_rows_they_read() {
    let c = filled(DType::F16, 4);
    let bad = Choking(mark(Side::Value, 2, 1));
    assert!(gather_selected_kv(&c, &bad, &vec![0, 1, 3]).is_ok());
    let r = gather_selected_kv(&c, &bad, &vec![0, 2]);
    assert_eq!(r.err(), Some(KvError::CodecShape));
    assert_eq!(host_operands(&c, &bad).err(), Some(KvError::CodecShape));
    let mut out = vec![7u8; DIM * 4];
    assert!(dequantize_k(&c, 2, 1, &bad, &mut out));
    assert_eq!(out, vec![mark(Side::Key, 2, 1); DIM * 4]);
    assert!(!dequantize_v(&c, 2, 1, &bad, &mut out));
    assert_eq!(out, vec![mark(Side::Key, 2, 1); DIM * 4]);
}

#[test]
fn an_opaque_store_leaves_any_buffer_alone() {
    let bytes = KVCache::new(shape(DType::U8)).unwrap();
    let mut out = Vec::new();
    assert!(!dequantize_k(&bytes, 0, 0, &Choking(9), &mut out));
    assert!(!dequantize_v(&bytes, 0, 0, &Choking(9), &mut out));
    assert!(out.is_empty());
}

#[test]
fn a_failed_re_encode_leaves_the_layer() {
    let mut c = filled(DType::F32, 3);
    let mut h = EngineCacheHandle::new(&mut c, 0, 1);
    assert_eq!(h.reencode(FormatId("f16".to_owned())), Ok(()));
    assert_eq!(h.keep(&vec![0]), Ok(()));
    let bad = Choking(mark(Side::Key, 1, 0));
    assert_eq!(h.commit(&bad, &mut KeepsetDump::new(false)), Err(KvError::CodecShape));
    assert_eq!((c.kv_dtype(), c.current_pos()), (DType::F32, 3));
    assert_eq!(marks(&c, Side::Key, 0), [10, 11, 12]);
}

#[test]
fn equal_lists_for_every_head_commit_as_one_list() {
    let commit = |per_head: bool| {
        let mut c = filled(DType::F32, 5);
        let mut h = EngineCacheHandle::new(&mut c, 0, 1);
        if per_head {
            h.keep_per_head(&vec![vec![1, 4]; HEADS]).unwrap();
        } else {
            h.keep(&vec![1, 4]).unwrap();
        }
        h.commit(&Choking(0), &mut KeepsetDump::new(false)).unwrap();
        assert!(!c.is_ragged());
        (c.current_pos(), c.k_bytes().clone(), c.v_bytes().clone())
    };
    assert_eq!(commit(true), commit(false));
    assert_eq!(commit(true).0, 2);
}

#[test]
fn a_batch_is_stored_as_its_tokens_are() {
    let mut batch = StandardFormat::new(0, filled(DType::F16, 1));
    let mut singly = StandardFormat::new(0, filled(DType::F16, 1));
    let all = tensor(&[1, 2, 3, 4, 5, 6]);
    batch.write_kv_batch(&all, &all, &Choking(9), &caps(false)).unwrap();
    for t in [[1, 2], [3, 4], [5, 6]] {
        let one = tensor(&t);
        singly.write_kv(&one, &one, &Choking(9), &caps(false)).unwrap();
    }
    assert_eq!(batch.plan_lock().k_bytes(), singly.plan_lock().k_bytes());
    assert_eq!(batch.plan_lock().v_bytes(), singly.plan_lock().v_bytes());
    assert_eq!(batch.current_pos(), singly.current_pos());
}

#[test]
fn a_layer_without_heads_has_an_empty_snapshot() {
    let headless = || KVCache::new(CacheShape { kv_heads: 0, ..shape(DType::F32) }).unwrap();
    let mut c = headless();
    c.set_current_pos(3);
    let bytes = StandardFormat::new(0, c).snapshot_prefix(3).unwrap();
    assert!(bytes.is_empty());
    let mut other = StandardFormat::new(0, headless());
    assert_eq!(other.restore_prefix(&bytes, 3), Ok(()));
    assert_eq!(other.current_pos(), 3);
    assert_eq!(other.snapshot_prefix(3), Ok(bytes));
}

#[test]
fn a_prefill_has_the_layers_dimensions_whatever_scores_are_wanted() {
    let fmt = StandardFormat::new(0, filled(DType::F32, 5));
    let d = fmt.prefill_dims(3, 2, AttnDims { n_heads_q: 4, window: Some(2) });
    assert_eq!(
        d,
        PrefillDims {
            n_heads_q: 4,
            n_heads_kv: HEADS,
            head_dim: DIM,
            seq_len: 3,
            cache_seq_len: 5,
            kv_capacity: 8,
            batch_size: 2,
            layout: KVLayout::HeadMajor,
            q_start_pos: 2,
            window: Some(2),
        }
    );
    let place = PrefillPlace {
        caps: caps(false),
        kv_on_device: false,
        query_on_device: false,
        dtype: DType::F32,
    };
    let plan = |window| match prefill_attention(&d, &place, false, window) {
        PrefillWork::Host(work) => work,
        PrefillWork::Done => panic!("no device"),
    };
    let (bare, scored) = (plan(None), plan(Some(2)));
    assert_eq!(bare.source, scored.source);
    assert_eq!(bare.strides, scored.strides);
    assert_eq!(bare.batches, scored.batches);
    assert_eq!(bare.write_back, scored.write_back);
    assert!(bare.scores.is_none());
    let rows = scored.scores.unwrap();
    assert_eq!(rows.len(), 8);
    assert_eq!((rows[1].low, rows[1].high), (3, 4));
}

#[test]
fn numbers_are_written_in_decimal() {
    for n in [0, 7, 10, 99, 100, 12_345, usize::MAX] {
        assert_eq!(decimal_text(n), n.to_string());
    }
}

#[test]
fn an_exclusion_carries_the_error_in_words() {
    let policy = Exclusion::Stage(EvictError::Policy("out of scratch memory".to_owned()));
    assert_eq!(policy.message(), "out of scratch memory");
    let refused = Exclusion::Stage(EvictError::Refused(CacheOpError::InvalidMerge));
    assert_eq!(refused.message(), "a merge names a position outside the frame");
    let failed = Exclusion::Stage(EvictError::Failed(KvError::CodecShape));
    assert_eq!(failed.message(), "the row coder returned a row of another width");
    let past = Exclusion::Invalid(KeepError::OutOfRange { layer: 1, kv_head: 0, pos: 12 });
    assert_eq!(past.message(), "layer 1, KV head 0: position 12 is outside the resident cache");
    let format = EvictError::Refused(CacheOpError::UnsupportedFormat("q9".to_owned()));
    assert_eq!(format.message(), "unsupported format: q9");
    assert_eq!(EvictError::NotUniform.message(), "the layers have different lengths");
}

#[test]
fn rows_of_packed_bytes_have_no_snapshot() {
    let mut c = KVCache::new(shape(DType::U8)).unwrap();
    c.set_current_pos(2);
    let fmt = StandardFormat::new(0, c);
    assert_eq!(fmt.snapshot_prefix(2), Err(KvError::UnsupportedDType));
    let mut empty = StandardFormat::new(0, KVCache::new(shape(DType::U8)).unwrap());
    assert_eq!(empty.restore_prefix(&vec![0; 16], 2), Err(KvError::UnsupportedDType));
    assert_eq!(empty.current_pos(), 0);
}

#[test]
fn a_batch_of_no_tokens_leaves_the_rows() {
    let none = tensor(&[]);
    for dtype in [DType::F16, DType::F32] {
        let mut fmt = StandardFormat::new(0, filled(dtype, 2));
        assert_eq!(fmt.write_kv_batch(&none, &none, &Choking(9), &caps(false)), Ok(()));
        assert_eq!(fmt.current_pos(), 2);
        assert_eq!(fmt.plan_lock().k_bytes(), filled(dtype, 2).k_bytes());
    }
}
