use argus_kv::cache_handle::{CacheOpError, EngineCacheHandle};
use argus_kv::codec::{RowCodec, RowFormat};
use argus_kv::dtype::{DType, KVLayout, KVLayoutDesc, Packing, ScaleLayout};
use argus_kv::format_apply::FormatId;
use argus_kv::keep::KeepTopK;
use argus_kv::keepset_dump::KeepsetDump;
use argus_kv::kv_cache::{CacheShape, KVCache, Side};
use argus_kv::merge::{MergeAxis, WeightedMerge};
use argus_kv::score_bits::order_of;
use argus_kv::swap::SwapHandler;
use half::f16;

/// Single and half precision, and four-bit blocks of 32 elements: a half-precision scale, then two
/// elements per byte.
struct FloatRows;

const QK: usize = 32;

fn q4_encode(x: &[f32]) -> Vec<u8> {
    let mut out: Vec<u8> = Vec::new();
    for block in x.chunks(QK) {
        let mut max = 0.0f32;
        let mut amax = 0.0f32;
        for &v in block {
            if v.abs() > amax {
                amax = v.abs();
                max = v;
            }
        }
        let d = max / -8.0;
        let id = if d != 0.0 { 1.0 / d } else { 0.0 };
        out.extend_from_slice(&f16::from_f32(d).to_le_bytes());
        for i in 0..QK / 2 {
            let lo = ((block[i] * id + 8.5) as i32).clamp(0, 15) as u8;
            let hi = ((block[i + QK / 2] * id + 8.5) as i32).clamp(0, 15) as u8;
            out.push(lo | (hi << 4));
        }
    }
    out
}

fn q4_decode(bytes: &[u8]) -> Vec<f32> {
    let mut out: Vec<f32> = Vec::new();
    for block in bytes.chunks(18) {
        let d = f16::from_le_bytes([block[0], block[1]]).to_f32();
        for i in 0..QK / 2 {
            out.push(((block[2 + i] & 15) as f32 - 8.0) * d);
        }
        for i in 0..QK / 2 {
            out.push(((block[2 + i] >> 4) as f32 - 8.0) * d);
        }
    }
    out
}

fn decode(row: &[u8], dtype: DType) -> Vec<f32> {
    match dtype {
        DType::F32 => row
            .chunks(4)
            .map(|b| f32::from_le_bytes([b[0], b[1], b[2], b[3]]))
            .collect(),
        DType::F16 => row
            .chunks(2)
            .map(|b| f16::from_le_bytes([b[0], b[1]]).to_f32())
            .collect(),
        DType::Q4_0 => q4_decode(row),
        DType::U8 => q4_decode(row),
    }
}

fn encode(x: &[f32], dtype: DType) -> Vec<u8> {
    match dtype {
        DType::F32 => x.iter().flat_map(|v| v.to_le_bytes()).collect(),
        DType::F16 => x.iter().flat_map(|v| f16::from_f32(*v).to_le_bytes()).collect(),
        DType::Q4_0 => q4_encode(x),
        DType::U8 => q4_encode(x),
    }
}

impl RowCodec for FloatRows {
    fn recode(&self, row: &Vec<u8>, from: RowFormat, to: RowFormat) -> Vec<u8> {
        encode(&decode(row, from.dtype), to.dtype)
    }

    fn merge(
        &self,
        format: RowFormat,
        into: &Vec<u8>,
        into_weight: u32,
        from: &Vec<Vec<u8>>,
        weights: &Vec<u32>,
    ) -> Vec<u8> {
        let w0 = f32::from_bits(into_weight);
        let mut acc: Vec<f32> = decode(into, format.dtype).iter().map(|v| w0 * v).collect();
        for (row, w) in from.iter().zip(weights.iter()) {
            let w = f32::from_bits(*w);
            for (a, v) in acc.iter_mut().zip(decode(row, format.dtype)) {
                *a += w * v;
            }
        }
        encode(&acc, format.dtype)
    }
}

fn shape_of(dtype: DType, max_seq: usize, kv_heads: usize, head_dim: usize) -> CacheShape {
    CacheShape {
        dtype,
        opaque: None,
        layout: KVLayout::SeqMajor,
        kv_heads,
        head_dim,
        capacity: max_seq,
        max_seq_len: max_seq,
        dynamic: false,
        on_device: false,
    }
}

const MAX_SEQ: usize = 32;
const HD: usize = 4;
const N_KV: usize = 2;

fn key(pos: usize, head: usize, d: usize) -> f32 {
    (pos * 100 + head * 10 + d) as f32
}

fn cache_f32(resident: usize) -> KVCache {
    let mut c = KVCache::new(shape_of(DType::F32, MAX_SEQ, N_KV, HD)).unwrap();
    for pos in 0..resident {
        for head in 0..N_KV {
            let k: Vec<f32> = (0..HD).map(|d| key(pos, head, d)).collect();
            let v: Vec<f32> = k.iter().map(|x| x + 0.5).collect();
            c.write_row(Side::Key, pos, head, &encode(&k, DType::F32));
            c.write_row(Side::Value, pos, head, &encode(&v, DType::F32));
        }
    }
    c.set_current_pos(resident);
    c
}

fn keys_at(c: &KVCache, pos: usize, head: usize) -> Vec<f32> {
    decode(&c.read_row(Side::Key, pos, head), c.kv_dtype())
}

fn assert_kept(c: &KVCache, kept: &[usize]) {
    for (new_pos, &src) in kept.iter().enumerate() {
        for head in 0..N_KV {
            let want: Vec<f32> = (0..HD).map(|d| key(src, head, d)).collect();
            assert_eq!(keys_at(c, new_pos, head), want);
        }
    }
}

fn recorder() -> KeepsetDump {
    KeepsetDump::new(false)
}

#[test]
fn test_t2_second_compaction_rejected() {
    let mut c = cache_f32(8);
    let before = c.k_bytes().clone();
    let mut h = EngineCacheHandle::new(&mut c, 0, 1);
    assert_eq!(h.keep(&vec![0, 1, 2, 3]), Ok(()));
    assert_eq!(h.keep(&vec![0, 1]), Err(CacheOpError::MultipleCompactions));
    drop(h);
    assert_eq!(c.k_bytes(), &before);
    assert_eq!(c.current_pos(), 8);
}

#[test]
fn test_t10_invalid_keep_rejected() {
    let mut c = cache_f32(8);
    let mut h = EngineCacheHandle::new(&mut c, 0, 1);
    assert_eq!(h.keep(&vec![2, 1, 0]), Err(CacheOpError::InvalidKeep));
    assert_eq!(h.keep(&vec![0, 0, 1]), Err(CacheOpError::InvalidKeep));
    assert_eq!(h.keep(&vec![0, 1, 8]), Err(CacheOpError::InvalidKeep));
}

#[test]
fn test_wall_stubs_geometry_immutable() {
    let mut c = cache_f32(8);
    let before = c.k_bytes().clone();
    let mut h = EngineCacheHandle::new(&mut c, 0, 1);
    assert_eq!(h.prune_channels(&vec![0, 1]), Err(CacheOpError::GeometryImmutable));
    assert_eq!(h.set_head_dim(2), Err(CacheOpError::GeometryImmutable));
    assert_eq!(h.project_rank(2), Err(CacheOpError::GeometryImmutable));
    drop(h);
    assert_eq!(c.k_bytes(), &before);
}

fn cache_hm_f32(resident: usize, heads: usize, dim: usize) -> KVCache {
    let mut shape = shape_of(DType::F32, 32, heads, dim);
    shape.layout = KVLayout::HeadMajor;
    let mut c = KVCache::new(shape).unwrap();
    c.set_current_pos(resident);
    let n = 32 * heads * dim;
    let k: Vec<f32> = (0..n).map(|i| i as f32).collect();
    let v: Vec<f32> = (0..n).map(|i| -(i as f32)).collect();
    c.set_bytes(Side::Key, encode(&k, DType::F32));
    c.set_bytes(Side::Value, encode(&v, DType::F32));
    c
}

#[test]
fn test_offload_recall_round_trip_via_handle() {
    let (heads, dim, resident, prefix) = (2usize, 4usize, 10usize, 5usize);
    let mut swap = SwapHandler::new();
    let mut c = cache_hm_f32(resident, heads, dim);
    let rows = |c: &KVCache| -> Vec<f32> {
        (0..heads)
            .flat_map(|h| (0..prefix).flat_map(move |p| keys_at(c, p, h)))
            .collect()
    };
    let orig = rows(&c);

    let mut h = EngineCacheHandle::with_swap(&mut c, 0, 1, &mut swap);
    assert_eq!(h.offload(prefix), Ok(()));
    assert_eq!(h.commit(&FloatRows, &mut recorder()), Ok(true));
    assert_eq!(c.current_pos(), resident - prefix);
    assert_eq!(swap.records(), 1);

    let mut h = EngineCacheHandle::with_swap(&mut c, 0, 1, &mut swap);
    assert_eq!(h.recall(), Ok(()));
    assert_eq!(h.commit(&FloatRows, &mut recorder()), Ok(true));
    assert_eq!(c.current_pos(), resident);
    assert_eq!(rows(&c), orig);
}

#[test]
fn test_keep_commit_compacts() {
    let mut c = cache_f32(8);
    let mut h = EngineCacheHandle::new(&mut c, 0, 1);
    assert_eq!(h.keep(&vec![1, 3, 5, 7]), Ok(()));
    assert_eq!(h.commit(&FloatRows, &mut recorder()), Ok(true));
    assert_eq!(c.current_pos(), 4);
    assert_kept(&c, &[1, 3, 5, 7]);
}

#[test]
fn test_keep_commit_records_keepset_dump() {
    let mut c = cache_f32(13);
    let keep = vec![1usize, 4, 9];
    let mut rec = recorder();
    rec.arm_capture();
    {
        let mut h = EngineCacheHandle::new(&mut c, 0, 1);
        assert_eq!(h.keep(&keep), Ok(()));
        assert_eq!(h.commit(&FloatRows, &mut rec), Ok(true));
    }
    let captured = rec.drain_capture();
    let mine = captured
        .iter()
        .filter(|x| x.seq_len == 13 && x.keep == vec![keep.clone(); N_KV])
        .count();
    assert_eq!(mine, 1);
    assert_eq!(c.current_pos(), 3);
}

#[test]
fn test_keep_top_k_high_level_op() {
    let mut c = cache_f32(8);
    let scores = [0.0f32, 0.0, 1.0, 9.0, 2.0, 8.0, 0.0, 0.0];
    let ranks: Vec<u64> = scores.iter().map(|s| order_of(s.to_bits())).collect();
    let mut h = EngineCacheHandle::new(&mut c, 0, 1);
    let k = KeepTopK { current: 8, prefix: 2, recent: 2, heavy: 2 };
    assert_eq!(h.keep_top_k(k, &ranks), Ok(()));
    assert_eq!(h.commit(&FloatRows, &mut recorder()), Ok(true));
    assert_eq!(c.current_pos(), 6);
    assert_kept(&c, &[0, 1, 3, 5, 6, 7]);
}

#[test]
fn test_keep_combinator_high_level_ops() {
    let mut c = cache_f32(8);
    let mut h = EngineCacheHandle::new(&mut c, 0, 1);
    assert_eq!(h.keep_intersect_of(&vec![vec![0, 1, 2, 3, 5], vec![1, 3, 5, 7]]), Ok(()));
    assert_eq!(h.commit(&FloatRows, &mut recorder()), Ok(true));
    assert_eq!(c.current_pos(), 3);
    assert_kept(&c, &[1, 3, 5]);

    let mut c = cache_f32(8);
    let mut h = EngineCacheHandle::new(&mut c, 0, 1);
    assert_eq!(h.keep_union_of(&vec![vec![0, 2], vec![2, 5, 7]]), Ok(()));
    assert_eq!(h.commit(&FloatRows, &mut recorder()), Ok(true));
    assert_eq!(c.current_pos(), 4);
    assert_kept(&c, &[0, 2, 5, 7]);
}

fn blend(into: usize, w: f32, from: Vec<(usize, f32)>, apply_to: MergeAxis) -> WeightedMerge {
    WeightedMerge {
        into,
        into_weight: w.to_bits(),
        from: from.iter().map(|(p, w)| (*p, w.to_bits())).collect(),
        apply_to,
    }
}

#[test]
fn test_merge_out_of_range_rejected() {
    let mut c = cache_f32(8);
    let before = c.k_bytes().clone();
    let mut h = EngineCacheHandle::new(&mut c, 0, 1);
    let bad_into = vec![blend(8, 0.5, vec![(1, 0.5)], MergeAxis::Both)];
    assert_eq!(h.merge(bad_into), Err(CacheOpError::InvalidMerge));
    let bad_from = vec![blend(0, 0.5, vec![(40, 0.5)], MergeAxis::Both)];
    assert_eq!(h.merge(bad_from), Err(CacheOpError::InvalidMerge));
    drop(h);
    assert_eq!(c.k_bytes(), &before);
    assert_eq!(c.current_pos(), 8);
}

#[test]
fn test_residency_without_backend_rejected() {
    let mut c = cache_f32(8);
    let before = c.k_bytes().clone();
    let mut h = EngineCacheHandle::new(&mut c, 0, 1);
    assert_eq!(h.offload(2), Err(CacheOpError::NoResidencyBackend));
    assert_eq!(h.recall(), Err(CacheOpError::NoResidencyBackend));
    drop(h);
    assert_eq!(c.k_bytes(), &before);
    assert_eq!(c.current_pos(), 8);
}

#[test]
fn test_merge_then_keep_commits_both() {
    let mut c = cache_f32(8);
    let mut h = EngineCacheHandle::new(&mut c, 0, 1);
    assert_eq!(h.merge(vec![blend(0, 0.5, vec![(1, 0.5)], MergeAxis::Both)]), Ok(()));
    assert_eq!(h.keep(&vec![0, 2, 3, 4, 5, 6, 7]), Ok(()));
    assert_eq!(h.commit(&FloatRows, &mut recorder()), Ok(true));
    assert_eq!(c.current_pos(), 7);
    for head in 0..N_KV {
        let want: Vec<f32> = (0..HD).map(|d| (head * 10 + d) as f32 + 50.0).collect();
        assert_eq!(keys_at(&c, 0, head), want);
        let want: Vec<f32> = (0..HD).map(|d| key(2, head, d)).collect();
        assert_eq!(keys_at(&c, 1, head), want);
    }
}

fn format(name: &str) -> FormatId {
    FormatId(name.to_string())
}

#[test]
fn test_reencode_noop_and_feasibility() {
    let mut c = cache_f32(8);
    let mut h = EngineCacheHandle::new(&mut c, 0, 1);
    assert_eq!(h.reencode(format("f32")), Ok(()));
    assert_eq!(h.commit(&FloatRows, &mut recorder()), Ok(false));
    assert_eq!(c.kv_dtype(), DType::F32);

    let mut c = cache_f32(8);
    let mut h = EngineCacheHandle::new(&mut c, 0, 1);
    assert!(matches!(h.reencode(format("q4_0")), Err(CacheOpError::UnsupportedFormat(_))));

    let mut c = cache_f32(8);
    let mut h = EngineCacheHandle::new(&mut c, 0, 1);
    assert_eq!(h.reencode(format("f16")), Ok(()));
    assert_eq!(h.commit(&FloatRows, &mut recorder()), Ok(true));
    assert_eq!(c.kv_dtype(), DType::F16);
}

#[test]
fn test_reencode_last_write_to_current_cancels_staged() {
    let mut c = cache_f32(8);
    let mut h = EngineCacheHandle::new(&mut c, 0, 1);
    assert_eq!(h.reencode(format("f16")), Ok(()));
    assert_eq!(h.reencode(format("f32")), Ok(()));
    assert_eq!(h.commit(&FloatRows, &mut recorder()), Ok(false));
    assert_eq!(c.kv_dtype(), DType::F32);
}

#[test]
fn test_reencode_opaque_source_eager_rejected() {
    let mut shape = shape_of(DType::U8, MAX_SEQ, N_KV, HD);
    shape.opaque = Some(KVLayoutDesc {
        block_elems: HD,
        bits: 8,
        scale_layout: ScaleLayout::PerBlockF16,
        packing: Packing::Nibble,
    });
    let mut c = KVCache::new(shape).unwrap();
    c.set_current_pos(4);
    let mut h = EngineCacheHandle::new(&mut c, 0, 1);
    assert!(matches!(h.reencode(format("f16")), Err(CacheOpError::UnsupportedFormat(_))));
}

#[test]
fn a_refused_request_leaves_what_was_staged_before_it() {
    let mut c = cache_f32(8);
    let mut h = EngineCacheHandle::new(&mut c, 0, 1);
    assert_eq!(h.keep(&vec![0, 1]), Ok(()));
    assert_eq!(h.keep_per_head(&vec![vec![0], vec![1]]), Err(CacheOpError::WrongContainer));
    assert_eq!(h.transition_quant_bits(4), Err(CacheOpError::WrongContainer));
    assert_eq!(h.merge(vec![blend(0, 1.0, vec![], MergeAxis::Both)]), Ok(()));
    assert_eq!(
        h.merge(vec![blend(0, 1.0, vec![], MergeAxis::Both)]),
        Err(CacheOpError::MergeAlreadyStaged)
    );
    assert_eq!(h.commit(&FloatRows, &mut recorder()), Ok(true));
    assert_eq!(c.current_pos(), 2);
    assert_kept(&c, &[0, 1]);
}

#[test]
fn requests_that_read_rows_need_them_on_the_host() {
    let mut shape = shape_of(DType::F32, MAX_SEQ, N_KV, HD);
    shape.on_device = true;
    let mut c = KVCache::new(shape).unwrap();
    c.set_current_pos(4);
    let mut h = EngineCacheHandle::new(&mut c, 0, 1);
    assert!(h.kv_on_device());
    assert_eq!(
        h.merge(vec![blend(0, 1.0, vec![], MergeAxis::Both)]),
        Err(CacheOpError::NotOnHost)
    );
    assert_eq!((h.current_pos(), h.n_kv_heads(), h.head_dim()), (4, N_KV, HD));
}
