use argus_kv::codec::{RowCodec, RowFormat};
use argus_kv::dtype::{DType, KVLayout};
use argus_kv::kv_cache::{CacheShape, KVCache, KvError, Tensor};
use argus_kv::standard_format::{BackendCaps, StandardFormat};
use half::f16;

/// Single and half precision, and four-bit blocks of 32 elements: a half-precision scale, then two
/// elements per byte.
struct FloatRows;

const QK: usize = 32;

fn q4_encode(x: &[f32]) -> Vec<u8> {
    let mut out: Vec<u8> = Vec::new();
    for block in x.chunks(QK) {
        let mut max = 0.0f32;
        let mut amax = 0.0f32;
        for &v in block {
            if v.abs() > amax {
                amax = v.abs();
                max = v;
            }
        }
        let d = max / -8.0;
        let id = if d != 0.0 { 1.0 / d } else { 0.0 };
        out.extend_from_slice(&f16::from_f32(d).to_le_bytes());
        for i in 0..QK / 2 {
            let lo = ((block[i] * id + 8.5) as i32).clamp(0, 15) as u8;
            let hi = ((block[i + QK / 2] * id + 8.5) as i32).clamp(0, 15) as u8;
            out.push(lo | (hi << 4));
        }
    }
    out
}

fn q4_decode(bytes: &[u8]) -> Vec<f32> {
    let mut out: Vec<f32> = Vec::new();
    for block in bytes.chunks(18) {
        let d = f16::from_le_bytes([block[0], block[1]]).to_f32();
        for i in 0..QK / 2 {
            out.push(((block[2 + i] & 15) as f32 - 8.0) * d);
        }
        for i in 0..QK / 2 {
            out.push(((block[2 + i] >> 4) as f32 - 8.0) * d);
        }
    }
    out
}

fn decode(row: &[u8], dtype: DType) -> Vec<f32> {
    match dtype {
        DType::F32 => row
            .chunks(4)
            .map(|b| f32::from_le_bytes([b[0], b[1], b[2], b[3]]))
            .collect(),
        DType::F16 => row
            .chunks(2)
            .map(|b| f16::from_le_bytes([b[0], b[1]]).to_f32())
            .collect(),
        DType::Q4_0 => q4_decode(row),
        DType::U8 => q4_decode(row),
    }
}

fn encode(x: &[f32], dtype: DType) -> Vec<u8> {
    match dtype {
        DType::F32 => x.iter().flat_map(|v| v.to_le_bytes()).collect(),
        DType::F16 => x.iter().flat_map(|v| f16::from_f32(*v).to_le_bytes()).collect(),
        DType::Q4_0 => q4_encode(x),
        DType::U8 => q4_encode(x),
    }
}

impl RowCodec for FloatRows {
    fn recode(&self, row: &Vec<u8>, from: RowFormat, to: RowFormat) -> Vec<u8> {
        encode(&decode(row, from.dtype), to.dtype)
    }

    fn merge(
        &self,
        format: RowFormat,
        into: &Vec<u8>,
        into_weight: u32,
        from: &Vec<Vec<u8>>,
        weights: &Vec<u32>,
    ) -> Vec<u8> {
        let w0 = f32::from_bits(into_weight);
        let mut acc: Vec<f32> = decode(into, format.dtype).iter().map(|v| w0 * v).collect();
        for (row, w) in from.iter().zip(weights.iter()) {
            let w = f32::from_bits(*w);
            for (a, v) in acc.iter_mut().zip(decode(row, format.dtype)) {
                *a += w * v;
            }
        }
        encode(&acc, format.dtype)
    }
}

fn f32_tensor(seq: usize, kv_heads: usize, head_dim: usize, data: &[f32]) -> Tensor {
    Tensor::new(DType::F32, seq, kv_heads, head_dim, encode(data, DType::F32)).unwrap()
}

fn shape_of(dtype: DType, max_seq: usize, kv_heads: usize, head_dim: usize) -> CacheShape {
    CacheShape {
        dtype,
        opaque: None,
        layout: KVLayout::SeqMajor,
        kv_heads,
        head_dim,
        capacity: max_seq,
        max_seq_len: max_seq,
        dynamic: false,
        on_device: false,
    }
}

fn make_cache(max_seq: usize, kv_heads: usize, head_dim: usize) -> KVCache {
    KVCache::new(shape_of(DType::F32, max_seq, kv_heads, head_dim)).unwrap()
}

fn make_f16_dynamic_cache(max_seq: usize, kv_heads: usize, head_dim: usize) -> KVCache {
    let shape = CacheShape {
        dynamic: true,
        ..shape_of(DType::F16, max_seq, kv_heads, head_dim)
    };
    KVCache::new(shape).unwrap()
}

fn cpu() -> BackendCaps {
    BackendCaps {
        is_gpu: false,
        kv_scatter_batch: false,
        kv_scatter_f32_batch: false,
        opaque_q2_dequant: false,
        nosub_device: false,
    }
}

fn k_values(cache: &KVCache) -> Vec<f32> {
    decode(cache.k_bytes(), cache.kv_dtype())
}

fn v_values(cache: &KVCache) -> Vec<f32> {
    decode(cache.v_bytes(), cache.kv_dtype())
}

#[test]
fn test_geometry_delegates_to_kvcache() {
    let fmt = StandardFormat::new(3, make_cache(8, 2, 4));
    assert_eq!(fmt.idx(), 3);
    assert_eq!(fmt.capacity(), 8);
    assert_eq!(fmt.current_pos(), 0);
}

#[test]
fn test_take_put_inner_round_trip() {
    let (kv_heads, head_dim) = (2, 4);
    let mut fmt = StandardFormat::new(0, make_cache(8, kv_heads, head_dim));
    let token = vec![7.0f32; kv_heads * head_dim];
    let k = f32_tensor(1, kv_heads, head_dim, &token);
    let v = f32_tensor(1, kv_heads, head_dim, &token);
    fmt.write_kv(&k, &v, &FloatRows, &cpu()).unwrap();
    assert_eq!(fmt.current_pos(), 1);

    let taken = fmt.take_inner();
    assert_eq!(taken.current_pos(), 1);
    assert_eq!(k_values(&taken)[0], 7.0);
    assert_eq!(fmt.current_pos(), 0);

    fmt.put_inner(taken);
    assert_eq!(fmt.current_pos(), 1);
    assert_eq!(k_values(fmt.plan_lock())[0], 7.0);
}

#[test]
fn test_plan_geometry_delegates_and_zeroes_residual() {
    let fmt = StandardFormat::new(0, make_cache(8, 2, 4));
    let g = fmt.plan_geometry();
    assert_eq!(g.capacity, 8);
    assert_eq!(g.current_pos, 0);
    assert_eq!(g.res_pos, 0);
    assert_eq!(g.q2_tokens, 0);
}

#[test]
fn test_plan_advance_bumps_current_pos() {
    let mut fmt = StandardFormat::new(0, make_cache(8, 2, 4));
    fmt.plan_advance(1);
    assert_eq!(fmt.plan_geometry().current_pos, 1);
    assert_eq!(fmt.current_pos(), 1);
    fmt.plan_advance(2);
    assert_eq!(fmt.plan_geometry().current_pos, 3);
}

#[test]
fn test_plan_lock_reads_buffer() {
    let (kv_heads, head_dim) = (1, 2);
    let mut fmt = StandardFormat::new(0, make_cache(8, kv_heads, head_dim));
    let t = vec![7.0f32; kv_heads * head_dim];
    let k = f32_tensor(1, kv_heads, head_dim, &t);
    let v = f32_tensor(1, kv_heads, head_dim, &t);
    fmt.write_kv(&k, &v, &FloatRows, &cpu()).unwrap();
    let cache = fmt.plan_lock();
    assert_eq!(cache.capacity(), 8);
    assert_eq!(k_values(cache)[0], 7.0);
}

#[test]
fn standard_format_test_write_kv_advances_pos() {
    let (kv_heads, head_dim) = (2, 4);
    let mut fmt = StandardFormat::new(0, make_cache(8, kv_heads, head_dim));
    let token = vec![1.0f32; kv_heads * head_dim];
    let k = f32_tensor(1, kv_heads, head_dim, &token);
    let v = f32_tensor(1, kv_heads, head_dim, &token);
    fmt.write_kv(&k, &v, &FloatRows, &cpu()).unwrap();
    assert_eq!(fmt.current_pos(), 1);

    let batch = vec![2.0f32; 2 * kv_heads * head_dim];
    let kb = f32_tensor(2, kv_heads, head_dim, &batch);
    let vb = f32_tensor(2, kv_heads, head_dim, &batch);
    fmt.write_kv_batch(&kb, &vb, &FloatRows, &cpu()).unwrap();
    assert_eq!(fmt.current_pos(), 3);
}

#[test]
fn test_write_kv_f16_casts_f32_input() {
    let (kv_heads, head_dim) = (2, 4);
    let row = kv_heads * head_dim;
    let mut fmt = StandardFormat::new(0, make_f16_dynamic_cache(8, kv_heads, head_dim));

    let token0: Vec<f32> = (0..row).map(|i| (i as f32) * 0.5).collect();
    let k0 = f32_tensor(1, kv_heads, head_dim, &token0);
    let v0 = f32_tensor(1, kv_heads, head_dim, &token0);
    fmt.write_kv(&k0, &v0, &FloatRows, &cpu()).unwrap();
    assert_eq!(fmt.current_pos(), 1);

    let token1: Vec<f32> = (0..row).map(|i| (i as f32) + 1.0).collect();
    let k1 = f32_tensor(1, kv_heads, head_dim, &token1);
    let v1 = f32_tensor(1, kv_heads, head_dim, &token1);
    fmt.write_kv(&k1, &v1, &FloatRows, &cpu()).unwrap();
    assert_eq!(fmt.current_pos(), 2);

    let k16 = k_values(fmt.plan_lock());
    let v16 = v_values(fmt.plan_lock());
    for (i, &exp) in token0.iter().enumerate() {
        assert!((k16[i] - exp).abs() < 1e-3, "pos0 K[{i}] expected {exp}, got {}", k16[i]);
        assert!((v16[i] - exp).abs() < 1e-3);
    }
    for (i, &exp) in token1.iter().enumerate() {
        assert!((k16[row + i] - exp).abs() < 1e-3, "pos1 K[{i}] expected {exp}, got {}", k16[row + i]);
        assert!((v16[row + i] - exp).abs() < 1e-3);
    }
}

#[test]
fn test_write_kv_f16_batch_then_decode_reallocs_scratch() {
    let (kv_heads, head_dim) = (2, 4);
    let row = kv_heads * head_dim;
    let mut fmt = StandardFormat::new(0, make_f16_dynamic_cache(8, kv_heads, head_dim));

    let batch: Vec<f32> = (0..2 * row).map(|i| if i < row { 0.5 } else { 1.0 }).collect();
    let kb = f32_tensor(2, kv_heads, head_dim, &batch);
    let vb = f32_tensor(2, kv_heads, head_dim, &batch);
    fmt.write_kv_batch(&kb, &vb, &FloatRows, &cpu()).unwrap();
    assert_eq!(fmt.current_pos(), 2);

    let dec = vec![2.5f32; row];
    let kd = f32_tensor(1, kv_heads, head_dim, &dec);
    let vd = f32_tensor(1, kv_heads, head_dim, &dec);
    fmt.write_kv(&kd, &vd, &FloatRows, &cpu()).unwrap();
    assert_eq!(fmt.current_pos(), 3);

    let k16 = k_values(fmt.plan_lock());
    for i in 0..row {
        assert!((k16[i] - 0.5).abs() < 1e-3, "pos0[{i}]={}", k16[i]);
        assert!((k16[row + i] - 1.0).abs() < 1e-3, "pos1[{i}]={}", k16[row + i]);
        assert!((k16[2 * row + i] - 2.5).abs() < 1e-3, "pos2[{i}]={}", k16[2 * row + i]);
    }
}

#[test]
fn test_write_kv_f16_requires_dynamic_cache() {
    let (kv_heads, head_dim) = (1, 4);
    let cache = KVCache::new(shape_of(DType::F16, 8, kv_heads, head_dim)).unwrap();
    let mut fmt = StandardFormat::new(0, cache);
    let token = vec![1.0f32; kv_heads * head_dim];
    let kt = f32_tensor(1, kv_heads, head_dim, &token);
    let vt = f32_tensor(1, kv_heads, head_dim, &token);
    let err = fmt.write_kv(&kt, &vt, &FloatRows, &cpu());
    assert!(err.is_err());
    assert_eq!(err, Err(KvError::NeedsDynamicCache));
}

#[test]
fn test_write_kv_batch_f32_matches_sequential_decode() {
    let (kv_heads, head_dim, seq) = (2, 4, 3);
    let row = kv_heads * head_dim;
    let batch: Vec<f32> = (0..seq * row).map(|i| i as f32).collect();

    let mut fmt_batch = StandardFormat::new(0, make_cache(8, kv_heads, head_dim));
    let kb = f32_tensor(seq, kv_heads, head_dim, &batch);
    let vb = f32_tensor(seq, kv_heads, head_dim, &batch);
    fmt_batch.write_kv_batch(&kb, &vb, &FloatRows, &cpu()).unwrap();
    assert_eq!(fmt_batch.current_pos(), seq);

    let mut fmt_seq = StandardFormat::new(0, make_cache(8, kv_heads, head_dim));
    for s in 0..seq {
        let tok = &batch[s * row..(s + 1) * row];
        let k = f32_tensor(1, kv_heads, head_dim, tok);
        let v = f32_tensor(1, kv_heads, head_dim, tok);
        fmt_seq.write_kv(&k, &v, &FloatRows, &cpu()).unwrap();
    }
    assert_eq!(fmt_seq.current_pos(), seq);
    assert_eq!(k_values(fmt_batch.plan_lock()), k_values(fmt_seq.plan_lock()));
    assert_eq!(v_values(fmt_batch.plan_lock()), v_values(fmt_seq.plan_lock()));
}

#[test]
fn test_write_kv_batch_f16_matches_sequential_decode() {
    let (kv_heads, head_dim, seq) = (2, 4, 3);
    let row = kv_heads * head_dim;
    let batch: Vec<f32> = (0..seq * row).map(|i| (i as f32) * 0.5).collect();

    let mut fmt_batch = StandardFormat::new(0, make_f16_dynamic_cache(8, kv_heads, head_dim));
    let kb = f32_tensor(seq, kv_heads, head_dim, &batch);
    let vb = f32_tensor(seq, kv_heads, head_dim, &batch);
    fmt_batch.write_kv_batch(&kb, &vb, &FloatRows, &cpu()).unwrap();
    assert_eq!(fmt_batch.current_pos(), seq);

    let mut fmt_seq = StandardFormat::new(0, make_f16_dynamic_cache(8, kv_heads, head_dim));
    for s in 0..seq {
        let tok = &batch[s * row..(s + 1) * row];
        let k = f32_tensor(1, kv_heads, head_dim, tok);
        let v = f32_tensor(1, kv_heads, head_dim, tok);
        fmt_seq.write_kv(&k, &v, &FloatRows, &cpu()).unwrap();
    }
    assert_eq!(fmt_seq.current_pos(), seq);
    assert_eq!(fmt_batch.plan_lock().k_bytes(), fmt_seq.plan_lock().k_bytes());
    assert_eq!(fmt_batch.plan_lock().v_bytes(), fmt_seq.plan_lock().v_bytes());
}
