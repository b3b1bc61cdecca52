use argus_kv::cache_handle::EngineCacheHandle;
use argus_kv::codec::{RowCodec, RowFormat};
use argus_kv::dequant::{dequantize_k, dequantize_v};
use argus_kv::dtype::{DType, KVLayout};
use argus_kv::format_apply::FormatId;
use argus_kv::keep::KeepSpec;
use argus_kv::keepset_dump::KeepsetDump;
use argus_kv::kv_cache::{CacheShape, KVCache, Side};
use argus_kv::merge::{MergeAxis, WeightedMerge};
use half::f16;

/// Single and half precision, and four-bit blocks of 32 elements: a half-precision scale, then two
/// elements per byte.
struct FloatRows;

const QK: usize = 32;

fn q4_encode(x: &[f32]) -> Vec<u8> {
    let mut out: Vec<u8> = Vec::new();
    for block in x.chunks(QK) {
        let mut max = 0.0f32;
        let mut amax = 0.0f32;
        for &v in block {
            if v.abs() > amax {
                amax = v.abs();
                max = v;
            }
        }
        let d = max / -8.0;
        let id = if d != 0.0 { 1.0 / d } else { 0.0 };
        out.extend_from_slice(&f16::from_f32(d).to_le_bytes());
        for i in 0..QK / 2 {
            let lo = ((block[i] * id + 8.5) as i32).clamp(0, 15) as u8;
            let hi = ((block[i + QK / 2] * id + 8.5) as i32).clamp(0, 15) as u8;
            out.push(lo | (hi << 4));
        }
    }
    out
}

fn q4_decode(bytes: &[u8]) -> Vec<f32> {
    let mut out: Vec<f32> = Vec::new();
    for block in bytes.chunks(18) {
        let d = f16::from_le_bytes([block[0], block[1]]).to_f32();
        for i in 0..QK / 2 {
            out.push(((block[2 + i] & 15) as f32 - 8.0) * d);
        }
        for i in 0..QK / 2 {
            out.push(((block[2 + i] >> 4) as f32 - 8.0) * d);
        }
    }
    out
}

fn decode(row: &[u8], dtype: DType) -> Vec<f32> {
    match dtype {
        DType::F32 => row
            .chunks(4)
            .map(|b| f32::from_le_bytes([b[0], b[1], b[2], b[3]]))
            .collect(),
        DType::F16 => row
            .chunks(2)
            .map(|b| f16::from_le_bytes([b[0], b[1]]).to_f32())
            .collect(),
        DType::Q4_0 => q4_decode(row),
        DType::U8 => q4_decode(row),
    }
}

fn encode(x: &[f32], dtype: DType) -> Vec<u8> {
    match dtype {
        DType::F32 => x.iter().flat_map(|v| v.to_le_bytes()).collect(),
        DType::F16 => x.iter().flat_map(|v| f16::from_f32(*v).to_le_bytes()).collect(),
        DType::Q4_0 => q4_encode(x),
        DType::U8 => q4_encode(x),
    }
}

impl RowCodec for FloatRows {
    fn recode(&self, row: &Vec<u8>, from: RowFormat, to: RowFormat) -> Vec<u8> {
        encode(&decode(row, from.dtype), to.dtype)
    }

    fn merge(
        &self,
        format: RowFormat,
        into: &Vec<u8>,
        into_weight: u32,
        from: &Vec<Vec<u8>>,
        weights: &Vec<u32>,
    ) -> Vec<u8> {
        let w0 = f32::from_bits(into_weight);
        let mut acc: Vec<f32> = decode(into, format.dtype).iter().map(|v| w0 * v).collect();
        for (row, w) in from.iter().zip(weights.iter()) {
            let w = f32::from_bits(*w);
            for (a, v) in acc.iter_mut().zip(decode(row, format.dtype)) {
                *a += w * v;
            }
        }
        encode(&acc, format.dtype)
    }
}

fn shape_of(dtype: DType, max_seq: usize, kv_heads: usize, head_dim: usize) -> CacheShape {
    CacheShape {
        dtype,
        opaque: None,
        layout: KVLayout::SeqMajor,
        kv_heads,
        head_dim,
        capacity: max_seq,
        max_seq_len: max_seq,
        dynamic: false,
        on_device: false,
    }
}

/// A plain model of a layer, `[position][head][element]`, and where each head starts.
struct NaiveModel {
    k: Vec<Vec<Vec<f32>>>,
    v: Vec<Vec<Vec<f32>>>,
    head_start: Vec<usize>,
}

fn numbers_at(c: &KVCache, side: Side, pos: usize, head: usize) -> Vec<f32> {
    let mut out = vec![0u8; c.head_dim() * 4];
    let done = match side {
        Side::Key => dequantize_k(c, pos, head, &FloatRows, &mut out),
        Side::Value => dequantize_v(c, pos, head, &FloatRows, &mut out),
    };
    assert!(done);
    decode(&out, DType::F32)
}

impl NaiveModel {
    fn capture(c: &KVCache) -> Self {
        let side = |side: Side| -> Vec<Vec<Vec<f32>>> {
            (0..c.current_pos())
                .map(|p| (0..c.kv_heads()).map(|h| numbers_at(c, side, p, h)).collect())
                .collect()
        };
        NaiveModel { k: side(Side::Key), v: side(Side::Value), head_start: c.head_starts() }
    }

    fn apply_merges(&mut self, merges: &[WeightedMerge]) {
        let (src_k, src_v) = (self.k.clone(), self.v.clone());
        for m in merges {
            let w = f32::from_bits(m.into_weight);
            for head in 0..self.head_start.len() {
                for d in 0..src_k[0][0].len() {
                    let blend = |src: &Vec<Vec<Vec<f32>>>| {
                        let mut acc = w * src[m.into][head][d];
                        for (from, w) in &m.from {
                            acc += f32::from_bits(*w) * src[*from][head][d];
                        }
                        acc
                    };
                    if m.apply_to != MergeAxis::ValueOnly {
                        self.k[m.into][head][d] = blend(&src_k);
                    }
                    if m.apply_to != MergeAxis::KeyOnly {
                        self.v[m.into][head][d] = blend(&src_v);
                    }
                }
            }
        }
    }

    fn expected_after(mut self, merges: &[WeightedMerge], keep: &KeepSpec) -> NaiveModel {
        self.apply_merges(merges);
        let heads = self.head_start.len();
        let lists: Vec<Vec<usize>> = match keep {
            KeepSpec::LayerWide(list) => vec![list.clone(); heads],
            KeepSpec::PerHead(lists) => lists.clone(),
        };
        let n = lists.iter().map(|l| l.len()).max().unwrap_or(0);
        let head_start: Vec<usize> = lists.iter().map(|l| n - l.len()).collect();
        let dim = self.k[0][0].len();
        let mut k = vec![vec![vec![0.0f32; dim]; heads]; n];
        let mut v = k.clone();
        for (h, list) in lists.iter().enumerate() {
            for (i, &src) in list.iter().enumerate() {
                k[head_start[h] + i][h] = self.k[src][h].clone();
                v[head_start[h] + i][h] = self.v[src][h].clone();
            }
        }
        NaiveModel { k, v, head_start }
    }
}

fn assert_cache_matches(c: &KVCache, expected: &NaiveModel, tol: f32) {
    assert_eq!(c.current_pos(), expected.k.len());
    assert_eq!(c.head_starts(), expected.head_start);
    for pos in 0..expected.k.len() {
        for head in 0..c.kv_heads() {
            if pos < expected.head_start[head] {
                continue;
            }
            for (side, want) in [(Side::Key, &expected.k), (Side::Value, &expected.v)] {
                let got = numbers_at(c, side, pos, head);
                for (g, w) in got.iter().zip(&want[pos][head]) {
                    assert!((g - w).abs() <= tol, "pos {pos} head {head}: {g} vs {w}");
                }
            }
        }
    }
}

const HD: usize = QK;
const KV: usize = 2;
const MAXS: usize = 16;
const RESIDENT: usize = 8;

fn pat(pos: usize, head: usize, d: usize, salt: f32) -> f32 {
    salt + pos as f32 * 0.05 + head as f32 * 0.5 + d as f32 * 0.01
}

fn build(dtype: DType, layout: KVLayout) -> KVCache {
    let mut shape = shape_of(dtype, MAXS, KV, HD);
    shape.layout = layout;
    let mut c = KVCache::new(shape).unwrap();
    c.set_current_pos(RESIDENT);
    for pos in 0..RESIDENT {
        for head in 0..KV {
            let rk: Vec<f32> = (0..HD).map(|d| pat(pos, head, d, 0.5)).collect();
            let rv: Vec<f32> = (0..HD).map(|d| pat(pos, head, d, 1.3)).collect();
            c.write_row(Side::Key, pos, head, &encode(&rk, dtype));
            c.write_row(Side::Value, pos, head, &encode(&rv, dtype));
        }
    }
    c
}

#[test]
fn keep_matches_naive_all_dtypes() {
    for dtype in [DType::F32, DType::F16, DType::Q4_0] {
        let mut cache = build(dtype, KVLayout::SeqMajor);
        let list = vec![1usize, 3, 4, 6];
        let expected =
            NaiveModel::capture(&cache).expected_after(&[], &KeepSpec::LayerWide(list.clone()));
        let mut h = EngineCacheHandle::new(&mut cache, 0, 1);
        h.keep(&list).unwrap();
        assert!(h.commit(&FloatRows, &mut KeepsetDump::new(false)).unwrap());
        assert_cache_matches(&cache, &expected, 0.0);
    }
}

#[test]
fn per_head_keep_matches_naive() {
    for dtype in [DType::F32, DType::F16, DType::Q4_0] {
        let mut cache = build(dtype, KVLayout::HeadMajor);
        let heads = vec![vec![0usize, 2, 4], vec![1usize, 3, 5]];
        let expected =
            NaiveModel::capture(&cache).expected_after(&[], &KeepSpec::PerHead(heads.clone()));
        let mut h = EngineCacheHandle::new(&mut cache, 0, 1);
        h.keep_per_head(&heads).unwrap();
        assert!(h.commit(&FloatRows, &mut KeepsetDump::new(false)).unwrap());
        assert_cache_matches(&cache, &expected, 0.0);
    }
}

#[test]
fn merge_then_keep_matches_naive() {
    for (dtype, tol) in [(DType::F32, 0.0f32), (DType::F16, 0.01), (DType::Q4_0, 0.25)] {
        let mut cache = build(dtype, KVLayout::SeqMajor);
        let merges = || {
            vec![WeightedMerge {
                into: 0,
                into_weight: 0.5f32.to_bits(),
                from: vec![(5, 0.5f32.to_bits())],
                apply_to: MergeAxis::Both,
            }]
        };
        let list: Vec<usize> = (0..RESIDENT).filter(|&p| p != 5).collect();
        let expected = NaiveModel::capture(&cache)
            .expected_after(&merges(), &KeepSpec::LayerWide(list.clone()));
        let mut h = EngineCacheHandle::new(&mut cache, 0, 1);
        h.merge(merges()).unwrap();
        h.keep(&list).unwrap();
        assert!(h.commit(&FloatRows, &mut KeepsetDump::new(false)).unwrap());
        assert_cache_matches(&cache, &expected, tol);
    }
}

#[test]
fn reencode_f16_to_f32_matches_naive() {
    let mut cache = build(DType::F16, KVLayout::SeqMajor);
    let expected = NaiveModel::capture(&cache);
    let mut h = EngineCacheHandle::new(&mut cache, 0, 1);
    h.reencode(FormatId("f32".to_string())).unwrap();
    assert!(h.commit(&FloatRows, &mut KeepsetDump::new(false)).unwrap());
    assert_eq!(cache.kv_dtype(), DType::F32);
    assert_cache_matches(&cache, &expected, 0.0);
}
