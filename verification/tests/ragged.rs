use argus_kv::attention::{route, AttnDims, AttnRoute, AttnStep, Q2Gate};
use argus_kv::cache_handle::{apply_per_head_keep_at, CacheOpError, EngineCacheHandle};
use argus_kv::codec::{RowCodec, RowFormat};
use argus_kv::dequant::{dequantize_k, dequantize_v};
use argus_kv::dtype::{DType, KVLayout, KVLayoutDesc, Packing, ScaleLayout};
use argus_kv::keep::KeepSpec;
use argus_kv::keep_sets::{KeepError, KeepSets};
use argus_kv::keepset_dump::KeepsetDump;
use argus_kv::kv_cache::{CacheShape, KVCache, Side};
use argus_kv::merge::{MergeAxis, WeightedMerge};
use argus_kv::standard_format::{BackendCaps, StandardFormat};
use argus_kv::window::Geom;
use half::f16;

/// Single and half precision, and four-bit blocks of 32 elements: a half-precision scale, then two
/// elements per byte.
struct FloatRows;

const QK: usize = 32;

fn q4_encode(x: &[f32]) -> Vec<u8> {
    let mut out: Vec<u8> = Vec::new();
    for block in x.chunks(QK) {
        let mut max = 0.0f32;
        let mut amax = 0.0f32;
        for &v in block {
            if v.abs() > amax {
                amax = v.abs();
                max = v;
            }
        }
        let d = max / -8.0;
        let id = if d != 0.0 { 1.0 / d } else { 0.0 };
        out.extend_from_slice(&f16::from_f32(d).to_le_bytes());
        for i in 0..QK / 2 {
            let lo = ((block[i] * id + 8.5) as i32).clamp(0, 15) as u8;
            let hi = ((block[i + QK / 2] * id + 8.5) as i32).clamp(0, 15) as u8;
            out.push(lo | (hi << 4));
        }
    }
    out
}

fn q4_decode(bytes: &[u8]) -> Vec<f32> {
    let mut out: Vec<f32> = Vec::new();
    for block in bytes.chunks(18) {
        let d = f16::from_le_bytes([block[0], block[1]]).to_f32();
        for i in 0..QK / 2 {
            out.push(((block[2 + i] & 15) as f32 - 8.0) * d);
        }
        for i in 0..QK / 2 {
            out.push(((block[2 + i] >> 4) as f32 - 8.0) * d);
        }
    }
    out
}

fn decode(row: &[u8], dtype: DType) -> Vec<f32> {
    match dtype {
        DType::F32 => row
            .chunks(4)
            .map(|b| f32::from_le_bytes([b[0], b[1], b[2], b[3]]))
            .collect(),
        DType::F16 => row
            .chunks(2)
            .map(|b| f16::from_le_bytes([b[0], b[1]]).to_f32())
            .collect(),
        DType::Q4_0 => q4_decode(row),
        DType::U8 => q4_decode(row),
    }
}

fn encode(x: &[f32], dtype: DType) -> Vec<u8> {
    match dtype {
        DType::F32 => x.iter().flat_map(|v| v.to_le_bytes()).collect(),
        DType::F16 => x.iter().flat_map(|v| f16::from_f32(*v).to_le_bytes()).collect(),
        DType::Q4_0 => q4_encode(x),
        DType::U8 => q4_encode(x),
    }
}

impl RowCodec for FloatRows {
    fn recode(&self, row: &Vec<u8>, from: RowFormat, to: RowFormat) -> Vec<u8> {
        encode(&decode(row, from.dtype), to.dtype)
    }

    fn merge(
        &self,
        format: RowFormat,
        into: &Vec<u8>,
        into_weight: u32,
        from: &Vec<Vec<u8>>,
        weights: &Vec<u32>,
    ) -> Vec<u8> {
        let w0 = f32::from_bits(into_weight);
        let mut acc: Vec<f32> = decode(into, format.dtype).iter().map(|v| w0 * v).collect();
        for (row, w) in from.iter().zip(weights.iter()) {
            let w = f32::from_bits(*w);
            for (a, v) in acc.iter_mut().zip(decode(row, format.dtype)) {
                *a += w * v;
            }
        }
        encode(&acc, format.dtype)
    }
}

fn shape_of(dtype: DType, max_seq: usize, kv_heads: usize, head_dim: usize) -> CacheShape {
    CacheShape {
        dtype,
        opaque: None,
        layout: KVLayout::SeqMajor,
        kv_heads,
        head_dim,
        capacity: max_seq,
        max_seq_len: max_seq,
        dynamic: false,
        on_device: false,
    }
}

/// A plain model of a layer, `[position][head][element]`, and where each head starts.
struct NaiveModel {
    k: Vec<Vec<Vec<f32>>>,
    v: Vec<Vec<Vec<f32>>>,
    head_start: Vec<usize>,
}

fn numbers_at(c: &KVCache, side: Side, pos: usize, head: usize) -> Vec<f32> {
    let mut out = vec![0u8; c.head_dim() * 4];
    let done = match side {
        Side::Key => dequantize_k(c, pos, head, &FloatRows, &mut out),
        Side::Value => dequantize_v(c, pos, head, &FloatRows, &mut out),
    };
    assert!(done);
    decode(&out, DType::F32)
}

impl NaiveModel {
    fn capture(c: &KVCache) -> Self {
        let side = |side: Side| -> Vec<Vec<Vec<f32>>> {
            (0..c.current_pos())
                .map(|p| (0..c.kv_heads()).map(|h| numbers_at(c, side, p, h)).collect())
                .collect()
        };
        NaiveModel { k: side(Side::Key), v: side(Side::Value), head_start: c.head_starts() }
    }

    fn apply_merges(&mut self, merges: &[WeightedMerge]) {
        let (src_k, src_v) = (self.k.clone(), self.v.clone());
        for m in merges {
            let w = f32::from_bits(m.into_weight);
            for head in 0..self.head_start.len() {
                for d in 0..src_k[0][0].len() {
                    let blend = |src: &Vec<Vec<Vec<f32>>>| {
                        let mut acc = w * src[m.into][head][d];
                        for (from, w) in &m.from {
                            acc += f32::from_bits(*w) * src[*from][head][d];
                        }
                        acc
                    };
                    if m.apply_to != MergeAxis::ValueOnly {
                        self.k[m.into][head][d] = blend(&src_k);
                    }
                    if m.apply_to != MergeAxis::KeyOnly {
                        self.v[m.into][head][d] = blend(&src_v);
                    }
                }
            }
        }
    }

    fn expected_after(mut self, merges: &[WeightedMerge], keep: &KeepSpec) -> NaiveModel {
        self.apply_merges(merges);
        let heads = self.head_start.len();
        let lists: Vec<Vec<usize>> = match keep {
            KeepSpec::LayerWide(list) => vec![list.clone(); heads],
            KeepSpec::PerHead(lists) => lists.clone(),
        };
        let n = lists.iter().map(|l| l.len()).max().unwrap_or(0);
        let head_start: Vec<usize> = lists.iter().map(|l| n - l.len()).collect();
        let dim = self.k[0][0].len();
        let mut k = vec![vec![vec![0.0f32; dim]; heads]; n];
        let mut v = k.clone();
        for (h, list) in lists.iter().enumerate() {
            for (i, &src) in list.iter().enumerate() {
                k[head_start[h] + i][h] = self.k[src][h].clone();
                v[head_start[h] + i][h] = self.v[src][h].clone();
            }
        }
        NaiveModel { k, v, head_start }
    }
}

fn assert_cache_matches(c: &KVCache, expected: &NaiveModel, tol: f32) {
    assert_eq!(c.current_pos(), expected.k.len());
    assert_eq!(c.head_starts(), expected.head_start);
    for pos in 0..expected.k.len() {
        for head in 0..c.kv_heads() {
            if pos < expected.head_start[head] {
                continue;
            }
            for (side, want) in [(Side::Key, &expected.k), (Side::Value, &expected.v)] {
                let got = numbers_at(c, side, pos, head);
                for (g, w) in got.iter().zip(&want[pos][head]) {
                    assert!((g - w).abs() <= tol, "pos {pos} head {head}: {g} vs {w}");
                }
            }
        }
    }
}

const MAX_SEQ: usize = 32;
const HD: usize = 4;
const N_KV: usize = 2;

fn k_val(pos: usize, head: usize, d: usize) -> f32 {
    (pos * 32 + head * 8 + d) as f32
}

fn v_val(pos: usize, head: usize, d: usize) -> f32 {
    k_val(pos, head, d) + 0.5
}

fn head_major_cache(dtype: DType, resident: usize) -> KVCache {
    let mut shape = shape_of(dtype, MAX_SEQ, N_KV, HD);
    shape.layout = KVLayout::HeadMajor;
    let mut c = KVCache::new(shape).unwrap();
    for pos in 0..resident {
        for head in 0..N_KV {
            let k: Vec<f32> = (0..HD).map(|d| k_val(pos, head, d)).collect();
            let v: Vec<f32> = (0..HD).map(|d| v_val(pos, head, d)).collect();
            c.write_row(Side::Key, pos, head, &encode(&k, dtype));
            c.write_row(Side::Value, pos, head, &encode(&v, dtype));
        }
    }
    c.set_current_pos(resident);
    c
}

fn read_k(c: &KVCache, pos: usize, head: usize, d: usize) -> f32 {
    numbers_at(c, Side::Key, pos, head)[d]
}

fn commit_per_head(c: &mut KVCache, heads: &[Vec<usize>]) {
    let mut h = EngineCacheHandle::new(c, 0, 1);
    h.keep_per_head(&heads.to_vec()).expect("staged");
    assert!(h.commit(&FloatRows, &mut KeepsetDump::new(false)).expect("committed"));
}

fn size(dtype: DType) -> usize {
    match dtype {
        DType::F32 => 4,
        _ => 2,
    }
}

#[test]
fn unequal_per_head_keep_right_aligns_and_matches_the_naive_oracle() {
    for dtype in [DType::F32, DType::F16] {
        let mut c = head_major_cache(dtype, 12);
        let keep = vec![vec![0, 1, 5, 9, 11], vec![0, 3, 4]];
        let expected = NaiveModel::capture(&c).expected_after(&[], &KeepSpec::PerHead(keep.clone()));
        assert_eq!(expected.head_start, vec![0, 2]);
        commit_per_head(&mut c, &keep);
        assert_cache_matches(&c, &expected, 0.0);
        assert!(c.is_ragged());
        assert_eq!(c.current_pos(), 5);
        assert_eq!(c.head_starts(), vec![0, 2]);
        assert_eq!(c.head_len(0), 5);
        assert_eq!(c.head_len(1), 3);
        assert_eq!(c.resident_positions(), 8);
        assert_eq!(c.resident_tokens(), 4);
        assert_eq!(c.memory_usage_bytes(), 8 * HD * size(dtype) * 2);
        assert_eq!(read_k(&c, 2, 1, 0), k_val(0, 1, 0));
        assert_eq!(read_k(&c, 3, 1, 0), k_val(3, 1, 0));
        assert_eq!(read_k(&c, 4, 1, 0), k_val(4, 1, 0));
    }
}

#[test]
fn equal_per_head_keep_stays_uniform_and_matches_the_layer_wide_keep() {
    let list = vec![0usize, 2, 5, 6, 9];
    let mut per_head = head_major_cache(DType::F32, 12);
    commit_per_head(&mut per_head, &[list.clone(), list.clone()]);
    assert!(!per_head.is_ragged());
    assert_eq!(per_head.head_starts(), vec![0, 0]);
    let mut layer_wide = head_major_cache(DType::F32, 12);
    let mut h = EngineCacheHandle::new(&mut layer_wide, 0, 1);
    h.keep(&list).expect("staged");
    h.commit(&FloatRows, &mut KeepsetDump::new(false)).expect("committed");
    assert_eq!(per_head.current_pos(), layer_wide.current_pos());
    assert_eq!(per_head.k_bytes(), layer_wide.k_bytes());
    assert_eq!(per_head.v_bytes(), layer_wide.v_bytes());
}

#[test]
fn right_aligning_compaction_flushes_runs_in_a_clobber_free_order() {
    let check = |keep: &[usize], write_start: usize| {
        let mut c = head_major_cache(DType::F32, 12);
        let before: Vec<Vec<f32>> =
            (0..12).map(|p| (0..HD).map(|d| read_k(&c, p, 0, d)).collect()).collect();
        c.compact_keep_positions_for_head(0, &keep.to_vec(), write_start).expect("compacted");
        for (i, &src) in keep.iter().enumerate() {
            for d in 0..HD {
                assert_eq!(read_k(&c, write_start + i, 0, d), before[src][d]);
            }
        }
    };
    check(&[0, 1, 7], 7);
    check(&[2, 8], 1);
    check(&[0, 9], 5);
    check(&[0, 1, 2, 3, 4, 5, 6, 7, 8, 9], 2);
    check(&[3, 4, 5, 6], 2);
    let mut seed = 0x9E37u32;
    for _ in 0..200 {
        let mut keep = Vec::new();
        for p in 0..12 {
            seed = seed.wrapping_mul(1_103_515_245).wrapping_add(12_345);
            if (seed >> 16) & 1 == 1 {
                keep.push(p);
            }
        }
        if keep.is_empty() {
            continue;
        }
        check(&keep, 12 - keep.len());
    }
}

#[test]
fn keeps_that_reach_into_a_hole_are_refused() {
    let mut c = head_major_cache(DType::F32, 12);
    commit_per_head(&mut c, &[vec![0, 1, 5, 9, 11], vec![0, 3, 4]]);
    assert_eq!(c.head_starts(), vec![0, 2]);
    let before = c.k_bytes().clone();
    {
        let mut h = EngineCacheHandle::new(&mut c, 0, 1);
        assert_eq!(h.head_start(0), 0);
        assert_eq!(h.head_start(1), 2);
        assert_eq!(h.keep(&vec![0, 1, 2]), Err(CacheOpError::NotResident));
        assert_eq!(h.keep(&vec![1, 3]), Err(CacheOpError::NotResident));
        assert_eq!(
            h.keep_per_head(&vec![vec![0, 1], vec![1, 3]]),
            Err(CacheOpError::NotResident)
        );
        assert_eq!(h.keep_per_head(&vec![vec![0, 1], vec![2, 3]]), Ok(()));
        drop(h);
    }
    assert_eq!(c.k_bytes(), &before);
    assert_eq!(c.current_pos(), 5);
    let expected = NaiveModel::capture(&c).expected_after(&[], &KeepSpec::LayerWide(vec![2, 4]));
    let mut h = EngineCacheHandle::new(&mut c, 0, 1);
    h.keep(&vec![2, 4]).expect("inside every head");
    h.commit(&FloatRows, &mut KeepsetDump::new(false)).expect("committed");
    assert_cache_matches(&c, &expected, 0.0);
    assert!(!c.is_ragged());
    assert_eq!(c.current_pos(), 2);
}

#[test]
fn unequal_keep_needs_a_head_major_typed_store() {
    let mut seq_major = KVCache::new(shape_of(DType::F32, MAX_SEQ, N_KV, HD)).unwrap();
    seq_major.set_current_pos(8);
    assert!(!seq_major.supports_ragged());
    let mut h = EngineCacheHandle::new(&mut seq_major, 0, 1);
    assert_eq!(
        h.keep_per_head(&vec![vec![0, 1, 2], vec![0, 1]]),
        Err(CacheOpError::WrongContainer)
    );
    assert!(head_major_cache(DType::F16, 4).supports_ragged());
}

/// Softmax attention over positions of one head: the output, and each position's share.
fn attend(q: &[f32], keys: &[Vec<f32>], values: &[Vec<f32>]) -> (Vec<f32>, Vec<f32>) {
    let scale = 1.0 / (q.len() as f32).sqrt();
    let logits: Vec<f32> = keys
        .iter()
        .map(|k| q.iter().zip(k).map(|(a, b)| a * b).sum::<f32>() * scale)
        .collect();
    let m = logits.iter().cloned().fold(f32::NEG_INFINITY, f32::max);
    let e: Vec<f32> = logits.iter().map(|l| (l - m).exp()).collect();
    let z: f32 = e.iter().sum();
    let w: Vec<f32> = e.iter().map(|x| x / z).collect();
    let mut out = vec![0.0f32; q.len()];
    for (share, v) in w.iter().zip(values) {
        for (o, x) in out.iter_mut().zip(v) {
            *o += share * x;
        }
    }
    (out, w)
}

fn queries(n_heads_q: usize) -> Vec<Vec<f32>> {
    let flat: Vec<f32> =
        (0..n_heads_q * HD).map(|i| ((i * 7 % 11) as f32 - 5.0) * 0.05).collect();
    flat.chunks(HD).map(|c| c.to_vec()).collect()
}

/// What a backend computes for a decode step along a route: each query head's output, and its
/// scores with zeros in the holes.
fn decode_along(route: &AttnRoute, c: &KVCache, q: &[Vec<f32>]) -> Vec<(Vec<f32>, Vec<f32>)> {
    q.iter()
        .enumerate()
        .map(|(h, q)| {
            let kv = h / 2;
            let (low, base, end) = match route {
                AttnRoute::RaggedDecode { starts, base, end } => (starts[kv], *base, *end),
                AttnRoute::Decode { effective } => (0, 0, *effective),
                _ => unreachable!(),
            };
            let keys: Vec<Vec<f32>> =
                (low..end).map(|p| numbers_at(c, Side::Key, p, kv)).collect();
            let values: Vec<Vec<f32>> =
                (low..end).map(|p| numbers_at(c, Side::Value, p, kv)).collect();
            let (out, w) = attend(q, &keys, &values);
            let mut scores = vec![0.0f32; low - base];
            scores.extend(w);
            (out, scores)
        })
        .collect()
}

fn host() -> BackendCaps {
    BackendCaps {
        is_gpu: false,
        kv_scatter_batch: false,
        kv_scatter_f32_batch: false,
        opaque_q2_dequant: false,
        nosub_device: false,
    }
}

fn gate() -> Q2Gate {
    Q2Gate { enabled: false, min_ctx: 256 }
}

#[test]
fn ragged_decode_attention_skips_the_holes() {
    for dtype in [DType::F32, DType::F16] {
        let mut c = head_major_cache(dtype, 12);
        commit_per_head(&mut c, &[vec![0, 1, 5, 9, 11], vec![0, 3, 4]]);
        let n = c.current_pos();
        let q = queries(4);
        let starts = c.head_starts();
        let r = route(&c, &host(), &gate(), 1, None);
        let got = decode_along(&r, &c, &q);
        for h in 0..4 {
            let kv = h / 2;
            let keys: Vec<Vec<f32>> =
                (starts[kv]..n).map(|p| numbers_at(&c, Side::Key, p, kv)).collect();
            let values: Vec<Vec<f32>> =
                (starts[kv]..n).map(|p| numbers_at(&c, Side::Value, p, kv)).collect();
            let (want, w) = attend(&q[h], &keys, &values);
            for d in 0..HD {
                assert!((got[h].0[d] - want[d]).abs() < 1e-4);
            }
            assert_eq!(got[h].1.len(), n);
            for (p, s) in got[h].1.iter().enumerate() {
                let want = if p < starts[kv] { 0.0 } else { w[p - starts[kv]] };
                assert!((s - want).abs() < 1e-6);
            }
        }

        let r = route(&c, &host(), &gate(), 1, Some(2));
        match &r {
            AttnRoute::RaggedDecode { starts, base, end } => {
                assert_eq!(starts, &vec![3, 3]);
                assert_eq!((*base, *end), (n - 2, n));
            }
            _ => panic!("not ragged"),
        }
        let got = decode_along(&r, &c, &q);
        for h in 0..4 {
            let keys: Vec<Vec<f32>> =
                (n - 2..n).map(|p| numbers_at(&c, Side::Key, p, h / 2)).collect();
            let values: Vec<Vec<f32>> =
                (n - 2..n).map(|p| numbers_at(&c, Side::Value, p, h / 2)).collect();
            let (want, w) = attend(&q[h], &keys, &values);
            for d in 0..HD {
                assert!((got[h].0[d] - want[d]).abs() < 1e-4);
            }
            assert!((got[h].1[0] - w[0]).abs() < 1e-6);
            assert!((got[h].1[1] - w[1]).abs() < 1e-6);
        }
    }
    let c = head_major_cache(DType::F32, 9);
    assert!(matches!(route(&c, &host(), &gate(), 1, None), AttnRoute::Decode { effective: 9 }));
}

#[test]
fn standard_format_decode_dispatches_a_ragged_cache_to_the_ragged_kernel() {
    let mut c = head_major_cache(DType::F32, 12);
    commit_per_head(&mut c, &[vec![0, 1, 5, 9, 11], vec![0, 3, 4]]);
    let q = queries(4);
    let fmt = StandardFormat::new(0, c);
    assert_eq!(fmt.resident_tokens(), 4);
    assert_eq!(fmt.current_pos(), 5);
    let dims = AttnDims { n_heads_q: 4, window: None };
    let r = fmt.attention_into(&host(), &gate(), 1, dims);
    let got = decode_along(&r, fmt.plan_lock(), &q);
    let survivors = [vec![0usize, 1, 5, 9, 11], vec![0usize, 3, 4]];
    for h in 0..4 {
        let kv = h / 2;
        let row = |f: fn(usize, usize, usize) -> f32| -> Vec<Vec<f32>> {
            survivors[kv].iter().map(|&p| (0..HD).map(|d| f(p, kv, d)).collect()).collect()
        };
        let (want, _) = attend(&q[h], &row(k_val), &row(v_val));
        for d in 0..HD {
            assert!((got[h].0[d] - want[d]).abs() < 1e-4);
        }
    }
}

#[test]
fn ragged_prefill_head_equals_the_plain_kernel_on_the_resident_run() {
    let kv_len = 14;
    let q_len = 3;
    let kv_start = 5;
    let k: Vec<f32> = (0..kv_len * HD).map(|i| ((i * 13 % 17) as f32 - 8.0) * 0.07).collect();
    let v: Vec<f32> = (0..kv_len * HD).map(|i| ((i * 5 % 13) as f32 - 6.0) * 0.09).collect();
    let q: Vec<f32> = (0..q_len * HD).map(|i| ((i * 3 % 7) as f32 - 3.0) * 0.1).collect();
    let rows = |x: &[f32]| -> Vec<Vec<f32>> { x.chunks(HD).map(|c| c.to_vec()).collect() };
    let (k, v, q) = (rows(&k), rows(&v), rows(&q));
    let geom = |len: usize| Geom {
        n_layers: 1,
        n_heads_q: 1,
        n_kv_heads: 1,
        head_dim: HD,
        current_pos: len,
        rows: q_len,
    };
    let head = |g: Geom, start: usize, k: &[Vec<f32>], v: &[Vec<f32>]| -> Vec<f32> {
        (0..q_len)
            .flat_map(|t| {
                let (low, end) = g.visible(t, start).unwrap();
                attend(&q[t], &k[low..end], &v[low..end]).0
            })
            .collect()
    };
    let ragged = head(geom(kv_len), kv_start, &k, &v);
    let plain = head(geom(kv_len - kv_start), 0, &k[kv_start..], &v[kv_start..]);
    for (a, b) in ragged.iter().zip(&plain) {
        assert!((a - b).abs() < 1e-5);
    }
    let full = head(geom(kv_len), 0, &k, &v);
    assert!(ragged.iter().zip(&full).any(|(a, b)| (a - b).abs() > 1e-3));
}

#[test]
fn aperturb_reference_is_the_resident_set_and_holes_are_rejected() {
    let starts = vec![vec![0usize, 2], vec![1usize, 0]];
    let base = KeepSets::resident(&starts, 2, 5).unwrap();
    assert_eq!(base.head(0, 0), &vec![0, 1, 2, 3, 4]);
    assert_eq!(base.head(0, 1), &vec![2, 3, 4]);
    assert_eq!(base.head(1, 0), &vec![1, 2, 3, 4]);
    assert_eq!(base.head(1, 1), &vec![0, 1, 2, 3, 4]);
    assert!(base.is_ragged());
    let uniform = KeepSets::resident(&vec![vec![0, 0], vec![0, 0]], 2, 5).unwrap();
    assert!(uniform.same_as(&KeepSets::identity(2, 2, 5)));

    let mut ok = KeepSets::with_capacity(2, 2);
    ok.push(0, 0, &vec![0, 4]).unwrap();
    ok.push(0, 1, &vec![2, 4]).unwrap();
    ok.push(1, 0, &vec![1, 4]).unwrap();
    ok.push(1, 1, &vec![4]).unwrap();
    assert!(ok.validate_within(&base).is_ok());

    let mut bad = KeepSets::with_capacity(2, 2);
    bad.push(0, 0, &vec![0, 4]).unwrap();
    bad.push(0, 1, &vec![1, 4]).unwrap();
    bad.push(1, 0, &vec![1, 4]).unwrap();
    bad.push(1, 1, &vec![4]).unwrap();
    let err = bad.validate_within(&base).unwrap_err();
    assert!(matches!(err, KeepError::Hole { layer: 0, kv_head: 1, pos: 1, start: 2 }));
}

#[test]
fn a_shared_cursor_right_aligns_every_head_on_it() {
    let keep = vec![vec![0usize, 1, 5, 9, 11], vec![0usize, 3, 4]];
    let mut rec = KeepsetDump::new(false);
    let mut c = head_major_cache(DType::F32, 12);
    apply_per_head_keep_at(&mut c, &mut rec, 0, 1, &keep, 8).expect("applied");
    assert_eq!(c.current_pos(), 8);
    assert_eq!(c.head_starts(), vec![3, 5]);
    assert_eq!(c.resident_positions(), 8);
    for (h, list) in keep.iter().enumerate() {
        let start = c.head_start(h);
        for (i, &src) in list.iter().enumerate() {
            for d in 0..HD {
                assert_eq!(read_k(&c, start + i, h, d), k_val(src, h, d));
            }
        }
    }
    let mut c = head_major_cache(DType::F32, 12);
    let before = c.k_bytes().clone();
    assert!(apply_per_head_keep_at(&mut c, &mut rec, 0, 1, &keep, 4).is_err());
    assert!(apply_per_head_keep_at(&mut c, &mut rec, 0, 1, &keep, 13).is_err());
    assert_eq!(c.k_bytes(), &before);
    assert_eq!(c.current_pos(), 12);
}

#[test]
fn retained_sets_report_what_is_wrong_with_them() {
    let base = KeepSets::identity(1, 2, 4);
    let mut short = KeepSets::with_capacity(1, 2);
    short.push(0, 0, &vec![1]).unwrap();
    assert_eq!(short.validate(4), Err(KeepError::Incomplete { filled: 1 }));
    short.push(0, 1, &vec![3, 2]).unwrap();
    assert_eq!(
        short.validate(4),
        Err(KeepError::NotAscending { layer: 0, kv_head: 1, pos: 2 })
    );
    assert_eq!(
        KeepSets::identity(2, 2, 4).validate_within(&base),
        Err(KeepError::Geometry)
    );
    assert_eq!(base.validate(4), Ok(()));
    assert_eq!(base.total(), 8);
}

#[test]
fn a_device_takes_the_routes_that_it_can_run() {
    let gpu = BackendCaps { is_gpu: true, opaque_q2_dequant: true, ..host() };
    let mut c = KVCache::new(shape_of(DType::Q4_0, 512, 1, 64)).unwrap();
    c.set_current_pos(300);
    assert!(matches!(
        route(&c, &gpu, &gate(), 1, Some(100)),
        AttnRoute::Q4Fallback { effective: 100, kv_start_pos: 200 }
    ));
    assert!(matches!(
        route(&c, &host(), &gate(), 1, Some(100)),
        AttnRoute::Decode { effective: 100 }
    ));

    let two_bit = KVLayoutDesc {
        block_elems: 32,
        bits: 2,
        scale_layout: ScaleLayout::PerBlockF16WithMin,
        packing: Packing::Quad,
    };
    let mut q2 = KVCache::new(CacheShape {
        dtype: DType::U8,
        opaque: Some(two_bit),
        layout: KVLayout::HeadMajor,
        dynamic: true,
        ..shape_of(DType::F32, 512, 1, 64)
    })
    .unwrap();
    q2.set_current_pos(300);
    let on = Q2Gate { enabled: true, min_ctx: 256 };
    assert!(matches!(
        route(&q2, &gpu, &on, 4, None),
        AttnRoute::DeviceQ2 { step: AttnStep::Prefill { q_start_pos: 296 } }
    ));
    for (caps, gate) in [(&gpu, gate()), (&gpu, Q2Gate { enabled: true, min_ctx: 301 })] {
        assert!(matches!(
            route(&q2, caps, &gate, 1, None),
            AttnRoute::HostFloor { via_host: true, step: AttnStep::Decode { effective: 300 } }
        ));
    }
    assert!(matches!(
        route(&q2, &host(), &on, 1, None),
        AttnRoute::HostFloor { via_host: false, .. }
    ));
}
