use argus_kv::attention::{band_start, AttnDims, AttnRoute, AttnStep, PrefillDims, PrefillSource,
    Q2Gate};
use argus_kv::cache_handle::EngineCacheHandle;
use argus_kv::codec::{RowCodec, RowFormat};
use argus_kv::dtype::{DType, KVLayout, KVLayoutDesc, Packing, ScaleLayout};
use argus_kv::keepset_dump::KeepsetDump;
use argus_kv::kv_cache::{CacheShape, KVCache, KvError, Side, Tensor};
use argus_kv::merge::{apply_weighted_merges, MergeAxis, WeightedMerge};
use argus_kv::operands::host_operands;
use argus_kv::prefill::{prefill_attention, HostPrefill, PrefillPlace, PrefillWork};
use argus_kv::rows::RowBuffer;
use argus_kv::selected_attention::SelectedStep;
use argus_kv::selective_read::{gather_selected_kv, KVReadPlan, KVReadStage, ReadCtx,
    ReadGranularity};
use argus_kv::standard_format::{BackendCaps, StandardFormat};
use half::f16;

/// Single and half precision, and four-bit blocks of 32 elements: a half-precision scale, then two
/// elements per byte.
struct FloatRows;

const QK: usize = 32;

fn q4_encode(x: &[f32]) -> Vec<u8> {
    let mut out: Vec<u8> = Vec::new();
    for block in x.chunks(QK) {
        let mut max = 0.0f32;
        let mut amax = 0.0f32;
        for &v in block {
            if v.abs() > amax {
                amax = v.abs();
                max = v;
            }
        }
        let d = max / -8.0;
        let id = if d != 0.0 { 1.0 / d } else { 0.0 };
        out.extend_from_slice(&f16::from_f32(d).to_le_bytes());
        for i in 0..QK / 2 {
            let lo = ((block[i] * id + 8.5) as i32).clamp(0, 15) as u8;
            let hi = ((block[i + QK / 2] * id + 8.5) as i32).clamp(0, 15) as u8;
            out.push(lo | (hi << 4));
        }
    }
    out
}

fn q4_decode(bytes: &[u8]) -> Vec<f32> {
    let mut out: Vec<f32> = Vec::new();
    for block in bytes.chunks(18) {
        let d = f16::from_le_bytes([block[0], block[1]]).to_f32();
        for i in 0..QK / 2 {
            out.push(((block[2 + i] & 15) as f32 - 8.0) * d);
        }
        for i in 0..QK / 2 {
            out.push(((block[2 + i] >> 4) as f32 - 8.0) * d);
        }
    }
    out
}

fn decode(row: &[u8], dtype: DType) -> Vec<f32> {
    match dtype {
        DType::F32 => row
            .chunks(4)
            .map(|b| f32::from_le_bytes([b[0], b[1], b[2], b[3]]))
            .collect(),
        DType::F16 => row
            .chunks(2)
            .map(|b| f16::from_le_bytes([b[0], b[1]]).to_f32())
            .collect(),
        DType::Q4_0 => q4_decode(row),
        DType::U8 => q4_decode(row),
    }
}

fn encode(x: &[f32], dtype: DType) -> Vec<u8> {
    match dtype {
        DType::F32 => x.iter().flat_map(|v| v.to_le_bytes()).collect(),
        DType::F16 => x.iter().flat_map(|v| f16::from_f32(*v).to_le_bytes()).collect(),
        DType::Q4_0 => q4_encode(x),
        DType::U8 => q4_encode(x),
    }
}

impl RowCodec for FloatRows {
    fn recode(&self, row: &Vec<u8>, from: RowFormat, to: RowFormat) -> Vec<u8> {
        encode(&decode(row, from.dtype), to.dtype)
    }

    fn merge(
        &self,
        format: RowFormat,
        into: &Vec<u8>,
        into_weight: u32,
        from: &Vec<Vec<u8>>,
        weights: &Vec<u32>,
    ) -> Vec<u8> {
        let w0 = f32::from_bits(into_weight);
        let mut acc: Vec<f32> = decode(into, format.dtype).iter().map(|v| w0 * v).collect();
        for (row, w) in from.iter().zip(weights.iter()) {
            let w = f32::from_bits(*w);
            for (a, v) in acc.iter_mut().zip(decode(row, format.dtype)) {
                *a += w * v;
            }
        }
        encode(&acc, format.dtype)
    }
}

fn f32_tensor(seq: usize, kv_heads: usize, head_dim: usize, data: &[f32]) -> Tensor {
    Tensor::new(DType::F32, seq, kv_heads, head_dim, encode(data, DType::F32)).unwrap()
}

fn shape_of(dtype: DType, max_seq: usize, kv_heads: usize, head_dim: usize) -> CacheShape {
    CacheShape {
        dtype,
        opaque: None,
        layout: KVLayout::SeqMajor,
        kv_heads,
        head_dim,
        capacity: max_seq,
        max_seq_len: max_seq,
        dynamic: false,
        on_device: false,
    }
}

fn host() -> BackendCaps {
    BackendCaps {
        is_gpu: false,
        kv_scatter_batch: false,
        kv_scatter_f32_batch: false,
        opaque_q2_dequant: false,
        nosub_device: false,
    }
}

fn gate() -> Q2Gate {
    Q2Gate { enabled: false, min_ctx: 256 }
}

fn rows_at(c: &KVCache, side: Side, head: usize, low: usize, end: usize) -> Vec<Vec<f32>> {
    (low..end).map(|p| decode(&c.read_row(side, p, head), c.kv_dtype())).collect()
}

/// Softmax attention: the output, and each position's share.
fn attend(q: &[f32], keys: &[Vec<f32>], values: &[Vec<f32>]) -> (Vec<f32>, Vec<f32>) {
    let scale = 1.0 / (q.len() as f32).sqrt();
    let logits: Vec<f32> = keys
        .iter()
        .map(|k| q.iter().zip(k).map(|(a, b)| a * b).sum::<f32>() * scale)
        .collect();
    let m = logits.iter().cloned().fold(f32::NEG_INFINITY, f32::max);
    let e: Vec<f32> = logits.iter().map(|l| (l - m).exp()).collect();
    let z: f32 = e.iter().sum();
    let w: Vec<f32> = e.iter().map(|x| x / z).collect();
    let mut out = vec![0.0f32; q.len()];
    for (share, v) in w.iter().zip(values) {
        for (o, x) in out.iter_mut().zip(v) {
            *o += share * x;
        }
    }
    (out, w)
}

/// What a backend computes for a step over a layer: the output, and a decode step's scores.
fn attention(fmt: &StandardFormat, q: &[f32], seq: usize, dims: AttnDims) -> (Vec<f32>, Vec<f32>) {
    let c = fmt.plan_lock();
    let dim = c.head_dim();
    let group = dims.n_heads_q / c.kv_heads();
    let route = fmt.attention_into(&host(), &gate(), seq, dims);
    let (mut out, mut scores) = (Vec::new(), Vec::new());
    for r in 0..seq {
        for h in 0..dims.n_heads_q {
            let kv = h / group;
            let (low, end) = match &route {
                AttnRoute::Decode { effective } => (0, *effective),
                AttnRoute::HostFloor { step: AttnStep::Decode { effective }, .. } => {
                    (0, *effective)
                }
                AttnRoute::HostFloor { step: AttnStep::Prefill { q_start_pos }, .. } => {
                    (band_start(q_start_pos + r, dims.window), q_start_pos + r + 1)
                }
                AttnRoute::Prefill { q_start_pos, starts } => (
                    starts[kv].max(band_start(q_start_pos + r, dims.window)),
                    q_start_pos + r + 1,
                ),
                AttnRoute::RaggedDecode { starts, end, .. } => (starts[kv], *end),
                _ => unreachable!(),
            };
            let base = (r * dims.n_heads_q + h) * dim;
            let (o, w) = attend(
                &q[base..base + dim],
                &rows_at(c, Side::Key, kv, low, end),
                &rows_at(c, Side::Value, kv, low, end),
            );
            out.extend(o);
            scores.extend(w);
        }
    }
    (out, scores)
}

fn make_cache(max_seq: usize, kv_heads: usize, head_dim: usize) -> KVCache {
    KVCache::new(shape_of(DType::F32, max_seq, kv_heads, head_dim)).unwrap()
}

#[test]
fn test_attention_into_f32_uniform() {
    let head_dim = 4;
    let mut fmt = StandardFormat::new(0, make_cache(8, 1, head_dim));
    for _ in 0..2 {
        let k = f32_tensor(1, 1, head_dim, &[0.0; 4]);
        let v = f32_tensor(1, 1, head_dim, &[5.0; 4]);
        fmt.write_kv(&k, &v, &FloatRows, &host()).unwrap();
    }
    assert_eq!(fmt.current_pos(), 2);
    let dims = AttnDims { n_heads_q: 1, window: None };
    let (out, scores) = attention(&fmt, &[1.0; 4], 1, dims);
    for x in out {
        assert!((x - 5.0).abs() < 1e-4);
    }
    assert!((scores[0] - 0.5).abs() < 1e-4);
    assert!((scores[1] - 0.5).abs() < 1e-4);
}

#[test]
fn test_prefill_attention_causal_uniform() {
    let (head_dim, seq) = (4, 4);
    let mut fmt = StandardFormat::new(0, make_cache(16, 1, head_dim));
    let v_data: Vec<f32> = (0..seq * head_dim).map(|i| (i / head_dim) as f32).collect();
    let kb = f32_tensor(seq, 1, head_dim, &vec![0.0; seq * head_dim]);
    let vb = f32_tensor(seq, 1, head_dim, &v_data);
    fmt.write_kv_batch(&kb, &vb, &FloatRows, &host()).unwrap();
    assert_eq!(fmt.current_pos(), seq);
    let dims = AttnDims { n_heads_q: 1, window: None };
    let (o, _) = attention(&fmt, &vec![1.0; seq * head_dim], seq, dims);
    for r in 0..seq {
        let expected = r as f32 / 2.0;
        for d in 0..head_dim {
            assert!((o[r * head_dim + d] - expected).abs() < 1e-4);
        }
    }
}

#[test]
fn test_attention_into_window_clamps_len() {
    let head_dim = 4;
    let mut fmt = StandardFormat::new(0, make_cache(8, 1, head_dim));
    for p in 0..3 {
        let t = f32_tensor(1, 1, head_dim, &[p as f32; 4]);
        fmt.write_kv(&t, &t, &FloatRows, &host()).unwrap();
    }
    let dims = AttnDims { n_heads_q: 1, window: Some(1) };
    let (o, scores) = attention(&fmt, &[1.0; 4], 1, dims);
    assert!((scores[0] - 1.0).abs() < 1e-4);
    for x in o {
        assert!(x.abs() < 1e-4);
    }
}

fn dims_of(nq: usize, nkv: usize, layout: KVLayout, window: Option<usize>) -> PrefillDims {
    PrefillDims {
        n_heads_q: nq,
        n_heads_kv: nkv,
        head_dim: 8,
        seq_len: 6,
        cache_seq_len: 6,
        kv_capacity: 16,
        batch_size: 1,
        layout,
        q_start_pos: 0,
        window,
    }
}

fn on_host(dtype: DType) -> PrefillPlace {
    PrefillPlace { caps: host(), kv_on_device: false, query_on_device: false, dtype }
}

fn host_work(d: &PrefillDims, q_window: Option<usize>) -> HostPrefill {
    match prefill_attention(d, &on_host(DType::F32), false, q_window) {
        PrefillWork::Host(work) => work,
        PrefillWork::Done => panic!("no device"),
    }
}

/// The scores of the trailing queries, accumulated along the planned rows.
fn prefill_scores(d: &PrefillDims, q: &[f32], k: &[f32], q_window: usize) -> Vec<f32> {
    let work = host_work(d, Some(q_window));
    let scale = 1.0f32 / (d.head_dim as f32).sqrt();
    let mut out = vec![0.0f32; d.n_heads_q * d.cache_seq_len];
    for row in work.scores.unwrap() {
        let logits: Vec<f32> = (row.low..=row.high)
            .map(|p| {
                let kb = p * work.strides.k_pos + row.kv_head * work.strides.kv_head;
                let mut dot = 0.0f32;
                for e in 0..d.head_dim {
                    dot += q[row.q_base + e] * k[kb + e];
                }
                dot * scale
            })
            .collect();
        let mut m = f32::NEG_INFINITY;
        for l in &logits {
            if *l > m {
                m = *l;
            }
        }
        let e: Vec<f32> = logits.iter().map(|l| (l - m).exp()).collect();
        let mut denom = 0.0f32;
        for x in &e {
            denom += x;
        }
        for (i, x) in e.iter().enumerate() {
            out[row.out_base + row.low + i] += x / denom;
        }
    }
    out
}

/// The same scores with every index written out.
fn reference_scores(
    d: &PrefillDims,
    strides: (usize, usize),
    q: &[f32],
    k: &[f32],
    q_window: usize,
) -> Vec<f32> {
    let n = d.cache_seq_len;
    let scale = 1.0f32 / (d.head_dim as f32).sqrt();
    let gqa = d.n_heads_q / d.n_heads_kv;
    let first = d.seq_len - q_window.min(d.seq_len);
    let mut out = vec![0.0f32; d.n_heads_q * n];
    let mut scratch = vec![0.0f32; n];
    for h in 0..d.n_heads_q {
        for r in first..d.seq_len {
            let p = d.q_start_pos + r;
            let lo = match d.window {
                Some(w) => p.saturating_sub(w.saturating_sub(1)),
                None => 0,
            };
            let qb = r * d.n_heads_q * d.head_dim + h * d.head_dim;
            let mut m = f32::NEG_INFINITY;
            for kp in lo..=p {
                let kb = kp * strides.0 + (h / gqa) * strides.1;
                let mut dot = 0.0f32;
                for e in 0..d.head_dim {
                    dot += q[qb + e] * k[kb + e];
                }
                scratch[kp] = dot * scale;
                if scratch[kp] > m {
                    m = scratch[kp];
                }
            }
            let mut denom = 0.0f32;
            for kp in lo..=p {
                scratch[kp] = (scratch[kp] - m).exp();
                denom += scratch[kp];
            }
            for kp in lo..=p {
                out[h * n + kp] += scratch[kp] / denom;
            }
        }
    }
    out
}

/// The same scores by a plain softmax in double precision.
fn eager_scores(
    d: &PrefillDims,
    strides: (usize, usize),
    q: &[f32],
    k: &[f32],
    q_window: usize,
) -> Vec<f32> {
    let n = d.cache_seq_len;
    let scale = 1.0f64 / (d.head_dim as f64).sqrt();
    let gqa = d.n_heads_q / d.n_heads_kv;
    let first = d.seq_len - q_window.min(d.seq_len);
    let mut out = vec![0.0f64; d.n_heads_q * n];
    for h in 0..d.n_heads_q {
        for r in first..d.seq_len {
            let p = d.q_start_pos + r;
            let lo = match d.window {
                Some(w) => p.saturating_sub(w.saturating_sub(1)),
                None => 0,
            };
            let qb = r * d.n_heads_q * d.head_dim + h * d.head_dim;
            let logits: Vec<f64> = (lo..=p)
                .map(|kp| {
                    let kb = kp * strides.0 + (h / gqa) * strides.1;
                    (0..d.head_dim).map(|e| q[qb + e] as f64 * k[kb + e] as f64).sum::<f64>() * scale
                })
                .collect();
            let m = logits.iter().copied().fold(f64::NEG_INFINITY, f64::max);
            let denom: f64 = logits.iter().map(|l| (l - m).exp()).sum();
            for (i, l) in logits.iter().enumerate() {
                out[h * n + lo + i] += (l - m).exp() / denom;
            }
        }
    }
    out.iter().map(|x| *x as f32).collect()
}

fn score_cases() -> Vec<(PrefillDims, (usize, usize), Vec<f32>, Vec<f32>)> {
    let mut cases = Vec::new();
    for (nq, nkv, layout) in [
        (4, 4, KVLayout::SeqMajor),
        (4, 2, KVLayout::SeqMajor),
        (4, 4, KVLayout::HeadMajor),
        (4, 2, KVLayout::HeadMajor),
    ] {
        for window in [None, Some(4usize)] {
            let d = dims_of(nq, nkv, layout, window);
            let (strides, len) = match layout {
                KVLayout::SeqMajor => ((nkv * 8, 8), 6 * nkv * 8),
                KVLayout::HeadMajor => ((8, 16 * 8), nkv * 16 * 8),
            };
            let q = (0..6 * nq * 8).map(|i| ((i % 13) as f32 - 6.0) * 0.1).collect();
            let k = (0..len).map(|i| ((i % 17) as f32 - 8.0) * 0.07).collect();
            cases.push((d, strides, q, k));
        }
    }
    cases
}

#[test]
fn pfa_matches_eager_softmax_reference() {
    for (d, strides, q, k) in score_cases() {
        let got = prefill_scores(&d, &q, &k, 3);
        let want = eager_scores(&d, strides, &q, &k, 3);
        for (g, w) in got.iter().zip(want.iter()) {
            assert!((g - w).abs() < 1e-4);
        }
    }
}

#[test]
fn pfa_bit_exact_matches_eager_reference() {
    for (d, strides, q, k) in score_cases() {
        assert_eq!(
            prefill_scores(&d, &q, &k, 3),
            reference_scores(&d, strides, &q, &k, 3)
        );
    }
}

#[test]
fn pfa_softmax_sum_property() {
    let d = PrefillDims {
        n_heads_q: 2,
        n_heads_kv: 1,
        head_dim: 4,
        seq_len: 5,
        cache_seq_len: 5,
        kv_capacity: 5,
        batch_size: 1,
        layout: KVLayout::SeqMajor,
        q_start_pos: 0,
        window: None,
    };
    let q: Vec<f32> = (0..5 * 2 * 4).map(|i| ((i % 7) as f32 - 3.0) * 0.2).collect();
    let k: Vec<f32> = (0..5 * 4).map(|i| ((i % 5) as f32 - 2.0) * 0.3).collect();
    for q_window in [1usize, 3] {
        let out = prefill_scores(&d, &q, &k, q_window);
        for h in 0..2 {
            let sum: f32 = out[h * 5..(h + 1) * 5].iter().sum();
            assert!((sum - q_window as f32).abs() < 1e-4);
        }
    }
}

#[test]
fn pfa_side_channel_does_not_touch_out() {
    let (kv_heads, head_dim, n_heads_q, seq) = (2, 4, 4, 5);
    let k_data: Vec<f32> =
        (0..seq * kv_heads * head_dim).map(|i| ((i % 11) as f32 - 5.0) * 0.13).collect();
    let v_data: Vec<f32> =
        (0..seq * kv_heads * head_dim).map(|i| ((i % 9) as f32 - 4.0) * 0.21).collect();
    let q: Vec<f32> =
        (0..seq * n_heads_q * head_dim).map(|i| ((i % 13) as f32 - 6.0) * 0.1).collect();
    let d = PrefillDims {
        n_heads_q,
        n_heads_kv: kv_heads,
        head_dim,
        seq_len: seq,
        cache_seq_len: seq,
        kv_capacity: 16,
        batch_size: 1,
        layout: KVLayout::SeqMajor,
        q_start_pos: 0,
        window: None,
    };
    let run = |q_window: Option<usize>| {
        let mut fmt = StandardFormat::new(0, make_cache(16, kv_heads, head_dim));
        let kb = f32_tensor(seq, kv_heads, head_dim, &k_data);
        let vb = f32_tensor(seq, kv_heads, head_dim, &v_data);
        fmt.write_kv_batch(&kb, &vb, &FloatRows, &host()).unwrap();
        let work = host_work(&d, q_window);
        let out = attention(&fmt, &q, seq, AttnDims { n_heads_q, window: None }).0;
        (work.batches, work.strides, out)
    };
    assert_eq!(run(None), run(Some(2)));
    let pfa = prefill_scores(&d, &q, &k_data, 2);
    assert!(pfa.iter().any(|&x| x != 0.0));
}

#[test]
fn a_prefill_that_a_device_ran_is_done_and_one_it_declined_is_read_back() {
    let d = dims_of(4, 2, KVLayout::HeadMajor, None);
    let mut place = on_host(DType::F16);
    place.caps.is_gpu = true;
    place.kv_on_device = true;
    place.query_on_device = true;
    assert!(matches!(prefill_attention(&d, &place, true, None), PrefillWork::Done));
    match prefill_attention(&d, &place, false, None) {
        PrefillWork::Host(work) => {
            assert_eq!(work.source, PrefillSource::ReadBack);
            assert!(work.write_back && work.scores.is_none());
        }
        PrefillWork::Done => panic!("declined"),
    }
    let work = match prefill_attention(&d, &on_host(DType::Q4_0), true, None) {
        PrefillWork::Host(work) => work,
        PrefillWork::Done => panic!("no device"),
    };
    assert_eq!(work.source, PrefillSource::Widen { dtype: DType::Q4_0 });
    assert_eq!(host_work(&d, None).source, PrefillSource::Direct);
    let two = PrefillDims { batch_size: 2, ..d };
    let b = host_work(&two, None).batches[1];
    assert_eq!((b.q_start, b.k_start, b.k_end), (6 * 4 * 8, 16 * 2 * 8, 2 * 16 * 2 * 8));
}

fn make_head_major_cache(capacity: usize, kv_heads: usize, head_dim: usize) -> KVCache {
    let mut shape = shape_of(DType::F32, capacity, kv_heads, head_dim);
    shape.layout = KVLayout::HeadMajor;
    shape.dynamic = true;
    KVCache::new(shape).unwrap()
}

fn write_tokens_headmajor(cache: &mut KVCache, n_tokens: usize) {
    for h in 0..cache.kv_heads() {
        for pos in 0..n_tokens {
            let k = vec![pos as f32 + 0.1 * h as f32; cache.head_dim()];
            let v = vec![pos as f32 + 0.5 * h as f32; cache.head_dim()];
            cache.write_row(Side::Key, pos, h, &encode(&k, DType::F32));
            cache.write_row(Side::Value, pos, h, &encode(&v, DType::F32));
        }
    }
    cache.set_current_pos(n_tokens);
    cache.raise_high_water(n_tokens);
}

fn written(capacity: usize, kv_heads: usize, n_tokens: usize) -> StandardFormat {
    let mut c = make_head_major_cache(capacity, kv_heads, 4);
    write_tokens_headmajor(&mut c, n_tokens);
    StandardFormat::new(0, c)
}

#[test]
fn gather_selected_kv_allows_host_cache() {
    let mut cache = make_head_major_cache(8, 2, 4);
    write_tokens_headmajor(&mut cache, 4);
    let (k, v) = gather_selected_kv(&cache, &FloatRows, &vec![0, 1, 2]).unwrap();
    let k = decode(k.as_bytes(), DType::F32);
    assert_eq!(k.len(), 2 * 3 * 4);
    assert_eq!(decode(v.as_bytes(), DType::F32).len(), 2 * 3 * 4);
    assert!((k[4] - 1.0).abs() < 1e-6);
}

/// What a backend computes for a decode step over selected positions.
fn attention_selected(
    fmt: &StandardFormat,
    q: &[f32],
    n_heads_q: usize,
    select: &[usize],
    granularity: ReadGranularity,
) -> Vec<f32> {
    let dim = fmt.plan_lock().head_dim();
    match fmt
        .attention_into_selected(&FloatRows, None, &select.to_vec(), granularity)
        .unwrap()
    {
        SelectedStep::Zero => vec![0.0; n_heads_q * dim],
        SelectedStep::Attend(rows) => (0..n_heads_q)
            .flat_map(|h| {
                let kv = h / (n_heads_q / rows.n_kv_heads);
                let side = |buf: &RowBuffer| -> Vec<Vec<f32>> {
                    (0..rows.n_selected)
                        .map(|i| decode(&buf.read(kv * rows.n_selected + i), DType::F32))
                        .collect()
                };
                attend(&q[h * dim..(h + 1) * dim], &side(&rows.keys), &side(&rows.values)).0
            })
            .collect(),
    }
}

#[test]
fn selective_read_full_select_bit_identical_f32() {
    let n_tokens = 4;
    let dims = AttnDims { n_heads_q: 1, window: None };
    let full = attention(&written(n_tokens + 4, 1, n_tokens), &[1.0; 4], 1, dims).0;
    let all: Vec<usize> = (0..n_tokens).collect();
    let selected = attention_selected(
        &written(n_tokens + 4, 1, n_tokens),
        &[1.0; 4],
        1,
        &all,
        ReadGranularity::Token,
    );
    for (a, b) in full.iter().zip(&selected) {
        assert!((a - b).abs() < 1e-5);
    }
    // Several heads, each with its own rows.
    let dims = AttnDims { n_heads_q: 4, window: None };
    let q: Vec<f32> = (0..16).map(|i| i as f32 * 0.05 - 0.3).collect();
    let full = attention(&written(n_tokens + 4, 2, n_tokens), &q, 1, dims).0;
    let fmt = written(n_tokens + 4, 2, n_tokens);
    assert_eq!(attention_selected(&fmt, &q, 4, &all, ReadGranularity::Token), full);
}

#[test]
fn selective_read_partial_select_completes_finite() {
    let fmt = written(10, 1, 6);
    let out = attention_selected(&fmt, &[0.5; 4], 1, &[0, 1, 2], ReadGranularity::Token);
    assert!(out.iter().all(|x| x.is_finite()));
}

#[test]
fn selective_read_page_granularity_completes() {
    let fmt = written(12, 1, 8);
    let pages = ReadGranularity::Page { page_size: 2 };
    let out = attention_selected(&fmt, &[1.0; 4], 1, &[0, 1], pages);
    assert!(out.iter().all(|x| x.is_finite()));
    let tokens = attention_selected(&fmt, &[1.0; 4], 1, &[0, 1, 2, 3], ReadGranularity::Token);
    assert_eq!(out, tokens);
}

#[test]
fn a_selected_read_of_nothing_is_zero_and_one_of_a_device_needs_a_copy() {
    let fmt = written(8, 1, 4);
    let none = fmt.attention_into_selected(&FloatRows, None, &vec![], ReadGranularity::Token);
    assert!(matches!(none, Ok(SelectedStep::Zero)));
    let past = ReadGranularity::Page { page_size: 4 };
    let none = fmt.attention_into_selected(&FloatRows, None, &vec![1], past);
    assert!(matches!(none, Ok(SelectedStep::Zero)));

    let mut shape = shape_of(DType::F32, 8, 1, 4);
    shape.on_device = true;
    let mut far = KVCache::new(shape).unwrap();
    far.set_current_pos(4);
    let far = StandardFormat::new(0, far);
    let one = vec![1usize];
    let r = far.attention_into_selected(&FloatRows, None, &one, ReadGranularity::Token);
    assert!(matches!(r, Err(KvError::NotOnHost)));
    let copy = written(8, 1, 4).into_inner();
    match far.attention_into_selected(&FloatRows, Some(&copy), &one, ReadGranularity::Token) {
        Ok(SelectedStep::Attend(rows)) => {
            assert!(rows.by_host);
            assert_eq!(decode(&rows.keys.read(0), DType::F32), vec![1.0; 4]);
        }
        _ => panic!("read from the copy"),
    }
}

struct MockReadStage {
    granularity: ReadGranularity,
    fixed_select: Option<Vec<usize>>,
    plan_none: bool,
}

impl KVReadStage for MockReadStage {
    fn read_plan(&self, ctx: &ReadCtx) -> Option<KVReadPlan> {
        if self.plan_none {
            return None;
        }
        let select = match &self.fixed_select {
            Some(s) => s.clone(),
            None => (0..ctx.current_pos).collect(),
        };
        Some(KVReadPlan { granularity: self.granularity, select })
    }
}

#[test]
fn standard_format_exposes_selective_read_capability() {
    let fmt = StandardFormat::new(0, make_head_major_cache(8, 1, 4));
    assert!(fmt.as_selective_read().is_some());
}

#[test]
fn read_plan_full_select_routes_bit_identical() {
    let n_tokens = 5;
    let dims = AttnDims { n_heads_q: 1, window: None };
    let full = attention(&written(n_tokens + 4, 1, n_tokens), &[1.0; 4], 1, dims).0;
    let seam = written(n_tokens + 4, 1, n_tokens);
    let rs = MockReadStage {
        granularity: ReadGranularity::Token,
        fixed_select: None,
        plan_none: false,
    };
    let plan = seam.read_plan(&FloatRows, &rs, None, None, None).expect("a plan");
    assert_eq!(plan.select, (0..n_tokens).collect::<Vec<_>>());
    let out = attention_selected(&seam, &[1.0; 4], 1, &plan.select, plan.granularity);
    for (a, b) in full.iter().zip(&out) {
        assert!((a - b).abs() < 1e-5);
    }
}

#[test]
fn read_plan_none_falls_back() {
    let fmt = written(8, 1, 4);
    let rs = MockReadStage {
        granularity: ReadGranularity::Token,
        fixed_select: None,
        plan_none: true,
    };
    assert!(fmt.read_plan(&FloatRows, &rs, None, None, None).is_none());
}

#[test]
fn read_plan_partial_select_completes_finite() {
    let fmt = written(10, 1, 6);
    let rs = MockReadStage {
        granularity: ReadGranularity::Token,
        fixed_select: Some(vec![0, 2, 4]),
        plan_none: false,
    };
    let plan = fmt.read_plan(&FloatRows, &rs, None, None, None).expect("a plan");
    assert_eq!(plan.select, vec![0, 2, 4]);
    let out = attention_selected(&fmt, &[0.5; 4], 1, &plan.select, plan.granularity);
    assert!(out.iter().all(|x| x.is_finite()));
}

fn blend(axis: MergeAxis) -> Vec<WeightedMerge> {
    vec![WeightedMerge {
        into: 0,
        into_weight: 0.5f32.to_bits(),
        from: vec![(1, 0.3f32.to_bits()), (2, 0.2f32.to_bits())],
        apply_to: axis,
    }]
}

fn run_axis_case_f32(axis: MergeAxis) -> (bool, bool) {
    let mut cache = make_head_major_cache(6, 2, 4);
    write_tokens_headmajor(&mut cache, 4);
    let k = cache.read_row(Side::Key, 0, 0);
    let v = cache.read_row(Side::Value, 0, 0);
    apply_weighted_merges(&mut cache, &FloatRows, &blend(axis)).unwrap();
    (cache.read_row(Side::Key, 0, 0) != k, cache.read_row(Side::Value, 0, 0) != v)
}

#[test]
fn weighted_merge_axis_both_updates_k_and_v_f32() {
    assert_eq!(run_axis_case_f32(MergeAxis::Both), (true, true));
}

#[test]
fn weighted_merge_axis_key_only_updates_k_not_v_f32() {
    assert_eq!(run_axis_case_f32(MergeAxis::KeyOnly), (true, false));
}

#[test]
fn weighted_merge_axis_value_only_updates_v_not_k_f32() {
    assert_eq!(run_axis_case_f32(MergeAxis::ValueOnly), (false, true));
}

#[test]
fn weighted_merge_axis_both_equals_keyonly_plus_valueonly_f32() {
    let mut both = make_head_major_cache(6, 2, 4);
    write_tokens_headmajor(&mut both, 4);
    apply_weighted_merges(&mut both, &FloatRows, &blend(MergeAxis::Both)).unwrap();
    let mut split = make_head_major_cache(6, 2, 4);
    write_tokens_headmajor(&mut split, 4);
    apply_weighted_merges(&mut split, &FloatRows, &blend(MergeAxis::KeyOnly)).unwrap();
    apply_weighted_merges(&mut split, &FloatRows, &blend(MergeAxis::ValueOnly)).unwrap();
    assert_eq!(both.k_bytes(), split.k_bytes());
    assert_eq!(both.v_bytes(), split.v_bytes());
}

#[test]
fn weighted_merge_axis_value_only_f16() {
    let mut shape = shape_of(DType::F16, 6, 1, 4);
    shape.layout = KVLayout::HeadMajor;
    let mut cache = KVCache::new(shape).unwrap();
    for pos in 0..4 {
        let row = encode(&[pos as f32 + 1.0; 4], DType::F16);
        cache.write_row(Side::Key, pos, 0, &row);
        cache.write_row(Side::Value, pos, 0, &row);
    }
    cache.set_current_pos(4);
    let k = cache.read_row(Side::Key, 0, 0);
    let v = cache.read_row(Side::Value, 0, 0);
    apply_weighted_merges(&mut cache, &FloatRows, &blend(MergeAxis::ValueOnly)).unwrap();
    assert_eq!(cache.read_row(Side::Key, 0, 0), k);
    assert_ne!(cache.read_row(Side::Value, 0, 0), v);
}

#[test]
fn weighted_merge_axis_key_only_q4() {
    let mut shape = shape_of(DType::Q4_0, 6, 1, QK);
    shape.layout = KVLayout::HeadMajor;
    let mut cache = KVCache::new(shape).unwrap();
    for pos in 0..4 {
        let row: Vec<f32> =
            (0..QK).map(|d| (pos as f32 + 1.0) * 0.1 + d as f32 * 0.01).collect();
        let row = encode(&row, DType::Q4_0);
        cache.write_row(Side::Key, pos, 0, &row);
        cache.write_row(Side::Value, pos, 0, &row);
    }
    cache.set_current_pos(4);
    let k = cache.read_row(Side::Key, 0, 0);
    let v = cache.read_row(Side::Value, 0, 0);
    apply_weighted_merges(&mut cache, &FloatRows, &blend(MergeAxis::KeyOnly)).unwrap();
    assert_ne!(cache.read_row(Side::Key, 0, 0), k);
    assert_eq!(cache.read_row(Side::Value, 0, 0), v);
}

fn synth_q4() -> KVLayoutDesc {
    KVLayoutDesc {
        block_elems: 32,
        bits: 4,
        scale_layout: ScaleLayout::PerBlockF16,
        packing: Packing::Nibble,
    }
}

fn opaque_cache(capacity: usize, max_seq: usize, kv_heads: usize, head_dim: usize) -> KVCache {
    KVCache::new(CacheShape {
        dtype: DType::U8,
        opaque: Some(synth_q4()),
        layout: KVLayout::HeadMajor,
        kv_heads,
        head_dim,
        capacity,
        max_seq_len: max_seq,
        dynamic: true,
        on_device: false,
    })
    .unwrap()
}

fn gen_val(t: usize, h: usize, d: usize, salt: f32) -> f32 {
    (((t * 7 + h * 13 + d * 3) % 17) as f32 - 8.0) * 0.1 + salt
}

fn token(t: usize, kv_heads: usize, head_dim: usize, salt: f32) -> Vec<f32> {
    (0..kv_heads)
        .flat_map(|h| (0..head_dim).map(move |d| gen_val(t, h, d, salt)))
        .collect()
}

fn round_trip(x: &[f32]) -> Vec<f32> {
    q4_decode(&q4_encode(x))
}

/// A single-precision layer that holds the tokens as the block codec gives them back.
fn round_tripped(tokens: &[usize], kv_heads: usize, head_dim: usize) -> StandardFormat {
    let mut shape = shape_of(DType::F32, 64, kv_heads, head_dim);
    shape.layout = KVLayout::HeadMajor;
    let mut fmt = StandardFormat::new(0, KVCache::new(shape).unwrap());
    for &t in tokens {
        let k = f32_tensor(1, kv_heads, head_dim, &round_trip(&token(t, kv_heads, head_dim, 0.0)));
        let v = f32_tensor(1, kv_heads, head_dim, &round_trip(&token(t, kv_heads, head_dim, 0.5)));
        fmt.write_kv(&k, &v, &FloatRows, &host()).unwrap();
    }
    fmt
}

fn opaque_query(n: usize) -> Vec<f32> {
    (0..n).map(|i| ((i % 11) as f32 - 5.0) * 0.07).collect()
}

#[test]
fn opaque_kvcache_via_standard_format_bit_identical_to_q4_0_roundtrip() {
    let (kv_heads, head_dim, n_tokens) = (2usize, 64usize, 5usize);
    let mut fmt = StandardFormat::new(0, opaque_cache(2, 64, kv_heads, head_dim));
    for t in 0..n_tokens {
        let k = f32_tensor(1, kv_heads, head_dim, &token(t, kv_heads, head_dim, 0.0));
        let v = f32_tensor(1, kv_heads, head_dim, &token(t, kv_heads, head_dim, 0.5));
        fmt.write_kv(&k, &v, &FloatRows, &host()).unwrap();
    }
    assert_eq!(fmt.current_pos(), n_tokens);
    assert!(fmt.capacity() >= n_tokens);
    let q = opaque_query(2 * head_dim);
    let dims = AttnDims { n_heads_q: 2, window: None };
    let reference = round_tripped(&(0..n_tokens).collect::<Vec<_>>(), kv_heads, head_dim);
    assert_eq!(attention(&fmt, &q, 1, dims).0, attention(&reference, &q, 1, dims).0);
}

#[test]
fn opaque_kvcache_prefill_smoke() {
    let (head_dim, seq) = (32usize, 4usize);
    let mut fmt = StandardFormat::new(0, opaque_cache(8, 8, 1, head_dim));
    let kb: Vec<f32> = (0..seq * head_dim).map(|i| (i as f32 % 5.0) - 2.0).collect();
    let vb: Vec<f32> = (0..seq * head_dim).map(|i| (i as f32 % 3.0) - 1.0).collect();
    let k = f32_tensor(seq, 1, head_dim, &kb);
    let v = f32_tensor(seq, 1, head_dim, &vb);
    fmt.write_kv_batch(&k, &v, &FloatRows, &host()).unwrap();
    assert_eq!(fmt.current_pos(), seq);
    let dims = AttnDims { n_heads_q: 1, window: None };
    let out = attention(&fmt, &vec![0.3; seq * head_dim], seq, dims).0;
    assert!(out.iter().all(|x| x.is_finite()));
}

#[test]
fn opaque_kvcache_prune_prefix_bit_identical_to_q4_0_roundtrip() {
    let (kv_heads, head_dim, n_tokens, prune) = (2usize, 64usize, 6usize, 2usize);
    let mut fmt = StandardFormat::new(0, opaque_cache(128, 128, kv_heads, head_dim));
    for t in 0..n_tokens {
        let k = f32_tensor(1, kv_heads, head_dim, &token(t, kv_heads, head_dim, 0.0));
        let v = f32_tensor(1, kv_heads, head_dim, &token(t, kv_heads, head_dim, 0.5));
        fmt.write_kv(&k, &v, &FloatRows, &host()).unwrap();
    }
    let mut cache = fmt.into_inner();
    let kept: Vec<usize> = (prune..n_tokens).collect();
    let mut h = EngineCacheHandle::new(&mut cache, 0, 1);
    h.keep(&kept).unwrap();
    h.commit(&FloatRows, &mut KeepsetDump::new(false)).unwrap();
    assert_eq!(cache.current_pos(), n_tokens - prune);
    let fmt = StandardFormat::new(0, cache);
    let q = opaque_query(2 * head_dim);
    let dims = AttnDims { n_heads_q: 2, window: None };
    let reference = round_tripped(&kept, kv_heads, head_dim);
    assert_eq!(attention(&fmt, &q, 1, dims).0, attention(&reference, &q, 1, dims).0);
}

#[test]
fn opaque_kvcache_weighted_merge_bit_identical_to_q4_0_roundtrip() {
    let (kv_heads, head_dim) = (2usize, 64usize);
    let mut fmt = StandardFormat::new(0, opaque_cache(8, 8, kv_heads, head_dim));
    for t in 0..3 {
        let k = f32_tensor(1, kv_heads, head_dim, &token(t, kv_heads, head_dim, 0.0));
        let v = f32_tensor(1, kv_heads, head_dim, &token(t, kv_heads, head_dim, 0.5));
        fmt.write_kv(&k, &v, &FloatRows, &host()).unwrap();
    }
    let mut cache = fmt.into_inner();
    apply_weighted_merges(&mut cache, &FloatRows, &blend(MergeAxis::Both)).unwrap();
    for (side, salt) in [(Side::Key, 0.0f32), (Side::Value, 0.5)] {
        for h in 0..kv_heads {
            let row = |t: usize| {
                round_trip(&token(t, kv_heads, head_dim, salt)[h * head_dim..(h + 1) * head_dim])
            };
            let (r0, r1, r2) = (row(0), row(1), row(2));
            let merged: Vec<f32> =
                (0..head_dim).map(|i| 0.5 * r0[i] + 0.3 * r1[i] + 0.2 * r2[i]).collect();
            let stored = |p: usize| q4_decode(&cache.read_row(side, p, h));
            assert_eq!(stored(0), round_trip(&merged));
            assert_eq!(stored(1), r1);
            assert_eq!(stored(2), r2);
        }
    }
}

#[test]
fn a_kernel_finds_every_row_in_single_precision_where_the_layer_has_it() {
    for (dtype, layout) in [
        (DType::F32, KVLayout::SeqMajor),
        (DType::F16, KVLayout::SeqMajor),
        (DType::F16, KVLayout::HeadMajor),
        (DType::Q4_0, KVLayout::HeadMajor),
    ] {
        let (heads, dim, capacity, n) = (2, 32, 5, 3);
        let shape = CacheShape { layout, ..shape_of(dtype, capacity, heads, dim) };
        let mut c = KVCache::new(shape).unwrap();
        for p in 0..n {
            for h in 0..heads {
                let k: Vec<f32> = (0..dim).map(|d| gen_val(p, h, d, 0.5)).collect();
                let v: Vec<f32> = (0..dim).map(|d| gen_val(p, h, d, 2.5)).collect();
                c.write_row(Side::Key, p, h, &encode(&k, dtype));
                c.write_row(Side::Value, p, h, &encode(&v, dtype));
            }
        }
        c.set_current_pos(n);
        let (k, v) = host_operands(&c, &FloatRows).unwrap();
        let rows = if layout == KVLayout::SeqMajor { n } else { capacity } * heads;
        assert_eq!((k.count(), v.count()), (rows, rows));
        for p in 0..n {
            for h in 0..heads {
                let at = c.slot(p, h);
                let stored = decode(&c.read_row(Side::Key, p, h), dtype);
                assert_eq!(decode(&k.read(at), DType::F32), stored);
                let stored = decode(&c.read_row(Side::Value, p, h), dtype);
                assert_eq!(decode(&v.read(at), DType::F32), stored);
            }
        }
    }
    let mut opaque = opaque_cache(4, 8, 1, 32);
    opaque.write_row(Side::Key, 0, 0, &q4_encode(&token(3, 1, 32, 0.0)));
    opaque.set_current_pos(1);
    let (k, _) = host_operands(&opaque, &FloatRows).unwrap();
    assert_eq!(k.count(), 4);
    assert_eq!(decode(&k.read(0), DType::F32), q4_decode(&q4_encode(&token(3, 1, 32, 0.0))));

    let refused = |shape: CacheShape| {
        host_operands(&KVCache::new(shape).unwrap(), &FloatRows).err()
    };
    let shape = shape_of(DType::F32, 4, 1, 32);
    assert_eq!(refused(CacheShape { on_device: true, ..shape }), Some(KvError::NotOnHost));
    assert_eq!(
        refused(CacheShape { dtype: DType::U8, ..shape }),
        Some(KvError::UnsupportedDType)
    );
}

/// Selects as many positions as the query summary and the query have numbers, in that order.
struct SeesTheQuery;

impl KVReadStage for SeesTheQuery {
    fn read_plan(&self, ctx: &ReadCtx) -> Option<KVReadPlan> {
        let count = |v: &Option<Vec<u32>>| v.as_ref().map_or(0, |q| q.len());
        Some(KVReadPlan {
            granularity: ReadGranularity::Token,
            select: vec![count(&ctx.query_stats), count(&ctx.query)],
        })
    }
}

#[test]
fn a_read_stage_sees_the_query_and_its_summary() {
    let fmt = written(8, 1, 4);
    let plan = |query, stats| fmt.read_plan(&FloatRows, &SeesTheQuery, None, query, stats);
    assert_eq!(plan(Some(vec![1]), Some(vec![1, 2, 3])).unwrap().select, [3, 1]);
    assert_eq!(plan(None, Some(vec![1, 2])).unwrap().select, [2, 0]);
    assert_eq!(plan(None, None).unwrap().select, [0, 0]);
}
