use argus_kv::attention::AttnDims;
use argus_kv::dtype::{DType, KVLayout};
use argus_kv::kv_cache::{KvError, Tensor};
use argus_kv::quant_format::{
    copy_scores, layout_tag, native_geometry, native_scores, InTreeQuantWindowShim, QuantCacheRawBuffersOut, QuantCacheViewOut,
    QuantRoute, QuantWindowFormat, RC_NO_CL_MEM, RC_OK, RC_TRANSITION_ERR, RC_UPDATE_DEFERRED,
};
use argus_kv::quant_window::{QuantizedRecentWindowCache, WindowCodec};
use argus_kv::standard_format::BackendCaps;

const HD: usize = 32;
const RES: usize = 32;
const MAXSEQ: usize = 256;

/// Keeps the top byte of each element, which is enough to tell windows apart.
struct TopByte;

impl WindowCodec for TopByte {
    fn quantize(&self, _bits: u8, _key: bool, rows: &Vec<u8>) -> Vec<u8> {
        rows.chunks(4).map(|b| b[3]).collect()
    }

    fn dequantize(&self, _bits: u8, _key: bool, packed: &Vec<u8>) -> Vec<u8> {
        packed.iter().flat_map(|&b| [0, 0, 0, b]).collect()
    }
}

/// Unpacks into nothing.
struct Lossy;

impl WindowCodec for Lossy {
    fn quantize(&self, _bits: u8, _key: bool, _rows: &Vec<u8>) -> Vec<u8> {
        Vec::new()
    }

    fn dequantize(&self, _bits: u8, _key: bool, _packed: &Vec<u8>) -> Vec<u8> {
        Vec::new()
    }
}

fn f32_tensor(seq: usize, kv_heads: usize, val: f32) -> Tensor {
    let bytes: Vec<u8> = (0..seq * kv_heads * HD).flat_map(|_| val.to_le_bytes()).collect();
    Tensor::new(DType::F32, seq, kv_heads, HD, bytes).unwrap()
}

fn null_view_out() -> QuantCacheViewOut {
    QuantCacheViewOut { k_mem: 0, v_mem: 0, tokens: 0, layout: 0 }
}

fn null_raw_out() -> QuantCacheRawBuffersOut {
    QuantCacheRawBuffersOut {
        qk_mem: 0,
        qv_mem: 0,
        res_k_mem: 0,
        res_v_mem: 0,
        q_tokens: 0,
        res_tokens: 0,
        res_cap: 0,
        bits: 0,
    }
}

fn caps(is_gpu: bool, nosub_device: bool) -> BackendCaps {
    BackendCaps {
        is_gpu,
        kv_scatter_batch: false,
        kv_scatter_f32_batch: false,
        opaque_q2_dequant: false,
        nosub_device,
    }
}

#[test]
fn test_geometry_delegates_to_kivicache() {
    let cache = QuantizedRecentWindowCache::new(2, HD, MAXSEQ, RES);
    let fmt = QuantWindowFormat::new(5, cache);
    assert_eq!(fmt.idx(), 5);
    assert_eq!(fmt.current_pos(), 0);
    assert_eq!(fmt.capacity(), MAXSEQ);
}

#[test]
fn quant_window_format_test_write_kv_advances_pos() {
    let kv_heads = 2;
    let mut fmt =
        QuantWindowFormat::new(0, QuantizedRecentWindowCache::new(kv_heads, HD, MAXSEQ, RES));
    let k = f32_tensor(1, kv_heads, 1.0);
    let v = f32_tensor(1, kv_heads, 1.0);
    fmt.write_kv(&k, &v, &TopByte).unwrap();
    assert_eq!(fmt.current_pos(), 1);

    let kb = f32_tensor(2, kv_heads, 2.0);
    let vb = f32_tensor(2, kv_heads, 2.0);
    fmt.write_kv_batch(&kb, &vb, &TopByte).unwrap();
    assert_eq!(fmt.current_pos(), 3);
}

#[test]
fn scalars_forward_to_real_cache() {
    let mut shim = InTreeQuantWindowShim::wrap(QuantizedRecentWindowCache::new(2, HD, MAXSEQ, RES));
    assert_eq!(shim.current_pos(), 0);
    assert_eq!(shim.capacity(), MAXSEQ);
    assert_eq!(shim.current_bits(), 2);

    let k = f32_tensor(1, 2, 1.0);
    let v = f32_tensor(1, 2, 1.0);
    shim.feed(&k, &v, &TopByte).unwrap();
    assert_eq!(shim.current_pos(), 1);

    shim.reset();
    assert_eq!(shim.current_pos(), 0);
}

#[test]
fn update_is_explicitly_deferred() {
    let shim = InTreeQuantWindowShim::wrap(QuantizedRecentWindowCache::new(1, HD, MAXSEQ, RES));
    assert_eq!(shim.update(), RC_UPDATE_DEFERRED);
    assert_eq!(RC_UPDATE_DEFERRED, -100);
}

#[test]
fn flush_if_full_is_noop() {
    let shim = InTreeQuantWindowShim::wrap(QuantizedRecentWindowCache::new(1, HD, MAXSEQ, RES));
    assert_eq!(shim.flush_if_full(), RC_OK);
}

#[test]
fn cpu_read_surface_has_no_cl_mem() {
    let mut shim = InTreeQuantWindowShim::wrap(QuantizedRecentWindowCache::new(1, HD, MAXSEQ, RES));
    let k = f32_tensor(1, 1, 1.0);
    let v = f32_tensor(1, 1, 1.0);
    shim.feed(&k, &v, &TopByte).unwrap();

    let mut raw = null_raw_out();
    assert!(!shim.get_raw_buffers(None, &mut raw));

    let mut view = null_view_out();
    assert_eq!(shim.assemble_view(None, &mut view), RC_NO_CL_MEM);
}

#[test]
fn transition_same_bits_is_ok() {
    let mut shim = InTreeQuantWindowShim::wrap(QuantizedRecentWindowCache::new(1, HD, MAXSEQ, RES));
    assert_eq!(shim.transition_bits(2, &TopByte), RC_OK);
    assert_eq!(shim.current_bits(), 2);
}

#[test]
fn device_surface_counts_tokens_across_full_runs() {
    for bits in [2u8, 4, 8] {
        let cache = QuantizedRecentWindowCache::new_gpu(2, HD, MAXSEQ, RES, bits);
        assert!(cache.is_gpu());
        let mut shim = InTreeQuantWindowShim::wrap(cache);
        let fed = RES * 2 + RES / 2;
        for i in 0..fed {
            let k = f32_tensor(1, 2, i as f32 * 0.01);
            let v = f32_tensor(1, 2, i as f32 * 0.01 + 1.0);
            shim.feed(&k, &v, &TopByte).unwrap();
        }
        assert_eq!(shim.current_pos(), fed);
        assert_eq!(shim.current_bits(), bits);

        let mut raw = null_raw_out();
        assert!(shim.get_raw_buffers(Some((1, 2, 3, 4)), &mut raw));
        assert_eq!((raw.qk_mem, raw.qv_mem, raw.res_k_mem, raw.res_v_mem), (1, 2, 3, 4));
        assert_eq!(raw.q_tokens + raw.res_tokens, fed);
        assert_eq!(raw.q_tokens, 2 * RES);
        assert_eq!(raw.bits, bits);
        assert_eq!(raw.res_cap, RES);

        let mut view = null_view_out();
        assert_eq!(shim.assemble_view(Some((5, 6)), &mut view), RC_OK);
        assert_eq!((view.k_mem, view.v_mem), (5, 6));
        assert_eq!(view.tokens, fed);
        assert_eq!(view.layout, layout_tag(KVLayout::SeqMajor));

        assert_eq!(shim.transition_bits(16, &TopByte), RC_OK);
        assert_eq!(shim.current_bits(), 16);
        assert_eq!(shim.current_pos(), fed);
        assert_eq!(shim.transition_bits(bits, &TopByte), RC_OK);
        assert_eq!(shim.current_bits(), bits);
        assert_eq!(shim.current_pos(), fed);
    }
}

#[test]
fn a_bad_width_is_refused_and_changes_nothing() {
    let mut shim = InTreeQuantWindowShim::wrap(QuantizedRecentWindowCache::new(1, HD, MAXSEQ, RES));
    shim.feed(&f32_tensor(3, 1, 1.0), &f32_tensor(3, 1, 1.0), &TopByte).unwrap();
    assert_eq!(shim.transition_bits(3, &TopByte), RC_TRANSITION_ERR);
    assert_eq!((shim.current_bits(), shim.current_pos()), (2, 3));

    let mut cache = QuantizedRecentWindowCache::new(1, HD, MAXSEQ, RES);
    assert_eq!(cache.transition_bits(5, &TopByte), Err(KvError::UnsupportedDType));
    cache.update(&f32_tensor(RES, 1, 1.0), &f32_tensor(RES, 1, 1.0), &Lossy).unwrap();
    assert_eq!(cache.transition_bits(4, &Lossy), Err(KvError::CodecShape));
    assert_eq!((cache.bits(), cache.current_pos()), (2, RES));
    let mut packed = InTreeQuantWindowShim::wrap(cache);
    assert_eq!(packed.transition_bits(2, &Lossy), RC_OK);
    assert_eq!(packed.transition_bits(16, &Lossy), RC_TRANSITION_ERR);
    assert_eq!((packed.current_bits(), packed.current_pos()), (2, RES));
}

#[test]
fn recent_rows_stay_as_they_came() {
    let mut cache = QuantizedRecentWindowCache::new(1, HD, MAXSEQ, RES);
    for i in 0..RES + 3 {
        cache.update(&f32_tensor(1, 1, i as f32), &f32_tensor(1, 1, -(i as f32)), &TopByte).unwrap();
    }
    assert_eq!(cache.q_tokens(), RES);
    let want: Vec<u8> = (RES..RES + 3)
        .flat_map(|i| (0..HD).flat_map(move |_| (i as f32).to_le_bytes()))
        .collect();
    assert_eq!(cache.recent_keys(), &want);

    // One batch leaves the same run.
    let mut batch = QuantizedRecentWindowCache::new(1, HD, MAXSEQ, RES);
    let bytes: Vec<u8> = (0..RES + 3)
        .flat_map(|i| (0..HD).flat_map(move |_| (i as f32).to_le_bytes()))
        .collect();
    let rows = Tensor::new(DType::F32, RES + 3, 1, HD, bytes).unwrap();
    batch.update(&rows, &rows, &TopByte).unwrap();
    assert_eq!(batch.recent_keys(), &want);
    assert_eq!(batch.current_pos(), cache.current_pos());
}

#[test]
fn refused_writes_change_nothing() {
    let mut cache = QuantizedRecentWindowCache::new(1, HD, 4, RES);
    assert_eq!(
        cache.update(&f32_tensor(1, 2, 1.0), &f32_tensor(1, 2, 1.0), &TopByte),
        Err(KvError::ShapeMismatch)
    );
    assert_eq!(
        cache.update(&f32_tensor(5, 1, 1.0), &f32_tensor(5, 1, 1.0), &TopByte),
        Err(KvError::CapacityExceeded)
    );
    assert_eq!(cache.current_pos(), 0);
    assert!(cache.recent_values().is_empty());
}

#[test]
fn steps_take_the_device_only_where_it_can_run_them() {
    let dims = AttnDims { n_heads_q: 4, window: Some(10) };
    let mut fmt = QuantWindowFormat::new(0, QuantizedRecentWindowCache::new_gpu(2, HD, MAXSEQ, RES, 2));
    fmt.write_kv_batch(&f32_tensor(40, 2, 1.0), &f32_tensor(40, 2, 1.0), &TopByte).unwrap();

    match fmt.attention_into(&caps(true, true), true, 1, dims, Some(200)) {
        QuantRoute::Native { n_heads_kv, head_dim, raw, scores_len } => {
            assert_eq!((n_heads_kv, head_dim, scores_len), (2, HD, 160));
            assert_eq!((raw.q_tokens, raw.res_tokens), (32, 8));
        }
        other => panic!("{other:?}"),
    }
    let unpacked = QuantRoute::Unpacked { n_heads_kv: 2, head_dim: HD, effective: 10, stride: 50 };
    assert_eq!(fmt.attention_into(&caps(true, false), true, 1, dims, Some(200)), unpacked);
    assert_eq!(fmt.attention_into(&caps(true, true), false, 1, dims, Some(200)), unpacked);
    assert_eq!(fmt.attention_into(&caps(false, true), true, 1, dims, Some(200)), unpacked);
    assert_eq!(
        fmt.attention_into(&caps(true, true), true, 6, dims, None),
        QuantRoute::Prefill {
            n_heads_kv: 2,
            head_dim: HD,
            cache_seq_len: 40,
            kv_capacity: MAXSEQ,
            layout: KVLayout::SeqMajor,
            q_start_pos: 34,
            window: Some(10),
        }
    );
    assert_eq!(fmt.current_bits(), 2);
    assert_eq!(fmt.with_cache_mut().transition_bits(16, &TopByte), Ok(()));
    let inner = fmt.into_inner();
    assert_eq!(inner.layout(), KVLayout::HeadMajor);
    assert_eq!(inner.get_quant_window_raw_buffers(), None);
}

#[test]
fn native_scores_are_clipped_to_the_callers_buffer() {
    let s = native_scores(12, 8, 4);
    assert_eq!((s.copied, s.valid_len), (8, 3));
    let s = native_scores(12, 20, 0);
    assert_eq!((s.copied, s.valid_len), (12, 0));
}

/// What a backend computes over the rows of a layer that has packed nothing yet: uniform attention
/// over the positions that each query takes part in.
fn uniform(fmt: &mut QuantWindowFormat, route: QuantRoute, seq: usize) -> Vec<Vec<f32>> {
    let rows: Vec<Vec<f32>> = fmt
        .with_cache_mut()
        .recent_values()
        .chunks(HD * 4)
        .map(|row| {
            row.chunks(4).map(|b| f32::from_le_bytes([b[0], b[1], b[2], b[3]])).collect()
        })
        .collect();
    (0..seq)
        .map(|r| {
            let n = match route {
                QuantRoute::Prefill { q_start_pos, .. } => q_start_pos + r + 1,
                QuantRoute::Unpacked { effective, .. } => effective,
                QuantRoute::Native { .. } => unreachable!(),
            };
            (0..HD).map(|d| rows[..n].iter().map(|row| row[d]).sum::<f32>() / n as f32).collect()
        })
        .collect()
}

fn one_head() -> QuantWindowFormat {
    QuantWindowFormat::new(0, QuantizedRecentWindowCache::new(1, HD, MAXSEQ, RES))
}

#[test]
fn test_attention_into_cpu_fallback() {
    let mut fmt = one_head();
    for _ in 0..2 {
        fmt.write_kv(&f32_tensor(1, 1, 0.0), &f32_tensor(1, 1, 3.0), &TopByte).unwrap();
    }
    assert_eq!(fmt.current_pos(), 2);
    let dims = AttnDims { n_heads_q: 1, window: None };
    let route = fmt.attention_into(&caps(false, false), false, 1, dims, Some(2));
    assert_eq!(
        route,
        QuantRoute::Unpacked { n_heads_kv: 1, head_dim: HD, effective: 2, stride: 2 }
    );
    for x in &uniform(&mut fmt, route, 1)[0] {
        assert!(x.is_finite());
        assert!((0.0..=6.0).contains(x));
    }
}

#[test]
fn test_attention_into_prefill_causal_uniform() {
    let seq = 4;
    let mut fmt = one_head();
    let v: Vec<u8> =
        (0..seq * HD).flat_map(|i| ((i / HD) as f32).to_le_bytes()).collect();
    let v = Tensor::new(DType::F32, seq, 1, HD, v).unwrap();
    fmt.write_kv_batch(&f32_tensor(seq, 1, 0.0), &v, &TopByte).unwrap();
    assert_eq!(fmt.current_pos(), seq);
    let dims = AttnDims { n_heads_q: 1, window: None };
    let route = fmt.attention_into(&caps(false, false), false, seq, dims, None);
    let out = uniform(&mut fmt, route, seq);
    for r in 0..seq {
        let expected = r as f32 / 2.0;
        for d in 0..HD {
            assert!((out[r][d] - expected).abs() < 1e-4);
        }
    }
}

#[test]
fn test_attention_into_no_scores() {
    let mut fmt = one_head();
    fmt.write_kv(&f32_tensor(1, 1, 1.0), &f32_tensor(1, 1, 1.0), &TopByte).unwrap();
    let dims = AttnDims { n_heads_q: 1, window: None };
    let route = fmt.attention_into(&caps(false, false), false, 1, dims, None);
    assert!(matches!(route, QuantRoute::Unpacked { stride: 0, .. }));
    assert!(uniform(&mut fmt, route, 1)[0].iter().all(|x| x.is_finite()));
}

#[test]
fn a_step_over_packed_rows_notes_its_scores_where_it_is_to() {
    let dims = AttnDims { n_heads_q: 2, window: None };
    let mut fmt =
        QuantWindowFormat::new(0, QuantizedRecentWindowCache::new_gpu(2, HD, MAXSEQ, RES, 2));
    fmt.write_kv_batch(&f32_tensor(3, 2, 1.0), &f32_tensor(3, 2, 1.0), &TopByte).unwrap();
    let unpacked = fmt.attention_into(&caps(false, false), false, 1, dims, Some(8));
    let produced: Vec<u32> = (0..8).collect();
    fmt.absorb_scores(&unpacked, 2, &produced);
    assert!(fmt.with_cache_mut().attn_scores().is_none());

    fmt.with_cache_mut().set_awqe_enabled(true);
    fmt.absorb_scores(&unpacked, 2, &produced);
    let noted = |fmt: &mut QuantWindowFormat| {
        let n = fmt.with_cache_mut().attn_scores().unwrap();
        (n.scores.clone(), n.n_heads_q, n.stride, n.valid_len)
    };
    assert_eq!(noted(&mut fmt), (produced.clone(), 2, 4, 3));

    let native = fmt.attention_into(&caps(true, true), true, 1, dims, Some(8));
    let six: Vec<u32> = (10..16).collect();
    fmt.absorb_scores(&native, 2, &six);
    assert_eq!(noted(&mut fmt), (six.clone(), 2, 3, 3));
    let prefill = fmt.attention_into(&caps(false, false), false, 2, dims, None);
    fmt.absorb_scores(&prefill, 2, &produced);
    assert_eq!(noted(&mut fmt).0, six);
    assert_eq!(fmt.with_cache_mut().transition_bits(8, &TopByte), Ok(()));
    assert_eq!(noted(&mut fmt).0, six);
    assert_eq!(fmt.current_pos(), 3);

    let mut room = vec![1, 2];
    copy_scores(&six, &mut room);
    assert_eq!(room, [10, 11]);
    let mut room = vec![0; 8];
    copy_scores(&six, &mut room);
    assert_eq!(room, [10, 11, 12, 13, 14, 15, 0, 0]);
    let g = native_geometry(&native, 2).unwrap();
    assert_eq!((g.num_heads_q, g.num_heads_kv, g.head_dim), (2, 2, HD));
    assert_eq!((g.q_tokens, g.res_tokens, g.res_cap, g.bits, g.scores_len), (0, 3, RES, 2, 6));
    assert_eq!(native_geometry(&unpacked, 2), None);
}

#[test]
fn the_view_is_the_unpacked_windows_and_the_recent_run() {
    let mut cache = QuantizedRecentWindowCache::new(1, HD, MAXSEQ, RES);
    cache.update(&f32_tensor(RES + 2, 1, 2.0), &f32_tensor(RES + 2, 1, 4.0), &TopByte).unwrap();
    let (k, v) = cache.get_view(&TopByte).unwrap();
    assert_eq!((k.len(), v.len()), ((RES + 2) * HD * 4, (RES + 2) * HD * 4));
    assert_eq!(k[..4], [0, 0, 0, 0x40]);
    assert_eq!(v[RES * HD * 4..][..4], 4.0f32.to_le_bytes());
    assert_eq!(cache.get_view(&Lossy), Err(KvError::CodecShape));
}
