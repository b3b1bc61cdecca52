use argus_kv::cache_manager::{CacheManager, MemoryStats, MonitorError, SystemMonitor};
use argus_kv::codec::{RowCodec, RowFormat};
use argus_kv::cache_handle::{apply_per_head_keep_at, check_keep_at};
use argus_kv::dtype::{DType, KVLayout, KVLayoutDesc, Packing, ScaleLayout};
use argus_kv::keepset_dump::KeepsetDump;
use argus_kv::eviction::{EvictError, EvictionPolicy, StagePlan};
use argus_kv::kv_cache::{CacheShape, KVCache, KvError, Side, Tensor};
use argus_kv::offload::{OffloadError, OffloadStore, RawStore};
use argus_kv::pressure::RatioMath;
use argus_kv::snapshot::{extract_packed_bytes, scatter_packed_bytes};
use argus_kv::standard_format::{write_path, BackendCaps, StandardFormat, WritePath};
use argus_kv::spill::{flatten, unflatten};
use argus_kv::swap::{SwapHandler, SwapRecord};

const HEADS: usize = 2;
const DIM: usize = 2;

fn shape(dtype: DType, layout: KVLayout, capacity: usize) -> CacheShape {
    CacheShape {
        dtype,
        opaque: None,
        layout,
        kv_heads: HEADS,
        head_dim: DIM,
        capacity,
        max_seq_len: capacity,
        dynamic: false,
        on_device: false,
    }
}

fn row(seed: usize) -> Vec<u8> {
    (0..DIM).flat_map(|d| (seed as f32 + 0.25 * d as f32).to_le_bytes()).collect()
}

fn filled(layout: KVLayout, capacity: usize, tokens: usize) -> KVCache {
    let mut c = KVCache::new(shape(DType::F32, layout, capacity)).unwrap();
    for p in 0..tokens {
        for h in 0..HEADS {
            c.write_row(Side::Key, p, h, &row(100 * h + p));
            c.write_row(Side::Value, p, h, &row(1000 + 100 * h + p));
        }
    }
    c.set_current_pos(tokens);
    c
}

fn key_rows(c: &KVCache, head: usize) -> Vec<Vec<u8>> {
    (0..c.current_pos()).map(|p| c.read_row(Side::Key, p, head)).collect()
}

fn all_rows(c: &KVCache) -> Vec<Vec<u8>> {
    let mut out = Vec::new();
    for h in 0..HEADS {
        for p in 0..c.current_pos() {
            out.push(c.read_row(Side::Key, p, h));
            out.push(c.read_row(Side::Value, p, h));
        }
    }
    out
}

#[test]
fn a_prefix_comes_back_as_it_went() {
    let mut c = filled(KVLayout::SeqMajor, 8, 6);
    let before = all_rows(&c);
    let mut swap = SwapHandler::new();
    assert_eq!(swap.offload_prefix(3, &mut c, 4), Ok(4));
    assert_eq!((c.current_pos(), swap.records()), (2, 1));
    assert_eq!(key_rows(&c, 1), vec![row(104), row(105)]);
    assert_eq!(swap.recall_layer(2, &mut c), Ok(0));
    assert_eq!(swap.recall_layer(3, &mut c), Ok(4));
    assert_eq!((c.current_pos(), swap.records()), (6, 0));
    assert_eq!(all_rows(&c), before);
    assert_eq!(swap.recall_layer(3, &mut c), Ok(0));
}

#[test]
fn a_longer_prefix_than_there_is_moves_what_there_is() {
    let mut c = filled(KVLayout::HeadMajor, 8, 3);
    let mut swap = SwapHandler::new();
    assert_eq!(swap.offload_prefix(0, &mut c, 9), Ok(3));
    assert_eq!(c.current_pos(), 0);
}

#[test]
fn a_recall_that_does_not_fit_is_refused() {
    let mut swap = SwapHandler::new();
    let mut c = filled(KVLayout::SeqMajor, 4, 4);
    swap.offload_prefix(0, &mut c, 3).unwrap();
    let mut full = filled(KVLayout::SeqMajor, 4, 4);
    let before = all_rows(&full);
    assert_eq!(swap.recall_layer(0, &mut full), Err(KvError::CapacityExceeded));
    assert_eq!(all_rows(&full), before);
    let mut other = KVCache::new(shape(DType::F16, KVLayout::SeqMajor, 8)).unwrap();
    assert_eq!(swap.recall_layer(0, &mut other), Err(KvError::ShapeMismatch));

    let mut ragged = filled(KVLayout::HeadMajor, 8, 4);
    ragged.keep_heads_at(&vec![vec![0, 1], vec![3]], 2).unwrap();
    assert!(ragged.is_ragged());
    assert_eq!(swap.offload_prefix(1, &mut ragged, 1), Err(KvError::Ragged));
    assert_eq!(swap.recall_layer(0, &mut ragged), Err(KvError::Ragged));
    assert_eq!(swap.records(), 1);
}

struct Shares;

impl RatioMath for Shares {
    fn portion(&self, ratio: u32, of: usize) -> usize {
        (of as f32 * f32::from_bits(ratio)) as usize
    }
}

struct Plenty;

impl SystemMonitor for Plenty {
    fn mem_stats(&self) -> Result<MemoryStats, MonitorError> {
        Err(MonitorError)
    }
}

struct Idle;

impl EvictionPolicy for Idle {
    fn should_evict(&self, _cache: &KVCache, _mem_available: usize) -> bool {
        false
    }

    fn evict(&self, _cache: &KVCache, _target_len: usize) -> Result<StagePlan, EvictError> {
        Err(EvictError::Policy("no plan".to_owned()))
    }

    fn name(&self) -> String {
        "idle".to_string()
    }
}

struct AsIs;

impl RowCodec for AsIs {
    fn recode(&self, row: &Vec<u8>, _from: RowFormat, _to: RowFormat) -> Vec<u8> {
        row.clone()
    }

    fn merge(
        &self,
        _format: RowFormat,
        into: &Vec<u8>,
        _into_weight: u32,
        _from: &Vec<Vec<u8>>,
        _weights: &Vec<u32>,
    ) -> Vec<u8> {
        into.clone()
    }
}

#[test]
fn the_manager_moves_a_share_of_every_layer_out_and_back() {
    let mut cm = CacheManager::new(Idle, AsIs, Shares, Plenty, 0, 0.5f32.to_bits());
    let fresh = || vec![filled(KVLayout::SeqMajor, 10, 10), filled(KVLayout::SeqMajor, 10, 6)];
    let mut caches = fresh();
    assert_eq!(cm.offload(&mut caches, 0.5f32.to_bits(), &Shares), Ok(0));
    assert_eq!(cm.recall(&mut caches), Ok(0));
    assert_eq!(caches[0].current_pos(), 10);

    cm.enable_swap();
    assert_eq!(cm.offload(&mut caches, 0.5f32.to_bits(), &Shares), Ok(8));
    assert_eq!((caches[0].current_pos(), caches[1].current_pos()), (5, 3));
    assert_eq!(cm.recall(&mut caches), Ok(8));
    for (c, was) in caches.iter().zip(fresh()) {
        assert_eq!(all_rows(c), all_rows(&was));
    }
    assert_eq!(cm.offload(&mut caches, 7.0f32.to_bits(), &Shares), Ok(16));
    assert_eq!(cm.offload(&mut caches, (-1.0f32).to_bits(), &Shares), Ok(0));
    assert_eq!(caches[0].current_pos(), 0);
}

#[test]
fn a_store_gives_back_what_it_took() {
    let mut s = RawStore::new();
    assert_eq!((s.storage_size(), s.stored_tokens()), (0, 0));
    s.store(&vec![1, 2], &vec![3, 4], 1).unwrap();
    s.append_token(&vec![5, 6], &vec![7, 8]).unwrap();
    assert_eq!((s.storage_size(), s.stored_tokens()), (8, 2));
    let mut k = vec![9; 5];
    let mut v = vec![9; 4];
    assert_eq!(s.load_into(&mut k, &mut v), Ok(2));
    assert_eq!((k, v), (vec![1, 2, 5, 6, 9], vec![3, 4, 7, 8]));
    let (mut k, mut v) = (vec![0; 4], vec![0; 3]);
    assert_eq!(s.load_into(&mut k, &mut v), Err(OffloadError::BufferTooSmall));
    assert_eq!((k, v), (vec![0; 4], vec![0; 3]));
    s.clear();
    assert_eq!((s.storage_size(), s.stored_tokens()), (0, 0));
    s.store(&Vec::new(), &Vec::new(), usize::MAX).unwrap();
    assert_eq!(s.append_token(&vec![1], &vec![2]), Err(OffloadError::Medium));
    assert_eq!(s.storage_size(), 0);
}

#[test]
fn packed_bytes_leave_out_the_room_behind() {
    let raw: Vec<u8> = (0..24).collect();
    let packed = extract_packed_bytes(&raw, 2, 2, 1, 3, DType::F32).unwrap();
    assert_eq!(packed, [0u8, 1, 2, 3, 4, 5, 6, 7, 12, 13, 14, 15, 16, 17, 18, 19]);
    let back = scatter_packed_bytes(24, 2, 2, 1, 3, DType::F32, &packed).unwrap();
    let mut expected = raw.clone();
    expected[8..12].fill(0);
    expected[20..24].fill(0);
    assert_eq!(back, expected);
    assert_eq!(
        extract_packed_bytes(&raw, 2, 2, 1, 3, DType::U8),
        Err(KvError::UnsupportedDType)
    );
    assert_eq!(
        scatter_packed_bytes(24, 2, 2, 1, 3, DType::U8, &packed),
        Err(KvError::UnsupportedDType)
    );
}

#[test]
fn a_snapshot_restores_into_an_empty_layer() {
    let fmt = StandardFormat::new(0, filled(KVLayout::HeadMajor, 4, 3));
    assert_eq!(fmt.snapshot_format_id(), 1);
    assert_eq!(fmt.snapshot_prefix(2), Err(KvError::PositionMismatch));
    let bytes = fmt.snapshot_prefix(3).unwrap();
    assert_eq!(bytes.len(), 2 * 3 * HEADS * DIM * 4);

    let empty = |capacity| {
        StandardFormat::new(1, KVCache::new(shape(DType::F32, KVLayout::HeadMajor, capacity)).unwrap())
    };
    let mut target = empty(6);
    target.restore_prefix(&bytes, 3).unwrap();
    assert_eq!(target.current_pos(), 3);
    assert_eq!(target.snapshot_prefix(3), Ok(bytes.clone()));
    assert_eq!(all_rows(target.plan_lock()), all_rows(fmt.plan_lock()));
    assert_eq!(target.restore_prefix(&bytes, 3), Err(KvError::PositionMismatch));
    assert_eq!(empty(2).restore_prefix(&bytes, 3), Err(KvError::CapacityExceeded));
}

fn tensor(tokens: &[usize]) -> Tensor {
    let data: Vec<u8> =
        tokens.iter().flat_map(|&t| (0..HEADS).flat_map(move |h| row(100 * h + t))).collect();
    Tensor::new(DType::F32, tokens.len(), HEADS, DIM, data).unwrap()
}

#[test]
fn a_growing_cache_keeps_its_rows() {
    let mut c = KVCache::new(CacheShape {
        dynamic: true,
        max_seq_len: 7,
        ..shape(DType::F32, KVLayout::HeadMajor, 2)
    })
    .unwrap();
    c.update(&tensor(&[0, 1]), &tensor(&[0, 1])).unwrap();
    assert_eq!(c.capacity(), 2);
    c.update(&tensor(&[2]), &tensor(&[2])).unwrap();
    assert_eq!((c.capacity(), c.current_pos()), (4, 3));
    assert_eq!(c.ensure_capacity(5), Ok(()));
    assert_eq!(c.capacity(), 7);
    assert_eq!(key_rows(&c, 1), vec![row(100), row(101), row(102)]);
    assert!(c.can_hold(7) && !c.can_hold(8));
    assert_eq!(c.ensure_capacity(8), Err(KvError::CapacityExceeded));
    let many = tensor(&[3, 4, 5, 6, 7]);
    assert_eq!(c.update(&many, &many), Err(KvError::CapacityExceeded));
    assert_eq!(c.update(&tensor(&[3]), &tensor(&[3, 4])), Err(KvError::ShapeMismatch));
    assert_eq!(c.current_pos(), 3);
}

#[test]
fn a_batch_is_its_tokens_one_by_one() {
    let mut one = filled(KVLayout::SeqMajor, 8, 2);
    let mut two = filled(KVLayout::SeqMajor, 8, 2);
    one.update(&tensor(&[5, 6, 7]), &tensor(&[8, 9, 10])).unwrap();
    two.update(&tensor(&[5]), &tensor(&[8])).unwrap();
    two.update(&tensor(&[6, 7]), &tensor(&[9, 10])).unwrap();
    assert_eq!(one.k_bytes(), two.k_bytes());
    assert_eq!(one.v_bytes(), two.v_bytes());
}

/// Returns rows of another width than asked for.
struct Short;

impl RowCodec for Short {
    fn recode(&self, _row: &Vec<u8>, _from: RowFormat, _to: RowFormat) -> Vec<u8> {
        vec![0]
    }

    fn merge(
        &self,
        _format: RowFormat,
        _into: &Vec<u8>,
        _into_weight: u32,
        _from: &Vec<Vec<u8>>,
        _weights: &Vec<u32>,
    ) -> Vec<u8> {
        vec![0]
    }
}

fn caps(is_gpu: bool) -> BackendCaps {
    BackendCaps {
        is_gpu,
        kv_scatter_batch: is_gpu,
        kv_scatter_f32_batch: is_gpu,
        opaque_q2_dequant: false,
        nosub_device: false,
    }
}

#[test]
fn a_write_takes_the_path_of_its_store() {
    let path = |dtype, layout, dynamic, gpu, decode| {
        write_path(&CacheShape { dynamic, ..shape(dtype, layout, 4) }, &caps(gpu), decode)
    };
    assert_eq!(path(DType::F32, KVLayout::SeqMajor, false, true, true), Ok(WritePath::Plain));
    assert_eq!(path(DType::F32, KVLayout::HeadMajor, false, true, true), Ok(WritePath::Scatter));
    assert_eq!(
        path(DType::F16, KVLayout::HeadMajor, false, true, false),
        Ok(WritePath::ScatterCast)
    );
    assert_eq!(path(DType::F16, KVLayout::SeqMajor, true, false, true), Ok(WritePath::Cast));
    assert_eq!(
        path(DType::F16, KVLayout::SeqMajor, false, false, true),
        Err(KvError::NeedsDynamicCache)
    );
    let opaque = CacheShape {
        opaque: Some(KVLayoutDesc {
            block_elems: 32,
            bits: 2,
            scale_layout: ScaleLayout::PerBlockF16WithMin,
            packing: Packing::Quad,
        }),
        head_dim: 64,
        ..shape(DType::U8, KVLayout::HeadMajor, 4)
    };
    assert_eq!(write_path(&opaque, &caps(true), true), Ok(WritePath::Encode));
}

#[test]
fn a_coder_that_changes_widths_makes_a_write_fail() {
    let dynamic = CacheShape { dynamic: true, ..shape(DType::F16, KVLayout::SeqMajor, 4) };
    let mut fmt = StandardFormat::new(0, KVCache::new(dynamic).unwrap());
    let t = tensor(&[0]);
    assert_eq!(fmt.write_kv(&t, &t, &Short, &caps(false)), Err(KvError::CodecShape));
    assert_eq!(fmt.current_pos(), 0);
    let mut plain = StandardFormat::new(
        0,
        KVCache::new(shape(DType::F32, KVLayout::SeqMajor, 4)).unwrap(),
    );
    assert_eq!(plain.write_kv(&t, &t, &Short, &caps(false)), Ok(()));
    assert_eq!(key_rows(&plain.into_kv_cache(), 1), vec![row(100)]);
}

#[test]
fn kept_rows_move_to_the_front() {
    let mut c = filled(KVLayout::HeadMajor, 8, 6);
    assert_eq!(c.compact_keep_positions(&vec![1, 4], 0), Ok(()));
    c.set_current_pos(2);
    assert_eq!(key_rows(&c, 1), vec![row(101), row(104)]);
    assert_eq!(c.compact_keep_positions(&vec![8], 0), Err(KvError::InvalidKeep));

    let mut own = filled(KVLayout::HeadMajor, 8, 6);
    assert_eq!(own.keep_heads_at(&vec![vec![0, 5], vec![2]], 1), Err(KvError::InvalidCursor));
    assert_eq!(own.keep_heads_at(&vec![vec![5, 0], vec![2]], 2), Err(KvError::InvalidKeep));
    assert_eq!(own.keep_heads_at(&vec![vec![0, 5], vec![2]], 2), Ok(()));
    assert_eq!((own.head_start(0), own.head_start(1)), (0, 1));
    assert_eq!(own.read_row(Side::Key, 1, 0), row(5));
    assert_eq!(own.read_row(Side::Key, 1, 1), row(102));
}

#[test]
fn a_keep_on_a_cursor_is_checked_before_it_moves_anything() {
    let mut c = filled(KVLayout::HeadMajor, 8, 4);
    c.keep_heads_at(&vec![vec![0, 1], vec![3]], 2).unwrap();
    let before = (c.k_bytes().clone(), c.v_bytes().clone());
    let mut recorder = KeepsetDump::new(false);
    recorder.arm_capture();
    for (keep, cursor, why) in [
        (vec![vec![0]], 1, KvError::InvalidKeep),
        (vec![vec![2], vec![1]], 1, KvError::InvalidKeep),
        (vec![vec![0], vec![0]], 1, KvError::NotResident),
        (vec![vec![0, 1], vec![1]], 1, KvError::InvalidCursor),
        (vec![vec![0], vec![1]], 3, KvError::InvalidCursor),
    ] {
        assert_eq!(check_keep_at(&c, &keep, cursor), Some(why));
        assert_eq!(apply_per_head_keep_at(&mut c, &mut recorder, 0, 1, &keep, cursor), Err(why));
    }
    assert_eq!((c.k_bytes(), c.v_bytes()), (&before.0, &before.1));
    assert!(recorder.drain_capture().is_empty());

    recorder.arm_capture();
    let keep = vec![vec![1], vec![1]];
    assert_eq!(check_keep_at(&c, &keep, 1), None);
    assert_eq!(apply_per_head_keep_at(&mut c, &mut recorder, 0, 1, &keep, 1), Ok(()));
    assert_eq!(c.read_row(Side::Key, 0, 0), row(1));
    assert_eq!(c.read_row(Side::Key, 0, 1), row(103));
    assert_eq!(recorder.drain_capture()[0].keep, keep);
}

#[test]
fn swapped_tokens_come_back_from_a_medium_of_bytes() {
    let mut cm = CacheManager::new(Idle, AsIs, Shares, Plenty, 0, 0.5f32.to_bits());
    cm.enable_swap();
    let mut caches = vec![filled(KVLayout::HeadMajor, 8, 6), filled(KVLayout::SeqMajor, 8, 4)];
    let before: Vec<_> = caches.iter().map(all_rows).collect();
    assert_eq!(cm.offload(&mut caches, 0.5f32.to_bits(), &Shares), Ok(5));
    let records = cm.take_swapped();
    assert_eq!(records.len(), 2);
    assert!(cm.take_swapped().is_empty());
    assert_eq!(cm.recall(&mut caches), Ok(0));
    let back = records
        .iter()
        .map(|r| {
            let k = flatten(&r.keys, r.count, DIM * 4).unwrap();
            let v = flatten(&r.values, r.count, DIM * 4).unwrap();
            assert_eq!(k.len(), HEADS * r.count * DIM * 4);
            assert_eq!(flatten(&r.keys, r.count, DIM), None);
            assert_eq!(unflatten(k.clone(), HEADS, r.count + 1, DIM * 4), None);
            SwapRecord {
                layer: r.layer,
                count: r.count,
                keys: unflatten(k, HEADS, r.count, DIM * 4).unwrap(),
                values: unflatten(v, HEADS, r.count, DIM * 4).unwrap(),
            }
        })
        .collect();
    cm.put_swapped(back);
    assert_eq!(cm.recall(&mut caches), Ok(5));
    assert_eq!(caches.iter().map(all_rows).collect::<Vec<_>>(), before);
}
