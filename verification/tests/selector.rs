use argus_kv::clock::Clock;
use argus_kv::cache_handle::CacheOpError;
use argus_kv::codec::{RowCodec, RowFormat};
use argus_kv::descriptor::TensorKind;
use argus_kv::dtype::{DType, KVLayout};
use argus_kv::eviction::{EvictError, StagePlan};
use argus_kv::keep::KeepSpec;
use argus_kv::keep_sets::{KeepError, KeepSets};
use argus_kv::keepset_dump::KeepsetDump;
use argus_kv::kv_cache::{CacheShape, KVCache, KvError, Side};
use argus_kv::pressure::RatioMath;
use argus_kv::selector::{Choice, NoChoice, SelectError, Selector, Workshop};
use argus_kv::selector_apply::{apply_layers, layer_mean_resident, shared_cursor};
use argus_kv::selector_carry::carry;
use argus_kv::selector_decide::decide;
use argus_kv::selector_plan::{Candidate, Exclusion, Signals};
use argus_kv::stage_registry::{KVMutationStage, StageCaps, StageCtx};
use argus_kv::standard_format::StandardFormat;
use argus_kv::window::{trailing_rows, Geom, HostLayers, QRowCapture, ReadFault};
use argus_kv::window_pass::{a1_export_rows, argmax, argmax_mismatches, are_finite, device_fits,
    window_attention_layers, DeviceAsk, DeviceLatch, DevicePass, Metric, MetricError,
    A1_EXPORT_MAX_POS};
use std::cell::Cell;
use std::rc::Rc;

const LAYERS: usize = 2;
const HEADS: usize = 1;
const HD: usize = 4;
const MAX_SEQ: usize = 16;
const RESIDENT: usize = 8;
const ROWS: usize = 2;
const OVERSHOOT: usize = 2;
const PREFIX: usize = 6;

struct Rows;

impl RowCodec for Rows {
    fn recode(&self, row: &Vec<u8>, _from: RowFormat, _to: RowFormat) -> Vec<u8> {
        row.clone()
    }

    fn merge(
        &self,
        _format: RowFormat,
        into: &Vec<u8>,
        _into_weight: u32,
        _from: &Vec<Vec<u8>>,
        _weights: &Vec<u32>,
    ) -> Vec<u8> {
        into.clone()
    }
}

struct Floats;

impl RatioMath for Floats {
    fn portion(&self, ratio: u32, of: usize) -> usize {
        (of as f32 * f32::from_bits(ratio)) as usize
    }
}

fn numbers(row: &[u8]) -> Vec<f32> {
    row.chunks(4)
        .map(|b| f32::from_le_bytes([b[0], b[1], b[2], b[3]]))
        .collect()
}

fn bytes(x: &[f32]) -> Vec<u8> {
    x.iter().flat_map(|v| v.to_le_bytes()).collect()
}

/// The attention output of a query over some positions.
fn output(q: &[f32], keys: &[Vec<f32>], values: &[Vec<f32>], at: &[usize]) -> Vec<f32> {
    let scale = 1.0 / (q.len() as f32).sqrt();
    let logit = |p: usize| -> f32 {
        q.iter().zip(&keys[p]).map(|(a, b)| a * b).sum::<f32>() * scale
    };
    let top = at.iter().map(|&p| logit(p)).fold(f32::NEG_INFINITY, f32::max);
    let mut out = vec![0.0f32; q.len()];
    let mut sum = 0.0f32;
    for &p in at {
        let e = (logit(p) - top).exp();
        sum += e;
        for (o, v) in out.iter_mut().zip(&values[p]) {
            *o += e * v;
        }
    }
    for o in &mut out {
        *o /= sum.max(f32::MIN_POSITIVE);
    }
    out
}

struct Deviation {
    scored: Cell<usize>,
}

impl Deviation {
    fn new() -> Self {
        Deviation { scored: Cell::new(0) }
    }
}

fn layer_rows(buf: &argus_kv::rows::RowBuffer, head: usize, n: usize) -> Vec<Vec<f32>> {
    (0..n).map(|p| numbers(&buf.read(head * n + p))).collect()
}

impl Metric for Deviation {
    fn device_pass(&self, _ask: &DeviceAsk) -> Result<Option<DevicePass>, MetricError> {
        Ok(None)
    }

    fn host_pass(&self, src: &HostLayers, layer: usize, g: &Geom) -> Result<Vec<u32>, MetricError> {
        let mut out: Vec<f32> = Vec::new();
        for h in 0..g.n_heads_q {
            let kv = h / (g.n_heads_q / g.n_kv_heads);
            let keys = layer_rows(&src.k[layer], kv, g.current_pos);
            let mut acc = vec![0.0f32; g.current_pos];
            for t in 0..g.rows {
                let Some((start, end)) = g.visible(t, src.head_start(layer, kv)) else {
                    continue;
                };
                let base = (h * g.rows + t) * g.head_dim;
                let q: Vec<f32> = src.window_q[layer][base..base + g.head_dim]
                    .iter()
                    .map(|b| f32::from_bits(*b))
                    .collect();
                let scale = 1.0 / (g.head_dim as f32).sqrt();
                let z: Vec<f32> = (start..end)
                    .map(|p| q.iter().zip(&keys[p]).map(|(a, b)| a * b).sum::<f32>() * scale)
                    .collect();
                let m = z.iter().copied().fold(f32::NEG_INFINITY, f32::max);
                let e: Vec<f32> = z.iter().map(|x| (x - m).exp()).collect();
                let sum: f32 = e.iter().sum();
                for (j, x) in e.iter().enumerate() {
                    acc[start + j] += x / sum;
                }
            }
            out.extend(acc);
        }
        Ok(out.iter().map(|x| x.to_bits()).collect())
    }

    fn score(&self, src: &HostLayers, keep: &KeepSets, g: &Geom) -> Result<u32, MetricError> {
        self.scored.set(self.scored.get() + 1);
        let mut total = 0.0f32;
        for l in 0..g.n_layers {
            for h in 0..g.n_heads_q {
                let kv = h / (g.n_heads_q / g.n_kv_heads);
                let keys = layer_rows(&src.k[l], kv, g.current_pos);
                let values = layer_rows(&src.v[l], kv, g.current_pos);
                for t in 0..g.rows {
                    let Some((start, end)) = g.visible(t, src.head_start(l, kv)) else {
                        continue;
                    };
                    let base = (h * g.rows + t) * g.head_dim;
                    let q: Vec<f32> = src.q[l][base..base + g.head_dim]
                        .iter()
                        .map(|b| f32::from_bits(*b))
                        .collect();
                    let all: Vec<usize> = (start..end).collect();
                    let kept: Vec<usize> =
                        keep.head(l, kv).iter().copied().filter(|&p| p < end).collect();
                    let a = output(&q, &keys, &values, &all);
                    let b = output(&q, &keys, &values, &kept);
                    total += a.iter().zip(&b).map(|(x, y)| (x - y) * (x - y)).sum::<f32>().sqrt();
                }
            }
        }
        Ok(total.to_bits())
    }
}

#[derive(Clone)]
enum Stage {
    Fixed(Vec<usize>),
    PerLayer(Vec<Vec<usize>>),
    PerHead(Vec<Vec<usize>>),
    Silent,
    Broken,
    Windowed,
    Asked,
    Ranker { seen_pos: Rc<Cell<usize>>, seen_cols: Rc<Cell<usize>> },
}

fn whole(list: Vec<usize>) -> Result<StagePlan, EvictError> {
    Ok(StagePlan { keep: Some(KeepSpec::LayerWide(list)), merges: Vec::new() })
}

impl KVMutationStage for Stage {
    fn name(&self) -> String {
        "stage".to_string()
    }

    fn plan(&self, ctx: &StageCtx) -> Result<StagePlan, EvictError> {
        match self {
            Stage::Fixed(list) => whole(list.clone()),
            Stage::PerLayer(lists) => whole(lists[ctx.layer_idx].clone()),
            Stage::PerHead(lists) => {
                Ok(StagePlan { keep: Some(KeepSpec::PerHead(lists.clone())), merges: Vec::new() })
            }
            Stage::Silent => Ok(StagePlan { keep: None, merges: Vec::new() }),
            Stage::Broken => Err(EvictError::Refused(CacheOpError::InvalidKeep)),
            Stage::Windowed => {
                let n = (ctx.target_len + OVERSHOOT).min(ctx.current_pos);
                whole((ctx.current_pos - n..ctx.current_pos).collect())
            }
            Stage::Asked => {
                let pos = ctx.current_pos;
                whole((pos.saturating_sub(ctx.target_len)..pos).collect())
            }
            Stage::Ranker { seen_pos, seen_cols } => {
                seen_pos.set(ctx.current_pos);
                let Some(window) = &ctx.window else {
                    return Ok(StagePlan { keep: None, merges: Vec::new() });
                };
                let cols = window.width;
                seen_cols.set(cols);
                let row: Vec<f32> =
                    window.scores[..cols].iter().map(|b| f32::from_bits(*b)).collect();
                let mut order: Vec<usize> = (0..cols).collect();
                order.sort_by(|&a, &b| row[b].partial_cmp(&row[a]).unwrap());
                order.truncate(ctx.target_len.min(cols));
                order.sort_unstable();
                whole(order)
            }
        }
    }
}

fn caps() -> StageCaps {
    StageCaps {
        reads: vec![TensorKind::Scores],
        default_protected_prefix: 0,
        produces_merge_plan: false,
        whole_model: false,
    }
}

fn pfa_caps() -> StageCaps {
    StageCaps { reads: vec![TensorKind::PrefillAttention], ..caps() }
}

fn candidate(name: &str, stage: Stage) -> Candidate<Stage> {
    Candidate::new(name.to_string(), stage, caps())
}

fn fixed(name: &str, keep: &[usize]) -> Candidate<Stage> {
    candidate(name, Stage::Fixed(keep.to_vec()))
}

fn ranker() -> (Candidate<Stage>, Rc<Cell<usize>>, Rc<Cell<usize>>) {
    let seen_pos = Rc::new(Cell::new(0));
    let seen_cols = Rc::new(Cell::new(0));
    let stage = Stage::Ranker { seen_pos: seen_pos.clone(), seen_cols: seen_cols.clone() };
    (Candidate::new("prefix_ranker".to_string(), stage, pfa_caps()), seen_pos, seen_cols)
}

fn cache_shape(layout: KVLayout, heads: usize) -> CacheShape {
    CacheShape {
        dtype: DType::F32,
        opaque: None,
        layout,
        kv_heads: heads,
        head_dim: HD,
        capacity: MAX_SEQ,
        max_seq_len: MAX_SEQ,
        dynamic: false,
        on_device: false,
    }
}

fn make_cache() -> KVCache {
    let mut c = KVCache::new(cache_shape(KVLayout::HeadMajor, HEADS)).unwrap();
    c.set_current_pos(RESIDENT);
    for pos in 0..RESIDENT {
        c.write_row(Side::Key, pos, 0, &bytes(&[0.25; HD]));
        c.write_row(Side::Value, pos, 0, &bytes(&[pos as f32; HD]));
    }
    c
}

fn caches() -> Vec<KVCache> {
    (0..LAYERS).map(|_| make_cache()).collect()
}

fn caches_favouring_3_and_4() -> Vec<KVCache> {
    (0..LAYERS)
        .map(|_| {
            let mut c = make_cache();
            for (pos, k) in [(3usize, 1.0f32), (4, 0.75)] {
                c.write_row(Side::Key, pos, 0, &bytes(&[k; HD]));
            }
            c
        })
        .collect()
}

fn q_rows_over(n: usize) -> QRowCapture {
    QRowCapture::new(vec![vec![1.0f32.to_bits(); HEADS * ROWS * HD]; LAYERS], ROWS, n)
}

/// A clock that moves by one at each reading.
struct Ticks(std::cell::Cell<u64>);

impl Ticks {
    fn new() -> Ticks {
        Ticks(std::cell::Cell::new(0))
    }
}

impl Clock for Ticks {
    fn now(&self) -> u64 {
        self.0.set(self.0.get() + 1);
        self.0.get()
    }
}

fn armed_q_rows() -> QRowCapture {
    q_rows_over(RESIDENT)
}

fn pfa_favouring(a: usize, b: usize) -> Vec<Vec<u32>> {
    let mut row = vec![0.1f32.to_bits(); PREFIX];
    row[a] = 0.9f32.to_bits();
    row[b] = 0.8f32.to_bits();
    vec![row; LAYERS]
}

fn no_signals<'a>() -> Signals<'a> {
    Signals { importance: None, head_scores: None, last_attn: None, prefill_attn: None }
}

fn selector(candidates: Vec<Candidate<Stage>>) -> Selector<Stage> {
    Selector::new(candidates, LAYERS, HEADS * HD, HEADS).expect("selector")
}

fn run(
    s: &Selector<Stage>,
    cs: &mut Vec<KVCache>,
    ratio: f32,
    q: &mut QRowCapture,
    signals: Signals,
) -> Result<Result<Choice, NoChoice>, SelectError> {
    let metric = Deviation::new();
    let with = Workshop { codec: &Rows, math: &Floats, metric: &metric, mirrors: None };
    let mut latch = DeviceLatch { enabled: false, failed: false };
    let mut recorder = KeepsetDump::new(false);
    s.choose_and_apply(&with, &Ticks::new(), cs, ratio.to_bits(), q, &signals, &mut latch, &mut recorder)
}

fn settle(s: &Selector<Stage>, cs: &mut Vec<KVCache>, ratio: f32, q: &mut QRowCapture) -> Choice {
    run(s, cs, ratio, q, no_signals()).expect("decide").expect("a choice")
}

fn survivors(c: &KVCache) -> Vec<f32> {
    (0..c.current_pos()).map(|p| numbers(&c.read_row(Side::Value, p, 0))[0]).collect()
}

#[test]
fn the_reported_tokens_after_is_the_layer_mean_not_layer_zero() {
    const L0_BEFORE: usize = RESIDENT;
    const L1_BEFORE: usize = 4;
    const MEAN_BEFORE: usize = 6;
    const L0_AFTER: usize = 4;
    const MEAN_AFTER: usize = 3;
    let mut cs = caches();
    cs[1].set_head_starts(RESIDENT, vec![RESIDENT - L1_BEFORE]);
    assert_eq!(cs[0].resident_tokens(), L0_BEFORE);
    assert_eq!(cs[1].resident_tokens(), L1_BEFORE);
    let s = selector(vec![candidate(
        "ragged",
        Stage::PerLayer(vec![vec![2, 3, 4, 5], vec![5, 6]]),
    )]);
    let mut q = armed_q_rows();
    let choice = settle(&s, &mut cs, 0.5, &mut q);
    assert_eq!(choice.winner, "ragged");
    assert_eq!(cs[0].resident_tokens(), L0_AFTER);
    assert_eq!(cs[1].resident_tokens(), 2);
    assert_eq!(choice.tokens_before, MEAN_BEFORE);
    assert_ne!(choice.tokens_before, L0_BEFORE);
    assert_eq!(choice.tokens_after, MEAN_AFTER);
    assert_ne!(choice.tokens_after, L0_AFTER);
    assert_eq!(cs[0].current_pos(), L0_AFTER);
    assert_eq!(cs[1].current_pos(), 2);
    assert!(q.covers(cs[0].current_pos()));
    assert!(!q.covers(MEAN_AFTER));

    // A budget of four tokens, as a share of the first layer's cursor.
    const STAGE_TARGET: usize = 4;
    const L1_CURSOR: usize = 4;
    let mut cs = caches();
    cs[1].set_current_pos(L1_CURSOR);
    assert_eq!(cs[0].current_pos(), RESIDENT);
    assert_eq!(cs[1].current_pos(), L1_CURSOR);
    let ratio = STAGE_TARGET as f32 / cs[0].current_pos() as f32;
    let s = selector(vec![candidate("keep_asked", Stage::Asked)]);
    settle(&s, &mut cs, ratio, &mut armed_q_rows());
    let handles: Vec<StandardFormat> =
        cs.into_iter().enumerate().map(|(l, c)| StandardFormat::new(l, c)).collect();
    assert_eq!(handles[0].resident_tokens(), STAGE_TARGET);
}

#[test]
fn the_smallest_perturbation_wins_and_is_the_set_that_lands() {
    let s = selector(vec![fixed("edge_pair", &[0, 1]), fixed("mid_pair", &[3, 4])]);
    let mut cs = caches();
    let choice = settle(&s, &mut cs, 0.25, &mut armed_q_rows());
    assert_eq!(choice.winner, "mid_pair");
    assert_eq!(choice.arms.len(), 2);
    let edge = choice.arms.iter().find(|a| a.name == "edge_pair").unwrap();
    let mid = choice.arms.iter().find(|a| a.name == "mid_pair").unwrap();
    assert!(f32::from_bits(mid.score) < f32::from_bits(edge.score));
    assert_eq!(choice.tokens_before, RESIDENT);
    assert_eq!(choice.tokens_after, 2);
    for c in &cs {
        assert_eq!(survivors(c), vec![3.0, 4.0]);
    }
}

#[test]
fn an_over_budget_candidate_is_excluded_rather_than_winning_on_score() {
    let all: Vec<usize> = (0..RESIDENT).collect();
    let s = selector(vec![fixed("keep_all", &all), fixed("mid_pair", &[3, 4])]);
    let mut cs = caches();
    let choice = settle(&s, &mut cs, 0.25, &mut armed_q_rows());
    assert_eq!(choice.winner, "mid_pair");
    assert_eq!(choice.arms.len(), 1);
    assert_eq!(choice.excluded.len(), 1);
    assert_eq!(choice.excluded[0].0, "keep_all");
    assert!(choice.excluded[0].1.message().contains("budgeted positions"));
    assert_eq!(choice.tokens_after, 2);
}

#[test]
fn a_candidate_that_overshoots_its_budget_is_re_asked_rather_than_excluded() {
    let s = selector(vec![candidate("windowed", Stage::Windowed), fixed("mid_pair", &[3, 4])]);
    let mut cs = caches();
    let choice = settle(&s, &mut cs, 0.5, &mut armed_q_rows());
    assert!(choice.excluded.is_empty());
    assert_eq!(choice.arms.len(), 2);
    let w = choice.arms.iter().find(|a| a.name == "windowed").unwrap();
    assert_eq!(choice.target_len, 4);
    assert_eq!(w.asked, 4 - OVERSHOOT);
    assert_eq!(w.kept_total, choice.budget_total);
}

#[test]
fn a_prefill_end_candidate_ranks_the_resident_cache_off_the_ring() {
    let (cand, seen_pos, seen_cols) = ranker();
    let s = selector(vec![cand]);
    let mut cs = caches_favouring_3_and_4();
    let choice = settle(&s, &mut cs, 0.5, &mut armed_q_rows());
    assert_eq!(choice.winner, "prefix_ranker");
    assert!(choice.excluded.is_empty());
    assert_eq!(seen_pos.get(), RESIDENT);
    assert_eq!(seen_cols.get(), RESIDENT);
    for c in &cs {
        assert_eq!(survivors(c), vec![0.0, 1.0, 3.0, 4.0]);
    }
}

#[test]
fn the_prompt_capture_is_carried_but_not_ranked_from() {
    let s = selector(vec![ranker().0]);
    let mut cs = caches_favouring_3_and_4();
    let pfa = pfa_favouring(1, 5);
    let signals = Signals { prefill_attn: Some(&pfa), ..no_signals() };
    let choice = run(&s, &mut cs, 0.5, &mut armed_q_rows(), signals).expect("decide").expect("choice");
    assert_eq!(choice.winner, "prefix_ranker");
    assert!(choice.excluded.is_empty());
    for c in &cs {
        assert_eq!(survivors(c), vec![0.0, 1.0, 3.0, 4.0]);
    }
    let carried = choice.prefill_attn.expect("carried through the keep");
    let row: Vec<f32> = carried[0].iter().map(|b| f32::from_bits(*b)).collect();
    assert_eq!(row, vec![0.1, 0.9, 0.1, 0.1]);
}

#[test]
fn the_decode_tail_is_ranked_like_any_other_position() {
    let s = selector(vec![ranker().0]);
    let mut cs = caches_favouring_3_and_4();
    let choice = settle(&s, &mut cs, 0.25, &mut armed_q_rows());
    assert_eq!(choice.winner, "prefix_ranker");
    assert!(choice.excluded.is_empty());
    for c in &cs {
        assert_eq!(survivors(c), vec![3.0, 4.0]);
    }
}

#[test]
fn a_prefill_end_candidate_answers_the_next_budget_from_the_ring() {
    let (cand, _, seen_cols) = ranker();
    let s = selector(vec![cand]);
    let mut cs = caches_favouring_3_and_4();
    let mut q = armed_q_rows();
    let first = settle(&s, &mut cs, 0.5, &mut q);
    assert_eq!(first.tokens_after, 4);
    assert_eq!(survivors(&cs[0]), vec![0.0, 1.0, 3.0, 4.0]);
    let second = settle(&s, &mut cs, 0.75, &mut q);
    assert!(second.excluded.is_empty());
    assert_eq!(second.winner, "prefix_ranker");
    assert_eq!(seen_cols.get(), 4);
    assert_eq!(survivors(&cs[0]), vec![0.0, 3.0, 4.0]);
}

fn geom_of(rows: usize) -> Geom {
    Geom {
        n_layers: LAYERS,
        n_heads_q: HEADS,
        n_kv_heads: HEADS,
        head_dim: HD,
        current_pos: RESIDENT,
        rows,
    }
}

#[test]
fn the_metric_rows_are_the_tail_of_the_window() {
    let cs = caches();
    let q = armed_q_rows();
    let src = HostLayers::read(&cs, None, &q, &geom_of(1), &Rows).expect("read");
    assert_eq!((src.rows, src.window_rows), (1, ROWS));
    for l in 0..LAYERS {
        let win = &src.window_q[l];
        assert_eq!(win.len(), HEADS * ROWS * HD);
        assert_eq!(&src.q[l][..], &win[(ROWS - 1) * HD..ROWS * HD]);
    }
    let rows = argus_kv::window::measured(q.rows, usize::MAX);
    let all = HostLayers::read(&cs, None, &q, &geom_of(rows), &Rows).expect("read");
    assert_eq!(all.rows, ROWS);
    assert_eq!(all.q[0], all.window_q[0]);
}

#[test]
fn the_export_is_asked_for_only_up_to_the_threshold() {
    assert_eq!(a1_export_rows(1, 16), 16);
    assert_eq!(a1_export_rows(A1_EXPORT_MAX_POS, 16), 16);
    assert_eq!(a1_export_rows(A1_EXPORT_MAX_POS + 1, 16), 0);
    assert_eq!(a1_export_rows(8192, 16), 0);
    assert!((1225..3925).contains(&A1_EXPORT_MAX_POS));
}

#[test]
fn nothing_is_carried_when_nothing_was_compressed() {
    let s = selector(vec![fixed("keep_all", &(0..RESIDENT).collect::<Vec<_>>())]);
    let mut cs = caches();
    let pfa = pfa_favouring(3, 4);
    let signals = Signals { prefill_attn: Some(&pfa), ..no_signals() };
    let choice = run(&s, &mut cs, 1.0, &mut armed_q_rows(), signals).expect("decide").expect("choice");
    assert_eq!(choice.tokens_after, choice.tokens_before);
    assert!(choice.prefill_attn.is_none());
}

#[test]
fn rows_that_no_longer_describe_the_cache_are_declined_not_measured() {
    let s = selector(vec![fixed("mid_pair", &[3, 4])]);
    let mut cs = caches();
    let out = run(&s, &mut cs, 0.5, &mut q_rows_over(4), no_signals()).expect("no error");
    assert!(matches!(out, Err(NoChoice::StaleRows { resident: RESIDENT })));
    for c in &cs {
        assert_eq!(c.current_pos(), RESIDENT);
    }
    assert_eq!(
        out.unwrap_err().message(),
        "the captured query rows do not cover the 8 resident token(s) — the cache was renumbered \
         after they were captured, so there is nothing to measure the candidates on"
    );
}

#[test]
fn a_silent_or_failing_candidate_is_excluded_and_the_rest_still_decide() {
    let s = selector(vec![
        candidate("silent", Stage::Silent),
        candidate("broken", Stage::Broken),
        fixed("mid_pair", &[3, 4]),
    ]);
    let mut cs = caches();
    let choice = settle(&s, &mut cs, 0.25, &mut armed_q_rows());
    assert_eq!(choice.winner, "mid_pair");
    assert_eq!(choice.excluded.len(), 2);
    assert_eq!(choice.excluded[0].0, "silent");
    assert_eq!(choice.excluded[1].0, "broken");
    assert_eq!(choice.excluded[0].1, Exclusion::NoKeep { layer: 0 });
    assert_eq!(choice.excluded[0].1.message(), "staged no keep-set for layer 0");
}

#[test]
fn all_excluded_leaves_the_cache_untouched() {
    let all: Vec<usize> = (0..RESIDENT).collect();
    let s = selector(vec![fixed("keep_all", &all)]);
    let mut cs = caches();
    let r = run(&s, &mut cs, 0.25, &mut armed_q_rows(), no_signals()).expect("decide");
    match r {
        Err(NoChoice::AllExcluded(v)) => {
            assert_eq!(v.len(), 1);
            assert_eq!(
                NoChoice::AllExcluded(v).message(),
                "no candidate was comparable: keep_all: retains 16 of 4 budgeted positions, and \
                 there is no smaller budget left to ask it for"
            );
        }
        _ => panic!("expected AllExcluded"),
    }
    assert_eq!(cs[0].current_pos(), RESIDENT);
    assert_eq!(survivors(&cs[0]), (0..RESIDENT).map(|p| p as f32).collect::<Vec<_>>());
}

#[test]
fn a_cache_no_longer_than_the_scored_window_yields_no_choice() {
    let s = selector(vec![fixed("mid_pair", &[0, 1])]);
    let mut cs = caches();
    for c in &mut cs {
        c.set_current_pos(ROWS);
    }
    let r = run(&s, &mut cs, 0.25, &mut armed_q_rows(), no_signals()).expect("decide");
    assert!(matches!(r, Err(NoChoice::TooShort { resident: 2, .. })));
    assert_eq!(cs[0].current_pos(), ROWS);
    assert_eq!(
        r.unwrap_err().message(),
        "only 2 token(s) resident but the metric scores 2 query rows"
    );
}

#[test]
fn an_empty_pool_is_refused_at_construction() {
    let r = Selector::<Stage>::new(Vec::new(), LAYERS, HEADS * HD, HEADS);
    assert!(r.is_err());
}

#[test]
fn byte_identical_keep_sets_are_scored_once() {
    let go = |cands: Vec<Candidate<Stage>>| {
        settle(&selector(cands), &mut caches(), 0.25, &mut armed_q_rows())
    };
    let dup = go(vec![fixed("a", &[3, 4]), fixed("b", &[3, 4]), fixed("mid", &[0, 1])]);
    let distinct = go(vec![fixed("a", &[3, 4]), fixed("b", &[2, 4]), fixed("mid", &[0, 1])]);
    let triple = go(vec![fixed("a", &[3, 4]), fixed("b", &[3, 4]), fixed("c", &[3, 4])]);
    let single = go(vec![fixed("a", &[3, 4]), fixed("mid", &[0, 1])]);
    assert_eq!(dup.attend_n, (3 + 1 - 1) * LAYERS);
    assert_eq!(distinct.attend_n, (3 + 1) * LAYERS);
    assert_eq!(triple.attend_n, (3 + 1 - 2) * LAYERS);
    assert_eq!(dup.folded, 1);
    assert_eq!(distinct.folded, 0);
    assert_eq!(triple.folded, 2);
    assert_eq!(
        dup.arms.iter().map(|a| a.name.as_str()).collect::<Vec<_>>(),
        vec!["a", "b", "mid"]
    );
    let a_bits = dup.arms[0].score;
    assert_eq!(a_bits, dup.arms[1].score);
    assert_eq!(dup.arms[0].kept_total, dup.arms[1].kept_total);
    assert_eq!(a_bits, single.arms[0].score);
}

#[test]
fn a_tie_goes_to_the_first_and_equal_sets_are_measured_once() {
    let metric = Deviation::new();
    let src = HostLayers::read(&caches(), None, &armed_q_rows(), &geom_of(ROWS), &Rows).unwrap();
    let set = |list: &[usize]| {
        let mut k = KeepSets::with_capacity(LAYERS, HEADS);
        for l in 0..LAYERS {
            k.push(l, 0, &list.to_vec()).unwrap();
        }
        k
    };
    let pool = vec![set(&[0, 1]), set(&[3, 4]), set(&[3, 4])];
    let d = decide(&metric, &src, &pool, &geom_of(ROWS)).unwrap();
    assert_eq!(d.winner, 1);
    assert_eq!(d.scores[1], d.scores[2]);
    assert_eq!(metric.scored.get(), 2);
    assert_eq!((d.folded, d.attend_n), (1, (3 + 1 - 1) * LAYERS));
}

#[test]
fn the_pool_is_named_in_order_and_at_least_one_row_is_measured() {
    let s = selector(vec![fixed("a", &[0]), fixed("b", &[1])]);
    assert_eq!(s.names(), vec!["a", "b"]);
    assert_eq!(s.metric_rows, usize::MAX);
    assert_eq!(s.with_metric_rows(0).metric_rows, 1);
    let c = fixed("a", &[0]).with_protected_prefix(4);
    assert_eq!(c.protected_prefix, 4);
}

#[test]
fn a_model_that_is_not_the_basis_s_is_an_error() {
    let s = Selector::new(vec![fixed("a", &[0])], 3, HEADS * HD, HEADS).unwrap();
    let r = run(&s, &mut caches(), 0.5, &mut armed_q_rows(), no_signals());
    assert!(matches!(r, Err(SelectError::BasisLayers { basis: 3, layers: 2 })));
    let s = Selector::new(vec![fixed("a", &[0])], LAYERS, 5, HEADS).unwrap();
    let r = run(&s, &mut caches(), 0.5, &mut armed_q_rows(), no_signals());
    assert!(matches!(r, Err(SelectError::BasisWidth { basis: 5 })));
    let s = selector(vec![fixed("a", &[0])]);
    let r = run(&s, &mut Vec::new(), 0.5, &mut armed_q_rows(), no_signals());
    assert!(matches!(r, Err(SelectError::NoLayers)));
}

#[test]
fn rows_that_cannot_be_read_are_an_error_and_change_nothing() {
    let s = selector(vec![fixed("a", &[0])]);
    let mut q = QRowCapture::new(vec![vec![1.0f32.to_bits(); HEADS * ROWS * HD]], ROWS, RESIDENT);
    let mut cs = caches();
    let r = run(&s, &mut cs, 0.5, &mut q, no_signals());
    assert!(matches!(r, Err(SelectError::Read(ReadFault::NotCaptured { layer: 1 }))));
    assert_eq!(cs[0].current_pos(), RESIDENT);

    let mut shape = cache_shape(KVLayout::HeadMajor, HEADS);
    shape.on_device = true;
    let mut far = KVCache::new(shape).unwrap();
    far.set_current_pos(RESIDENT);
    let mut cs = vec![make_cache(), far];
    let r = run(&s, &mut cs, 0.5, &mut armed_q_rows(), no_signals());
    assert!(matches!(r, Err(SelectError::Read(ReadFault::NotMirrored { layer: 1 }))));

    let mut narrow = cache_shape(KVLayout::HeadMajor, HEADS);
    narrow.head_dim = 2;
    let mut cs = vec![make_cache(), KVCache::new(narrow).unwrap()];
    let r = run(&s, &mut cs, 0.5, &mut armed_q_rows(), no_signals());
    assert!(matches!(r, Err(SelectError::Read(ReadFault::Geometry { layer: 1 }))));
}

#[test]
fn each_reason_for_an_exclusion_is_given() {
    let reason = |c: Candidate<Stage>, ratio: f32| {
        match run(&selector(vec![c]), &mut caches(), ratio, &mut armed_q_rows(), no_signals()).unwrap() {
            Err(NoChoice::AllExcluded(mut v)) => v.remove(0).1,
            _ => panic!("not excluded"),
        }
    };
    let all: Vec<usize> = (0..RESIDENT).collect();
    assert_eq!(
        reason(fixed("a", &all), 0.9),
        Exclusion::DoesNotShrink { total: 16, budget: 14 }
    );
    assert_eq!(
        reason(fixed("a", &all), 0.9).message(),
        "retains 16 of 14 budgeted positions, and asking for less does not shrink it — its budget \
         is not the one the contract names"
    );
    assert_eq!(
        reason(fixed("a", &all), 0.25),
        Exclusion::NoSmallerBudget { total: 16, budget: 4 }
    );
    assert_eq!(
        reason(candidate("a", Stage::PerHead(Vec::new())), 0.5),
        Exclusion::Stage(EvictError::Refused(CacheOpError::InvalidKeep))
    );
    assert_eq!(
        reason(fixed("a", &[9]), 0.5),
        Exclusion::Stage(EvictError::Refused(CacheOpError::InvalidKeep))
    );
    assert_eq!(
        reason(candidate("a", Stage::Broken), 0.5),
        Exclusion::Stage(EvictError::Refused(CacheOpError::InvalidKeep))
    );
    assert_eq!(
        Exclusion::StillOver { budget: 7 }.message(),
        "still over the 7-position budget after 4 asks — over budget, so its score is not comparable"
    );
    assert_eq!(
        Exclusion::WindowShort { captured: 1, n_layers: 2 }.message(),
        "reads prefill attention, but only 1 of 2 layers were captured"
    );
    assert_eq!(
        Exclusion::WindowAbsent.message(),
        "reads prefill attention, which this run never captured"
    );
    assert_eq!(Exclusion::NoQueryHeads.message(), "the model reports no query heads");
    assert_eq!(
        Exclusion::WindowWidth { layer: 1, width: 6, resident: 8 }.message(),
        "layer 1: the window attention covers 6 positions but 8 are resident"
    );
    assert_eq!(
        Exclusion::MissingHead { layer: 1, kv_head: 3 }.message(),
        "layer 1: a per-head plan that does not cover KV head 3"
    );
}

#[test]
fn a_plan_over_a_window_that_is_missing_is_excluded() {
    let mut cs = caches();
    let (cand, _, _) = ranker();
    let ask = |signals: &Signals, n_heads_q: usize, cs: &mut Vec<KVCache>| {
        argus_kv::selector_plan::plan_one(&cand, n_heads_q, HEADS, cs, 4, signals).err().unwrap()
    };
    assert_eq!(ask(&no_signals(), 1, &mut cs), Exclusion::WindowAbsent);
    let short = vec![vec![0u32; RESIDENT]];
    let s = Signals { prefill_attn: Some(&short), ..no_signals() };
    assert_eq!(ask(&s, 1, &mut cs), Exclusion::WindowShort { captured: 1, n_layers: 2 });
    let narrow = vec![vec![0u32; PREFIX]; LAYERS];
    let s = Signals { prefill_attn: Some(&narrow), ..no_signals() };
    assert_eq!(
        ask(&s, 1, &mut cs),
        Exclusion::WindowWidth { layer: 0, width: PREFIX, resident: RESIDENT }
    );
    assert_eq!(ask(&s, 0, &mut cs), Exclusion::NoQueryHeads);
    let quiet = candidate("a", Stage::PerHead(vec![vec![0]]));
    assert_eq!(
        argus_kv::selector_plan::plan_one(&quiet, 1, 2, &mut cs, 4, &no_signals()).err().unwrap(),
        Exclusion::MissingHead { layer: 0, kv_head: 1 }
    );
}

#[test]
fn a_shared_cursor_is_the_longest_list_of_any_layer() {
    let cs = caches();
    let per_head = |n: usize| KeepSpec::PerHead(vec![(0..n).collect()]);
    assert_eq!(shared_cursor(&vec![per_head(2), per_head(5)], &cs), Some(5));
    assert_eq!(shared_cursor(&vec![per_head(2), KeepSpec::LayerWide(vec![0])], &cs), None);
    assert_eq!(shared_cursor(&vec![per_head(2), per_head(9)], &cs), None);
    assert_eq!(shared_cursor(&Vec::new(), &cs), None);
    let mut cs = caches();
    let layers = vec![per_head(2), per_head(5)];
    let mut rec = KeepsetDump::new(false);
    apply_layers(&mut cs, &layers, Some(5), &Rows, &mut rec).unwrap();
    assert_eq!((cs[0].current_pos(), cs[1].current_pos()), (5, 5));
    assert_eq!((cs[0].head_start(0), cs[1].head_start(0)), (3, 0));
    assert_eq!(layer_mean_resident(&cs), 4);
    let mut cs = caches();
    let layers = vec![per_head(2), per_head(5)];
    let r = apply_layers(&mut cs, &layers, Some(4), &Rows, &mut rec);
    assert_eq!(r, Err((1, EvictError::Failed(KvError::InvalidCursor))));
    assert_eq!((cs[0].current_pos(), cs[1].current_pos()), (RESIDENT, RESIDENT));
}

#[test]
fn carried_scores_move_with_their_positions_and_holes_score_zero() {
    let capture = vec![vec![10, 11, 12, 13], vec![20, 21, 22, 23]];
    let uniform = vec![KeepSpec::LayerWide(vec![1, 3]), KeepSpec::LayerWide(vec![0, 2])];
    assert_eq!(carry(&capture, &uniform, 1, 1, 2), Some(vec![vec![11, 13], vec![20, 22]]));
    let ragged = vec![KeepSpec::PerHead(vec![vec![1, 3]]), KeepSpec::PerHead(vec![vec![0, 1, 2]])];
    assert_eq!(carry(&capture, &ragged, 1, 1, 3), Some(vec![vec![0, 11, 13], vec![20, 21, 22]]));
    assert_eq!(carry(&capture, &ragged, 1, 1, 2), None);
    let past = vec![KeepSpec::LayerWide(vec![1, 9]), KeepSpec::LayerWide(vec![0, 2])];
    assert_eq!(carry(&capture, &past, 1, 1, 2), None);
    let both = vec![KeepSpec::LayerWide(vec![1, 9]), KeepSpec::LayerWide(vec![0, 8])];
    assert_eq!(carry(&capture, &both, 1, 1, 2), Some(vec![vec![11], vec![20]]));
}

#[test]
fn a_query_row_sees_the_positions_at_or_before_it_that_its_head_holds() {
    let g = geom_of(ROWS);
    assert_eq!((g.row_pos(0), g.row_pos(1)), (6, 7));
    assert_eq!(g.visible(0, 0), Some((0, 7)));
    assert_eq!(g.visible(1, 5), Some((5, 8)));
    assert_eq!(g.visible(0, 7), None);
    assert_eq!(g.visible(1, 99), None);
}

#[test]
fn the_last_rows_of_every_head_are_taken() {
    let all: Vec<u32> = (0..12).collect();
    assert_eq!(trailing_rows(&all, 3, 1, 2), vec![4, 5, 10, 11]);
    assert_eq!(trailing_rows(&all, 3, 2, 2), vec![2, 3, 4, 5, 8, 9, 10, 11]);
    assert_eq!(trailing_rows(&all, 3, 3, 2), all);
    assert_eq!(trailing_rows(&all, 3, 1, 0), Vec::<u32>::new());
}

struct Device {
    answer: fn() -> Result<Option<DevicePass>, MetricError>,
}

impl Metric for Device {
    fn device_pass(&self, _ask: &DeviceAsk) -> Result<Option<DevicePass>, MetricError> {
        (self.answer)()
    }

    fn host_pass(&self, _src: &HostLayers, layer: usize, g: &Geom) -> Result<Vec<u32>, MetricError> {
        Ok(vec![layer as u32; g.current_pos])
    }

    fn score(&self, _src: &HostLayers, _keep: &KeepSets, _g: &Geom) -> Result<u32, MetricError> {
        Err(MetricError("no score".to_string()))
    }
}

#[test]
fn the_window_is_computed_on_a_device_where_one_can_read_the_layers() {
    let mut shape = cache_shape(KVLayout::HeadMajor, HEADS);
    shape.dtype = DType::F16;
    shape.on_device = true;
    let far: Vec<KVCache> = (0..LAYERS)
        .map(|_| {
            let mut c = KVCache::new(shape).unwrap();
            c.set_current_pos(2);
            c
        })
        .collect();
    let src = HostLayers::read(&caches(), None, &armed_q_rows(), &geom_of(1), &Rows).unwrap();
    let g = Geom { current_pos: 2, ..geom_of(1) };
    assert_eq!(device_fits(&far, &g), Some(MAX_SEQ));
    assert_eq!(device_fits(&caches(), &g), None);

    let mut latch = DeviceLatch { enabled: true, failed: false };
    let good = Device {
        answer: || Ok(Some(DevicePass { flat: vec![1, 2, 3, 4], logits: Some(vec![7]) })),
    };
    let w = window_attention_layers(&good, &far, &src, &g, &mut latch).unwrap();
    assert_eq!(w.scores, vec![vec![1, 2], vec![3, 4]]);
    assert_eq!(w.logits, Some(vec![7]));
    assert!(!latch.failed);

    let absent = Device { answer: || Ok(None) };
    let w = window_attention_layers(&absent, &far, &src, &g, &mut latch).unwrap();
    assert_eq!(w.scores, vec![vec![0, 0], vec![1, 1]]);
    assert!(w.logits.is_none() && !latch.failed);

    let wild = Device {
        answer: || {
            Ok(Some(DevicePass { flat: vec![f32::NAN.to_bits(), 2, 3, 4], logits: None }))
        },
    };
    let w = window_attention_layers(&wild, &far, &src, &g, &mut latch).unwrap();
    assert_eq!(w.scores, vec![vec![0, 0], vec![1, 1]]);
    assert!(latch.failed);
    let w = window_attention_layers(&good, &far, &src, &g, &mut latch).unwrap();
    assert_eq!(w.scores, vec![vec![0, 0], vec![1, 1]]);

    let mut latch = DeviceLatch { enabled: true, failed: false };
    let broken = Device { answer: || Err(MetricError("refused".to_string())) };
    window_attention_layers(&broken, &far, &src, &g, &mut latch).unwrap();
    assert!(latch.failed);
}

#[test]
fn exported_logits_are_taken_only_at_the_exact_length() {
    let g = geom_of(1);
    let read = || HostLayers::read(&caches(), None, &armed_q_rows(), &g, &Rows).unwrap();
    let n = HEADS * RESIDENT;
    let mut src = read();
    src.accept_logits(Some((0..(LAYERS * n) as u32).collect()), &g);
    assert_eq!(src.logit_stride, n);
    assert_eq!(src.layer_logits(1).unwrap()[0], n as u32);
    assert!(src.layer_logits(2).is_none());
    let mut src = read();
    src.accept_logits(Some(vec![0; LAYERS * n - 1]), &g);
    assert!(src.logits.is_none() && src.layer_logits(0).is_none());
}

#[test]
fn a_failing_metric_is_an_error_and_changes_nothing() {
    let s = selector(vec![fixed("a", &[3, 4])]);
    let metric = Device { answer: || Ok(None) };
    let with = Workshop { codec: &Rows, math: &Floats, metric: &metric, mirrors: None };
    let mut latch = DeviceLatch { enabled: false, failed: false };
    let mut rec = KeepsetDump::new(false);
    let mut cs = caches();
    let mut q = armed_q_rows();
    let r = s.choose_and_apply(
        &with,
        &Ticks::new(),
        &mut cs,
        0.5f32.to_bits(),
        &mut q,
        &no_signals(),
        &mut latch,
        &mut rec,
    );
    assert!(matches!(r, Err(SelectError::Metric(MetricError(_)))));
    assert_eq!(cs[0].current_pos(), RESIDENT);
    assert_eq!(q.drift, 0);
}

#[test]
fn the_greatest_score_is_the_last_of_equals() {
    let v: Vec<u32> = [1.0f32, 3.0, -2.0, 3.0, 0.5].iter().map(|x| x.to_bits()).collect();
    assert_eq!(argmax(&v, 0, 5), Some(3));
    assert_eq!(argmax(&v, 0, 3), Some(1));
    assert_eq!(argmax(&v, 2, 2), None);
    let w: Vec<u32> = [1.0f32, 2.0, 3.0, 4.0].iter().map(|x| x.to_bits()).collect();
    let x: Vec<u32> = [1.0f32, 2.0, 4.0, 3.0].iter().map(|x| x.to_bits()).collect();
    assert_eq!(argmax_mismatches(&w, &x, 2, 2), Some(1));
    assert_eq!(argmax_mismatches(&w, &v, 2, 2), None);
    assert!(are_finite(&w));
    assert!(!are_finite(&vec![f32::INFINITY.to_bits()]));
}

#[test]
fn retained_sets_that_leave_the_frame_do_not_validate() {
    let mut k = KeepSets::with_capacity(1, 1);
    k.push(0, 0, &vec![1, 9]).unwrap();
    assert_eq!(k.validate(8), Err(KeepError::OutOfRange { layer: 0, kv_head: 0, pos: 9 }));
    assert_eq!(k.push(0, 0, &vec![1]), Err(KeepError::OutOfOrder { layer: 0, kv_head: 0 }));
    assert_eq!(k.total(), 2);
}

#[test]
fn rows_that_the_coder_cannot_widen_stop_the_decision() {
    let mut cs: Vec<KVCache> = (0..LAYERS)
        .map(|_| {
            let shape = CacheShape { dtype: DType::F16, ..cache_shape(KVLayout::HeadMajor, HEADS) };
            let mut c = KVCache::new(shape).unwrap();
            c.set_current_pos(RESIDENT);
            c
        })
        .collect();
    let s = selector(vec![fixed("a", &[0, 1])]);
    let r = run(&s, &mut cs, 0.5, &mut armed_q_rows(), no_signals());
    assert!(matches!(
        r,
        Err(SelectError::Read(ReadFault::Rows { layer: 0, error: KvError::CodecShape }))
    ));
    assert_eq!(cs[0].current_pos(), RESIDENT);
}

#[test]
fn a_choice_says_what_it_cost() {
    let s = selector(vec![fixed("a", &[3, 4]), fixed("b", &[5, 6])]);
    let choice = settle(&s, &mut caches(), 0.5, &mut armed_q_rows());
    assert_eq!(choice.times.read, 1);
    assert_eq!(choice.times.window, 0);
    assert_eq!(choice.times.plan, 5);
    assert_eq!((choice.times.decide, choice.times.apply, choice.times.carry), (1, 1, 1));
    assert!(choice.arms.iter().all(|arm| arm.plan_time == 1));
}
