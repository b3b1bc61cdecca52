use argus_kv::attention::{after_device_q2, AttnRoute, AttnStep, Q2Gate};
use argus_kv::score_bits::exceeds;
use argus_kv::window::{measured, Geom};
use argus_kv::window_pass::{argmax, argmax_mismatches};
use argus_kv::window_selfcheck::{check_starts, compare_layers, compare_row, compared_spans,
    window_attention_selfcheck, DeviationMath, DeviceResult, RowSpan, SelfcheckFault, LOOSE};

struct Floats;

impl DeviationMath for Floats {
    fn apart(&self, x: u32, y: u32) -> u32 {
        (f32::from_bits(x) - f32::from_bits(y)).abs().to_bits()
    }

    fn relative(&self, distance: u32, from: u32) -> u32 {
        (f32::from_bits(distance) / f32::from_bits(from).abs().max(1e-6)).to_bits()
    }

    fn sum(&self, a: u32, b: u32) -> u32 {
        (f32::from_bits(a) + f32::from_bits(b)).to_bits()
    }
}

fn bits(v: &[f32]) -> Vec<u32> {
    v.iter().map(|x| x.to_bits()).collect()
}

fn geom(n_layers: usize, current_pos: usize, rows: usize) -> Geom {
    Geom { n_layers, n_heads_q: 2, n_kv_heads: 1, head_dim: 4, current_pos, rows }
}

#[test]
fn the_metric_reads_at_least_one_row() {
    assert_eq!(measured(16, 4), 4);
    assert_eq!(measured(4, 16), 4);
    assert_eq!(measured(4, 0), 1);
    assert_eq!(measured(0, 4), 1);
}

#[test]
fn heads_of_a_ragged_layer_start_ever_later() {
    assert_eq!(check_starts(4, 100, true), vec![0, 12, 25, 37]);
    assert_eq!(check_starts(4, 100, false), vec![0; 4]);
}

#[test]
fn a_thousandth_is_where_a_column_gets_loose() {
    assert_eq!(f32::from_bits(LOOSE), 1e-3);
    assert!(exceeds(1.0f32.to_bits(), (-2.0f32).to_bits()));
    assert!(!exceeds(0.0f32.to_bits(), (-0.0f32).to_bits()));
    assert!(!exceeds(f32::NAN.to_bits(), 0));
    assert!(!exceeds(1.0f32.to_bits(), f32::NAN.to_bits()));
}

#[test]
fn rows_that_see_nothing_are_left_out() {
    let g = Geom { n_heads_q: 2, n_kv_heads: 2, ..geom(1, 4, 2) };
    assert_eq!(
        compared_spans(&g, &vec![vec![1, 3]]),
        vec![
            RowSpan { layer: 0, start: 1, end: 3 },
            RowSpan { layer: 0, start: 5, end: 8 },
            RowSpan { layer: 0, start: 15, end: 16 },
        ]
    );
}

#[test]
fn a_flip_is_explained_by_deviations_that_cover_the_gap() {
    let a = bits(&[1.0, 1.25, 0.0]);
    let (devs, flipped, unexplained) = compare_row(&Floats, &a, &bits(&[1.25, 1.125, 0.0]));
    assert_eq!(devs[0].abs, 0.25f32.to_bits());
    assert_eq!((flipped, unexplained), (true, false));
    let (_, flipped, unexplained) = compare_row(&Floats, &bits(&[0.0, 8.0]), &bits(&[9.0, 8.0]));
    assert_eq!((flipped, unexplained), (true, false));
    let (_, flipped, unexplained) = compare_row(&Floats, &a, &bits(&[0.5, 1.25, 0.0]));
    assert_eq!((flipped, unexplained), (false, false));
}

/// Does not count the rows' own deviations.
struct Strict;

impl DeviationMath for Strict {
    fn apart(&self, x: u32, y: u32) -> u32 {
        Floats.apart(x, y)
    }

    fn relative(&self, distance: u32, from: u32) -> u32 {
        Floats.relative(distance, from)
    }

    fn sum(&self, _a: u32, _b: u32) -> u32 {
        0
    }
}

#[test]
fn a_flip_beyond_the_deviations_is_unexplained() {
    let (_, flipped, unexplained) = compare_row(&Strict, &bits(&[0.0, 8.0]), &bits(&[9.0, 8.0]));
    assert_eq!((flipped, unexplained), (true, true));
}

#[test]
fn a_device_is_held_against_the_host() {
    let g = geom(1, 2, 1);
    let host = vec![bits(&[1.0, 2.0, 4.0, 3.0])];
    let z_ref = vec![bits(&[0.5, 1.0, 2.0, 1.0])];
    let device = DeviceResult {
        scores: vec![bits(&[1.0, 2.0, 3.0, 3.5])],
        logits: Some(bits(&[0.5, 1.0, 1.0, 1.5])),
    };
    let starts = vec![vec![0]];
    let out =
        window_attention_selfcheck(&Floats, &host, &Some(device), &z_ref, &g, &starts).unwrap();
    assert!(out.gpu_ran && out.z_gpu_ran);
    assert_eq!((out.max_abs, out.max_rel), (1.0f32.to_bits(), 0.25f32.to_bits()));
    assert_eq!((out.argmax_mismatch, out.loose_cols), (1, 2));
    assert_eq!((out.z_rows_compared, out.z_argmax_mismatch, out.z_argmax_unexplained), (2, 1, 0));
    assert_eq!((out.z_max_abs, out.z_max_rel), (1.0f32.to_bits(), 0.5f32.to_bits()));
}

#[test]
fn without_a_device_the_host_agrees_with_itself() {
    let g = geom(2, 2, 2);
    let host = vec![bits(&[1.0, 2.0, 4.0, 3.0]); 2];
    let z_ref = vec![vec![0; 8]; 2];
    let starts = vec![vec![0]; 2];
    let out = window_attention_selfcheck(&Floats, &host, &None, &z_ref, &g, &starts).unwrap();
    assert!(!out.gpu_ran && !out.z_gpu_ran);
    assert_eq!((out.max_abs, out.max_rel, out.argmax_mismatch, out.loose_cols), (0, 0, 0, 0));
    assert_eq!((out.z_rows_compared, out.z_max_abs), (0, 0));
}

#[test]
fn what_cannot_be_compared_is_said_in_words() {
    let g = geom(1, 2, 1);
    let host = vec![bits(&[1.0, 2.0, 4.0, 3.0])];
    let z_ref = vec![vec![0; 4]];
    let starts = vec![vec![0]];
    let check = |device: DeviceResult| {
        window_attention_selfcheck(&Floats, &host, &Some(device), &z_ref, &g, &starts).unwrap_err()
    };
    let short = check(DeviceResult { scores: vec![vec![0; 3]], logits: Some(Vec::new()) });
    assert_eq!(short, SelfcheckFault::LayerLength);
    assert_eq!(short.message(), "window selfcheck: layer length mismatch");
    let export = check(DeviceResult { scores: host.clone(), logits: Some(vec![0; 5]) });
    assert_eq!(export, SelfcheckFault::ExportLength { got: 5, expected: 4 });
    assert_eq!(
        export.message(),
        "window selfcheck: the exported z is 5 elements, expected 4"
    );
    assert_eq!(
        compare_layers(&Floats, &host, &vec![vec![0; 5]], &g),
        Err(SelfcheckFault::LayerLength)
    );
}

#[test]
fn a_device_that_declines_leaves_the_decoding_to_the_host() {
    let step = AttnStep::Decode { effective: 7 };
    assert!(matches!(
        after_device_q2(step, true, true),
        AttnRoute::DeviceQ2 { step: AttnStep::Decode { effective: 7 } }
    ));
    for (k, v) in [(false, true), (true, false), (false, false)] {
        assert!(matches!(
            after_device_q2(step, k, v),
            AttnRoute::HostFloor { via_host: true, step: AttnStep::Decode { effective: 7 } }
        ));
    }
}

#[test]
fn the_device_decoder_is_on_from_256_positions() {
    assert_eq!(Q2Gate::configured(false, None), Q2Gate { enabled: true, min_ctx: 256 });
    assert_eq!(Q2Gate::configured(true, Some(0)), Q2Gate { enabled: false, min_ctx: 0 });
}

#[test]
fn the_layers_that_both_have_are_compared() {
    let g = geom(2, 2, 2);
    let host = vec![bits(&[1.0, 2.0, 4.0, 3.0]), bits(&[1.0, 2.0, 4.0, 3.0])];
    let z_ref = vec![vec![0; 8]; 2];
    let device = DeviceResult { scores: vec![bits(&[1.0, 2.0, 4.0, 2.0])], logits: None };
    let starts = vec![vec![0]; 2];
    let out =
        window_attention_selfcheck(&Floats, &host, &Some(device), &z_ref, &g, &starts).unwrap();
    assert!(out.gpu_ran && !out.z_gpu_ran);
    assert_eq!(out.max_abs, 1.0f32.to_bits());
}

#[test]
fn the_scan_goes_past_what_is_no_number() {
    let at = |row: &[f32]| argmax(&bits(row), 0, row.len());
    assert_eq!(at(&[1.0, f32::NAN, 0.0]), Some(2));
    assert_eq!(at(&[1.0, 0.0, f32::NAN]), Some(2));
    assert_eq!(at(&[f32::NAN, 3.0, 1.0]), Some(1));
    assert_eq!(at(&[1.0, 3.0, 3.0, -4.0]), Some(2));
    assert_eq!(at(&[]), None);
    assert_eq!(argmax(&bits(&[9.0, 1.0, 2.0, 9.0]), 1, 3), Some(1));
    let (a, b) = (bits(&[1.0, f32::NAN, 0.0]), bits(&[1.0, 2.0, 0.0]));
    assert_eq!(argmax_mismatches(&a, &b, 1, 3), Some(1));
}
