use argus_kv::score_bits::order_of;
use argus_kv::squeeze_budget::compute_squeeze_budgets;

fn budgets(importance: &[f32], total: usize, floor: usize) -> Vec<usize> {
    compute_squeeze_budgets(&importance.iter().map(|x| x.to_bits()).collect(), total, floor)
}

#[test]
fn empty_importance_yields_empty_budget() {
    assert!(budgets(&[], 1024, 64).is_empty());
}

#[test]
fn length_matches_layer_count() {
    let imp = [0.1, 0.5, 0.9, 0.2, 0.8, 0.3];
    assert_eq!(budgets(&imp, 1200, 16).len(), imp.len());
}

#[test]
fn higher_importance_gets_at_least_as_much_budget() {
    let imp = [0.1, 0.2, 0.3, 0.4, 0.5, 0.6];
    let b = budgets(&imp, 1200, 1);
    for i in 1..b.len() {
        assert!(b[i] >= b[i - 1]);
    }
    assert!(b[5] > b[0]);
}

#[test]
fn min_floor_is_enforced() {
    let b = budgets(&[0.1, 0.9, 0.5, 0.2], 1, 64);
    assert!(b.iter().all(|&x| x >= 64));
}

#[test]
fn deterministic_across_runs() {
    let imp = [0.7, 0.1, 0.7, 0.3, 0.9, 0.1, 0.5];
    assert_eq!(budgets(&imp, 999, 8), budgets(&imp, 999, 8));
}

#[test]
fn tertile_grouping_small_layer_counts() {
    for n in 1..=3 {
        let imp: Vec<f32> = (0..n).map(|i| i as f32 * 0.1).collect();
        let b = budgets(&imp, 300, 10);
        assert_eq!(b.len(), n);
        assert!(b.iter().all(|&x| x >= 10));
    }
}

#[test]
fn equal_importance_is_uniform_and_stable() {
    let imp = [0.5, 0.5, 0.5, 0.5, 0.5, 0.5];
    let b = budgets(&imp, 600, 1);
    assert_eq!(b.len(), 6);
    assert_eq!(b, budgets(&imp, 600, 1));
}

#[test]
fn six_layers_share_twelve_parts() {
    assert_eq!(budgets(&[0.6, 0.1, 0.5, 0.2, 0.3, 0.4], 1200, 1), [300, 100, 300, 100, 200, 200]);
    assert_eq!(budgets(&[0.5; 6], 600, 1), [50, 50, 100, 100, 150, 150]);
    assert_eq!(budgets(&[-1.0, 0.0, 1.0], 60, 15), [15, 20, 30]);
}

#[test]
fn patterns_are_ordered_as_their_numbers() {
    let ascending = [f32::NEG_INFINITY, -2.0, -1.0, -0.0, 1e-40, 1.0, 2.0, f32::INFINITY];
    for w in ascending.windows(2) {
        assert!(order_of(w[0].to_bits()) < order_of(w[1].to_bits()));
    }
    assert_eq!(order_of((-0.0f32).to_bits()), order_of(0.0f32.to_bits()));
}

#[test]
fn what_is_no_number_keeps_its_place() {
    assert_eq!(budgets(&[f32::NAN, 0.5], 30, 0), [10, 20]);
    assert_eq!(budgets(&[0.5, f32::NAN], 30, 0), [10, 20]);
    assert_eq!(budgets(&[0.9, f32::NAN, 0.1], 30, 0), [5, 10, 15]);
    assert_eq!(budgets(&[f32::NAN; 3], 30, 0), [5, 10, 15]);
    assert_eq!(budgets(&[0.9, 0.1, f32::NAN], 30, 0), [10, 5, 15]);
}

#[test]
fn shares_fall_short_by_less_than_a_token_per_layer() {
    for total in [0, 1, 7, 100, 1003] {
        let b = budgets(&[0.3, 0.1, 0.2, 0.9, 0.5], total, 0);
        let sum: usize = b.iter().sum();
        assert!(sum <= total && total < sum + 5);
    }
    assert_eq!(budgets(&[0.3, 0.1, 0.2, 0.9, 0.5], 100, 0), [22, 11, 11, 33, 22]);
}
