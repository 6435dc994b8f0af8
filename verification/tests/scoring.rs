use sacrebleu_rs::scoring::{check_lengths_cover, check_smoothing_fits, no_matches, smoothed_counts};

#[test]
fn add_k_smooths_every_order_above_the_first() {
    let s = smoothed_counts(vec![1, 0, 0, 0], vec![4, 3, 2, 1], Some(1), false, 4);
    assert_eq!(s.correct, vec![1, 1, 1, 1]);
    assert_eq!(s.total, vec![4, 4, 3, 2]);
    assert_eq!(s.orders, 4);
    assert_eq!(s.eff_order, 4);
}

#[test]
fn scoring_stops_at_the_first_empty_order() {
    let s = smoothed_counts(vec![3, 0, 0, 0], vec![3, 0, 0, 0], None, true, 4);
    assert_eq!(s.orders, 1);
    assert_eq!(s.eff_order, 1);
    assert_eq!(s.correct, vec![3, 0, 0, 0]);
    assert_eq!(s.total, vec![3, 0, 0, 0]);
}

#[test]
fn smoothing_reaches_the_stopping_order_only() {
    let s = smoothed_counts(vec![2, 0, 1, 1], vec![3, -2, 5, 5], Some(2), true, 4);
    assert_eq!(s.orders, 1);
    assert_eq!(s.total, vec![3, 0, 5, 5]);
    assert_eq!(s.correct, vec![2, 2, 1, 1]);
    assert_eq!(s.eff_order, 1);
}

#[test]
fn effective_order_without_any_order_is_the_maximum() {
    let s = smoothed_counts(vec![0, 0], vec![0, 0], None, true, 2);
    assert_eq!(s.orders, 0);
    assert_eq!(s.eff_order, 2);
}

#[test]
fn extra_entries_are_left_alone() {
    let s = smoothed_counts(vec![1, 1, 7], vec![2, 2, 9], Some(1), false, 2);
    assert_eq!(s.correct, vec![1, 2, 7]);
    assert_eq!(s.total, vec![2, 3, 9]);
    assert_eq!(s.orders, 2);
}

#[test]
fn matches_are_detected() {
    assert!(no_matches(&[0, 0, 0]));
    assert!(no_matches(&[]));
    assert!(!no_matches(&[0, 2, 0]));
}

#[test]
fn smoothing_overflow_is_detected_where_reached() {
    assert!(!check_smoothing_fits(&[0, i64::MAX], &[1, 1], Some(1), 2));
    assert!(check_smoothing_fits(&[0, i64::MAX], &[0, 1], Some(1), 2));
    assert!(check_smoothing_fits(&[0, i64::MAX], &[1, 1], None, 2));
    assert!(check_smoothing_fits(&[0, i64::MAX], &[1, 1], Some(1), 1));
}

#[test]
fn shorter_vectors_suffice_when_scoring_stops_early() {
    assert!(check_lengths_cover(2, &[2, 0], None, 4));
    assert!(!check_lengths_cover(2, &[2, 1], None, 4));
    assert!(!check_lengths_cover(1, &[2, 0], None, 4));
    assert!(check_lengths_cover(2, &[2, -1], Some(1), 4));
    let s = smoothed_counts(vec![2, 0], vec![2, 0], None, true, 4);
    assert_eq!(s.orders, 1);
    assert_eq!(s.eff_order, 1);
    assert_eq!(s.correct, vec![2, 0]);
    assert_eq!(s.total, vec![2, 0]);
}
