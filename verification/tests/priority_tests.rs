use lib::priority::{priority_threshold, prioritize_full, prioritize_random, ratio_total};

#[test]
fn threshold_is_average_over_the_screen() {
    let p = vec![30, 0, 0, 0, 0, 0, 0, 0, 0, 0, 0, 0, 0, 0, 0];
    assert_eq!(priority_threshold(&p), 2);
    let q = vec![1; 15];
    assert_eq!(priority_threshold(&q), 1);
}

#[test]
fn threshold_rounds_toward_zero() {
    let p = vec![-7, 0, 0, 0, 0, 0, 0, 0, 0, 0, 0, 0, 0, 0, 0];
    assert_eq!(priority_threshold(&p), 0);
    let q = vec![-16, 0, 0, 0, 0, 0, 0, 0, 0, 0, 0, 0, 0, 0, 0];
    assert_eq!(priority_threshold(&q), -1);
}

#[test]
fn full_prioritizing_simulates_at_or_above_threshold() {
    let p = vec![30, 0, 5, 2, 1, 0, 0, 0, 0, 0, 0, 0, 0, 0, 0];
    let sim = prioritize_full(&p);
    assert_eq!(sim.len(), 15);
    assert!(sim[0]);
    assert!(sim[2]);
    assert!(sim[3]);
    assert!(!sim[4]);
    assert!(!sim[1]);
}

#[test]
fn full_prioritizing_keeps_highest_on_full_screen() {
    let p = vec![-20, -20, -20, -20, -20, -20, -20, -20, -20, -20, -20, -20, -20, -20, -3];
    let sim = prioritize_full(&p);
    assert!(sim[14]);
    assert!(!sim[0]);
}

#[test]
fn full_prioritizing_all_zero_simulates_all() {
    let sim = prioritize_full(&vec![0; 15]);
    assert!(sim.iter().all(|b| *b));
}

#[test]
fn random_prioritizing_only_switches_on() {
    let p = vec![1, 0, -3, 4];
    let mut sim = vec![false, true, false, false];
    prioritize_random(&p, &mut sim);
    assert_eq!(sim, vec![true, true, false, true]);
}

#[test]
fn ratio_total_sums_ratios() {
    assert_eq!(ratio_total(&[2, 3, -1]), 4);
    assert_eq!(ratio_total(&[]), 0);
    assert_eq!(ratio_total(&[i32::MAX, -1, 1]), i32::MAX);
}
