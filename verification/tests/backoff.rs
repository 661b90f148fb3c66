use fuckport::killer::backoff_intervals;

#[test]
fn backoff_stays_within_timeout() {
    let intervals = backoff_intervals(1_500);
    assert_eq!(intervals.iter().sum::<u64>(), 1_500);
}

#[test]
fn backoff_grows_then_caps() {
    let intervals = backoff_intervals(3_000);
    assert_eq!(&intervals[..5], &[50, 100, 200, 400, 800]);
    assert!(intervals.iter().all(|value| *value <= 1_000));
}

#[test]
fn zero_timeout_has_no_wait_intervals() {
    let intervals = backoff_intervals(0);
    assert!(intervals.is_empty());
}

#[test]
fn backoff_exact_schedules() {
    assert_eq!(backoff_intervals(1), vec![1]);
    assert_eq!(backoff_intervals(50), vec![50]);
    assert_eq!(backoff_intervals(120), vec![50, 70]);
    assert_eq!(backoff_intervals(1_500), vec![50, 100, 200, 400, 750]);
    assert_eq!(backoff_intervals(5_000), vec![50, 100, 200, 400, 800, 1000, 1000, 1000, 450]);
}

#[test]
fn backoff_long_timeout_caps_at_one_second() {
    let intervals = backoff_intervals(10_000);
    assert_eq!(intervals.iter().sum::<u64>(), 10_000);
    assert!(intervals[5..intervals.len() - 1].iter().all(|v| *v == 1_000));
    assert!(intervals.iter().all(|v| *v > 0 && *v <= 1_000));
}
