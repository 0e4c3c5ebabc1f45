//! The monotonic clock.

use stream::clock::{latency, to_millis, wall_clock_ms, Clock};

#[test]
fn monotonic_and_forward() {
    let c = Clock::new();
    let a = c.now_ms();
    let start = c.now_ns();
    while c.now_ns() < start + 5_000_000 {}
    let b = c.now_ms();
    assert!(b >= a);
    assert!(b >= 5);
}

#[test]
fn latency_is_the_distance_to_the_live_edge() {
    assert_eq!(latency(1_000, 400), 600);
    assert_eq!(latency(400, 1_000), -600);
    assert_eq!(latency(i64::MAX, i64::MIN), i64::MAX);
    assert_eq!(latency(0, i64::MIN), i64::MAX);
    let c = Clock::new();
    assert!(c.latency_ms(0) >= 0);
    assert!(c.latency_ms(1_000_000) < 0);
}

#[test]
fn the_wall_clock_counts_from_the_epoch() {
    // Some time in or behind the year 2020.
    assert!(wall_clock_ms() > 1_577_836_800_000);
}

#[test]
fn milliseconds_keep_the_order_of_readings() {
    let readings = [0, 1, 999_999, 1_000_000, 1_999_999, 5_000_000_000, u64::MAX];
    let ms: Vec<i64> = readings.iter().map(|ns| to_millis(*ns)).collect();
    assert_eq!(ms, vec![0, 0, 0, 1, 1, 5_000, 18_446_744_073_709]);
    let c = Clock::new();
    let a = c.now_ms();
    assert!(0 <= a && a <= c.now_ms());
}
