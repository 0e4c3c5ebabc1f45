//! Arithmetic on doubles by their bit patterns, held against the machine's.

use std::time::Duration;
use stream::figures::{add_up, from_signed, greater_of, in_millis, in_seconds, rate_of, ratio_of, share_out};
use stream::rounding::{divide, from_whole, minus, multiply, plus, to_nanos, INFINITY};
use stream::session::Rng;

/// Finite patterns without a sign, of every size.
fn samples() -> Vec<u64> {
    let mut all = vec![
        0,
        1,
        2,
        3,
        0xF_FFFF_FFFF_FFFF,
        0x10_0000_0000_0000,
        0x10_0000_0000_0001,
        0x7FEF_FFFF_FFFF_FFFF,
        1.0f64.to_bits(),
        2.0f64.to_bits(),
        0.1f64.to_bits(),
        1e300f64.to_bits(),
        1e-300f64.to_bits(),
    ];
    let mut rng = Rng::seeded(5);
    for _ in 0..60 {
        all.push(rng.next_u64() % INFINITY);
        // Near one another, so that sums and differences cancel and carry.
        let near = 1000 + rng.next_u64() % 120;
        all.push((near << 52) | (rng.next_u64() >> 12));
    }
    all
}

#[test]
fn arithmetic_rounds_as_the_machine_does() {
    let all = samples();
    for &a in &all {
        for &b in &all {
            let (x, y) = (f64::from_bits(a), f64::from_bits(b));
            assert_eq!(plus(a, b), (x + y).to_bits(), "{x} + {y}");
            assert_eq!(multiply(a, b), (x * y).to_bits(), "{x} * {y}");
            if a >= b {
                assert_eq!(minus(a, b), (x - y).to_bits(), "{x} - {y}");
            }
            if b > 0 {
                assert_eq!(divide(a, b), (x / y).to_bits(), "{x} / {y}");
            }
        }
    }
}

#[test]
fn whole_numbers_round_as_the_machine_does() {
    let mut rng = Rng::seeded(9);
    let mut all = vec![0, 1, 7, 1_000_000_000, (1 << 53) - 1, 1 << 53, (1 << 53) + 1, (1 << 54) + 6, u64::MAX];
    for k in 0..64 {
        all.push(rng.next_u64() >> k);
    }
    for x in all {
        assert_eq!(from_whole(x), (x as f64).to_bits(), "{x}");
        let signed = x as i64;
        assert_eq!(from_signed(signed), (signed as f64).to_bits(), "{signed}");
    }
}

#[test]
fn nanoseconds_round_as_the_machine_does() {
    let mut rng = Rng::seeded(3);
    let mut all = vec![0.0, 0.4e-9, 0.5e-9, 0.6e-9, 1.5e-9, 2.5e-9, 0.1, 1.0, 6.4072265625, 2.7, 1e10, 1e-300];
    for _ in 0..500 {
        all.push(f64::from_bits(rng.next_f64()) * 20.0);
        all.push(f64::from_bits(rng.next_f64()) * 1e-7);
    }
    for x in all {
        let expected = u64::try_from(Duration::from_secs_f64(x).as_nanos()).unwrap();
        assert_eq!(to_nanos(x.to_bits()), expected, "{x}");
    }
    assert_eq!(to_nanos(1e30f64.to_bits()), u64::MAX);
    assert_eq!(to_nanos(2e10f64.to_bits()), u64::MAX);
}

#[test]
fn sums_take_every_kind_of_number() {
    let kinds = [0.0, -0.0, 1.5, -1.5, 2.25, -7.0, 1e-310, -1e300, f64::INFINITY, f64::NEG_INFINITY];
    for x in kinds {
        for y in kinds {
            let got = add_up(x.to_bits(), y.to_bits());
            if (x + y).is_nan() {
                assert!(f64::from_bits(got).is_nan(), "{x} + {y}");
            } else {
                assert_eq!(got, (x + y).to_bits(), "{x} + {y}");
            }
        }
        assert!(f64::from_bits(add_up(x.to_bits(), f64::NAN.to_bits())).is_nan());
        assert_eq!(share_out(x.to_bits(), 3), (x / 3.0).to_bits());
    }
    assert!(f64::from_bits(share_out(f64::NAN.to_bits(), 3)).is_nan());
    assert_eq!(greater_of(0, 2.0f64.to_bits()), 2.0f64.to_bits());
    assert_eq!(greater_of(3.0f64.to_bits(), 2.0f64.to_bits()), 3.0f64.to_bits());
    assert_eq!(greater_of(0, (-2.0f64).to_bits()), 0);
    assert_eq!(greater_of(0, f64::NAN.to_bits()), 0);
}

#[test]
fn times_and_rates_round_as_the_machine_does() {
    let mut rng = Rng::seeded(11);
    let mut times = vec![0, 1, 999, 1_000_000, 12_000_000, 999_999_999, 1_000_000_000, 2_500_000_001, u64::MAX];
    for k in 0..40 {
        times.push(rng.next_u64() >> k);
    }
    for ns in times {
        let time = Duration::from_nanos(ns);
        assert_eq!(in_seconds(ns), time.as_secs_f64().to_bits(), "{ns}");
        assert_eq!(in_millis(ns), (time.as_secs_f64() * 1000.0).to_bits(), "{ns}");
        for bytes in [0u64, 1, 1234, 5_000_000, u64::MAX] {
            let expected = if ns == 0 { 0.0 } else { bytes as f64 * 8.0 / time.as_secs_f64() };
            assert_eq!(rate_of(bytes, ns), expected.to_bits(), "{bytes} in {ns}");
        }
    }
    // A rate is not cut to whole bits.
    assert_eq!(f64::from_bits(rate_of(1, 3_000_000_000)), 8.0 / 3.0);
}

#[test]
fn ratios_run_from_zero_to_one() {
    assert_eq!(ratio_of(3, 0), 0);
    assert_eq!(f64::from_bits(ratio_of(1, 3)), 1.0 / 3.0);
    for (n, of) in [(0, 1), (1, 1), (7, 9), (u64::MAX - 1, u64::MAX), (u64::MAX, u64::MAX)] {
        let r = f64::from_bits(ratio_of(n, of));
        assert_eq!(r, n as f64 / of as f64);
        assert!((0.0..=1.0).contains(&r));
    }
}
