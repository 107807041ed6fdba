use dnsresolvr::double::Double;
use dnsresolvr::duration::Duration;
use dnsresolvr::rng::rng_next;
use dnsresolvr::stats::{spread_is_bounded, summarize};

fn d(ms: u64) -> Duration {
    Duration::from_millis(ms)
}

fn value(x: Double) -> f64 {
    x.mant as f64 * 2f64.powi(x.exp)
}

#[test]
fn percentiles_on_100_samples() {
    let rtts: Vec<Duration> = (1..=100).map(|n| d(n)).collect();
    let s = summarize(rtts, 100).unwrap();
    assert_eq!(s.min, d(1));
    assert_eq!(s.max, d(100));
    assert_eq!(s.p50, d(50));
    assert_eq!(s.p95, d(95));
    assert_eq!(s.p99, d(99));
}

#[test]
fn reliability_counts_total() {
    let s = summarize(vec![d(5), d(6), d(7)], 10).unwrap();
    assert_eq!(s.total, 10);
    assert_eq!(s.successes, 3);
    assert!((value(s.reliability()) - 0.3).abs() < 1e-9);
    assert_eq!(value(s.reliability()), 3.0 / 10.0);
}

#[test]
fn no_samples_make_no_summary() {
    assert!(summarize(Vec::new(), 7).is_none());
}

#[test]
fn one_sample_is_its_own_summary() {
    let s = summarize(vec![d(42)], 1).unwrap();
    assert_eq!(s.min, d(42));
    assert_eq!(s.max, d(42));
    assert_eq!(s.mean, d(42));
    assert_eq!(s.p50, d(42));
    assert_eq!(s.p99, d(42));
    assert_eq!(s.stddev, Duration::zero());
    assert_eq!(value(s.reliability()), 1.0);
}

#[test]
fn mean_and_stddev_have_exact_values() {
    let s = summarize(vec![d(2), d(4), d(4), d(4), d(5), d(5), d(7), d(9)], 8).unwrap();
    assert_eq!(s.mean, d(5));
    assert_eq!(s.stddev, d(2));
    let s = summarize(vec![Duration::from_nanos(1), Duration::from_nanos(2)], 2).unwrap();
    assert_eq!(s.mean, Duration::from_nanos(1));
    assert_eq!(s.stddev, Duration::zero());
}

#[test]
fn order_of_samples_does_not_matter() {
    let a = summarize(vec![d(3), d(1), d(2)], 4).unwrap();
    let b = summarize(vec![d(2), d(3), d(1)], 4).unwrap();
    assert_eq!(a, b);
    assert_eq!((a.min, a.p50, a.max), (d(1), d(2), d(3)));
}

#[test]
fn zero_total_has_zero_reliability() {
    let mut s = summarize(vec![d(1)], 1).unwrap();
    s.total = 0;
    assert_eq!(value(s.reliability()), 0.0);
}

#[test]
fn stddev_agrees_with_floating_point() {
    let mut state = 0x1234_5678_9abc_def1u64;
    for round in 0..400u64 {
        let n = 1 + (rng_next(&mut state) % 40) as usize;
        let shift = 20 + (round % 34) as u32;
        let nanos: Vec<u64> = (0..n).map(|_| rng_next(&mut state) >> shift).collect();
        let rtts: Vec<Duration> = nanos.iter().map(|&x| Duration::from_nanos(x)).collect();
        assert!(spread_is_bounded(&rtts));
        let s = summarize(rtts, n).unwrap();
        let sum: u128 = nanos.iter().map(|&x| x as u128).sum();
        let mean = sum / n as u128;
        let variance: u128 = nanos
            .iter()
            .map(|&x| {
                let diff = x as i128 - mean as i128;
                (diff * diff) as u128
            })
            .sum::<u128>()
            / n as u128;
        assert_eq!(s.mean.as_nanos(), mean);
        assert_eq!(s.stddev.as_nanos(), (variance as f64).sqrt() as u64 as u128);
        let mut sorted = nanos.clone();
        sorted.sort_unstable();
        for (q, got) in [(0.50, s.p50), (0.95, s.p95), (0.99, s.p99)] {
            let rank = (q * n as f64).ceil() as usize;
            let idx = rank.saturating_sub(1).min(n - 1);
            assert_eq!(got.as_nanos(), sorted[idx] as u128);
        }
        assert!(s.min <= s.p50 && s.p50 <= s.p95 && s.p95 <= s.p99 && s.p99 <= s.max);
    }
}

#[test]
fn a_spread_beyond_the_arithmetic_is_noticed() {
    assert!(spread_is_bounded(&vec![d(1), d(2)]));
    assert!(spread_is_bounded(&Vec::new()));
    assert!(!spread_is_bounded(&vec![Duration::zero(), Duration::max()]));
}

#[test]
fn reliability_is_one_only_where_all_was_answered() {
    let mut s = summarize(vec![d(1)], 1).unwrap();
    for total in [2usize, 3, 1000, (1 << 53) - 1] {
        s.total = total;
        s.successes = total - 1;
        assert!(value(s.reliability()) < 1.0);
        s.successes = total;
        assert_eq!(value(s.reliability()), 1.0);
    }
    s.total = usize::MAX;
    s.successes = usize::MAX - 1;
    assert_eq!(value(s.reliability()), 1.0);
}
