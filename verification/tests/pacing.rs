use dnsresolvr::duration::Duration;
use dnsresolvr::pacing::{jitter, Amplitude, Backoff, BACKOFF_MAX, BACKOFF_MIN};
use dnsresolvr::rng::rng_next;

const UNIT: f64 = 4_503_599_627_370_496.0;

#[test]
fn backoff_doubles_decays_and_stays_in_bounds() {
    let mut b = Backoff::new();
    let mut mult = 1.0f64;
    let mut state = 3u64;
    for _ in 0..3000 {
        match rng_next(&mut state) % 5 {
            0 => {
                b.on_failure(true);
                mult = (mult * 2.0).min(5.0);
            }
            1 => b.on_failure(false),
            _ => {
                b.on_success();
                mult = (mult * 0.9).max(1.0);
            }
        }
        assert_eq!(b.mult as f64 / UNIT, mult);
        assert!(b.mult >= BACKOFF_MIN && b.mult <= BACKOFF_MAX);
        for shift in [0u32, 8, 16, 24, 32, 40, 63] {
            let nanos = rng_next(&mut state) >> shift;
            let expected = (nanos as u128 as f64 * mult) as u64;
            assert_eq!(b.apply(Duration::from_nanos(nanos)).as_nanos(), expected as u128);
        }
    }
}

#[test]
fn backoff_steps_have_exact_values() {
    let mut b = Backoff::new();
    assert_eq!(b.apply(Duration::from_millis(40)), Duration::from_millis(40));
    b.on_failure(true);
    assert_eq!(b.apply(Duration::from_millis(40)), Duration::from_millis(80));
    b.on_failure(true);
    b.on_failure(true);
    assert_eq!(b.apply(Duration::from_millis(40)), Duration::from_millis(200));
    b.on_failure(false);
    assert_eq!(b.mult, BACKOFF_MAX);
    b.on_success();
    assert_eq!(b.apply(Duration::from_millis(40)), Duration::from_millis(180));
}

#[test]
fn backoff_saturates() {
    let mut b = Backoff::new();
    b.on_failure(true);
    assert_eq!(b.apply(Duration::max()), Duration::from_nanos(u64::MAX));
    assert_eq!(b.apply(Duration::from_nanos(u64::MAX)), Duration::from_nanos(u64::MAX));
    assert_eq!(b.apply(Duration::zero()), Duration::zero());
}

fn float_jitter(base: u64, r: u64, pct: f64) -> u64 {
    let signed = (r as f64 / u64::MAX as f64) * 2.0 - 1.0;
    let factor = 1.0 + signed * pct;
    (base as u128 as f64 * factor.max(0.0)) as u64
}

#[test]
fn jitter_agrees_with_floating_point() {
    let amplitudes = [
        (Amplitude { units: 5_404_319_552_844_595, shift: 54 }, 0.30),
        (Amplitude { units: 1 << 52, shift: 53 }, 0.5),
        (Amplitude { units: 1 << 53, shift: 53 }, 1.0),
        (Amplitude { units: 1, shift: 53 }, 2f64.powi(-53)),
        (Amplitude { units: 1, shift: 0 }, 1.0),
        (Amplitude { units: 1, shift: -1 }, 2.0),
        (Amplitude { units: 7, shift: 1 }, 3.5),
    ];
    let mut seed = 11u64;
    for round in 0..3000u32 {
        let base = (rng_next(&mut seed) >> (round % 64)).max(1);
        for (a, pct) in amplitudes {
            let mut state = seed;
            let mut copy = seed;
            let got = jitter(Duration::from_nanos(base), &mut state, a);
            let r = rng_next(&mut copy);
            assert_eq!(got.as_nanos(), float_jitter(base, r, pct) as u128);
            assert_eq!(state, copy);
        }
    }
}

/// The amplitude that a positive number is.
fn amplitude(x: f64) -> Amplitude {
    let bits = x.to_bits();
    let exponent = ((bits >> 52) & 0x7ff) as i32;
    let fraction = bits & ((1 << 52) - 1);
    if exponent == 0 {
        Amplitude { units: fraction, shift: 1074 }
    } else {
        Amplitude { units: fraction | 1 << 52, shift: 1075 - exponent }
    }
}

#[test]
fn any_amplitude_agrees_with_floating_point() {
    assert_eq!(amplitude(0.30), Amplitude { units: 5_404_319_552_844_595, shift: 54 });
    let mut shares = vec![0.0005, 0.1, 1.0, 1.5, 2.0, 1e9, 1e18, 1e20, 1e40, 1e300, f64::MAX];
    shares.extend_from_slice(&[1e-10, 1e-16, 3e-17, 1e-30, 1e-300, f64::MIN_POSITIVE, 5e-324]);
    for e in -140..140 {
        shares.push(1.37 * 2f64.powi(e));
        shares.push(2f64.powi(e));
    }
    let mut seed = 23u64;
    for round in 0..64u32 {
        let base = (rng_next(&mut seed) >> round).max(1);
        for &pct in &shares {
            let mut state = rng_next(&mut seed);
            let mut copy = state;
            let got = jitter(Duration::from_nanos(base), &mut state, amplitude(pct));
            let r = rng_next(&mut copy);
            assert_eq!(got.as_nanos(), float_jitter(base, r, pct) as u128, "{} {} {}", base, r, pct);
            assert_eq!(state, copy);
        }
    }
}

#[test]
fn jitter_of_very_long_times_agrees_with_floating_point() {
    let a = Amplitude { units: 5_404_319_552_844_595, shift: 54 };
    let whole = Amplitude { units: 1 << 53, shift: 53 };
    let mut seed = 17u64;
    for round in 0..2000u32 {
        let secs = rng_next(&mut seed) >> (round % 64);
        let nanos = (rng_next(&mut seed) % 1_000_000_000) as u32;
        let base = Duration::new(secs, nanos);
        for (amp, pct) in [(a, 0.30), (whole, 1.0)] {
            let mut state = seed;
            let mut copy = seed;
            let got = jitter(base, &mut state, amp);
            let r = rng_next(&mut copy);
            let signed = (r as f64 / u64::MAX as f64) * 2.0 - 1.0;
            let factor = 1.0 + signed * pct;
            let expected = (base.as_nanos() as f64 * factor.max(0.0)) as u64;
            assert_eq!(got.as_nanos(), expected as u128);
        }
    }
}

#[test]
fn no_jitter_keeps_time_and_state() {
    let none = Amplitude { units: 0, shift: 53 };
    let mut state = 9u64;
    assert_eq!(jitter(Duration::from_millis(7), &mut state, none), Duration::from_millis(7));
    assert_eq!(state, 9);
    let some = Amplitude { units: 5_404_319_552_844_595, shift: 54 };
    assert_eq!(jitter(Duration::zero(), &mut state, some), Duration::zero());
    assert_eq!(state, 9);
}

#[test]
fn jitter_stays_within_its_amplitude() {
    let a = Amplitude { units: 5_404_319_552_844_595, shift: 54 };
    let mut state = 1u64;
    for _ in 0..1000 {
        let t = jitter(Duration::from_millis(100), &mut state, a).as_nanos();
        assert!(t >= 70_000_000 - 1 && t <= 130_000_000, "{}", t);
        let t = jitter(Duration::from_nanos(1 << 50), &mut state, a).as_nanos();
        assert!(t >= (7 << 50) / 10 - 1 && t <= (13 << 50) / 10 + 1, "{}", t);
    }
}
