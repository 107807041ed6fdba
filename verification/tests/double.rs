use dnsresolvr::double::{bit_length, integer_sqrt, nearest53, nearest_sqrt, ratio, Double};
use dnsresolvr::rng::rng_next;

fn value(x: Double) -> f64 {
    x.mant as f64 * 2f64.powi(x.exp)
}

#[test]
fn quotients_agree_with_floating_point() {
    let mut state = 0xfeed_beef_1234_5678u64;
    for round in 0..4000u32 {
        let p = rng_next(&mut state) >> (round % 64);
        let q = (rng_next(&mut state) >> ((round / 7) % 64)).max(1);
        assert_eq!(value(ratio(p, q)), p as f64 / q as f64, "{} / {}", p, q);
    }
    assert_eq!(value(ratio(0, 9)), 0.0);
    assert_eq!(value(ratio(u64::MAX, u64::MAX)), 1.0);
    assert_eq!(ratio(1, 3), Double { mant: 0x15_5555_5555_5555, exp: -54 });
}

#[test]
fn rounding_agrees_with_floating_point() {
    let mut state = 77u64;
    for round in 0..2000u32 {
        let wide = ((rng_next(&mut state) as u128) << 64 | rng_next(&mut state) as u128) >> (1 + round % 127);
        assert_eq!(nearest53(wide) as f64, wide as f64);
        assert_eq!(nearest53(wide), wide as f64 as u128);
        assert_eq!(bit_length(wide), 128 - wide.leading_zeros());
    }
    assert_eq!(nearest53((1 << 53) + 1), 1 << 53);
    assert_eq!(nearest53((1 << 53) + 3), (1 << 53) + 4);
}

#[test]
fn roots_agree_with_floating_point() {
    let mut state = 99u64;
    for round in 0..2000u32 {
        let wide = ((rng_next(&mut state) as u128) << 64 | rng_next(&mut state) as u128) >> (1 + round % 127);
        let v = nearest53(wide);
        assert_eq!(nearest_sqrt(v), (v as f64).sqrt() as u64);
        let r = integer_sqrt(wide);
        assert!(r * r <= wide);
        assert!((r + 1).checked_mul(r + 1).map_or(true, |next| next > wide));
    }
    assert_eq!(nearest_sqrt(0), 0);
    assert_eq!(nearest_sqrt(1 << 126), 1 << 63);
}

#[test]
fn products_agree_with_floating_point() {
    let mut state = 5u64;
    for round in 0..2000u32 {
        let p = rng_next(&mut state) >> (round % 60);
        let q = (rng_next(&mut state) >> ((round / 3) % 60)).max(1);
        let x = ratio(p, q);
        let f = p as f64 / q as f64;
        assert_eq!(x.times_floor(1_000_000_000), (f * 1e9) as u128);
        assert_eq!(x.times_round(14), (f * 14.0).round() as u128);
    }
}

#[test]
fn comparisons_agree_with_floating_point() {
    let limit = Double { mant: 0x19_9999_9999_999a, exp: -53 };
    assert_eq!(value(limit), 0.80);
    for n in 1..=200u64 {
        for k in 0..=n {
            assert_eq!(ratio(k, n).below(limit), (k as f64 / n as f64) < 0.80);
        }
    }
}
