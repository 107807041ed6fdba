use dnsresolvr::rng::{random_label, rng_next, rng_seed, shuffle};

#[test]
fn generator_steps_as_xorshift() {
    let mut s = 1u64;
    let first = rng_next(&mut s);
    assert_eq!(first, 0x4082_2041);
    assert_eq!(s, first);
    let mut t = 0x9E37_79B9_7F4A_7C15u64;
    let mut expected = t;
    for _ in 0..100 {
        expected ^= expected << 13;
        expected ^= expected >> 7;
        expected ^= expected << 17;
        assert_eq!(rng_next(&mut t), expected);
        assert_ne!(t, 0);
    }
}

#[test]
fn seeds_mix_clock_and_counter() {
    assert_eq!(rng_seed(5, 1), 5 ^ 1u64.rotate_left(21));
    assert_eq!(rng_seed(0, 1 << 60), (1u64 << 60).rotate_left(21));
    assert_eq!(rng_seed(0, 0), 0x9E37_79B9_7F4A_7C15);
    assert_eq!(rng_seed(3u64.rotate_left(21), 3), 0x9E37_79B9_7F4A_7C15);
}

#[test]
fn shuffle_exchanges_downwards() {
    let mut v: Vec<u32> = (0..50).collect();
    let mut s = 42u64;
    let mut expected = v.clone();
    let mut t = s;
    for i in (1..expected.len()).rev() {
        let j = (rng_next(&mut t) as usize) % (i + 1);
        expected.swap(i, j);
    }
    shuffle(&mut v, &mut s);
    assert_eq!(v, expected);
    assert_eq!(s, t);
    assert_ne!(v, (0..50).collect::<Vec<u32>>());
    v.sort_unstable();
    assert_eq!(v, (0..50).collect::<Vec<u32>>());
}

#[test]
fn shuffle_of_little_draws_nothing() {
    let mut none: Vec<u8> = Vec::new();
    let mut one = vec![7u8];
    let mut s = 5u64;
    shuffle(&mut none, &mut s);
    shuffle(&mut one, &mut s);
    assert_eq!(s, 5);
    assert_eq!(one, vec![7]);
}

#[test]
fn labels_hold_counter_and_clock() {
    assert_eq!(random_label(1, 0), "b10");
    assert_eq!(random_label(0x1f, 0xabcd_ef01_2345_6789), "b1f23456789");
    assert_eq!(random_label(u64::MAX, u64::MAX), "bffffffffffffffffffffffff");
    for n in 0..200u64 {
        assert_eq!(random_label(n, n << 20), format!("b{:x}{:x}", n, (n << 20) & 0xffff_ffff));
    }
}

#[test]
fn labels_differ_by_counter_or_clock() {
    for (c, d) in [(1u64, 2u64), (0xf, 0x10), (0, u64::MAX)] {
        assert_ne!(random_label(c, 0x11), random_label(d, 0x11));
        assert_ne!(random_label(9, c), random_label(9, d));
    }
    assert_eq!(random_label(9, 1), random_label(9, 1 + (1 << 32)));
    assert_eq!(random_label(1, 0x11), random_label(0x11, 1));
}
