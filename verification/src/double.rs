//! Binary64 rounding, computed in integers.
//!
//! A binary64 value carries 53 significant bits, and every operation on such values gives the
//! representable value nearest to the exact result, the one with the even last bit where two are
//! equally near. The functions here apply that rule to non-negative integers, to their quotients
//! and to their square roots.

use vstd::arithmetic::div_mod::{
    lemma_div_is_ordered, lemma_fundamental_div_mod, lemma_fundamental_div_mod_converse, lemma_mod_bound,
};
use vstd::arithmetic::mul::lemma_mul_is_associative;
use vstd::arithmetic::power2::{lemma_pow2_adds, lemma_pow2_pos, lemma_pow2_strictly_increases, lemma_pow2_unfold, pow2};
use vstd::prelude::*;

verus! {

/// The number of significant bits of a binary64 value.
pub const PRECISION: u32 = 53;

/// The length of `n` in binary: the least `k` with `n < 2^k`.
pub open spec fn bits(n: nat) -> nat
    decreases n,
{
    if n == 0 {
        0
    } else {
        1 + bits(n / 2)
    }
}

/// The integer nearest to `n / d`, the even one where two are equally near.
pub open spec fn div_nearest(n: nat, d: nat) -> nat {
    let q = n / d;
    let r = n % d;
    if 2 * r > d || (2 * r == d && q % 2 == 1) {
        q + 1
    } else {
        q
    }
}

/// The binary64 value nearest to the integer `n`.
pub open spec fn round53(n: nat) -> nat {
    if bits(n) <= PRECISION {
        n
    } else {
        let unit = pow2((bits(n) - PRECISION) as nat);
        div_nearest(n, unit) * unit
    }
}

/// `bits` brackets its argument between two powers of two.
pub proof fn lemma_bits(n: nat)
    ensures
        n < pow2(bits(n)),
        n > 0 ==> bits(n) > 0 && pow2((bits(n) - 1) as nat) <= n,
    decreases n,
{
    if n == 0 {
        lemma_pow2_pos(0);
    } else {
        lemma_bits(n / 2);
        lemma_pow2_unfold(bits(n));
        if n / 2 > 0 {
            lemma_pow2_unfold(bits(n / 2));
        } else {
            assert(bits(n / 2) == 0);
            vstd::arithmetic::power2::lemma2_to64();
        }
    }
}

/// A number between two neighbouring powers of two has the length that they give.
pub proof fn lemma_bits_unique(n: nat, k: nat)
    requires
        k > 0,
        pow2((k - 1) as nat) <= n < pow2(k),
    ensures
        bits(n) == k,
{
    lemma_bits(n);
    lemma_pow2_pos((k - 1) as nat);
    if bits(n) < k {
        if bits(n) < k - 1 {
            lemma_pow2_strictly_increases(bits(n), (k - 1) as nat);
        }
    } else if bits(n) > k {
        if bits(n) - 1 > k {
            lemma_pow2_strictly_increases(k, (bits(n) - 1) as nat);
        }
    }
}

/// Larger numbers are at least as long.
pub proof fn lemma_bits_monotone(a: nat, b: nat)
    requires
        a <= b,
    ensures
        bits(a) <= bits(b),
    decreases b,
{
    if a > 0 {
        lemma_bits_monotone(a / 2, b / 2);
    }
}

/// `2^e`.
pub fn power_of_two(e: u32) -> (r: u128)
    requires
        e < 128,
    ensures
        r == pow2(e as nat),
{
    let mut r: u128 = 1;
    let mut i: u32 = 0;
    proof {
        vstd::arithmetic::power2::lemma2_to64();
        lemma_pow2_127();
    }
    while i < e
        invariant
            i <= e < 128,
            r == pow2(i as nat),
            pow2(127) == 0x8000_0000_0000_0000_0000_0000_0000_0000,
        decreases e - i,
    {
        proof {
            lemma_pow2_unfold((i + 1) as nat);
            if i + 1 < 127 {
                lemma_pow2_strictly_increases((i + 1) as nat, 127);
            }
        }
        r = r * 2;
        i = i + 1;
    }
    r
}

/// The powers of two that the widths used here come down to.
pub proof fn lemma_pow2_127()
    ensures
        pow2(52) == 0x10_0000_0000_0000,
        pow2(53) == 0x20_0000_0000_0000,
        pow2(63) == 0x8000_0000_0000_0000,
        pow2(64) == 0x1_0000_0000_0000_0000,
        pow2(127) == 0x8000_0000_0000_0000_0000_0000_0000_0000,
        pow2(128) == 0x1_0000_0000_0000_0000_0000_0000_0000_0000,
{
    vstd::arithmetic::power2::lemma2_to64();
    vstd::arithmetic::power2::lemma2_to64_rest();
    lemma_pow2_adds(63, 64);
    lemma_pow2_adds(64, 64);
}

/// The length of `n` in binary.
pub fn bit_length(n: u128) -> (r: u32)
    ensures
        r == bits(n as nat),
        r <= 128,
{
    let mut m: u128 = n;
    let mut r: u32 = 0;
    proof {
        lemma_bits(n as nat);
        lemma_pow2_127();
        if bits(n as nat) > 128 {
            if bits(n as nat) - 1 > 128 {
                lemma_pow2_strictly_increases(128, (bits(n as nat) - 1) as nat);
            }
        }
    }
    while m > 0
        invariant
            r + bits(m as nat) == bits(n as nat),
            bits(n as nat) <= 128,
        decreases m,
    {
        m = m / 2;
        r = r + 1;
    }
    r
}

/// The integer nearest to `n / d`, the even one where two are equally near.
pub fn divide_nearest(n: u128, d: u128) -> (r: u128)
    requires
        0 < d <= 0x8000_0000_0000_0000_0000_0000_0000_0000,
    ensures
        r == div_nearest(n as nat, d as nat),
        r <= n,
        (n < u128::MAX || d > 1) ==> r <= n / d + 1,
{
    let q: u128 = n / d;
    let r: u128 = n % d;
    let rest: u128 = d - r;
    proof {
        lemma_mod_bound(n as int, d as int);
        lemma_fundamental_div_mod(n as int, d as int);
        assert(q * d + r == n) by (nonlinear_arith)
            requires
                n == d * q + r,
        ;
    }
    if r > rest || (r == rest && q % 2 == 1) {
        proof {
            assert(r >= 1);
            assert(q + 1 <= n) by (nonlinear_arith)
                requires
                    n == q * d + r,
                    r >= 1,
                    d >= 1,
                    q >= 0,
            ;
        }
        q + 1
    } else {
        proof {
            assert(q <= n) by (nonlinear_arith)
                requires
                    n == q * d + r,
                    r >= 0,
                    d >= 1,
                    q >= 0,
            ;
        }
        q
    }
}

/// Rounding to 53 bits gives at most the next power of two, and no less than the highest bit.
pub proof fn lemma_round53_range(n: nat)
    ensures
        round53(n) <= pow2(bits(n)),
        n > 0 ==> pow2((bits(n) - 1) as nat) <= round53(n),
{
    lemma_bits(n);
    if bits(n) > PRECISION {
        let e = (bits(n) - PRECISION) as nat;
        let unit = pow2(e);
        lemma_pow2_pos(e);
        lemma_pow2_adds(53, e);
        lemma_pow2_adds(52, e);
        lemma_pow2_127();
        let q = n / unit;
        let low = pow2(52);
        let high = pow2(53);
        lemma_fundamental_div_mod(n as int, unit as int);
        lemma_mod_bound(n as int, unit as int);
        assert(q < high) by (nonlinear_arith)
            requires
                n == unit * q + n % unit,
                n < high * unit,
                unit > 0,
                n % unit >= 0,
        ;
        assert(q >= low) by (nonlinear_arith)
            requires
                n == unit * q + n % unit,
                n >= low * unit,
                unit > 0,
                n % unit < unit,
        ;
        let m = div_nearest(n, unit);
        assert(m * unit <= high * unit) by (nonlinear_arith)
            requires
                m <= high,
                unit > 0,
        ;
        assert(m * unit >= low * unit) by (nonlinear_arith)
            requires
                m >= low,
                unit > 0,
        ;
    }
}

/// The binary64 value nearest to `n`.
pub fn nearest53(n: u128) -> (r: u128)
    requires
        n < 0x8000_0000_0000_0000_0000_0000_0000_0000,
    ensures
        r == round53(n as nat),
        r <= 0x8000_0000_0000_0000_0000_0000_0000_0000,
{
    let k: u32 = bit_length(n);
    proof {
        lemma_pow2_127();
        lemma_bits(n as nat);
        lemma_round53_range(n as nat);
        if k > 127 {
            if bits(n as nat) - 1 > 127 {
                lemma_pow2_strictly_increases(127, (bits(n as nat) - 1) as nat);
            }
        }
        if k < 127 {
            lemma_pow2_strictly_increases(k as nat, 127);
        }
    }
    if k <= PRECISION {
        n
    } else {
        let unit: u128 = power_of_two(k - PRECISION);
        proof {
            lemma_pow2_pos((k - PRECISION) as nat);
            lemma_pow2_strictly_increases((k - PRECISION) as nat, 127);
        }
        divide_nearest(n, unit) * unit
    }
}

proof fn lemma_div_nearest_monotone(a: nat, b: nat, d: nat)
    requires
        a <= b,
        d > 0,
    ensures
        div_nearest(a, d) <= div_nearest(b, d),
{
    lemma_div_is_ordered(a as int, b as int, d as int);
    lemma_fundamental_div_mod(a as int, d as int);
    lemma_fundamental_div_mod(b as int, d as int);
    if a / d == b / d {
        let q = a / d;
        assert(d * q == d * (b / d));
    }
}

/// Rounding keeps the order.
pub proof fn lemma_round53_monotone(a: nat, b: nat)
    requires
        a <= b,
    ensures
        round53(a) <= round53(b),
{
    lemma_bits_monotone(a, b);
    lemma_round53_range(a);
    lemma_round53_range(b);
    if bits(a) == bits(b) {
        if bits(a) > PRECISION {
            let unit = pow2((bits(a) - PRECISION) as nat);
            lemma_pow2_pos((bits(a) - PRECISION) as nat);
            lemma_div_nearest_monotone(a, b, unit);
            let x = div_nearest(a, unit);
            let y = div_nearest(b, unit);
            assert(x * unit <= y * unit) by (nonlinear_arith)
                requires
                    x <= y,
            ;
        }
    } else if bits(a) < bits(b) - 1 {
        lemma_pow2_strictly_increases(bits(a), (bits(b) - 1) as nat);
    }
}

/// The length of a number times a power of two.
pub proof fn lemma_bits_shift(n: nat, t: nat)
    requires
        n > 0,
    ensures
        bits(n * pow2(t)) == bits(n) + t,
{
    lemma_bits(n);
    lemma_pow2_pos(t);
    lemma_pow2_adds(bits(n), t);
    lemma_pow2_adds((bits(n) - 1) as nat, t);
    let low = pow2((bits(n) - 1) as nat);
    let high = pow2(bits(n));
    let f = pow2(t);
    assert(low * f <= n * f < high * f) by (nonlinear_arith)
        requires
            low <= n < high,
            f > 0,
    ;
    lemma_bits_unique(n * f, (bits(n) + t) as nat);
}

/// Rounding takes no notice of a factor that is a power of two.
pub proof fn lemma_round53_shift(n: nat, t: nat)
    ensures
        round53(n * pow2(t)) == round53(n) * pow2(t),
{
    let f = pow2(t);
    lemma_pow2_pos(t);
    if n == 0 {
        assert(n * f == 0) by (nonlinear_arith)
            requires
                n == 0,
        ;
        assert(round53(n) * f == 0) by (nonlinear_arith)
            requires
                round53(n) == 0,
        ;
    } else {
        lemma_bits_shift(n, t);
        if bits(n) + t > PRECISION {
            let e = (bits(n) + t - PRECISION) as nat;
            let unit = pow2(e);
            lemma_pow2_pos(e);
            if bits(n) > PRECISION {
                let small = pow2((bits(n) - PRECISION) as nat);
                lemma_pow2_adds((bits(n) - PRECISION) as nat, t);
                lemma_pow2_pos((bits(n) - PRECISION) as nat);
                lemma_div_nearest_scale(n, small, f);
                lemma_mul_is_associative(div_nearest(n, small) as int, small as int, f as int);
            } else {
                let g = pow2((PRECISION - bits(n)) as nat);
                lemma_pow2_adds(e, (PRECISION - bits(n)) as nat);
                assert(n * f == (n * g) * unit + 0) by (nonlinear_arith)
                    requires
                        f == unit * g,
                ;
                lemma_fundamental_div_mod_converse((n * f) as int, unit as int, (n * g) as int, 0);
            }
        }
    }
}

/// Powers of two are exact.
pub proof fn lemma_round53_power(t: nat)
    ensures
        round53(pow2(t)) == pow2(t),
{
    lemma_round53_shift(1, t);
    assert(bits(1) == 1) by {
        assert(bits(0) == 0);
    }
    assert(1 * pow2(t) == pow2(t));
}

/// The relative error of rounding is at most `2^-53`.
pub proof fn lemma_round53_error(n: nat)
    ensures
        (pow2(53) - 1) * n <= pow2(53) * round53(n) <= (pow2(53) + 1) * n,
{
    lemma_pow2_127();
    if bits(n) <= PRECISION {
        assert((pow2(53) - 1) * n <= pow2(53) * n <= (pow2(53) + 1) * n) by (nonlinear_arith)
            requires
                n >= 0,
        ;
    } else {
        let e = (bits(n) - PRECISION) as nat;
        let unit = pow2(e);
        lemma_pow2_pos(e);
        lemma_bits(n);
        lemma_pow2_adds(52, e);
        lemma_fundamental_div_mod(n as int, unit as int);
        lemma_mod_bound(n as int, unit as int);
        let q = n / unit;
        let r = n % unit;
        let m = div_nearest(n, unit);
        let p = pow2(53);
        let d: int = m * unit - n;
        assert(m * unit == unit * q + (m - q) * unit) by (nonlinear_arith);
        assert((m - q) * unit == (if m == q { 0int } else { unit as int })) by (nonlinear_arith)
            requires
                m == q || m == q + 1,
        ;
        assert(-unit <= 2 * d <= unit);
        assert(-(p * unit) <= 2 * (p * d) <= p * unit) by (nonlinear_arith)
            requires
                -unit <= 2 * d <= unit,
                p > 0,
        ;
        assert(p * (m * unit) == p * n + p * d) by (nonlinear_arith)
            requires
                d == m * unit - n,
        ;
        assert((p - 1) * n == p * n - n && (p + 1) * n == p * n + n) by (nonlinear_arith);
        assert(p * unit == 2 * (pow2(52) * unit)) by (nonlinear_arith)
            requires
                p == 2 * pow2(52),
        ;
    }
}

/// The greatest integer whose square does not exceed `n`.
pub open spec fn isqrt(n: nat) -> nat
    decreases n,
{
    if n == 0 {
        0
    } else {
        let r = isqrt((n - 1) as nat);
        if (r + 1) * (r + 1) <= n {
            r + 1
        } else {
            r
        }
    }
}

/// `isqrt` is the integer square root.
pub proof fn lemma_isqrt(n: nat)
    ensures
        isqrt(n) * isqrt(n) <= n,
        n < (isqrt(n) + 1) * (isqrt(n) + 1),
    decreases n,
{
    if n > 0 {
        lemma_isqrt((n - 1) as nat);
        let r = isqrt((n - 1) as nat);
        let s = isqrt(n);
        assert((r + 2) * (r + 2) > (r + 1) * (r + 1) + 1) by (nonlinear_arith)
            requires
                r >= 0,
        ;
        if s == r + 1 {
            assert((s + 1) * (s + 1) == (r + 2) * (r + 2));
            assert(s * s == (r + 1) * (r + 1));
        } else {
            assert(s == r);
        }
    } else {
        assert(isqrt(0) == 0);
        assert((isqrt(n) + 1) * (isqrt(n) + 1) == 1) by (nonlinear_arith)
            requires
                isqrt(n) == 0,
        ;
    }
}

/// Only one integer has its square at most `n` and the square of its successor above `n`.
pub proof fn lemma_isqrt_unique(n: nat, r: nat)
    requires
        r * r <= n < (r + 1) * (r + 1),
    ensures
        isqrt(n) == r,
{
    lemma_isqrt(n);
    let s = isqrt(n);
    if s < r {
        assert((s + 1) * (s + 1) <= r * r) by (nonlinear_arith)
            requires
                s + 1 <= r,
                s >= 0,
        ;
    } else if r < s {
        assert((r + 1) * (r + 1) <= s * s) by (nonlinear_arith)
            requires
                r + 1 <= s,
                r >= 0,
        ;
    }
}

/// The greatest integer whose square does not exceed `n`.
pub fn integer_sqrt(n: u128) -> (r: u128)
    ensures
        r == isqrt(n as nat),
        r < 0x1_0000_0000_0000_0000,
{
    let mut low: u128 = 0;
    let mut high: u128 = 0x1_0000_0000_0000_0000;
    while high - low > 1
        invariant
            low < high <= 0x1_0000_0000_0000_0000,
            low * low <= n,
            (n as int) < high * high,
        decreases high - low,
    {
        let mid: u128 = low + (high - low) / 2;
        assert(mid * mid <= 0xffff_ffff_ffff_ffff * 0xffff_ffff_ffff_ffff) by (nonlinear_arith)
            requires
                mid <= 0xffff_ffff_ffff_ffff,
                mid >= 0,
        ;
        if mid * mid <= n {
            low = mid;
        } else {
            high = mid;
        }
    }
    proof {
        lemma_isqrt_unique(n as nat, low as nat);
    }
    low
}

/// The integer part of the binary64 value nearest to the square root of `v`.
///
/// The root of a number below `4^53` is found on the grid that 53 bits leave behind the binary
/// point; that of a larger number on a grid coarser than the integers.
pub open spec fn sqrt53(v: nat) -> nat {
    let k = bits(isqrt(v));
    if k <= PRECISION {
        let scale = pow2((PRECISION - k) as nat);
        let w = v * scale * scale;
        let t = isqrt(w);
        if w > t * t + t {
            (t + 1) / scale
        } else {
            t / scale
        }
    } else {
        let scale = pow2((k - PRECISION) as nat);
        let t = isqrt(v / (scale * scale));
        let edge = (2 * t + 1) * pow2((k - PRECISION - 1) as nat);
        if v > edge * edge || (v == edge * edge && t % 2 == 1) {
            (t + 1) * scale
        } else {
            t * scale
        }
    }
}

/// The integer part of the binary64 value nearest to the square root of `v`.
pub fn nearest_sqrt(v: u128) -> (r: u64)
    requires
        v <= 0x8000_0000_0000_0000_0000_0000_0000_0000,
    ensures
        r == sqrt53(v as nat),
{
    let root: u128 = integer_sqrt(v);
    let k: u32 = bit_length(root);
    proof {
        lemma_pow2_127();
        lemma_isqrt(v as nat);
        lemma_bits(root as nat);
        if k > 64 {
            lemma_bits_monotone(root as nat, 0xffff_ffff_ffff_ffff);
            lemma_bits_unique(0xffff_ffff_ffff_ffff, 64);
        }
    }
    if k <= PRECISION {
        let scale: u128 = power_of_two(PRECISION - k);
        let ghost side = pow2(k as nat);
        proof {
            lemma_pow2_pos((PRECISION - k) as nat);
            lemma_pow2_adds(k as nat, (PRECISION - k) as nat);
            assert(v * scale * scale < 0x20_0000_0000_0000 * 0x20_0000_0000_0000) by (nonlinear_arith)
                requires
                    v < (root + 1) * (root + 1),
                    root + 1 <= side,
                    side * scale == 0x20_0000_0000_0000,
                    scale > 0,
                    root >= 0,
                    v >= 0,
            {
                assert((root + 1) * (root + 1) <= side * side);
                assert(v * (scale * scale) <= (side * side - 1) * (scale * scale));
                assert((side * side) * (scale * scale) == (side * scale) * (side * scale));
                assert(scale * scale >= 1);
            }
            assert(v * scale <= v * scale * scale) by (nonlinear_arith)
                requires
                    v >= 0,
                    scale >= 1,
            ;
        }
        let w: u128 = v * scale * scale;
        let t: u128 = integer_sqrt(w);
        proof {
            lemma_isqrt(w as nat);
            assert(t < 0x20_0000_0000_0000) by (nonlinear_arith)
                requires
                    t * t <= w,
                    w < 0x20_0000_0000_0000 * 0x20_0000_0000_0000,
                    t >= 0,
            ;
            assert(t * t + t < 0x8000_0000_0000_0000_0000_0000_0000_0000) by (nonlinear_arith)
                requires
                    0 <= t < 0x20_0000_0000_0000,
            ;
            assert((t + 1) / scale as int <= t + 1 && t / scale <= t) by (nonlinear_arith)
                requires
                    t >= 0,
                    scale >= 1,
            ;
        }
        if w > t * t + t {
            ((t + 1) / scale) as u64
        } else {
            (t / scale) as u64
        }
    } else {
        let scale: u128 = power_of_two(k - PRECISION);
        let half: u128 = power_of_two(k - PRECISION - 1);
        let ghost side = pow2(k as nat);
        proof {
            lemma_pow2_pos((k - PRECISION - 1) as nat);
            lemma_pow2_unfold((k - PRECISION) as nat);
            lemma_pow2_adds(53, (k - PRECISION) as nat);
            if k < 64 {
                lemma_pow2_strictly_increases(k as nat, 64);
            }
            if k - PRECISION < 11 {
                lemma_pow2_strictly_increases((k - PRECISION) as nat, 11);
            }
            vstd::arithmetic::power2::lemma2_to64();
            assert(0 < scale * scale <= 0x40_0000) by (nonlinear_arith)
                requires
                    0 < scale <= 0x800,
            ;
        }
        let area: u128 = scale * scale;
        let cells: u128 = v / area;
        let t: u128 = integer_sqrt(cells);
        proof {
            lemma_isqrt(cells as nat);
            lemma_fundamental_div_mod(v as int, area as int);
            lemma_mod_bound(v as int, area as int);
            let rest = v as int % area as int;
            assert(t < 0x20_0000_0000_0000) by (nonlinear_arith)
                requires
                    t * t <= cells,
                    v == area * cells + rest,
                    rest >= 0,
                    area == scale * scale,
                    v < (root + 1) * (root + 1),
                    root + 1 <= side,
                    side == 0x20_0000_0000_0000 * scale,
                    scale > 0,
                    t >= 0,
                    root >= 0,
            {
                if t >= 0x20_0000_0000_0000 {
                    assert(t * scale >= side);
                    assert((t * scale) * (t * scale) >= side * side);
                    assert((t * scale) * (t * scale) == (t * t) * area);
                    assert((t * t) * area <= cells * area);
                    assert((root + 1) * (root + 1) <= side * side);
                }
            }
            assert((2 * t + 1) * half < 0x1_0000_0000_0000_0000 && (2 * t + 1) * half >= 0) by (nonlinear_arith)
                requires
                    0 <= t < 0x20_0000_0000_0000,
                    0 < half <= 0x400,
            ;
        }
        let edge: u128 = (2 * t + 1) * half;
        proof {
            assert(edge * edge <= 0xffff_ffff_ffff_ffff * 0xffff_ffff_ffff_ffff && edge * edge >= 0) by (nonlinear_arith)
                requires
                    0 <= edge <= 0xffff_ffff_ffff_ffff,
            ;
        }
        if v > edge * edge || (v == edge * edge && t % 2 == 1) {
            proof {
                assert((t + 1) * scale < 0x1_0000_0000_0000_0000) by (nonlinear_arith)
                    requires
                        edge == (2 * t + 1) * half,
                        scale == 2 * half,
                        edge * edge <= v,
                        v <= 0x8000_0000_0000_0000_0000_0000_0000_0000,
                        0 < half <= 0x400,
                        t >= 0,
                {
                    assert((t + 1) * scale == edge + half);
                    if edge > 0xfff0_0000_0000_0000 {
                        assert(edge * edge >= 0xfff0_0000_0000_0000 * 0xfff0_0000_0000_0000);
                    }
                }
            }
            ((t + 1) * scale) as u64
        } else {
            proof {
                assert(t * scale <= edge && t * scale >= 0) by (nonlinear_arith)
                    requires
                        edge == (2 * t + 1) * half,
                        scale == 2 * half,
                        t >= 0,
                        half > 0,
                ;
            }
            (t * scale) as u64
        }
    }
}

/// A non-negative binary64 value, `mant * 2^exp`: zero, or with `mant` exactly 53 bits long.
#[derive(Clone, Copy, Debug, PartialEq, Eq, Structural)]
pub struct Double {
    pub mant: u64,
    pub exp: i32,
}

/// The exponent that quotients are measured from, low enough for those of 65-bit numbers.
pub const BIAS: i32 = 128;

/// `p / q`, measured in units of `2^(k - BIAS)`, is 53 bits long.
pub open spec fn in_window(p: nat, q: nat, k: nat) -> bool {
    pow2(52) * (q * pow2(k)) <= p * pow2(BIAS as nat) < pow2(53) * (q * pow2(k))
}

/// The value `m * 2^(k - BIAS)`, with a mantissa that rounding has carried to `2^53` halved.
pub open spec fn normalized(m: nat, k: nat) -> Double {
    if m == pow2(53) {
        Double { mant: pow2(52) as u64, exp: (k - BIAS + 1) as i32 }
    } else {
        Double { mant: m as u64, exp: (k - BIAS) as i32 }
    }
}

/// The binary64 value nearest to `p / q`.
pub open spec fn quotient53(p: nat, q: nat) -> Double {
    if p == 0 {
        Double { mant: 0, exp: 0 }
    } else {
        let k = choose|k: nat| in_window(p, q, k);
        normalized(div_nearest(p * pow2(BIAS as nat), q * pow2(k)), k)
    }
}

/// The unit in which a quotient is 53 bits long is unique.
pub proof fn lemma_window_unique(p: nat, q: nat, j: nat, k: nat)
    requires
        in_window(p, q, j),
        in_window(p, q, k),
        q > 0,
    ensures
        j == k,
{
    if j < k {
        lemma_window_not_below(p, q, j, k);
    } else if k < j {
        lemma_window_not_below(p, q, k, j);
    }
}

proof fn lemma_window_not_below(p: nat, q: nat, j: nat, k: nat)
    requires
        in_window(p, q, j),
        q > 0,
        j < k,
    ensures
        !in_window(p, q, k),
{
    lemma_pow2_127();
    lemma_pow2_unfold((j + 1) as nat);
    if j + 1 < k {
        lemma_pow2_strictly_increases((j + 1) as nat, k);
    }
    let a = pow2(j);
    let b = pow2(k);
    assert(pow2(53) * (q * a) <= pow2(52) * (q * b)) by (nonlinear_arith)
        requires
            2 * a <= b,
            pow2(53) == 2 * pow2(52),
            q > 0,
            a >= 0,
    {
        assert(q * (2 * a) <= q * b);
        assert(pow2(52) * (q * (2 * a)) <= pow2(52) * (q * b));
        assert(pow2(53) * (q * a) == pow2(52) * (q * (2 * a)));
    }
}

/// A common factor of both numbers leaves the nearest quotient alone.
pub proof fn lemma_div_nearest_scale(n: nat, d: nat, c: nat)
    requires
        d > 0,
        c > 0,
    ensures
        div_nearest(n * c, d * c) == div_nearest(n, d),
{
    let q = n / d;
    let r = n % d;
    lemma_fundamental_div_mod(n as int, d as int);
    lemma_mod_bound(n as int, d as int);
    assert(n * c == q * (d * c) + r * c && 0 <= r * c < d * c) by (nonlinear_arith)
        requires
            n == d * q + r,
            0 <= r < d,
            c > 0,
    ;
    lemma_fundamental_div_mod_converse((n * c) as int, (d * c) as int, q as int, (r * c) as int);
    assert((2 * r > d <==> 2 * (r * c) > d * c) && (2 * r == d <==> 2 * (r * c) == d * c)) by (nonlinear_arith)
        requires
            c > 0,
            r >= 0,
            d > 0,
    ;
}

/// A quotient of numbers is the nearest quotient of the same numbers measured from `BIAS`.
proof fn lemma_quotient53(p: nat, q: nat, n: nat, d: nat, c: nat, k: nat)
    requires
        p > 0,
        q > 0,
        c > 0,
        d > 0,
        n * c == p * pow2(BIAS as nat),
        d * c == q * pow2(k),
        pow2(52) * d <= n < pow2(53) * d,
    ensures
        quotient53(p, q) == normalized(div_nearest(n, d), k),
        pow2(52) <= div_nearest(n, d) <= pow2(53),
{
    lemma_pow2_127();
    let low = pow2(52);
    let high = pow2(53);
    assert(low * (d * c) <= n * c < high * (d * c)) by (nonlinear_arith)
        requires
            low * d <= n < high * d,
            c > 0,
    ;
    assert(in_window(p, q, k));
    let j = choose|j: nat| in_window(p, q, j);
    lemma_window_unique(p, q, j, k);
    lemma_div_nearest_scale(n, d, c);
    lemma_fundamental_div_mod(n as int, d as int);
    lemma_mod_bound(n as int, d as int);
    let whole = n / d;
    let rest = n % d;
    assert(low <= whole < high) by (nonlinear_arith)
        requires
            n == d * whole + rest,
            0 <= rest < d,
            low * d <= n < high * d,
            d > 0,
    ;
}

/// The binary64 value nearest to `p / q`.
pub fn nearest_quotient(p: u128, q: u128) -> (r: Double)
    requires
        p <= 0x1_0000_0000_0000_0000,
        0 < q <= 0x1_0000_0000_0000_0000,
    ensures
        r == quotient53(p as nat, q as nat),
        r.mant == 0 <==> p == 0,
        p > 0 ==> 0x10_0000_0000_0000 <= r.mant < 0x20_0000_0000_0000 && -117 <= r.exp <= 13,
{
    if p == 0 {
        return Double { mant: 0, exp: 0 };
    }
    let a: u32 = bit_length(p);
    let b: u32 = bit_length(q);
    proof {
        lemma_pow2_127();
        lemma_bits(p as nat);
        lemma_bits(q as nat);
        lemma_pow2_unfold(65);
        lemma_bits_monotone(p as nat, 0x1_0000_0000_0000_0000);
        lemma_bits_monotone(q as nat, 0x1_0000_0000_0000_0000);
        lemma_bits_unique(0x1_0000_0000_0000_0000, 65);
    }
    if a < b + 53 {
        let up: u32 = b + 53 - a;
        let factor: u128 = power_of_two(up);
        proof {
            lemma_quotient_bounds_up(p as nat, q as nat, a as nat, b as nat, up as nat);
            lemma_pow2_adds(53, 65);
            lemma_pow2_127();
            lemma_pow2_unfold(128);
        }
        let n: u128 = p * factor;
        proof {
            lemma_pow2_adds(up as nat, (128 - up) as nat);
            lemma_pow2_pos((128 - up) as nat);
            assert(n * pow2((128 - up) as nat) == p * pow2(128)) by (nonlinear_arith)
                requires
                    n == p * factor,
                    factor * pow2((128 - up) as nat) == pow2(128),
            ;
        }
        if n < 0x20_0000_0000_0000 * q {
            proof {
                lemma_quotient53(
                    p as nat,
                    q as nat,
                    n as nat,
                    q as nat,
                    pow2((128 - up) as nat),
                    (128 - up) as nat,
                );
            }
            let m: u128 = divide_nearest(n, q);
            if m == 0x20_0000_0000_0000 {
                Double { mant: 0x10_0000_0000_0000, exp: 1 - up as i32 }
            } else {
                Double { mant: m as u64, exp: 0 - up as i32 }
            }
        } else {
            proof {
                lemma_pow2_unfold((129 - up) as nat);
                lemma_pow2_pos((128 - up) as nat);
                let c = pow2((128 - up) as nat);
                assert((2 * q) * c == q * (2 * c)) by (nonlinear_arith);
                lemma_quotient53(p as nat, q as nat, n as nat, (2 * q) as nat, c, (129 - up) as nat);
            }
            let m: u128 = divide_nearest(n, 2 * q);
            if m == 0x20_0000_0000_0000 {
                Double { mant: 0x10_0000_0000_0000, exp: 2 - up as i32 }
            } else {
                Double { mant: m as u64, exp: 1 - up as i32 }
            }
        }
    } else {
        let down: u32 = a - 53 - b;
        let factor: u128 = power_of_two(down);
        proof {
            lemma_quotient_bounds_down(p as nat, q as nat, a as nat, b as nat, down as nat);
            lemma_pow2_strictly_increases(a as nat, 66);
            lemma_pow2_unfold(66);
            lemma_pow2_adds(128, down as nat);
            lemma_pow2_pos(128);
        }
        let d: u128 = q * factor;
        proof {
            assert(d * pow2(128) == q * pow2((128 + down) as nat)) by (nonlinear_arith)
                requires
                    d == q * factor,
                    pow2((128 + down) as nat) == pow2(128) * factor,
            ;
        }
        if p < 0x20_0000_0000_0000 * d {
            proof {
                lemma_quotient53(p as nat, q as nat, p as nat, d as nat, pow2(128), (128 + down) as nat);
            }
            let m: u128 = divide_nearest(p, d);
            if m == 0x20_0000_0000_0000 {
                Double { mant: 0x10_0000_0000_0000, exp: down as i32 + 1 }
            } else {
                Double { mant: m as u64, exp: down as i32 }
            }
        } else {
            proof {
                lemma_pow2_unfold((129 + down) as nat);
                assert((2 * d) * pow2(128) == q * pow2((129 + down) as nat)) by (nonlinear_arith)
                    requires
                        d * pow2(128) == q * pow2((128 + down) as nat),
                        pow2((129 + down) as nat) == 2 * pow2((128 + down) as nat),
                ;
                lemma_quotient53(p as nat, q as nat, p as nat, (2 * d) as nat, pow2(128), (129 + down) as nat);
            }
            let m: u128 = divide_nearest(p, 2 * d);
            if m == 0x20_0000_0000_0000 {
                Double { mant: 0x10_0000_0000_0000, exp: down as i32 + 2 }
            } else {
                Double { mant: m as u64, exp: down as i32 + 1 }
            }
        }
    }
}

/// Scaling up a short numerator leaves a quotient of 53 or 54 bits.
proof fn lemma_quotient_bounds_up(p: nat, q: nat, a: nat, b: nat, up: nat)
    requires
        0 < a <= 65,
        0 < b <= 65,
        pow2((a - 1) as nat) <= p < pow2(a),
        pow2((b - 1) as nat) <= q < pow2(b),
        up == b + 53 - a,
    ensures
        p * pow2(up) < pow2((b + 53) as nat),
        pow2(52) * q <= p * pow2(up) < pow2(53) * (2 * q),
        pow2((b + 53) as nat) <= pow2(118),
        up <= 117,
{
    lemma_pow2_127();
    lemma_pow2_adds(a, up);
    lemma_pow2_adds((a - 1) as nat, up);
    lemma_pow2_pos(up);
    lemma_pow2_unfold(b);
    lemma_pow2_adds(53, b);
    lemma_pow2_adds(52, b);
    if b < 65 {
        lemma_pow2_strictly_increases((b + 53) as nat, 118);
    }
    let f = pow2(up);
    assert(p * f < pow2(a) * f && p * f >= pow2((a - 1) as nat) * f) by (nonlinear_arith)
        requires
            pow2((a - 1) as nat) <= p < pow2(a),
            f > 0,
    ;
    assert(pow2(52) * q < pow2(52) * pow2(b)) by (nonlinear_arith)
        requires
            q < pow2(b),
            pow2(52) > 0,
    ;
    assert(pow2(53) * (2 * q) >= pow2(53) * pow2(b)) by (nonlinear_arith)
        requires
            2 * q >= pow2(b),
            pow2(53) > 0,
    ;
}

/// Scaling up a short denominator leaves a quotient of 53 or 54 bits.
proof fn lemma_quotient_bounds_down(p: nat, q: nat, a: nat, b: nat, down: nat)
    requires
        0 < a <= 65,
        0 < b <= 65,
        pow2((a - 1) as nat) <= p < pow2(a),
        pow2((b - 1) as nat) <= q < pow2(b),
        a == b + 53 + down,
    ensures
        pow2(52) * (q * pow2(down)) <= p < pow2(53) * (2 * (q * pow2(down))),
        q * pow2(down) > 0,
        2 * (pow2(53) * (q * pow2(down))) <= 2 * pow2(a),
        down <= 11,
{
    lemma_pow2_127();
    lemma_pow2_pos(down);
    lemma_pow2_pos((b - 1) as nat);
    lemma_pow2_unfold(b);
    lemma_pow2_adds(b, down);
    lemma_pow2_adds((b + down) as nat, 53);
    lemma_pow2_adds((b + down) as nat, 52);
    let f = pow2(down);
    let x = q * f;
    assert(x < pow2(b) * f && 2 * x >= pow2(b) * f && x > 0) by (nonlinear_arith)
        requires
            x == q * f,
            q < pow2(b),
            2 * q >= pow2(b),
            q > 0,
            f > 0,
    ;
}

/// The binary64 quotient of two integers that are binary64 values themselves, once rounded.
pub open spec fn ratio53(p: nat, q: nat) -> Double {
    quotient53(round53(p), round53(q))
}

/// The binary64 quotient of two integers.
pub fn ratio(p: u64, q: u64) -> (r: Double)
    requires
        q > 0,
    ensures
        r == ratio53(p as nat, q as nat),
        r.small(),
        r.normal(),
        r.mant == 0 <==> p == 0,
{
    let n: u128 = nearest53(p as u128);
    let d: u128 = nearest53(q as u128);
    proof {
        lemma_round53_u64(p);
        lemma_round53_u64(q);
    }
    nearest_quotient(n, d)
}

/// A number of at most 53 bits is its own nearest.
pub proof fn lemma_round53_short(n: nat)
    requires
        n < pow2(53),
    ensures
        round53(n) == n,
{
    lemma_bits(n);
    if bits(n) > 53 {
        if bits(n) > 54 {
            lemma_pow2_strictly_increases(53, (bits(n) - 1) as nat);
        }
    }
}

/// Rounding a 64-bit integer stays within 65 bits, and keeps it from becoming zero.
pub proof fn lemma_round53_u64(n: u64)
    ensures
        round53(n as nat) <= 0x1_0000_0000_0000_0000,
        round53(n as nat) == 0 <==> n == 0,
{
    lemma_pow2_127();
    lemma_round53_range(n as nat);
    lemma_bits_monotone(n as nat, 0xffff_ffff_ffff_ffff);
    lemma_bits_unique(0xffff_ffff_ffff_ffff, 64);
    if bits(n as nat) < 64 {
        lemma_pow2_strictly_increases(bits(n as nat), 64);
    }
    if n > 0 {
        lemma_pow2_pos((bits(n as nat) - 1) as nat);
    }
}

impl Double {
    /// The value comes from a quotient of 64-bit integers.
    pub open spec fn small(self) -> bool {
        self.mant < 0x20_0000_0000_0000 && -117 <= self.exp <= 13
    }

    /// The binary64 product of this value and the integer `n`, cut off behind the binary point.
    pub open spec fn spec_times_floor(self, n: nat) -> nat {
        let p = round53(self.mant as nat * n);
        if self.exp >= 0 {
            p * pow2(self.exp as nat)
        } else {
            p / pow2((-self.exp) as nat)
        }
    }

    /// The binary64 product of this value and the integer `n`, rounded to the nearest integer,
    /// up where two are equally near.
    pub open spec fn spec_times_round(self, n: nat) -> nat {
        let p = round53(self.mant as nat * n);
        if self.exp >= 0 {
            p * pow2(self.exp as nat)
        } else {
            let unit = pow2((-self.exp) as nat);
            (2 * p + unit) / (2 * unit)
        }
    }

    /// Whether this value is below `other`.
    pub open spec fn spec_below(self, other: Double) -> bool {
        self.mant * pow2((self.exp + BIAS) as nat) < other.mant * pow2((other.exp + BIAS) as nat)
    }

    fn product(self, n: u64) -> (p: u128)
        requires
            self.small(),
            n <= 0x4000_0000,
        ensures
            p == round53(self.mant as nat * n as nat),
            p <= 0x8_0000_0000_0000_0000_0000,
    {
        proof {
            assert(self.mant * n <= 0x7_ffff_ffff_ffff_ffff_ffff && self.mant * n >= 0) by (nonlinear_arith)
                requires
                    0 <= self.mant < 0x20_0000_0000_0000,
                    0 <= n <= 0x4000_0000,
            ;
            let x = (self.mant * n) as nat;
            lemma_pow2_127();
            vstd::arithmetic::power2::lemma2_to64();
            lemma_pow2_adds(64, 19);
            lemma_bits_monotone(x, 0x7_ffff_ffff_ffff_ffff_ffff);
            lemma_pow2_unfold(83);
            lemma_bits_unique(0x7_ffff_ffff_ffff_ffff_ffff, 83);
            lemma_round53_range(x);
            if bits(x) < 83 {
                lemma_pow2_strictly_increases(bits(x), 83);
            }
        }
        nearest53(self.mant as u128 * n as u128)
    }

    /// The binary64 product of this value and the integer `n`, cut off behind the binary point.
    pub fn times_floor(self, n: u64) -> (r: u128)
        requires
            self.small(),
            n <= 0x4000_0000,
        ensures
            r == self.spec_times_floor(n as nat),
    {
        let p: u128 = self.product(n);
        if self.exp >= 0 {
            let factor: u128 = power_of_two(self.exp as u32);
            proof {
                lemma_small_power(self.exp as nat);
                assert(p * factor <= 0x8_0000_0000_0000_0000_0000 * 0x2000) by (nonlinear_arith)
                    requires
                        0 <= p <= 0x8_0000_0000_0000_0000_0000,
                        0 < factor <= 0x2000,
                ;
            }
            p * factor
        } else {
            let unit: u128 = power_of_two((0 - self.exp) as u32);
            proof {
                lemma_pow2_pos((0 - self.exp) as nat);
            }
            p / unit
        }
    }

    /// The binary64 product of this value and the integer `n`, rounded to the nearest integer,
    /// up where two are equally near.
    pub fn times_round(self, n: u64) -> (r: u128)
        requires
            self.small(),
            n <= 0x4000_0000,
        ensures
            r == self.spec_times_round(n as nat),
    {
        let p: u128 = self.product(n);
        if self.exp >= 0 {
            let factor: u128 = power_of_two(self.exp as u32);
            proof {
                lemma_small_power(self.exp as nat);
                assert(p * factor <= 0x8_0000_0000_0000_0000_0000 * 0x2000) by (nonlinear_arith)
                    requires
                        0 <= p <= 0x8_0000_0000_0000_0000_0000,
                        0 < factor <= 0x2000,
                ;
            }
            p * factor
        } else {
            let unit: u128 = power_of_two((0 - self.exp) as u32);
            proof {
                lemma_pow2_pos((0 - self.exp) as nat);
                lemma_pow2_strictly_increases((0 - self.exp) as nat, 118);
                lemma_pow2_strictly_increases(118, 127);
                lemma_pow2_127();
                lemma_pow2_adds(118, 9);
                vstd::arithmetic::power2::lemma2_to64();
            }
            (2 * p + unit) / (2 * unit)
        }
    }

    /// Whether this value is below `other`.
    pub fn below(self, other: Double) -> (r: bool)
        requires
            self.normal(),
            other.normal(),
            -117 <= self.exp <= 13,
            -117 <= other.exp <= 13,
        ensures
            r == self.spec_below(other),
    {
        proof {
            lemma_below(self, other);
        }
        if other.mant == 0 {
            false
        } else if self.mant == 0 {
            true
        } else {
            self.exp < other.exp || (self.exp == other.exp && self.mant < other.mant)
        }
    }

    /// The mantissa is zero or exactly 53 bits long.
    pub open spec fn normal(self) -> bool {
        self.mant == 0 || 0x10_0000_0000_0000 <= self.mant < 0x20_0000_0000_0000
    }
}

proof fn lemma_small_power(e: nat)
    requires
        e <= 13,
    ensures
        0 < pow2(e) <= 0x2000,
{
    vstd::arithmetic::power2::lemma2_to64();
    lemma_pow2_pos(e);
    if e < 13 {
        lemma_pow2_strictly_increases(e, 13);
    }
}

/// Normalized values compare by exponent first.
proof fn lemma_below(x: Double, y: Double)
    requires
        x.normal(),
        y.normal(),
        -117 <= x.exp <= 13,
        -117 <= y.exp <= 13,
    ensures
        y.mant == 0 ==> !x.spec_below(y),
        y.mant > 0 && x.mant == 0 ==> x.spec_below(y),
        y.mant > 0 && x.mant > 0 ==> (x.spec_below(y) <==> x.exp < y.exp || (x.exp == y.exp && x.mant < y.mant)),
{
    let a = pow2((x.exp + BIAS) as nat);
    let b = pow2((y.exp + BIAS) as nat);
    lemma_pow2_pos((x.exp + BIAS) as nat);
    lemma_pow2_pos((y.exp + BIAS) as nat);
    if x.exp < y.exp {
        lemma_pow2_unfold((x.exp + 1 + BIAS) as nat);
        if x.exp + 1 < y.exp {
            lemma_pow2_strictly_increases((x.exp + 1 + BIAS) as nat, (y.exp + BIAS) as nat);
        }
    } else if y.exp < x.exp {
        lemma_pow2_unfold((y.exp + 1 + BIAS) as nat);
        if y.exp + 1 < x.exp {
            lemma_pow2_strictly_increases((y.exp + 1 + BIAS) as nat, (x.exp + BIAS) as nat);
        }
    }
    let m = x.mant as int;
    let n = y.mant as int;
    if n == 0 {
        assert(m * a >= 0 && n * b == 0) by (nonlinear_arith)
            requires
                m >= 0,
                n == 0,
                a > 0,
        ;
    } else if m == 0 {
        assert(m * a == 0 && n * b > 0) by (nonlinear_arith)
            requires
                m == 0,
                n > 0,
                b > 0,
        ;
    } else if x.exp < y.exp {
        assert(m * a < n * b) by (nonlinear_arith)
            requires
                0 < m < 0x20_0000_0000_0000,
                n >= 0x10_0000_0000_0000,
                b >= 2 * a,
                a > 0,
        ;
    } else if y.exp < x.exp {
        assert(m * a > n * b) by (nonlinear_arith)
            requires
                0 < n < 0x20_0000_0000_0000,
                m >= 0x10_0000_0000_0000,
                a >= 2 * b,
                b > 0,
        ;
    } else {
        assert(m * a < n * b <==> m < n) by (nonlinear_arith)
            requires
                a == b,
                a > 0,
        ;
    }
}

/// The quotient of a number and itself is one.
pub proof fn lemma_quotient_of_equals(n: nat)
    requires
        n > 0,
    ensures
        quotient53(n, n) == (Double { mant: 0x10_0000_0000_0000, exp: (-52) as i32 }),
{
    lemma_pow2_127();
    lemma_pow2_adds(52, 76);
    lemma_pow2_pos(76);
    let unit = pow2(76);
    assert(n * pow2(128) == pow2(52) * (n * unit) && n * unit > 0 && pow2(52) * (n * unit) < pow2(53) * (n * unit)) by (nonlinear_arith)
        requires
            pow2(128) == pow2(52) * unit,
            pow2(53) == 2 * pow2(52),
            pow2(52) > 0,
            unit > 0,
            n > 0,
    ;
    assert(in_window(n, n, 76));
    let k = choose|k: nat| in_window(n, n, k);
    lemma_window_unique(n, n, k, 76);
    lemma_fundamental_div_mod_converse((n * pow2(128)) as int, (n * unit) as int, pow2(52) as int, 0);
}

/// A quotient of at most one has a unit in which it is 53 bits long.
proof fn lemma_window_exists(p: nat, q: nat) -> (k: nat)
    requires
        0 < p <= q,
        bits(q) <= 65,
    ensures
        in_window(p, q, k),
{
    let a = bits(p);
    let b = bits(q);
    lemma_bits(p);
    lemma_bits(q);
    lemma_bits_monotone(p, q);
    let up = (b + 53 - a) as nat;
    lemma_quotient_bounds_up(p, q, a, b, up);
    lemma_pow2_127();
    let f = pow2(up);
    let g = pow2((128 - up) as nat);
    lemma_pow2_adds(up, (128 - up) as nat);
    lemma_pow2_pos((128 - up) as nat);
    lemma_pow2_unfold((129 - up) as nat);
    let x = p * f;
    assert(p * pow2(128) == x * g) by (nonlinear_arith)
        requires
            pow2(128) == f * g,
            x == p * f,
    ;
    if x < pow2(53) * q {
        assert(pow2(52) * (q * g) <= x * g < pow2(53) * (q * g)) by (nonlinear_arith)
            requires
                pow2(52) * q <= x < pow2(53) * q,
                g > 0,
        ;
        (128 - up) as nat
    } else {
        assert(pow2(52) * (q * (2 * g)) <= x * g < pow2(53) * (q * (2 * g))) by (nonlinear_arith)
            requires
                pow2(53) * q <= x < pow2(53) * (2 * q),
                pow2(53) == 2 * pow2(52),
                g > 0,
        ;
        (129 - up) as nat
    }
}

/// The quotient of a number by one that is no less is at most one, and below one where the numbers
/// differ and are short enough.
pub proof fn lemma_quotient_to_one(p: nat, q: nat)
    requires
        p <= q,
        0 < q <= pow2(64),
    ensures
        ({
            let one = Double { mant: 0x10_0000_0000_0000, exp: (-52) as i32 };
            &&& !one.spec_below(quotient53(p, q))
            &&& p < q < pow2(53) ==> quotient53(p, q).spec_below(one)
        }),
{
    lemma_pow2_127();
    let one = Double { mant: 0x10_0000_0000_0000, exp: (-52) as i32 };
    lemma_pow2_adds(52, 76);
    lemma_pow2_adds(53, 75);
    lemma_pow2_pos(76);
    assert(one.mant * pow2(76) == pow2(128));
    if p == 0 {
        assert(0 * pow2(128) == 0);
    } else if p == q {
        lemma_quotient_of_equals(q);
    } else {
        lemma_bits_monotone(q, pow2(64));
        lemma_pow2_unfold(65);
        lemma_bits_unique(pow2(64), 65);
        let j = lemma_window_exists(p, q);
        let k = choose|k: nat| in_window(p, q, k);
        lemma_window_unique(p, q, j, k);
        lemma_pow2_pos(k);
        if k >= 76 {
            if k > 76 {
                lemma_pow2_strictly_increases(76, k);
            }
            assert(pow2(52) * (q * pow2(k)) > p * pow2(128)) by (nonlinear_arith)
                requires
                    pow2(52) * pow2(76) == pow2(128),
                    pow2(k) >= pow2(76),
                    0 < p < q,
                    pow2(52) > 0,
                    pow2(76) > 0,
            {
                assert(q * pow2(k) >= q * pow2(76));
                assert(q * pow2(76) > p * pow2(76));
                assert(pow2(52) * (q * pow2(k)) > pow2(52) * (p * pow2(76)));
                assert(pow2(52) * (p * pow2(76)) == p * (pow2(52) * pow2(76)));
            }
        }
        let n = p * pow2(128);
        let d = q * pow2(k);
        let m = div_nearest(n, d);
        assert(d > 0) by (nonlinear_arith)
            requires
                d == q * pow2(k),
                q > 0,
                pow2(k) > 0,
        ;
        lemma_quotient53(p, q, n, d, 1, k);
        assert(n * 1 == n && d * 1 == d);
        if k < 75 {
            lemma_pow2_strictly_increases(k, 75);
            lemma_pow2_unfold(75);
            lemma_pow2_unfold((k + 1) as nat);
        } else if q < pow2(53) {
            lemma_below_unit(p, q);
        }
        lemma_pow2_unfold((k + 1) as nat);
        assert(m * pow2(k) <= pow2(53) * pow2(75)) by (nonlinear_arith)
            requires
                m <= pow2(53),
                pow2(k) <= pow2(75),
        ;
        assert(m < pow2(53) || k < 75 ==> m * pow2(k) < pow2(53) * pow2(75)) by (nonlinear_arith)
            requires
                m <= pow2(53),
                0 < pow2(k) <= pow2(75),
                k < 75 ==> pow2(k) < pow2(75),
                pow2(53) > 0,
        ;
        let r = quotient53(p, q);
        assert(r.mant * pow2((r.exp + BIAS) as nat) == m * pow2(k)) by {
            if m == pow2(53) {
                assert(pow2(52) * (2 * pow2(k)) == pow2(53) * pow2(k)) by (nonlinear_arith)
                    requires
                        pow2(53) == 2 * pow2(52),
                ;
            }
        }
    }
}

/// The largest quotient below one of short numbers does not round up to one.
proof fn lemma_below_unit(p: nat, q: nat)
    requires
        0 < p < q < pow2(53),
    ensures
        div_nearest(p * pow2(128), q * pow2(75)) < pow2(53),
{
    lemma_pow2_127();
    lemma_pow2_adds(53, 75);
    lemma_pow2_pos(75);
    let n = p * pow2(53);
    assert(p * pow2(128) == n * pow2(75)) by (nonlinear_arith)
        requires
            pow2(128) == pow2(53) * pow2(75),
            n == p * pow2(53),
    ;
    lemma_div_nearest_scale(n, q, pow2(75));
    lemma_fundamental_div_mod(n as int, q as int);
    lemma_mod_bound(n as int, q as int);
    let whole = n / q;
    let rest = n % q;
    assert(n < (pow2(53) - 1) * q) by (nonlinear_arith)
        requires
            n == p * pow2(53),
            p <= q - 1,
            q < pow2(53),
    ;
    assert(whole < pow2(53) - 1) by (nonlinear_arith)
        requires
            n == q * whole + rest,
            0 <= rest < q,
            n < (pow2(53) - 1) * q,
    ;
}

/// The binary64 quotient of two short numbers, the first no greater, is within half a unit in the last
/// place of their quotient.
pub proof fn lemma_ratio_near(p: nat, q: nat)
    requires
        0 < p <= q < pow2(53),
    ensures
        ({
            let x = ratio53(p, q);
            let d = pow2((-x.exp) as nat);
            &&& -128 <= x.exp <= -52
            &&& pow2(52) <= x.mant < pow2(53)
            &&& (pow2(53) - 1) * (x.mant * q) <= pow2(53) * (p * d) <= (pow2(53) + 1) * (x.mant * q)
        }),
{
    lemma_pow2_127();
    lemma_round53_short(p);
    lemma_round53_short(q);
    lemma_pow2_strictly_increases(53, 64);
    lemma_bits_monotone(q, pow2(64));
    lemma_pow2_unfold(65);
    lemma_bits_unique(pow2(64), 65);
    let j = lemma_window_exists(p, q);
    let k = choose|k: nat| in_window(p, q, k);
    lemma_window_unique(p, q, j, k);
    lemma_pow2_pos(k);
    lemma_pow2_adds(52, 76);
    lemma_pow2_pos(76);
    if k > 76 {
        lemma_pow2_strictly_increases(76, k);
        assert(pow2(52) * (q * pow2(k)) > p * pow2(128)) by (nonlinear_arith)
            requires
                pow2(52) * pow2(76) == pow2(128),
                pow2(k) > pow2(76),
                0 < p <= q,
                pow2(52) > 0,
                pow2(76) > 0,
        {
            assert(q * pow2(k) > q * pow2(76));
            assert(q * pow2(76) >= p * pow2(76));
            assert(pow2(52) * (q * pow2(k)) > pow2(52) * (p * pow2(76)));
            assert(pow2(52) * (p * pow2(76)) == p * (pow2(52) * pow2(76)));
        }
    }
    let n = p * pow2(128);
    let e = q * pow2(k);
    let m = div_nearest(n, e);
    assert(e > 0) by (nonlinear_arith)
        requires
            e == q * pow2(k),
            q > 0,
            pow2(k) > 0,
    ;
    assert(n * 1 == n && e * 1 == e);
    lemma_quotient53(p, q, n, e, 1, k);
    let x = ratio53(p, q);
    if k == 76 {
        if m == pow2(53) {
            lemma_quotient_to_one(p, q);
            lemma_pow2_unfold(77);
            assert(false) by {
                assert(x.mant == pow2(52) && x.exp == -51);
                let one = Double { mant: 0x10_0000_0000_0000, exp: (-52) as i32 };
                assert(one.spec_below(x)) by (nonlinear_arith)
                    requires
                        one.mant * pow2(76) == pow2(52) * pow2(76),
                        x.mant * pow2(77) == pow2(52) * (2 * pow2(76)),
                        one.spec_below(x) == (one.mant * pow2(76) < x.mant * pow2(77)),
                        pow2(52) > 0,
                        pow2(76) > 0,
                ;
            }
        }
    }
    // The nearest quotient is off by half a divisor at most.
    lemma_fundamental_div_mod(n as int, e as int);
    lemma_mod_bound(n as int, e as int);
    let whole = n / e;
    let rest = n % e;
    assert(2 * (m * e) <= 2 * n + e && 2 * n <= 2 * (m * e) + e) by (nonlinear_arith)
        requires
            n == e * whole + rest,
            0 <= rest < e,
            m == whole && 2 * rest <= e || m == whole + 1 && 2 * rest >= e,
    ;
    let u = pow2(53) as int;
    assert((u - 1) * (m * e) <= u * n <= (u + 1) * (m * e)) by (nonlinear_arith)
        requires
            2 * (m * e) <= 2 * n + e,
            2 * n <= 2 * (m * e) + e,
            2 * m >= u,
            u > 0,
            e > 0,
            m >= 0,
    {
        assert((2 * m) * e >= u * e);
        assert(u * (2 * (m * e)) <= u * (2 * n + e));
        assert(u * (2 * n) <= u * (2 * (m * e) + e));
    }
    let g = pow2((x.exp + 128) as nat);
    let d = pow2((-x.exp) as nat);
    lemma_pow2_adds((x.exp + 128) as nat, (-x.exp) as nat);
    lemma_pow2_pos((x.exp + 128) as nat);
    lemma_pow2_unfold((k + 1) as nat);
    assert(x.mant * g == m * pow2(k)) by {
        if m == pow2(53) {
            assert(pow2(52) * (2 * pow2(k)) == pow2(53) * pow2(k)) by (nonlinear_arith)
                requires
                    pow2(53) == 2 * pow2(52),
            ;
        }
    }
    let s = (x.mant * q) as int;
    let t = (p * d) as int;
    assert(m * e == s * g) by (nonlinear_arith)
        requires
            e == q * pow2(k),
            x.mant * g == m * pow2(k),
            s == x.mant * q,
    ;
    assert(n == t * g) by (nonlinear_arith)
        requires
            n == p * pow2(128),
            pow2(128) == g * d,
            t == p * d,
    ;
    assert((u - 1) * s <= u * t <= (u + 1) * s) by (nonlinear_arith)
        requires
            (u - 1) * (m * e) <= u * n <= (u + 1) * (m * e),
            m * e == s * g,
            n == t * g,
            g > 0,
    {
        assert((u - 1) * (s * g) == ((u - 1) * s) * g);
        assert(u * (t * g) == (u * t) * g);
        assert((u + 1) * (s * g) == ((u + 1) * s) * g);
    }
}

/// The product of a quotient of short numbers and a number of up to a billion, rounded once and cut
/// off, is less than one off below and less than one off above by rounding alone.
pub proof fn lemma_share_times(p: nat, q: nat, n: nat, r: nat)
    requires
        0 < p <= q < pow2(53),
        0 < n <= 1_000_000_000,
        r == round53(ratio53(p, q).mant as nat * n),
    ensures
        ({
            let d = pow2((-ratio53(p, q).exp) as nat);
            &&& d > 0
            &&& (pow2(53) - 1) * (r * q) <= (pow2(53) + 1) * (n * p * d)
            &&& (pow2(53) - 1) * (n * p * d) <= (pow2(53) + 1) * (r * q)
        }),
{
    lemma_pow2_127();
    lemma_ratio_near(p, q);
    let x = ratio53(p, q);
    let d = pow2((-x.exp) as nat);
    lemma_pow2_pos((-x.exp) as nat);
    let a = x.mant as nat;
    lemma_round53_error(a * n);
    let u = pow2(53) as int;
    let s = (a * q) as int;
    let t = (p * d) as int;
    let y = (a * n) as int;
    // Both errors together: (u - 1) r q <= (u + 1) n p d, and the other way round.
    assert((u - 1) * (r * q) <= (u + 1) * (n * t)) by (nonlinear_arith)
        requires
            u * r <= (u + 1) * y,
            (u - 1) * s <= u * t,
            y == a * n,
            s == a * q,
            u > 1,
            q >= 0,
            n >= 0,
    {
        assert((u * r) * q <= ((u + 1) * y) * q);
        assert(((u + 1) * y) * q == ((u + 1) * n) * s);
        assert(((u + 1) * n) * ((u - 1) * s) <= ((u + 1) * n) * (u * t));
        assert((u - 1) * ((u * r) * q) <= (u - 1) * (((u + 1) * n) * s));
        assert((u - 1) * (((u + 1) * n) * s) == ((u + 1) * n) * ((u - 1) * s));
        assert((u - 1) * ((u * r) * q) == u * ((u - 1) * (r * q)));
        assert(((u + 1) * n) * (u * t) == u * ((u + 1) * (n * t)));
        assert(u * ((u - 1) * (r * q)) <= u * ((u + 1) * (n * t)));
    }
    assert((u - 1) * (n * t) <= (u + 1) * (r * q)) by (nonlinear_arith)
        requires
            (u - 1) * y <= u * r,
            u * t <= (u + 1) * s,
            y == a * n,
            s == a * q,
            u > 1,
            q >= 0,
            n >= 0,
    {
        assert(((u - 1) * y) * q <= (u * r) * q);
        assert(((u - 1) * y) * q == ((u - 1) * n) * s);
        assert(((u - 1) * n) * (u * t) <= ((u - 1) * n) * ((u + 1) * s));
        assert((u + 1) * (((u - 1) * n) * s) <= (u + 1) * ((u * r) * q));
        assert(((u - 1) * n) * ((u + 1) * s) == (u + 1) * (((u - 1) * n) * s));
        assert(((u - 1) * n) * (u * t) == u * ((u - 1) * (n * t)));
        assert((u + 1) * ((u * r) * q) == u * ((u + 1) * (r * q)));
        assert(u * ((u - 1) * (n * t)) <= u * ((u + 1) * (r * q)));
    }
    assert(n * p * d == n * t) by (nonlinear_arith)
        requires
            t == p * d,
    ;
}

/// A share in billionths, cut off: no more than a billionth above it, and less than two below.
pub proof fn lemma_billionths(p: nat, q: nat)
    requires
        p <= q,
        0 < q < pow2(53),
    ensures
        ({
            let k = ratio53(p, q).spec_times_floor(1_000_000_000);
            &&& k * q < 1_000_000_000 * p + q
            &&& 1_000_000_000 * p < (k + 2) * q
            &&& k <= 1_000_000_000
        }),
{
    lemma_pow2_127();
    let n = 1_000_000_000nat;
    let x = ratio53(p, q);
    if p == 0 {
        lemma_round53_short(q);
        assert(round53(0) == 0);
        assert(x.mant as nat * n == 0);
        assert(0 * pow2(0) == 0);
        assert(x.spec_times_floor(n) == 0);
        assert(0 * q == 0 && 2 * q > 0);
    } else {
        lemma_ratio_near(p, q);
        let r = round53(x.mant as nat * n);
        lemma_share_times(p, q, n, r);
        let d = pow2((-x.exp) as nat);
        let k = r / d;
        assert(x.spec_times_floor(n) == k);
        lemma_fundamental_div_mod(r as int, d as int);
        lemma_mod_bound(r as int, d as int);
        let u = pow2(53) as int;
        let np = (n * p) as int;
        assert((u - 1) * (k * q) <= (u + 1) * np) by (nonlinear_arith)
            requires
                (u - 1) * (r * q) <= (u + 1) * (np * d),
                r >= d * k,
                u > 1,
                d > 0,
                q > 0,
        {
            assert(r * q >= (d * k) * q);
            assert((u - 1) * (r * q) >= (u - 1) * ((d * k) * q));
            assert((u - 1) * ((d * k) * q) == d * ((u - 1) * (k * q)));
            assert((u + 1) * (np * d) == d * ((u + 1) * np));
            assert(d * ((u - 1) * (k * q)) <= d * ((u + 1) * np));
        }
        assert((u - 1) * np < (u + 1) * ((k + 1) * q)) by (nonlinear_arith)
            requires
                (u - 1) * (np * d) <= (u + 1) * (r * q),
                r < d * k + d,
                u > 1,
                d > 0,
                q > 0,
        {
            assert(r * q < (d * k + d) * q);
            assert((u + 1) * (r * q) < (u + 1) * ((d * k + d) * q));
            assert((u + 1) * ((d * k + d) * q) == d * ((u + 1) * ((k + 1) * q)));
            assert((u - 1) * (np * d) == d * ((u - 1) * np));
            assert(d * ((u - 1) * np) < d * ((u + 1) * ((k + 1) * q)));
        }
        let kq = (k * q) as int;
        assert((k + 1) * q == kq + q && (k + 2) * q == kq + 2 * q) by (nonlinear_arith)
            requires
                kq == k * q,
        ;
        assert(np <= 1_000_000_000 * q);
        assert(kq < np + q);
        assert(np < kq + 2 * q);
        if k > 1_000_000_000 {
            assert(kq >= 1_000_000_001 * q) by (nonlinear_arith)
                requires
                    kq == k * q,
                    k >= 1_000_000_001,
                    q > 0,
            ;
        }
    }
}

/// The root that is computed of a number below `2^106` is at most one off its integer root.
pub proof fn lemma_sqrt53_near(v: nat)
    requires
        isqrt(v) < pow2(53),
    ensures
        isqrt(v) <= sqrt53(v) <= isqrt(v) + 1,
{
    lemma_pow2_127();
    let root = isqrt(v);
    lemma_isqrt(v);
    let k = bits(root);
    lemma_bits(root);
    if k > 53 {
        if k > 54 {
            lemma_pow2_strictly_increases(53, (k - 1) as nat);
        }
    }
    let scale = pow2((PRECISION - k) as nat);
    lemma_pow2_pos((PRECISION - k) as nat);
    let w = v * scale * scale;
    let t = isqrt(w);
    lemma_isqrt(w);
    assert(t >= root * scale) by {
        if t < root * scale {
            assert((t + 1) * (t + 1) <= w) by (nonlinear_arith)
                requires
                    t + 1 <= root * scale,
                    root * root <= v,
                    w == v * scale * scale,
                    scale > 0,
                    t >= 0,
            {
                assert((t + 1) * (t + 1) <= (root * scale) * (root * scale));
                assert((root * scale) * (root * scale) == (root * root) * (scale * scale));
                assert((root * root) * (scale * scale) <= v * (scale * scale));
                assert(v * (scale * scale) == w);
            }
        }
    }
    assert(t < (root + 1) * scale) by {
        if t >= (root + 1) * scale {
            assert(t * t > w) by (nonlinear_arith)
                requires
                    t >= (root + 1) * scale,
                    (root + 1) * (root + 1) > v,
                    w == v * scale * scale,
                    scale > 0,
                    root >= 0,
            {
                assert(t * t >= ((root + 1) * scale) * ((root + 1) * scale));
                assert(((root + 1) * scale) * ((root + 1) * scale) == ((root + 1) * (root + 1)) * (scale * scale));
                assert(scale * scale > 0);
                assert(((root + 1) * (root + 1)) * (scale * scale) > v * (scale * scale));
                assert(v * (scale * scale) == w);
            }
        }
    }
    lemma_fundamental_div_mod_converse((root * scale) as int, scale as int, root as int, 0);
    lemma_fundamental_div_mod_converse(((root + 1) * scale) as int, scale as int, (root + 1) as int, 0);
    vstd::arithmetic::div_mod::lemma_div_is_ordered((root * scale) as int, t as int, scale as int);
    vstd::arithmetic::div_mod::lemma_div_is_ordered((root * scale) as int, (t + 1) as int, scale as int);
    vstd::arithmetic::div_mod::lemma_div_is_ordered(t as int, ((root + 1) * scale) as int, scale as int);
    vstd::arithmetic::div_mod::lemma_div_is_ordered((t + 1) as int, ((root + 1) * scale) as int, scale as int);
}

/// The root of the binary64 value nearest to a number below `2^104` is less than two off its root.
pub proof fn lemma_rounded_root_near(v: nat)
    requires
        v < pow2(104),
    ensures
        ({
            let r = sqrt53(round53(v)) as int;
            v < (r + 2) * (r + 2) && (r >= 2 ==> (r - 2) * (r - 2) <= v)
        }),
{
    lemma_pow2_127();
    lemma_pow2_adds(52, 52);
    let w = round53(v);
    lemma_round53_monotone(v, pow2(104));
    lemma_round53_power(104);
    lemma_round53_error(v);
    lemma_isqrt(w);
    let i = isqrt(w) as int;
    if i >= pow2(53) {
        assert(i * i > pow2(104)) by (nonlinear_arith)
            requires
                i >= pow2(53),
                pow2(53) == 2 * pow2(52),
                pow2(104) == pow2(52) * pow2(52),
                pow2(52) > 0,
        ;
    }
    lemma_sqrt53_near(w);
    let r = sqrt53(w) as int;
    let u = pow2(53) as int;
    assert(i <= pow2(52)) by {
        if i > pow2(52) {
            assert(i * i > pow2(52) * pow2(52)) by (nonlinear_arith)
                requires
                    i > pow2(52),
                    pow2(52) > 0,
            ;
        }
    }
    if v < pow2(53) {
        lemma_round53_short(v);
        assert((r + 2) * (r + 2) > (i + 1) * (i + 1)) by (nonlinear_arith)
            requires
                r >= i >= 0,
        ;
        if r >= 2 {
            assert((r - 2) * (r - 2) <= i * i) by (nonlinear_arith)
                requires
                    2 <= r <= i + 1,
            ;
        }
    } else {
        assert(w <= (i + 1) * (i + 1) - 1);
        assert(v <= w + w / 0x10_0000_0000_0000 + 1) by {
            // (u - 1) v <= u w
            assert(v * (u - 1) <= u * w) by (nonlinear_arith)
                requires
                    (u - 1) * v <= u * w,
            ;
        }
        assert((i + 1) * (i + 1) == i * i + 2 * i + 1) by (nonlinear_arith);
        assert((r + 2) * (r + 2) >= (i + 2) * (i + 2)) by (nonlinear_arith)
            requires
                r >= i >= 0,
        ;
        assert((i + 2) * (i + 2) == i * i + 4 * i + 4) by (nonlinear_arith);
        assert(w / 0x10_0000_0000_0000 <= i + 2) by {
            assert((i + 1) * (i + 1) <= 0x10_0000_0000_0000 * (i + 2) + 1) by (nonlinear_arith)
                requires
                    0 <= i <= 0x10_0000_0000_0000,
            {
                assert(i * i <= 0x10_0000_0000_0000 * i);
                assert((i + 1) * (i + 1) == i * i + 2 * i + 1);
            }
        }
        assert(i >= 0x400_0000) by {
            if i < 0x400_0000 {
                assert((i + 1) * (i + 1) <= 0x400_0000 * 0x400_0000) by (nonlinear_arith)
                    requires
                        0 <= i < 0x400_0000,
                ;
            }
        }
        assert((r - 2) * (r - 2) <= (i - 1) * (i - 1)) by (nonlinear_arith)
            requires
                2 <= r <= i + 1,
                i >= 2,
        ;
        assert((i - 1) * (i - 1) == i * i - 2 * i + 1) by (nonlinear_arith);
        assert(w <= v + v / 0x10_0000_0000_0000 + 1) by {
            assert(u * w <= v * (u + 1)) by (nonlinear_arith)
                requires
                    u * w <= (u + 1) * v,
            ;
        }
        assert(v / 0x10_0000_0000_0000 <= i + 4);
    }
}

/// The root of nothing is nothing.
pub proof fn lemma_sqrt53_zero()
    ensures
        sqrt53(0) == 0,
{
    lemma_pow2_127();
    let scale = pow2(53);
    assert(isqrt(0) == 0);
    assert(bits(0) == 0);
    assert(0 * scale * scale == 0);
    vstd::arithmetic::div_mod::lemma_fundamental_div_mod_converse(0, scale as int, 0, 0);
    vstd::arithmetic::div_mod::lemma_fundamental_div_mod_converse(1, scale as int, 0, 1);
}

/// A share compares with a fraction `a / b` as the whole numbers do, where the binary64 value nearest to
/// the fraction is `f * 2^-53` and there are fewer than `2^40` in all.
pub proof fn lemma_share_below(p: nat, q: nat, a: nat, b: nat, f: u64)
    requires
        p <= q,
        0 < q < 0x100_0000_0000,
        a < b <= 2 * a,
        b <= 100,
        f == div_nearest(a * pow2(53), b),
        a * pow2(53) - 8 <= b * f <= a * pow2(53) + 8,
    ensures
        ratio53(p, q).spec_below(Double { mant: f, exp: (-53) as i32 }) <==> b * p < a * q,
{
    lemma_pow2_127();
    lemma_pow2_adds(53, 75);
    lemma_pow2_pos(75);
    let u = pow2(53) as int;
    let limit = Double { mant: f, exp: (-53) as i32 };
    let x = ratio53(p, q);
    if p == 0 {
        lemma_round53_short(q);
        assert(round53(0) == 0);
        assert(0 * pow2(128) == 0);
        assert(f > 0);
        assert(f * pow2(75) > 0) by (nonlinear_arith)
            requires
                f > 0,
                pow2(75) > 0,
        ;
        assert(a * q > 0) by (nonlinear_arith)
            requires
                a > 0,
                q > 0,
        ;
        assert(b * 0 == 0);
    } else if b * p == a * q {
        lemma_round53_short(p);
        lemma_round53_short(q);
        let n = p * pow2(128);
        let e = q * pow2(75);
        assert(n * b == (a * pow2(53)) * e) by (nonlinear_arith)
            requires
                b * p == a * q,
                n == p * pow2(128),
                e == q * pow2(75),
                pow2(128) == pow2(53) * pow2(75),
        ;
        assert(e > 0) by (nonlinear_arith)
            requires
                e == q * pow2(75),
                q > 0,
                pow2(75) > 0,
        ;
        assert(pow2(52) * e <= n && n < pow2(53) * e) by (nonlinear_arith)
            requires
                n * b == (a * pow2(53)) * e,
                a < b <= 2 * a,
                pow2(53) == 2 * pow2(52),
                pow2(52) > 0,
                e > 0,
                b > 0,
        {
            assert((a * pow2(53)) * e < (b * pow2(53)) * e) by {
                assert(a * pow2(53) < b * pow2(53));
            }
            assert((2 * a) * (pow2(52) * e) >= b * (pow2(52) * e));
            assert((a * pow2(53)) * e == (2 * a) * (pow2(52) * e));
            assert((b * pow2(53)) * e == (pow2(53) * e) * b);
        }
        assert(n * 1 == n && e * 1 == e);
        lemma_quotient53(p, q, n, e, 1, 75);
        lemma_div_nearest_scale(n, e, b);
        lemma_div_nearest_scale(a * pow2(53), b, e);
        assert(e * b == b * e) by (nonlinear_arith);
        assert(div_nearest(n, e) == f);
        if f == pow2(53) {
            assert(b * f >= (a + 1) * pow2(53)) by (nonlinear_arith)
                requires
                    f == pow2(53),
                    b >= a + 1,
            ;
            assert((a + 1) * pow2(53) == a * pow2(53) + pow2(53)) by (nonlinear_arith);
        }
        assert(x.mant == f && x.exp == -53);
    } else {
        lemma_pow2_strictly_increases(40, 53);
        vstd::arithmetic::power2::lemma2_to64_rest();
        lemma_ratio_near(p, q);
        let d = pow2((-x.exp) as nat) as int;
        let g = pow2((x.exp + 128) as nat) as int;
        lemma_pow2_pos((-x.exp) as nat);
        lemma_pow2_pos((x.exp + 128) as nat);
        lemma_pow2_adds((x.exp + 128) as nat, (-x.exp) as nat);
        let m = x.mant as int;
        let k = (f * pow2(75)) as int;
        // Both sides of the comparison, times `d`.
        assert((m * g < k) <==> (m * u < f * d)) by (nonlinear_arith)
            requires
                g * d == u * pow2(75),
                k == f * pow2(75),
                d > 0,
                pow2(75) > 0,
        {
            assert((m * g) * d == (m * u) * pow2(75));
            assert(k * d == (f * d) * pow2(75));
            assert((m * g < k) <==> ((m * g) * d < k * d));
            assert((m * u < f * d) <==> ((m * u) * pow2(75) < (f * d) * pow2(75)));
        }
        if b * p < a * q {
            lemma_share_below_case(p as int, q as int, a as int, b as int, f as int, m, d, u);
        } else {
            lemma_share_above_case(p as int, q as int, a as int, b as int, f as int, m, d, u);
        }
    }
}

proof fn lemma_share_below_case(p: int, q: int, a: int, b: int, f: int, m: int, d: int, u: int)
    requires
        b * p <= a * q - 1,
        0 < q < 0x100_0000_0000,
        0 < a < b <= 100,
        a * u - 8 <= b * f,
        (u - 1) * (m * q) <= u * (p * d),
        d > 0,
        u == 0x20_0000_0000_0000,
    ensures
        m * u < f * d,
{
    let s = b * p;
    let t = a * q;
    // b (u - 1) m q <= u d (a q - 1)
    assert(b * ((u - 1) * (m * q)) <= u * (s * d)) by (nonlinear_arith)
        requires
            (u - 1) * (m * q) <= u * (p * d),
            s == b * p,
            b > 0,
    ;
    assert(u * (s * d) <= u * ((t - 1) * d)) by (nonlinear_arith)
        requires
            s <= t - 1,
            d > 0,
            u > 0,
    ;
    if m * u >= f * d {
        let z = (u - 1) * q;
        assert(z > 0) by (nonlinear_arith)
            requires
                z == (u - 1) * q,
                u > 1,
                q > 0,
        ;
        assert((b * f) * (z * d) <= u * (b * ((u - 1) * (m * q)))) by (nonlinear_arith)
            requires
                m * u >= f * d,
                z == (u - 1) * q,
                z > 0,
                b > 0,
        {
            assert((b * z) * (f * d) <= (b * z) * (m * u));
            assert((b * z) * (f * d) == (b * f) * (z * d));
            assert((b * z) * (m * u) == u * (b * ((u - 1) * (m * q))));
        }
        assert((a * u - 8) * (z * d) <= (b * f) * (z * d)) by (nonlinear_arith)
            requires
                a * u - 8 <= b * f,
                z > 0,
                d > 0,
        ;
        assert((a * u - 8) * (z * d) <= u * (u * ((t - 1) * d))) by (nonlinear_arith)
            requires
                (a * u - 8) * (z * d) <= (b * f) * (z * d),
                (b * f) * (z * d) <= u * (b * ((u - 1) * (m * q))),
                b * ((u - 1) * (m * q)) <= u * (s * d),
                u * (s * d) <= u * ((t - 1) * d),
                u > 0,
        ;
        assert((a * u - 8) * z <= u * (u * (t - 1))) by (nonlinear_arith)
            requires
                (a * u - 8) * (z * d) <= u * (u * ((t - 1) * d)),
                d > 0,
        {
            assert((a * u - 8) * (z * d) == ((a * u - 8) * z) * d);
            assert(u * (u * ((t - 1) * d)) == (u * (u * (t - 1))) * d);
        }
        assert((a * u - 8) * z == a * q * u * u - a * q * u - 8 * q * u + 8 * q) by (nonlinear_arith)
            requires
                z == (u - 1) * q,
        ;
        assert(u * (u * (t - 1)) == a * q * u * u - u * u) by (nonlinear_arith)
            requires
                t == a * q,
        ;
        assert(t <= 100 * q) by (nonlinear_arith)
            requires
                t == a * q,
                a <= 100,
                q > 0,
        ;
        assert(a * q * u == t * u) by (nonlinear_arith)
            requires
                t == a * q,
        ;
        assert(t * u + 8 * q * u < u * u) by (nonlinear_arith)
            requires
                t <= 100 * q,
                q < 0x100_0000_0000,
                q > 0,
                u == 0x20_0000_0000_0000,
        ;
    }
}

proof fn lemma_share_above_case(p: int, q: int, a: int, b: int, f: int, m: int, d: int, u: int)
    requires
        b * p >= a * q + 1,
        0 < q < 0x100_0000_0000,
        0 < a < b <= 100,
        b * f <= a * u + 8,
        u * (p * d) <= (u + 1) * (m * q),
        d > 0,
        u == 0x20_0000_0000_0000,
    ensures
        m * u >= f * d,
{
    let s = b * p;
    let t = a * q;
    assert(u * (s * d) <= b * ((u + 1) * (m * q))) by (nonlinear_arith)
        requires
            u * (p * d) <= (u + 1) * (m * q),
            s == b * p,
            b > 0,
    ;
    assert(u * ((t + 1) * d) <= u * (s * d)) by (nonlinear_arith)
        requires
            t + 1 <= s,
            d > 0,
            u > 0,
    ;
    if m * u < f * d {
        let z = (u + 1) * q;
        assert(z > 0) by (nonlinear_arith)
            requires
                z == (u + 1) * q,
                u > 1,
                q > 0,
        ;
        assert(u * (b * ((u + 1) * (m * q))) <= (b * f) * (z * d)) by (nonlinear_arith)
            requires
                m * u < f * d,
                z == (u + 1) * q,
                z > 0,
                b > 0,
        {
            assert((b * z) * (m * u) <= (b * z) * (f * d));
            assert((b * z) * (f * d) == (b * f) * (z * d));
            assert((b * z) * (m * u) == u * (b * ((u + 1) * (m * q))));
        }
        assert((b * f) * (z * d) <= (a * u + 8) * (z * d)) by (nonlinear_arith)
            requires
                b * f <= a * u + 8,
                z > 0,
                d > 0,
        ;
        assert(u * (u * ((t + 1) * d)) <= (a * u + 8) * (z * d)) by (nonlinear_arith)
            requires
                (b * f) * (z * d) <= (a * u + 8) * (z * d),
                u * (b * ((u + 1) * (m * q))) <= (b * f) * (z * d),
                u * (s * d) <= b * ((u + 1) * (m * q)),
                u * ((t + 1) * d) <= u * (s * d),
                u > 0,
        ;
        assert(u * (u * (t + 1)) <= (a * u + 8) * z) by (nonlinear_arith)
            requires
                u * (u * ((t + 1) * d)) <= (a * u + 8) * (z * d),
                d > 0,
        {
            assert((a * u + 8) * (z * d) == ((a * u + 8) * z) * d);
            assert(u * (u * ((t + 1) * d)) == (u * (u * (t + 1))) * d);
        }
        assert((a * u + 8) * z == a * q * u * u + a * q * u + 8 * q * u + 8 * q) by (nonlinear_arith)
            requires
                z == (u + 1) * q,
        ;
        assert(u * (u * (t + 1)) == a * q * u * u + u * u) by (nonlinear_arith)
            requires
                t == a * q,
        ;
        assert(t <= 100 * q) by (nonlinear_arith)
            requires
                t == a * q,
                a <= 100,
                q > 0,
        ;
        assert(a * q * u == t * u) by (nonlinear_arith)
            requires
                t == a * q,
        ;
        assert(t * u + 8 * q * u + 8 * q < u * u) by (nonlinear_arith)
            requires
                t <= 100 * q,
                q < 0x100_0000_0000,
                q > 0,
                u == 0x20_0000_0000_0000,
        ;
    }
}

/// A share of a number of places, rounded, is within half a place of the share.
pub proof fn lemma_share_of_places(p: nat, q: nat, places: nat)
    requires
        p <= q,
        0 < q < 0x100_0000_0000,
        0 < places <= 100,
    ensures
        ({
            let n = ratio53(p, q).spec_times_round(places);
            &&& 2 * (n * q) <= 2 * (places * p) + q
            &&& 2 * (places * p) <= 2 * (n * q) + q
            &&& n <= places
        }),
{
    lemma_pow2_127();
    vstd::arithmetic::power2::lemma2_to64_rest();
    let x = ratio53(p, q);
    let n = x.spec_times_round(places);
    if p == 0 {
        lemma_round53_short(q);
        assert(round53(0) == 0);
        assert(x.mant as nat * places == 0) by (nonlinear_arith)
            requires
                x.mant == 0,
        ;
        assert(0 * pow2(0) == 0);
        assert(0 * q == 0 && places * 0 == 0);
    } else {
        lemma_ratio_near(p, q);
        let r = round53(x.mant as nat * places);
        lemma_share_times(p, q, places, r);
        let d = pow2((-x.exp) as nat) as int;
        let u = pow2(53) as int;
        let top = 2 * r + d;
        let bottom = 2 * d;
        assert(n == top / bottom);
        lemma_fundamental_div_mod(top, bottom);
        lemma_mod_bound(top, bottom);
        let t = (places * p) as int;
        let w = (n * q) as int;
        assert((u - 1) * (2 * w) <= (u + 1) * (2 * t) + (u - 1) * q) by (nonlinear_arith)
            requires
                (u - 1) * (r * q) <= (u + 1) * (t * d),
                2 * r + d >= (2 * d) * n,
                w == n * q,
                u > 1,
                d > 0,
                q > 0,
        {
            assert((2 * r + d) * q >= ((2 * d) * n) * q);
            assert(((2 * d) * n) * q == d * (2 * w));
            assert((u - 1) * ((2 * r + d) * q) >= (u - 1) * (d * (2 * w)));
            assert((u - 1) * ((2 * r + d) * q) == 2 * ((u - 1) * (r * q)) + d * ((u - 1) * q));
            assert(2 * ((u + 1) * (t * d)) == d * ((u + 1) * (2 * t)));
            assert((u - 1) * (d * (2 * w)) == d * ((u - 1) * (2 * w)));
            assert(d * ((u - 1) * (2 * w)) <= d * ((u + 1) * (2 * t) + (u - 1) * q));
        }
        assert((u - 1) * (2 * t) < (u + 1) * (2 * w + q)) by (nonlinear_arith)
            requires
                (u - 1) * (t * d) <= (u + 1) * (r * q),
                2 * r + d < (2 * d) * n + 2 * d,
                w == n * q,
                u > 1,
                d > 0,
                q > 0,
        {
            assert((2 * r) * q < ((2 * d) * n + d) * q);
            assert(((2 * d) * n + d) * q == d * (2 * w + q));
            assert((u + 1) * ((2 * r) * q) < (u + 1) * (d * (2 * w + q)));
            assert((u + 1) * ((2 * r) * q) == 2 * ((u + 1) * (r * q)));
            assert(2 * ((u - 1) * (t * d)) == d * ((u - 1) * (2 * t)));
            assert((u + 1) * (d * (2 * w + q)) == d * ((u + 1) * (2 * w + q)));
            assert(d * ((u - 1) * (2 * t)) < d * ((u + 1) * (2 * w + q)));
        }
        assert(t <= 100 * q) by (nonlinear_arith)
            requires
                t == places * p,
                0 <= places <= 100,
                0 <= p <= q,
        ;
        assert(2 * w <= 2 * t + q);
        assert(2 * t <= 2 * w + q);
        if n > places {
            assert(w >= (places + 1) * q && t <= places * q) by (nonlinear_arith)
                requires
                    w == n * q,
                    n >= places + 1,
                    t == places * p,
                    0 <= p <= q,
                    places >= 0,
            ;
            assert((places + 1) * q == places * q + q) by (nonlinear_arith);
        }
    }
}

/// Division to the nearest is no more than half off, and where two whole numbers are equally near it
/// gives the even one.
pub proof fn law_division_is_to_the_nearest_even(n: nat, d: nat)
    requires
        d > 0,
    ensures
        ({
            let q = div_nearest(n, d);
            &&& 2 * (q * d) <= 2 * n + d && 2 * n <= 2 * (q * d) + d
            &&& 2 * (q * d) == 2 * n + d || 2 * n == 2 * (q * d) + d ==> q % 2 == 0
        }),
{
    vstd::arithmetic::div_mod::lemma_fundamental_div_mod(n as int, d as int);
    vstd::arithmetic::div_mod::lemma_mod_bound(n as int, d as int);
    let q = (n / d) as int;
    let r = (n % d) as int;
    assert(n == d * q + r);
    assert(q * d == d * q && (q + 1) * d == d * q + d) by (nonlinear_arith);
}

/// The product of a value and a whole number, which 53 bits hold, is cut off to the whole number below
/// it, or rounded to the nearest, up where two are equally near.
pub proof fn law_products_are_cut_off_or_rounded(x: Double, n: nat)
    requires
        x.exp < 0,
    ensures
        ({
            let p = round53(x.mant as nat * n);
            let unit = pow2((-x.exp) as nat);
            let cut = x.spec_times_floor(n);
            let near = x.spec_times_round(n);
            &&& cut * unit <= p < (cut + 1) * unit
            &&& 2 * (near * unit) <= 2 * p + unit < 2 * ((near + 1) * unit)
        }),
{
    let p = round53(x.mant as nat * n) as int;
    let unit = pow2((-x.exp) as nat) as int;
    lemma_pow2_pos((-x.exp) as nat);
    vstd::arithmetic::div_mod::lemma_fundamental_div_mod(p, unit);
    vstd::arithmetic::div_mod::lemma_mod_bound(p, unit);
    vstd::arithmetic::div_mod::lemma_fundamental_div_mod(2 * p + unit, 2 * unit);
    vstd::arithmetic::div_mod::lemma_mod_bound(2 * p + unit, 2 * unit);
    let cut = p / unit;
    let near = (2 * p + unit) / (2 * unit);
    assert(unit * cut == cut * unit && (cut + 1) * unit == cut * unit + unit) by (nonlinear_arith);
    assert(2 * unit * near == 2 * (near * unit) && (near + 1) * unit == near * unit + unit) by (nonlinear_arith);
}

/// The root of a square below `4^53` is exact.
pub proof fn law_root_of_a_square(n: nat)
    requires
        n < pow2(53),
    ensures
        sqrt53(n * n) == n,
{
    assert(n * n < (n + 1) * (n + 1)) by (nonlinear_arith);
    lemma_isqrt_unique(n * n, n);
    lemma_bits(n);
    if bits(n) > 53 {
        if bits(n) > 54 {
            lemma_pow2_strictly_increases(53, (bits(n) - 1) as nat);
        }
    }
    let scale = pow2((53 - bits(n)) as nat);
    lemma_pow2_pos((53 - bits(n)) as nat);
    let t = n * scale;
    let w = n * n * scale * scale;
    assert(w == t * t && t * t < (t + 1) * (t + 1)) by (nonlinear_arith)
        requires
            w == n * n * scale * scale,
            t == n * scale,
            t >= 0,
    ;
    lemma_isqrt_unique(w, t);
    vstd::arithmetic::div_mod::lemma_fundamental_div_mod_converse(t as int, scale as int, n as int, 0);
}

} // verus!
