//! How long an endpoint is left alone between two queries.
//!
//! The factors are binary64 values, held as whole numbers of a fixed unit.

use vstd::arithmetic::div_mod::{
    lemma_div_is_ordered, lemma_fundamental_div_mod, lemma_fundamental_div_mod_converse, lemma_mod_bound,
};
use vstd::arithmetic::power2::{lemma_pow2_adds, lemma_pow2_pos, lemma_pow2_strictly_increases, pow2};
use vstd::prelude::*;

use crate::double::{
    bit_length, bits, div_nearest, divide_nearest, lemma_bits, lemma_bits_monotone, lemma_bits_unique, lemma_pow2_127,
    lemma_round53_error, lemma_round53_monotone, lemma_round53_power, lemma_round53_range, lemma_round53_shift,
    lemma_round53_short, lemma_round53_u64, nearest53, power_of_two, round53, PRECISION,
};
use crate::duration::{Duration, MAX_NANOS};
use crate::rng::{rng_next, xorshift};

verus! {

/// The multiplier one, in units of `2^-52`.
pub const BACKOFF_MIN: u64 = 0x10_0000_0000_0000;

/// The multiplier five, in units of `2^-52`.
pub const BACKOFF_MAX: u64 = 0x50_0000_0000_0000;

/// The binary64 value nearest to nine tenths, in units of `2^-53`.
pub const DECAY: u64 = 8_106_479_329_266_893;

/// Adaptive backoff for a single endpoint. Doubles on timeouts and network errors, decays toward
/// one on success. Capped so that it never stalls the whole benchmark.
#[derive(Clone, Copy, Debug, PartialEq, Eq, Structural)]
pub struct Backoff {
    /// The multiplier, in units of `2^-52`.
    pub mult: u64,
}

/// The smaller of `n` and the greatest 64-bit number.
pub open spec fn saturated(n: nat) -> nat {
    if n > u64::MAX {
        u64::MAX as nat
    } else {
        n
    }
}

impl Backoff {
    /// The multiplier lies between one and five.
    pub open spec fn wf(self) -> bool {
        BACKOFF_MIN <= self.mult <= BACKOFF_MAX
    }

    /// The multiplier after a success: nine tenths of it, but no less than one.
    pub open spec fn decayed(self) -> Backoff {
        let p = round53(self.mult as nat * DECAY as nat);
        if p < pow2(105) {
            Backoff { mult: BACKOFF_MIN }
        } else {
            Backoff { mult: (p / pow2(53)) as u64 }
        }
    }

    /// The multiplier after a failure: doubled up to five where the failure is transient.
    pub open spec fn raised(self, transient: bool) -> Backoff {
        if !transient {
            self
        } else if 2 * self.mult > BACKOFF_MAX {
            Backoff { mult: BACKOFF_MAX }
        } else {
            Backoff { mult: (2 * self.mult) as u64 }
        }
    }

    /// `base` nanoseconds times the multiplier, cut off behind the decimal point.
    pub open spec fn scaled(self, base: nat) -> nat {
        saturated(round53(round53(base) * self.mult as nat) / pow2(52))
    }

    /// No backoff.
    pub fn new() -> (r: Backoff)
        ensures
            r.wf(),
            r.mult == BACKOFF_MIN,
    {
        Backoff { mult: BACKOFF_MIN }
    }

    /// Note a success.
    pub fn on_success(&mut self)
        requires
            old(self).wf(),
        ensures
            *final(self) == old(self).decayed(),
            final(self).wf(),
    {
        let ghost m = self.mult;
        proof {
            lemma_decay(m);
            lemma_pow2_127();
            lemma_pow2_adds(53, 52);
        }
        let p: u128 = nearest53(self.mult as u128 * DECAY as u128);
        if p < 0x200_0000_0000_0000_0000_0000_0000 {
            self.mult = BACKOFF_MIN;
        } else {
            self.mult = (p / 0x20_0000_0000_0000) as u64;
        }
    }

    /// Note a failure, which is transient for timeouts and network errors.
    pub fn on_failure(&mut self, transient: bool)
        requires
            old(self).wf(),
        ensures
            *final(self) == old(self).raised(transient),
            final(self).wf(),
    {
        if transient {
            let doubled: u64 = 2 * self.mult;
            self.mult = if doubled > BACKOFF_MAX {
                BACKOFF_MAX
            } else {
                doubled
            };
        }
    }

    /// The idle time for a base time.
    pub fn apply(&self, base: Duration) -> (r: Duration)
        requires
            self.wf(),
        ensures
            r@ == self.scaled(base@),
            r@ <= u64::MAX,
    {
        let n: u128 = base.as_nanos();
        let m = self.mult;
        proof {
            lemma_pow2_127();
        }
        if n > 0xffff_ffff_ffff_ffff {
            proof {
                lemma_scaled_saturates(n as nat, m);
            }
            Duration::from_nanos(u64::MAX)
        } else {
            proof {
                lemma_round53_u64(n as u64);
            }
            let b: u128 = nearest53(n);
            proof {
                assert(0 <= b * m <= 0x1_0000_0000_0000_0000 * BACKOFF_MAX) by (nonlinear_arith)
                    requires
                        0 <= b <= 0x1_0000_0000_0000_0000,
                        0 <= m <= BACKOFF_MAX,
                ;
            }
            let p: u128 = nearest53(b * m as u128);
            let q: u128 = p / 0x10_0000_0000_0000;
            if q > 0xffff_ffff_ffff_ffff {
                Duration::from_nanos(u64::MAX)
            } else {
                Duration::from_nanos(q as u64)
            }
        }
    }
}

/// A decayed multiplier is no higher than before.
proof fn lemma_decay(m: u64)
    requires
        BACKOFF_MIN <= m <= BACKOFF_MAX,
    ensures
        m * DECAY < 0x8000_0000_0000_0000_0000_0000_0000_0000,
        round53(m as nat * DECAY as nat) / pow2(53) <= m,
        pow2(105) == 0x200_0000_0000_0000_0000_0000_0000,
        round53(m as nat * DECAY as nat) >= pow2(105) ==> round53(m as nat * DECAY as nat) / pow2(53) >= BACKOFF_MIN,
{
    lemma_pow2_127();
    lemma_pow2_adds(53, 52);
    let n = m as nat * DECAY as nat;
    assert(0 <= n <= BACKOFF_MAX * DECAY) by (nonlinear_arith)
        requires
            n == m * DECAY,
            0 <= m <= BACKOFF_MAX,
    ;
    lemma_round53_error(n);
    let p = round53(n);
    let unit = pow2(53);
    assert(p <= m * unit) by (nonlinear_arith)
        requires
            unit * p <= (unit + 1) * n,
            n == m * DECAY,
            unit == 0x20_0000_0000_0000,
            DECAY == 8_106_479_329_266_893,
            m >= 0,
    {
        assert((unit + 1) * n == m * ((unit + 1) * DECAY));
        assert((unit + 1) * DECAY <= unit * unit);
        assert(m * ((unit + 1) * DECAY) <= m * (unit * unit));
        assert(m * (unit * unit) == unit * (m * unit));
    }
    assert(p / unit <= m) by (nonlinear_arith)
        requires
            p <= m * unit,
            unit > 0,
    ;
    if p >= pow2(105) {
        lemma_div_is_ordered(pow2(105) as int, p as int, unit as int);
        lemma_fundamental_div_mod_converse(pow2(105) as int, unit as int, pow2(52) as int, 0);
    }
}

proof fn lemma_scaled_saturates(n: nat, m: u64)
    requires
        n > u64::MAX,
        m >= BACKOFF_MIN,
    ensures
        round53(round53(n) * m as nat) / pow2(52) > u64::MAX,
{
    lemma_pow2_127();
    lemma_round53_monotone(pow2(64), n);
    lemma_round53_power(64);
    let b = round53(n);
    lemma_pow2_adds(64, 52);
    assert(b * m >= pow2(64) * pow2(52)) by (nonlinear_arith)
        requires
            b >= pow2(64),
            m >= pow2(52),
            pow2(64) >= 0,
            pow2(52) >= 0,
    ;
    lemma_round53_monotone(pow2(116), b * m as nat);
    lemma_round53_power(116);
    lemma_div_is_ordered(pow2(116) as int, round53(b * m as nat) as int, pow2(52) as int);
    lemma_fundamental_div_mod_converse(pow2(116) as int, pow2(52) as int, pow2(64) as int, 0);
}

/// Backoff doubles up to its cap on transient failures, ignores the others, and never rises on
/// success.
pub proof fn law_backoff_bounds(b: Backoff, transient: bool)
    requires
        b.wf(),
    ensures
        b.decayed().wf(),
        b.decayed().mult <= b.mult,
        b.raised(transient).wf(),
        b.raised(transient).mult >= b.mult,
        !transient ==> b.raised(transient) == b,
        transient && b.mult * 2 <= BACKOFF_MAX ==> b.raised(transient).mult == 2 * b.mult,
{
    lemma_decay(b.mult);
    lemma_pow2_127();
}

/// Without backoff a time that binary64 holds is left as it is.
pub proof fn law_no_backoff_keeps_time(n: nat)
    requires
        n < 0x20_0000_0000_0000,
    ensures
        (Backoff { mult: BACKOFF_MIN }).scaled(n) == n,
{
    lemma_pow2_127();
    lemma_bits_monotone(n, (0x20_0000_0000_0000 - 1) as nat);
    lemma_bits_unique((0x20_0000_0000_0000 - 1) as nat, 53);
    lemma_round53_shift(n, 52);
    lemma_fundamental_div_mod_converse((n * pow2(52)) as int, pow2(52) as int, n as int, 0);
}

/// How far a time may be jittered either way, as a share of it: the binary64 value
/// `units * 2^-shift`.
#[derive(Clone, Copy, Debug, PartialEq, Eq, Structural)]
pub struct Amplitude {
    pub units: u64,
    pub shift: i32,
}

impl Amplitude {
    /// The units fit the mantissa of a binary64 value.
    pub open spec fn wf(self) -> bool {
        self.units <= 0x20_0000_0000_0000
    }

    /// The binary64 value nearest to three tenths.
    pub open spec fn three_tenths() -> Amplitude {
        Amplitude { units: 5_404_319_552_844_595, shift: 54 }
    }

    /// One, in the unit of a factor, which is that of the product of an amplitude and a draw, but
    /// no more than one.
    pub open spec fn one(self) -> nat {
        if 63 + self.shift >= 0 {
            pow2((63 + self.shift) as nat)
        } else {
            1
        }
    }

    /// The unit of the product of an amplitude and a draw, in the unit of a factor.
    pub open spec fn lift(self) -> nat {
        if 63 + self.shift >= 0 {
            1
        } else {
            pow2((-(63 + self.shift)) as nat)
        }
    }

    /// The amplitude times a draw of `away` times `2^-63`.
    pub open spec fn part(self, away: nat) -> nat {
        round53(round53(away) * self.units as nat) * self.lift()
    }

    /// The amplitude itself.
    pub open spec fn reach(self) -> nat {
        pow2(63) * self.units as nat * self.lift()
    }

    /// The factor for a draw of `drawn` times `2^-63` minus one: one, plus the amplitude times the
    /// draw, but no less than zero.
    pub open spec fn factor_for(self, drawn: nat) -> nat {
        if drawn >= pow2(63) {
            round53(self.one() + self.part((drawn - pow2(63)) as nat))
        } else {
            let part = self.part((pow2(63) - drawn) as nat);
            if part >= self.one() {
                0
            } else {
                round53((self.one() - part) as nat)
            }
        }
    }

    /// The factor for the random number `r`, which draws between minus one and one.
    pub open spec fn factor(self, r: u64) -> nat {
        self.factor_for(round53(r as nat))
    }
}

/// `base` nanoseconds, jittered by the amplitude `a` with the random number `r`.
pub open spec fn jittered(base: nat, r: u64, a: Amplitude) -> nat {
    saturated(round53(round53(base) * a.factor(r)) / a.one())
}

/// `f / one` is `lead * 2^-d`.
spec fn is_ratio(f: nat, one: nat, lead: nat, d: int) -> bool {
    if d >= 0 {
        f * pow2(d as nat) == lead * one
    } else {
        f == lead * one * pow2((-d) as nat)
    }
}

/// A part of a draw never exceeds the amplitude.
proof fn lemma_part(away: nat, a: Amplitude)
    requires
        a.wf(),
        away <= pow2(63),
    ensures
        round53(away) <= pow2(63),
        round53(away) * a.units <= pow2(63) * a.units <= pow2(116),
        round53(round53(away) * a.units as nat) <= pow2(63) * a.units,
        a.part(away) <= a.reach(),
        pow2(116) == 0x10_0000_0000_0000_0000_0000_0000_0000,
        a.one() > 0,
        a.lift() > 0,
{
    lemma_pow2_127();
    lemma_pow2_adds(63, 53);
    lemma_round53_monotone(away, pow2(63));
    lemma_round53_power(63);
    let x = round53(away);
    let reach = pow2(63) * a.units as nat;
    assert(x * a.units <= pow2(63) * a.units && pow2(63) * a.units <= pow2(63) * pow2(53)) by (nonlinear_arith)
        requires
            x <= pow2(63),
            0 <= a.units <= pow2(53),
            pow2(63) >= 0,
    ;
    lemma_round53_monotone(x * a.units as nat, reach);
    lemma_units_exact(a);
    lemma_round53_shift(a.units as nat, 63);
    assert(a.units as nat * pow2(63) == reach) by (nonlinear_arith)
        requires
            reach == pow2(63) * a.units,
    ;
    if 63 + a.shift >= 0 {
        lemma_pow2_pos((63 + a.shift) as nat);
    } else {
        lemma_pow2_pos((-(63 + a.shift)) as nat);
    }
    let y = round53(x * a.units as nat);
    assert(y * a.lift() <= reach * a.lift()) by (nonlinear_arith)
        requires
            y <= reach,
            a.lift() > 0,
    ;
}

/// Rounding around an even number of units rounds the difference.
proof fn lemma_div_nearest_around(even: nat, n: nat, d: nat)
    requires
        d > 0,
        even % 2 == 0,
    ensures
        div_nearest(even * d + n, d) == even + div_nearest(n, d),
        n <= even * d ==> div_nearest((even * d - n) as nat, d) == even - div_nearest(n, d),
{
    let q = n / d;
    let r = n % d;
    lemma_fundamental_div_mod(n as int, d as int);
    lemma_mod_bound(n as int, d as int);
    assert(even * d + n == (even + q) * d + r) by (nonlinear_arith)
        requires
            n == d * q + r,
    ;
    lemma_fundamental_div_mod_converse((even * d + n) as int, d as int, (even + q) as int, r as int);
    if n <= even * d {
        let m = (even * d - n) as nat;
        if r == 0 {
            assert(m == (even - q) * d + 0) by (nonlinear_arith)
                requires
                    n == d * q + r,
                    r == 0,
                    m == even * d - n,
            ;
            lemma_fundamental_div_mod_converse(m as int, d as int, even - q, 0);
        } else {
            assert(m == (even - q - 1) * d + (d - r)) by (nonlinear_arith)
                requires
                    n == d * q + r,
                    m == even * d - n,
            ;
            lemma_fundamental_div_mod_converse(m as int, d as int, even - q - 1, d - r);
        }
    }
}

/// Where the amplitude is far below one, the factor is one plus or minus some units in its last
/// place.
proof fn lemma_small_part(e: nat, y: nat, up: bool, lead: nat)
    requires
        e >= 126,
        y <= pow2(116),
        up ==> lead == pow2(52) + div_nearest(y, pow2((e - 52) as nat)),
        !up && y > 0 ==> lead == pow2(53) - div_nearest(y, pow2((e - 53) as nat)),
        !up && y == 0 ==> lead == pow2(53),
    ensures
        lead <= pow2(53),
        y < pow2(e),
        up ==> round53(pow2(e) + y) == lead * pow2((e - 52) as nat),
        !up ==> round53((pow2(e) - y) as nat) == lead * pow2((e - 53) as nat),
{
    lemma_pow2_127();
    lemma_pow2_strictly_increases(116, (e - 1) as nat);
    vstd::arithmetic::power2::lemma_pow2_unfold(e);
    vstd::arithmetic::power2::lemma_pow2_unfold((e + 1) as nat);
    lemma_pow2_pos((e - 52) as nat);
    lemma_pow2_pos((e - 53) as nat);
    lemma_pow2_adds(52, (e - 52) as nat);
    lemma_pow2_adds(53, (e - 53) as nat);
    if up {
        let unit = pow2((e - 52) as nat);
        lemma_bits_unique((pow2(e) + y) as nat, (e + 1) as nat);
        lemma_div_nearest_around(pow2(52), y, unit);
        lemma_round53_range((pow2(e) + y) as nat);
        lemma_pow2_adds(53, (e - 52) as nat);
        assert(lead <= pow2(53)) by (nonlinear_arith)
            requires
                lead * unit <= pow2(53) * unit,
                unit > 0,
        ;
    } else if y == 0 {
        lemma_round53_power(e);
    } else {
        let unit = pow2((e - 53) as nat);
        lemma_bits_unique((pow2(e) - y) as nat, e);
        lemma_div_nearest_around(pow2(53), y, unit);
    }
}

/// A number far below half a unit rounds to nothing.
proof fn lemma_rounds_away(y: nat, k: nat)
    requires
        y <= pow2(116),
        k >= 118,
    ensures
        div_nearest(y, pow2(k)) == 0,
{
    lemma_pow2_strictly_increases(117, k);
    vstd::arithmetic::power2::lemma_pow2_unfold(117);
    lemma_pow2_pos(k);
    lemma_fundamental_div_mod_converse(y as int, pow2(k) as int, 0, y as int);
}

fn small_nearest(y: u128, k: u64) -> (r: u128)
    requires
        y <= pow2(116),
    ensures
        r == div_nearest(y as nat, pow2(k as nat)),
{
    proof {
        lemma_pow2_127();
        lemma_pow2_pos(k as nat);
    }
    if k >= 128 {
        proof {
            lemma_rounds_away(y as nat, k as nat);
        }
        0
    } else {
        let unit: u128 = power_of_two(k as u32);
        proof {
            if k < 127 {
                lemma_pow2_strictly_increases(k as nat, 127);
            }
        }
        divide_nearest(y, unit)
    }
}

/// `sum` as at most 53 bits and a power of two, over a power of two.
fn leading(sum: u128, e: u32) -> (r: (u128, i64))
    requires
        e <= 125,
    ensures
        r.0 <= 0x20_0000_0000_0000,
        -75 <= r.1 <= 125,
        is_ratio(round53(sum as nat), pow2(e as nat), r.0 as nat, r.1 as int),
{
    let k: u32 = bit_length(sum);
    let down: u32 = if k <= PRECISION {
        0
    } else {
        k - PRECISION
    };
    let unit: u128 = power_of_two(down);
    proof {
        lemma_pow2_127();
        lemma_pow2_pos(down as nat);
        lemma_pow2_strictly_increases(down as nat, 127);
    }
    let lead: u128 = divide_nearest(sum, unit);
    let d: i64 = e as i64 - down as i64;
    proof {
        lemma_lead(sum as nat, lead as nat, down as nat);
        let f = round53(sum as nat);
        let one = pow2(e as nat);
        if d >= 0 {
            lemma_pow2_adds(down as nat, d as nat);
            assert((lead * unit) * pow2(d as nat) == lead * (unit * pow2(d as nat))) by (nonlinear_arith);
        } else {
            lemma_pow2_adds(e as nat, (-d) as nat);
            assert((lead * one) * pow2((-d) as nat) == lead * (one * pow2((-d) as nat))) by (nonlinear_arith);
        }
    }
    (lead, d)
}

/// The factor over one, as at most 53 bits and a power of two; `None` where it is `2^64` or more.
#[verifier::rlimit(40)]
fn factor_ratio(a: Amplitude, drawn: u128) -> (r: Option<(u128, i64)>)
    requires
        a.wf(),
        drawn <= 0x1_0000_0000_0000_0000,
    ensures
        match r {
            Some((lead, d)) => lead <= 0x20_0000_0000_0000 && -75 <= d <= 125 && is_ratio(
                a.factor_for(drawn as nat),
                a.one(),
                lead as nat,
                d as int,
            ),
            None => a.factor_for(drawn as nat) >= pow2(64) * a.one(),
        },
{
    let half: u128 = 0x8000_0000_0000_0000;
    let up: bool = drawn >= half;
    let away: u128 = if up {
        drawn - half
    } else {
        half - drawn
    };
    proof {
        lemma_pow2_127();
        vstd::arithmetic::power2::lemma2_to64();
        lemma_part(away as nat, a);
    }
    let y: u128 = nearest53(nearest53(away) * a.units as u128);
    let e: i64 = 63 + a.shift as i64;
    if e >= 126 {
        proof {
            assert(y * a.lift() == y) by (nonlinear_arith)
                requires
                    a.lift() == 1,
            ;
            assert(div_nearest(y as nat, pow2((e - 52) as nat)) <= pow2(52)) by {
                lemma_small_off((e + 1) as nat, y as nat);
            }
        }
        if up {
            let lead: u128 = 0x10_0000_0000_0000 + small_nearest(y, (e - 52) as u64);
            proof {
                lemma_small_part(e as nat, y as nat, true, lead as nat);
                lemma_pow2_adds(52, (e - 52) as nat);
                let unit = pow2((e - 52) as nat);
                assert((lead * unit) * pow2(52) == lead * (pow2(52) * unit)) by (nonlinear_arith);
            }
            Some((lead, 52))
        } else {
            let ghost unit = pow2((e - 53) as nat);
            let off: u128 = if y == 0 {
                0
            } else {
                small_nearest(y, (e - 53) as u64)
            };
            proof {
                lemma_small_off(e as nat, y as nat);
            }
            let lead: u128 = 0x20_0000_0000_0000 - off;
            proof {
                lemma_small_part(e as nat, y as nat, false, lead as nat);
                lemma_pow2_adds(53, (e - 53) as nat);
                assert((lead * unit) * pow2(53) == lead * (pow2(53) * unit)) by (nonlinear_arith);
            }
            Some((lead, 53))
        }
    } else if e >= 0 {
        let one: u128 = power_of_two(e as u32);
        proof {
            assert(y * a.lift() == y) by (nonlinear_arith)
                requires
                    a.lift() == 1,
            ;
            lemma_pow2_adds(64, 61);
            vstd::arithmetic::power2::lemma2_to64_rest();
            if e < 125 {
                lemma_pow2_strictly_increases(e as nat, 125);
            }
        }
        if !up && y >= one {
            proof {
                assert(0 * pow2(0) == 0 * a.one()) by (nonlinear_arith);
            }
            return Some((0, 0));
        }
        let sum: u128 = if up {
            one + y
        } else {
            one - y
        };
        Some(leading(sum, e as u32))
    } else {
        let ghost lift = a.lift();
        let ghost part = a.part(away as nat);
        if y == 0 {
            proof {
                assert(part == 0 * lift);
                assert(0 * lift == 0) by (nonlinear_arith);
                lemma_round53_power(0);
                assert(1 * pow2(0) == 1 * a.one());
            }
            return Some((1, 0));
        }
        let l: i64 = -e;
        proof {
            lemma_pow2_pos(l as nat);
            assert(part >= lift) by (nonlinear_arith)
                requires
                    part == y * lift,
                    y >= 1,
                    lift >= 0,
            ;
        }
        if !up {
            proof {
                assert(0 * pow2(0) == 0 * a.one()) by (nonlinear_arith);
            }
            return Some((0, 0));
        }
        proof {
            assert(part >= y) by (nonlinear_arith)
                requires
                    part == y * lift,
                    y >= 1,
                    lift >= 1,
            ;
        }
        if l >= 64 || y >= 0x1_0000_0000_0000_0000 {
            proof {
                if l > 64 {
                    lemma_pow2_strictly_increases(64, l as nat);
                }
                lemma_round53_monotone(pow2(64), (1 + part) as nat);
                lemma_round53_power(64);
            }
            return None;
        }
        let by: u128 = power_of_two(l as u32);
        proof {
            lemma_pow2_strictly_increases(l as nat, 64);
            assert(0 <= y * by <= 0xffff_ffff_ffff_ffff * 0xffff_ffff_ffff_ffff) by (nonlinear_arith)
                requires
                    0 <= y <= 0xffff_ffff_ffff_ffff,
                    0 <= by <= 0xffff_ffff_ffff_ffff,
            ;
        }
        Some(leading(1 + y * by, 0))
    }
}

/// What a small part takes off one leaves at least half of it.
proof fn lemma_small_off(e: nat, y: nat)
    requires
        e >= 126,
        y <= pow2(116),
    ensures
        div_nearest(y, pow2((e - 53) as nat)) <= pow2(52),
{
    lemma_pow2_127();
    let unit = pow2((e - 53) as nat);
    lemma_pow2_pos((e - 53) as nat);
    lemma_pow2_adds(43, 73);
    lemma_pow2_pos(73);
    vstd::arithmetic::power2::lemma2_to64_rest();
    if e > 126 {
        lemma_pow2_strictly_increases(73, (e - 53) as nat);
    }
    lemma_fundamental_div_mod(y as int, unit as int);
    lemma_mod_bound(y as int, unit as int);
    let q = y / unit;
    assert(q <= pow2(43)) by (nonlinear_arith)
        requires
            y >= unit * q,
            y <= pow2(43) * pow2(73),
            unit >= pow2(73),
            pow2(73) > 0,
            q >= 0,
    ;
}

/// The quotient of a rounded product by one, where the factor is given as a ratio.
proof fn lemma_product(head: nat, cut: nat, f: nat, e: nat, lead: nat, d: int)
    requires
        is_ratio(f, pow2(e), lead, d),
    ensures
        d >= cut ==> round53((head * pow2(cut)) * f) / pow2(e) == round53(head * lead) / pow2((d - cut) as nat),
        d < cut ==> round53((head * pow2(cut)) * f) / pow2(e) == round53(head * lead) * pow2((cut - d) as nat),
{
    let p = round53(head * lead);
    let one = pow2(e);
    let b = head * pow2(cut);
    let x = round53(b * f);
    lemma_pow2_pos(e);
    lemma_pow2_pos(cut);
    if d >= 0 {
        let down = pow2(d as nat);
        lemma_pow2_pos(d as nat);
        lemma_pow2_adds(cut, e);
        assert((b * f) * down == (head * lead) * (pow2(cut) * one)) by (nonlinear_arith)
            requires
                f * down == lead * one,
                b == head * pow2(cut),
        ;
        lemma_round53_shift(b * f, d as nat);
        lemma_round53_shift(head * lead, cut + e);
        assert(x * down == (p * pow2(cut)) * one) by (nonlinear_arith)
            requires
                x * down == p * (pow2(cut) * one),
        ;
        lemma_scaled_quotient(x, one, down);
        lemma_scaled_quotient(p * pow2(cut), down, one);
        assert(one * down == down * one) by (nonlinear_arith);
        assert(x / one == (p * pow2(cut)) / down);
        if d >= cut {
            lemma_pow2_adds((d - cut) as nat, cut);
            lemma_pow2_pos((d - cut) as nat);
            lemma_scaled_quotient(p, pow2((d - cut) as nat), pow2(cut));
        } else {
            let rest = pow2((cut - d) as nat);
            lemma_pow2_adds((cut - d) as nat, d as nat);
            assert(p * pow2(cut) == (p * rest) * down + 0) by (nonlinear_arith)
                requires
                    pow2(cut) == rest * down,
            ;
            lemma_fundamental_div_mod_converse((p * pow2(cut)) as int, down as int, (p * rest) as int, 0);
        }
    } else {
        let raise = pow2((-d) as nat);
        lemma_pow2_adds(cut, (-d) as nat);
        lemma_pow2_adds((cut - d) as nat, e);
        let rest = pow2((cut - d) as nat);
        assert(b * f == (head * lead) * (rest * one)) by (nonlinear_arith)
            requires
                f == lead * one * raise,
                b == head * pow2(cut),
                rest == pow2(cut) * raise,
        ;
        lemma_round53_shift(head * lead, (cut - d + e) as nat);
        assert(x == (p * rest) * one + 0) by (nonlinear_arith)
            requires
                x == p * (rest * one),
        ;
        lemma_fundamental_div_mod_converse(x as int, one as int, (p * rest) as int, 0);
    }
}

/// `p` times a power of two, cut off behind the decimal point and at the greatest 64-bit number.
fn shifted(p: u128, s: i64) -> (r: u64)
    requires
        -127 <= s <= 1000,
    ensures
        s >= 0 ==> r == saturated(p as nat * pow2(s as nat)),
        s < 0 ==> r == saturated(p as nat / pow2((-s) as nat)),
{
    proof {
        lemma_pow2_127();
    }
    if s < 0 {
        let by: u128 = power_of_two((-s) as u32);
        proof {
            lemma_pow2_pos((-s) as nat);
        }
        let q: u128 = p / by;
        if q > 0xffff_ffff_ffff_ffff {
            u64::MAX
        } else {
            q as u64
        }
    } else if p == 0 {
        proof {
            assert(0 * pow2(s as nat) == 0) by (nonlinear_arith);
        }
        0
    } else if s >= 64 || p > 0xffff_ffff_ffff_ffff {
        proof {
            lemma_pow2_pos(s as nat);
            if s > 64 {
                lemma_pow2_strictly_increases(64, s as nat);
            }
            let by = pow2(s as nat);
            assert(p * by >= p && p * by >= by) by (nonlinear_arith)
                requires
                    p >= 1,
                    by >= 1,
            ;
        }
        u64::MAX
    } else {
        let by: u128 = power_of_two(s as u32);
        proof {
            lemma_pow2_strictly_increases(s as nat, 64);
            assert(0 <= p * by <= 0xffff_ffff_ffff_ffff * 0xffff_ffff_ffff_ffff) by (nonlinear_arith)
                requires
                    0 <= p <= 0xffff_ffff_ffff_ffff,
                    0 <= by <= 0xffff_ffff_ffff_ffff,
            ;
        }
        let q: u128 = p * by;
        if q > 0xffff_ffff_ffff_ffff {
            u64::MAX
        } else {
            q as u64
        }
    }
}

/// `base`, moved at random by up to the amplitude either way.
pub fn jitter(base: Duration, state: &mut u64, pct: Amplitude) -> (r: Duration)
    requires
        pct.wf(),
    ensures
        base@ == 0 || pct.units == 0 ==> r == base && *final(state) == *old(state),
        base@ > 0 && pct.units > 0 ==> *final(state) == xorshift(*old(state)) && r@ == jittered(
            base@,
            xorshift(*old(state)),
            pct,
        ),
{
    if base.is_zero() || pct.units == 0 {
        return base;
    }
    let draw: u64 = rng_next(state);
    proof {
        lemma_pow2_127();
        lemma_round53_u64(draw);
    }
    let drawn: u128 = nearest53(draw as u128);
    let n: u128 = base.as_nanos();
    let ghost f = pct.factor(draw);
    let (lead, d): (u128, i64) = match factor_ratio(pct, drawn) {
        Some(p) => p,
        None => {
            proof {
                lemma_huge_factor(n as nat, f, pct);
            }
            return Duration::from_nanos(u64::MAX);
        },
    };
    // The time is `head * scale`, of which only `head` enters the product.
    let len: u32 = bit_length(n);
    proof {
        lemma_time_bits(n as nat);
    }
    let cut: u32 = if len <= PRECISION {
        0
    } else {
        len - PRECISION
    };
    let scale: u128 = power_of_two(cut);
    proof {
        lemma_pow2_pos(cut as nat);
        lemma_pow2_strictly_increases(cut as nat, 127);
    }
    let head: u128 = divide_nearest(n, scale);
    proof {
        lemma_lead(n as nat, head as nat, cut as nat);
        assert(0 <= head * lead <= 0x20_0000_0000_0000 * 0x20_0000_0000_0000) by (nonlinear_arith)
            requires
                0 <= head <= 0x20_0000_0000_0000,
                0 <= lead <= 0x20_0000_0000_0000,
        ;
        let e = if 63 + pct.shift >= 0 {
            (63 + pct.shift) as nat
        } else {
            0
        };
        vstd::arithmetic::power2::lemma2_to64();
        assert(pct.one() == pow2(e));
        lemma_product(head as nat, cut as nat, f, e, lead as nat, d as int);
    }
    let p: u128 = nearest53(head * lead);
    proof {
        assert(p as nat / 1 == p);
        assert(p as nat * 1 == p);
    }
    Duration::from_nanos(shifted(p, cut as i64 - d))
}

proof fn lemma_huge_factor(n: nat, f: nat, a: Amplitude)
    requires
        n > 0,
        f >= pow2(64) * a.one(),
    ensures
        round53(round53(n) * f) / a.one() > u64::MAX,
{
    lemma_pow2_127();
    let e = if 63 + a.shift >= 0 {
        (63 + a.shift) as nat
    } else {
        0
    };
    vstd::arithmetic::power2::lemma2_to64();
    assert(a.one() == pow2(e));
    lemma_pow2_pos(e);
    lemma_round53_monotone(1, n);
    lemma_round53_power(0);
    let b = round53(n);
    let least = pow2(64) * pow2(e);
    assert(b * f >= least) by (nonlinear_arith)
        requires
            b >= 1,
            f >= least,
            least >= 0,
    ;
    lemma_pow2_adds(64, e);
    lemma_round53_monotone(least, b * f);
    lemma_round53_power(64 + e);
    lemma_div_is_ordered(least as int, round53(b * f) as int, pow2(e) as int);
    lemma_fundamental_div_mod_converse(least as int, pow2(e) as int, pow2(64) as int, 0);
}

/// No time is longer than 94 bits.
proof fn lemma_time_bits(n: nat)
    requires
        n <= MAX_NANOS,
    ensures
        bits(n) <= 94,
{
    vstd::arithmetic::power2::lemma2_to64();
    lemma_pow2_127();
    lemma_pow2_adds(64, 30);
    lemma_bits(n);
    if bits(n) > 94 {
        if bits(n) > 95 {
            lemma_pow2_strictly_increases(94, (bits(n) - 1) as nat);
        }
    }
}

proof fn lemma_lead(sum: nat, lead: nat, down: nat)
    requires
        down == (if bits(sum) <= PRECISION {
            0
        } else {
            bits(sum) - PRECISION
        }),
        lead == div_nearest(sum, pow2(down)),
    ensures
        round53(sum) == lead * pow2(down),
        lead <= 0x20_0000_0000_0000,
{
    lemma_pow2_127();
    vstd::arithmetic::power2::lemma2_to64();
    lemma_bits(sum);
    lemma_round53_range(sum);
    if bits(sum) <= PRECISION {
        if bits(sum) < 53 {
            lemma_pow2_strictly_increases(bits(sum), 53);
        }
        assert(sum / 1 == sum && sum % 1 == 0);
        assert(lead * 1 == lead);
    } else {
        lemma_pow2_adds(53, down);
        lemma_pow2_pos(down);
        let unit = pow2(down);
        assert(lead <= 0x20_0000_0000_0000) by (nonlinear_arith)
            requires
                lead * unit <= 0x20_0000_0000_0000 * unit,
                unit > 0,
        ;
    }
}

proof fn lemma_scaled_quotient(p: nat, d: nat, c: nat)
    requires
        d > 0,
        c > 0,
    ensures
        (p * c) / (d * c) == p / d,
{
    vstd::arithmetic::div_mod::lemma_fundamental_div_mod(p as int, d as int);
    vstd::arithmetic::div_mod::lemma_mod_bound(p as int, d as int);
    let q = p / d;
    let r = p % d;
    assert(p * c == q * (d * c) + r * c && 0 <= r * c < d * c) by (nonlinear_arith)
        requires
            p == d * q + r,
            0 <= r < d,
            c > 0,
    ;
    lemma_fundamental_div_mod_converse((p * c) as int, (d * c) as int, q as int, (r * c) as int);
}

/// The least and the greatest factor of an amplitude.
pub open spec fn factor_range(a: Amplitude) -> (nat, nat) {
    (
        if a.reach() >= a.one() {
            0
        } else {
            round53((a.one() - a.reach()) as nat)
        },
        round53(a.one() + a.reach()),
    )
}

/// Jitter keeps a time between what the amplitude takes off it and what the amplitude adds to it.
pub proof fn law_jitter_range(base: nat, r: u64, a: Amplitude)
    requires
        a.wf(),
    ensures
        ({
            let (low, high) = factor_range(a);
            &&& low <= a.factor(r) <= high
            &&& saturated(round53(round53(base) * low) / a.one()) <= jittered(base, r, a)
            &&& jittered(base, r, a) <= saturated(round53(round53(base) * high) / a.one())
        }),
{
    lemma_pow2_127();
    lemma_round53_u64(r);
    let drawn = round53(r as nat);
    let up = drawn >= pow2(63);
    let away = if up {
        (drawn - pow2(63)) as nat
    } else {
        (pow2(63) - drawn) as nat
    };
    lemma_part(away, a);
    let part = a.part(away);
    let one = a.one();
    let reach = a.reach();
    let (low, high) = factor_range(a);
    let f = a.factor(r);
    lemma_round53_monotone(one, (one + part) as nat);
    lemma_round53_monotone((one + part) as nat, (one + reach) as nat);
    lemma_round53_monotone(one, (one + reach) as nat);
    if reach < one {
        lemma_round53_monotone((one - reach) as nat, one);
        lemma_round53_monotone((one - reach) as nat, (one - part) as nat);
    }
    if part < one {
        lemma_round53_monotone((one - part) as nat, one);
    }
    let b = round53(base);
    assert(b * low <= b * f && b * f <= b * high) by (nonlinear_arith)
        requires
            low <= f <= high,
            b >= 0,
    ;
    lemma_round53_monotone(b * low, b * f);
    lemma_round53_monotone(b * f, b * high);
    lemma_div_is_ordered(round53(b * low) as int, round53(b * f) as int, one as int);
    lemma_div_is_ordered(round53(b * f) as int, round53(b * high) as int, one as int);
}

proof fn lemma_one_more(p: nat, one: nat)
    requires
        one > 0,
    ensures
        (p + one) / one == p / one + 1,
{
    lemma_fundamental_div_mod(p as int, one as int);
    lemma_mod_bound(p as int, one as int);
    let q = p / one;
    assert(p + one == (q + 1) * one + p % one) by (nonlinear_arith)
        requires
            p == one * q + p % one,
    ;
    lemma_fundamental_div_mod_converse((p + one) as int, one as int, (q + 1) as int, (p % one) as int);
}

/// Two roundings of a product move it by less than one, where it is small beside the precision.
proof fn lemma_two_roundings(b: nat, exact: nat, rounded: nat, one: nat)
    requires
        rounded == round53(exact),
        b * exact <= pow2(51) * one,
    ensures
        round53(b * rounded) <= b * exact + one,
        b * exact <= round53(b * rounded) + one,
{
    lemma_pow2_127();
    let u: int = 0x20_0000_0000_0000;
    let w: int = 0x8_0000_0000_0000;
    vstd::arithmetic::power2::lemma2_to64_rest();
    lemma_round53_error(exact);
    lemma_round53_error(b * rounded);
    let s = (b * exact) as int;
    let t = (b * rounded) as int;
    let p = round53(b * rounded) as int;
    assert((u - 1) * s <= u * t <= (u + 1) * s) by (nonlinear_arith)
        requires
            (u - 1) * exact <= u * rounded <= (u + 1) * exact,
            s == b * exact,
            t == b * rounded,
    ;
    assert(s >= 0) by (nonlinear_arith)
        requires
            s == b * exact,
    ;
    assert(p <= s + one && s <= p + one);
}

/// For a time of up to `2^50` nanoseconds and an amplitude of at most one, the jittered time is no
/// more than a nanosecond past what the amplitude takes off the time and what it adds to it, both
/// cut off to whole nanoseconds. Of longer times `law_jitter_within_three_roundings` says how far
/// rounding moves them.
pub proof fn law_jitter_within_a_nanosecond(base: nat, r: u64, a: Amplitude)
    requires
        a.wf(),
        base <= pow2(50),
        a.reach() <= a.one(),
    ensures
        base * ((a.one() - a.reach()) as nat) / a.one() <= jittered(base, r, a) + 1,
        jittered(base, r, a) <= base * (a.one() + a.reach()) / a.one() + 1,
{
    lemma_pow2_127();
    vstd::arithmetic::power2::lemma2_to64_rest();
    law_jitter_range(base, r, a);
    lemma_part(0, a);
    lemma_pow2_strictly_increases(50, 53);
    lemma_round53_short(base);
    let one = a.one();
    let less = (one - a.reach()) as nat;
    let more = one + a.reach();
    let (low, high) = factor_range(a);
    lemma_round53_power(0);
    assert(low == round53(less)) by {
        assert(round53(0) == 0);
    }
    assert(base * less <= pow2(51) * one && base * more <= pow2(51) * one) by (nonlinear_arith)
        requires
            base <= pow2(50),
            2 * pow2(50) == pow2(51),
            less <= one,
            more <= 2 * one,
    ;
    lemma_two_roundings(base, less, low, one);
    lemma_two_roundings(base, more, high, one);
    let p = round53(base * low);
    let q = round53(base * high);
    lemma_one_more(p, one);
    lemma_one_more(base * more, one);
    lemma_div_is_ordered((base * less) as int, (p + one) as int, one as int);
    lemma_div_is_ordered(q as int, (base * more + one) as int, one as int);
    lemma_div_is_ordered((base * more) as int, (pow2(51) * one) as int, one as int);
    lemma_fundamental_div_mod_converse((pow2(51) * one) as int, one as int, pow2(51) as int, 0);
    assert(base * low <= base * high) by (nonlinear_arith)
        requires
            low <= high,
    ;
    lemma_round53_monotone(base * low, base * high);
    lemma_div_is_ordered(p as int, q as int, one as int);
}

/// The third power.
pub open spec fn cube(n: nat) -> nat {
    n * n * n
}

proof fn lemma_three_roundings(base: nat, exact: nat)
    ensures
        ({
            let p = round53(round53(base) * round53(exact));
            cube((pow2(53) - 1) as nat) * (base * exact) <= cube(pow2(53)) * p <= cube(pow2(53) + 1) * (base * exact)
        }),
{
    lemma_pow2_127();
    let u = pow2(53) as int;
    let b = round53(base);
    let x = round53(exact);
    let p = round53(b * x) as int;
    lemma_round53_error(base);
    lemma_round53_error(exact);
    lemma_round53_error(b * x);
    let s = (base * exact) as int;
    let t = (b * x) as int;
    assert(((u - 1) * base) * ((u - 1) * exact) <= (u * b) * (u * x)) by (nonlinear_arith)
        requires
            0 <= (u - 1) * base <= u * b,
            0 <= (u - 1) * exact <= u * x,
    ;
    assert((u * b) * (u * x) <= ((u + 1) * base) * ((u + 1) * exact)) by (nonlinear_arith)
        requires
            0 <= u * b <= (u + 1) * base,
            0 <= u * x <= (u + 1) * exact,
    ;
    let low = (u - 1) * (u - 1);
    let mid = u * u;
    let high = (u + 1) * (u + 1);
    assert(((u - 1) * base) * ((u - 1) * exact) == low * s) by (nonlinear_arith)
        requires
            s == base * exact,
            low == (u - 1) * (u - 1),
    ;
    assert((u * b) * (u * x) == mid * t) by (nonlinear_arith)
        requires
            t == b * x,
            mid == u * u,
    ;
    assert(((u + 1) * base) * ((u + 1) * exact) == high * s) by (nonlinear_arith)
        requires
            s == base * exact,
            high == (u + 1) * (u + 1),
    ;
    assert((low * (u - 1)) * s <= (mid * u) * p) by (nonlinear_arith)
        requires
            low * s <= mid * t,
            (u - 1) * t <= u * p,
            u >= 1,
            mid >= 0,
    {
        assert((u - 1) * (low * s) <= (u - 1) * (mid * t));
        assert(mid * ((u - 1) * t) <= mid * (u * p));
        assert((u - 1) * (mid * t) == mid * ((u - 1) * t));
    }
    assert((mid * u) * p <= (high * (u + 1)) * s) by (nonlinear_arith)
        requires
            mid * t <= high * s,
            u * p <= (u + 1) * t,
            u >= 1,
            mid >= 0,
    {
        assert(mid * (u * p) <= mid * ((u + 1) * t));
        assert((u + 1) * (mid * t) <= (u + 1) * (high * s));
        assert(mid * ((u + 1) * t) == (u + 1) * (mid * t));
    }
}

/// Whatever the time and the amplitude, three roundings to 53 bits separate the jittered time from
/// what the amplitude takes off the time and what it adds to it, before it is cut off to whole
/// nanoseconds and at the greatest 64-bit number.
pub proof fn law_jitter_within_three_roundings(base: nat, r: u64, a: Amplitude)
    requires
        a.wf(),
    ensures
        ({
            let t = jittered(base, r, a);
            &&& cube(pow2(53)) * (t * a.one()) <= cube(pow2(53) + 1) * (base * (a.one() + a.reach()))
            &&& a.reach() <= a.one() && t < u64::MAX ==> cube((pow2(53) - 1) as nat) * (base * (a.one() - a.reach())) < cube(pow2(53)) * ((t + 1) * a.one())
        }),
{
    lemma_pow2_127();
    law_jitter_range(base, r, a);
    lemma_part(0, a);
    let one = a.one();
    let t = jittered(base, r, a);
    let (low, high) = factor_range(a);
    let more = one + a.reach();
    let c = cube(pow2(53));
    assert(c > 0) by (nonlinear_arith)
        requires
            c == pow2(53) * pow2(53) * pow2(53),
            pow2(53) > 0,
    ;
    let q = round53(round53(base) * high);
    lemma_three_roundings(base, more);
    lemma_fundamental_div_mod(q as int, one as int);
    lemma_mod_bound(q as int, one as int);
    assert(c * (t * one) <= c * q) by (nonlinear_arith)
        requires
            t <= q / one,
            q == one * (q / one) + q % one,
            q % one >= 0,
            c > 0,
            one > 0,
    {
        assert(t * one <= one * (q / one));
    }
    if a.reach() <= one && t < u64::MAX {
        let less = (one - a.reach()) as nat;
        assert(low == round53(less)) by {
            assert(round53(0) == 0);
        }
        let p = round53(round53(base) * low);
        lemma_three_roundings(base, less);
        lemma_fundamental_div_mod(p as int, one as int);
        lemma_mod_bound(p as int, one as int);
        assert(c * p < c * ((t + 1) * one)) by (nonlinear_arith)
            requires
                p / one <= t,
                p == one * (p / one) + p % one,
                p % one < one,
                c > 0,
                one > 0,
        {
            assert(one * (p / one) <= one * t);
            assert(p < (t + 1) * one);
        }
    }
}

proof fn lemma_units_exact(a: Amplitude)
    requires
        a.wf(),
    ensures
        round53(a.units as nat) == a.units,
{
    lemma_pow2_127();
    if a.units == 0x20_0000_0000_0000 {
        lemma_round53_power(53);
    } else {
        lemma_bits_monotone(a.units as nat, (0x20_0000_0000_0000 - 1) as nat);
        lemma_bits_unique((0x20_0000_0000_0000 - 1) as nat, 53);
    }
}

/// A success takes a tenth off the multiplier, up to the rounding of some units in its last place,
/// but leaves it at one at least.
pub proof fn law_decay_takes_a_tenth(b: Backoff)
    requires
        b.wf(),
    ensures
        ({
            let m = b.mult as int;
            let after = b.decayed().mult as int;
            &&& 10 * after >= 9 * m - 100
            &&& after > 0x10_0000_0000_0000 ==> 10 * after <= 9 * m + 100
        }),
{
    lemma_pow2_127();
    lemma_pow2_adds(53, 52);
    lemma_decay(b.mult);
    let m = b.mult as int;
    let u = pow2(53) as int;
    let n = b.mult as nat * DECAY as nat;
    lemma_round53_error(n);
    let p = round53(n) as int;
    assert(10 * n <= 9 * m * u + 3 * m && 10 * n >= 9 * m * u) by (nonlinear_arith)
        requires
            n == m * DECAY,
            u == 0x20_0000_0000_0000,
            DECAY == 8_106_479_329_266_893,
            m >= 0,
    ;
    assert(u * p <= u * n + n && u * p >= u * n - n) by (nonlinear_arith)
        requires
            (u - 1) * n <= u * p <= (u + 1) * n,
    ;
    assert(n <= m * u && n <= 6 * u * u) by (nonlinear_arith)
        requires
            n == m * DECAY,
            u == 0x20_0000_0000_0000,
            DECAY == 8_106_479_329_266_893,
            0 <= m <= 0x50_0000_0000_0000,
    ;
    assert(p <= n + 6 * u && p >= n - 6 * u) by (nonlinear_arith)
        requires
            u * p <= u * n + n,
            u * p >= u * n - n,
            n <= 6 * u * u,
            u > 0,
    ;
    assert(10 * p <= 9 * m * u + 75 * u && 10 * p >= 9 * m * u - 60 * u) by (nonlinear_arith)
        requires
            p <= n + 6 * u,
            p >= n - 6 * u,
            10 * n <= 9 * m * u + 3 * m,
            10 * n >= 9 * m * u,
            m <= 0x50_0000_0000_0000,
            u == 0x20_0000_0000_0000,
    ;
    let q = p / u;
    lemma_fundamental_div_mod(p, u);
    lemma_mod_bound(p, u);
    assert(10 * q <= 9 * m + 75 && 10 * q >= 9 * m - 71) by (nonlinear_arith)
        requires
            p == u * q + p % u,
            0 <= p % u < u,
            10 * p <= 9 * m * u + 75 * u,
            10 * p >= 9 * m * u - 60 * u,
            u > 0,
    ;
    if p < pow2(105) {
        assert(9 * m <= 10 * 0x10_0000_0000_0000 + 60) by (nonlinear_arith)
            requires
                10 * p >= 9 * m * u - 60 * u,
                p < 0x10_0000_0000_0000 * u,
                u > 0,
        ;
    }
}

/// Under backoff a time is multiplied: two roundings to 53 bits separate the idle time from the base
/// time times the multiplier, which is counted in units of `2^-52`, before it is cut off to whole
/// nanoseconds and at the greatest 64-bit number.
pub proof fn law_backoff_multiplies_time(b: Backoff, base: nat)
    ensures
        ({
            let u = pow2(53) as int;
            let t = b.scaled(base);
            &&& u * u * (t * 0x10_0000_0000_0000) <= (u + 1) * (u + 1) * (base * b.mult)
            &&& t < u64::MAX ==> (u - 1) * (u - 1) * (base * b.mult) < u * u * ((t + 1) * 0x10_0000_0000_0000)
        }),
{
    lemma_pow2_127();
    let u = pow2(53) as int;
    let m = b.mult as int;
    let x = round53(base) as int;
    let s = (base * b.mult) as int;
    let y = round53(base) * b.mult as nat;
    let p = round53(y) as int;
    lemma_round53_error(base);
    lemma_round53_error(y);
    assert((u - 1) * (u - 1) * s <= u * u * p) by (nonlinear_arith)
        requires
            (u - 1) * base <= u * x,
            (u - 1) * y <= u * p,
            y == x * m,
            s == base * m,
            m >= 0,
            u > 1,
    {
        assert(((u - 1) * base) * m <= (u * x) * m);
        assert(((u - 1) * base) * m == (u - 1) * s);
        assert((u * x) * m == u * y);
        assert((u - 1) * ((u - 1) * s) <= (u - 1) * (u * y));
        assert((u - 1) * (u * y) == u * ((u - 1) * y));
        assert(u * ((u - 1) * y) <= u * (u * p));
    }
    assert(u * u * p <= (u + 1) * (u + 1) * s) by (nonlinear_arith)
        requires
            u * x <= (u + 1) * base,
            u * p <= (u + 1) * y,
            y == x * m,
            s == base * m,
            m >= 0,
            u > 1,
    {
        assert((u * x) * m <= ((u + 1) * base) * m);
        assert(((u + 1) * base) * m == (u + 1) * s);
        assert((u * x) * m == u * y);
        assert((u + 1) * (u * y) <= (u + 1) * ((u + 1) * s));
        assert(u * (u * p) <= u * ((u + 1) * y));
        assert(u * ((u + 1) * y) == (u + 1) * (u * y));
    }
    let one = pow2(52) as int;
    let q = p / one;
    lemma_fundamental_div_mod(p, one);
    lemma_mod_bound(p, one);
    let t = b.scaled(base) as int;
    assert(t * one <= p) by (nonlinear_arith)
        requires
            0 <= t <= q,
            p == one * q + p % one,
            p % one >= 0,
            one > 0,
    ;
    assert(u * u * (t * one) <= u * u * p) by (nonlinear_arith)
        requires
            t * one <= p,
            u > 0,
    ;
    if t < u64::MAX {
        assert(p < (t + 1) * one) by (nonlinear_arith)
            requires
                q == t,
                p == one * q + p % one,
                p % one < one,
        ;
        assert(u * u * p < u * u * ((t + 1) * one)) by (nonlinear_arith)
            requires
                p < (t + 1) * one,
                u > 0,
        ;
    }
}

/// The default amplitude is three tenths, to the nearest unit.
pub proof fn law_default_amplitude_is_three_tenths()
    ensures
        ({
            let a = Amplitude::three_tenths();
            &&& a.wf() && a.shift == 54
            &&& 20 * a.units - 10 <= 6 * pow2(54) <= 20 * a.units + 10
        }),
{
    lemma_pow2_127();
    lemma_pow2_adds(53, 1);
    vstd::arithmetic::power2::lemma2_to64();
}

proof fn lemma_part_monotone(near: nat, far: nat, a: Amplitude)
    requires
        near <= far,
    ensures
        a.part(near) <= a.part(far),
{
    lemma_round53_monotone(near, far);
    let x = round53(near);
    let y = round53(far);
    assert(x * a.units <= y * a.units) by (nonlinear_arith)
        requires
            0 <= x <= y,
            a.units >= 0,
    ;
    lemma_round53_monotone(x * a.units as nat, y * a.units as nat);
    let p = round53(x * a.units as nat);
    let q = round53(y * a.units as nat);
    assert(p * a.lift() <= q * a.lift()) by (nonlinear_arith)
        requires
            0 <= p <= q,
            a.lift() >= 0,
    ;
}

proof fn lemma_factor_monotone(small: nat, great: nat, a: Amplitude)
    requires
        small <= great,
    ensures
        a.factor_for(small) <= a.factor_for(great),
{
    let half = pow2(63);
    let one = a.one();
    if small >= half {
        lemma_part_monotone((small - half) as nat, (great - half) as nat, a);
        lemma_round53_monotone(one + a.part((small - half) as nat), one + a.part((great - half) as nat));
    } else {
        let p = a.part((half - small) as nat);
        if great >= half {
            if p < one {
                lemma_round53_monotone((one - p) as nat, one + a.part((great - half) as nat));
            }
        } else {
            lemma_part_monotone((half - great) as nat, (half - small) as nat, a);
            let q = a.part((half - great) as nat);
            if p < one {
                lemma_round53_monotone((one - p) as nat, (one - q) as nat);
            }
        }
    }
}

/// A greater random number never makes the time shorter. The least random number takes the whole
/// amplitude off the time, the greatest adds it, and the one in the middle leaves the factor at one.
pub proof fn law_jitter_follows_the_draw(base: nat, r: u64, s: u64, a: Amplitude)
    requires
        a.wf(),
        r <= s,
    ensures
        a.factor(r) <= a.factor(s),
        jittered(base, r, a) <= jittered(base, s, a),
        a.factor(0) == factor_range(a).0,
        a.factor(u64::MAX) == factor_range(a).1,
        a.factor(0x8000_0000_0000_0000) == a.one(),
{
    lemma_pow2_127();
    lemma_round53_monotone(r as nat, s as nat);
    lemma_factor_monotone(round53(r as nat), round53(s as nat), a);
    let b = round53(base);
    let f = a.factor(r);
    let g = a.factor(s);
    assert(b * f <= b * g) by (nonlinear_arith)
        requires
            0 <= f <= g,
            b >= 0,
    ;
    lemma_round53_monotone(b * f, b * g);
    lemma_part(0, a);
    lemma_div_is_ordered(round53(b * f) as int, round53(b * g) as int, a.one() as int);
    lemma_part_ends(a);
    lemma_round53_power(63);
    lemma_round53_power(64);
    assert(round53(0) == 0);
    lemma_round53_u64(u64::MAX);
    lemma_greatest_rounds_up();
    if 63 + a.shift >= 0 {
        lemma_round53_power((63 + a.shift) as nat);
    } else {
        lemma_round53_power(0);
        vstd::arithmetic::power2::lemma2_to64();
    }
}

proof fn lemma_greatest_rounds_up()
    ensures
        round53(u64::MAX as nat) == pow2(64),
{
    lemma_pow2_127();
    vstd::arithmetic::power2::lemma2_to64();
    let n = u64::MAX as nat;
    lemma_bits_unique(n, 64);
    assert(pow2(11) == 2048);
    assert(div_nearest(n, 2048) == 0x20_0000_0000_0000);
    assert(pow2(64) == 0x20_0000_0000_0000 * 2048);
}

proof fn lemma_part_ends(a: Amplitude)
    requires
        a.wf(),
    ensures
        a.part(pow2(63)) == a.reach(),
        a.part(0) == 0,
{
    lemma_pow2_127();
    lemma_round53_power(63);
    lemma_units_exact(a);
    lemma_round53_shift(a.units as nat, 63);
    assert(a.units as nat * pow2(63) == pow2(63) * a.units as nat) by (nonlinear_arith);
    assert(round53(0) == 0);
    assert(0 * a.units as nat == 0) by (nonlinear_arith);
    assert(0 * a.lift() == 0) by (nonlinear_arith);
}

/// The factor is one, plus or minus the amplitude times how far the draw is from the middle, up to
/// three roundings to 53 bits; where that is less than nothing it is zero.
pub proof fn law_factor_is_proportional_to_the_draw(drawn: nat, a: Amplitude)
    ensures
        ({
            let u = pow2(53) as int;
            let f = a.factor_for(drawn);
            let one = a.one();
            let exact = if drawn >= pow2(63) {
                ((drawn - pow2(63)) * a.units) * a.lift()
            } else {
                ((pow2(63) - drawn) * a.units) * a.lift()
            };
            &&& drawn >= pow2(63) ==> (u - 1) * (u * u * one + (u - 1) * (u - 1) * exact) <= u * u * u * f
                && u * u * u * f <= (u + 1) * (u * u * one + (u + 1) * (u + 1) * exact)
            &&& drawn < pow2(63) ==> (u - 1) * (u * u * one - (u + 1) * (u + 1) * exact) <= u * u * u * f && (f > 0
                ==> u * u * u * f <= (u + 1) * (u * u * one - (u - 1) * (u - 1) * exact))
        }),
{
    lemma_pow2_127();
    let u = pow2(53) as int;
    let one = a.one() as int;
    let away = if drawn >= pow2(63) {
        (drawn - pow2(63)) as nat
    } else {
        (pow2(63) - drawn) as nat
    };
    let x = round53(away);
    let m = a.units as int;
    let y = x * a.units as nat;
    let p = round53(y);
    let l = a.lift() as int;
    let part = a.part(away) as int;
    let exact = (away * a.units) * l;
    lemma_round53_error(away);
    lemma_round53_error(y);
    assert((u - 1) * (u - 1) * exact <= u * u * part <= (u + 1) * (u + 1) * exact) by {
        lemma_two_factors(u, away as int, x as int, m, p as int, l);
    }
    let f = a.factor_for(drawn) as int;
    if drawn >= pow2(63) {
        lemma_round53_error((one + part) as nat);
        lemma_sum_rounded(u, one, part, (u - 1) * (u - 1) * exact, (u + 1) * (u + 1) * exact, f);
    } else if part < one {
        lemma_round53_error((one - part) as nat);
        lemma_difference_rounded(u, one, part, (u - 1) * (u - 1) * exact, (u + 1) * (u + 1) * exact, f);
    } else {
        assert(f == 0);
        assert((u - 1) * (u * u * one - (u + 1) * (u + 1) * exact) <= 0 && u * u * u * f == 0) by (nonlinear_arith)
            requires
                u > 1,
                f == 0,
                u * u * part <= (u + 1) * (u + 1) * exact,
                part >= one,
        {
            assert(u * u * one <= u * u * part);
        }
    }
}

proof fn lemma_two_factors(u: int, away: int, x: int, m: int, p: int, l: int)
    requires
        u > 1,
        m >= 0,
        l >= 0,
        away >= 0,
        (u - 1) * away <= u * x <= (u + 1) * away,
        (u - 1) * (x * m) <= u * p <= (u + 1) * (x * m),
    ensures
        (u - 1) * (u - 1) * (away * m * l) <= u * u * (p * l) <= (u + 1) * (u + 1) * (away * m * l),
{
    assert((u - 1) * (u - 1) * (away * m) <= u * u * p <= (u + 1) * (u + 1) * (away * m)) by (nonlinear_arith)
        requires
            u > 1,
            m >= 0,
            (u - 1) * away <= u * x <= (u + 1) * away,
            (u - 1) * (x * m) <= u * p <= (u + 1) * (x * m),
    {
        assert((u - 1) * away * m <= u * x * m <= (u + 1) * away * m);
        assert((u - 1) * ((u - 1) * away * m) <= (u - 1) * (u * x * m));
        assert((u + 1) * (u * x * m) <= (u + 1) * ((u + 1) * away * m));
        assert(u * ((u - 1) * (x * m)) <= u * (u * p) <= u * ((u + 1) * (x * m)));
    }
    assert((u - 1) * (u - 1) * (away * m) * l <= u * u * p * l <= (u + 1) * (u + 1) * (away * m) * l) by (nonlinear_arith)
        requires
            l >= 0,
            (u - 1) * (u - 1) * (away * m) <= u * u * p <= (u + 1) * (u + 1) * (away * m),
    ;
    assert((u - 1) * (u - 1) * (away * m) * l == (u - 1) * (u - 1) * (away * m * l)) by (nonlinear_arith);
    assert((u + 1) * (u + 1) * (away * m) * l == (u + 1) * (u + 1) * (away * m * l)) by (nonlinear_arith);
    assert(u * u * p * l == u * u * (p * l)) by (nonlinear_arith);
}

proof fn lemma_sum_rounded(u: int, one: int, part: int, low: int, high: int, f: int)
    requires
        u > 1,
        low <= u * u * part <= high,
        (u - 1) * (one + part) <= u * f <= (u + 1) * (one + part),
    ensures
        (u - 1) * (u * u * one + low) <= u * u * u * f <= (u + 1) * (u * u * one + high),
{
    assert(u * u * (one + part) == u * u * one + u * u * part) by (nonlinear_arith);
    let s = u * u * (one + part);
    assert((u - 1) * s <= u * u * u * f <= (u + 1) * s) by (nonlinear_arith)
        requires
            u > 1,
            s == u * u * (one + part),
            (u - 1) * (one + part) <= u * f <= (u + 1) * (one + part),
    {
        assert(u * u * ((u - 1) * (one + part)) <= u * u * (u * f) <= u * u * ((u + 1) * (one + part)));
    }
    assert((u - 1) * (u * u * one + low) <= (u - 1) * s && (u + 1) * s <= (u + 1) * (u * u * one + high)) by (nonlinear_arith)
        requires
            u > 1,
            u * u * one + low <= s <= u * u * one + high,
    ;
}

proof fn lemma_difference_rounded(u: int, one: int, part: int, low: int, high: int, f: int)
    requires
        u > 1,
        low <= u * u * part <= high,
        (u - 1) * (one - part) <= u * f <= (u + 1) * (one - part),
    ensures
        (u - 1) * (u * u * one - high) <= u * u * u * f <= (u + 1) * (u * u * one - low),
{
    assert(u * u * (-part) == -(u * u * part)) by (nonlinear_arith);
    lemma_sum_rounded(u, one, -part, -high, -low, f);
}

} // verus!
