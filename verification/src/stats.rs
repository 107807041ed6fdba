//! Summary statistics for a batch of probe results.

use vstd::arithmetic::power2::pow2;
use vstd::prelude::*;

use crate::double::{lemma_rounded_root_near, nearest53, nearest_sqrt, ratio, ratio53, round53, sqrt53, Double};
use crate::duration::{nanos_of, Duration};
use crate::order::{ascending, insert_ascending, lemma_ascending, lemma_ascending_unique, sort_durations};

verus! {

/// What a batch of probes came to.
#[derive(Clone, Copy, Debug, PartialEq, Eq, Structural)]
pub struct Summary {
    /// All probes, the failed ones included.
    pub total: usize,
    /// The probes that were answered.
    pub successes: usize,
    pub min: Duration,
    pub max: Duration,
    pub mean: Duration,
    pub p50: Duration,
    pub p95: Duration,
    pub p99: Duration,
    pub stddev: Duration,
}

/// The sum of the numbers in `s`.
pub open spec fn sum_of(s: Seq<nat>) -> nat
    decreases s.len(),
{
    if s.len() == 0 {
        0
    } else {
        sum_of(s.drop_last()) + s.last()
    }
}

/// The square of the distance between `x` and `m`.
pub open spec fn squared_distance(x: nat, m: nat) -> nat {
    ((x - m) * (x - m)) as nat
}

/// The sum of the squared distances of the numbers in `s` from `m`.
pub open spec fn squares_of(s: Seq<nat>, m: nat) -> nat
    decreases s.len(),
{
    if s.len() == 0 {
        0
    } else {
        squares_of(s.drop_last(), m) + squared_distance(s.last(), m)
    }
}

/// The arithmetic mean, cut off behind the decimal point.
pub open spec fn mean_of(s: Seq<nat>) -> nat {
    sum_of(s) / s.len()
}

/// The mean squared distance from the mean, cut off behind the decimal point.
pub open spec fn variance_of(s: Seq<nat>) -> nat {
    squares_of(s, mean_of(s)) / s.len()
}

/// The nearest rank for `pct` per cent of `n` samples: the least whole number that is no less
/// than `pct` per cent of `n`, counted from one.
pub open spec fn nearest_rank(n: nat, pct: nat) -> nat {
    let capped = if pct > 100 { 100 } else { pct };
    let rank = (capped * n + 99) / 100;
    if rank == 0 {
        1
    } else {
        rank
    }
}

/// The nearest-rank percentile of `s`.
pub open spec fn percentile_of(s: Seq<nat>, pct: nat) -> nat {
    ascending(s)[nearest_rank(s.len(), pct) - 1]
}

/// The sums behind the mean and the variance of `s` stay within 128-bit arithmetic, signed for
/// the single squares and unsigned for the sums.
pub open spec fn spread_fits(s: Seq<nat>) -> bool {
    s.len() > 0 ==> {
        &&& sum_of(s) <= u128::MAX
        &&& squares_of(s, mean_of(s)) <= u128::MAX
        &&& forall|i: int| 0 <= i < s.len() ==> #[trigger] squared_distance(s[i], mean_of(s)) <= i128::MAX
    }
}

/// `x` summarizes the round trips `s`, in nanoseconds, out of `total` probes.
pub open spec fn summarizes(x: Summary, s: Seq<nat>, total: nat) -> bool {
    &&& x.total == total
    &&& x.successes == s.len()
    &&& x.min@ == ascending(s)[0]
    &&& x.max@ == ascending(s).last()
    &&& x.mean@ == mean_of(s) % 0x1_0000_0000_0000_0000
    &&& x.p50@ == percentile_of(s, 50)
    &&& x.p95@ == percentile_of(s, 95)
    &&& x.p99@ == percentile_of(s, 99)
    &&& x.stddev@ == sqrt53(round53(variance_of(s)))
}

/// Successful answers out of `total` queries.
pub open spec fn reliability_of(successes: nat, total: nat) -> Double {
    if total == 0 {
        Double { mant: 0, exp: 0 }
    } else {
        ratio53(successes, total)
    }
}

impl Summary {
    /// Successful answers divided by all queries; zero where there was none.
    pub fn reliability(&self) -> (r: Double)
        ensures
            r == reliability_of(self.successes as nat, self.total as nat),
            r.small(),
            r.normal(),
    {
        if self.total == 0 {
            Double { mant: 0, exp: 0 }
        } else {
            ratio(self.successes as u64, self.total as u64)
        }
    }
}

proof fn lemma_sum_monotone(s: Seq<nat>, k: int)
    requires
        0 <= k <= s.len(),
    ensures
        sum_of(s.take(k)) <= sum_of(s),
    decreases s.len(),
{
    if k == s.len() {
        assert(s.take(k) == s);
    } else {
        lemma_sum_monotone(s.drop_last(), k);
        assert(s.drop_last().take(k) == s.take(k));
    }
}

proof fn lemma_squares_monotone(s: Seq<nat>, m: nat, k: int)
    requires
        0 <= k <= s.len(),
    ensures
        squares_of(s.take(k), m) <= squares_of(s, m),
    decreases s.len(),
{
    if k == s.len() {
        assert(s.take(k) == s);
    } else {
        lemma_squares_monotone(s.drop_last(), m, k);
        assert(s.drop_last().take(k) == s.take(k));
    }
}

/// Whether the sums behind the mean and the variance of `rtts` stay within 128-bit arithmetic.
pub fn spread_is_bounded(rtts: &Vec<Duration>) -> (r: bool)
    ensures
        r == spread_fits(nanos_of(rtts@)),
{
    let ghost s = nanos_of(rtts@);
    if rtts.len() == 0 {
        return true;
    }
    let mut sum: u128 = 0;
    let mut i: usize = 0;
    assert(s.take(0) == Seq::<nat>::empty());
    while i < rtts.len()
        invariant
            i <= rtts.len(),
            s == nanos_of(rtts@),
            s.len() > 0,
            sum == sum_of(s.take(i as int)),
        decreases rtts.len() - i,
    {
        proof {
            assert(s.take(i + 1).drop_last() == s.take(i as int));
            lemma_sum_monotone(s, i + 1);
        }
        match sum.checked_add(rtts[i].as_nanos()) {
            Some(t) => {
                sum = t;
            },
            None => {
                return false;
            },
        }
        i = i + 1;
    }
    assert(s.take(s.len() as int) == s);
    let mean: u128 = sum / (rtts.len() as u128);
    let mut squares: u128 = 0;
    let mut j: usize = 0;
    while j < rtts.len()
        invariant
            j <= rtts.len(),
            s == nanos_of(rtts@),
            s.len() > 0,
            sum_of(s) <= u128::MAX,
            mean == mean_of(s),
            squares == squares_of(s.take(j as int), mean as nat),
            forall|i: int| 0 <= i < j ==> #[trigger] squared_distance(s[i], mean_of(s)) <= i128::MAX,
        decreases rtts.len() - j,
    {
        proof {
            assert(s.take(j + 1).drop_last() == s.take(j as int));
            lemma_squares_monotone(s, mean as nat, j + 1);
        }
        let x: u128 = rtts[j].as_nanos();
        let d: u128 = if x >= mean {
            x - mean
        } else {
            mean - x
        };
        assert(s[j as int] == x);
        assert(d * d == squared_distance(s[j as int], mean_of(s))) by (nonlinear_arith)
            requires
                d == x - mean || d == mean - x,
                s[j as int] == x,
                mean == mean_of(s),
        ;
        match d.checked_mul(d) {
            Some(q) => {
                if q > 0x7fff_ffff_ffff_ffff_ffff_ffff_ffff_ffff {
                    return false;
                }
                match squares.checked_add(q) {
                    Some(t) => {
                        squares = t;
                    },
                    None => {
                        return false;
                    },
                }
            },
            None => {
                return false;
            },
        }
        j = j + 1;
    }
    true
}

/// Build a summary from successful round trips and a total (successes and failures) count.
pub fn summarize(rtts: Vec<Duration>, total: usize) -> (r: Option<Summary>)
    requires
        spread_fits(nanos_of(rtts@)),
    ensures
        r is Some <==> rtts.len() > 0,
        r matches Some(x) ==> summarizes(x, nanos_of(rtts@), total as nat),
{
    if rtts.len() == 0 {
        return None;
    }
    let ghost s = nanos_of(rtts@);
    let sorted = sort_durations(&rtts);
    let successes: usize = rtts.len();
    proof {
        lemma_ascending(s);
    }
    let min = sorted[0];
    let max = sorted[successes - 1];
    assert(min@ == nanos_of(sorted@)[0]);
    assert(max@ == nanos_of(sorted@).last());

    let mut sum_nanos: u128 = 0;
    let mut i: usize = 0;
    assert(s.take(0) == Seq::<nat>::empty());
    while i < rtts.len()
        invariant
            i <= rtts.len(),
            s == nanos_of(rtts@),
            sum_nanos == sum_of(s.take(i as int)),
            sum_of(s) <= u128::MAX,
        decreases rtts.len() - i,
    {
        proof {
            assert(s.take(i + 1).drop_last() == s.take(i as int));
            lemma_sum_monotone(s, i + 1);
        }
        sum_nanos = sum_nanos + rtts[i].as_nanos();
        i = i + 1;
    }
    assert(s.take(s.len() as int) == s);
    let mean_nanos: u128 = sum_nanos / (successes as u128);
    let mean = Duration::from_nanos((mean_nanos % 0x1_0000_0000_0000_0000) as u64);

    let mut squares: u128 = 0;
    let mut j: usize = 0;
    while j < rtts.len()
        invariant
            j <= rtts.len(),
            s == nanos_of(rtts@),
            mean_nanos == mean_of(s),
            squares == squares_of(s.take(j as int), mean_nanos as nat),
            squares_of(s, mean_of(s)) <= u128::MAX,
            forall|i: int| 0 <= i < s.len() ==> #[trigger] squared_distance(s[i], mean_of(s)) <= i128::MAX,
        decreases rtts.len() - j,
    {
        proof {
            assert(s.take(j + 1).drop_last() == s.take(j as int));
            lemma_squares_monotone(s, mean_nanos as nat, j + 1);
        }
        let x: u128 = rtts[j].as_nanos();
        let d: u128 = if x >= mean_nanos {
            x - mean_nanos
        } else {
            mean_nanos - x
        };
        assert(s[j as int] == x);
        assert(d * d == squared_distance(s[j as int], mean_of(s))) by (nonlinear_arith)
            requires
                d == x - mean_nanos || d == mean_nanos - x,
                s[j as int] == x,
                mean_nanos == mean_of(s),
        ;
        squares = squares + d * d;
        j = j + 1;
    }
    let variance: u128 = squares / (successes as u128);
    proof {
        lemma_variance_bound(s);
    }
    let stddev = Duration::from_nanos(nearest_sqrt(nearest53(variance)));

    Some(
        Summary {
            total,
            successes,
            min,
            max,
            mean,
            p50: percentile(&sorted, 50),
            p95: percentile(&sorted, 95),
            p99: percentile(&sorted, 99),
            stddev,
        },
    )
}

/// The mean of numbers below a bound lies below it.
proof fn lemma_squares_bound(s: Seq<nat>, m: nat, bound: nat)
    requires
        forall|i: int| 0 <= i < s.len() ==> #[trigger] squared_distance(s[i], m) <= bound,
    ensures
        squares_of(s, m) <= s.len() * bound,
    decreases s.len(),
{
    if s.len() > 0 {
        let t = s.drop_last();
        assert forall|i: int| 0 <= i < t.len() implies #[trigger] squared_distance(t[i], m) <= bound by {
            assert(t[i] == s[i]);
        }
        lemma_squares_bound(t, m, bound);
        assert(squared_distance(s[s.len() - 1], m) <= bound);
        assert(s.len() * bound == t.len() * bound + bound) by (nonlinear_arith)
            requires
                s.len() == t.len() + 1,
        ;
    } else {
        assert(s.len() * bound == 0) by (nonlinear_arith)
            requires
                s.len() == 0,
        ;
    }
}

proof fn lemma_variance_bound(s: Seq<nat>)
    requires
        spread_fits(s),
        s.len() > 0,
    ensures
        variance_of(s) <= i128::MAX,
{
    let n = s.len();
    let q = squares_of(s, mean_of(s));
    let bound = i128::MAX as nat;
    lemma_squares_bound(s, mean_of(s), bound);
    assert(q / n <= bound) by (nonlinear_arith)
        requires
            q <= n * bound,
            n > 0,
    ;
}

/// Nearest-rank percentile: `pct` per cent of the samples do not exceed it.
fn percentile(sorted: &Vec<Duration>, pct: u8) -> (r: Duration)
    requires
        sorted.len() > 0,
    ensures
        r@ == nanos_of(sorted@)[nearest_rank(sorted.len() as nat, pct as nat) - 1],
        1 <= nearest_rank(sorted.len() as nat, pct as nat) <= sorted.len(),
{
    let n: u128 = sorted.len() as u128;
    let capped: u128 = if pct > 100 {
        100
    } else {
        pct as u128
    };
    proof {
        lemma_rank(n as nat, pct as nat);
        assert(0 <= capped * n <= 100 * n) by (nonlinear_arith)
            requires
                0 <= capped <= 100,
                n >= 0,
        ;
    }
    let rank: u128 = (capped * n + 99) / 100;
    if rank == 0 {
        sorted[0]
    } else {
        sorted[rank as usize - 1]
    }
}

/// A nearest rank lies within the samples.
pub proof fn lemma_rank(n: nat, pct: nat)
    requires
        n > 0,
    ensures
        1 <= nearest_rank(n, pct) <= n,
{
    let capped = if pct > 100 { 100 } else { pct };
    assert(capped * n <= 100 * n) by (nonlinear_arith)
        requires
            capped <= 100,
            n > 0,
    ;
}

/// The order statistics of a summary never cross: from the fastest round trip over the median
/// and the two tail percentiles to the slowest, each is at least the one before.
pub proof fn law_order_statistics_ascend(x: Summary, s: Seq<nat>, total: nat)
    requires
        s.len() > 0,
        summarizes(x, s, total),
    ensures
        x.min@ <= x.p50@ <= x.p95@ <= x.p99@ <= x.max@,
{
    let n = s.len();
    lemma_ascending(s);
    lemma_rank(n, 50);
    lemma_rank(n, 95);
    lemma_rank(n, 99);
    assert(nearest_rank(n, 50) <= nearest_rank(n, 95) <= nearest_rank(n, 99));
}

/// The order in which the round trips came in does not matter to the summary.
pub proof fn law_sample_order_irrelevant(x: Summary, s: Seq<nat>, t: Seq<nat>, total: nat)
    requires
        s.to_multiset() == t.to_multiset(),
    ensures
        summarizes(x, s, total) == summarizes(x, t, total),
{
    lemma_ascending(s);
    lemma_ascending(t);
    lemma_ascending_unique(ascending(s), ascending(t));
    lemma_sum_of_ascending(s);
    lemma_sum_of_ascending(t);
    lemma_squares_of_ascending(s, mean_of(s));
    lemma_squares_of_ascending(t, mean_of(t));
}

proof fn lemma_sum_of_insert(s: Seq<nat>, x: nat)
    ensures
        sum_of(insert_ascending(s, x)) == sum_of(s) + x,
    decreases s.len(),
{
    if s.len() == 0 || s.last() <= x {
        assert(s.push(x).drop_last() == s);
    } else {
        lemma_sum_of_insert(s.drop_last(), x);
        let u = insert_ascending(s.drop_last(), x);
        assert(u.push(s.last()).drop_last() == u);
    }
}

proof fn lemma_sum_of_ascending(s: Seq<nat>)
    ensures
        sum_of(ascending(s)) == sum_of(s),
    decreases s.len(),
{
    if s.len() > 0 {
        lemma_sum_of_ascending(s.drop_last());
        lemma_sum_of_insert(ascending(s.drop_last()), s.last());
    }
}

proof fn lemma_squares_of_insert(s: Seq<nat>, x: nat, m: nat)
    ensures
        squares_of(insert_ascending(s, x), m) == squares_of(s, m) + squared_distance(x, m),
    decreases s.len(),
{
    if s.len() == 0 || s.last() <= x {
        assert(s.push(x).drop_last() == s);
    } else {
        lemma_squares_of_insert(s.drop_last(), x, m);
        let u = insert_ascending(s.drop_last(), x);
        assert(u.push(s.last()).drop_last() == u);
    }
}

proof fn lemma_squares_of_ascending(s: Seq<nat>, m: nat)
    ensures
        squares_of(ascending(s), m) == squares_of(s, m),
    decreases s.len(),
{
    if s.len() > 0 {
        lemma_squares_of_ascending(s.drop_last(), m);
        lemma_squares_of_insert(ascending(s.drop_last()), s.last(), m);
    }
}

/// A percentile is the nearest rank: at least `pct` per cent of the samples do not exceed it, and
/// the samples that stand before it in ascending order are fewer than that.
pub proof fn law_percentile_is_nearest_rank(s: Seq<nat>, pct: nat)
    requires
        s.len() > 0,
        0 < pct <= 100,
    ensures
        ({
            let v = ascending(s);
            let rank = nearest_rank(s.len(), pct);
            &&& v.to_multiset() == s.to_multiset()
            &&& 1 <= rank <= s.len()
            &&& percentile_of(s, pct) == v[rank - 1]
            &&& 100 * rank >= pct * s.len()
            &&& 100 * (rank - 1) < pct * s.len()
            &&& forall|i: int| 0 <= i < rank ==> v[i] <= percentile_of(s, pct)
            &&& forall|i: int| rank <= i < s.len() ==> v[i] >= percentile_of(s, pct)
        }),
{
    lemma_ascending(s);
    lemma_rank(s.len(), pct);
    assert(pct * s.len() > 0) by (nonlinear_arith)
        requires
            pct > 0,
            s.len() > 0,
    ;
}

proof fn lemma_sum_between(s: Seq<nat>, low: nat, high: nat)
    requires
        forall|i: int| 0 <= i < s.len() ==> low <= #[trigger] s[i] <= high,
    ensures
        s.len() * low <= sum_of(s) <= s.len() * high,
    decreases s.len(),
{
    let n = s.len();
    if n > 0 {
        let t = s.drop_last();
        lemma_sum_between(t, low, high);
        assert(low <= s[n - 1] <= high);
        assert(n * low == t.len() * low + low && n * high == t.len() * high + high) by (nonlinear_arith)
            requires
                n == t.len() + 1,
        ;
    } else {
        assert(n * low == 0 && n * high == 0) by (nonlinear_arith)
            requires
                n == 0,
        ;
    }
}

/// The mean lies between the fastest and the slowest round trip.
pub proof fn law_mean_within_range(s: Seq<nat>)
    requires
        s.len() > 0,
    ensures
        ascending(s)[0] <= mean_of(s) <= ascending(s).last(),
{
    lemma_ascending(s);
    lemma_sum_of_ascending(s);
    let v = ascending(s);
    let low = v[0];
    let high = v.last();
    let n = s.len();
    let sum = sum_of(s);
    lemma_sum_between(v, low, high);
    assert(low <= sum / n <= high) by (nonlinear_arith)
        requires
            n * low <= sum <= n * high,
            n > 0,
    ;
}

/// Where every query was answered the reliability is exactly one, and where none was it is zero. It
/// is never above one; and where not every query was answered it is below one, as long as there
/// were fewer than `2^53` of them.
pub proof fn law_reliability_bounds(successes: u64, n: u64)
    requires
        n > 0,
        successes <= n,
    ensures
        ({
            let one = Double { mant: 0x10_0000_0000_0000, exp: (-52) as i32 };
            &&& reliability_of(n as nat, n as nat) == one
            &&& reliability_of(0, n as nat) == (Double { mant: 0, exp: 0 })
            &&& !one.spec_below(reliability_of(successes as nat, n as nat))
            &&& successes < n < 0x20_0000_0000_0000 ==> reliability_of(successes as nat, n as nat).spec_below(one)
        }),
{
    crate::double::lemma_round53_u64(n);
    crate::double::lemma_quotient_of_equals(round53(n as nat));
    assert(round53(0) == 0);
    crate::double::lemma_round53_monotone(successes as nat, n as nat);
    crate::double::lemma_pow2_127();
    crate::double::lemma_quotient_to_one(round53(successes as nat), round53(n as nat));
    if n < 0x20_0000_0000_0000 {
        crate::double::lemma_round53_short(n as nat);
        crate::double::lemma_round53_short(successes as nat);
    }
}

proof fn lemma_bounded_sums(s: Seq<nat>, m: nat, top: nat)
    requires
        forall|i: int| 0 <= i < s.len() ==> #[trigger] s[i] <= top,
        m <= top,
    ensures
        sum_of(s) <= s.len() * top,
        squares_of(s, m) <= s.len() * (top * top),
    decreases s.len(),
{
    if s.len() > 0 {
        lemma_bounded_sums(s.drop_last(), m, top);
        let x = s.last();
        assert(s[s.len() - 1] <= top);
        lemma_bounded_square(x, m, top);
        let n = s.len();
        assert((n - 1) * top + top == n * top) by (nonlinear_arith);
        assert((n - 1) * (top * top) + top * top == n * (top * top)) by (nonlinear_arith);
    }
}

proof fn lemma_bounded_square(x: nat, m: nat, top: nat)
    requires
        x <= top,
        m <= top,
    ensures
        squared_distance(x, m) <= top * top,
{
    assert((x - m) * (x - m) <= top * top && (x - m) * (x - m) >= 0) by (nonlinear_arith)
        requires
            0 <= x <= top,
            0 <= m <= top,
    ;
}

/// Some trillion round trips of up to an hour each stay within the arithmetic.
pub proof fn law_ordinary_times_fit(s: Seq<nat>)
    requires
        s.len() <= 0x800_0000_0000,
        forall|i: int| 0 <= i < s.len() ==> #[trigger] s[i] <= 3_600_000_000_000,
    ensures
        spread_fits(s),
{
    if s.len() > 0 {
        let top = 3_600_000_000_000nat;
        let n = s.len();
        lemma_bounded_sums(s, 0, top);
        assert(sum_of(s) / n <= top) by (nonlinear_arith)
            requires
                sum_of(s) <= n * top,
                n > 0,
        ;
        let m = mean_of(s);
        lemma_bounded_sums(s, m, top);
        assert(n * top <= u128::MAX && n * (top * top) <= u128::MAX) by (nonlinear_arith)
            requires
                0 < n <= 0x800_0000_0000,
                top == 3_600_000_000_000,
        ;
        assert forall|i: int| 0 <= i < n implies #[trigger] squared_distance(s[i], m) <= i128::MAX by {
            lemma_bounded_square(s[i], m, top);
        }
    }
}

/// How many of the numbers do not exceed `t`.
pub open spec fn at_most(s: Seq<nat>, t: nat) -> nat
    decreases s.len(),
{
    if s.len() == 0 {
        0
    } else {
        at_most(s.drop_last(), t) + (if s.last() <= t {
            1nat
        } else {
            0
        })
    }
}

/// How many of the numbers are below `t`.
pub open spec fn below(s: Seq<nat>, t: nat) -> nat
    decreases s.len(),
{
    if s.len() == 0 {
        0
    } else {
        below(s.drop_last(), t) + (if s.last() < t {
            1nat
        } else {
            0
        })
    }
}

proof fn lemma_counts_of_insert(s: Seq<nat>, x: nat, t: nat)
    ensures
        at_most(insert_ascending(s, x), t) == at_most(s, t) + (if x <= t {
            1nat
        } else {
            0
        }),
        below(insert_ascending(s, x), t) == below(s, t) + (if x < t {
            1nat
        } else {
            0
        }),
    decreases s.len(),
{
    if s.len() == 0 || s.last() <= x {
        assert(s.push(x).drop_last() == s);
    } else {
        lemma_counts_of_insert(s.drop_last(), x, t);
        let u = insert_ascending(s.drop_last(), x);
        assert(u.push(s.last()).drop_last() == u);
    }
}

proof fn lemma_counts_of_ascending(s: Seq<nat>, t: nat)
    ensures
        at_most(ascending(s), t) == at_most(s, t),
        below(ascending(s), t) == below(s, t),
    decreases s.len(),
{
    if s.len() > 0 {
        lemma_counts_of_ascending(s.drop_last(), t);
        lemma_counts_of_insert(ascending(s.drop_last()), s.last(), t);
    }
}

proof fn lemma_counts_by_rank(v: Seq<nat>, k: int, t: nat)
    requires
        0 <= k <= v.len(),
    ensures
        (forall|i: int| 0 <= i < k ==> #[trigger] v[i] <= t) ==> at_most(v, t) >= k,
        (forall|i: int| k <= i < v.len() ==> #[trigger] v[i] >= t) ==> below(v, t) <= k,
    decreases v.len(),
{
    if v.len() > 0 {
        if k == v.len() {
            lemma_counts_by_rank(v.drop_last(), k - 1, t);
            lemma_below_len(v.drop_last(), t);
            if forall|i: int| 0 <= i < k ==> #[trigger] v[i] <= t {
                assert(v[k - 1] <= t);
                assert(forall|i: int| 0 <= i < k - 1 ==> #[trigger] v.drop_last()[i] == v[i]);
            }
        } else {
            lemma_counts_by_rank(v.drop_last(), k, t);
            assert(forall|i: int| 0 <= i < v.len() - 1 ==> #[trigger] v.drop_last()[i] == v[i]);
            if forall|i: int| k <= i < v.len() ==> #[trigger] v[i] >= t {
                assert(v[v.len() - 1] >= t);
            }
        }
    }
}

proof fn lemma_below_len(v: Seq<nat>, t: nat)
    ensures
        below(v, t) <= v.len(),
    decreases v.len(),
{
    if v.len() > 0 {
        lemma_below_len(v.drop_last(), t);
    }
}

proof fn lemma_percentile_counts(s: Seq<nat>, pct: nat)
    requires
        s.len() > 0,
        0 < pct <= 100,
    ensures
        100 * at_most(s, percentile_of(s, pct)) >= pct * s.len(),
        100 * below(s, percentile_of(s, pct)) < pct * s.len(),
        s.contains(percentile_of(s, pct)),
{
    law_percentile_is_nearest_rank(s, pct);
    lemma_ascending(s);
    let v = ascending(s);
    let t = percentile_of(s, pct);
    let rank = nearest_rank(s.len(), pct);
    lemma_counts_of_ascending(s, t);
    lemma_counts_by_rank(v, rank as int, t);
    assert forall|i: int| rank - 1 <= i < v.len() implies #[trigger] v[i] >= t by {}
    lemma_counts_by_rank(v, rank - 1, t);
    s.to_multiset_ensures();
    v.to_multiset_ensures();
    assert(v.contains(t));
    assert(v.to_multiset().count(t) > 0);
}

/// What the figures of a summary mean. The median, the 95th and the 99th percentile are round trips
/// that were measured: half of all, 95 and 99 per cent of all do not exceed them, and fewer are below
/// them. Nothing measured is below the minimum or above the maximum, which were both measured. The
/// mean, cut off, times the number of round trips is their sum, up to less than that number; of a mean
/// that takes more than 64 bits the lower 64 are given.
pub proof fn law_summary_figures(x: Summary, s: Seq<nat>, total: nat)
    requires
        s.len() > 0,
        summarizes(x, s, total),
    ensures
        x.total == total,
        x.successes == s.len(),
        100 * at_most(s, x.p50@) >= 50 * s.len() && 100 * below(s, x.p50@) < 50 * s.len() && s.contains(x.p50@),
        100 * at_most(s, x.p95@) >= 95 * s.len() && 100 * below(s, x.p95@) < 95 * s.len() && s.contains(x.p95@),
        100 * at_most(s, x.p99@) >= 99 * s.len() && 100 * below(s, x.p99@) < 99 * s.len() && s.contains(x.p99@),
        forall|i: int| 0 <= i < s.len() ==> x.min@ <= #[trigger] s[i] <= x.max@,
        s.contains(x.min@) && s.contains(x.max@),
        sum_of(s) < 0x1_0000_0000_0000_0000 * s.len() ==> x.mean@ * s.len() <= sum_of(s) < (x.mean@ + 1) * s.len(),
        (sum_of(s) / s.len() - x.mean@) % 0x1_0000_0000_0000_0000 == 0,
        x.mean@ < 0x1_0000_0000_0000_0000,
{
    lemma_percentile_counts(s, 50);
    lemma_percentile_counts(s, 95);
    lemma_percentile_counts(s, 99);
    lemma_ascending(s);
    let v = ascending(s);
    s.to_multiset_ensures();
    v.to_multiset_ensures();
    assert forall|i: int| 0 <= i < s.len() implies x.min@ <= #[trigger] s[i] <= x.max@ by {
        assert(s.contains(s[i]));
        assert(s.to_multiset().count(s[i]) > 0);
        assert(v.contains(s[i]));
        let k = choose|k: int| 0 <= k < v.len() && v[k] == s[i];
    }
    assert(v.contains(v[0]) && v.contains(v.last()));
    assert(v.to_multiset().count(v[0]) > 0 && v.to_multiset().count(v.last()) > 0);
    let n = s.len() as int;
    let sum = sum_of(s) as int;
    vstd::arithmetic::div_mod::lemma_fundamental_div_mod(sum, n);
    vstd::arithmetic::div_mod::lemma_mod_bound(sum, n);
    let m = sum / n;
    assert(0 <= m <= sum) by (nonlinear_arith)
        requires
            sum == n * m + sum % n,
            0 <= sum % n < n,
            sum >= 0,
            n > 0,
            m == sum / n,
    ;
    assert(m * n <= sum < (m + 1) * n) by (nonlinear_arith)
        requires
            sum == n * m + sum % n,
            0 <= sum % n < n,
    ;
    if sum < 0x1_0000_0000_0000_0000 * n {
        assert(m < 0x1_0000_0000_0000_0000) by (nonlinear_arith)
            requires
                m * n <= sum < 0x1_0000_0000_0000_0000 * n,
                n > 0,
        ;
    }
}

/// The sum of two lists is the sum of their sums, and that of one number the number.
pub proof fn law_sums_add_up(s: Seq<nat>, t: Seq<nat>, x: nat)
    ensures
        sum_of(s + t) == sum_of(s) + sum_of(t),
        sum_of(seq![x]) == x,
    decreases t.len(),
{
    assert(seq![x].drop_last() =~= Seq::empty());
    assert(sum_of(Seq::empty()) == 0);
    if t.len() == 0 {
        assert(s + t =~= s);
    } else {
        law_sums_add_up(s, t.drop_last(), x);
        assert((s + t).drop_last() =~= s + t.drop_last());
    }
}

/// The sum of the distances squared, on its own terms: over two lists it is the sum over each, and for
/// one number it is its difference from `m`, times itself.
pub proof fn law_squares_add_up(s: Seq<nat>, t: Seq<nat>, m: nat, d: nat)
    ensures
        squares_of(s + t, m) == squares_of(s, m) + squares_of(t, m),
        squares_of(seq![(m + d) as nat], m) == d * d,
        d <= m ==> squares_of(seq![(m - d) as nat], m) == d * d,
    decreases t.len(),
{
    let up = seq![(m + d) as nat];
    assert(up.drop_last() =~= Seq::empty());
    assert(squares_of(up.drop_last(), m) == 0);
    assert(up.last() - m == d);
    if d <= m {
        let down = seq![(m - d) as nat];
        assert(down.drop_last() =~= Seq::empty());
        assert(squares_of(down.drop_last(), m) == 0);
        assert((down.last() - m) * (down.last() - m) == d * d) by (nonlinear_arith)
            requires
                down.last() - m == -d,
        ;
    }
    if t.len() == 0 {
        assert(s + t =~= s);
    } else {
        law_squares_add_up(s, t.drop_last(), m, d);
        assert((s + t).drop_last() =~= s + t.drop_last());
    }
}

/// The standard deviation is the root of the mean squared distance of the round trips from their
/// mean: its square is that, up to an error of less than two nanoseconds in the root.
pub proof fn law_stddev_is_root_of_variance(x: Summary, s: Seq<nat>, total: nat)
    requires
        s.len() > 0,
        summarizes(x, s, total),
        squares_of(s, sum_of(s) / s.len()) / s.len() < pow2(104),
    ensures
        ({
            let variance = squares_of(s, sum_of(s) / s.len()) / s.len();
            let d = x.stddev@ as int;
            variance < (d + 2) * (d + 2) && (d >= 2 ==> (d - 2) * (d - 2) <= variance)
        }),
{
    lemma_rounded_root_near(variance_of(s));
}

/// Round trips that are all the same do not deviate.
pub proof fn law_equal_times_do_not_deviate(x: Summary, s: Seq<nat>, total: nat, t: nat)
    requires
        s.len() > 0,
        summarizes(x, s, total),
        forall|i: int| 0 <= i < s.len() ==> #[trigger] s[i] == t,
    ensures
        x.stddev@ == 0,
        x.min@ == t && x.max@ == t && x.p50@ == t && x.p95@ == t && x.p99@ == t,
        t < 0x1_0000_0000_0000_0000 ==> x.mean@ == t,
{
    lemma_equal_sums(s, t);
    let n = s.len();
    assert(n * t == t * n) by (nonlinear_arith);
    vstd::arithmetic::div_mod::lemma_fundamental_div_mod_converse((n * t) as int, n as int, t as int, 0);
    vstd::arithmetic::div_mod::lemma_fundamental_div_mod_converse(0, n as int, 0, 0);
    assert(variance_of(s) == 0);
    assert(round53(0) == 0);
    crate::double::lemma_pow2_127();
    crate::double::lemma_sqrt53_zero();
    lemma_ascending(s);
    lemma_percentile_counts(s, 50);
    lemma_percentile_counts(s, 95);
    lemma_percentile_counts(s, 99);
    let v = ascending(s);
    s.to_multiset_ensures();
    v.to_multiset_ensures();
    assert(v.contains(v[0]) && v.contains(v.last()));
    assert(v.to_multiset().count(v[0]) > 0 && v.to_multiset().count(v.last()) > 0);
    assert(s.contains(v[0]) && s.contains(v.last()));
}

proof fn lemma_equal_sums(s: Seq<nat>, t: nat)
    requires
        forall|i: int| 0 <= i < s.len() ==> #[trigger] s[i] == t,
    ensures
        sum_of(s) == s.len() * t,
        squares_of(s, t) == 0,
    decreases s.len(),
{
    if s.len() > 0 {
        assert(forall|i: int| 0 <= i < s.len() - 1 ==> #[trigger] s.drop_last()[i] == s[i]);
        lemma_equal_sums(s.drop_last(), t);
        assert(s[s.len() - 1] == t);
        let n = s.len();
        assert((n - 1) * t + t == n * t) by (nonlinear_arith);
    } else {
        assert(0 * t == 0);
    }
}

/// The reliability is the share of answered probes: for fewer than `2^53` probes, no more than half a
/// unit in its last place off.
pub proof fn law_reliability_is_share(successes: nat, total: nat)
    requires
        0 < successes <= total < pow2(53),
    ensures
        ({
            let r = reliability_of(successes, total);
            let one = pow2((-r.exp) as nat);
            &&& r.mant >= pow2(52) && r.exp < 0
            &&& (pow2(53) - 1) * (r.mant * total) <= pow2(53) * (successes * one) <= (pow2(53) + 1) * (r.mant * total)
        }),
{
    crate::double::lemma_ratio_near(successes, total);
}

} // verus!
