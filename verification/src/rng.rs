//! Cheap pseudo-random numbers for jitter and shuffling. Not cryptographic.

use vstd::prelude::*;
use vstd::string::StringExecFns;

use crate::text::{digit_char, hex, numeral_of};

verus! {

broadcast use {vstd::seq_lib::group_to_multiset_ensures, vstd::multiset::group_multiset_axioms};

/// The `swap` method of slices, which exchanges two elements.
#[verifier::external_body]
fn swap_elements<T>(slice: &mut [T], a: usize, b: usize)
    requires
        a < old(slice)@.len(),
        b < old(slice)@.len(),
    ensures
        final(slice)@ == exchanged(old(slice)@, a as int, b as int),
{
    slice.swap(a, b)
}

/// One step of a xorshift generator.
pub open spec fn xorshift(s: u64) -> u64 {
    let a = s ^ (s << 13);
    let b = a ^ (a >> 7);
    b ^ (b << 17)
}

/// Step the generator and hand out its new state.
pub fn rng_next(state: &mut u64) -> (r: u64)
    ensures
        r == xorshift(*old(state)),
        *final(state) == r,
{
    let a: u64 = *state ^ (*state << 13);
    let b: u64 = a ^ (a >> 7);
    let c: u64 = b ^ (b << 17);
    *state = c;
    c
}

/// A state other than zero never becomes zero, so the generator never gets stuck.
pub proof fn law_state_stays_nonzero(s: u64)
    requires
        s != 0,
    ensures
        xorshift(s) != 0,
{
    let a = s ^ (s << 13);
    let b = a ^ (a >> 7);
    assert(a != 0) by (bit_vector)
        requires
            a == s ^ (s << 13),
            s != 0,
    ;
    assert(b != 0) by (bit_vector)
        requires
            b == a ^ (a >> 7),
            a != 0,
    ;
    assert(b ^ (b << 17) != 0) by (bit_vector)
        requires
            b != 0,
    ;
}

/// Different states step to different states, so the generator loses no information.
pub proof fn law_step_is_injective(s: u64, t: u64)
    requires
        xorshift(s) == xorshift(t),
    ensures
        s == t,
{
    let a = s ^ (s << 13);
    let b = a ^ (a >> 7);
    let x = t ^ (t << 13);
    let y = x ^ (x >> 7);
    assert(b == y) by (bit_vector)
        requires
            b ^ (b << 17) == y ^ (y << 17),
    ;
    assert(a == x) by (bit_vector)
        requires
            a ^ (a >> 7) == x ^ (x >> 7),
    ;
    assert(s == t) by (bit_vector)
        requires
            s ^ (s << 13) == t ^ (t << 13),
    ;
}

/// The bits of `c`, turned 21 places to the left.
pub open spec fn rotated(c: u64) -> u64 {
    (c << 21) | (c >> 43)
}

/// The seed that the clock and a counter give; never zero.
pub open spec fn seed_of(nanos: u64, counter: u64) -> u64 {
    let s = nanos ^ rotated(counter);
    if s == 0 {
        0x9E37_79B9_7F4A_7C15
    } else {
        s
    }
}

/// Seed a generator from the nanoseconds on the clock and a counter.
pub fn rng_seed(nanos: u64, counter: u64) -> (r: u64)
    ensures
        r == seed_of(nanos, counter),
        r != 0,
{
    let s: u64 = nanos ^ ((counter << 21) | (counter >> 43));
    if s == 0 {
        0x9E37_79B9_7F4A_7C15
    } else {
        s
    }
}

/// The sequence with two elements exchanged.
pub open spec fn exchanged<T>(v: Seq<T>, i: int, j: int) -> Seq<T> {
    v.update(i, v[j]).update(j, v[i])
}

/// The place that is exchanged with place `i`.
pub open spec fn partner(state: u64, i: nat) -> int {
    (state as usize) as int % (i as int + 1)
}

/// The sequence and the state after places `i` down to 1 have been exchanged with random places
/// no higher than themselves.
pub open spec fn shuffled_down<T>(v: Seq<T>, i: nat, state: u64) -> (Seq<T>, u64)
    decreases i,
{
    if i == 0 {
        (v, state)
    } else {
        let s = xorshift(state);
        shuffled_down(exchanged(v, i as int, partner(s, i)), (i - 1) as nat, s)
    }
}

/// The sequence and the state after a shuffle.
pub open spec fn shuffled<T>(v: Seq<T>, state: u64) -> (Seq<T>, u64) {
    if v.len() == 0 {
        (v, state)
    } else {
        shuffled_down(v, (v.len() - 1) as nat, state)
    }
}

/// Shuffle a slice in place.
pub fn shuffle<T>(v: &mut [T], state: &mut u64)
    ensures
        (final(v)@, *final(state)) == shuffled(old(v)@, *old(state)),
{
    let ghost first = v@;
    let ghost start = *state;
    let n: usize = v.len();
    if n == 0 {
        return;
    }
    let mut i: usize = n - 1;
    while i > 0
        invariant
            i < v@.len() == n,
            v@.len() == first.len(),
            first.len() > 0,
            shuffled_down(v@, i as nat, *state) == shuffled(first, start),
        decreases i,
    {
        let s: u64 = rng_next(state);
        let j: usize = (s as usize) % (i + 1);
        swap_elements(v, i, j);
        i = i - 1;
    }
}

proof fn lemma_exchanged<T>(v: Seq<T>, i: int, j: int)
    requires
        0 <= i < v.len(),
        0 <= j < v.len(),
    ensures
        exchanged(v, i, j).to_multiset() == v.to_multiset(),
        exchanged(v, i, j).len() == v.len(),
{
    let w = v.update(i, v[j]);
    vstd::seq_lib::to_multiset_update(v, i, v[j]);
    vstd::seq_lib::to_multiset_update(w, j, v[i]);
    v.to_multiset_ensures();
    w.to_multiset_ensures();
    if i == j {
        assert(exchanged(v, i, j) =~= v);
    } else {
        assert(w[j] == v[j]);
        assert(v.contains(v[i]) && v.contains(v[j]));
        assert(exchanged(v, i, j).to_multiset() =~= v.to_multiset());
    }
}

proof fn lemma_shuffled_down<T>(v: Seq<T>, i: nat, state: u64)
    requires
        i < v.len(),
    ensures
        shuffled_down(v, i, state).0.to_multiset() == v.to_multiset(),
        shuffled_down(v, i, state).0.len() == v.len(),
    decreases i,
{
    if i > 0 {
        let s = xorshift(state);
        let j = partner(s, i);
        lemma_exchanged(v, i as int, j);
        lemma_shuffled_down(exchanged(v, i as int, j), (i - 1) as nat, s);
    }
}

/// A shuffle loses nothing and adds nothing.
pub proof fn law_shuffle_permutes<T>(v: Seq<T>, state: u64)
    ensures
        shuffled(v, state).0.to_multiset() == v.to_multiset(),
        shuffled(v, state).0.len() == v.len(),
{
    if v.len() > 0 {
        lemma_shuffled_down(v, (v.len() - 1) as nat, state);
    }
}

/// The label that the clock and a counter give.
pub open spec fn label_of(counter: u64, nanos: u64) -> Seq<char> {
    seq!['b'] + hex(counter as nat) + hex((nanos as nat) % 0x1_0000_0000)
}

/// A label that the counter and the clock tell apart from others: a letter, the counter, and the
/// lower half of the nanoseconds on the clock.
pub fn random_label(counter: u64, nanos: u64) -> (r: String)
    ensures
        r@ == label_of(counter, nanos),
{
    let mut r = String::new();
    r.push('b');
    let c = numeral_of(counter as u128, 16);
    let n = numeral_of((nanos % 0x1_0000_0000) as u128, 16);
    r.append(c.as_str());
    r.append(n.as_str());
    assert(r@ =~= label_of(counter, nanos));
    r
}

/// A character that a host name may hold.
pub open spec fn is_label_char(c: char) -> bool {
    ('a' <= c && c <= 'z') || ('0' <= c && c <= '9')
}

proof fn lemma_hex(n: nat, width: nat)
    requires
        n < vstd::arithmetic::power::pow(16, width),
        width > 0,
    ensures
        0 < hex(n).len() <= width,
        forall|i: int| 0 <= i < hex(n).len() ==> is_label_char(#[trigger] hex(n)[i]),
    decreases width,
{
    if n >= 16 {
        vstd::arithmetic::power::lemma_pow1(16);
        assert(width > 1);
        vstd::arithmetic::power::lemma_pow_adds(16, 1, (width - 1) as nat);
        lemma_hex(n / 16, (width - 1) as nat);
        let h = hex(n / 16);
        assert(hex(n) == h.push(digit_char(n % 16)));
        assert forall|i: int| 0 <= i < hex(n).len() implies is_label_char(#[trigger] hex(n)[i]) by {
            if i < h.len() {
                assert(hex(n)[i] == h[i]);
            }
        }
    }
}

/// A random label is a valid host label: lower-case letters and digits, at most 25 of them, a
/// letter first.
pub proof fn law_label_is_valid(counter: u64, nanos: u64)
    ensures
        3 <= label_of(counter, nanos).len() <= 25,
        label_of(counter, nanos)[0] == 'b',
        forall|i: int| 0 <= i < label_of(counter, nanos).len() ==> is_label_char(#[trigger] label_of(counter, nanos)[i]),
{
    assert(vstd::arithmetic::power::pow(16, 8) == 0x1_0000_0000) by {
        reveal_with_fuel(vstd::arithmetic::power::pow, 9);
    }
    vstd::arithmetic::power::lemma_pow_adds(16, 8, 8);
    lemma_hex(counter as nat, 16);
    lemma_hex((nanos as nat) % 0x1_0000_0000, 8);
    let c = hex(counter as nat);
    let n = hex((nanos as nat) % 0x1_0000_0000);
    let l = label_of(counter, nanos);
    assert forall|i: int| 0 <= i < l.len() implies is_label_char(#[trigger] l[i]) by {
        if i == 0 {
        } else if i < 1 + c.len() {
            assert(l[i] == c[i - 1]);
        } else {
            assert(l[i] == n[i - 1 - c.len()]);
        }
    }
}

proof fn lemma_hex_injective(a: nat, b: nat)
    requires
        hex(a) == hex(b),
    ensures
        a == b,
    decreases a,
{
    let x = hex(a);
    let y = hex(b);
    if a < 16 && b < 16 {
        assert(x[0] == y[0]);
    } else if a < 16 {
        lemma_hex_some(b / 16);
        assert(y.len() == hex(b / 16).len() + 1);
    } else if b < 16 {
        lemma_hex_some(a / 16);
        assert(x.len() == hex(a / 16).len() + 1);
    } else {
        assert(x.drop_last() =~= hex(a / 16));
        assert(y.drop_last() =~= hex(b / 16));
        lemma_hex_injective(a / 16, b / 16);
        assert(x.last() == digit_char(a % 16) && y.last() == digit_char(b % 16));
    }
}

proof fn lemma_hex_some(n: nat)
    ensures
        hex(n).len() > 0,
{
}

/// Labels made with the same clock differ where their counters do, and labels made with the same
/// counter where the lower halves of their clocks do.
pub proof fn law_labels_differ(counter: u64, nanos: u64, other: u64, later: u64)
    ensures
        counter != other ==> label_of(counter, nanos) != label_of(other, nanos),
        nanos % 0x1_0000_0000 != later % 0x1_0000_0000 ==> label_of(counter, nanos) != label_of(counter, later),
{
    let c = hex(counter as nat);
    let d = hex(other as nat);
    let n = hex((nanos as nat) % 0x1_0000_0000);
    let m = hex((later as nat) % 0x1_0000_0000);
    if label_of(counter, nanos) == label_of(other, nanos) {
        let l = label_of(counter, nanos);
        assert(l.len() == 1 + c.len() + n.len() && l.len() == 1 + d.len() + n.len());
        assert(c =~= l.subrange(1, 1 + c.len() as int));
        assert(d =~= l.subrange(1, 1 + d.len() as int));
        lemma_hex_injective(counter as nat, other as nat);
    }
    if label_of(counter, nanos) == label_of(counter, later) {
        let l = label_of(counter, nanos);
        assert(n =~= l.skip(1 + c.len() as int));
        assert(m =~= l.skip(1 + c.len() as int));
        lemma_hex_injective((nanos as nat) % 0x1_0000_0000, (later as nat) % 0x1_0000_0000);
    }
}

/// The state before a step, out of the state after it.
pub open spec fn stepped_back(s: u64) -> u64 {
    let b = s ^ (s << 17) ^ (s << 34) ^ (s << 51);
    let a = b ^ (b >> 7) ^ (b >> 14) ^ (b >> 21) ^ (b >> 28) ^ (b >> 35) ^ (b >> 42) ^ (b >> 49) ^ (b >> 56) ^ (b
        >> 63);
    a ^ (a << 13) ^ (a << 26) ^ (a << 39) ^ (a << 52)
}

/// A step can be taken back, and a step back can be taken again: every state comes before just one.
pub proof fn law_step_can_be_undone(s: u64)
    ensures
        stepped_back(xorshift(s)) == s,
        xorshift(stepped_back(s)) == s,
{
    let a = s ^ (s << 13);
    let b = a ^ (a >> 7);
    let c = b ^ (b << 17);
    assert(c ^ (c << 17) ^ (c << 34) ^ (c << 51) == b) by (bit_vector)
        requires
            c == b ^ (b << 17),
    ;
    assert(b ^ (b >> 7) ^ (b >> 14) ^ (b >> 21) ^ (b >> 28) ^ (b >> 35) ^ (b >> 42) ^ (b >> 49) ^ (b >> 56) ^ (b >> 63)
        == a) by (bit_vector)
        requires
            b == a ^ (a >> 7),
    ;
    assert(a ^ (a << 13) ^ (a << 26) ^ (a << 39) ^ (a << 52) == s) by (bit_vector)
        requires
            a == s ^ (s << 13),
    ;
    let y = s ^ (s << 17) ^ (s << 34) ^ (s << 51);
    let x = y ^ (y >> 7) ^ (y >> 14) ^ (y >> 21) ^ (y >> 28) ^ (y >> 35) ^ (y >> 42) ^ (y >> 49) ^ (y >> 56) ^ (y
        >> 63);
    let t = x ^ (x << 13) ^ (x << 26) ^ (x << 39) ^ (x << 52);
    assert(t ^ (t << 13) == x) by (bit_vector)
        requires
            t == x ^ (x << 13) ^ (x << 26) ^ (x << 39) ^ (x << 52),
    ;
    assert(x ^ (x >> 7) == y) by (bit_vector)
        requires
            x == y ^ (y >> 7) ^ (y >> 14) ^ (y >> 21) ^ (y >> 28) ^ (y >> 35) ^ (y >> 42) ^ (y >> 49) ^ (y >> 56) ^ (y
                >> 63),
    ;
    assert(y ^ (y << 17) == s) by (bit_vector)
        requires
            y == s ^ (s << 17) ^ (s << 34) ^ (s << 51),
    ;
}

/// A seed tells clocks apart and counters apart: the upper 21 bits of the counter fall on the lowest
/// of the clock and the other 43 on those above, and nothing is lost. A seed that would be zero is
/// another number.
pub proof fn law_seed_mixes_clock_and_counter(nanos: u64, counter: u64)
    ensures
        seed_of(nanos, counter) != 0,
        seed_of(nanos, 0) == nanos || nanos == 0,
        rotated(counter) % 0x20_0000 == counter / 0x800_0000_0000,
        rotated(counter) / 0x20_0000 == counter % 0x800_0000_0000,
        nanos != rotated(counter) ==> seed_of(nanos, counter) ^ nanos == rotated(counter),
{
    let r = rotated(counter);
    assert(((counter << 21) | (counter >> 43)) % 0x20_0000 == counter / 0x800_0000_0000 && ((counter << 21) | (counter
        >> 43)) / 0x20_0000 == counter % 0x800_0000_0000) by (bit_vector);
    assert((0u64 << 21) | (0u64 >> 43) == 0) by (bit_vector);
    assert(nanos ^ 0 == nanos) by (bit_vector);
    assert((nanos ^ r) ^ nanos == r && (nanos ^ r == 0 <==> nanos == r)) by (bit_vector);
}

proof fn lemma_shuffled_down_apart<T>(v: Seq<T>, last: T, i: nat, state: u64)
    requires
        i < v.len(),
    ensures
        shuffled_down(v.push(last), i, state) == (
            shuffled_down(v, i, state).0.push(last),
            shuffled_down(v, i, state).1,
        ),
    decreases i,
{
    if i > 0 {
        let s = xorshift(state);
        let j = partner(s, i);
        assert(exchanged(v.push(last), i as int, j) =~= exchanged(v, i as int, j).push(last));
        lemma_shuffled_down_apart(exchanged(v, i as int, j), last, (i - 1) as nat, s);
    }
}

/// A shuffle draws the last element among all of them, lets the element that stood last take the place
/// of the one drawn, and shuffles those before with the next number; one element alone draws nothing.
pub proof fn law_shuffle_draws_from_all<T>(v: Seq<T>, state: u64)
    ensures
        v.len() <= 1 ==> shuffled(v, state) == (v, state),
        v.len() > 1 ==> {
            let next = xorshift(state);
            let drawn = (next as usize) as int % v.len() as int;
            let others = v.update(drawn, v.last()).drop_last();
            &&& shuffled(v, state).0 == shuffled(others, next).0.push(v[drawn])
            &&& shuffled(v, state).1 == shuffled(others, next).1
        },
{
    if v.len() > 1 {
        let next = xorshift(state);
        let n = (v.len() - 1) as nat;
        let drawn = partner(next, n);
        let others = v.update(drawn, v.last()).drop_last();
        assert(exchanged(v, n as int, drawn) =~= others.push(v[drawn]));
        lemma_shuffled_down_apart(others, v[drawn], (n - 1) as nat, next);
    }
}

/// The number that hexadecimal digits write.
pub open spec fn hex_value(s: Seq<char>) -> nat
    decreases s.len(),
{
    if s.len() == 0 {
        0
    } else {
        let c = s.last();
        16 * hex_value(s.drop_last()) + (if '0' <= c && c <= '9' {
            (c as nat - '0' as nat) as nat
        } else {
            (c as nat - 'a' as nat + 10) as nat
        })
    }
}

proof fn lemma_hex_value(n: nat)
    ensures
        hex_value(hex(n)) == n,
        hex(n).len() > 0,
    decreases n,
{
    let h = hex(n);
    if n >= 16 {
        lemma_hex_value(n / 16);
        assert(h.drop_last() =~= hex(n / 16));
    } else {
        assert(h.drop_last() =~= Seq::empty());
        assert(hex_value(h.drop_last()) == 0);
    }
}

/// A label holds the counter and then the lower half of the clock, each written in hexadecimal digits,
/// behind its first letter.
pub proof fn law_label_holds_counter_and_clock(counter: u64, nanos: u64)
    ensures
        exists|k: int|
            1 < k < label_of(counter, nanos).len() && hex_value(#[trigger] label_of(counter, nanos).subrange(1, k))
                == counter && hex_value(label_of(counter, nanos).skip(k)) == nanos % 0x1_0000_0000,
{
    let l = label_of(counter, nanos);
    let c = hex(counter as nat);
    let n = hex((nanos as nat) % 0x1_0000_0000);
    lemma_hex_value(counter as nat);
    lemma_hex_value((nanos as nat) % 0x1_0000_0000);
    let k = 1 + c.len() as int;
    assert(l.subrange(1, k) =~= c);
    assert(l.skip(k) =~= n);
}

} // verus!
