//! Text: case folding, splitting, numerals.

use vstd::prelude::*;
use vstd::string::StringExecFns;

verus! {

broadcast use vstd::string::group_string_axioms;

/// `String::push` appends one character.
pub assume_specification[ String::push ](s: &mut String, c: char)
    ensures
        final(s)@ == old(s)@.push(c),
;

/// `String::pop` takes the last character off, and hands out `None` where there is none.
pub assume_specification[ String::pop ](s: &mut String) -> (r: Option<char>)
    ensures
        old(s)@.len() == 0 ==> r is None && final(s)@ == old(s)@,
        old(s)@.len() > 0 ==> r == Some(old(s)@.last()) && final(s)@ == old(s)@.drop_last(),
;

/// The text of each string in turn.
pub open spec fn texts(v: Seq<String>) -> Seq<Seq<char>> {
    v.map_values(|s: String| s@)
}

/// The text of a string that may be missing.
pub open spec fn text_of(s: Option<String>) -> Option<Seq<char>> {
    match s {
        Some(t) => Some(t@),
        None => None,
    }
}

/// The characters of `s`.
pub fn chars_of(s: &str) -> (r: Vec<char>)
    ensures
        r@ == s@,
{
    let mut r: Vec<char> = Vec::new();
    for c in it: s.chars()
        invariant
            r@ == s@.take(it.index()),
            it.seq() == s@,
    {
        r.push(c);
    }
    assert(s@.take(s@.len() as int) == s@);
    r
}

/// The string of the characters in `v`.
pub fn string_of(v: &Vec<char>) -> (r: String)
    ensures
        r@ == v@,
{
    let mut r = String::new();
    let mut i: usize = 0;
    while i < v.len()
        invariant
            i <= v.len(),
            r@ == v@.take(i as int),
        decreases v.len() - i,
    {
        r.push(v[i]);
        i = i + 1;
    }
    assert(v@.take(v.len() as int) == v@);
    r
}

/// Whether the two texts are the same.
pub fn same(a: &str, b: &str) -> (r: bool)
    ensures
        r == (a@ == b@),
{
    let x = chars_of(a);
    let y = chars_of(b);
    same_chars(&x, &y)
}

/// Whether the two runs of characters are the same.
pub fn same_chars(x: &Vec<char>, y: &Vec<char>) -> (r: bool)
    ensures
        r == (x@ == y@),
{
    if x.len() != y.len() {
        return false;
    }
    let mut i: usize = 0;
    while i < x.len()
        invariant
            i <= x.len(),
            x.len() == y.len(),
            forall|j: int| 0 <= j < i ==> x[j] == y[j],
        decreases x.len() - i,
    {
        if x[i] != y[i] {
            return false;
        }
        i = i + 1;
    }
    assert(x@ =~= y@);
    true
}

/// The lower-case letter for an upper-case letter of ASCII; any other character as it is.
pub open spec fn lower_char(c: char) -> char {
    if 'A' <= c && c <= 'Z' {
        (c as u32 + 32) as char
    } else {
        c
    }
}

/// The text with the letters of ASCII in lower case.
pub open spec fn lower(s: Seq<char>) -> Seq<char> {
    s.map_values(|c: char| lower_char(c))
}

/// The characters of `s`, the letters of ASCII in lower case.
pub fn lowered(s: &str) -> (r: Vec<char>)
    ensures
        r@ == lower(s@),
{
    let v = chars_of(s);
    let mut r: Vec<char> = Vec::new();
    let mut i: usize = 0;
    while i < v.len()
        invariant
            i <= v.len(),
            v@ == s@,
            r@ == lower(s@).take(i as int),
        decreases v.len() - i,
    {
        let c = v[i];
        let d: char = if 'A' <= c && c <= 'Z' {
            (c as u8 + 32) as char
        } else {
            c
        };
        assert(d == lower_char(c));
        r.push(d);
        i = i + 1;
    }
    assert(lower(s@).take(v.len() as int) == lower(s@));
    r
}

/// Whether the two texts are the same but for the case of the letters of ASCII.
pub fn same_ignoring_case(a: &str, b: &str) -> (r: bool)
    ensures
        r == (lower(a@) == lower(b@)),
{
    let x = lowered(a);
    let y = lowered(b);
    same_chars(&x, &y)
}

/// The characters with the Unicode property White_Space.
pub open spec fn is_space(c: char) -> bool {
    let n = c as u32;
    ||| 9 <= n <= 13
    ||| n == 32
    ||| n == 0x85
    ||| n == 0xa0
    ||| n == 0x1680
    ||| 0x2000 <= n <= 0x200a
    ||| n == 0x2028
    ||| n == 0x2029
    ||| n == 0x202f
    ||| n == 0x205f
    ||| n == 0x3000
}

/// Whether `c` has the Unicode property White_Space.
pub fn space(c: char) -> (r: bool)
    ensures
        r == is_space(c),
{
    let n: u32 = c as u32;
    (9 <= n && n <= 13) || n == 32 || n == 0x85 || n == 0xa0 || n == 0x1680 || (0x2000 <= n && n <= 0x200a) || n
        == 0x2028 || n == 0x2029 || n == 0x202f || n == 0x205f || n == 0x3000
}

/// The text without the white space at its front.
pub open spec fn trim_start(s: Seq<char>) -> Seq<char>
    decreases s.len(),
{
    if s.len() > 0 && is_space(s[0]) {
        trim_start(s.drop_first())
    } else {
        s
    }
}

/// The text without the white space at its end.
pub open spec fn trim_end(s: Seq<char>) -> Seq<char>
    decreases s.len(),
{
    if s.len() > 0 && is_space(s.last()) {
        trim_end(s.drop_last())
    } else {
        s
    }
}

/// The text without the white space around it.
pub open spec fn trim(s: Seq<char>) -> Seq<char> {
    trim_end(trim_start(s))
}

/// The part of `v` from `from` up to `to`, without the white space around it.
pub fn trimmed(v: &Vec<char>, from: usize, to: usize) -> (r: Vec<char>)
    requires
        from <= to <= v.len(),
    ensures
        r@ == trim(v@.subrange(from as int, to as int)),
{
    let mut i: usize = from;
    let ghost part = v@.subrange(from as int, to as int);
    while i < to && space(v[i])
        invariant
            from <= i <= to <= v.len(),
            part == v@.subrange(from as int, to as int),
            trim_start(part) == trim_start(v@.subrange(i as int, to as int)),
        decreases to - i,
    {
        assert(v@.subrange(i as int, to as int).drop_first() == v@.subrange(i + 1, to as int));
        i = i + 1;
    }
    let mut j: usize = to;
    let ghost front = v@.subrange(i as int, to as int);
    assert(trim_start(front) == front);
    while i < j && space(v[j - 1])
        invariant
            i <= j <= to <= v.len(),
            trim_end(front) == trim_end(v@.subrange(i as int, j as int)),
        decreases j - i,
    {
        assert(v@.subrange(i as int, j as int).drop_last() == v@.subrange(i as int, j - 1));
        j = j - 1;
    }
    let r = part_of(v, i, j);
    assert(trim_end(r@) == r@);
    r
}

/// The part of `v` from `from` up to `to`.
pub fn part_of(v: &Vec<char>, from: usize, to: usize) -> (r: Vec<char>)
    requires
        from <= to <= v.len(),
    ensures
        r@ == v@.subrange(from as int, to as int),
{
    let mut r: Vec<char> = Vec::new();
    let mut i: usize = from;
    while i < to
        invariant
            from <= i <= to <= v.len(),
            r@ == v@.subrange(from as int, i as int),
        decreases to - i,
    {
        r.push(v[i]);
        i = i + 1;
    }
    r
}

/// The length of the run of characters at the front of `s` that are no white space.
pub open spec fn word_len(s: Seq<char>) -> nat
    decreases s.len(),
{
    if s.len() > 0 && !is_space(s[0]) {
        1 + word_len(s.drop_first())
    } else {
        0
    }
}

/// The front run is part of the text.
pub proof fn lemma_word_len(s: Seq<char>)
    ensures
        word_len(s) <= s.len(),
        forall|i: int| 0 <= i < word_len(s) ==> !is_space(#[trigger] s[i]),
        word_len(s) < s.len() ==> is_space(s[word_len(s) as int]),
        s.len() > 0 && !is_space(s[0]) ==> word_len(s) > 0,
    decreases s.len(),
{
    if s.len() > 0 && !is_space(s[0]) {
        let t = s.drop_first();
        lemma_word_len(t);
        assert forall|i: int| 0 <= i < word_len(s) implies !is_space(#[trigger] s[i]) by {
            if i > 0 {
                assert(s[i] == t[i - 1]);
            }
        }
    }
}

/// The words of `s`: its runs of characters between white space.
pub open spec fn words(s: Seq<char>) -> Seq<Seq<char>>
    decreases s.len(),
{
    if s.len() == 0 {
        Seq::empty()
    } else if is_space(s[0]) {
        words(s.drop_first())
    } else {
        let n = word_len(s);
        if 0 < n <= s.len() {
            seq![s.take(n as int)] + words(s.skip(n as int))
        } else {
            Seq::empty()
        }
    }
}

/// The words of `s`.
pub fn split_words(s: &str) -> (r: Vec<String>)
    ensures
        texts(r@) == words(s@),
{
    let v = chars_of(s);
    let mut r: Vec<String> = Vec::new();
    let mut i: usize = 0;
    assert(v@.skip(0) == v@);
    assert(texts(r@) + words(v@) == words(v@));
    while i < v.len()
        invariant
            i <= v.len(),
            v@ == s@,
            texts(r@) + words(v@.skip(i as int)) == words(v@),
        decreases v.len() - i,
    {
        let ghost rest = v@.skip(i as int);
        if space(v[i]) {
            assert(rest.drop_first() == v@.skip(i + 1));
            i = i + 1;
        } else {
            let mut j: usize = i;
            proof {
                lemma_word_len(rest);
            }
            while j < v.len() && !space(v[j])
                invariant
                    i <= j <= v.len(),
                    rest == v@.skip(i as int),
                    j - i <= word_len(rest),
                    word_len(rest) <= rest.len(),
                    word_len(rest) < rest.len() ==> is_space(rest[word_len(rest) as int]),
                    forall|k: int| 0 <= k < word_len(rest) ==> !is_space(#[trigger] rest[k]),
                decreases v.len() - j,
            {
                assert(v@[j as int] == rest[j - i]);
                j = j + 1;
            }
            assert(j - i == word_len(rest)) by {
                if j - i < word_len(rest) {
                    assert(v@[j as int] == rest[j - i]);
                }
            }
            let word = part_of(&v, i, j);
            let ghost before = texts(r@);
            r.push(string_of(&word));
            proof {
                assert(word@ == rest.take(j - i));
                assert(v@.skip(j as int) == rest.skip(j - i));
                assert(texts(r@) == before.push(word@));
                assert(before + (seq![word@] + words(v@.skip(j as int))) == texts(r@) + words(v@.skip(j as int)));
            }
            i = j;
        }
    }
    assert(v@.skip(v.len() as int).len() == 0);
    assert(texts(r@) + words(v@.skip(v.len() as int)) == texts(r@));
    r
}

/// Words hold no white space and are not empty.
pub proof fn law_words_hold_no_space(s: Seq<char>)
    ensures
        forall|i: int| 0 <= i < words(s).len() ==> (#[trigger] words(s)[i]).len() > 0,
        forall|i: int, j: int| 0 <= i < words(s).len() && 0 <= j < words(s)[i].len() ==> !is_space(#[trigger] words(s)[i][j]),
    decreases s.len(),
{
    if s.len() > 0 {
        if is_space(s[0]) {
            law_words_hold_no_space(s.drop_first());
            assert(words(s) == words(s.drop_first()));
        } else {
            lemma_word_len(s);
            let n = word_len(s);
            let t = s.skip(n as int);
            law_words_hold_no_space(t);
            assert forall|i: int| 0 <= i < words(s).len() implies (#[trigger] words(s)[i]).len() > 0 by {
                if i > 0 {
                    assert(words(s)[i] == words(t)[i - 1]);
                }
            }
            assert forall|i: int, j: int| 0 <= i < words(s).len() && 0 <= j < words(s)[i].len() implies !is_space(
                #[trigger] words(s)[i][j],
            ) by {
                if i > 0 {
                    assert(words(s)[i] == words(t)[i - 1]);
                } else {
                    assert(words(s)[i][j] == s[j]);
                }
            }
        }
    }
}

/// The digit for `n`, which is below sixteen.
pub open spec fn digit_char(n: nat) -> char {
    if n < 10 {
        (48 + n) as char
    } else {
        (87 + n) as char
    }
}

/// The numeral of `n` to the base `base`, without leading zeros.
pub open spec fn numeral(n: nat, base: nat) -> Seq<char>
    decreases n,
{
    if base < 2 || n < base {
        seq![digit_char(n)]
    } else {
        proof {
            assert(n / base < n) by (nonlinear_arith)
                requires
                    n >= base,
                    base >= 2,
            ;
        }
        numeral(n / base, base).push(digit_char(n % base))
    }
}

/// The decimal numeral of `n`.
pub open spec fn dec(n: nat) -> Seq<char> {
    numeral(n, 10)
}

/// The hexadecimal numeral of `n`, in lower case.
pub open spec fn hex(n: nat) -> Seq<char> {
    numeral(n, 16)
}

/// The numeral of `n` to the base `base`.
pub fn numeral_of(n: u128, base: u128) -> (r: String)
    requires
        2 <= base <= 16,
    ensures
        r@ == numeral(n as nat, base as nat),
    decreases n,
{
    if n < base {
        let mut r = String::new();
        let c: char = if n < 10 {
            (48 + n as u8) as char
        } else {
            (87 + n as u8) as char
        };
        r.push(c);
        assert(r@ == seq![digit_char(n as nat)]);
        r
    } else {
        proof {
            assert(n / base < n) by (nonlinear_arith)
                requires
                    n > 0,
                    base >= 2,
            ;
            assert(n % base < base) by (nonlinear_arith)
                requires
                    base >= 2,
            ;
        }
        let mut r = numeral_of(n / base, base);
        let d: u128 = n % base;
        let c: char = if d < 10 {
            (48 + d as u8) as char
        } else {
            (87 + d as u8) as char
        };
        r.push(c);
        r
    }
}

/// The decimal numeral of `n`.
pub fn decimal(n: u128) -> (r: String)
    ensures
        r@ == dec(n as nat),
{
    numeral_of(n, 10)
}

/// Whether every character of `s` is a decimal digit.
pub open spec fn all_digits(s: Seq<char>) -> bool {
    forall|i: int| 0 <= i < s.len() ==> '0' <= #[trigger] s[i] && s[i] <= '9'
}

/// The value of a run of decimal digits.
pub open spec fn digits_value(s: Seq<char>) -> nat
    decreases s.len(),
{
    if s.len() == 0 {
        0
    } else {
        (digits_value(s.drop_last()) * 10 + (s.last() as u32 - 48)) as nat
    }
}

/// The number that `s` writes: digits, with an optional plus sign in front, and at most `max`.
pub open spec fn parsed_number(s: Seq<char>, max: nat) -> Option<nat> {
    let d = if s.len() > 0 && s[0] == '+' {
        s.drop_first()
    } else {
        s
    };
    if d.len() > 0 && all_digits(d) && digits_value(d) <= max {
        Some(digits_value(d))
    } else {
        None
    }
}

proof fn lemma_digits_monotone(s: Seq<char>, k: int)
    requires
        0 <= k <= s.len(),
        all_digits(s),
    ensures
        digits_value(s.take(k)) <= digits_value(s),
    decreases s.len(),
{
    if k == s.len() {
        assert(s.take(k) == s);
    } else {
        lemma_digits_monotone(s.drop_last(), k);
        assert(s.drop_last().take(k) == s.take(k));
        assert('0' <= s[s.len() - 1]);
    }
}

/// The number that `s` writes, if it is at most `max`.
pub fn parse_number(s: &str, max: u64) -> (r: Option<u64>)
    ensures
        match r {
            Some(n) => parsed_number(s@, max as nat) == Some(n as nat),
            None => parsed_number(s@, max as nat) is None,
        },
{
    let all = chars_of(s);
    let from: usize = if all.len() > 0 && all[0] == '+' {
        1
    } else {
        0
    };
    let v = part_of(&all, from, all.len());
    proof {
        if from == 1 {
            assert(v@ == s@.drop_first());
        } else {
            assert(v@ == s@);
        }
    }
    if v.len() == 0 {
        return None;
    }
    let mut n: u128 = 0;
    let mut i: usize = 0;
    while i < v.len()
        invariant
            i <= v.len(),
            v.len() > 0,
            v@ == (if s@.len() > 0 && s@[0] == '+' { s@.drop_first() } else { s@ }),
            n == digits_value(v@.take(i as int)),
            n <= max,
            all_digits(v@.take(i as int)),
        decreases v.len() - i,
    {
        let c = v[i];
        if c < '0' || '9' < c {
            assert(!all_digits(v@));
            return None;
        }
        let ghost longer = v@.take(i + 1);
        proof {
            assert(longer.drop_last() == v@.take(i as int));
            assert(all_digits(longer)) by {
                assert forall|j: int| 0 <= j < longer.len() implies '0' <= #[trigger] longer[j] && longer[j] <= '9' by {
                    if j < i {
                        assert(longer[j] == v@.take(i as int)[j]);
                    }
                }
            }
        }
        n = n * 10 + (c as u32 - 48) as u128;
        if n > max as u128 {
            proof {
                if all_digits(v@) {
                    lemma_digits_monotone(v@, i + 1);
                }
            }
            return None;
        }
        i = i + 1;
    }
    assert(v@.take(v.len() as int) == v@);
    Some(n as u64)
}

/// A decimal numeral is a run of digits whose value is the number.
pub proof fn lemma_dec_digits(n: nat)
    ensures
        dec(n).len() > 0,
        all_digits(dec(n)),
        digits_value(dec(n)) == n,
    decreases n,
{
    if n < 10 {
        let s = seq![digit_char(n)];
        assert(s.drop_last() == Seq::<char>::empty());
        assert(digits_value(Seq::<char>::empty()) == 0);
    } else {
        lemma_dec_digits(n / 10);
        let t = dec(n / 10);
        let s = t.push(digit_char(n % 10));
        assert(s.drop_last() == t);
        assert forall|i: int| 0 <= i < s.len() implies '0' <= #[trigger] s[i] && s[i] <= '9' by {
            if i < t.len() {
                assert(s[i] == t[i]);
            }
        }
    }
}

/// Reading the decimal numeral of a number gives the number back.
pub proof fn law_numeral_read_back(n: nat, max: nat)
    requires
        n <= max,
    ensures
        parsed_number(dec(n), max) == Some(n),
{
    lemma_dec_digits(n);
    assert(dec(n)[0] != '+') by {
        assert('0' <= dec(n)[0]);
    }
}

/// The texts in turn, with `sep` between each and the next.
pub open spec fn joined(v: Seq<Seq<char>>, sep: Seq<char>) -> Seq<char>
    decreases v.len(),
{
    if v.len() == 0 {
        Seq::empty()
    } else if v.len() == 1 {
        v[0]
    } else {
        joined(v.drop_last(), sep) + sep + v.last()
    }
}

/// The strings in turn, with `sep` between each and the next.
pub fn join(v: &Vec<String>, sep: &str) -> (r: String)
    ensures
        r@ == joined(texts(v@), sep@),
{
    let mut r = String::new();
    let mut i: usize = 0;
    let ghost all = texts(v@);
    assert(all.take(0).len() == 0);
    while i < v.len()
        invariant
            i <= v.len(),
            all == texts(v@),
            r@ == joined(all.take(i as int), sep@),
        decreases v.len() - i,
    {
        let ghost longer = all.take(i + 1);
        proof {
            assert(longer.drop_last() == all.take(i as int));
        }
        if i > 0 {
            r.append(sep);
        }
        r.append(v[i].as_str());
        proof {
            if i == 0 {
                assert(all.take(0).len() == 0);
                assert(r@ == v@[0]@);
            }
        }
        i = i + 1;
    }
    assert(all.take(v.len() as int) == all);
    r
}

/// `c`, `n` times.
pub open spec fn repeated(c: char, n: nat) -> Seq<char> {
    Seq::new(n, |i: int| c)
}

/// The text, filled up with spaces on the right to a width in characters.
pub open spec fn padded_right(s: Seq<char>, width: nat) -> Seq<char> {
    if s.len() < width {
        s + repeated(' ', (width - s.len()) as nat)
    } else {
        s
    }
}

/// The text, filled up with spaces on the left to a width in characters.
pub open spec fn padded_left(s: Seq<char>, width: nat) -> Seq<char> {
    if s.len() < width {
        repeated(' ', (width - s.len()) as nat) + s
    } else {
        s
    }
}

/// The text, cut off with two dots where it has more than `n` characters.
pub open spec fn truncated(s: Seq<char>, n: nat) -> Seq<char> {
    if s.len() <= n {
        s
    } else if n == 0 {
        ".."@
    } else {
        s.take(n - 1) + ".."@
    }
}

/// The number of characters of a text, or `limit` where it has more.
fn length_up_to(s: &str, limit: usize) -> (r: usize)
    ensures
        r == (if s@.len() < limit {
            s@.len()
        } else {
            limit as nat
        }),
{
    let n: usize = chars_of(s).len();
    if n < limit {
        n
    } else {
        limit
    }
}

/// Add a character to a text `n` times.
pub fn push_repeated(r: &mut String, c: char, n: usize)
    ensures
        final(r)@ == old(r)@ + repeated(c, n as nat),
{
    let ghost start = r@;
    let mut i: usize = 0;
    assert(start + repeated(c, 0) =~= start);
    while i < n
        invariant
            i <= n,
            r@ == start + repeated(c, i as nat),
        decreases n - i,
    {
        r.push(c);
        assert(r@ =~= start + repeated(c, (i + 1) as nat));
        i = i + 1;
    }
}

/// Fill a text up on the right.
pub fn pad_right(s: &str, width: usize) -> (r: String)
    ensures
        r@ == padded_right(s@, width as nat),
{
    let n: usize = length_up_to(s, width);
    let mut r = s.to_owned();
    push_repeated(&mut r, ' ', width - n);
    assert(r@ =~= padded_right(s@, width as nat));
    r
}

/// Fill a text up on the left.
pub fn pad_left(s: &str, width: usize) -> (r: String)
    ensures
        r@ == padded_left(s@, width as nat),
{
    let n: usize = length_up_to(s, width);
    let mut r = String::new();
    push_repeated(&mut r, ' ', width - n);
    r.append(s);
    assert(r@ =~= padded_left(s@, width as nat));
    r
}

/// Cut a text off.
pub fn truncate(s: &str, n: usize) -> (r: String)
    ensures
        r@ == truncated(s@, n as nat),
{
    let v = chars_of(s);
    if v.len() <= n {
        return s.to_owned();
    }
    let k: usize = if n == 0 {
        0
    } else {
        n - 1
    };
    let mut r = string_of(&part_of(&v, 0, k));
    r.append("..");
    assert(v@.subrange(0, k as int) =~= s@.take(k as int));
    assert(r@ =~= truncated(s@, n as nat));
    r
}

/// The text `a`, then the number `n`, then the text `b`.
pub fn numbered(a: &str, n: u128, b: &str) -> (r: String)
    ensures
        r@ == a@ + dec(n as nat) + b@,
{
    let mut r = a.to_owned();
    let d = decimal(n);
    r.append(d.as_str());
    r.append(b);
    r
}

/// Trimming takes white space off both ends and nothing else: what is left is a part of the text, it
/// neither begins nor ends with white space, and all that stood around it was white space.
pub proof fn law_trim_takes_white_space_off(s: Seq<char>)
    ensures
        exists|i: int, j: int|
            0 <= i <= j <= s.len() && #[trigger] s.subrange(i, j) == trim(s) && (forall|k: int|
                0 <= k < i || j <= k < s.len() ==> is_space(#[trigger] s[k])),
        trim(s).len() > 0 ==> !is_space(trim(s)[0]) && !is_space(trim(s).last()),
{
    let i = lemma_trim_start(s);
    let t = trim_start(s);
    let m = lemma_trim_end(t);
    let j = i + m;
    assert(s.subrange(i, j) =~= trim(s));
    assert forall|k: int| 0 <= k < i || j <= k < s.len() implies is_space(#[trigger] s[k]) by {
        if k >= j {
            assert(t[k - i] == s[k]);
        }
    }
    if trim(s).len() > 0 {
        assert(trim(s)[0] == t[0]);
    }
}

proof fn lemma_trim_start(s: Seq<char>) -> (i: int)
    ensures
        0 <= i <= s.len(),
        trim_start(s) == s.skip(i),
        forall|k: int| 0 <= k < i ==> is_space(#[trigger] s[k]),
        i < s.len() ==> !is_space(s[i]),
    decreases s.len(),
{
    if s.len() > 0 && is_space(s[0]) {
        let t = s.drop_first();
        let i = lemma_trim_start(t);
        assert(t.skip(i) =~= s.skip(i + 1));
        assert forall|k: int| 0 <= k < i + 1 implies is_space(#[trigger] s[k]) by {
            if k > 0 {
                assert(s[k] == t[k - 1]);
            }
        }
        i + 1
    } else {
        assert(s.skip(0) =~= s);
        0
    }
}

proof fn lemma_trim_end(s: Seq<char>) -> (j: int)
    ensures
        0 <= j <= s.len(),
        trim_end(s) == s.take(j),
        forall|k: int| j <= k < s.len() ==> is_space(#[trigger] s[k]),
        j > 0 ==> !is_space(s[j - 1]),
    decreases s.len(),
{
    if s.len() > 0 && is_space(s.last()) {
        let t = s.drop_last();
        let j = lemma_trim_end(t);
        assert(t.take(j) =~= s.take(j));
        assert forall|k: int| j <= k < s.len() implies is_space(#[trigger] s[k]) by {
            if k < t.len() {
                assert(s[k] == t[k]);
            }
        }
        j
    } else {
        assert(s.take(s.len() as int) =~= s);
        s.len() as int
    }
}

/// Words are what stands between white space: a text without any is one word, white space alone holds
/// none, and white space between two texts parts their words.
pub proof fn law_words_are_parted_by_white_space(a: Seq<char>, c: char, b: Seq<char>)
    requires
        is_space(c),
    ensures
        words(a + seq![c] + b) == words(a) + words(b),
        a.len() > 0 && (forall|i: int| 0 <= i < a.len() ==> !is_space(#[trigger] a[i])) ==> words(a) == seq![a],
        a.len() == 0 ==> words(a).len() == 0,
    decreases a.len(),
{
    let all = a + seq![c] + b;
    if a.len() == 0 {
        assert(all.drop_first() =~= b);
        assert(words(a) + words(b) =~= words(b));
    } else if is_space(a[0]) {
        law_words_are_parted_by_white_space(a.drop_first(), c, b);
        assert(all.drop_first() =~= a.drop_first() + seq![c] + b);
        assert(!(forall|i: int| 0 <= i < a.len() ==> !is_space(#[trigger] a[i])));
    } else {
        lemma_word_len(a);
        lemma_word_len(all);
        let n = word_len(a);
        assert(word_len(all) == n) by {
            if word_len(all) < n {
                assert(all[word_len(all) as int] == a[word_len(all) as int]);
            } else if word_len(all) > n {
                if n < a.len() {
                    assert(all[n as int] == a[n as int]);
                } else {
                    assert(all[n as int] == c);
                }
            }
        }
        law_words_are_parted_by_white_space(a.skip(n as int), c, b);
        assert(all.skip(n as int) =~= a.skip(n as int) + seq![c] + b);
        assert(all.take(n as int) =~= a.take(n as int));
        assert(words(all) =~= words(a) + words(b));
        if forall|i: int| 0 <= i < a.len() ==> !is_space(#[trigger] a[i]) {
            assert(n == a.len()) by {
                if n < a.len() {
                    assert(is_space(a[n as int]));
                }
            }
            assert(a.take(n as int) =~= a);
            assert(a.skip(n as int).len() == 0);
            assert(words(a) =~= seq![a]);
        }
    }
}

/// Lower case keeps the length and every character but the letters A to Z, and gives those the letters
/// a to z in the same order; so it does nothing to a text in lower case.
pub proof fn law_lower_case(s: Seq<char>)
    ensures
        lower(s).len() == s.len(),
        forall|i: int|
            0 <= i < s.len() ==> ('A' <= #[trigger] s[i] && s[i] <= 'Z' ==> 'a' <= lower(s)[i] && lower(s)[i] <= 'z'
                && lower(s)[i] as int - 'a' as int == s[i] as int - 'A' as int),
        forall|i: int| 0 <= i < s.len() && !('A' <= #[trigger] s[i] && s[i] <= 'Z') ==> lower(s)[i] == s[i],
        lower(lower(s)) == lower(s),
{
    assert(lower(lower(s)) =~= lower(s));
}

/// Filling up reaches the width and no more, adds nothing but spaces, and leaves a text that is wide
/// enough.
pub proof fn law_padding(s: Seq<char>, width: nat)
    ensures
        ({
            let r = padded_right(s, width);
            let l = padded_left(s, width);
            let n = if s.len() < width {
                width
            } else {
                s.len()
            };
            &&& r.len() == n && l.len() == n
            &&& r.take(s.len() as int) == s && l.skip(n - s.len()) == s
            &&& forall|i: int| s.len() <= i < n ==> #[trigger] r[i] == ' '
            &&& forall|i: int| 0 <= i < n - s.len() ==> #[trigger] l[i] == ' '
        }),
{
    let r = padded_right(s, width);
    let l = padded_left(s, width);
    assert(r.take(s.len() as int) =~= s);
    assert(l.skip(l.len() - s.len()) =~= s);
}

/// A text of at most `n` characters is not cut off. A longer one keeps all but one of its first `n`
/// characters, and two dots stand for the rest.
pub proof fn law_truncation(s: Seq<char>, n: nat)
    ensures
        s.len() <= n ==> truncated(s, n) == s,
        s.len() > n > 0 ==> truncated(s, n).len() == n + 1 && truncated(s, n).take(n - 1) == s.take(n - 1),
        s.len() > n ==> truncated(s, n).last() == '.' && truncated(s, n)[truncated(s, n).len() - 2] == '.',
{
    reveal_strlit("..");
    if s.len() > n > 0 {
        assert(truncated(s, n).take(n - 1) =~= s.take(n - 1));
    }
}

/// Joining puts each text in its place, with the separator between it and the next: what is joined of
/// two lists is what is joined of each, with the separator between.
pub proof fn law_joining(a: Seq<Seq<char>>, b: Seq<Seq<char>>, sep: Seq<char>, x: Seq<char>)
    ensures
        a.len() > 0 && b.len() > 0 ==> joined(a + b, sep) == joined(a, sep) + sep + joined(b, sep),
        joined(seq![x], sep) == x,
        joined(Seq::empty(), sep).len() == 0,
    decreases b.len(),
{
    if a.len() > 0 && b.len() > 0 {
        assert((a + b).drop_last() =~= a + b.drop_last());
        assert((a + b).last() == b.last());
        if b.len() == 1 {
            assert(a + b.drop_last() =~= a);
        } else {
            law_joining(a, b.drop_last(), sep, x);
            assert(joined(a + b, sep) =~= joined(a, sep) + sep + joined(b, sep));
        }
    }
}

/// A number is read digit by digit: one more digit is ten times as much and that digit; leading zeros
/// and a plus sign change nothing; and a text with anything else in it is no number.
pub proof fn law_numbers_are_read_by_digits(s: Seq<char>, c: char, max: nat)
    requires
        s.len() > 0,
    ensures
        '0' <= c && c <= '9' && all_digits(s) ==> digits_value(s.push(c)) == 10 * digits_value(s) + (c as int - '0' as int),
        s[0] != '+' ==> parsed_number(seq!['+'] + s, max) == parsed_number(s, max),
        all_digits(s) ==> parsed_number(seq!['0'] + s, max) == parsed_number(s, max),
        all_digits(s) ==> parsed_number(s, max) == (if digits_value(s) <= max {
            Some(digits_value(s))
        } else {
            None
        }),
        !(s[0] == '+') && !all_digits(s) ==> parsed_number(s, max) is None,
{
    assert(s.push(c).drop_last() =~= s);
    let plus = seq!['+'] + s;
    assert(plus.drop_first() =~= s);
    let zero = seq!['0'] + s;
    if all_digits(s) {
        assert('0' <= s[0] && s[0] <= '9');
        lemma_leading_zero(s);
        assert forall|i: int| 0 <= i < zero.len() implies '0' <= #[trigger] zero[i] && zero[i] <= '9' by {
            if i > 0 {
                assert(zero[i] == s[i - 1]);
            }
        }
    }
}

proof fn lemma_leading_zero(s: Seq<char>)
    ensures
        digits_value(seq!['0'] + s) == digits_value(s),
    decreases s.len(),
{
    let zero = seq!['0'] + s;
    if s.len() == 0 {
        assert(zero.drop_last() =~= Seq::empty());
        assert(digits_value(zero.drop_last()) == 0);
    } else {
        lemma_leading_zero(s.drop_last());
        assert(zero.drop_last() =~= seq!['0'] + s.drop_last());
    }
}

/// `s` stands somewhere in `t`.
pub open spec fn holds(t: Seq<char>, s: Seq<char>) -> bool {
    exists|i: int| 0 <= i <= t.len() - s.len() && #[trigger] t.subrange(i, i + s.len()) == s
}

/// Each of the texts stands somewhere in `t`.
pub open spec fn holds_all(t: Seq<char>, all: Seq<Seq<char>>) -> bool {
    forall|k: int| 0 <= k < all.len() ==> holds(t, #[trigger] all[k])
}

/// What a text holds it still holds when more is added to it, and then it holds what is added, too.
pub proof fn lemma_holds(t: Seq<char>, all: Seq<Seq<char>>, label: Seq<char>, value: Seq<char>)
    requires
        holds_all(t, all),
    ensures
        holds_all(t + label, all),
        holds_all(t + label + value, all.push(label + value)),
{
    let longer = t + label + value;
    assert forall|k: int| 0 <= k < all.len() implies holds(t + label, #[trigger] all[k]) && holds(longer, all[k]) by {
        let s = all[k];
        let i = choose|i: int| 0 <= i <= t.len() - s.len() && #[trigger] t.subrange(i, i + s.len()) == s;
        assert((t + label).subrange(i, i + s.len()) =~= s);
        assert(longer.subrange(i, i + s.len()) =~= s);
    }
    let s = label + value;
    let at = t.len() as int;
    assert(longer.subrange(at, at + s.len()) =~= s);
    assert forall|k: int| 0 <= k < all.push(s).len() implies holds(longer, #[trigger] all.push(s)[k]) by {
        if k < all.len() {
            assert(holds(longer, all[k]));
        }
    }
}

/// Labels and values in turn.
pub open spec fn labelled(parts: Seq<(Seq<char>, Seq<char>)>) -> Seq<char>
    decreases parts.len(),
{
    if parts.len() == 0 {
        Seq::empty()
    } else {
        labelled(parts.drop_last()) + parts.last().0 + parts.last().1
    }
}

/// One more label with its value comes behind the others.
pub proof fn lemma_labelled_push(parts: Seq<(Seq<char>, Seq<char>)>, label: Seq<char>, value: Seq<char>)
    ensures
        labelled(parts.push((label, value))) == labelled(parts) + label + value,
        labelled(Seq::<(Seq<char>, Seq<char>)>::empty().push((label, value))) == label + value,
{
    let none = Seq::<(Seq<char>, Seq<char>)>::empty();
    assert(parts.push((label, value)).drop_last() =~= parts);
    assert(none.push((label, value)).drop_last() =~= none);
    assert(labelled(none) =~= Seq::empty());
    assert(labelled(none) + label =~= label);
}

/// Every label stands before its value.
pub proof fn lemma_labelled_holds(parts: Seq<(Seq<char>, Seq<char>)>, rest: Seq<char>)
    ensures
        forall|k: int| 0 <= k < parts.len() ==> holds(labelled(parts) + rest, (#[trigger] parts[k]).0 + parts[k].1),
    decreases parts.len(),
{
    if parts.len() > 0 {
        let front = parts.drop_last();
        let last = parts.last();
        let before = labelled(front);
        lemma_labelled_holds(front, last.0 + last.1 + rest);
        assert(labelled(parts) + rest =~= before + (last.0 + last.1 + rest));
        assert forall|k: int| 0 <= k < parts.len() implies holds(
            labelled(parts) + rest,
            (#[trigger] parts[k]).0 + parts[k].1,
        ) by {
            if k < front.len() {
                assert(front[k] == parts[k]);
            } else {
                let t = labelled(parts) + rest;
                let s = last.0 + last.1;
                let at = before.len() as int;
                assert(t.subrange(at, at + s.len()) =~= s);
            }
        }
    }
}

/// White space is the blank, the tab, the characters that end a line or a page, and the other spaces
/// and separators of Unicode, and nothing else.
pub proof fn law_white_space(c: char)
    ensures
        is_space(c) <==> (c == ' ' || c == '\t' || c == '\n' || c == '\u{b}' || c == '\u{c}' || c == '\r' || c == '\u{85}'
            || c == '\u{a0}' || c == '\u{1680}' || c == '\u{2000}' || c == '\u{2001}' || c == '\u{2002}' || c == '\u{2003}'
            || c == '\u{2004}' || c == '\u{2005}' || c == '\u{2006}' || c == '\u{2007}' || c == '\u{2008}' || c == '\u{2009}'
            || c == '\u{200a}' || c == '\u{2028}' || c == '\u{2029}' || c == '\u{202f}' || c == '\u{205f}' || c == '\u{3000}'),
{
}

} // verus!
