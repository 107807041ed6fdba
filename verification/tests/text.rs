use dnsresolvr::order::{comes_first, Column};
use dnsresolvr::text::{
    chars_of, decimal, join, lowered, numbered, numeral_of, pad_left, pad_right, parse_number, push_repeated, same,
    same_ignoring_case, space, split_words, string_of, trimmed, truncate,
};

fn trim_of(s: &str) -> String {
    let v = chars_of(s);
    let n = v.len();
    string_of(&trimmed(&v, 0, n))
}

#[test]
fn texts_are_built_and_compared() {
    assert_eq!(string_of(&chars_of("häß→x")), "häß→x");
    assert!(same("abc", "abc"));
    assert!(!same("abc", "abC"));
    assert!(!same("abc", "ab"));
    assert!(same_ignoring_case("GitHub.COM", "github.com"));
    assert!(!same_ignoring_case("Ä", "ä"));
    assert_eq!(string_of(&lowered("AZaz09Ä@[")), "AZaz09Ä@[".to_ascii_lowercase());
}

#[test]
fn white_space_is_that_of_unicode() {
    for n in 0..0x11_0000u32 {
        if let Some(c) = char::from_u32(n) {
            assert_eq!(space(c), c.is_whitespace());
        }
    }
}

#[test]
fn trimming_takes_white_space_off_both_ends() {
    for s in ["", " ", "  a b \t", "\u{3000}x\u{85}", "x", "\r\n"] {
        assert_eq!(trim_of(s), s.trim());
    }
}

#[test]
fn words_are_split_at_white_space() {
    for s in ["", "  ", "q", " set  iter\t5 ", "a\u{a0}b\u{2003}c", "x\n"] {
        let expected: Vec<String> = s.split_whitespace().map(|w| w.to_string()).collect();
        assert_eq!(split_words(s), expected);
    }
}

#[test]
fn numerals_are_those_of_the_number() {
    for n in [0u128, 1, 9, 10, 255, 1_000_000, u64::MAX as u128, u128::MAX] {
        assert_eq!(decimal(n), n.to_string());
        assert_eq!(numeral_of(n, 16), format!("{:x}", n));
        assert_eq!(numeral_of(n, 2), format!("{:b}", n));
    }
    assert_eq!(numbered("a ", 12, " b"), "a 12 b");
}

#[test]
fn numbers_are_read_as_the_standard_library_reads_them() {
    for s in [
        "", "+", "-", "0", "007", "+5", "++5", "-1", "1_000", " 1", "1 ", "18446744073709551615", "18446744073709551616",
        "99999999999999999999999", "12a", "١",
    ] {
        assert_eq!(parse_number(s, u64::MAX), s.parse::<u64>().ok(), "{:?}", s);
    }
    assert_eq!(parse_number("256", 255), None);
    assert_eq!(parse_number("255", 255), Some(255));
}

#[test]
fn numerals_read_back() {
    for n in [0u64, 1, 42, 9_999_999_999, u64::MAX] {
        assert_eq!(parse_number(&decimal(n as u128), u64::MAX), Some(n));
    }
}

#[test]
fn joining_puts_the_separator_between() {
    let v: Vec<String> = ["a", "b", "c"].iter().map(|s| s.to_string()).collect();
    assert_eq!(join(&v, ", "), "a, b, c");
    assert_eq!(join(&v[..1].to_vec(), ", "), "a");
    assert_eq!(join(&Vec::new(), ", "), "");
}

#[test]
fn padding_counts_characters() {
    for s in ["", "ab", "häß", "a rather long text"] {
        assert_eq!(pad_right(s, 6), format!("{:<6}", s));
        assert_eq!(pad_left(s, 6), format!("{:>6}", s));
    }
    let mut r = "x".to_string();
    push_repeated(&mut r, '█', 3);
    assert_eq!(r, "x███");
}

#[test]
fn long_texts_are_cut_off_with_dots() {
    assert_eq!(truncate("abc", 3), "abc");
    assert_eq!(truncate("abcd", 3), "ab..");
    assert_eq!(truncate("äöüß", 2), "ä..");
    assert_eq!(truncate("a", 0), "..");
    assert_eq!(truncate("", 0), "");
}

#[test]
fn texts_are_ordered_by_their_characters() {
    let names = ["", "A", "AdGuard", "Cloudflare", "a", "é", "\u{10000}", "\u{ffff}"];
    for a in names {
        for b in names {
            assert_eq!(comes_first(a, b), a < b, "{:?} {:?}", a, b);
        }
    }
}

#[test]
fn columns_sort_stably() {
    let numbers = Column::Numbers(vec![3, 1, 2, 1, -5, 3]);
    assert_eq!(numbers.sort_order(), vec![4, 1, 3, 2, 0, 5]);
    let texts = Column::Texts(["b", "a", "c", "a"].iter().map(|s| s.to_string()).collect());
    assert_eq!(texts.sort_order(), vec![1, 3, 0, 2]);
    assert_eq!(Column::Numbers(Vec::new()).sort_order(), Vec::<usize>::new());
}
