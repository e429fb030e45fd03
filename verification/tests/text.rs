use tui_mcp::text::{
    contains, count_occurrences, is_blank, join, push_dec, push_padded, split_at_char, str_eq,
    str_lt, strip, to_lower, to_upper, trim,
};

#[test]
fn ascii_case_only() {
    assert_eq!(to_lower("AbZ\u{c4}"), "abz\u{c4}");
    assert_eq!(to_upper("aBz\u{e4}"), "ABZ\u{e4}");
}

#[test]
fn equality_and_order_are_those_of_str() {
    let words = ["", "a", "ab", "b", "B", "\u{e9}", "a\u{e9}", "aa"];
    for a in words {
        for b in words {
            assert_eq!(str_eq(a, b), a == b);
            assert_eq!(str_lt(a, b), a < b);
        }
    }
}

#[test]
fn splitting_trimming_and_joining_are_those_of_str() {
    for s in ["", "+", "a+b", "+a+", "a", "  x\t", "\u{2003}y\u{a0}", " \n "] {
        let parts: Vec<&str> = s.split('+').collect();
        assert_eq!(split_at_char(s, '+'), parts);
        assert_eq!(trim(s), s.trim());
        assert_eq!(is_blank(s), s.trim().is_empty());
        assert_eq!(join(&split_at_char(s, '+'), "+"), s);
    }
    assert_eq!(strip("SIGINT", "SIG"), "INT");
    assert_eq!(strip("INT", "SIG"), "INT");
}

#[test]
fn occurrences_are_those_of_str() {
    for (hay, needle) in [("aaaa", "aa"), ("abc", ""), ("", ""), ("", "x"), ("xyxyx", "xyx")] {
        let h: Vec<char> = hay.chars().collect();
        let n: Vec<char> = needle.chars().collect();
        assert_eq!(count_occurrences(&h, &n, 100), hay.matches(needle).count());
        assert_eq!(contains(hay, needle), hay.contains(needle));
    }
    let h: Vec<char> = "aaaa".chars().collect();
    assert_eq!(count_occurrences(&h, &['a'], 3), 3);
}

#[test]
fn numbers_are_written_in_decimal() {
    for n in [0u64, 9, 10, 255, 65535, u64::MAX] {
        let mut s = String::from("n=");
        push_dec(&mut s, n);
        assert_eq!(s, format!("n={n}"));
        let mut s = String::new();
        push_padded(&mut s, n, 6, ' ');
        assert_eq!(s, format!("{n:>6}"));
        let mut s = String::new();
        push_padded(&mut s, n, 2, '0');
        assert_eq!(s, format!("{n:02}"));
    }
}

#[test]
fn whitespace_is_that_of_char() {
    let trimmed = (0..=0x10ffffu32)
        .filter_map(char::from_u32)
        .filter(|c| trim(&c.to_string()).is_empty())
        .collect::<Vec<char>>();
    let expected: Vec<char> = "\t\n\u{b}\u{c}\r \u{85}\u{a0}\u{1680}\u{2000}\u{2001}\u{2002}\u{2003}\
        \u{2004}\u{2005}\u{2006}\u{2007}\u{2008}\u{2009}\u{200a}\u{2028}\u{2029}\u{202f}\u{205f}\
        \u{3000}"
        .chars()
        .collect();
    assert_eq!(trimmed, expected);
}

#[test]
fn trimming_twice_changes_nothing_more() {
    for s in ["", " a b ", "\u{3000}x\u{2003}", "  "] {
        assert_eq!(trim(&trim(s)), trim(s));
    }
}
