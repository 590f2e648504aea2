use progression_website::text::{
    chars_of, comes_before, decimal, find_char, insert_text, is_space, parse_number,
    replace_all, same_text, string_of, trim,
};

fn chars(s: &str) -> Vec<char> {
    s.chars().collect()
}

#[test]
fn a_text_is_its_characters() {
    assert_eq!(chars_of("h\u{e9}llo"), vec!['h', '\u{e9}', 'l', 'l', 'o']);
    assert_eq!(chars_of(""), Vec::<char>::new());
    assert_eq!(string_of(&vec!['a', '\u{3b2}', 'c']), "a\u{3b2}c");
    assert_eq!(string_of(&vec![]), "");
}

#[test]
fn texts_are_joined() {
    assert_eq!(progression_website::text::concat("lower anchor ", "PH 423"), "lower anchor PH 423");
    assert_eq!(progression_website::text::concat("", ""), "");
    assert_eq!(progression_website::text::concat("a", ""), "a");
}

#[test]
fn texts_are_compared() {
    assert!(same_text("abc", "abc"));
    assert!(!same_text("abc", "abd"));
    assert!(!same_text("abc", "ab"));
    assert!(same_text("", ""));
}

#[test]
fn white_space_is_what_unicode_says() {
    for c in [' ', '\t', '\n', '\r', '\u{b}', '\u{c}', '\u{85}', '\u{a0}', '\u{1680}', '\u{2000}',
        '\u{200a}', '\u{2028}', '\u{2029}', '\u{202f}', '\u{205f}', '\u{3000}']
    {
        assert!(is_space(c));
        assert!(c.is_whitespace());
    }
    for c in ['a', '0', '_', '\u{200b}', '\u{feff}', '\u{180e}'] {
        assert!(!is_space(c));
        assert!(!c.is_whitespace());
    }
}

#[test]
fn trimming_takes_white_space_from_both_ends() {
    assert_eq!(trim("  a b \t\n"), "a b");
    assert_eq!(trim("a"), "a");
    assert_eq!(trim(""), "");
    assert_eq!(trim(" \u{3000} "), "");
    assert_eq!(trim("\u{a0}x\u{a0}y\u{a0}"), "x\u{a0}y");
}

#[test]
fn numbers_are_written_in_decimal() {
    assert_eq!(decimal(0), "0");
    assert_eq!(decimal(7), "7");
    assert_eq!(decimal(10), "10");
    assert_eq!(decimal(1234567890), "1234567890");
    assert_eq!(decimal(usize::MAX), usize::MAX.to_string());
}

#[test]
fn decimal_numbers_are_read() {
    assert_eq!(parse_number("0"), Some(0));
    assert_eq!(parse_number("42"), Some(42));
    assert_eq!(parse_number("+42"), Some(42));
    assert_eq!(parse_number("0042"), Some(42));
    assert_eq!(parse_number(&usize::MAX.to_string()), Some(usize::MAX));
    assert_eq!(parse_number(""), None);
    assert_eq!(parse_number("+"), None);
    assert_eq!(parse_number("++1"), None);
    assert_eq!(parse_number("-1"), None);
    assert_eq!(parse_number("1 "), None);
    assert_eq!(parse_number("1a"), None);
    assert_eq!(parse_number("\u{661}"), None);
    // one more than the largest number
    let mut big = usize::MAX.to_string();
    let last = big.pop().unwrap();
    big.push(char::from_digit(last.to_digit(10).unwrap() + 1, 10).unwrap());
    assert_eq!(parse_number(&big), None);
    assert_eq!(parse_number("99999999999999999999999999999"), None);
}

#[test]
fn reading_agrees_with_the_standard_library() {
    for s in ["0", "12", "+7", "007", "", "+", "-3", "1.5", " 2", "18446744073709551615",
        "18446744073709551616", "340282366920938463463374607431768211456"]
    {
        assert_eq!(parse_number(s), s.parse::<usize>().ok());
    }
}

#[test]
fn characters_are_found() {
    let s = chars("a-b-c");
    assert_eq!(find_char(&s, '-', 0), 1);
    assert_eq!(find_char(&s, '-', 1), 1);
    assert_eq!(find_char(&s, '-', 2), 3);
    assert_eq!(find_char(&s, '-', 4), 5);
    assert_eq!(find_char(&s, 'x', 0), 5);
    assert_eq!(find_char(&s, 'a', 5), 5);
}

#[test]
fn occurrences_are_replaced_from_left_to_right() {
    assert_eq!(replace_all(&chars("aaa"), &chars("aa"), &chars("b")), chars("ba"));
    assert_eq!(replace_all(&chars("abcabc"), &chars("bc"), &chars("")), chars("aa"));
    assert_eq!(replace_all(&chars("abc"), &chars("x"), &chars("y")), chars("abc"));
    assert_eq!(replace_all(&chars(""), &chars("x"), &chars("y")), chars(""));
    assert_eq!(replace_all(&chars("ab"), &chars("abc"), &chars("y")), chars("ab"));
    assert_eq!(replace_all(&chars("xx"), &chars("x"), &chars("xx")), chars("xxxx"));
    for (s, p, w) in [("a\\\\b", "\\\\", "\\\\\\\\"), ("banana", "ana", "o"), ("aaaa", "aa", "a")] {
        assert_eq!(string_of(&replace_all(&chars(s), &chars(p), &chars(w))), s.replace(p, w));
    }
}

#[test]
fn texts_are_ordered_by_their_characters() {
    assert!(comes_before(&chars("a"), &chars("b")));
    assert!(comes_before(&chars(""), &chars("a")));
    assert!(comes_before(&chars("ab"), &chars("abc")));
    assert!(comes_before(&chars("Z"), &chars("a")));
    assert!(!comes_before(&chars("a"), &chars("a")));
    assert!(!comes_before(&chars("b"), &chars("a")));
    assert!(!comes_before(&chars("a"), &chars("")));
    for (a, b) in [("a", "\u{e9}"), ("\u{e9}", "z"), ("\u{ffff}", "\u{10000}"), ("abc", "abd")] {
        assert_eq!(comes_before(&chars(a), &chars(b)), a < b);
        assert_eq!(comes_before(&chars(b), &chars(a)), b < a);
    }
}

#[test]
fn texts_are_kept_in_order_and_once() {
    let mut v: Vec<String> = Vec::new();
    for s in ["pear", "apple", "fig", "apple", "", "fig", "banana"] {
        insert_text(&mut v, s.to_string());
    }
    assert_eq!(v, vec!["", "apple", "banana", "fig", "pear"]);
}
