use pyspector_core::text::{
    chars_of, contains, contains_char, ends_with, find_from, is_white_space, join, push_decimal,
    rfind_end,
    slice_chars, split, split_lines, starts_with, string_of, trim_bounds, trim_chars,
    trim_string,
};

fn text_chars(s: &str) -> Vec<char> {
    s.chars().collect()
}

#[test]
fn chars_of_keeps_every_character() {
    assert_eq!(chars_of("aé\u{1F600}b"), vec!['a', 'é', '\u{1F600}', 'b']);
    assert_eq!(chars_of(""), Vec::<char>::new());
}

#[test]
fn string_of_takes_a_character_range() {
    let v = text_chars("héllo");
    assert_eq!(string_of(&v, 1, 4), "éll");
    assert_eq!(string_of(&v, 2, 2), "");
    assert_eq!(slice_chars(&v, 0, 2), vec!['h', 'é']);
}

#[test]
fn trim_removes_white_space_on_both_sides() {
    assert_eq!(trim_string("  a b \t\n"), "a b");
    assert_eq!(trim_string("\u{3000}x\u{a0}"), "x");
    assert_eq!(trim_string(" \t "), "");
    assert_eq!(trim_string(""), "");
    assert_eq!(trim_string("plain"), "plain");
    assert_eq!(trim_bounds(&text_chars("  ab ")), (2, 4));
    assert_eq!(trim_bounds(&text_chars("   ")), (3, 3));
    assert_eq!(trim_chars(&text_chars(" x ")), vec!['x']);
}

#[test]
fn trim_twice_is_trim_once() {
    for s in ["  a  ", "\tb", "c\n", "", "   ", " d e "] {
        let once = trim_string(s);
        assert_eq!(trim_string(&once), once);
    }
}

#[test]
fn prefix_suffix_and_infix() {
    let v = text_chars("\"\"\"doc\"\"\"");
    let q = text_chars("\"\"\"");
    assert!(starts_with(&v, &q));
    assert!(ends_with(&v, &q));
    assert!(contains(&v, &text_chars("doc")));
    assert!(!contains(&v, &text_chars("dox")));
    assert!(contains(&v, &text_chars("")));
    assert!(!starts_with(&text_chars("ab"), &text_chars("abc")));
    assert!(!ends_with(&text_chars("ab"), &text_chars("cab")));
    assert!(contains(&text_chars("a = b"), &text_chars(" = ")));
    assert!(!contains(&text_chars("a=b"), &text_chars(" = ")));
    assert!(contains_char(&text_chars("f(x)"), '('));
    assert!(!contains_char(&text_chars("fx"), '('));
}

#[test]
fn find_first_and_last() {
    let v = text_chars("a(b)(c)");
    assert_eq!(find_from(&v, '(', 0), 1);
    assert_eq!(find_from(&v, '(', 2), 4);
    assert_eq!(find_from(&v, '[', 0), 7);
    assert_eq!(rfind_end(&v, ')'), 7);
    assert_eq!(rfind_end(&v, '('), 5);
    assert_eq!(rfind_end(&v, ']'), 0);
}

#[test]
fn split_keeps_empty_pieces() {
    let pieces = split(&text_chars("a,,b,"), ',');
    assert_eq!(
        pieces,
        vec![text_chars("a"), text_chars(""), text_chars("b"), text_chars("")]
    );
    assert_eq!(split(&text_chars(""), ','), vec![text_chars("")]);
    assert_eq!(split(&text_chars("abc"), '.'), vec![text_chars("abc")]);
}

#[test]
fn lines_end_at_line_feeds() {
    assert_eq!(split_lines("a\nb\r\nc"), vec!["a", "b", "c"]);
    assert_eq!(split_lines("a\n"), vec!["a"]);
    assert_eq!(split_lines("a\n\nb"), vec!["a", "", "b"]);
    assert_eq!(split_lines(""), Vec::<String>::new());
    assert_eq!(split_lines("\n"), vec![""]);
    assert_eq!(split_lines("a\rb"), vec!["a\rb"]);
    assert_eq!(split_lines("a\r"), vec!["a\r"]);
    assert_eq!(split_lines("a\r\r\n"), vec!["a\r"]);
}

#[test]
fn lines_agree_with_std() {
    for s in ["", "x", "x\n", "x\r\n", "\r\n", "a\nb\n\nc\r\n\r\nd", "a\r", "\n\n", "é\nü"] {
        let expected: Vec<String> = s.lines().map(|l| l.to_string()).collect();
        assert_eq!(split_lines(s), expected, "lines of {:?}", s);
    }
}

#[test]
fn decimal_numerals() {
    for n in [0usize, 7, 10, 42, 100, 1234567890, usize::MAX] {
        let mut s = String::from("n=");
        push_decimal(&mut s, n);
        assert_eq!(s, format!("n={}", n));
    }
}

#[test]
fn join_puts_separators_between_parts() {
    let a = String::from("a");
    let b = String::from("b");
    let c = String::from("c");
    assert_eq!(join(&vec![&a, &b, &c], '.'), "a.b.c");
    assert_eq!(join(&vec![&a], '.'), "a");
    assert_eq!(join(&Vec::new(), '.'), "");
}

#[test]
fn white_space_is_the_unicode_property() {
    let mut count = 0;
    for n in 0u32..=0x10ffff {
        if let Some(c) = char::from_u32(n) {
            assert_eq!(is_white_space(c), c.is_whitespace(), "character {:#x}", n);
            if is_white_space(c) {
                count += 1;
            }
        }
    }
    assert_eq!(count, 25);
    assert!(is_white_space(' '));
    assert!(is_white_space('\n'));
    assert!(is_white_space('\u{a0}'));
    assert!(!is_white_space('#'));
    assert!(!is_white_space('\u{200b}'));
}

#[test]
fn trim_agrees_with_std() {
    for s in ["", " ", " a ", "\u{2003}x\u{85}", "\t\r\n y \u{3000}", "\u{200b} z", "no"] {
        assert_eq!(trim_string(s), s.trim(), "text {:?}", s);
    }
}
