use flu::text::{
    find_in, is_whitespace, leading_spaces, position_of, same_text, split_lines, starts_with,
    tail_after_last, to_chars, to_string, trailing_spaces, trimmed, trimmed_start,
};

fn chars(s: &str) -> Vec<char> {
    s.chars().collect()
}

#[test]
fn white_space_is_what_the_standard_library_says() {
    for n in 0..=0x10FFFFu32 {
        if let Some(c) = char::from_u32(n) {
            assert_eq!(is_whitespace(c), c.is_whitespace(), "U+{:04X}", n);
        }
    }
}

#[test]
fn strings_and_characters() {
    assert_eq!(to_chars("a✗b"), vec!['a', '✗', 'b']);
    assert_eq!(to_string(&vec!['a', '✗', 'b']), "a✗b");
    assert_eq!(to_string(&Vec::new()), "");
    assert!(same_text("abc", "abc"));
    assert!(!same_text("abc", "abd"));
    assert!(!same_text("abc", "ab"));
    assert!(same_text("", ""));
}

#[test]
fn trimming() {
    let v = chars(" \t a b \n ");
    assert_eq!(leading_spaces(&v), 3);
    assert_eq!(trailing_spaces(&v), 3);
    assert_eq!(trimmed_start(&v), chars("a b \n "));
    assert_eq!(trimmed(&v), chars("a b"));
    assert_eq!(trimmed(&chars("   ")), chars(""));
    assert_eq!(trimmed(&chars("")), chars(""));
    assert_eq!(leading_spaces(&chars("   ")), 3);
}

#[test]
fn searching() {
    let v = chars("a/b/c:d");
    assert_eq!(position_of(&v, '/'), 1);
    assert_eq!(position_of(&v, ':'), 5);
    assert_eq!(position_of(&v, 'x'), 7);
    assert_eq!(tail_after_last(&v, '/'), chars("c:d"));
    assert_eq!(tail_after_last(&v, 'x'), v);
    assert_eq!(tail_after_last(&chars("a/"), '/'), chars(""));
    assert!(starts_with(&v, &chars("a/")));
    assert!(starts_with(&v, &chars("")));
    assert!(!starts_with(&v, &chars("/")));
    assert!(!starts_with(&chars("a"), &chars("ab")));
    assert_eq!(find_in(&chars("x-->-->y"), &chars("-->")), Some(1));
    assert_eq!(find_in(&chars("abc"), &chars("c")), Some(2));
    assert_eq!(find_in(&chars("abc"), &chars("")), Some(0));
    assert_eq!(find_in(&chars(""), &chars("")), Some(0));
    assert_eq!(find_in(&chars("ab"), &chars("abc")), None);
    assert_eq!(find_in(&chars("--x->"), &chars("-->")), None);
}

#[test]
fn lines_as_the_standard_library_splits_them() {
    for text in [
        "", "a", "a\n", "a\nb", "a\r\nb\r\n", "\n", "\n\n", "a\r", "a\r\n", "\r\n\r\n", "a\n\nb\n",
        "\ra\r\r\nb", "x\n\r",
    ] {
        let expected: Vec<Vec<char>> = text.lines().map(chars).collect();
        assert_eq!(split_lines(&chars(text)), expected, "{:?}", text);
    }
}
