use langler_content::text::{
    append, chars_of, find, join, lowercase_ascii, same_ignoring_ascii_case, slice, text_of, trim,
    whitespace,
};

fn chars(s: &str) -> Vec<char> {
    s.chars().collect()
}

#[test]
fn whitespace_is_the_unicode_property() {
    for code in 0..=0x10FFFFu32 {
        if let Some(c) = char::from_u32(code) {
            assert_eq!(whitespace(c), c.is_whitespace(), "U+{:04X}", code);
        }
    }
}

#[test]
fn lowercase_ascii_changes_capitals_only() {
    for code in 0..=0x10FFFFu32 {
        if let Some(c) = char::from_u32(code) {
            assert_eq!(lowercase_ascii(c), c.to_ascii_lowercase(), "U+{:04X}", code);
        }
    }
}

#[test]
fn chars_of_and_text_of_are_inverse() {
    for s in ["", "a", "niño", "日本語 text", " \t "] {
        assert_eq!(chars_of(s), chars(s));
        assert_eq!(text_of(&chars(s)), s);
    }
}

#[test]
fn trim_removes_whitespace_at_both_ends() {
    for s in [
        "",
        " ",
        "\t\n\r ",
        "word",
        "  word",
        "word  ",
        " two words ",
        "\u{a0}no-break\u{a0}",
        "\u{3000}wide\u{2003}",
        "\u{200b}zero width stays\u{200b}",
        " \n inner \t space \n ",
    ] {
        assert_eq!(text_of(&trim(&chars(s))), s.trim(), "{:?}", s);
    }
}

#[test]
fn find_gives_the_first_position() {
    let cases = [
        ("hello world", "world"),
        ("hello world", "o"),
        ("hello", "hello"),
        ("hello", "hello!"),
        ("aaa", "aa"),
        ("abcabc", "cab"),
        ("niño y niña", "niña"),
        ("", "x"),
        ("x", ""),
        ("", ""),
        ("abc", "d"),
        ("ab", "abc"),
    ];
    for (text, needle) in cases {
        let expected = text.find(needle).map(|at| text[..at].chars().count());
        assert_eq!(find(&chars(text), &chars(needle)), expected, "{:?} in {:?}", needle, text);
    }
}

#[test]
fn slice_takes_a_range_of_characters() {
    assert_eq!(slice(&chars("señor"), 1, 4), chars("eño"));
    assert_eq!(slice(&chars("señor"), 0, 0), chars(""));
    assert_eq!(slice(&chars("señor"), 0, 5), chars("señor"));
}

#[test]
fn append_adds_at_the_end() {
    let mut text = chars("ab");
    append(&mut text, &chars("cd"));
    assert_eq!(text, chars("abcd"));
    append(&mut text, &chars(""));
    assert_eq!(text, chars("abcd"));
}

#[test]
fn join_puts_the_separator_between_the_parts() {
    let parts = vec![chars("a"), chars(""), chars("bc")];
    assert_eq!(join(&parts, &chars(", ")), chars("a, , bc"));
    assert_eq!(join(&vec![chars("alone")], &chars(", ")), chars("alone"));
    assert_eq!(join(&vec![], &chars(", ")), chars(""));
    assert_eq!(join(&parts, &chars("")), chars("abc"));
}

#[test]
fn same_ignoring_ascii_case_folds_ascii_letters_only() {
    let cases = [
        ("EL PAÍS", "el paÍs"),
        ("EL PAÍS", "el país"),
        ("El País", "EL PAÍS"),
        ("abc", "ABC"),
        ("abc", "abcd"),
        ("", ""),
        ("a1-", "A1-"),
        ("k", "K"),
        ("\u{212a}", "k"),
    ];
    for (a, b) in cases {
        assert_eq!(
            same_ignoring_ascii_case(&chars(a), &chars(b)),
            a.eq_ignore_ascii_case(b),
            "{:?} and {:?}",
            a,
            b
        );
    }
}
