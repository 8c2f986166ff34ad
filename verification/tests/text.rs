use docweave::text::{is_whitespace_char, push_all, string_of, to_chars, trim};

#[test]
fn whitespace_is_the_unicode_property() {
    for c in ['\t', '\n', '\u{b}', '\u{c}', '\r', ' ', '\u{85}', '\u{a0}', '\u{1680}', '\u{2000}',
        '\u{2005}', '\u{200a}', '\u{2028}', '\u{2029}', '\u{202f}', '\u{205f}', '\u{3000}']
    {
        assert!(is_whitespace_char(c), "{:?}", c);
    }
    for c in ['a', '0', '\u{0}', '\u{8}', '\u{e}', '\u{1f}', '!', '\u{84}', '\u{86}', '\u{9f}',
        '\u{a1}', '\u{167f}', '\u{1fff}', '\u{200b}', '\u{2027}', '\u{202a}', '\u{2060}',
        '\u{3001}', '\u{feff}']
    {
        assert!(!is_whitespace_char(c), "{:?}", c);
    }
}

#[test]
fn whitespace_agrees_with_the_standard_library() {
    for n in 0..=0x10FFFFu32 {
        if let Some(c) = char::from_u32(n) {
            assert_eq!(is_whitespace_char(c), c.is_whitespace(), "{:?}", c);
        }
    }
}

#[test]
fn trim_takes_whitespace_from_both_ends() {
    assert_eq!(trim(&to_chars("  a b \n")), "a b");
    assert_eq!(trim(&to_chars("\u{3000}x\u{a0}")), "x");
    assert_eq!(trim(&to_chars("x")), "x");
    assert_eq!(trim(&to_chars(" \t\r\n")), "");
    assert_eq!(trim(&to_chars("")), "");
}

#[test]
fn trim_agrees_with_the_standard_library() {
    for s in ["", " ", "a", " a", "a ", " a b ", "\n\na\u{2003}", "\u{85}é\u{85}"] {
        assert_eq!(trim(&to_chars(s)), s.trim());
    }
}

#[test]
fn chars_and_strings_convert_both_ways() {
    let chars = to_chars("héllo");
    assert_eq!(chars, vec!['h', 'é', 'l', 'l', 'o']);
    assert_eq!(string_of(&chars, 0, 5), "héllo");
    assert_eq!(string_of(&chars, 1, 3), "él");
    assert_eq!(string_of(&chars, 2, 2), "");
    let mut more = to_chars("ab");
    push_all(&mut more, &chars);
    assert_eq!(string_of(&more, 0, more.len()), "abhéllo");
}
