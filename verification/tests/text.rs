use sysadmin::text::{
    chars_of, contains_chars, decimal_chars, is_white_space, join_with, split_blocks, split_char,
    split_lines, split_words, trim_chars, trim_end_chars,
};

fn chars(s: &str) -> Vec<char> {
    s.chars().collect()
}

fn string_from(v: &Vec<char>) -> String {
    v.iter().collect()
}

fn texts(pieces: Vec<Vec<char>>) -> Vec<String> {
    pieces.iter().map(|p| p.iter().collect()).collect()
}

#[test]
fn text_lines_strip_crlf_and_final_newline() {
    assert_eq!(texts(split_lines(&chars("a\r\nb\n\nc\r"))), vec!["a", "b", "", "c\r"]);
    assert_eq!(texts(split_lines(&chars("a\n"))), vec!["a"]);
    assert_eq!(texts(split_lines(&chars(""))), Vec::<String>::new());
    assert_eq!(texts(split_lines(&chars("\n"))), vec![""]);
}

#[test]
fn text_words_blocks_and_fields() {
    assert_eq!(texts(split_words(&chars(" a  b\tc\u{A0}d\n"))), vec!["a", "b", "c", "d"]);
    assert_eq!(texts(split_blocks(&chars("a\n\n\nb\n\n"))), vec!["a", "\nb", ""]);
    assert_eq!(texts(split_char(&chars("a,,b"), ',')), vec!["a", "", "b"]);
    assert_eq!(texts(split_char(&chars(""), ',')), vec![""]);
}

#[test]
fn text_trimming_and_joining() {
    assert_eq!(string_from(&trim_chars(&chars(" \t x y \n"))), "x y");
    assert_eq!(string_from(&trim_end_chars(&chars(" x \r\n"))), " x");
    let pieces = vec![chars("a"), chars("b"), chars("c")];
    assert_eq!(string_from(&join_with(&pieces, &chars(", "))), "a, b, c");
    assert_eq!(string_from(&join_with(&vec![], &chars(","))), "");
}

#[test]
fn text_search_and_numbers() {
    assert!(contains_chars(&chars("alphabet"), &chars("hab")));
    assert!(contains_chars(&chars("abc"), &chars("")));
    assert!(!contains_chars(&chars("ab"), &chars("abc")));
    assert_eq!(string_from(&decimal_chars(0)), "0");
    assert_eq!(string_from(&decimal_chars(1234)), "1234");
    assert_eq!(string_from(&decimal_chars(u64::MAX)), "18446744073709551615");
}

#[test]
fn text_characters_and_unicode_white_space() {
    assert_eq!(chars_of("héllo"), chars("héllo"));
    assert_eq!(texts(split_words(&chars("a\u{B}b\u{2003}c"))), vec!["a", "b", "c"]);
    assert_eq!(string_from(&trim_chars(&chars("\u{A0}x\u{3000}"))), "x");
}

#[test]
fn white_space_is_the_unicode_property() {
    for c in ['\t', '\n', '\u{B}', '\u{C}', '\r', ' ', '\u{85}', '\u{A0}', '\u{1680}', '\u{2000}',
        '\u{200A}', '\u{2028}', '\u{2029}', '\u{202F}', '\u{205F}', '\u{3000}']
    {
        assert!(is_white_space(c) && c.is_whitespace(), "{:?}", c);
    }
    for c in ['x', '\u{0}', '\u{1C}', '\u{200B}', '\u{FEFF}', '\u{180E}'] {
        assert!(!is_white_space(c) && !c.is_whitespace(), "{:?}", c);
    }
}
