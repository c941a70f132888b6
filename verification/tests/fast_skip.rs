use rustine::exec::skip::{try_fast_skip, try_fast_skip_kind};
use rustine::parser::ast::FastPathKind;

#[test]
fn dot_takes_one_ascii_byte() {
    assert_eq!(try_fast_skip_kind(FastPathKind::Dot, b"ab"), Some(1));
}

#[test]
fn dot_leaves_a_multibyte_character_to_the_regex() {
    assert_eq!(try_fast_skip_kind(FastPathKind::Dot, "é".as_bytes()), None);
}

#[test]
fn dot_does_not_cross_a_line_break() {
    assert_eq!(try_fast_skip_kind(FastPathKind::Dot, b"\nx"), None);
}

#[test]
fn line_skip_stops_at_lone_carriage_return() {
    assert_eq!(try_fast_skip_kind(FastPathKind::SkipToOptCrNl, b"a\rb\n"), None);
}

#[test]
fn line_skip_takes_crlf() {
    assert_eq!(try_fast_skip_kind(FastPathKind::SkipToOptCrNl, b"ab\r\nz"), Some(4));
}

#[test]
fn line_skip_takes_bare_newline() {
    assert_eq!(try_fast_skip_kind(FastPathKind::SkipToOptCrNl, b"ab\nz"), Some(3));
}

#[test]
fn whitespace_includes_vertical_tab() {
    assert_eq!(try_fast_skip_kind(FastPathKind::Whitespace, b"\x0b x"), Some(2));
}

#[test]
fn whitespace_before_non_ascii_is_left_to_the_regex() {
    assert_eq!(try_fast_skip_kind(FastPathKind::Whitespace, " \u{2003}x".as_bytes()), None);
}

#[test]
fn non_whitespace_stops_at_space() {
    assert_eq!(try_fast_skip_kind(FastPathKind::NonWhitespace, b"ab cd"), Some(2));
}

#[test]
fn digits_stop_at_letter() {
    assert_eq!(try_fast_skip_kind(FastPathKind::Digits, b"12a"), Some(2));
}

#[test]
fn digits_before_non_ascii_are_left_to_the_regex() {
    assert_eq!(try_fast_skip_kind(FastPathKind::Digits, "1\u{663}".as_bytes()), None);
}

#[test]
fn word_chars_stop_at_punctuation() {
    assert_eq!(try_fast_skip_kind(FastPathKind::WordChars, b"a_1-b"), Some(3));
}

#[test]
fn unclassified_is_left_to_the_regex() {
    assert_eq!(try_fast_skip_kind(FastPathKind::Unclassified, b"abc"), None);
}

#[test]
fn pattern_text_selects_the_scan() {
    assert_eq!(try_fast_skip("[^\\r\\n]*\\r?\\n", b"a\rb\n"), None);
    assert_eq!(try_fast_skip("[^\\r\\n]*\\r?\\n", b"abc\r\n"), Some(5));
    assert_eq!(try_fast_skip("\\s+", b"  x"), Some(2));
    assert_eq!(try_fast_skip("foo", b"foo"), None);
}
