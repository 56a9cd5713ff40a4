use memcache_response::lexer::{char_is_whitespace, chars_of, find_crlf, span_is, tokenize, Span};
use memcache_response::number::parse_unsigned;

fn words(text: &str) -> Vec<String> {
    let chars = chars_of(text);
    tokenize(&chars, chars.len())
        .iter()
        .map(|s| chars[s.start..s.end].iter().collect())
        .collect()
}

fn number(text: &str, max: u64) -> Option<u64> {
    let chars = chars_of(text);
    parse_unsigned(&chars, Span { start: 0, end: chars.len() }, max)
}

#[test]
fn characters_come_in_order() {
    assert_eq!(chars_of(""), Vec::<char>::new());
    assert_eq!(chars_of("a\u{e9}\r\n\u{1f600}"), vec!['a', '\u{e9}', '\r', '\n', '\u{1f600}']);
}

#[test]
fn whitespace_is_what_unicode_says() {
    for c in ['\t', '\n', '\u{b}', '\u{c}', '\r', ' ', '\u{85}', '\u{a0}', '\u{1680}', '\u{2000}',
              '\u{2005}', '\u{200a}', '\u{2028}', '\u{2029}', '\u{202f}', '\u{205f}', '\u{3000}'] {
        assert!(char_is_whitespace(c));
    }
    for c in ['\u{8}', '\u{e}', '\u{1f}', '!', '0', 'a', '\u{84}', '\u{86}', '\u{9f}', '\u{a1}',
              '\u{1fff}', '\u{200b}', '\u{2027}', '\u{202a}', '\u{2060}', '\u{3001}', '\u{feff}'] {
        assert!(!char_is_whitespace(c));
    }
}

#[test]
fn whitespace_agrees_with_the_standard_library() {
    let mut c = 0u32;
    while c <= 0x10ffff {
        if let Some(ch) = char::from_u32(c) {
            assert_eq!(char_is_whitespace(ch), ch.is_whitespace());
        }
        c += 1;
    }
}

#[test]
fn tokens_are_maximal_runs() {
    assert_eq!(words(""), Vec::<String>::new());
    assert_eq!(words(" \t\r\n "), Vec::<String>::new());
    assert_eq!(words("a"), vec!["a"]);
    assert_eq!(words("VALUE key 0 10"), vec!["VALUE", "key", "0", "10"]);
    assert_eq!(words("  VALUE\t\tkey \u{a0} 0  "), vec!["VALUE", "key", "0"]);
    assert_eq!(words("x\u{3000}y"), vec!["x", "y"]);
}

#[test]
fn tokens_stop_at_the_limit() {
    let chars = chars_of("ab cd ef");
    let spans = tokenize(&chars, 4);
    assert_eq!(spans, vec![Span { start: 0, end: 2 }, Span { start: 3, end: 4 }]);
    assert_eq!(tokenize(&chars, 0), Vec::<Span>::new());
}

#[test]
fn tokens_agree_with_the_standard_library() {
    for text in ["VERSION 1.4.5  beta", " a  b\tc\u{2003}d ", "one", "", "   ", "\u{e9}t\u{e9} 7"] {
        let expected: Vec<String> = text.split_whitespace().map(|w| w.to_owned()).collect();
        assert_eq!(words(text), expected);
    }
}

#[test]
fn first_terminator_is_found() {
    assert_eq!(find_crlf(&chars_of("\r\n")), 0);
    assert_eq!(find_crlf(&chars_of("OK\r\n")), 2);
    assert_eq!(find_crlf(&chars_of("a\rb\nc\r\r\nd\r\n")), 6);
    assert_eq!(find_crlf(&chars_of("\u{e9}\u{e9}\r\nEND\r\n")), 2);
}

#[test]
fn spans_are_compared_with_words() {
    let chars = chars_of("VALUE key");
    assert!(span_is(&chars, Span { start: 0, end: 5 }, "VALUE"));
    assert!(!span_is(&chars, Span { start: 0, end: 4 }, "VALUE"));
    assert!(!span_is(&chars, Span { start: 0, end: 6 }, "VALUE"));
    assert!(!span_is(&chars, Span { start: 0, end: 5 }, "VALUF"));
    assert!(span_is(&chars, Span { start: 6, end: 9 }, "key"));
    assert!(span_is(&chars, Span { start: 3, end: 3 }, ""));
}

#[test]
fn numbers_are_read_in_base_ten() {
    assert_eq!(number("0", u64::MAX), Some(0));
    assert_eq!(number("12345", u64::MAX), Some(12345));
    assert_eq!(number("+12345", u64::MAX), Some(12345));
    assert_eq!(number("00042", u64::MAX), Some(42));
    assert_eq!(number("18446744073709551615", u64::MAX), Some(u64::MAX));
    assert_eq!(number("18446744073709551616", u64::MAX), None);
    assert_eq!(number("4294967295", 4294967295), Some(4294967295));
    assert_eq!(number("4294967296", 4294967295), None);
    assert_eq!(number("", u64::MAX), None);
    assert_eq!(number("+", u64::MAX), None);
    assert_eq!(number("-1", u64::MAX), None);
    assert_eq!(number("1+", u64::MAX), None);
    assert_eq!(number("1 ", u64::MAX), None);
    assert_eq!(number("NaN", u64::MAX), None);
    assert_eq!(number("0x10", u64::MAX), None);
}

#[test]
fn numbers_agree_with_the_standard_library() {
    for text in ["0", "7", "+7", "-7", "", "+", "++7", "007", "1e3", "18446744073709551615",
                 "18446744073709551616", "99999999999999999999999", "4294967295", "4294967296",
                 "\u{663}", "12 "] {
        assert_eq!(number(text, u64::MAX), text.parse::<u64>().ok());
        assert_eq!(number(text, 4294967295), text.parse::<u32>().ok().map(|v| v as u64));
    }
}

#[test]
fn a_number_inside_a_text() {
    let chars = chars_of("VALUE key 17 3");
    assert_eq!(parse_unsigned(&chars, Span { start: 10, end: 12 }, u64::MAX), Some(17));
    assert_eq!(parse_unsigned(&chars, Span { start: 10, end: 12 }, 16), None);
    assert_eq!(parse_unsigned(&chars, Span { start: 13, end: 14 }, 3), Some(3));
    assert_eq!(parse_unsigned(&chars, Span { start: 6, end: 9 }, u64::MAX), None);
    assert_eq!(parse_unsigned(&chars, Span { start: 4, end: 4 }, u64::MAX), None);
}
