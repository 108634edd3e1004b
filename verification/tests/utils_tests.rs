use mydsl::text::{chars_of, decimal_string, parse_number, string_from_chars, string_from_range, trimmed_string, word_char};
use mydsl::utils::unescape_string;

#[test]
fn unescape_decodes_newline_return_and_tab() {
    assert_eq!(unescape_string("Hello\\nWorld"), "Hello\nWorld");
    assert_eq!(unescape_string("a\\rb"), "a\rb");
    assert_eq!(unescape_string("Tab:\\tIndent"), "Tab:\tIndent");
}

#[test]
fn unescape_decodes_quote_and_backslash() {
    assert_eq!(unescape_string("say \\\"hi\\\""), "say \"hi\"");
    assert_eq!(unescape_string("a\\\\b"), "a\\b");
}

#[test]
fn unescape_leaves_plain_text_alone() {
    assert_eq!(unescape_string(""), "");
    assert_eq!(unescape_string("plain text"), "plain text");
    assert_eq!(unescape_string("a\nb"), "a\nb");
}

#[test]
fn unescape_leaves_unknown_escapes_and_single_backslashes() {
    assert_eq!(unescape_string("a\\qb"), "a\\qb");
    assert_eq!(unescape_string("end\\"), "end\\");
}

#[test]
fn unescape_reads_the_text_once() {
    // two backslashes and an n: the pair is one backslash, the n stays
    assert_eq!(unescape_string("\\\\n"), "\\n");
    // three backslashes and an n: a backslash, then a newline
    assert_eq!(unescape_string("\\\\\\n"), "\\\n");
    // four backslashes: two backslashes
    assert_eq!(unescape_string("\\\\\\\\"), "\\\\");
    // an escaped backslash before a quote
    assert_eq!(unescape_string("\\\\\""), "\\\"");
    // an escaped backslash before t, r
    assert_eq!(unescape_string("\\\\t\\\\r"), "\\t\\r");
}

#[test]
fn unescape_keeps_unicode() {
    assert_eq!(unescape_string("문제\\t끝"), "문제\t끝");
}

#[test]
fn decimal_string_writes_numbers() {
    assert_eq!(decimal_string(0), "0");
    assert_eq!(decimal_string(7), "7");
    assert_eq!(decimal_string(10), "10");
    assert_eq!(decimal_string(12345), "12345");
    assert_eq!(decimal_string(usize::MAX), usize::MAX.to_string());
}

#[test]
fn parse_number_reads_digit_runs() {
    let chars = chars_of("x123y");
    assert_eq!(parse_number(&chars, 1, 4), Some(123));
    assert_eq!(parse_number(&chars, 1, 1), None);
    assert_eq!(parse_number(&chars, 0, 4), None);
    assert_eq!(parse_number(&chars, 1, 5), None);
}

#[test]
fn chars_and_strings_convert_both_ways() {
    let chars = chars_of("héllo");
    assert_eq!(chars, vec!['h', 'é', 'l', 'l', 'o']);
    assert_eq!(string_from_chars(&chars), "héllo");
    assert_eq!(string_from_range(&chars, 1, 3), "él");
    assert_eq!(string_from_range(&chars, 2, 2), "");
}

#[test]
fn trimmed_string_cuts_whitespace_at_both_ends() {
    let chars = chars_of("  a b \t\n");
    assert_eq!(trimmed_string(&chars, 0, chars.len()), "a b");
    assert_eq!(trimmed_string(&chars, 0, 2), "");
    assert_eq!(trimmed_string(&chars, 2, 5), "a b");
}

#[test]
fn word_chars_are_letters_digits_and_underscore() {
    assert!(word_char('a'));
    assert!(word_char('9'));
    assert!(word_char('_'));
    assert!(word_char('문'));
    assert!(!word_char('-'));
    assert!(!word_char(' '));
    assert!(!word_char('.'));
}
