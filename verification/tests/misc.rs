use textutils::cut::{get_and_validate_delimiter, Extract};
use textutils::echo::echo;
use textutils::format::{decimal_digits, push_field};
use textutils::source::{diagnostic, is_stdin};
use textutils::text::{is_blank_text, is_whitespace, measure};

#[test]
fn delimiter_of_one_byte_is_taken() {
    assert_eq!(get_and_validate_delimiter("\t".to_string()).unwrap(), b'\t');
    assert_eq!(get_and_validate_delimiter(",".to_string()).unwrap(), b',');
}

#[test]
fn delimiter_of_another_length_is_refused() {
    let refused = get_and_validate_delimiter(",,".to_string()).unwrap_err();
    assert_eq!(refused.delimiter, ",,");
    assert_eq!(refused.message(), "--delim \",,\" must be a single byte");
    let refused = get_and_validate_delimiter(String::new()).unwrap_err();
    assert_eq!(refused.message(), "--delim \"\" must be a single byte");
    let refused = get_and_validate_delimiter("\u{e9}".to_string()).unwrap_err();
    assert_eq!(refused.message(), "--delim \"\u{e9}\" must be a single byte");
}

#[test]
fn extract_holds_ranges_of_positions() {
    let fields = Extract::Fields(vec![0..1, 2..5]);
    assert!(matches!(&fields, Extract::Fields(list) if list.len() == 2 && list[1] == (2..5)));
    assert!(matches!(Extract::Bytes(vec![0..3]), Extract::Bytes(list) if list == vec![0..3]));
    assert!(matches!(Extract::Chars(Vec::new()), Extract::Chars(list) if list.is_empty()));
}

#[test]
fn echo_joins_words_with_spaces() {
    let words = vec!["Hello".to_string(), "there".to_string(), "world".to_string()];
    assert_eq!(echo(&words, false), "Hello there world\n");
    assert_eq!(echo(&words, true), "Hello there world");
}

#[test]
fn echo_of_one_word_or_none() {
    assert_eq!(echo(&vec!["one".to_string()], false), "one\n");
    assert_eq!(echo(&Vec::new(), false), "\n");
    assert_eq!(echo(&Vec::new(), true), "");
    assert_eq!(echo(&vec![String::new(), String::new()], true), " ");
}

#[test]
fn decimal_digits_of_small_and_large_numbers() {
    assert_eq!(decimal_digits(0), b"0");
    assert_eq!(decimal_digits(7), b"7");
    assert_eq!(decimal_digits(10), b"10");
    assert_eq!(decimal_digits(1905), b"1905");
    assert_eq!(decimal_digits(usize::MAX), usize::MAX.to_string().as_bytes());
}

#[test]
fn field_is_filled_from_the_left() {
    let mut out = Vec::new();
    push_field(&mut out, 42, 6);
    assert_eq!(out, b"    42");
    push_field(&mut out, 42, 2);
    assert_eq!(out, b"    4242");
    push_field(&mut out, 42, 0);
    assert_eq!(out, b"    424242");
    push_field(&mut out, 0, 3);
    assert_eq!(out, b"    424242  0");
}

#[test]
fn field_agrees_with_the_standard_formatting() {
    for n in [0usize, 1, 9, 10, 99, 100, 9999, 10000, 12345678, 123456789] {
        let mut out = Vec::new();
        push_field(&mut out, n, 8);
        assert_eq!(out, format!("{n:>8}").as_bytes());
        let mut out = Vec::new();
        push_field(&mut out, n, 4);
        assert_eq!(out, format!("{n:>4}").as_bytes());
    }
}

#[test]
fn only_the_dash_is_the_standard_input() {
    assert!(is_stdin("-"));
    assert!(!is_stdin(""));
    assert!(!is_stdin("--"));
    assert!(!is_stdin("- "));
    assert!(!is_stdin("file.txt"));
    assert!(!is_stdin("\u{2212}"));
}

#[test]
fn diagnostic_names_the_source_first() {
    assert_eq!(diagnostic("missing.txt", "No such file"), "missing.txt: No such file");
    assert_eq!(diagnostic("-", ""), "-: ");
}

#[test]
fn white_space_is_what_the_standard_library_takes_for_it() {
    for c in '\0'..=char::MAX {
        assert_eq!(is_whitespace(c), c.is_whitespace(), "at {:?}", c);
    }
}

#[test]
fn measure_counts_words_and_characters() {
    assert_eq!(measure(""), (0, 0));
    assert_eq!(measure("   "), (0, 3));
    assert_eq!(measure("one"), (1, 3));
    assert_eq!(measure(" one  two\n"), (2, 10));
    assert_eq!(measure("\u{e9}t\u{e9} \u{65e5}"), (2, 5));
}

#[test]
fn blank_text_holds_only_white_space() {
    assert!(is_blank_text(""));
    assert!(is_blank_text(" \t\r\n"));
    assert!(is_blank_text("\u{2003}"));
    assert!(!is_blank_text(" x "));
    assert!(!is_blank_text("\u{200b}"));
}
