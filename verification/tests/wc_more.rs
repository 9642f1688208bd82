use textutils::lines::ReadError;
use textutils::wc::{
    aggregate, check_args, count, print_file_info, print_source_row, print_total_row, Columns,
    FileInfo,
};

fn info(lines: usize, words: usize, bytes: usize, chars: usize) -> FileInfo {
    FileInfo { num_lines: lines, num_words: words, num_bytes: bytes, num_chars: chars }
}

const ALL: Columns = Columns { lines: true, words: true, bytes: true, chars: true };
const DEFAULT: Columns = Columns { lines: true, words: true, bytes: true, chars: false };

#[test]
fn count_of_nothing_is_zero() {
    assert_eq!(count(b""), Ok(info(0, 0, 0, 0)));
}

#[test]
fn count_takes_a_last_piece_without_newline_as_a_line() {
    assert_eq!(count(b"one\ntwo"), Ok(info(2, 2, 7, 7)));
    assert_eq!(count(b"one"), Ok(info(1, 1, 3, 3)));
    assert_eq!(count(b"one\n"), Ok(info(1, 1, 4, 4)));
    assert_eq!(count(b"\n"), Ok(info(1, 0, 1, 1)));
    assert_eq!(count(b"\n\n\n"), Ok(info(3, 0, 3, 3)));
    assert_eq!(count(b"\n\nx"), Ok(info(3, 1, 3, 3)));
}

#[test]
fn count_tells_characters_from_bytes() {
    let text = "gr\u{fc}n \u{65e5}\u{672c}\n\u{1f600}\n";
    assert_eq!(count(text.as_bytes()), Ok(info(2, 3, 18, 10)));
}

#[test]
fn count_splits_words_at_any_white_space() {
    assert_eq!(count(b"  a\t\tb  c \n"), Ok(info(1, 3, 11, 11)));
    let text = "a\u{a0}b\u{2003}c\u{3000}d\u{85}e\n";
    assert_eq!(count(text.as_bytes()).unwrap().num_words, 5);
    let text = "a\u{200b}b\n";
    assert_eq!(count(text.as_bytes()).unwrap().num_words, 1);
    assert_eq!(count(b"a\x0bb\x0cc\rd\n").unwrap().num_words, 4);
}

#[test]
fn count_agrees_with_the_text_as_a_whole() {
    let text = "I don't want the world.\nI just want your half.\r\n\n  tail without newline";
    let found = count(text.as_bytes()).unwrap();
    assert_eq!(found.num_bytes, text.len());
    assert_eq!(found.num_chars, text.chars().count());
    assert_eq!(found.num_words, text.split_whitespace().count());
    assert_eq!(found.num_lines, text.matches('\n').count() + 1);
}

#[test]
fn count_fails_on_bytes_that_are_not_text() {
    assert_eq!(count(b"ok\n\xff\n"), Err(ReadError { line: 1 }));
    assert_eq!(count(b"\xe6\x97"), Err(ReadError { line: 0 }));
    assert_eq!(count(b"a\nb\nc\n\xed\xa0\x80\n"), Err(ReadError { line: 3 }));
}

#[test]
fn add_sums_each_count() {
    let mut sum = info(1, 2, 3, 4);
    assert!(sum.can_add(&info(10, 20, 30, 40)));
    sum.add(&info(10, 20, 30, 40));
    assert_eq!(sum, info(11, 22, 33, 44));
    assert!(!sum.can_add(&info(0, 0, usize::MAX, 0)));
    assert!(sum.can_add(&info(0, 0, usize::MAX - 33, 0)));
}

#[test]
fn record_line_counts_one_line() {
    let mut tally = FileInfo::new();
    tally.record_line("two words\n");
    assert_eq!(tally, info(1, 2, 10, 10));
    tally.record_line("\u{e9}t\u{e9}\r\n");
    assert_eq!(tally, info(2, 3, 17, 15));
}

#[test]
fn aggregate_is_the_sum_of_the_tallies() {
    let tallies = [info(1, 2, 3, 4), info(10, 20, 30, 40), info(100, 200, 300, 400)];
    assert_eq!(aggregate(&tallies), info(111, 222, 333, 444));
    assert_eq!(aggregate(&[]), info(0, 0, 0, 0));
    assert_eq!(aggregate(&tallies[..1]), info(1, 2, 3, 4));
}

#[test]
fn aggregate_of_counted_sources_counts_them_together() {
    let first = "a b\nc\n";
    let second = "d\n";
    let both = count(format!("{first}{second}").as_bytes()).unwrap();
    let each = [count(first.as_bytes()).unwrap(), count(second.as_bytes()).unwrap()];
    assert_eq!(aggregate(&each), both);
}

#[test]
fn check_args_shows_lines_words_and_bytes_by_default() {
    let mut columns = Columns { lines: false, words: false, bytes: false, chars: false };
    check_args(&mut columns);
    assert_eq!(columns, DEFAULT);
}

#[test]
fn check_args_leaves_a_choice_alone() {
    let chosen = Columns { lines: false, words: false, bytes: false, chars: true };
    let mut columns = chosen;
    check_args(&mut columns);
    assert_eq!(columns, chosen);
    let chosen = Columns { lines: true, words: false, bytes: false, chars: false };
    let mut columns = chosen;
    check_args(&mut columns);
    assert_eq!(columns, chosen);
}

#[test]
fn print_file_info_uses_fields_of_eight_in_fixed_order() {
    let mut out = Vec::new();
    print_file_info(&info(1, 22, 333, 4444), &ALL, &mut out);
    assert_eq!(out, b"       1      22     333    4444");
    let mut out = Vec::new();
    print_file_info(&info(1, 22, 333, 4444), &DEFAULT, &mut out);
    assert_eq!(out, b"       1      22     333");
    let mut out = Vec::new();
    let only_chars = Columns { lines: false, words: false, bytes: false, chars: true };
    print_file_info(&info(1, 22, 333, 4444), &only_chars, &mut out);
    assert_eq!(out, b"    4444");
    let mut out = Vec::new();
    let none = Columns { lines: false, words: false, bytes: false, chars: false };
    print_file_info(&info(1, 22, 333, 4444), &none, &mut out);
    assert_eq!(out, b"");
}

#[test]
fn print_file_info_does_not_cut_wide_counts() {
    let mut out = Vec::new();
    let words_and_bytes = Columns { lines: false, words: true, bytes: true, chars: false };
    print_file_info(&info(0, 12345678, 1234567890, 0), &words_and_bytes, &mut out);
    assert_eq!(out, b"123456781234567890");
}

#[test]
fn source_row_names_the_file() {
    let mut out = Vec::new();
    print_source_row(&info(2, 10, 48, 48), &DEFAULT, "fox.txt", &mut out);
    assert_eq!(out, b"       2      10      48 fox.txt\n");
}

#[test]
fn source_row_of_the_standard_input_has_no_name() {
    let mut out = Vec::new();
    print_source_row(&info(2, 10, 48, 48), &DEFAULT, "-", &mut out);
    assert_eq!(out, b"       2      10      48\n");
}

#[test]
fn total_row_needs_more_than_one_source() {
    let mut out = Vec::new();
    print_total_row(&info(3, 11, 52, 52), &DEFAULT, 0, &mut out);
    print_total_row(&info(3, 11, 52, 52), &DEFAULT, 1, &mut out);
    assert_eq!(out, b"");
    print_total_row(&info(3, 11, 52, 52), &DEFAULT, 2, &mut out);
    assert_eq!(out, b"       3      11      52 total\n");
}
