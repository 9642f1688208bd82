use textutils::lines::ReadError;
use textutils::uniq::{collapse, write_output, Collapser};

fn collapsed(text: &str, counts: bool) -> String {
    String::from_utf8(collapse(text.as_bytes(), counts).unwrap()).unwrap()
}

#[test]
fn collapse_counts_runs() {
    assert_eq!(collapsed("a\na\nb\na\n", true), "   2 a\n   1 b\n   1 a\n");
}

#[test]
fn collapse_without_counts_writes_first_lines() {
    assert_eq!(collapsed("a\na\nb\na\n", false), "a\nb\na\n");
}

#[test]
fn collapse_of_nothing_is_nothing() {
    assert_eq!(collapsed("", true), "");
    assert_eq!(collapsed("", false), "");
}

#[test]
fn collapse_of_one_line_is_a_run_of_one() {
    assert_eq!(collapsed("only\n", true), "   1 only\n");
    assert_eq!(collapsed("only", true), "   1 only");
}

#[test]
fn collapse_holds_blank_lines_like_any_other() {
    assert_eq!(collapsed("\n\n\na\n\n", true), "   3 \n   1 a\n   1 \n");
    assert_eq!(collapsed("\n", true), "   1 \n");
    assert_eq!(collapsed("a\n\n\nb\n", false), "a\n\nb\n");
}

#[test]
fn collapse_keeps_duplicates_that_are_not_adjacent() {
    assert_eq!(collapsed("a\nb\na\nb\n", true), "   1 a\n   1 b\n   1 a\n   1 b\n");
}

#[test]
fn collapse_compares_without_terminators() {
    assert_eq!(collapsed("a\r\na\na", true), "   3 a\r\n");
    assert_eq!(collapsed("a\na\r\n", false), "a\n");
    assert_eq!(collapsed("b\nb", true), "   2 b\n");
}

#[test]
fn collapse_does_not_ignore_inner_white_space() {
    assert_eq!(collapsed("a b\na  b\n", true), "   1 a b\n   1 a  b\n");
    assert_eq!(collapsed("a\na \n", true), "   1 a\n   1 a \n");
}

#[test]
fn collapse_emits_one_line_for_each_run() {
    let text = "x\nx\ny\ny\ny\nx\n\n\nz";
    let out = collapsed(text, true);
    assert_eq!(out.lines().count(), 5);
    let out = collapsed(text, false);
    assert_eq!(out.lines().count(), 5);
}

#[test]
fn collapse_twice_is_collapse_once() {
    for text in ["a\na\nb\na\n", "", "\n\n", "a\r\na\nb", "x\ny\ny\nz\nz\nz"] {
        let once = collapsed(text, false);
        assert_eq!(collapsed(&once, false), once);
        let numbered = collapsed(text, true);
        assert_eq!(collapsed(&numbered, false), numbered);
    }
}

#[test]
fn collapse_widens_the_field_for_long_runs() {
    let text = "a\n".repeat(12345);
    assert_eq!(collapsed(&text, true), "12345 a\n");
    let text = "a\n".repeat(1000);
    assert_eq!(collapsed(&text, true), "1000 a\n");
    let text = "a\n".repeat(999);
    assert_eq!(collapsed(&text, true), " 999 a\n");
}

#[test]
fn collapse_fails_at_the_line_that_is_not_text() {
    assert_eq!(collapse(b"a\na\n\xc3\nb\n", true), Err(ReadError { line: 2 }));
    assert_eq!(collapse(b"\x80", false), Err(ReadError { line: 0 }));
}

#[test]
fn write_output_puts_the_count_in_a_field_of_four() {
    let mut out = Vec::new();
    write_output(&mut out, &"line\n".to_string(), Some(7));
    assert_eq!(out, b"   7 line\n");
    write_output(&mut out, &"next\n".to_string(), None);
    assert_eq!(out, b"   7 line\nnext\n");
    let mut out = Vec::new();
    write_output(&mut out, &String::new(), Some(0));
    assert_eq!(out, b"   0 ");
    let mut out = Vec::new();
    write_output(&mut out, &"x".to_string(), Some(98765));
    assert_eq!(out, b"98765 x");
}

#[test]
fn collapser_writes_a_run_when_it_ends() {
    let mut state = Collapser::new(true);
    let mut out = Vec::new();
    state.feed("a\n", &mut out);
    assert_eq!(out, b"");
    state.feed("a\n", &mut out);
    assert_eq!(out, b"");
    state.feed("b\n", &mut out);
    assert_eq!(out, b"   2 a\n");
    assert!(state.has_room());
    state.finish(&mut out);
    assert_eq!(out, b"   2 a\n   1 b\n");
}

#[test]
fn collapser_that_met_no_line_writes_nothing() {
    let state = Collapser::new(true);
    let mut out = Vec::new();
    state.finish(&mut out);
    assert_eq!(out, b"");
}
