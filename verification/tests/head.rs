use textutils::head::{
    emit, emit_bytes, leading_bytes, write_header, write_text, Emitter, Limit,
};
use textutils::lines::ReadError;

#[test]
fn emit_first_two_of_three_lines() {
    let out = emit(b"one\r\ntwo\nthree\n", Limit::Lines(2));
    assert_eq!(out, Ok(b"one\r\ntwo\n".to_vec()));
}

#[test]
fn emit_lines_beyond_the_end_gives_the_source() {
    for text in ["one\ntwo\nthree\n", "one\ntwo\nthree", "", "\n", "a\r\nb"] {
        let lines = text.split_inclusive('\n').count() as u64;
        assert_eq!(emit(text.as_bytes(), Limit::Lines(lines)), Ok(text.as_bytes().to_vec()));
        assert_eq!(emit(text.as_bytes(), Limit::Lines(lines + 1)), Ok(text.as_bytes().to_vec()));
        assert_eq!(emit(text.as_bytes(), Limit::Lines(u64::MAX)), Ok(text.as_bytes().to_vec()));
    }
}

#[test]
fn emit_no_lines_gives_nothing() {
    assert_eq!(emit(b"one\ntwo\n", Limit::Lines(0)), Ok(Vec::new()));
}

#[test]
fn emit_no_bytes_gives_nothing() {
    assert_eq!(emit(b"one\ntwo\n", Limit::Bytes(0)), Ok(Vec::new()));
    assert_eq!(emit(b"", Limit::Bytes(0)), Ok(Vec::new()));
    assert_eq!(emit(b"\xff\xff", Limit::Bytes(0)), Ok(Vec::new()));
}

#[test]
fn emit_bytes_cuts_within_lines() {
    assert_eq!(emit(b"one\ntwo\n", Limit::Bytes(5)), Ok(b"one\nt".to_vec()));
    assert_eq!(emit(b"one\ntwo\n", Limit::Bytes(1)), Ok(b"o".to_vec()));
}

#[test]
fn emit_bytes_stops_at_the_end_of_a_short_source() {
    assert_eq!(emit(b"abc", Limit::Bytes(10)), Ok(b"abc".to_vec()));
    assert_eq!(emit(b"", Limit::Bytes(10)), Ok(Vec::new()));
    assert_eq!(emit(b"abc", Limit::Bytes(3)), Ok(b"abc".to_vec()));
}

#[test]
fn emit_bytes_replaces_what_is_not_text() {
    assert_eq!(emit(b"a\xffb", Limit::Bytes(3)), Ok("a\u{fffd}b".as_bytes().to_vec()));
    let text = "\u{e9}t\u{e9}";
    assert_eq!(emit(text.as_bytes(), Limit::Bytes(1)), Ok("\u{fffd}".as_bytes().to_vec()));
    assert_eq!(emit(text.as_bytes(), Limit::Bytes(2)), Ok("\u{e9}".as_bytes().to_vec()));
    assert_eq!(emit(text.as_bytes(), Limit::Bytes(4)), Ok("\u{e9}t\u{fffd}".as_bytes().to_vec()));
}

#[test]
fn emit_bytes_appends_to_what_is_there() {
    let mut out = b"kept".to_vec();
    emit_bytes(b"one\ntwo\n", 4, &mut out);
    assert_eq!(out, b"keptone\n");
}

#[test]
fn emit_lines_fails_only_on_lines_it_reads() {
    let text = b"one\n\xfftwo\nthree\n";
    assert_eq!(emit(text, Limit::Lines(1)), Ok(b"one\n".to_vec()));
    assert_eq!(emit(text, Limit::Lines(2)), Err(ReadError { line: 1 }));
    assert_eq!(emit(text, Limit::Lines(9)), Err(ReadError { line: 1 }));
}

#[test]
fn leading_bytes_are_a_prefix() {
    assert_eq!(leading_bytes(b"abcdef", 0), b"");
    assert_eq!(leading_bytes(b"abcdef", 2), b"ab");
    assert_eq!(leading_bytes(b"abcdef", 6), b"abcdef");
    assert_eq!(leading_bytes(b"abcdef", 7), b"abcdef");
    assert_eq!(leading_bytes(b"abcdef", u64::MAX), b"abcdef");
}

#[test]
fn limit_in_bytes_comes_before_limit_in_lines() {
    assert_eq!(Limit::select(10, None), Limit::Lines(10));
    assert_eq!(Limit::select(10, Some(3)), Limit::Bytes(3));
    assert_eq!(Limit::select(0, Some(0)), Limit::Bytes(0));
}

#[test]
fn header_names_the_source() {
    let mut out = Vec::new();
    write_header(&mut out, "one.txt", 0, 2);
    assert_eq!(out, b"==> one.txt <==\n");
    write_header(&mut out, "two.txt", 1, 2);
    assert_eq!(out, b"==> one.txt <==\n\n==> two.txt <==\n");
}

#[test]
fn header_is_left_out_for_a_single_source() {
    let mut out = Vec::new();
    write_header(&mut out, "one.txt", 0, 1);
    assert_eq!(out, b"");
    write_header(&mut out, "one.txt", 0, 0);
    assert_eq!(out, b"");
}

#[test]
fn emitter_stops_taking_lines_at_its_limit() {
    let mut emitter = Emitter::new(2);
    let mut out = Vec::new();
    assert!(emitter.wants_line());
    emitter.accept("a\n", &mut out);
    assert!(emitter.wants_line());
    emitter.accept("b\r\n", &mut out);
    assert!(!emitter.wants_line());
    emitter.accept("c\n", &mut out);
    assert_eq!(out, b"a\nb\r\n");
}

#[test]
fn emitter_for_no_lines_wants_none() {
    let emitter = Emitter::new(0);
    assert!(!emitter.wants_line());
}

#[test]
fn text_is_written_as_it_is() {
    let mut out = b"kept ".to_vec();
    write_text(&mut out, "gr\u{fc}n\r\n");
    assert_eq!(out, "kept gr\u{fc}n\r\n".as_bytes());
    write_text(&mut out, "");
    assert_eq!(out, "kept gr\u{fc}n\r\n".as_bytes());
}
