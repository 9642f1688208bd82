//! Facts about UTF-8 that relate a text to its lines.
//!
//! A newline is a byte of its own in UTF-8: it is never part of the encoding
//! of another character. So a text is valid UTF-8 exactly when each of its
//! lines is, and decoding the text gives the decoded lines one after another.
use vstd::prelude::*;
use vstd::utf8::*;
use crate::lines::{
    after_first_line, all_valid, first_line, is_terminated, lemma_first_line_len, split_lines,
    NEWLINE,
};

verus! {

/// Encoding two texts one after the other encodes the text that they form
/// together.
pub proof fn lemma_encode_concat(a: Seq<char>, b: Seq<char>)
    ensures
        encode_utf8(a + b) == encode_utf8(a) + encode_utf8(b),
    decreases a.len(),
{
    if a.len() == 0 {
        assert(a + b =~= b);
        assert(encode_utf8(a) + encode_utf8(b) =~= encode_utf8(b));
    } else {
        lemma_encode_concat(a.drop_first(), b);
        assert((a + b).drop_first() =~= a.drop_first() + b);
        assert(encode_utf8(a + b) =~= encode_utf8(a) + encode_utf8(b));
    }
}

/// Two pieces of valid UTF-8 form valid UTF-8 together, which decodes to the
/// two decoded pieces one after the other.
pub proof fn lemma_decode_concat(a: Seq<u8>, b: Seq<u8>)
    requires
        valid_utf8(a),
        valid_utf8(b),
    ensures
        valid_utf8(a + b),
        decode_utf8(a + b) == decode_utf8(a) + decode_utf8(b),
{
    let x = decode_utf8(a);
    let y = decode_utf8(b);
    decode_utf8_encode_utf8(a);
    decode_utf8_encode_utf8(b);
    lemma_encode_concat(x, y);
    encode_utf8_decode_utf8(x + y);
    encode_utf8_valid_utf8(x + y);
}

/// In valid UTF-8 a character ends with each byte below 0x80.
pub proof fn lemma_boundary_after_ascii(text: Seq<u8>, p: int)
    requires
        valid_utf8(text),
        0 < p <= text.len(),
        text[p - 1] < 0x80,
    ensures
        is_char_boundary(text, p),
    decreases text.len(),
{
    let first = length_of_first_scalar(text);
    let rest = pop_first_scalar(text);
    assert(valid_first_scalar(text));
    assert(1 <= first <= 4);
    assert(first <= text.len());
    if p < first {
        assert(false);
    } else if p > first {
        assert(rest[p - first - 1] == text[p - 1]);
        lemma_boundary_after_ascii(rest, p - first);
    } else {
        assert(is_char_boundary(rest, 0));
    }
}

/// Valid UTF-8 that is cut behind a byte below 0x80 gives two pieces of valid
/// UTF-8.
pub proof fn lemma_split_after_ascii(text: Seq<u8>, p: int)
    requires
        valid_utf8(text),
        0 < p <= text.len(),
        text[p - 1] < 0x80,
    ensures
        valid_utf8(text.take(p)),
        valid_utf8(text.skip(p)),
{
    lemma_boundary_after_ascii(text, p);
    valid_utf8_split(text, p);
    assert(text.take(p) =~= text.subrange(0, p));
    assert(text.skip(p) =~= text.subrange(p, text.len() as int));
}

/// A text is valid UTF-8 exactly when each of its lines is.
pub proof fn lemma_lines_valid(text: Seq<u8>)
    ensures
        all_valid(split_lines(text)) <==> valid_utf8(text),
    decreases text.len(),
{
    if text.len() > 0 {
        lemma_first_line_len(text);
        let head = first_line(text);
        let rest = after_first_line(text);
        let lines = split_lines(text);
        let tail = split_lines(rest);
        lemma_lines_valid(rest);
        assert(text =~= head + rest);
        assert(lines[0] == head);
        if all_valid(lines) {
            assert(valid_utf8(lines[0]));
            assert forall|i: int| 0 <= i < tail.len() implies valid_utf8(#[trigger] tail[i]) by {
                assert(tail[i] == lines[i + 1]);
            }
            valid_utf8_concat(head, rest);
        }
        if valid_utf8(text) {
            if rest.len() > 0 {
                lemma_split_after_ascii(text, head.len() as int);
            } else {
                assert(head =~= text);
            }
            assert forall|i: int| 0 <= i < lines.len() implies valid_utf8(#[trigger] lines[i]) by {
                if i > 0 {
                    assert(lines[i] == tail[i - 1]);
                }
            }
        }
    }
}

/// A line of valid UTF-8 that ends with a newline byte decodes to text that
/// ends with the newline character.
pub proof fn lemma_decode_terminated(line: Seq<u8>)
    requires
        valid_utf8(line),
        is_terminated(line),
    ensures
        decode_utf8(line).len() > 0,
        decode_utf8(line).last() == '\n',
{
    let n = line.len() - 1;
    let newline = seq!['\n'];
    assert(is_ascii_chars(newline));
    is_ascii_chars_encode_utf8(newline);
    assert(encode_utf8(newline) =~= seq![NEWLINE]);
    encode_utf8_valid_utf8(newline);
    encode_utf8_decode_utf8(newline);
    assert(line =~= line.take(n) + seq![NEWLINE]);
    if n > 0 {
        is_char_boundary_iff_not_is_continuation_byte(line, n);
        valid_utf8_split(line, n);
        assert(line.take(n) =~= line.subrange(0, n));
    } else {
        assert(line.take(n) =~= Seq::<u8>::empty());
    }
    lemma_decode_concat(line.take(n), seq![NEWLINE]);
}

} // verus!
