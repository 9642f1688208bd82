//! Lines of text and the reader that takes them from a source one by one.
//!
//! A source is a sequence of bytes. A line is a piece of it that ends with a
//! newline; the last piece of a source may lack the newline. A line keeps its
//! terminator, so that it can be written back as it was read, and is compared
//! with others by its content, which is the line without the terminator.
use vstd::prelude::*;
use vstd::utf8::*;
use vstd::slice::slice_subrange;
use vstd::string::StringSliceAdditionalSpecFns;

verus! {

/// The byte that ends a line.
pub const NEWLINE: u8 = 0x0A;

/// The byte that may stand before the newline as part of the terminator.
pub const CARRIAGE_RETURN: u8 = 0x0D;

/// How many bytes the first line of `text` takes, terminator included: up to
/// the first newline, or all of `text` where it holds none.
pub open spec fn first_line_len(text: Seq<u8>) -> nat
    decreases text.len(),
{
    if text.len() == 0 {
        0
    } else if text[0] == NEWLINE {
        1
    } else {
        1 + first_line_len(text.drop_first())
    }
}

/// The first line of `text`, terminator included.
pub open spec fn first_line(text: Seq<u8>) -> Seq<u8> {
    text.take(first_line_len(text) as int)
}

/// What is left of `text` behind its first line.
pub open spec fn after_first_line(text: Seq<u8>) -> Seq<u8> {
    text.skip(first_line_len(text) as int)
}

/// The lines of `text` in order. Each keeps its terminator. A last piece
/// without a newline is a line too, unless it is empty.
pub open spec fn split_lines(text: Seq<u8>) -> Seq<Seq<u8>>
    decreases text.len(),
{
    if text.len() == 0 {
        Seq::empty()
    } else {
        proof {
            lemma_first_line_len(text);
        }
        seq![first_line(text)] + split_lines(after_first_line(text))
    }
}

/// Whether `line` ends with a newline.
pub open spec fn is_terminated(line: Seq<u8>) -> bool {
    line.len() > 0 && line.last() == NEWLINE
}

/// How many bytes the terminator of `line` takes: two for a carriage return
/// and a newline, one for a newline alone, none where the line has no newline.
pub open spec fn terminator_len(line: Seq<u8>) -> nat {
    if !is_terminated(line) {
        0
    } else if line.len() >= 2 && line[line.len() - 2] == CARRIAGE_RETURN {
        2
    } else {
        1
    }
}

/// The line without its terminator. Lines are compared by this.
pub open spec fn content(line: Seq<u8>) -> Seq<u8> {
    line.take(line.len() - terminator_len(line))
}

/// Whether `line` is one line: not empty, and with no newline before its
/// last byte.
pub open spec fn is_line(line: Seq<u8>) -> bool {
    &&& line.len() > 0
    &&& forall|i: int| 0 <= i < line.len() - 1 ==> line[i] != NEWLINE
}

/// Whether `lines` can be the lines of a text: each is one line, and each
/// but the last ends with a newline.
pub open spec fn are_lines(lines: Seq<Seq<u8>>) -> bool {
    &&& forall|i: int| 0 <= i < lines.len() ==> is_line(#[trigger] lines[i])
    &&& forall|i: int| 0 <= i < lines.len() - 1 ==> is_terminated(#[trigger] lines[i])
}

/// Whether each of `lines` is valid UTF-8.
pub open spec fn all_valid(lines: Seq<Seq<u8>>) -> bool {
    forall|i: int| 0 <= i < lines.len() ==> valid_utf8(#[trigger] lines[i])
}

/// Whether `k` is the index of the first of `lines` that is not valid UTF-8.
pub open spec fn first_invalid(lines: Seq<Seq<u8>>, k: int) -> bool {
    &&& 0 <= k < lines.len()
    &&& !valid_utf8(lines[k])
    &&& all_valid(lines.take(k))
}

/// The first line of a text takes at least one byte where the text has any,
/// holds no newline before its last byte, and ends with a newline unless it
/// reaches the end of the text.
pub proof fn lemma_first_line_len(text: Seq<u8>)
    ensures
        first_line_len(text) <= text.len(),
        text.len() > 0 ==> first_line_len(text) >= 1,
        forall|i: int| 0 <= i < first_line_len(text) - 1 ==> text[i] != NEWLINE,
        first_line_len(text) < text.len() ==> text[first_line_len(text) - 1] == NEWLINE,
    decreases text.len(),
{
    if text.len() > 0 && text[0] != NEWLINE {
        let rest = text.drop_first();
        lemma_first_line_len(rest);
        assert forall|i: int| 0 <= i < first_line_len(text) - 1 implies text[i] != NEWLINE by {
            if i > 0 {
                assert(text[i] == rest[i - 1]);
            }
        }
        if first_line_len(text) < text.len() {
            assert(text[first_line_len(text) - 1] == rest[first_line_len(rest) - 1]);
        }
    }
}

/// A text without a newline in its first `n` bytes has a first line that
/// reaches as far beyond them as the first line of what follows them.
pub proof fn lemma_first_line_len_skip(text: Seq<u8>, n: int)
    requires
        0 <= n <= text.len(),
        forall|i: int| 0 <= i < n ==> text[i] != NEWLINE,
    ensures
        first_line_len(text) == n + first_line_len(text.skip(n)),
    decreases n,
{
    if n == 0 {
        assert(text.skip(0) =~= text);
    } else {
        let rest = text.drop_first();
        assert forall|i: int| 0 <= i < n - 1 implies rest[i] != NEWLINE by {
            assert(rest[i] == text[i + 1]);
        }
        lemma_first_line_len_skip(rest, n - 1);
        assert(rest.skip(n - 1) =~= text.skip(n));
    }
}

/// The lines of a text are lines, and put together they give the text back.
pub proof fn lemma_split_lines(text: Seq<u8>)
    ensures
        are_lines(split_lines(text)),
        split_lines(text).flatten() == text,
    decreases text.len(),
{
    let lines = split_lines(text);
    if text.len() == 0 {
        assert(lines.flatten() =~= text);
    } else {
        lemma_first_line_len(text);
        let head = first_line(text);
        let tail = split_lines(after_first_line(text));
        lemma_split_lines(after_first_line(text));
        assert(lines =~= seq![head] + tail);
        assert(lines.drop_first() =~= tail);
        assert(lines.flatten() =~= text);
        assert forall|i: int| 0 <= i < lines.len() implies is_line(#[trigger] lines[i]) by {
            if i > 0 {
                assert(lines[i] == tail[i - 1]);
            }
        }
        assert forall|i: int| 0 <= i < lines.len() - 1 implies is_terminated(
            #[trigger] lines[i],
        ) by {
            if i > 0 {
                assert(lines[i] == tail[i - 1]);
            } else {
                assert(after_first_line(text).len() > 0);
            }
        }
    }
}

/// Lines put together and split again are the same lines.
pub proof fn lemma_split_of_joined(lines: Seq<Seq<u8>>)
    requires
        are_lines(lines),
    ensures
        split_lines(lines.flatten()) == lines,
    decreases lines.len(),
{
    let text = lines.flatten();
    if lines.len() == 0 {
    } else {
        let head = lines[0];
        let tail = lines.drop_first();
        assert(is_line(head));
        assert forall|i: int| 0 <= i < tail.len() implies is_line(#[trigger] tail[i]) by {
            assert(tail[i] == lines[i + 1]);
        }
        assert forall|i: int| 0 <= i < tail.len() - 1 implies is_terminated(
            #[trigger] tail[i],
        ) by {
            assert(tail[i] == lines[i + 1]);
        }
        lemma_split_of_joined(tail);
        assert(text =~= head + tail.flatten());
        assert forall|i: int| 0 <= i < head.len() - 1 implies text[i] != NEWLINE by {
            assert(text[i] == head[i]);
        }
        lemma_first_line_len_skip(text, head.len() - 1);
        let last = text.skip(head.len() - 1);
        assert(last.len() > 0);
        assert(last[0] == text[head.len() - 1]);
        if tail.len() == 0 {
            assert(tail.flatten() =~= Seq::<u8>::empty());
            assert(text =~= head);
            assert(last.len() == 1);
            if last[0] != NEWLINE {
                assert(last.drop_first().len() == 0);
                assert(first_line_len(last.drop_first()) == 0);
            }
        } else {
            assert(is_terminated(lines[0]));
            assert(text[head.len() - 1] == head.last());
        }
        assert(first_line_len(last) == 1);
        assert(first_line(text) =~= head);
        assert(after_first_line(text) =~= tail.flatten());
        assert(split_lines(text) =~= seq![head] + tail);
    }
}

/// Reading stopped at a line that is not valid UTF-8.
#[derive(Debug, Clone, Copy, PartialEq, Eq, Structural)]
pub struct ReadError {
    /// The index of that line among the lines of the source; the first line
    /// has index 0.
    pub line: usize,
}

/// `core::str::Utf8Error`, which tells where bytes stop being valid UTF-8.
/// Nothing is stated of what it holds.
#[verifier::external_type_specification]
#[verifier::external_body]
pub struct ExUtf8Error(core::str::Utf8Error);

/// `core::str::from_utf8` accepts a slice exactly when it is valid UTF-8, and
/// then hands back the same bytes as a string slice.
pub assume_specification[ core::str::from_utf8 ](bytes: &[u8]) -> (text: Result<
    &str,
    core::str::Utf8Error,
>)
    ensures
        text is Ok <==> valid_utf8(bytes@),
        text matches Ok(s) ==> s.spec_bytes() == bytes@,
;

/// Takes the lines of a source that is held in memory, one by one and from
/// the front. What was read is not given again.
pub struct LineReader<'a> {
    data: &'a [u8],
    pos: usize,
    count: usize,
}

impl<'a> LineReader<'a> {
    #[verifier::type_invariant]
    spec fn inv(&self) -> bool {
        self.count <= self.pos <= self.data@.len()
    }

    /// The part of the source that has not been read yet.
    pub closed spec fn rest(&self) -> Seq<u8> {
        self.data@.skip(self.pos as int)
    }

    /// How many lines have been read.
    pub closed spec fn lines_read(&self) -> nat {
        self.count as nat
    }

    /// A reader at the start of `data`.
    pub fn new(data: &'a [u8]) -> (reader: Self)
        ensures
            reader.rest() == data@,
            reader.lines_read() == 0,
    {
        assert(data@.skip(0) =~= data@);
        LineReader { data, pos: 0, count: 0 }
    }

    /// Reads the next line, terminator included, and moves behind it. The
    /// length of the line is the number of bytes taken from the source; at
    /// the end of the source the line is empty and nothing is taken.
    ///
    /// A line that is not valid UTF-8 is passed over and reported as an error
    /// that holds its index.
    pub fn read_line(&mut self) -> (line: Result<&'a str, ReadError>)
        ensures
            final(self).rest() == after_first_line(old(self).rest()),
            final(self).lines_read() <= usize::MAX,
            final(self).lines_read() == old(self).lines_read() + if old(self).rest().len() > 0 {
                1nat
            } else {
                0nat
            },
            match line {
                Ok(text) => text.spec_bytes() == first_line(old(self).rest()),
                Err(e) => !valid_utf8(first_line(old(self).rest())) && e.line == old(
                    self,
                ).lines_read(),
            },
    {
        proof {
            use_type_invariant(&*self);
        }
        let data = self.data;
        let start = self.pos;
        let ghost rest = data@.skip(start as int);
        let mut end = start;
        while end < data.len() && data[end] != NEWLINE
            invariant
                start <= end <= data@.len(),
                forall|i: int| start <= i < end ==> data@[i] != NEWLINE,
            decreases data@.len() - end,
        {
            end += 1;
        }
        proof {
            assert forall|i: int| 0 <= i < end - start implies rest[i] != NEWLINE by {
                assert(rest[i] == data@[start + i]);
            }
            lemma_first_line_len_skip(rest, end - start);
            assert(rest.skip(end - start) =~= data@.skip(end as int));
            if end < data@.len() {
                assert(data@.skip(end as int)[0] == NEWLINE);
            }
        }
        if end < data.len() {
            end += 1;
        }
        let raw = slice_subrange(data, start, end);
        proof {
            assert(raw@ =~= first_line(rest));
            assert(data@.skip(end as int) =~= after_first_line(rest));
        }
        let index = self.count;
        self.pos = end;
        if end > start {
            self.count = index + 1;
        }
        match core::str::from_utf8(raw) {
            Ok(text) => Ok(text),
            Err(_) => Err(ReadError { line: index }),
        }
    }
}

/// The number of bytes of `line` before its terminator.
pub fn content_len(line: &[u8]) -> (n: usize)
    ensures
        n == line@.len() - terminator_len(line@),
        line@.take(n as int) == content(line@),
{
    let len = line.len();
    if len == 0 || line[len - 1] != NEWLINE {
        len
    } else if len >= 2 && line[len - 2] == CARRIAGE_RETURN {
        len - 2
    } else {
        len - 1
    }
}

/// Whether two lines have the same content, whatever their terminators.
pub fn same_content(a: &[u8], b: &[u8]) -> (same: bool)
    ensures
        same == (content(a@) == content(b@)),
{
    let n = content_len(a);
    if content_len(b) != n {
        assert(content(a@).len() != content(b@).len());
        return false;
    }
    let mut i: usize = 0;
    while i < n
        invariant
            i <= n,
            n <= a@.len(),
            n <= b@.len(),
            content(a@) == a@.take(n as int),
            content(b@) == b@.take(n as int),
            forall|k: int| 0 <= k < i ==> a@[k] == b@[k],
        decreases n - i,
    {
        if a[i] != b[i] {
            assert(content(a@)[i as int] != content(b@)[i as int]);
            return false;
        }
        i += 1;
    }
    assert(content(a@) =~= content(b@));
    true
}

/// The line without its terminator, as text.
pub fn strip_terminator(line: &str) -> (stripped: &str)
    ensures
        stripped.spec_bytes() == content(line.spec_bytes()),
{
    let bytes = line.as_bytes();
    let n = content_len(bytes);
    proof {
        encode_utf8_valid_utf8(line@);
        if n < bytes@.len() {
            is_char_boundary_iff_not_is_continuation_byte(bytes@, n as int);
        } else {
            is_char_boundary_start_end_of_seq(bytes@);
        }
    }
    let (stripped, _) = line.split_at(n);
    proof {
        assert(bytes@.subrange(0, n as int) =~= bytes@.take(n as int));
    }
    stripped
}

} // verus!
