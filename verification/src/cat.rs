//! Writing the lines of a source one after the other, with numbers before
//! them on request, as `cat` does.
//!
//! Each line is written without the terminator it came with and ends with a
//! single newline.
use vstd::prelude::*;
use vstd::utf8::*;
use vstd::string::StringSliceAdditionalSpecFns;
use crate::format::{field, push_field};
use crate::lines::{
    all_valid, content, first_invalid, first_line, lemma_first_line_len, split_lines,
    strip_terminator, LineReader, ReadError, NEWLINE,
};
use crate::text::{is_blank, is_blank_text};

verus! {

/// The width of the field that holds the number of a line.
pub const NUMBER_WIDTH: usize = 6;

/// The byte that stands between the number of a line and the line.
pub const TAB: u8 = 0x09;

/// Which lines get a number.
#[derive(Debug, Clone, Copy, PartialEq, Eq, Structural)]
pub struct Numbering {
    /// Every line gets a number.
    pub number_lines: bool,
    /// Every line that is not blank gets a number.
    pub number_nonblank_lines: bool,
}

/// Whether a line with the given content gets a number.
pub open spec fn is_numbered(numbering: Numbering, text: Seq<char>) -> bool {
    (numbering.number_nonblank_lines && !is_blank(text)) || numbering.number_lines
}

/// A line as it is written: its number in a field of six bytes and a tab,
/// where it has a number, then its content and a newline.
pub open spec fn written_line(number: Option<nat>, text: Seq<u8>) -> Seq<u8> {
    let prefix = match number {
        Some(k) => field(k, NUMBER_WIDTH as nat).push(TAB),
        None => Seq::empty(),
    };
    prefix + text.push(NEWLINE)
}

/// How many of `lines` get a number.
pub open spec fn numbered_count(lines: Seq<Seq<u8>>, numbering: Numbering) -> nat
    decreases lines.len(),
{
    if lines.len() == 0 {
        0
    } else {
        numbered_count(lines.drop_last(), numbering) + if is_numbered(
            numbering,
            decode_utf8(content(lines.last())),
        ) {
            1nat
        } else {
            0nat
        }
    }
}

/// The line at index `i` of `lines` as it is written: its number is the
/// number of lines up to it that get one.
pub open spec fn written(lines: Seq<Seq<u8>>, numbering: Numbering, i: int) -> Seq<u8> {
    written_line(
        if is_numbered(numbering, decode_utf8(content(lines[i]))) {
            Some(numbered_count(lines.take(i + 1), numbering))
        } else {
            None
        },
        content(lines[i]),
    )
}

/// `text` as it is written line by line.
pub open spec fn concatenated(text: Seq<u8>, numbering: Numbering) -> Seq<u8> {
    let lines = split_lines(text);
    Seq::new(lines.len(), |i: int| written(lines, numbering, i)).flatten()
}

/// Gives the lines of a source their numbers.
pub struct Numberer {
    numbering: Numbering,
    count: usize,
}

impl Numberer {
    /// Which lines get a number.
    pub closed spec fn numbering(&self) -> Numbering {
        self.numbering
    }

    /// How many lines have got a number.
    pub closed spec fn count(&self) -> nat {
        self.count as nat
    }

    /// The state at the start of a source.
    pub fn new(numbering: Numbering) -> (state: Self)
        ensures
            state.numbering() == numbering,
            state.count() == 0,
    {
        Numberer { numbering, count: 0 }
    }

    /// Whether one more line can get a number.
    pub fn has_room(&self) -> (room: bool)
        ensures
            room == (self.count() < usize::MAX),
    {
        self.count < usize::MAX
    }

    /// Appends to `out` the next line of the source, which is given without
    /// its terminator, with its number where it gets one.
    pub fn write_line(&mut self, line: &str, out: &mut Vec<u8>)
        requires
            is_numbered(old(self).numbering(), line@) ==> old(self).count() < usize::MAX,
        ensures
            final(self).numbering() == old(self).numbering(),
            final(self).count() == old(self).count() + if is_numbered(
                old(self).numbering(),
                line@,
            ) {
                1nat
            } else {
                0nat
            },
            final(out)@ == old(out)@ + written_line(
                if is_numbered(old(self).numbering(), line@) {
                    Some(final(self).count())
                } else {
                    None
                },
                line.spec_bytes(),
            ),
    {
        let ghost before = out@;
        let blank = is_blank_text(line);
        if (self.numbering.number_nonblank_lines && !blank) || self.numbering.number_lines {
            self.count = self.count + 1;
            push_field(out, self.count, NUMBER_WIDTH);
            out.push(TAB);
        }
        out.extend_from_slice(line.as_bytes());
        out.push(NEWLINE);
        assert(out@ =~= before + written_line(
            if is_numbered(old(self).numbering(), line@) {
                Some(self.count())
            } else {
                None
            },
            line.spec_bytes(),
        ));
    }
}

/// Writes the lines of `input` one after the other, numbered as `numbering`
/// says.
///
/// Fails at the first line that is not valid UTF-8, with its index.
pub fn concatenate(input: &[u8], numbering: Numbering) -> (result: Result<Vec<u8>, ReadError>)
    ensures
        match result {
            Ok(out) => all_valid(split_lines(input@)) && out@ == concatenated(input@, numbering),
            Err(e) => first_invalid(split_lines(input@), e.line as int),
        },
{
    let mut reader = LineReader::new(input);
    let mut state = Numberer::new(numbering);
    let mut out: Vec<u8> = Vec::new();
    let ghost lines = split_lines(input@);
    let ghost mut done: Seq<Seq<u8>> = Seq::empty();
    let ghost mut shown: Seq<Seq<u8>> = Seq::empty();
    proof {
        assert(shown.flatten() =~= Seq::<u8>::empty());
    }
    loop
        invariant
            lines == split_lines(input@),
            lines == done + split_lines(reader.rest()),
            all_valid(done),
            done.len() == reader.lines_read(),
            reader.lines_read() <= usize::MAX,
            state.numbering() == numbering,
            state.count() == numbered_count(done, numbering),
            state.count() <= done.len(),
            shown == Seq::new(done.len(), |i: int| written(lines, numbering, i)),
            out@ == shown.flatten(),
        ensures
            all_valid(lines),
            out@ == concatenated(input@, numbering),
        decreases reader.rest().len(),
    {
        let ghost rest = reader.rest();
        proof {
            lemma_first_line_len(rest);
        }
        match reader.read_line() {
            Err(e) => {
                proof {
                    assert(lines.take(e.line as int) =~= done);
                    assert(lines[e.line as int] == first_line(rest));
                }
                return Err(e);
            },
            Ok(line) => {
                if line.as_bytes().len() == 0 {
                    proof {
                        assert(lines =~= done);
                    }
                    break ;
                }
                let text = strip_terminator(line);
                proof {
                    let raw = line.spec_bytes();
                    let i = done.len() as int;
                    encode_utf8_valid_utf8(line@);
                    encode_utf8_decode_utf8(text@);
                    assert(lines[i] == raw);
                    assert(lines.take(i + 1) =~= done.push(raw));
                    assert(done.push(raw).drop_last() =~= done);
                    shown.lemma_flatten_push(written(lines, numbering, i));
                    done = done.push(raw);
                    shown = shown.push(written(lines, numbering, i));
                    assert(lines =~= done + split_lines(reader.rest()));
                    assert(shown =~= Seq::new(done.len(), |i: int| written(lines, numbering, i)));
                }
                state.write_line(text, &mut out);
            },
        }
    }
    Ok(out)
}

} // verus!
