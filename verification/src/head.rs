//! Emitting the beginning of a source, as `head` does: its first lines, or
//! its first bytes.
use vstd::prelude::*;
use vstd::utf8::*;
use vstd::slice::slice_subrange;
use vstd::string::StringSliceAdditionalSpecFns;
use crate::lines::{
    all_valid, first_invalid, first_line, lemma_first_line_len, lemma_split_lines, split_lines,
    LineReader, ReadError, NEWLINE,
};

verus! {

/// How much of a source is emitted. The two ways exclude each other.
#[derive(Debug, Clone, Copy, PartialEq, Eq, Structural)]
pub enum Limit {
    /// The first lines, up to this number.
    Lines(u64),
    /// The first bytes, up to this number.
    Bytes(u64),
}

/// The text that `String::from_utf8_lossy` makes of `bytes`, in which each
/// stretch that is not valid UTF-8 is replaced.
pub uninterp spec fn lossy(bytes: Seq<u8>) -> Seq<char>;

/// The first `n` lines of `text`, or all of them where there are fewer.
pub open spec fn leading_lines(text: Seq<u8>, n: nat) -> Seq<Seq<u8>> {
    let lines = split_lines(text);
    if n < lines.len() {
        lines.take(n as int)
    } else {
        lines
    }
}

/// The first `n` bytes of `text`, or all of them where there are fewer.
pub open spec fn leading(text: Seq<u8>, n: nat) -> Seq<u8> {
    if n < text.len() {
        text.take(n as int)
    } else {
        text
    }
}

/// What is emitted of `text` under `limit`: its first lines as they are, or
/// its first bytes as text.
pub open spec fn emitted(text: Seq<u8>, limit: Limit) -> Seq<u8> {
    match limit {
        Limit::Lines(n) => leading_lines(text, n as nat).flatten(),
        Limit::Bytes(n) => encode_utf8(lossy(leading(text, n as nat))),
    }
}

/// The header that stands before the output of the source with the given
/// label, which is the source at `index` among `sources`. A single source has
/// none. The header is a line that names the source, and before it an empty
/// line unless the source is the first.
pub open spec fn header(label: Seq<char>, index: nat, sources: nat) -> Seq<u8> {
    if sources <= 1 {
        Seq::empty()
    } else {
        let line = encode_utf8("==> "@) + encode_utf8(label) + encode_utf8(" <==\n"@);
        if index > 0 {
            seq![NEWLINE] + line
        } else {
            line
        }
    }
}

/// A limit in lines that reaches the number of lines of a text gives the
/// whole text.
pub proof fn lemma_emitted_whole(text: Seq<u8>, n: u64)
    requires
        n >= split_lines(text).len(),
    ensures
        emitted(text, Limit::Lines(n)) == text,
{
    lemma_split_lines(text);
}

impl Limit {
    /// The limit that two options ask for: the number of lines, unless a
    /// number of bytes is given, which then comes first.
    pub fn select(lines: u64, bytes: Option<u64>) -> (limit: Limit)
        ensures
            limit == match bytes {
                Some(n) => Limit::Bytes(n),
                None => Limit::Lines(lines),
            },
    {
        match bytes {
            Some(n) => Limit::Bytes(n),
            None => Limit::Lines(lines),
        }
    }
}

/// Appends to `out` the header of a source, if it is to have one.
pub fn write_header(out: &mut Vec<u8>, label: &str, index: usize, sources: usize)
    ensures
        final(out)@ == old(out)@ + header(label@, index as nat, sources as nat),
{
    let ghost before = out@;
    if sources > 1 {
        if index > 0 {
            out.push(NEWLINE);
        }
        out.extend_from_slice("==> ".as_bytes());
        out.extend_from_slice(label.as_bytes());
        out.extend_from_slice(" <==\n".as_bytes());
    }
    assert(out@ =~= before + header(label@, index as nat, sources as nat));
}

/// The lines that may still be emitted of a source in line mode.
pub struct Emitter {
    left: u64,
}

impl Emitter {
    /// How many more lines may be emitted.
    pub closed spec fn left(&self) -> nat {
        self.left as nat
    }

    /// An emitter for the first `lines` lines of a source.
    pub fn new(lines: u64) -> (emitter: Self)
        ensures
            emitter.left() == lines,
    {
        Emitter { left: lines }
    }

    /// Whether another line is to be read.
    pub fn wants_line(&self) -> (wanted: bool)
        ensures
            wanted == (self.left() > 0),
    {
        self.left > 0
    }

    /// Takes the next line of the source. While lines may be emitted the line
    /// goes to `out` as it is; after that nothing is written.
    pub fn accept(&mut self, line: &str, out: &mut Vec<u8>)
        ensures
            old(self).left() > 0 ==> final(self).left() == old(self).left() - 1 && final(out)@
                == old(out)@ + line.spec_bytes(),
            old(self).left() == 0 ==> final(self).left() == 0 && final(out)@ == old(out)@,
    {
        if self.left > 0 {
            self.left = self.left - 1;
            write_text(out, line);
        }
    }
}

/// Appends `text` to `out` as it is.
pub fn write_text(out: &mut Vec<u8>, text: &str)
    ensures
        final(out)@ == old(out)@ + text.spec_bytes(),
{
    out.extend_from_slice(text.as_bytes());
}

/// The first `n` bytes of `input`, or all of it where it is shorter.
pub fn leading_bytes(input: &[u8], n: u64) -> (bytes: &[u8])
    ensures
        bytes@ == leading(input@, n as nat),
{
    let len = input.len();
    if n < len as u64 {
        let bytes = slice_subrange(input, 0, n as usize);
        assert(bytes@ =~= input@.take(n as int));
        bytes
    } else {
        input
    }
}

/// `String::from_utf8_lossy`, which makes text of any bytes. What it gives
/// for given bytes has the name `lossy`. Of bytes that are valid UTF-8 it
/// gives the text that they encode.
#[verifier::external_body]
fn decode_lossy(bytes: &[u8]) -> (text: String)
    ensures
        text@ == lossy(bytes@),
        valid_utf8(bytes@) ==> text@ == decode_utf8(bytes@),
{
    String::from_utf8_lossy(bytes).into_owned()
}

/// Appends to `out` the first `n` bytes of `input` as text. Nothing fails:
/// bytes that are not valid UTF-8 are replaced.
pub fn emit_bytes(input: &[u8], n: u64, out: &mut Vec<u8>)
    ensures
        final(out)@ == old(out)@ + emitted(input@, Limit::Bytes(n)),
        valid_utf8(leading(input@, n as nat)) ==> final(out)@ == old(out)@ + leading(
            input@,
            n as nat,
        ),
{
    let bytes = leading_bytes(input, n);
    let text = decode_lossy(bytes);
    proof {
        if valid_utf8(bytes@) {
            decode_utf8_encode_utf8(bytes@);
        }
    }
    write_text(out, text.as_str());
}

/// Emits the beginning of `input` under `limit`.
///
/// In line mode the lines that are emitted are read one by one, and the call
/// fails at the first of them that is not valid UTF-8, with its index. Lines
/// beyond the limit are not read. A limit that reaches the number of lines
/// gives the whole input back. In byte mode nothing fails, and a limit of no
/// bytes gives nothing.
pub fn emit(input: &[u8], limit: Limit) -> (result: Result<Vec<u8>, ReadError>)
    ensures
        match result {
            Ok(out) => {
                &&& out@ == emitted(input@, limit)
                &&& limit matches Limit::Lines(n) ==> all_valid(leading_lines(input@, n as nat))
                &&& limit matches Limit::Lines(n) ==> n >= split_lines(input@).len() ==> out@
                    == input@
                &&& limit == Limit::Bytes(0) ==> out@.len() == 0
            },
            Err(e) => limit matches Limit::Lines(n) && first_invalid(
                leading_lines(input@, n as nat),
                e.line as int,
            ),
        },
{
    let mut out: Vec<u8> = Vec::new();
    match limit {
        Limit::Bytes(n) => {
            emit_bytes(input, n, &mut out);
            proof {
                if n == 0 {
                    assert(leading(input@, 0) =~= Seq::<u8>::empty());
                    assert(valid_utf8(Seq::<u8>::empty()));
                }
                assert(out@ =~= emitted(input@, limit));
            }
            Ok(out)
        },
        Limit::Lines(n) => {
            let mut reader = LineReader::new(input);
            let mut emitter = Emitter::new(n);
            let ghost lines = split_lines(input@);
            let ghost mut done: Seq<Seq<u8>> = Seq::empty();
            proof {
                assert(done.flatten() =~= Seq::<u8>::empty());
            }
            loop
                invariant
                    lines == split_lines(input@),
                    lines == done + split_lines(reader.rest()),
                    all_valid(done),
                    done.len() == reader.lines_read(),
                    done.len() + emitter.left() == n,
                    out@ == done.flatten(),
                    limit == Limit::Lines(n),
                ensures
                    all_valid(leading_lines(input@, n as nat)),
                    out@ == leading_lines(input@, n as nat).flatten(),
                decreases emitter.left(),
            {
                let ghost rest = reader.rest();
                proof {
                    lemma_first_line_len(rest);
                }
                if !emitter.wants_line() {
                    proof {
                        assert(lines.take(n as int) =~= done);
                    }
                    break ;
                }
                match reader.read_line() {
                    Err(e) => {
                        proof {
                            let k = e.line as int;
                            assert(lines[k] == first_line(rest));
                            assert(lines.take(k) =~= done);
                            assert(leading_lines(input@, n as nat).take(k) =~= done);
                        }
                        return Err(e);
                    },
                    Ok(line) => {
                        if line.as_bytes().len() == 0 {
                            proof {
                                assert(lines =~= done);
                                assert(leading_lines(input@, n as nat) =~= done);
                            }
                            break ;
                        }
                        proof {
                            encode_utf8_valid_utf8(line@);
                            done.lemma_flatten_push(line.spec_bytes());
                            done = done.push(line.spec_bytes());
                            assert(lines =~= done + split_lines(reader.rest()));
                        }
                        emitter.accept(line, &mut out);
                    },
                }
            }
            proof {
                lemma_split_lines(input@);
            }
            Ok(out)
        },
    }
}

} // verus!
