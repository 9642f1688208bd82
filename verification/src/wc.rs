//! Counting the lines, words, bytes and characters of sources, as `wc` does.
//!
//! A line is counted for each piece of the source that a newline ends, and
//! one more for a last piece without a newline, unless it is empty.
use vstd::prelude::*;
use vstd::utf8::*;
use vstd::string::StringSliceAdditionalSpecFns;
use crate::format::{field, push_field, SPACE};
use crate::encoding::{
    lemma_decode_concat, lemma_decode_terminated, lemma_lines_valid, lemma_split_after_ascii,
};
use crate::lines::{
    after_first_line, all_valid, first_invalid, first_line, is_terminated, lemma_first_line_len,
    lemma_split_lines, split_lines, LineReader, ReadError, NEWLINE,
};
use crate::source::{is_stdin, names_stdin};
use crate::text::{
    lemma_encoded_len, lemma_word_count_bound, lemma_word_count_concat, measure, word_count,
};

verus! {

/// The width of the field that holds one count.
pub const COLUMN_WIDTH: usize = 8;

/// The four counts of a source, or of several sources together.
pub struct Tally {
    /// The lines.
    pub lines: nat,
    /// The words: stretches of characters that are no white space.
    pub words: nat,
    /// The bytes, terminators included.
    pub bytes: nat,
    /// The characters, terminators included.
    pub chars: nat,
}

impl Tally {
    /// The tally of nothing.
    pub open spec fn zero() -> Tally {
        Tally { lines: 0, words: 0, bytes: 0, chars: 0 }
    }

    /// The sum of two tallies, count by count.
    pub open spec fn plus(self, other: Tally) -> Tally {
        Tally {
            lines: self.lines + other.lines,
            words: self.words + other.words,
            bytes: self.bytes + other.bytes,
            chars: self.chars + other.chars,
        }
    }

    /// Whether each count fits the machine's word.
    pub open spec fn fits(self) -> bool {
        &&& self.lines <= usize::MAX
        &&& self.words <= usize::MAX
        &&& self.bytes <= usize::MAX
        &&& self.chars <= usize::MAX
    }

    /// Whether no count is above the same count of `other`.
    pub open spec fn within(self, other: Tally) -> bool {
        &&& self.lines <= other.lines
        &&& self.words <= other.words
        &&& self.bytes <= other.bytes
        &&& self.chars <= other.chars
    }
}

/// The four counts as the machine holds them.
#[derive(Debug, Clone, Copy, PartialEq, Eq, Structural)]
pub struct FileInfo {
    /// The number of lines.
    pub num_lines: usize,
    /// The number of words.
    pub num_words: usize,
    /// The number of bytes.
    pub num_bytes: usize,
    /// The number of characters.
    pub num_chars: usize,
}

impl View for FileInfo {
    type V = Tally;

    open spec fn view(&self) -> Tally {
        Tally {
            lines: self.num_lines as nat,
            words: self.num_words as nat,
            bytes: self.num_bytes as nat,
            chars: self.num_chars as nat,
        }
    }
}

/// What one line adds to a tally: itself, its words, its bytes with the
/// terminator, and its characters with the terminator.
pub open spec fn line_tally(line: Seq<u8>) -> Tally {
    Tally {
        lines: 1,
        words: word_count(decode_utf8(line)),
        bytes: line.len(),
        chars: decode_utf8(line).len(),
    }
}

/// The tally of some lines.
pub open spec fn tally(lines: Seq<Seq<u8>>) -> Tally
    decreases lines.len(),
{
    if lines.len() == 0 {
        Tally::zero()
    } else {
        tally(lines.drop_last()).plus(line_tally(lines.last()))
    }
}

/// The number of newlines in `text`.
pub open spec fn newline_count(text: Seq<u8>) -> nat
    decreases text.len(),
{
    if text.len() == 0 {
        0
    } else {
        newline_count(text.drop_last()) + if text.last() == NEWLINE {
            1nat
        } else {
            0nat
        }
    }
}

/// The number of pieces into which the newlines cut `text`: one for each
/// newline, and one more for what follows the last newline, unless nothing
/// follows it.
pub open spec fn segment_count(text: Seq<u8>) -> nat {
    newline_count(text) + if text.len() > 0 && text.last() != NEWLINE {
        1nat
    } else {
        0nat
    }
}

/// The tally of a text: its pieces, the words and the characters of the
/// text that it encodes, and its bytes.
pub open spec fn text_tally(text: Seq<u8>) -> Tally {
    Tally {
        lines: segment_count(text),
        words: word_count(decode_utf8(text)),
        bytes: text.len(),
        chars: decode_utf8(text).len(),
    }
}

/// The sum of some tallies.
pub open spec fn total(tallies: Seq<FileInfo>) -> Tally
    decreases tallies.len(),
{
    if tallies.len() == 0 {
        Tally::zero()
    } else {
        total(tallies.drop_last()).plus(tallies.last()@)
    }
}

/// The sum of the first of some tallies is within the sum of them all.
pub proof fn lemma_total_grows(tallies: Seq<FileInfo>, n: int)
    requires
        0 <= n <= tallies.len(),
    ensures
        total(tallies.take(n)).within(total(tallies)),
    decreases tallies.len(),
{
    if n == tallies.len() {
        assert(tallies.take(n) =~= tallies);
    } else {
        lemma_total_grows(tallies.drop_last(), n);
        assert(tallies.drop_last().take(n) =~= tallies.take(n));
    }
}

/// A line of valid UTF-8 has no more words or characters than bytes.
pub proof fn lemma_line_tally_bound(line: Seq<u8>)
    requires
        valid_utf8(line),
    ensures
        line_tally(line).words <= line.len(),
        line_tally(line).chars <= line.len(),
{
    let text = decode_utf8(line);
    decode_utf8_encode_utf8(line);
    lemma_encoded_len(text);
    lemma_word_count_bound(text);
}

/// The newlines of two texts one after the other are those of both.
pub proof fn lemma_newline_count_concat(a: Seq<u8>, b: Seq<u8>)
    ensures
        newline_count(a + b) == newline_count(a) + newline_count(b),
    decreases b.len(),
{
    if b.len() == 0 {
        assert(a + b =~= a);
    } else {
        lemma_newline_count_concat(a, b.drop_last());
        assert((a + b).drop_last() =~= a + b.drop_last());
    }
}

/// A text without a newline before its last byte has at most the one
/// newline at its end.
pub proof fn lemma_newline_count_line(line: Seq<u8>)
    requires
        forall|i: int| 0 <= i < line.len() - 1 ==> line[i] != NEWLINE,
    ensures
        newline_count(line) == if is_terminated(line) {
            1nat
        } else {
            0nat
        },
    decreases line.len(),
{
    if line.len() > 0 {
        let init = line.drop_last();
        assert forall|i: int| 0 <= i < init.len() implies init[i] != NEWLINE by {
            assert(init[i] == line[i]);
        }
        lemma_newline_count_line(init);
    }
}

/// The tally of some lines is that of the first and that of the others.
pub proof fn lemma_tally_first(lines: Seq<Seq<u8>>)
    requires
        lines.len() > 0,
    ensures
        tally(lines) == line_tally(lines[0]).plus(tally(lines.drop_first())),
    decreases lines.len(),
{
    if lines.len() == 1 {
        assert(lines.drop_last() =~= Seq::<Seq<u8>>::empty());
        assert(lines.drop_first() =~= Seq::<Seq<u8>>::empty());
    } else {
        lemma_tally_first(lines.drop_last());
        assert(lines.drop_last().drop_first() =~= lines.drop_first().drop_last());
    }
}

/// The tally of the lines of a text of valid UTF-8 is the tally of the text:
/// counting line by line gives the pieces, the words, the bytes and the
/// characters of the whole.
pub proof fn lemma_tally_of_text(text: Seq<u8>)
    requires
        valid_utf8(text),
    ensures
        tally(split_lines(text)) == text_tally(text),
    decreases text.len(),
{
    if text.len() > 0 {
        lemma_first_line_len(text);
        let head = first_line(text);
        let rest = after_first_line(text);
        let lines = split_lines(text);
        assert(text =~= head + rest);
        assert(lines.drop_first() =~= split_lines(rest));
        lemma_tally_first(lines);
        if rest.len() > 0 {
            lemma_split_after_ascii(text, head.len() as int);
        } else {
            assert(head =~= text);
        }
        lemma_tally_of_text(rest);
        lemma_decode_concat(head, rest);
        lemma_newline_count_concat(head, rest);
        lemma_newline_count_line(head);
        if rest.len() > 0 {
            lemma_decode_terminated(head);
            assert(text.last() == rest.last());
            lemma_word_count_concat(decode_utf8(head), decode_utf8(rest));
        } else {
            assert(decode_utf8(head) + decode_utf8(rest) =~= decode_utf8(head));
        }
    }
}

/// The lines of a text are as many as the pieces into which its newlines
/// cut it: a last piece without a newline counts as a line, unless it is
/// empty.
pub proof fn lemma_line_count(text: Seq<u8>)
    ensures
        split_lines(text).len() == segment_count(text),
    decreases text.len(),
{
    if text.len() > 0 {
        lemma_first_line_len(text);
        let head = first_line(text);
        let rest = after_first_line(text);
        assert(text =~= head + rest);
        lemma_line_count(rest);
        lemma_newline_count_concat(head, rest);
        lemma_newline_count_line(head);
        if rest.len() > 0 {
            assert(text.last() == rest.last());
        }
    }
}

impl FileInfo {
    /// The tally of nothing.
    pub fn new() -> (info: FileInfo)
        ensures
            info@ == Tally::zero(),
    {
        FileInfo { num_lines: 0, num_words: 0, num_bytes: 0, num_chars: 0 }
    }

    /// Adds the counts of `i2` to these.
    pub fn add(&mut self, i2: &FileInfo)
        requires
            old(self)@.plus(i2@).fits(),
        ensures
            final(self)@ == old(self)@.plus(i2@),
    {
        self.num_lines += i2.num_lines;
        self.num_words += i2.num_words;
        self.num_bytes += i2.num_bytes;
        self.num_chars += i2.num_chars;
    }

    /// Whether the counts of `i2` can be added to these: whether each sum
    /// fits the machine's word.
    pub fn can_add(&self, i2: &FileInfo) -> (fits: bool)
        ensures
            fits == self@.plus(i2@).fits(),
    {
        i2.num_lines <= usize::MAX - self.num_lines && i2.num_words <= usize::MAX - self.num_words
            && i2.num_bytes <= usize::MAX - self.num_bytes && i2.num_chars <= usize::MAX
            - self.num_chars
    }

    /// The tally of one line, which is given with its terminator.
    pub fn of_line(line: &str) -> (info: FileInfo)
        ensures
            info@ == line_tally(line.spec_bytes()),
    {
        proof {
            encode_utf8_decode_utf8(line@);
        }
        let (words, chars) = measure(line);
        FileInfo {
            num_lines: 1,
            num_words: words,
            num_bytes: line.as_bytes().len(),
            num_chars: chars,
        }
    }

    /// Counts one more line, which is given with its terminator.
    pub fn record_line(&mut self, line: &str)
        requires
            old(self)@.plus(line_tally(line.spec_bytes())).fits(),
        ensures
            final(self)@ == old(self)@.plus(line_tally(line.spec_bytes())),
    {
        let one = FileInfo::of_line(line);
        self.add(&one);
    }
}

/// The tally of `input`, which is read line by line.
///
/// Succeeds exactly on valid UTF-8. Fails at the first line that is not valid
/// UTF-8, with its index.
pub fn count(input: &[u8]) -> (result: Result<FileInfo, ReadError>)
    ensures
        result is Ok <==> valid_utf8(input@),
        match result {
            Ok(info) => info@ == text_tally(input@) && info@ == tally(split_lines(input@)),
            Err(e) => first_invalid(split_lines(input@), e.line as int),
        },
{
    proof {
        lemma_lines_valid(input@);
        if valid_utf8(input@) {
            lemma_tally_of_text(input@);
        }
    }
    let size = input.len();
    let mut reader = LineReader::new(input);
    let mut info = FileInfo::new();
    let ghost lines = split_lines(input@);
    let ghost mut done: Seq<Seq<u8>> = Seq::empty();
    proof {
        lemma_split_lines(input@);
        assert(done.flatten() =~= Seq::<u8>::empty());
    }
    loop
        invariant
            lines == split_lines(input@),
            lines.flatten() == input@,
            lines == done + split_lines(reader.rest()),
            all_valid(done),
            done.len() == reader.lines_read(),
            reader.lines_read() <= usize::MAX,
            info@ == tally(done),
            input@.len() == size,
            info.num_lines == done.len(),
            info.num_words <= info.num_bytes,
            info.num_chars <= info.num_bytes,
            info.num_bytes == done.flatten().len(),
            done.flatten().len() + split_lines(reader.rest()).flatten().len() == input@.len(),
        ensures
            all_valid(lines),
            info@ == tally(lines),
        decreases reader.rest().len(),
    {
        let ghost rest = reader.rest();
        proof {
            lemma_first_line_len(rest);
        }
        match reader.read_line() {
            Err(e) => {
                proof {
                    assert(lines.take(e.line as int) =~= done);
                    assert(lines[e.line as int] == first_line(rest));
                    assert(!all_valid(lines));
                    lemma_lines_valid(input@);
                }
                return Err(e);
            },
            Ok(line) => {
                if line.as_bytes().len() == 0 {
                    proof {
                        assert(lines =~= done);
                    }
                    break ;
                }
                proof {
                    let raw = line.spec_bytes();
                    let tail = split_lines(reader.rest());
                    encode_utf8_valid_utf8(line@);
                    lemma_line_tally_bound(raw);
                    done.lemma_flatten_push(raw);
                    assert(split_lines(rest) =~= seq![raw] + tail);
                    assert((seq![raw] + tail).drop_first() =~= tail);
                    assert(split_lines(rest).flatten() =~= raw + tail.flatten());
                    assert(done.push(raw).drop_last() =~= done);
                    assert(info.num_bytes + raw.len() <= size);
                    assert(info.num_lines < usize::MAX);
                    done = done.push(raw);
                    assert(lines =~= done + tail);
                }
                info.record_line(line);
            },
        }
    }
    Ok(info)
}

/// The sum of `tallies`, count by count.
pub fn aggregate(tallies: &[FileInfo]) -> (sum: FileInfo)
    requires
        total(tallies@).fits(),
    ensures
        sum@ == total(tallies@),
{
    let mut sum = FileInfo::new();
    let mut i: usize = 0;
    while i < tallies.len()
        invariant
            i <= tallies@.len(),
            sum@ == total(tallies@.take(i as int)),
            total(tallies@).fits(),
        decreases tallies@.len() - i,
    {
        proof {
            lemma_total_grows(tallies@, i + 1);
            assert(tallies@.take(i + 1).drop_last() =~= tallies@.take(i as int));
        }
        sum.add(&tallies[i]);
        i += 1;
    }
    proof {
        assert(tallies@.take(i as int) =~= tallies@);
    }
    sum
}

/// Which of the four counts are shown.
#[derive(Debug, Clone, Copy, PartialEq, Eq, Structural)]
pub struct Columns {
    /// The count of lines is shown.
    pub lines: bool,
    /// The count of words is shown.
    pub words: bool,
    /// The count of bytes is shown.
    pub bytes: bool,
    /// The count of characters is shown.
    pub chars: bool,
}

/// The columns that are shown where none is asked for: lines, words and
/// bytes.
pub open spec fn default_columns() -> Columns {
    Columns { lines: true, words: true, bytes: true, chars: false }
}

/// Whether no column is asked for.
pub open spec fn none_selected(columns: Columns) -> bool {
    !columns.lines && !columns.words && !columns.bytes && !columns.chars
}

/// Settles which columns are shown: those that are asked for, or the default
/// ones where none is.
pub fn check_args(args: &mut Columns)
    ensures
        *final(args) == if none_selected(*old(args)) {
            default_columns()
        } else {
            *old(args)
        },
{
    if !args.words && !args.bytes && !args.chars && !args.lines {
        args.lines = true;
        args.words = true;
        args.bytes = true;
    }
}

/// One count in its field, or nothing where its column is not shown.
pub open spec fn column(shown: bool, n: nat) -> Seq<u8> {
    if shown {
        field(n, COLUMN_WIDTH as nat)
    } else {
        Seq::empty()
    }
}

/// The counts of a tally in the columns that are shown, in the order lines,
/// words, bytes, characters.
pub open spec fn counts_text(tally: Tally, columns: Columns) -> Seq<u8> {
    column(columns.lines, tally.lines) + column(columns.words, tally.words) + column(
        columns.bytes,
        tally.bytes,
    ) + column(columns.chars, tally.chars)
}

/// The row of a source: its counts, then a space and its label unless the
/// source is the standard input, and a newline.
pub open spec fn source_row(tally: Tally, columns: Columns, label: Seq<char>) -> Seq<u8> {
    let name = if names_stdin(label) {
        Seq::empty()
    } else {
        seq![SPACE] + encode_utf8(label)
    };
    counts_text(tally, columns) + name + seq![NEWLINE]
}

/// The row of the totals, which is shown where more than one source was
/// given: the counts and the word `total`.
pub open spec fn total_row(tally: Tally, columns: Columns, sources: nat) -> Seq<u8> {
    if sources > 1 {
        counts_text(tally, columns) + encode_utf8(" total\n"@)
    } else {
        Seq::empty()
    }
}

/// Appends to `out` one count in its field, if its column is shown.
fn push_column(out: &mut Vec<u8>, shown: bool, n: usize)
    ensures
        final(out)@ == old(out)@ + column(shown, n as nat),
{
    if shown {
        push_field(out, n, COLUMN_WIDTH);
    } else {
        assert(out@ =~= out@ + column(shown, n as nat));
    }
}

/// Appends to `out` the counts of `file_info` in the columns that `args`
/// shows.
pub fn print_file_info(file_info: &FileInfo, args: &Columns, out: &mut Vec<u8>)
    ensures
        final(out)@ == old(out)@ + counts_text(file_info@, *args),
{
    let ghost before = out@;
    push_column(out, args.lines, file_info.num_lines);
    push_column(out, args.words, file_info.num_words);
    push_column(out, args.bytes, file_info.num_bytes);
    push_column(out, args.chars, file_info.num_chars);
    assert(out@ =~= before + counts_text(file_info@, *args));
}

/// Appends to `out` the row of the source with the given label.
pub fn print_source_row(file_info: &FileInfo, args: &Columns, label: &str, out: &mut Vec<u8>)
    ensures
        final(out)@ == old(out)@ + source_row(file_info@, *args, label@),
{
    let ghost before = out@;
    print_file_info(file_info, args, out);
    if !is_stdin(label) {
        out.push(SPACE);
        out.extend_from_slice(label.as_bytes());
    }
    out.push(NEWLINE);
    assert(out@ =~= before + source_row(file_info@, *args, label@));
}

/// Appends to `out` the row of the totals, if it is due for this number of
/// sources.
pub fn print_total_row(total: &FileInfo, args: &Columns, sources: usize, out: &mut Vec<u8>)
    ensures
        final(out)@ == old(out)@ + total_row(total@, *args, sources as nat),
{
    let ghost before = out@;
    if sources > 1 {
        print_file_info(total, args, out);
        out.extend_from_slice(" total\n".as_bytes());
    }
    assert(out@ =~= before + total_row(total@, *args, sources as nat));
}

} // verus!
