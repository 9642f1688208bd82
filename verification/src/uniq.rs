//! Collapsing runs of adjacent lines with the same content into one line
//! each, as `uniq` does.
//!
//! A run is a stretch of consecutive lines that have the same content and
//! that no neighbouring line could extend. Of each run the first line is
//! written, as it was read, and on request the length of the run before it.
use vstd::prelude::*;
use vstd::utf8::*;
use vstd::string::StringSliceAdditionalSpecFns;
use crate::encoding::lemma_lines_valid;
use crate::format::{field, lemma_field_bytes, lemma_field_prefix, push_field, SPACE};
use crate::lines::{
    all_valid, are_lines, content, first_invalid, first_line, is_line, is_terminated,
    lemma_first_line_len, lemma_split_lines, lemma_split_of_joined, same_content, split_lines,
    LineReader, ReadError, NEWLINE,
};

verus! {

/// The width of the field that holds the length of a run.
pub const COUNT_WIDTH: usize = 4;

/// A line and the number of consecutive times it was met.
pub struct Run {
    /// The first line of the run, terminator included.
    pub line: Seq<u8>,
    /// The number of lines in the run.
    pub count: nat,
}

/// Whether `line` carries on the run `held`.
pub open spec fn continues(held: Option<Run>, line: Seq<u8>) -> bool {
    held matches Some(run) && content(run.line) == content(line)
}

/// The run that is held once `line` has been met.
pub open spec fn advance(held: Option<Run>, line: Seq<u8>) -> Run {
    if continues(held, line) {
        Run { line: held->0.line, count: held->0.count + 1 }
    } else {
        Run { line, count: 1 }
    }
}

/// What is written for a line: the line itself, and before it, where a count
/// is given, the count in a field of four bytes and one space.
pub open spec fn entry(line: Seq<u8>, count: Option<nat>) -> Seq<u8> {
    match count {
        Some(c) => field(c, COUNT_WIDTH as nat).push(SPACE) + line,
        None => line,
    }
}

/// What is written for a run.
pub open spec fn run_entry(run: Run, counts: bool) -> Seq<u8> {
    entry(
        run.line,
        if counts {
            Some(run.count)
        } else {
            None
        },
    )
}

/// What is written when the held run ends, or nothing where none is held.
pub open spec fn flush(held: Option<Run>, counts: bool) -> Seq<u8> {
    match held {
        Some(run) => run_entry(run, counts),
        None => Seq::empty(),
    }
}

/// The last of `runs`, if there is any.
pub open spec fn last_run(runs: Seq<Run>) -> Option<Run> {
    if runs.len() > 0 {
        Some(runs.last())
    } else {
        None
    }
}

/// The runs of `lines`, in order.
pub open spec fn runs(lines: Seq<Seq<u8>>) -> Seq<Run>
    decreases lines.len(),
{
    if lines.len() == 0 {
        Seq::empty()
    } else {
        let before = runs(lines.drop_last());
        let held = last_run(before);
        if continues(held, lines.last()) {
            before.drop_last().push(advance(held, lines.last()))
        } else {
            before.push(advance(held, lines.last()))
        }
    }
}

/// The entries of `runs`, one for each.
pub open spec fn entries(runs: Seq<Run>, counts: bool) -> Seq<Seq<u8>> {
    Seq::new(runs.len(), |i: int| run_entry(runs[i], counts))
}

/// `text` with each run of its lines collapsed.
pub open spec fn collapsed(text: Seq<u8>, counts: bool) -> Seq<u8> {
    entries(runs(split_lines(text)), counts).flatten()
}

/// Appends `line` to `output`, with `count` before it where one is given.
pub fn write_output(output: &mut Vec<u8>, line: &String, count: Option<usize>)
    ensures
        final(output)@ == old(output)@ + entry(
            encode_utf8(line@),
            match count {
                Some(c) => Some(c as nat),
                None => None,
            },
        ),
{
    let ghost before = output@;
    match count {
        Some(c) => {
            push_field(output, c, COUNT_WIDTH);
            output.push(SPACE);
        },
        None => {},
    }
    output.extend_from_slice(line.as_str().as_bytes());
    assert(output@ =~= before + entry(
        encode_utf8(line@),
        match count {
            Some(c) => Some(c as nat),
            None => None,
        },
    ));
}

/// The state of collapsing: the run that is held, if any line has been met.
pub struct Collapser {
    held: Option<String>,
    count: usize,
    counts: bool,
}

impl Collapser {
    #[verifier::type_invariant]
    spec fn inv(&self) -> bool {
        self.held is Some ==> self.count >= 1
    }

    /// The run that is held.
    pub closed spec fn held(&self) -> Option<Run> {
        match self.held {
            Some(line) => Some(Run { line: encode_utf8(line@), count: self.count as nat }),
            None => None,
        }
    }

    /// Whether the length of each run is written before its line.
    pub closed spec fn shows_counts(&self) -> bool {
        self.counts
    }

    /// The state before the first line.
    pub fn new(counts: bool) -> (state: Self)
        ensures
            state.held() is None,
            state.shows_counts() == counts,
    {
        Collapser { held: None, count: 0, counts }
    }

    /// Whether one more line can be counted into the held run.
    pub fn has_room(&self) -> (room: bool)
        ensures
            room == (self.held() matches Some(run) ==> run.count < usize::MAX),
    {
        self.held.is_none() || self.count < usize::MAX
    }

    /// Takes the next line. A line with the content of the held run is
    /// counted into it. Any other line ends the held run, which is written to
    /// `out`, and starts a run of its own.
    pub fn feed(&mut self, line: &str, out: &mut Vec<u8>)
        requires
            old(self).held() matches Some(run) ==> run.count < usize::MAX,
        ensures
            final(self).shows_counts() == old(self).shows_counts(),
            final(self).held() == Some(advance(old(self).held(), line.spec_bytes())),
            final(out)@ == old(out)@ + if continues(old(self).held(), line.spec_bytes()) {
                Seq::empty()
            } else {
                flush(old(self).held(), old(self).shows_counts())
            },
    {
        proof {
            use_type_invariant(&*self);
        }
        let ghost before = out@;
        let carried = match &self.held {
            Some(held) => same_content(held.as_str().as_bytes(), line.as_bytes()),
            None => false,
        };
        if carried {
            self.count = self.count + 1;
        } else {
            self.write_held(out);
            self.count = 1;
            self.held = Some(line.to_owned());
        }
        assert(out@ =~= before + if continues(old(self).held(), line.spec_bytes()) {
            Seq::empty()
        } else {
            flush(old(self).held(), old(self).shows_counts())
        });
    }

    /// Ends the input: writes the held run to `out`. The state is used up,
    /// so that the run is written once.
    pub fn finish(self, out: &mut Vec<u8>)
        ensures
            final(out)@ == old(out)@ + flush(self.held(), self.shows_counts()),
    {
        self.write_held(out);
    }

    /// Writes the held run to `out`.
    fn write_held(&self, out: &mut Vec<u8>)
        ensures
            final(out)@ == old(out)@ + flush(self.held(), self.shows_counts()),
    {
        let ghost before = out@;
        match &self.held {
            Some(held) => {
                write_output(
                    out,
                    held,
                    if self.counts {
                        Some(self.count)
                    } else {
                        None
                    },
                );
            },
            None => {
                assert(out@ =~= before + Seq::<u8>::empty());
            },
        }
    }
}

/// What has been written once `lines` have been met: the entries of all
/// their runs but the last, which is still held.
pub open spec fn settled(lines: Seq<Seq<u8>>, counts: bool) -> Seq<u8> {
    if runs(lines).len() == 0 {
        Seq::empty()
    } else {
        entries(runs(lines).drop_last(), counts).flatten()
    }
}

/// One more line advances the held run, and settles the run that was held
/// unless the line carries it on.
pub proof fn lemma_runs_push(lines: Seq<Seq<u8>>, line: Seq<u8>, counts: bool)
    ensures
        last_run(runs(lines.push(line))) == Some(advance(last_run(runs(lines)), line)),
        settled(lines.push(line), counts) == settled(lines, counts) + if continues(
            last_run(runs(lines)),
            line,
        ) {
            Seq::empty()
        } else {
            flush(last_run(runs(lines)), counts)
        },
{
    let before = runs(lines);
    let after = runs(lines.push(line));
    assert(lines.push(line).drop_last() =~= lines);
    if continues(last_run(before), line) {
        assert(after.drop_last() =~= before.drop_last());
        assert(settled(lines.push(line), counts) =~= settled(lines, counts) + Seq::<u8>::empty());
    } else {
        assert(after.drop_last() =~= before);
        lemma_entries_flatten(before, counts);
    }
}

/// The entries of some runs, put together, are what is settled before the
/// last of them and then the entry of the last.
pub proof fn lemma_entries_flatten(runs: Seq<Run>, counts: bool)
    ensures
        entries(runs, counts).flatten() == if runs.len() == 0 {
            Seq::<u8>::empty()
        } else {
            entries(runs.drop_last(), counts).flatten() + run_entry(runs.last(), counts)
        },
{
    if runs.len() > 0 {
        let init = entries(runs.drop_last(), counts);
        assert(entries(runs, counts) =~= init.push(run_entry(runs.last(), counts)));
        init.lemma_flatten_push(run_entry(runs.last(), counts));
    }
}

/// Collapses the runs of the lines of `input`. Of each run the first line is
/// written, with the length of the run before it where `counts` is set, so
/// that the result has one line for each run.
///
/// Succeeds exactly on valid UTF-8. Fails at the first line that is not valid
/// UTF-8, with its index.
pub fn collapse(input: &[u8], counts: bool) -> (result: Result<Vec<u8>, ReadError>)
    ensures
        result is Ok <==> valid_utf8(input@),
        match result {
            Ok(out) => {
                &&& all_valid(split_lines(input@))
                &&& out@ == collapsed(input@, counts)
                &&& split_lines(out@).len() == run_count(split_lines(input@))
            },
            Err(e) => first_invalid(split_lines(input@), e.line as int),
        },
{
    let mut reader = LineReader::new(input);
    let mut state = Collapser::new(counts);
    let mut out: Vec<u8> = Vec::new();
    let ghost mut done: Seq<Seq<u8>> = Seq::empty();
    loop
        invariant
            split_lines(input@) == done + split_lines(reader.rest()),
            all_valid(done),
            done.len() == reader.lines_read(),
            reader.lines_read() <= usize::MAX,
            state.shows_counts() == counts,
            state.held() == last_run(runs(done)),
            state.held() matches Some(run) ==> run.count <= done.len(),
            out@ == settled(done, counts),
        ensures
            all_valid(split_lines(input@)),
            state.shows_counts() == counts,
            state.held() == last_run(runs(split_lines(input@))),
            out@ == settled(split_lines(input@), counts),
        decreases reader.rest().len(),
    {
        let ghost rest = reader.rest();
        proof {
            lemma_first_line_len(rest);
        }
        match reader.read_line() {
            Err(e) => {
                proof {
                    let lines = split_lines(input@);
                    assert(lines.take(e.line as int) =~= done);
                    assert(lines[e.line as int] == first_line(rest));
                    assert(!all_valid(lines));
                    lemma_lines_valid(input@);
                }
                return Err(e);
            },
            Ok(line) => {
                if line.as_bytes().len() == 0 {
                    proof {
                        assert(split_lines(input@) =~= done);
                    }
                    break ;
                }
                proof {
                    let fed = done.push(line.spec_bytes());
                    encode_utf8_valid_utf8(line@);
                    assert(split_lines(input@) =~= fed + split_lines(reader.rest()));
                    lemma_runs_push(done, line.spec_bytes(), counts);
                    done = fed;
                }
                state.feed(line, &mut out);
            },
        }
    }
    proof {
        lemma_entries_flatten(runs(split_lines(input@)), counts);
        lemma_collapsed_line_count(input@, counts);
        lemma_lines_valid(input@);
    }
    state.finish(&mut out);
    Ok(out)
}

/// Whether a run starts with the line at index `i`: with the first line, and
/// with each line whose content differs from that of the line before it.
pub open spec fn starts_run(lines: Seq<Seq<u8>>, i: int) -> bool {
    i == 0 || content(lines[i - 1]) != content(lines[i])
}

/// The number of runs of `lines`, counted by the lines that start one.
pub open spec fn run_count(lines: Seq<Seq<u8>>) -> nat
    decreases lines.len(),
{
    if lines.len() == 0 {
        0
    } else {
        run_count(lines.drop_last()) + if starts_run(lines, lines.len() - 1) {
            1nat
        } else {
            0nat
        }
    }
}

/// There is one run for each line that starts one. The last run has the
/// content of the last line, every run has at least one line, and two runs
/// that follow each other differ in content.
pub proof fn lemma_runs(lines: Seq<Seq<u8>>)
    ensures
        runs(lines).len() == run_count(lines),
        lines.len() > 0 ==> runs(lines).len() > 0 && content(runs(lines).last().line) == content(
            lines.last(),
        ),
        forall|j: int| 0 <= j < runs(lines).len() ==> (#[trigger] runs(lines)[j]).count >= 1,
        forall|j: int|
            0 < j < runs(lines).len() ==> content((#[trigger] runs(lines)[j]).line) != content(
                runs(lines)[j - 1].line,
            ),
    decreases lines.len(),
{
    if lines.len() > 0 {
        let init = lines.drop_last();
        let before = runs(init);
        lemma_runs(init);
        if init.len() > 0 {
            assert(init.last() == lines[lines.len() - 2]);
        }
        let after = runs(lines);
        assert forall|j: int| 0 <= j < after.len() implies (#[trigger] after[j]).count >= 1 by {
            if j < after.len() - 1 {
                assert(after[j] == before[j]);
            }
        }
        assert forall|j: int| 0 < j < after.len() implies content((#[trigger] after[j]).line)
            != content(after[j - 1].line) by {
            assert(after[j - 1] == before[j - 1]);
            if j < after.len() - 1 {
                assert(after[j] == before[j]);
            } else if continues(last_run(before), lines.last()) {
                assert(after[j].line == before[j].line);
            }
        }
    }
}

/// The first lines of the runs of some lines of a text are themselves lines
/// of a text; the last of them ends with a newline where the last line does.
pub proof fn lemma_run_lines(lines: Seq<Seq<u8>>)
    requires
        are_lines(lines),
    ensures
        are_lines(entries(runs(lines), false)),
        lines.len() > 0 && is_terminated(lines.last())
            ==> is_terminated(runs(lines).last().line),
    decreases lines.len(),
{
    if lines.len() > 0 {
        let init = lines.drop_last();
        let before = runs(init);
        let after = runs(lines);
        assert forall|i: int| 0 <= i < init.len() implies is_line(
            #[trigger] init[i],
        ) by {
            assert(init[i] == lines[i]);
        }
        assert forall|i: int| 0 <= i < init.len() implies is_terminated(
            #[trigger] init[i],
        ) by {
            assert(init[i] == lines[i]);
        }
        lemma_run_lines(init);
        lemma_runs(init);
        lemma_runs(lines);
        let first = entries(before, false);
        let then = entries(after, false);
        assert(is_line(lines[lines.len() - 1]));
        assert forall|j: int| 0 <= j < before.len() implies is_line(
            before[j].line,
        ) && is_terminated(#[trigger] before[j].line) by {
            assert(first[j] == before[j].line);
            assert(is_line(first[j]));
            if j < before.len() - 1 {
                assert(is_terminated(first[j]));
            }
        }
        assert forall|j: int| 0 <= j < then.len() implies is_line(
            #[trigger] then[j],
        ) by {
            if j < after.len() - 1 {
                assert(after[j] == before[j]);
            } else if continues(last_run(before), lines.last()) {
                assert(after[j].line == before[j].line);
            }
        }
        assert forall|j: int| 0 <= j < then.len() - 1 implies is_terminated(
            #[trigger] then[j],
        ) by {
            assert(after[j] == before[j]);
        }
        if continues(last_run(before), lines.last()) {
            assert(after.last().line == before[before.len() - 1].line);
        }
    }
}

/// The entries of the runs of some lines of a text are lines of a text, with
/// or without the counts before them.
pub proof fn lemma_entries_are_lines(lines: Seq<Seq<u8>>, counts: bool)
    requires
        are_lines(lines),
    ensures
        are_lines(entries(runs(lines), counts)),
{
    lemma_run_lines(lines);
    if counts {
        let found = runs(lines);
        let plain = entries(found, false);
        let numbered = entries(found, true);
        assert forall|j: int| 0 <= j < numbered.len() implies is_line(
            #[trigger] numbered[j],
        ) && (is_terminated(plain[j]) ==> is_terminated(
            numbered[j],
        )) by {
            let line = found[j].line;
            let prefix = field(found[j].count, COUNT_WIDTH as nat).push(SPACE);
            lemma_field_bytes(found[j].count, COUNT_WIDTH as nat);
            assert(plain[j] == line);
            assert(is_line(plain[j]));
            assert(numbered[j] == prefix + line);
            assert forall|i: int| 0 <= i < numbered[j].len() - 1 implies numbered[j][i]
                != NEWLINE by {
                if i < prefix.len() - 1 {
                    assert(numbered[j][i] == field(found[j].count, COUNT_WIDTH as nat)[i]);
                } else if i >= prefix.len() {
                    assert(numbered[j][i] == line[i - prefix.len()]);
                }
            }
            assert(numbered[j].last() == line.last());
        }
        assert forall|j: int| 0 <= j < numbered.len() - 1 implies is_terminated(
            #[trigger] numbered[j],
        ) by {
            assert(is_terminated(plain[j]));
        }
    }
}

/// The collapsed text has one line for each run of the lines of the text.
pub proof fn lemma_collapsed_line_count(text: Seq<u8>, counts: bool)
    ensures
        split_lines(collapsed(text, counts)) == entries(runs(split_lines(text)), counts),
        split_lines(collapsed(text, counts)).len() == run_count(split_lines(text)),
{
    let lines = split_lines(text);
    lemma_split_lines(text);
    lemma_entries_are_lines(lines, counts);
    lemma_split_of_joined(entries(runs(lines), counts));
    lemma_runs(lines);
}

/// Lines of which no two that follow each other have the same content are
/// each a run of their own.
pub proof fn lemma_runs_of_distinct(lines: Seq<Seq<u8>>)
    requires
        forall|i: int| 0 < i < lines.len() ==> content(#[trigger] lines[i]) != content(lines[i - 1]),
    ensures
        runs(lines) == Seq::new(lines.len(), |i: int| Run { line: lines[i], count: 1 }),
    decreases lines.len(),
{
    if lines.len() > 0 {
        let init = lines.drop_last();
        assert forall|i: int| 0 < i < init.len() implies content(#[trigger] init[i]) != content(
            init[i - 1],
        ) by {
            assert(init[i] == lines[i]);
            assert(init[i - 1] == lines[i - 1]);
        }
        lemma_runs_of_distinct(init);
        if init.len() > 0 {
            assert(runs(init).last().line == lines[lines.len() - 2]);
            assert(content(lines[lines.len() - 1]) != content(lines[lines.len() - 2]));
        }
        assert(runs(lines) =~= Seq::new(lines.len(), |i: int| Run { line: lines[i], count: 1 }));
    } else {
        assert(runs(lines) =~= Seq::new(lines.len(), |i: int| Run { line: lines[i], count: 1 }));
    }
}

/// The content of an entry with a count is the count, as it stands before
/// the line, and the content of the line.
pub proof fn lemma_entry_content(line: Seq<u8>, count: nat)
    requires
        is_line(line),
    ensures
        content(entry(line, Some(count))) == field(count, COUNT_WIDTH as nat).push(SPACE) + content(
            line,
        ),
{
    let prefix = field(count, COUNT_WIDTH as nat).push(SPACE);
    let whole = prefix + line;
    assert(whole.last() == line.last());
    if line.len() >= 2 {
        assert(whole[whole.len() - 2] == line[line.len() - 2]);
    } else {
        assert(whole[whole.len() - 2] == SPACE);
    }
    assert(content(whole) =~= prefix + content(line));
}

/// No two entries that follow each other have the same content, with or
/// without the counts before them.
pub proof fn lemma_entries_differ(lines: Seq<Seq<u8>>, counts: bool)
    requires
        are_lines(lines),
    ensures
        forall|i: int|
            0 < i < runs(lines).len() ==> content(#[trigger] entries(runs(lines), counts)[i])
                != content(entries(runs(lines), counts)[i - 1]),
{
    let found = runs(lines);
    let shown = entries(found, counts);
    lemma_runs(lines);
    lemma_run_lines(lines);
    assert forall|i: int| 0 < i < found.len() implies content(#[trigger] shown[i]) != content(
        shown[i - 1],
    ) by {
        let this = found[i];
        let last = found[i - 1];
        assert(content(this.line) != content(last.line));
        if counts {
            assert(entries(found, false)[i] == this.line);
            assert(entries(found, false)[i - 1] == last.line);
            lemma_entry_content(this.line, this.count);
            lemma_entry_content(last.line, last.count);
            if content(shown[i]) == content(shown[i - 1]) {
                lemma_field_prefix(
                    this.count,
                    last.count,
                    COUNT_WIDTH as nat,
                    content(this.line),
                    content(last.line),
                );
            }
        }
    }
}

/// Collapsing again, without counts, what was collapsed changes nothing: no
/// two lines that follow each other in it have the same content. This holds
/// whether or not the first collapsing wrote the counts.
pub proof fn lemma_collapse_idempotent(text: Seq<u8>, counts: bool)
    ensures
        collapsed(collapsed(text, counts), false) == collapsed(text, counts),
{
    let lines = split_lines(text);
    let once = entries(runs(lines), counts);
    lemma_split_lines(text);
    lemma_collapsed_line_count(text, counts);
    lemma_entries_differ(lines, counts);
    lemma_runs_of_distinct(once);
    assert(entries(runs(once), false) =~= once);
}

} // verus!
