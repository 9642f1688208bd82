//! Putting words on one line, as `echo` does.
use vstd::prelude::*;
use vstd::string::StringExecFns;

verus! {

/// The words with one space between each two of them.
pub open spec fn joined(words: Seq<Seq<char>>) -> Seq<char>
    decreases words.len(),
{
    if words.len() == 0 {
        Seq::empty()
    } else if words.len() == 1 {
        words[0]
    } else {
        joined(words.drop_last()) + seq![' '] + words.last()
    }
}

/// The line that is written for the words: the words with spaces between
/// them, and a newline unless it is left out.
pub open spec fn echoed(words: Seq<Seq<char>>, omit_newline: bool) -> Seq<char> {
    joined(words) + if omit_newline {
        Seq::empty()
    } else {
        seq!['\n']
    }
}

/// The texts that the strings hold.
pub open spec fn texts(words: Seq<String>) -> Seq<Seq<char>> {
    Seq::new(words.len(), |i: int| words[i]@)
}

/// The line that is written for `text`.
pub fn echo(text: &Vec<String>, omit_newline: bool) -> (line: String)
    ensures
        line@ == echoed(texts(text@), omit_newline),
{
    let ghost words = texts(text@);
    let mut line = String::new();
    let mut i: usize = 0;
    proof {
        reveal_strlit(" ");
        reveal_strlit("\n");
        assert(" "@ =~= seq![' ']);
        assert("\n"@ =~= seq!['\n']);
    }
    while i < text.len()
        invariant
            i <= text@.len(),
            words == texts(text@),
            line@ == joined(words.take(i as int)),
            " "@ == seq![' '],
        decreases text@.len() - i,
    {
        proof {
            assert(words.take(i + 1).drop_last() =~= words.take(i as int));
            assert(words.take(i + 1).last() == text@[i as int]@);
        }
        if i > 0 {
            line.append(" ");
        }
        line.append(text[i].as_str());
        i += 1;
        proof {
            if i == 1 {
                assert(line@ =~= words.take(1)[0]);
            }
        }
    }
    proof {
        assert(words.take(i as int) =~= words);
    }
    if !omit_newline {
        line.append("\n");
    } else {
        assert(line@ =~= echoed(words, omit_newline));
    }
    line
}

} // verus!
