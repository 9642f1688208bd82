//! Sources of input and what is said of them.
//!
//! A source is known by its label: the path of a file, or `-` for the
//! standard input.
use vstd::prelude::*;
use vstd::utf8::*;
use vstd::string::StringExecFns;

verus! {

/// Whether a label stands for the standard input: the label `-` does, and no
/// other.
pub open spec fn names_stdin(label: Seq<char>) -> bool {
    label == seq!['-']
}

/// What is reported of a source that failed: its label, a colon and a space,
/// and the message.
pub open spec fn diagnostic_text(label: Seq<char>, message: Seq<char>) -> Seq<char> {
    label + seq![':', ' '] + message
}

/// Whether `label` stands for the standard input.
pub fn is_stdin(label: &str) -> (stdin: bool)
    ensures
        stdin == names_stdin(label@),
{
    let bytes = label.as_bytes();
    let stdin = bytes.len() == 1 && bytes[0] == 0x2D;
    proof {
        let dash = seq!['-'];
        assert(is_ascii_chars(dash));
        is_ascii_chars_encode_utf8(dash);
        assert(encode_utf8(dash) =~= seq![0x2Du8]);
        encode_utf8_decode_utf8(dash);
        encode_utf8_decode_utf8(label@);
        if stdin {
            assert(bytes@ =~= seq![0x2Du8]);
        }
    }
    stdin
}

/// The line that reports `message` of the source with the given label.
pub fn diagnostic(label: &str, message: &str) -> (text: String)
    ensures
        text@ == diagnostic_text(label@, message@),
{
    let mut text = String::from_str(label);
    text.append(": ");
    text.append(message);
    proof {
        reveal_strlit(": ");
        assert(": "@ =~= seq![':', ' ']);
    }
    text
}

} // verus!
