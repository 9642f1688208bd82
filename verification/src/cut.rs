//! What `cut` takes out of each line, and the delimiter between fields.
use vstd::prelude::*;
use vstd::utf8::*;
use vstd::string::StringExecFns;
use core::ops::Range;

verus! {

/// Ranges of positions within a line.
pub type PositionList = Vec<Range<usize>>;

/// What is taken out of each line: fields, bytes or characters at the given
/// positions.
#[derive(Debug)]
pub enum Extract {
    /// The fields at these positions.
    Fields(PositionList),
    /// The bytes at these positions.
    Bytes(PositionList),
    /// The characters at these positions.
    Chars(PositionList),
}

/// A delimiter that is not a single byte.
#[derive(Debug)]
pub struct DelimiterError {
    /// The delimiter as it was given.
    pub delimiter: String,
}

/// What is said of a delimiter that is not a single byte.
pub open spec fn delimiter_message(delimiter: Seq<char>) -> Seq<char> {
    "--delim \""@ + delimiter + "\" must be a single byte"@
}

impl DelimiterError {
    /// The message that names the delimiter and what is wrong with it.
    pub fn message(&self) -> (text: String)
        ensures
            text@ == delimiter_message(self.delimiter@),
    {
        let mut text = String::from_str("--delim \"");
        text.append(self.delimiter.as_str());
        text.append("\" must be a single byte");
        text
    }
}

/// The byte that delimits fields. A delimiter is accepted where it takes
/// exactly one byte, and refused otherwise.
pub fn get_and_validate_delimiter(delimiter: String) -> (result: Result<u8, DelimiterError>)
    ensures
        match result {
            Ok(byte) => encode_utf8(delimiter@) == seq![byte],
            Err(e) => encode_utf8(delimiter@).len() != 1 && e.delimiter@ == delimiter@,
        },
{
    let bytes = delimiter.as_str().as_bytes();
    if bytes.len() != 1 {
        return Err(DelimiterError { delimiter });
    }
    let byte = bytes[0];
    assert(bytes@ =~= seq![byte]);
    Ok(byte)
}

} // verus!
