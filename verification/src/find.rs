//! Choosing the entries of a directory walk by name and by type, as `find`
//! does.
//!
//! A filter is a list of alternatives. An empty list lets every entry pass;
//! any other list lets an entry pass where at least one alternative fits it.
use vstd::prelude::*;
use regex::Regex;

verus! {

/// A type of entry that can be asked for.
#[derive(Debug, Clone, Copy, PartialEq, Eq, Structural)]
pub enum EntryType {
    /// Directories.
    Dir,
    /// Regular files.
    File,
    /// Symbolic links.
    Link,
}

/// What an entry of the file system is.
#[derive(Debug, Clone, Copy, PartialEq, Eq, Structural)]
pub enum FileKind {
    /// A directory.
    Dir,
    /// A regular file.
    File,
    /// A symbolic link.
    Link,
    /// Anything else.
    Other,
}

/// `regex::Regex`, a compiled pattern. Nothing is stated of what it holds: a
/// pattern is only handed on to the search.
#[verifier::external_type_specification]
#[verifier::external_body]
pub struct ExRegex(regex::Regex);

/// Whether `pattern` finds a match anywhere in `text`, as `Regex::is_match`
/// tells.
pub uninterp spec fn finds_match(pattern: Regex, text: Seq<char>) -> bool;

/// `Regex::is_match`, which tells whether the pattern finds a match anywhere
/// in the text. What it tells has the name `finds_match`.
#[verifier::external_body]
fn is_match(pattern: &Regex, text: &str) -> (found: bool)
    ensures
        found == finds_match(*pattern, text@),
{
    pattern.is_match(text)
}

/// Whether an entry of the given kind is of the type asked for.
pub open spec fn fits_type(asked: EntryType, kind: FileKind) -> bool {
    match asked {
        EntryType::Dir => kind == FileKind::Dir,
        EntryType::File => kind == FileKind::File,
        EntryType::Link => kind == FileKind::Link,
    }
}

/// Whether a filter lets an entry pass, given for each alternative whether it
/// fits: an empty filter does, and one of which some alternative fits.
pub open spec fn passes(hits: Seq<bool>) -> bool {
    hits.len() == 0 || exists|i: int| 0 <= i < hits.len() && hits[i]
}

impl EntryType {
    /// The letter by which the type is asked for: `d`, `f` or `l`.
    pub fn letter(&self) -> (name: &'static str)
        ensures
            name@ == match self {
                EntryType::Dir => seq!['d'],
                EntryType::File => seq!['f'],
                EntryType::Link => seq!['l'],
            },
    {
        proof {
            reveal_strlit("d");
            reveal_strlit("f");
            reveal_strlit("l");
        }
        let name = match self {
            EntryType::Dir => "d",
            EntryType::File => "f",
            EntryType::Link => "l",
        };
        assert(name@ =~= match self {
            EntryType::Dir => seq!['d'],
            EntryType::File => seq!['f'],
            EntryType::Link => seq!['l'],
        });
        name
    }
}

/// Whether a filter lets an entry pass, where `hits` tells of each
/// alternative whether it fits the entry.
pub fn accepts(hits: &[bool]) -> (passed: bool)
    ensures
        passed == passes(hits@),
{
    if hits.len() == 0 {
        return true;
    }
    let mut i: usize = 0;
    while i < hits.len()
        invariant
            i <= hits@.len(),
            forall|k: int| 0 <= k < i ==> !hits@[k],
        decreases hits@.len() - i,
    {
        if hits[i] {
            return true;
        }
        i += 1;
    }
    false
}

/// Whether the name of an entry passes the filter of patterns.
pub fn matches_name_filter(names: &Vec<Regex>, file_name: String) -> (passed: bool)
    ensures
        passed == passes(Seq::new(names@.len(), |i: int| finds_match(names@[i], file_name@))),
{
    let mut hits: Vec<bool> = Vec::new();
    let mut i: usize = 0;
    while i < names.len()
        invariant
            i <= names@.len(),
            hits@ == Seq::new(i as nat, |k: int| finds_match(names@[k], file_name@)),
        decreases names@.len() - i,
    {
        let found = is_match(&names[i], file_name.as_str());
        hits.push(found);
        i += 1;
        assert(hits@ =~= Seq::new(i as nat, |k: int| finds_match(names@[k], file_name@)));
    }
    accepts(hits.as_slice())
}

/// Whether the kind of an entry passes the filter of types.
pub fn matches_type_filter(types: &Vec<EntryType>, file_type: FileKind) -> (passed: bool)
    ensures
        passed == passes(Seq::new(types@.len(), |i: int| fits_type(types@[i], file_type))),
{
    let ghost hits = Seq::new(types@.len(), |i: int| fits_type(types@[i], file_type));
    if types.len() == 0 {
        return true;
    }
    let mut i: usize = 0;
    while i < types.len()
        invariant
            i <= types@.len(),
            hits == Seq::new(types@.len(), |i: int| fits_type(types@[i], file_type)),
            forall|k: int| 0 <= k < i ==> !hits[k],
        decreases types@.len() - i,
    {
        let fits = match types[i] {
            EntryType::Link => matches!(file_type, FileKind::Link),
            EntryType::Dir => matches!(file_type, FileKind::Dir),
            EntryType::File => matches!(file_type, FileKind::File),
        };
        if fits {
            assert(hits[i as int]);
            return true;
        }
        i += 1;
    }
    false
}

/// Whether an entry is listed: its name passes the filter of patterns and
/// its kind the filter of types.
pub fn selects(
    names: &Vec<Regex>,
    types: &Vec<EntryType>,
    file_name: String,
    file_type: FileKind,
) -> (listed: bool)
    ensures
        listed == (passes(Seq::new(names@.len(), |i: int| finds_match(names@[i], file_name@)))
            && passes(Seq::new(types@.len(), |i: int| fits_type(types@[i], file_type)))),
{
    matches_name_filter(names, file_name) && matches_type_filter(types, file_type)
}

} // verus!
