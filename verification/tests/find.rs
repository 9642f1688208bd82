use regex::Regex;
use textutils::find::{
    accepts, matches_name_filter, matches_type_filter, selects, EntryType, FileKind,
};

fn patterns(sources: &[&str]) -> Vec<Regex> {
    sources.iter().map(|s| Regex::new(s).unwrap()).collect()
}

#[test]
fn empty_filter_lets_everything_pass() {
    assert!(accepts(&[]));
    assert!(matches_name_filter(&Vec::new(), "anything".to_string()));
    assert!(matches_type_filter(&Vec::new(), FileKind::Other));
    assert!(matches_type_filter(&Vec::new(), FileKind::Dir));
}

#[test]
fn filter_passes_where_an_alternative_fits() {
    assert!(accepts(&[true]));
    assert!(accepts(&[false, true, false]));
    assert!(accepts(&[false, false, true]));
    assert!(!accepts(&[false]));
    assert!(!accepts(&[false, false, false]));
}

#[test]
fn name_filter_searches_anywhere_in_the_name() {
    let names = patterns(&["\\.txt$", "^README"]);
    assert!(matches_name_filter(&names, "notes.txt".to_string()));
    assert!(matches_name_filter(&names, "README.md".to_string()));
    assert!(!matches_name_filter(&names, "main.rs".to_string()));
    assert!(!matches_name_filter(&names, "notes.txt.bak".to_string()));
    let names = patterns(&["ot"]);
    assert!(matches_name_filter(&names, "notes".to_string()));
    assert!(!matches_name_filter(&names, "o".to_string()));
}

#[test]
fn name_filter_goes_by_the_pattern_not_by_the_name_itself() {
    let names = patterns(&["a.c"]);
    assert!(matches_name_filter(&names, "abc".to_string()));
    assert!(!matches_name_filter(&names, "a.d".to_string()));
    let names = patterns(&["^$"]);
    assert!(matches_name_filter(&names, String::new()));
    assert!(!matches_name_filter(&names, "x".to_string()));
}

#[test]
fn type_filter_tells_the_kinds_apart() {
    let dirs = vec![EntryType::Dir];
    assert!(matches_type_filter(&dirs, FileKind::Dir));
    assert!(!matches_type_filter(&dirs, FileKind::File));
    assert!(!matches_type_filter(&dirs, FileKind::Link));
    assert!(!matches_type_filter(&dirs, FileKind::Other));
    let files = vec![EntryType::File];
    assert!(matches_type_filter(&files, FileKind::File));
    assert!(!matches_type_filter(&files, FileKind::Dir));
    let links = vec![EntryType::Link];
    assert!(matches_type_filter(&links, FileKind::Link));
    assert!(!matches_type_filter(&links, FileKind::File));
}

#[test]
fn type_filter_takes_any_of_its_types() {
    let some = vec![EntryType::File, EntryType::Link];
    assert!(matches_type_filter(&some, FileKind::File));
    assert!(matches_type_filter(&some, FileKind::Link));
    assert!(!matches_type_filter(&some, FileKind::Dir));
    assert!(!matches_type_filter(&some, FileKind::Other));
}

#[test]
fn entry_is_listed_where_both_filters_pass() {
    let names = patterns(&["\\.rs$"]);
    let types = vec![EntryType::File];
    assert!(selects(&names, &types, "main.rs".to_string(), FileKind::File));
    assert!(!selects(&names, &types, "main.rs".to_string(), FileKind::Dir));
    assert!(!selects(&names, &types, "main.c".to_string(), FileKind::File));
    assert!(selects(&Vec::new(), &Vec::new(), "main.c".to_string(), FileKind::Other));
}

#[test]
fn entry_types_are_asked_for_by_letter() {
    assert_eq!(EntryType::Dir.letter(), "d");
    assert_eq!(EntryType::File.letter(), "f");
    assert_eq!(EntryType::Link.letter(), "l");
}
