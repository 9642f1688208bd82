use textutils::wc::{count, FileInfo};

#[test]
fn test_count() {
    let text = "I don't want the world.\nI just want your half.\r\n";
    let info = count(text.as_bytes());

    assert!(info.is_ok());

    let expected = FileInfo {
        num_lines: 2,
        num_words: 10,
        num_bytes: 48,
        num_chars: 48,
    };

    assert_eq!(info.unwrap(), expected);
}
