use samesame::types::{FileDescription, Range};

#[test]
fn test_file_description_len() {
    let fd = FileDescription {
        filename: "test.rs".to_string(),
        hashes: vec![1, 2, 3, 4, 5],
        lines: vec!["a".into(), "b".into(), "c".into(), "d".into(), "e".into()],
    };
    assert_eq!(fd.len(), 5);
}

#[test]
fn test_file_description_is_empty_false() {
    let fd = FileDescription {
        filename: "test.rs".to_string(),
        hashes: vec![1],
        lines: vec!["a".into()],
    };
    assert!(!fd.is_empty());
}

#[test]
fn test_file_description_is_empty_true() {
    let fd = FileDescription {
        filename: "test.rs".to_string(),
        hashes: vec![],
        lines: vec![],
    };
    assert!(fd.is_empty());
}

#[test]
fn range_len_counts_lines() {
    let r = Range::new(3, 8);
    assert_eq!(r.start, 3);
    assert_eq!(r.end, 8);
    assert_eq!(r.len(), 5);
    assert_eq!(Range::new(4, 4).len(), 0);
}
