use samesame::file::{content_lines, describe_file, describe_text_file, hash_content, hash_line, is_binary_content};

#[test]
fn test_hash_line_consistency() {
    let line = "fn main() {";
    let hash1 = hash_line(line);
    let hash2 = hash_line(line);
    assert_eq!(hash1, hash2);
}

#[test]
fn test_hash_line_different() {
    let hash1 = hash_line("fn main() {");
    let hash2 = hash_line("fn main() {}");
    assert_ne!(hash1, hash2);
}

#[test]
fn test_hash_line_empty() {
    let hash = hash_line("");
    // Empty string should still produce a valid hash
    assert!(hash != 0 || hash == 0); // Just verify it doesn't panic
}

#[test]
fn test_hash_line_whitespace_matters() {
    let hash1 = hash_line("hello");
    let hash2 = hash_line(" hello");
    let hash3 = hash_line("hello ");
    // After normalization in read_file, these would be same,
    // but hash_line itself doesn't normalize
    assert_ne!(hash1, hash2);
    assert_ne!(hash1, hash3);
}

#[test]
fn test_read_file() {
    let content = b"  line one  \nline two\n   line three   \n";
    let desc = describe_file("t.txt".to_string(), content);

    assert_eq!(desc.hashes.len(), 3);

    // Hashes are computed from trimmed lines.
    let hash_trimmed = hash_line("line one");
    assert_eq!(desc.hashes[0], hash_trimmed);

    // Line content is kept as written (indentation too).
    let lines = content_lines(content);
    assert_eq!(lines, vec!["  line one  ", "line two", "   line three   "]);
}

#[test]
fn test_read_file_empty() {
    let desc = describe_file("t.txt".to_string(), b"");
    assert!(desc.hashes.is_empty());
}

#[test]
fn test_read_file_single_line() {
    let content = b"single line no newline";
    let desc = describe_file("t.txt".to_string(), content);
    assert_eq!(desc.hashes.len(), 1);
    assert_eq!(content_lines(content), vec!["single line no newline"]);
}

#[test]
fn test_read_file_preserves_filename() {
    let desc = describe_file("/tmp/some/file.rs".to_string(), b"");
    assert_eq!(desc.filename, "/tmp/some/file.rs");
}

#[test]
fn test_read_file_hashes_match_for_same_content() {
    let desc1 = describe_file("one.txt".to_string(), b"same content\n");
    let desc2 = describe_file("two.txt".to_string(), b"same content\n");
    assert_eq!(desc1.hashes, desc2.hashes);
}

#[test]
fn test_is_binary_file() {
    assert!(!is_binary_content(b"Hello, world!\n"));
    assert!(is_binary_content(&[0x00, 0x01, 0x02]));
}

#[test]
fn test_is_binary_file_empty() {
    // Empty file is not binary
    assert!(!is_binary_content(b""));
}

#[test]
fn test_is_binary_file_null_in_middle() {
    assert!(is_binary_content(b"text\x00more text"));
}

#[test]
fn test_read_file_if_text_normal() {
    let result = describe_text_file("t.txt".to_string(), b"some text\n");
    assert!(result.is_some());

    let desc = result.unwrap();
    assert_eq!(desc.hashes.len(), 1);
}

#[test]
fn test_read_file_if_text_binary_returns_none() {
    let result = describe_text_file("t.bin".to_string(), &[0x00, 0x01, 0x02]);
    assert!(result.is_none());
}

#[test]
fn test_read_file_if_text_empty_returns_none() {
    let result = describe_text_file("t.txt".to_string(), b"");
    assert!(result.is_none());
}

#[test]
fn test_read_file_with_tabs() {
    let content = b"\t\tindented with tabs\t\t\n";
    let desc = describe_file("t.txt".to_string(), content);
    // Hash is computed from the trimmed line.
    let expected_hash = hash_line("indented with tabs");
    assert_eq!(desc.hashes[0], expected_hash);
    // Lines keep their tabs.
    assert_eq!(content_lines(content)[0], "\t\tindented with tabs\t\t");
}

#[test]
fn test_read_file_blank_lines() {
    let content = b"line 1\n\nline 3\n";
    let desc = describe_file("t.txt".to_string(), content);
    assert_eq!(desc.hashes.len(), 3);
    assert_eq!(content_lines(content), vec!["line 1", "", "line 3"]);
}

#[test]
fn test_read_file_unicode() {
    let content = "Hello 世界 🌍\n".as_bytes();
    let desc = describe_file("t.txt".to_string(), content);
    assert_eq!(desc.hashes.len(), 1);
    assert_eq!(content_lines(content)[0], "Hello 世界 🌍");
}

#[test]
fn binary_check_looks_only_at_first_8kb() {
    let mut content = vec![b'a'; 8192];
    content.push(0);
    assert!(!is_binary_content(&content));
    content[8191] = 0;
    assert!(is_binary_content(&content));
}

#[test]
fn text_file_keeps_lines_and_name() {
    let desc = describe_text_file("x.rs".to_string(), b"  a\nb  \n").unwrap();
    assert_eq!(desc.filename, "x.rs");
    assert_eq!(desc.lines, vec!["  a", "b  "]);
    assert_eq!(desc.hashes, vec![hash_line("a"), hash_line("b")]);
}

#[test]
fn text_file_with_only_binary_after_8kb_is_text() {
    let mut content = vec![b'x'; 9000];
    content[8500] = 0;
    assert!(describe_text_file("big".to_string(), &content).is_some());
}

#[test]
fn invalid_utf8_is_decoded_lossily() {
    let hashes = hash_content(b"ab\xffcd\n");
    assert_eq!(hashes, vec![hash_line("ab\u{FFFD}cd")]);
    assert_eq!(content_lines(b"\xff"), vec!["\u{FFFD}"]);
}

#[test]
fn crlf_line_endings_are_split() {
    let lines = content_lines(b"one\r\ntwo\r\n");
    assert_eq!(lines, vec!["one", "two"]);
    assert_eq!(hash_content(b"one\r\ntwo"), vec![hash_line("one"), hash_line("two")]);
}

#[test]
fn hash_line_is_xxh3_of_the_bytes() {
    // Known value of xxh3-64 for the empty input (seed 0).
    assert_eq!(hash_line(""), 0x2D06800538D394C2);
    assert_ne!(hash_line("a"), hash_line("b"));
}

#[test]
fn unicode_whitespace_is_trimmed_before_hashing() {
    // U+3000 and U+00A0 are White_Space; U+200B (zero-width space) is not.
    let a = hash_content("\u{3000}\tx = 1;\u{a0} \n".as_bytes());
    let b = hash_content("x = 1;\n".as_bytes());
    assert_eq!(a, b);
    let c = hash_content("\u{200b}x = 1;\n".as_bytes());
    assert_ne!(c, b);
}

#[test]
fn line_endings_are_split_as_documented() {
    assert_eq!(content_lines(b"foo\r\nbar\n\nbaz\r"), vec!["foo", "bar", "", "baz\r"]);
    assert_eq!(content_lines(b"a\n"), vec!["a"]);
    assert_eq!(content_lines(b"\n"), vec![""]);
    assert_eq!(content_lines(b""), Vec::<String>::new());
    assert_eq!(content_lines(b"a\r\r\nb"), vec!["a\r", "b"]);
}
