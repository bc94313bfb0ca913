use samesame::discovery::{deduplicate_paths, directory_glob, discover_files, is_hidden, keep_scanned_path, scan_patterns};
use samesame::error::SameError;

fn strings(v: &[&str]) -> Vec<String> {
    v.iter().map(|s| s.to_string()).collect()
}

#[test]
fn test_is_hidden() {
    assert!(is_hidden(".hidden"));
    assert!(is_hidden("/path/to/.hidden"));
    assert!(!is_hidden("visible"));
    assert!(!is_hidden("/path/to/visible"));
}

#[test]
fn test_is_hidden_dotfile() {
    assert!(is_hidden(".gitignore"));
    assert!(is_hidden("/home/user/.bashrc"));
}

#[test]
fn test_deduplicate_paths_no_duplicates() {
    let paths = strings(&["/a/b.rs", "/a/c.rs", "/a/d.rs"]);
    // These paths do not exist, so each is its own key.
    let result = deduplicate_paths(paths.clone(), paths.clone());
    assert_eq!(result.len(), 3);
}

#[test]
fn test_deduplicate_paths_with_duplicates() {
    let paths = strings(&["test.rs", "test.rs", "test.rs"]);
    let keys = strings(&["/tmp/x/test.rs", "/tmp/x/test.rs", "/tmp/x/test.rs"]);
    let result = deduplicate_paths(paths, keys);
    assert_eq!(result.len(), 1);
}

#[test]
fn test_deduplicate_paths_empty() {
    let paths: Vec<String> = vec![];
    let result = deduplicate_paths(paths, vec![]);
    assert!(result.is_empty());
}

#[test]
fn test_discover_files_no_files_found() {
    let result = discover_files(vec![], vec![]);
    assert!(matches!(result, Err(SameError::NoFilesFound)));
}

#[test]
fn test_discover_files_explicit_nonexistent_skipped() {
    // A nonexistent explicit file is not a candidate, so nothing is left.
    let result = discover_files(vec![], vec![]);
    assert!(matches!(result, Err(SameError::NoFilesFound)));
}

#[test]
fn dedup_keeps_first_of_equal_keys_in_order() {
    let paths = strings(&["./a.rs", "b.rs", "a.rs", "c.rs", "b.rs"]);
    let keys = strings(&["/p/a.rs", "/p/b.rs", "/p/a.rs", "/p/c.rs", "/p/b.rs"]);
    assert_eq!(deduplicate_paths(paths.clone(), keys.clone()), strings(&["./a.rs", "b.rs", "c.rs"]));
    assert_eq!(discover_files(paths, keys).unwrap(), strings(&["./a.rs", "b.rs", "c.rs"]));
}

#[test]
fn directory_glob_trims_trailing_slashes() {
    assert_eq!(directory_glob("/tmp/dir///", "*.rs"), "/tmp/dir/*.rs");
    assert_eq!(directory_glob("src", "**/*.rs"), "src/**/*.rs");
    assert_eq!(directory_glob("/", "*.rs"), "/*.rs");
}

#[test]
fn scan_patterns_follow_the_inputs() {
    assert_eq!(scan_patterns(false, None, "*.rs"), strings(&["*.rs"]));
    assert_eq!(scan_patterns(true, None, "*.rs"), Vec::<String>::new());
    assert_eq!(scan_patterns(true, Some("d/"), "*.rs"), strings(&["d/*.rs"]));
    assert_eq!(scan_patterns(false, Some("d"), "*.py"), strings(&["d/*.py"]));
}

#[test]
fn scanned_paths_keep_only_visible_regular_files() {
    assert!(keep_scanned_path("src/a.rs", true, false));
    assert!(!keep_scanned_path("src/a.rs", false, false));
    assert!(!keep_scanned_path("src/a.rs", true, true));
    assert!(!keep_scanned_path("src/.a.rs", true, false));
}

#[test]
fn hidden_uses_the_final_component() {
    assert!(!is_hidden(".hidden/visible.rs"));
    assert!(!is_hidden("dir/.."));
    assert!(is_hidden("dir/.config/"));
    assert!(!is_hidden(""));
}

#[test]
fn error_messages_name_their_subject() {
    assert_eq!(SameError::NoFilesFound.message(), "No files found to analyze");
    let e = SameError::InvalidGlob { pattern: "[".to_string(), message: "bad".to_string() };
    assert_eq!(e.message(), "Invalid glob pattern '[': bad");
    let e = SameError::FileRead { path: "a.rs".to_string(), message: "gone".to_string() };
    assert_eq!(e.message(), "Failed to read file 'a.rs': gone");
}

#[test]
fn deduplicate_paths_compares_keys_as_paths() {
    // Keys that could not be canonicalized stay as written: "a//b.rs" and
    // "a/b.rs" still name one path, so only the first is kept.
    let paths = strings(&["a//b.rs", "a/b.rs", "c.rs", "./c.rs", "a/./b.rs"]);
    let kept = deduplicate_paths(paths.clone(), paths);
    assert_eq!(kept, strings(&["a//b.rs", "c.rs", "./c.rs"]));
}

#[test]
fn discover_files_compares_keys_as_paths() {
    let paths = strings(&["src//x.rs", "src/x.rs/"]);
    let kept = discover_files(paths.clone(), paths).unwrap();
    assert_eq!(kept, strings(&["src//x.rs"]));
}
