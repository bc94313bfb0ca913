use samesame::detection::{find_duplicates, find_matches, has_duplicates, loaded_files};
use samesame::error::SameError;
use samesame::file::describe_file;
use samesame::types::{FileDescription, LineRange};

fn file(name: &str, text: &str) -> FileDescription {
    describe_file(name.to_string(), text.as_bytes())
}

fn numbered(prefix: &str, n: usize) -> String {
    (0..n).map(|i| format!("{prefix} line {i}\n")).collect()
}

fn runs_of(files: &[FileDescription], min_match: usize) -> Vec<(String, String, usize, usize, usize, usize)> {
    find_matches(files, min_match)
        .iter()
        .flat_map(|r| {
            r.runs.iter().map(move |run| match run {
                LineRange::Same { r1, r2 } => {
                    (r.f1.filename.clone(), r.f2.filename.clone(), r1.start, r1.end, r2.start, r2.end)
                }
                LineRange::Diff { .. } => panic!("only Same runs are reported"),
            })
        })
        .collect()
}

#[test]
fn shared_block_is_one_region() {
    let shared = numbered("shared", 8);
    let a = file("a.rs", &format!("{}{}{}", numbered("a", 3), shared, numbered("a2", 2)));
    let b = file("b.rs", &format!("{}{}", numbered("b", 5), shared));
    let files = vec![a, b];
    assert_eq!(runs_of(&files, 5), vec![("a.rs".to_string(), "b.rs".to_string(), 3, 11, 5, 13)]);
    let (_registry, groups) = find_duplicates(&files, 5);
    assert_eq!(find_matches(&files, 5).len(), 1);
    assert_eq!(groups.len(), 1);
    assert_eq!(groups[0].line_count, 8);
    assert_eq!(groups[0].locations, vec![("a.rs".to_string(), 3, 11), ("b.rs".to_string(), 5, 13)]);
}

#[test]
fn forty_line_duplicate_reports_once() {
    let shared = numbered("s", 40);
    let files = vec![file("a.rs", &shared), file("b.rs", &shared)];
    let (_r, groups) = find_duplicates(&files, 8);
    assert_eq!(groups.len(), 1);
    assert_eq!(groups[0].line_count, 40);
}

#[test]
fn indentation_does_not_break_a_match() {
    let a = file("a.rs", "fn f() {\n    let x = 1;\n    let y = 2;\n}\n");
    let b = file("b.rs", "fn f() {\nlet x = 1;\n\tlet y = 2;\n}\n");
    let (_r, groups) = find_duplicates(&[a, b], 4);
    assert_eq!(groups.len(), 1);
    assert_eq!(groups[0].line_count, 4);
}

#[test]
fn no_shared_content_no_groups() {
    let files = vec![file("a.rs", &numbered("a", 10)), file("b.rs", &numbered("b", 10))];
    let (_r, groups) = find_duplicates(&files, 3);
    assert!(find_matches(&files, 3).is_empty());
    assert!(groups.is_empty());
}

#[test]
fn shared_content_below_threshold_is_not_reported() {
    let shared = numbered("s", 3);
    let files = vec![
        file("a.rs", &format!("{}{}", numbered("a", 4), shared)),
        file("b.rs", &format!("{}{}", shared, numbered("b", 4))),
    ];
    let (_r, groups) = find_duplicates(&files, 4);
    assert!(find_matches(&files, 4).is_empty());
    assert!(groups.is_empty());
}

#[test]
fn three_files_share_one_group() {
    let shared = numbered("s", 6);
    let files = vec![
        file("a.rs", &format!("{}{}", numbered("a", 1), shared)),
        file("b.rs", &format!("{}{}", numbered("b", 2), shared)),
        file("c.rs", &format!("{}{}", numbered("c", 3), shared)),
    ];
    let (_r, groups) = find_duplicates(&files, 5);
    assert_eq!(find_matches(&files, 5).len(), 3);
    assert_eq!(groups.len(), 1);
    assert_eq!(
        groups[0].locations,
        vec![("a.rs".to_string(), 1, 7), ("b.rs".to_string(), 2, 8), ("c.rs".to_string(), 3, 9)]
    );
}

#[test]
fn duplication_within_one_file_is_found() {
    let block = numbered("blk", 5);
    let f = file("a.rs", &format!("{}{}{}", block, numbered("mid", 3), block));
    assert_eq!(runs_of(&[f], 5), vec![("a.rs".to_string(), "a.rs".to_string(), 0, 5, 8, 13)]);
}

#[test]
fn gap_splits_regions() {
    let x = numbered("x", 5);
    let y = numbered("y", 5);
    let a = file("a.rs", &format!("{x}gap a\n{y}"));
    let b = file("b.rs", &format!("{x}gap b\n{y}"));
    let (_r, groups) = find_duplicates(&[a, b], 5);
    assert_eq!(groups.len(), 2);
    assert_eq!(groups[0].locations[0], ("a.rs".to_string(), 0, 5));
    assert_eq!(groups[1].locations[0], ("a.rs".to_string(), 6, 11));
}

#[test]
fn registry_numbers_files_in_order() {
    let files = vec![file("b.rs", "x\n"), file("a.rs", "y\n"), file("b.rs", "z\n")];
    let (registry, _groups) = find_duplicates(&files, 1);
    assert_eq!(registry.len(), 2);
    assert_eq!(registry.get_path(0), "b.rs");
    assert_eq!(registry.get_path(1), "a.rs");
}

#[test]
fn registry_compares_paths_as_paths() {
    let files = vec![file("src//a.rs", "x\n"), file("src/a.rs", "y\n"), file("b.rs", "z\n")];
    let (registry, _groups) = find_duplicates(&files, 1);
    assert_eq!(registry.len(), 2);
    assert_eq!(registry.get_path(0), "src//a.rs");
    assert_eq!(registry.get_path(1), "b.rs");
}

#[test]
fn no_loaded_files_is_an_error() {
    assert!(matches!(loaded_files(vec![]), Err(SameError::NoFilesFound)));
    let files = vec![file("a.rs", "x\n")];
    assert_eq!(loaded_files(files).unwrap().len(), 1);
}

#[test]
fn duplicates_found_decides_the_outcome() {
    let shared = numbered("s", 6);
    let files = vec![file("a.rs", &shared), file("b.rs", &shared)];
    let (_r, groups) = find_duplicates(&files, 5);
    assert!(has_duplicates(&groups));
    assert!(!has_duplicates(&[]));
}
