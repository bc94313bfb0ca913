use samesame::filter::populate_content;
use samesame::output::{build_json_output, format_text, json_inputs_valid, report_inputs_valid};
use samesame::rolling_hash::DuplicateGroup;

fn make_group(
    line_count: usize,
    locations: Vec<(&str, usize, usize)>,
    content: Option<Vec<&str>>,
) -> DuplicateGroup {
    DuplicateGroup {
        line_count,
        locations: locations.into_iter().map(|(f, s, e)| (f.to_string(), s, e)).collect(),
        content: content.map(|c| c.into_iter().map(String::from).collect()),
    }
}

#[test]
fn test_format_text_no_duplicates() {
    let groups: Vec<DuplicateGroup> = vec![];
    let output = format_text(&groups, false, 2);
    assert!(output.contains("No duplicate code found"));
}

#[test]
fn test_format_text_with_duplicates() {
    let groups = vec![make_group(3, vec![("src/file1.rs", 0, 3), ("src/file2.rs", 0, 3)], None)];
    let output = format_text(&groups, false, 2);
    assert!(output.contains("Duplicate Code Found"));
    assert!(output.contains("file1.rs"));
    assert!(output.contains("file2.rs"));
    assert!(output.contains("3 lines"));
    assert!(output.contains("Summary:"));
}

#[test]
fn test_format_text_verbose() {
    let groups = vec![make_group(
        3,
        vec![("src/file1.rs", 0, 3), ("src/file2.rs", 0, 3)],
        Some(vec!["fn main() {", "    println!(\"Hello\");", "}"]),
    )];
    let output = format_text(&groups, true, 2);
    assert!(output.contains("fn main()"));
    assert!(output.contains("println!"));
}

#[test]
fn test_format_text_below_threshold() {
    // No groups because threshold filtered them out
    let groups: Vec<DuplicateGroup> = vec![];
    let output = format_text(&groups, false, 2);
    assert!(output.contains("No duplicate code found"));
}

#[test]
fn test_format_json_no_duplicates() {
    let groups: Vec<DuplicateGroup> = vec![];
    let output = build_json_output(&groups, false, 2, "1.0.0");
    assert_eq!(output.summary.duplicate_groups, 0);
    assert!(output.duplicates.is_empty());
}

#[test]
fn test_format_json_with_duplicates() {
    let groups = vec![make_group(3, vec![("src/file1.rs", 0, 3), ("src/file2.rs", 0, 3)], None)];
    let output = build_json_output(&groups, false, 2, "1.0.0");
    assert_eq!(output.summary.duplicate_groups, 1);
    assert_eq!(output.duplicates[0].lines, 3);
    assert_eq!(output.duplicates[0].locations[0].file, "src/file1.rs");
    assert_eq!(output.duplicates[0].locations[1].file, "src/file2.rs");
}

#[test]
fn test_format_json_verbose_includes_content() {
    let groups = vec![make_group(
        3,
        vec![("src/file1.rs", 0, 3), ("src/file2.rs", 0, 3)],
        Some(vec!["fn main() {", "    println!(\"Hello\");", "}"]),
    )];
    let output = build_json_output(&groups, true, 2, "1.0.0");
    let content = output.duplicates[0].content.as_ref().unwrap();
    assert!(content[0].contains("fn main()"));
}

#[test]
fn test_format_json_not_verbose_no_content() {
    let groups = vec![make_group(
        3,
        vec![("src/file1.rs", 0, 3), ("src/file2.rs", 0, 3)],
        Some(vec!["fn main() {", "    println!(\"Hello\");", "}"]),
    )];
    // Even though content is in the group, verbose=false should suppress it
    let output = build_json_output(&groups, false, 2, "1.0.0");
    assert!(output.duplicates[0].content.is_none());
}

#[test]
fn test_format_json_structure() {
    let groups = vec![make_group(3, vec![("src/file1.rs", 0, 3), ("src/file2.rs", 0, 3)], None)];
    let output = build_json_output(&groups, false, 2, "1.2.3");
    assert_eq!(output.version, "1.2.3");
    assert_eq!(output.summary.files_analyzed, 2);
    assert_eq!(output.summary.duplicate_groups, 1);
    assert_eq!(output.duplicates.len(), 1);
    assert_eq!(output.duplicates[0].locations.len(), 2);
    assert_eq!(output.duplicates[0].lines, 3);
}

#[test]
fn test_format_text_multiple_results_grouped() {
    let groups = vec![make_group(3, vec![("a.rs", 0, 3), ("b.rs", 0, 3), ("c.rs", 0, 3)], None)];
    let output = format_text(&groups, false, 3);
    assert!(output.contains("a.rs"));
    assert!(output.contains("b.rs"));
    assert!(output.contains("c.rs"));
    assert!(output.contains("1 duplicate groups"));
    assert!(output.contains("3 lines duplicated across 3 files"));
}

#[test]
fn test_format_json_multiple_matches_same_pair() {
    let groups = vec![
        make_group(2, vec![("src/file1.rs", 0, 2), ("src/file2.rs", 0, 2)], None),
        make_group(2, vec![("src/file1.rs", 3, 5), ("src/file2.rs", 3, 5)], None),
    ];
    let output = build_json_output(&groups, false, 2, "1.0.0");
    assert_eq!(output.summary.duplicate_groups, 2);
    assert_eq!(output.duplicates.len(), 2);
    assert_eq!(output.summary.total_duplicate_lines, 4);
}

#[test]
fn test_format_text_regex_filtered_result() {
    // After regex filtering, only the matching group remains
    let groups = vec![make_group(3, vec![("src/file1.py", 0, 3), ("src/file2.py", 0, 3)], None)];
    let output = format_text(&groups, false, 2);
    assert!(output.contains("Duplicate Code Found"));
    assert!(output.contains("3 lines"));
    assert!(output.contains("1 duplicate groups"));
}

#[test]
fn test_format_text_regex_all_filtered() {
    // After regex filtering, no groups remain
    let groups: Vec<DuplicateGroup> = vec![];
    let output = format_text(&groups, false, 2);
    assert!(output.contains("No duplicate code found"));
}

#[test]
fn test_format_json_regex_filtered_result() {
    let groups = vec![make_group(3, vec![("src/file1.py", 4, 7), ("src/file2.py", 4, 7)], None)];
    let output = build_json_output(&groups, false, 2, "1.0.0");
    assert_eq!(output.summary.duplicate_groups, 1);
    let locations = &output.duplicates[0].locations;
    assert_eq!(locations.len(), 2);
    assert_eq!(locations[0].start, 5); // 1-based
}

#[test]
fn test_format_json_regex_all_filtered() {
    let groups: Vec<DuplicateGroup> = vec![];
    let output = build_json_output(&groups, false, 2, "1.0.0");
    assert_eq!(output.summary.duplicate_groups, 0);
    assert!(output.duplicates.is_empty());
}

#[test]
fn test_format_text_regex_verbose_shows_content() {
    let groups = vec![make_group(
        3,
        vec![("src/file1.py", 0, 3), ("src/file2.py", 0, 3)],
        Some(vec!["def hello():", "    print(\"Hello\")", "    return None"]),
    )];
    let output = format_text(&groups, true, 2);
    assert!(output.contains("def hello():"));
    assert!(output.contains("print(\"Hello\")"));
}

#[test]
fn format_text_exact_report() {
    let groups = vec![
        make_group(2, vec![("a.rs", 9, 11), ("b.rs", 0, 2)], Some(vec!["x = 1", "y = 2"])),
        make_group(1, vec![("c.rs", 4, 5)], None),
    ];
    let output = format_text(&groups[..1], true, 12);
    assert_eq!(
        output,
        "=== Duplicate Code Found ===\n\n\
         2 lines duplicated across 2 files:\n  a.rs  lines 10-11\n  b.rs  lines 1-2\n\n\
         \x20   10 | x = 1\n    11 | y = 2\n\n---\n\n\
         Summary: 12 files analyzed, 1 duplicate groups (2 lines)\n"
    );
    let output = format_text(&groups, false, 0);
    assert_eq!(
        output,
        "=== Duplicate Code Found ===\n\n\
         2 lines duplicated across 2 files:\n  a.rs  lines 10-11\n  b.rs  lines 1-2\n\n---\n\n\
         1 lines duplicated across 1 files:\n  c.rs  lines 5-5\n\n---\n\n\
         Summary: 0 files analyzed, 2 duplicate groups (3 lines)\n"
    );
    assert_eq!(format_text(&[], true, 1), "No duplicate code found.\n");
}

#[test]
fn readme_summary_line() {
    let groups = vec![
        make_group(9, vec![("src/rolling_hash.rs", 196, 205), ("src/rolling_hash.rs", 468, 477)], None),
        make_group(9, vec![("src/rolling_hash.rs", 286, 295), ("src/rolling_hash.rs", 301, 310)], None),
        make_group(8, vec![("src/file.rs", 47, 55), ("src/file.rs", 83, 91)], None),
    ];
    let output = format_text(&groups, false, 9);
    assert!(output.contains("  src/rolling_hash.rs  lines 197-205\n"));
    assert!(output.ends_with("---\n\nSummary: 9 files analyzed, 3 duplicate groups (26 lines)\n"));
}

#[test]
fn verbose_content_is_numbered_from_the_first_location() {
    let groups = vec![make_group(2, vec![("a.rs", 196, 198), ("b.rs", 0, 2)], Some(vec!["one", "two"]))];
    let output = format_text(&groups, true, 2);
    assert!(output.contains("\n   197 | one\n   198 | two\n\n---"));
    // Without content nothing is shown, even in verbose mode.
    let bare = vec![make_group(2, vec![("a.rs", 196, 198), ("b.rs", 0, 2)], None)];
    assert!(format_text(&bare, true, 2).contains("lines 1-2\n\n---"));
}

#[test]
fn json_content_follows_the_group() {
    let groups = vec![make_group(2, vec![("a.rs", 1, 3), ("b.rs", 7, 9)], Some(vec!["one", "two"]))];
    let output = build_json_output(&groups, true, 2, "v");
    assert_eq!(output.duplicates[0].content, Some(vec!["one".to_string(), "two".to_string()]));
    assert_eq!(output.duplicates[0].locations[1].start, 8);
    assert_eq!(output.duplicates[0].locations[1].end, 9);
    assert_eq!(output.summary.files_analyzed, 2);
}

#[test]
fn populate_content_reads_the_first_location() {
    let cache = vec![
        ("b.rs".to_string(), vec!["b0".to_string(), "b1".to_string(), "b2".to_string()]),
        ("a.rs".to_string(), vec!["a0".to_string(), "a1".to_string(), "a2".to_string()]),
    ];
    let groups = vec![
        make_group(2, vec![("a.rs", 1, 3), ("b.rs", 0, 2)], None),
        make_group(2, vec![("b.rs", 2, 4), ("a.rs", 0, 2)], None),
        make_group(1, vec![("missing.rs", 0, 1)], Some(vec!["kept"])),
    ];
    let out = populate_content(groups, &cache);
    assert_eq!(out[0].content, Some(vec!["a1".to_string(), "a2".to_string()]));
    // The first file holds too few lines: the content is left as it was.
    assert_eq!(out[1].content, None);
    assert_eq!(out[2].content, Some(vec!["kept".to_string()]));
    assert_eq!(out[0].locations, vec![("a.rs".to_string(), 1, 3), ("b.rs".to_string(), 0, 2)]);
}

#[test]
fn populate_content_compares_paths_as_paths() {
    let cache = vec![("src//a.rs".to_string(), vec!["x".to_string(), "y".to_string()])];
    let groups = vec![make_group(1, vec![("src/a.rs", 1, 2)], None)];
    let out = populate_content(groups, &cache);
    assert_eq!(out[0].content, Some(vec!["y".to_string()]));
}

#[test]
fn report_input_checks() {
    let ok = vec![make_group(2, vec![("a.rs", 1, 3)], Some(vec!["one", "two"]))];
    assert!(report_inputs_valid(&ok, true));
    assert!(json_inputs_valid(&ok));
    let no_location = vec![make_group(1, vec![], Some(vec!["one"]))];
    assert!(!report_inputs_valid(&no_location, true));
    assert!(report_inputs_valid(&no_location, false));
    let too_many = vec![make_group(usize::MAX, vec![], None), make_group(1, vec![], None)];
    assert!(!report_inputs_valid(&too_many, false));
    assert!(!json_inputs_valid(&too_many));
}
