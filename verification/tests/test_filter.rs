use samesame::filter::{filter_groups_by_regex, LinePattern};
use samesame::grouping::DuplicateGroup;

fn group(path: &str, start: usize, end: usize) -> DuplicateGroup {
    DuplicateGroup {
        line_count: end - start,
        locations: vec![(path.to_string(), start, end), ("other.rs".to_string(), start, end)],
        content: None,
    }
}

fn cache() -> Vec<(String, Vec<String>)> {
    vec![
        ("a.rs".to_string(), vec!["fn hello() {".to_string(), "    let x = 1;".to_string(), "}".to_string()]),
        ("b.py".to_string(), vec!["class A:".to_string(), "    pass".to_string()]),
    ]
}

#[test]
fn invalid_regex_is_rejected() {
    assert!(LinePattern::new("[invalid").is_none());
    assert!(LinePattern::new("^fn ").is_some());
}

#[test]
fn regex_filter_keeps_groups_whose_first_line_matches() {
    let p = LinePattern::new("^fn ").unwrap();
    let groups = vec![group("a.rs", 0, 3), group("b.py", 0, 2), group("a.rs", 1, 3)];
    let kept = filter_groups_by_regex(groups, &cache(), &p);
    assert_eq!(kept.len(), 1);
    assert_eq!(kept[0].locations[0], ("a.rs".to_string(), 0, 3));
}

#[test]
fn regex_filter_drops_everything_without_match() {
    let p = LinePattern::new("^class ").unwrap();
    let kept = filter_groups_by_regex(vec![group("a.rs", 0, 3)], &cache(), &p);
    assert!(kept.is_empty());
}

#[test]
fn regex_filter_drops_groups_without_lines() {
    let p = LinePattern::new(".*").unwrap();
    let empty = DuplicateGroup { line_count: 0, locations: vec![], content: None };
    let groups = vec![group("missing.rs", 0, 2), group("a.rs", 5, 7), empty, group("b.py", 1, 2)];
    let kept = filter_groups_by_regex(groups, &cache(), &p);
    assert_eq!(kept.len(), 1);
    assert_eq!(kept[0].locations[0].0, "b.py");
}

#[test]
fn line_pattern_matches_anywhere() {
    let p = LinePattern::new("let").unwrap();
    assert!(p.is_match("    let x = 1;"));
    assert!(!p.is_match("fn main() {"));
}

#[test]
fn regex_filter_finds_lines_by_path_equality() {
    let p = LinePattern::new("^fn ").unwrap();
    let kept = filter_groups_by_regex(vec![group("./x//a.rs", 0, 3)], &vec![(
        "./x/a.rs".to_string(),
        vec!["fn f() {".to_string()],
    )], &p);
    assert_eq!(kept.len(), 1);
}
