use samesame::grouping::group_duplicates;
use samesame::types::{ComparisonResult, FileDescription, LineRange, Range};

fn make_file(name: &str, n_lines: usize) -> FileDescription {
    FileDescription {
        filename: name.to_string(),
        hashes: vec![0; n_lines],
        lines: (0..n_lines).map(|i| format!("line {i}")).collect(),
    }
}

fn same(a: (usize, usize), b: (usize, usize)) -> LineRange {
    LineRange::Same { r1: Range::new(a.0, a.1), r2: Range::new(b.0, b.1) }
}

#[test]
fn test_two_files_one_match() {
    let f1 = make_file("a.rs", 10);
    let f2 = make_file("b.rs", 10);
    let results = vec![ComparisonResult {
        f1: &f1,
        f2: &f2,
        runs: vec![LineRange::Same {
            r1: Range::new(0, 5),
            r2: Range::new(0, 5),
        }],
    }];

    let groups = group_duplicates(&results, 3);
    assert_eq!(groups.len(), 1);
    assert_eq!(groups[0].line_count, 5);
    assert_eq!(groups[0].locations.len(), 2);
}

#[test]
fn test_three_files_same_region_one_group() {
    let f1 = make_file("a.rs", 10);
    let f2 = make_file("b.rs", 10);
    let f3 = make_file("c.rs", 10);

    let results = vec![
        ComparisonResult {
            f1: &f1,
            f2: &f2,
            runs: vec![LineRange::Same {
                r1: Range::new(0, 5),
                r2: Range::new(0, 5),
            }],
        },
        ComparisonResult {
            f1: &f1,
            f2: &f3,
            runs: vec![LineRange::Same {
                r1: Range::new(0, 5),
                r2: Range::new(0, 5),
            }],
        },
        ComparisonResult {
            f1: &f2,
            f2: &f3,
            runs: vec![LineRange::Same {
                r1: Range::new(0, 5),
                r2: Range::new(0, 5),
            }],
        },
    ];

    let groups = group_duplicates(&results, 3);
    assert_eq!(groups.len(), 1);
    assert_eq!(groups[0].locations.len(), 3);
    assert_eq!(groups[0].line_count, 5);
}

#[test]
fn test_two_independent_groups() {
    let f1 = make_file("a.rs", 20);
    let f2 = make_file("b.rs", 20);

    let results = vec![ComparisonResult {
        f1: &f1,
        f2: &f2,
        runs: vec![
            LineRange::Same {
                r1: Range::new(0, 5),
                r2: Range::new(0, 5),
            },
            LineRange::Diff {
                r1: Range::new(5, 10),
                r2: Range::new(5, 10),
            },
            LineRange::Same {
                r1: Range::new(10, 15),
                r2: Range::new(10, 15),
            },
        ],
    }];

    let groups = group_duplicates(&results, 3);
    assert_eq!(groups.len(), 2);
}

#[test]
fn test_no_matches() {
    let f1 = make_file("a.rs", 10);
    let f2 = make_file("b.rs", 10);
    let results = vec![ComparisonResult {
        f1: &f1,
        f2: &f2,
        runs: vec![LineRange::Diff {
            r1: Range::new(0, 10),
            r2: Range::new(0, 10),
        }],
    }];

    let groups = group_duplicates(&results, 3);
    assert!(groups.is_empty());
}

#[test]
fn test_below_threshold() {
    let f1 = make_file("a.rs", 10);
    let f2 = make_file("b.rs", 10);
    let results = vec![ComparisonResult {
        f1: &f1,
        f2: &f2,
        runs: vec![LineRange::Same {
            r1: Range::new(0, 3),
            r2: Range::new(0, 3),
        }],
    }];

    let groups = group_duplicates(&results, 5);
    assert!(groups.is_empty());
}

#[test]
fn chained_pairs_join_into_one_group_with_sorted_locations() {
    // c-b and b-a share regions: the union joins all three, listed in path order.
    let a = make_file("a.rs", 10);
    let b = make_file("b.rs", 10);
    let c = make_file("c.rs", 10);
    let results = vec![
        ComparisonResult { f1: &c, f2: &b, runs: vec![same((2, 6), (1, 5))] },
        ComparisonResult { f1: &b, f2: &a, runs: vec![same((1, 5), (0, 4))] },
    ];
    let groups = group_duplicates(&results, 4);
    assert_eq!(groups.len(), 1);
    assert_eq!(
        groups[0].locations,
        vec![
            ("a.rs".to_string(), 0, 4),
            ("b.rs".to_string(), 1, 5),
            ("c.rs".to_string(), 2, 6)
        ]
    );
    // The first key seen is c.rs 2..6; content is only read back later.
    assert_eq!(groups[0].line_count, 4);
    assert_eq!(groups[0].content, None);
}

#[test]
fn groups_sorted_by_line_count_then_locations() {
    let a = make_file("a.rs", 40);
    let b = make_file("b.rs", 40);
    let results = vec![ComparisonResult {
        f1: &a,
        f2: &b,
        runs: vec![same((20, 24), (20, 24)), same((0, 8), (0, 8)), same((10, 14), (12, 16))],
    }];
    let groups = group_duplicates(&results, 3);
    assert_eq!(groups.len(), 3);
    assert_eq!(groups[0].line_count, 8);
    assert_eq!(groups[0].locations[0], ("a.rs".to_string(), 0, 8));
    // Equal line counts: ordered by their first location.
    assert_eq!(groups[1].locations[0], ("a.rs".to_string(), 10, 14));
    assert_eq!(groups[2].locations[0], ("a.rs".to_string(), 20, 24));
}

#[test]
fn locations_follow_path_component_order() {
    // Path order compares components: "a/b.rs" sorts before "a.b.rs",
    // although '/' is above '.' in plain string order.
    let x = make_file("a.b.rs", 10);
    let y = make_file("a/b.rs", 10);
    let results = vec![ComparisonResult { f1: &x, f2: &y, runs: vec![same((0, 5), (0, 5))] }];
    let groups = group_duplicates(&results, 5);
    assert_eq!(groups.len(), 1);
    assert_eq!(groups[0].locations[0].0, "a/b.rs");
    assert_eq!(groups[0].locations[1].0, "a.b.rs");
}

#[test]
fn each_region_reported_once() {
    let a = make_file("a.rs", 30);
    let b = make_file("b.rs", 30);
    let c = make_file("c.rs", 30);
    let results = vec![
        ComparisonResult { f1: &a, f2: &b, runs: vec![same((0, 5), (3, 8)), same((10, 16), (10, 16))] },
        ComparisonResult { f1: &a, f2: &c, runs: vec![same((0, 5), (7, 12))] },
        ComparisonResult { f1: &b, f2: &c, runs: vec![same((20, 25), (20, 25))] },
    ];
    let groups = group_duplicates(&results, 5);
    assert_eq!(groups.len(), 3);
    let mut all: Vec<(String, usize, usize)> = groups.iter().flat_map(|g| g.locations.clone()).collect();
    let total = all.len();
    all.sort();
    all.dedup();
    assert_eq!(all.len(), total);
    assert_eq!(total, 7);
    assert_eq!(groups[0].line_count, 6);
    assert_eq!(groups[1].locations.len(), 3);
}

#[test]
fn paths_equal_as_paths_are_one_region() {
    // "src//x.rs" and "src/x.rs" name one path: their regions are one key,
    // kept as first seen, and the three files form one group.
    let a = make_file("src//x.rs", 10);
    let b = make_file("src/x.rs", 10);
    let c = make_file("y.rs", 10);
    let results = vec![
        ComparisonResult { f1: &a, f2: &c, runs: vec![same((0, 5), (2, 7))] },
        ComparisonResult { f1: &b, f2: &c, runs: vec![same((0, 5), (2, 7))] },
    ];
    let groups = group_duplicates(&results, 5);
    assert_eq!(groups.len(), 1);
    assert_eq!(
        groups[0].locations,
        vec![("src//x.rs".to_string(), 0, 5), ("y.rs".to_string(), 2, 7)]
    );
}

#[test]
fn same_path_different_lines_sorted_by_start() {
    // "d/./a.rs" and "d/a.rs" are one path: the regions are ordered by line.
    let a = make_file("d/./a.rs", 30);
    let b = make_file("d/a.rs", 30);
    let results = vec![ComparisonResult { f1: &a, f2: &b, runs: vec![same((10, 15), (0, 5))] }];
    let groups = group_duplicates(&results, 5);
    assert_eq!(groups.len(), 1);
    assert_eq!(groups[0].locations, vec![("d/a.rs".to_string(), 0, 5), ("d/./a.rs".to_string(), 10, 15)]);
}

#[test]
fn groups_of_equal_length_ordered_by_first_location() {
    let a = make_file("a.rs", 40);
    let b = make_file("b.rs", 40);
    let c = make_file("c.rs", 40);
    let results = vec![
        ComparisonResult { f1: &c, f2: &b, runs: vec![same((0, 4), (10, 14))] },
        ComparisonResult { f1: &b, f2: &a, runs: vec![same((20, 24), (30, 34))] },
        ComparisonResult { f1: &a, f2: &c, runs: vec![same((5, 9), (25, 29))] },
    ];
    let groups = group_duplicates(&results, 4);
    assert_eq!(groups.len(), 3);
    assert_eq!(groups[0].locations[0], ("a.rs".to_string(), 5, 9));
    assert_eq!(groups[1].locations[0], ("a.rs".to_string(), 30, 34));
    assert_eq!(groups[2].locations[0], ("b.rs".to_string(), 10, 14));
}
