use samesame::rolling_hash::{compute_rolling_hashes, FileRegistry};

#[test]
fn test_file_registry_assigns_sequential_numbers() {
    let mut reg = FileRegistry::new();
    assert_eq!(reg.register("a.rs".to_string()), 0);
    assert_eq!(reg.register("b.rs".to_string()), 1);
    assert_eq!(reg.register("c.rs".to_string()), 2);
}

#[test]
fn test_file_registry_get_path() {
    let mut reg = FileRegistry::new();
    reg.register("src/main.rs".to_string());
    reg.register("src/lib.rs".to_string());
    assert_eq!(reg.get_path(0), "src/main.rs");
    assert_eq!(reg.get_path(1), "src/lib.rs");
}

#[test]
fn test_file_registry_dedup() {
    let mut reg = FileRegistry::new();
    let first = reg.register("a.rs".to_string());
    let second = reg.register("a.rs".to_string());
    assert_eq!(first, second);
    assert_eq!(reg.len(), 1);
}

#[test]
fn test_file_registry_len() {
    let mut reg = FileRegistry::new();
    assert_eq!(reg.len(), 0);
    reg.register("a.rs".to_string());
    assert_eq!(reg.len(), 1);
    reg.register("b.rs".to_string());
    assert_eq!(reg.len(), 2);
    reg.register("a.rs".to_string()); // duplicate
    assert_eq!(reg.len(), 2);
}

#[test]
fn test_rolling_hash_single_block() {
    let hashes: Vec<u64> = vec![1, 2, 3, 4, 5];
    let blocks = compute_rolling_hashes(&hashes, 0, 5);
    assert_eq!(blocks.len(), 1);
    assert_eq!(blocks[0].hash, 1 ^ 2 ^ 3 ^ 4 ^ 5);
    assert_eq!(blocks[0].file_num, 0);
    assert_eq!(blocks[0].start, 0);
    assert_eq!(blocks[0].end, 5);
}

#[test]
fn test_rolling_hash_multiple_blocks() {
    let hashes: Vec<u64> = vec![10, 20, 30, 40, 50, 60, 70, 80];
    let blocks = compute_rolling_hashes(&hashes, 0, 5);
    assert_eq!(blocks.len(), 4); // 8 - 5 + 1 = 4
    assert_eq!(blocks[0].hash, 10 ^ 20 ^ 30 ^ 40 ^ 50);
    assert_eq!(blocks[1].hash, 20 ^ 30 ^ 40 ^ 50 ^ 60);
    assert_eq!(blocks[2].hash, 30 ^ 40 ^ 50 ^ 60 ^ 70);
    assert_eq!(blocks[3].hash, 40 ^ 50 ^ 60 ^ 70 ^ 80);
    assert_eq!(blocks[0].start, 0);
    assert_eq!(blocks[1].start, 1);
    assert_eq!(blocks[2].start, 2);
    assert_eq!(blocks[3].start, 3);
}

#[test]
fn test_rolling_hash_short_file() {
    let hashes: Vec<u64> = vec![1, 2, 3];
    let blocks = compute_rolling_hashes(&hashes, 0, 5);
    assert!(blocks.is_empty());
}

#[test]
fn test_rolling_hash_sliding_correctness() {
    let hashes: Vec<u64> = vec![0xAA, 0xBB, 0xCC, 0xDD, 0xEE, 0xFF, 0x11];
    let min_match: usize = 5;
    let blocks = compute_rolling_hashes(&hashes, 0, min_match);

    // Verify each block's hash equals manual XOR of the window
    for block in &blocks {
        let expected: u64 = hashes[block.start..block.end]
            .iter()
            .fold(0u64, |acc, &h| acc ^ h);
        assert_eq!(block.hash, expected, "Block at start={} has wrong hash", block.start);
    }
}

#[test]
fn test_rolling_hash_empty_file() {
    let hashes: Vec<u64> = vec![];
    let blocks = compute_rolling_hashes(&hashes, 0, 5);
    assert!(blocks.is_empty());
}

#[test]
fn rolling_hash_zero_window_gives_no_blocks() {
    let hashes: Vec<u64> = vec![1, 2, 3];
    assert!(compute_rolling_hashes(&hashes, 4, 0).is_empty());
}

#[test]
fn rolling_hash_blocks_carry_file_and_range() {
    let hashes: Vec<u64> = vec![7, 8, 9, 10];
    let blocks = compute_rolling_hashes(&hashes, 3, 2);
    assert_eq!(blocks.len(), 3);
    for (i, b) in blocks.iter().enumerate() {
        assert_eq!(b.file_num, 3);
        assert_eq!(b.start, i);
        assert_eq!(b.end, i + 2);
        assert_eq!(b.hash, hashes[i] ^ hashes[i + 1]);
    }
}

#[test]
fn rolling_hash_ignores_line_order_within_window() {
    // XOR is commutative: a window and its reordering share a fingerprint.
    let a = compute_rolling_hashes(&[1, 2, 3], 0, 3);
    let b = compute_rolling_hashes(&[3, 1, 2], 0, 3);
    assert_eq!(a[0].hash, b[0].hash);
}

#[test]
fn registry_get_path_returns_registered_path() {
    let mut reg = FileRegistry::new();
    let n = reg.register("x/y.rs".to_string());
    let m = reg.register("z.rs".to_string());
    let again = reg.register("x/y.rs".to_string());
    assert_eq!(again, n);
    assert_eq!(reg.get_path(n), "x/y.rs");
    assert_eq!(reg.get_path(m), "z.rs");
}

#[test]
fn registry_dedups_equal_paths() {
    let mut reg = FileRegistry::new();
    assert_eq!(reg.register("a/b.rs".to_string()), 0);
    assert_eq!(reg.register("a//b.rs".to_string()), 0);
    assert_eq!(reg.register("a/./b.rs".to_string()), 0);
    assert_eq!(reg.register("a/b.rs/".to_string()), 0);
    assert_eq!(reg.register("a/c.rs".to_string()), 1);
    assert_eq!(reg.len(), 2);
    assert_eq!(reg.get_path(0), "a/b.rs");
}
