use compare_it::matching::{
    extensions_compatible, find_exact_hash_matches, find_similarity_matches, generate_candidates,
    passes_blocking_rules,
};
use compare_it::exclude::{filter_paths, glob_match};
use compare_it::types::{CompareConfig, FileEntry, FileType, PairingStrategy};

fn make_file_entry(path: &str, hash: &str, size: u64, ext: &str, file_type: FileType) -> FileEntry {
    FileEntry {
        path: path.to_string(),
        relative_path: path.to_string(),
        size,
        file_type,
        extension: ext.to_string(),
        content_hash: hash.to_string(),
        simhash: Some(0),
        schema_signature: None,
        line_count: 10,
        columns: None,
    }
}

fn score(r: compare_it::types::Ratio) -> f64 {
    r.num as f64 / r.den as f64
}

#[test]
fn test_extensions_compatible() {
    assert!(extensions_compatible("csv", "csv"));
    assert!(extensions_compatible("csv", "tsv"));
    assert!(!extensions_compatible("csv", "py"));
    assert!(extensions_compatible("rs", "py"));
}

#[test]
fn test_find_exact_hash_matches_single() {
    let files1 = vec![make_file_entry("a.txt", "hash1", 100, "txt", FileType::Text)];
    let files2 = vec![make_file_entry("b.txt", "hash1", 100, "txt", FileType::Text)];

    let matches = find_exact_hash_matches(&files1, &files2);

    assert_eq!(matches.len(), 1);
    assert!(matches[0].exact_hash_match);
    assert_eq!(score(matches[0].estimated_similarity), 1.0);
}

#[test]
fn test_find_exact_hash_matches_no_match() {
    let files1 = vec![make_file_entry("a.txt", "hash1", 100, "txt", FileType::Text)];
    let files2 = vec![make_file_entry("b.txt", "hash2", 100, "txt", FileType::Text)];

    let matches = find_exact_hash_matches(&files1, &files2);

    assert!(matches.is_empty());
}

#[test]
fn test_find_exact_hash_matches_multiple() {
    let files1 = vec![
        make_file_entry("a.txt", "hash1", 100, "txt", FileType::Text),
        make_file_entry("b.txt", "hash2", 200, "txt", FileType::Text),
    ];
    let files2 = vec![
        make_file_entry("c.txt", "hash2", 200, "txt", FileType::Text),
        make_file_entry("d.txt", "hash1", 100, "txt", FileType::Text),
    ];

    let matches = find_exact_hash_matches(&files1, &files2);

    assert_eq!(matches.len(), 2);
}

#[test]
fn test_passes_blocking_rules_same_ext() {
    let f1 = make_file_entry("a.txt", "h1", 100, "txt", FileType::Text);
    let f2 = make_file_entry("b.txt", "h2", 100, "txt", FileType::Text);

    assert!(passes_blocking_rules(&f1, &f2));
}

#[test]
fn test_passes_blocking_rules_size_mismatch() {
    let f1 = make_file_entry("a.txt", "h1", 100, "txt", FileType::Text);
    let f2 = make_file_entry("b.txt", "h2", 10000, "txt", FileType::Text);

    assert!(!passes_blocking_rules(&f1, &f2));
}

#[test]
fn test_passes_blocking_rules_binary_vs_text() {
    let f1 = make_file_entry("a.bin", "h1", 100, "bin", FileType::Binary);
    let f2 = make_file_entry("b.txt", "h2", 100, "txt", FileType::Text);

    assert!(!passes_blocking_rules(&f1, &f2));
}

#[test]
fn test_find_similarity_matches_top_k() {
    let f1 = make_file_entry("a.txt", "h1", 100, "txt", FileType::Text);
    let f2 = make_file_entry("b.txt", "h2", 100, "txt", FileType::Text);
    let f3 = make_file_entry("c.txt", "h3", 100, "txt", FileType::Text);
    let f4 = make_file_entry("d.txt", "h4", 100, "txt", FileType::Text);

    let files1: Vec<FileEntry> = vec![f1];
    let files2: Vec<FileEntry> = vec![f2, f3, f4];

    let matches = find_similarity_matches(&files1, &files2, 2);

    assert_eq!(matches.len(), 2);
}

#[test]
fn all_vs_all_pairs_same_content_under_different_names() {
    let mut a = make_file_entry("left/report.txt", "abcdef0123456789ff", 42, "txt", FileType::Text);
    a.relative_path = "report.txt".to_string();
    let mut b = make_file_entry("right/renamed.txt", "abcdef0123456789ff", 42, "txt", FileType::Text);
    b.relative_path = "renamed.txt".to_string();
    let config = CompareConfig::default();
    let pairs = generate_candidates(&vec![a], &vec![b], &config);
    assert_eq!(pairs.len(), 1);
    assert!(pairs[0].exact_hash_match);
    assert_eq!(score(pairs[0].estimated_similarity), 1.0);
}

#[test]
fn exact_pass_uses_each_right_file_once() {
    let files1 = vec![
        make_file_entry("a.txt", "same", 10, "txt", FileType::Text),
        make_file_entry("b.txt", "same", 10, "txt", FileType::Text),
    ];
    let files2 = vec![make_file_entry("c.txt", "same", 10, "txt", FileType::Text)];
    let matches = find_exact_hash_matches(&files1, &files2);
    assert_eq!(matches.len(), 1);
    assert_eq!(matches[0].file1.path, "a.txt");
}

#[test]
fn all_vs_all_sorted_and_capped() {
    let mut files1 = Vec::new();
    let mut files2 = Vec::new();
    for (i, h) in [0u64, 0xff, 0xffff].iter().enumerate() {
        let mut e = make_file_entry(&format!("l{}.txt", i), &format!("x{}", i), 100, "txt", FileType::Text);
        e.simhash = Some(*h);
        files1.push(e);
    }
    let mut r = make_file_entry("r.txt", "y", 100, "txt", FileType::Text);
    r.simhash = Some(0);
    files2.push(r);
    let mut config = CompareConfig::default();
    config.max_pairs = Some(2);
    let pairs = generate_candidates(&files1, &files2, &config);
    assert_eq!(pairs.len(), 2);
    assert!(score(pairs[0].estimated_similarity) >= score(pairs[1].estimated_similarity));
    assert_eq!(score(pairs[0].estimated_similarity), 1.0);
    assert_eq!(score(pairs[1].estimated_similarity), 1.0 - 8.0 / 64.0);
}

#[test]
fn same_path_and_same_name_pairing() {
    let mut a = make_file_entry("/x/sub/f.txt", "h1", 10, "txt", FileType::Text);
    a.relative_path = "sub/f.txt".to_string();
    let mut b = make_file_entry("/y/sub/f.txt", "h2", 10, "txt", FileType::Text);
    b.relative_path = "sub/f.txt".to_string();
    let mut c = make_file_entry("/y/other/f.txt", "h3", 10, "txt", FileType::Text);
    c.relative_path = "other/f.txt".to_string();
    let mut config = CompareConfig::default();
    config.pairing = PairingStrategy::SamePath;
    let by_path = generate_candidates(&vec![a.clone()], &vec![c.clone(), b.clone()], &config);
    assert_eq!(by_path.len(), 1);
    assert_eq!(by_path[0].file2.path, "/y/sub/f.txt");
    config.pairing = PairingStrategy::SameName;
    let by_name = generate_candidates(&vec![a], &vec![c, b], &config);
    assert_eq!(by_name.len(), 1);
}

#[test]
fn size_estimate_without_fingerprints() {
    let mut a = make_file_entry("a.bin", "h1", 50, "bin", FileType::Binary);
    a.simhash = None;
    let mut b = make_file_entry("b.bin", "h2", 100, "bin", FileType::Binary);
    b.simhash = None;
    let est = compare_it::matching::estimate_similarity(&a, &b);
    assert!((score(est) - 0.15).abs() < 1e-12);
}

#[test]
fn candidate_generation_is_repeatable() {
    let files1 = vec![
        make_file_entry("a.txt", "h1", 100, "txt", FileType::Text),
        make_file_entry("b.txt", "h2", 120, "txt", FileType::Text),
    ];
    let files2 = vec![
        make_file_entry("c.txt", "h2", 120, "txt", FileType::Text),
        make_file_entry("d.txt", "h9", 90, "txt", FileType::Text),
    ];
    let config = CompareConfig::default();
    let p1 = generate_candidates(&files1, &files2, &config);
    let p2 = generate_candidates(&files1, &files2, &config);
    assert_eq!(p1, p2);
    assert!(p1[0].exact_hash_match);
    assert_eq!(p1[0].file1.path, "b.txt");
}

#[test]
fn exclude_patterns_cover_directories_and_components() {
    let paths: Vec<String> = ["a/b/c.txt", "a/x.txt", "d.tmp", "e/f.tmp", "node_modules/m.js", "g/node_modules/k.js"]
        .iter()
        .map(|s| s.to_string())
        .collect();
    let patterns = vec!["a/b".to_string(), "*.tmp".to_string(), "node_modules".to_string()];
    assert_eq!(filter_paths(&paths, &patterns), vec!["a/x.txt".to_string()]);
    assert!(!glob_match("a*c", "ab/c"));
    assert!(glob_match("a**c", "ab/c"));
    assert!(glob_match("a?c", "abc"));
    assert!(!glob_match("a?c", "a/c"));
}

#[test]
fn max_pairs_caps_every_strategy() {
    let files1 = vec![
        make_file_entry("a.txt", "h1", 100, "txt", FileType::Text),
        make_file_entry("b.txt", "h2", 100, "txt", FileType::Text),
    ];
    let files2 = files1.clone();
    let mut config = CompareConfig::default();
    config.max_pairs = Some(1);
    config.pairing = PairingStrategy::SamePath;
    assert_eq!(generate_candidates(&files1, &files2, &config).len(), 1);
    config.pairing = PairingStrategy::SameName;
    assert_eq!(generate_candidates(&files1, &files2, &config).len(), 1);
}
