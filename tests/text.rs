use compare_it::ranges::encode_ranges;
use compare_it::scores::text_similarity;
use compare_it::text_compare::{compare_text_files, compare_text_lines, prepare_lines};
use compare_it::textdiff::{diff_lines, DiffTag};
use compare_it::textfmt::{
    check_path, escape_html, escape_json, sanitize_for_filename, truncate_path, validate_regex_pattern,
    PathRejection,
};
use compare_it::types::{CompareConfig, FileEntry, FileType, Ratio, SimilarityAlgorithm};

fn entry(path: &str, hash: &str) -> FileEntry {
    FileEntry {
        path: path.to_string(),
        relative_path: path.to_string(),
        size: 5,
        file_type: FileType::Text,
        extension: "txt".to_string(),
        content_hash: hash.to_string(),
        simhash: None,
        schema_signature: None,
        line_count: 3,
        columns: None,
    }
}

fn score(r: Ratio) -> f64 {
    r.num as f64 / r.den as f64
}

fn lines(v: &[&str]) -> Vec<String> {
    v.iter().map(|s| s.to_string()).collect()
}

#[test]
fn test_encode_ranges() {
    assert_eq!(encode_ranges(&[1, 2, 3, 5, 7, 8, 9]), "1-3,5,7-9");
    assert_eq!(encode_ranges(&[1]), "1");
    assert_eq!(encode_ranges(&[]), "");
}

#[test]
fn test_diff_slices_basic() {
    let lines1 = vec!["line1".to_string(), "line2".to_string(), "line3".to_string()];
    let lines2 = vec!["line1".to_string(), "modified".to_string(), "line3".to_string()];

    let diff = diff_lines(&lines1, &lines2);

    let mut changes = 0;
    for tag in diff {
        if tag != DiffTag::Equal {
            changes += 1;
        }
    }
    assert_eq!(changes, 2);
}

#[test]
fn identical_texts_compare_identical() {
    let config = CompareConfig::default();
    let r = compare_text_files(&entry("a.txt", "h1"), &entry("b.txt", "h2"), "x\ny\nz", "x\ny\nz", &config, Ratio::zero()).unwrap();
    assert!(r.identical);
    assert_eq!(r.common_lines, 3);
    assert_eq!(score(r.similarity_score), 1.0);
    assert_eq!(r.detailed_diff, "");
    assert!(!r.diff_truncated);
    assert_eq!(r.different_positions, "");
}

#[test]
fn ignore_case_makes_texts_identical() {
    let mut config = CompareConfig::default();
    config.normalization.ignore_case = true;
    let r = compare_text_files(&entry("a.txt", "h1"), &entry("b.txt", "h2"), "x\ny\nz", "x\nY\nz", &config, Ratio::zero()).unwrap();
    assert!(r.identical);
}

#[test]
fn changed_line_is_reported() {
    let config = CompareConfig::default();
    let r = compare_text_files(&entry("a.txt", "0123456789abcdefXX"), &entry("b.txt", "fedcba9876543210YY"), "x\ny\nz", "x\nY\nz", &config, Ratio::zero()).unwrap();
    assert!(!r.identical);
    assert_eq!(r.common_lines, 2);
    assert_eq!(r.only_in_file1, 1);
    assert_eq!(r.only_in_file2, 1);
    assert_eq!(r.different_positions, "1-2");
    assert_eq!(score(r.similarity_score), 0.5);
    assert_eq!(r.linked_id, "0123456789abcdef:fedcba9876543210");
    assert_eq!(r.detailed_diff, "--- a.txt\n+++ b.txt\n@@ -1,3 +1,3 @@\n x\n-y\n+Y\n z\n");
}

#[test]
fn empty_against_empty_is_identical() {
    let config = CompareConfig::default();
    let r = compare_text_files(&entry("a.txt", "h"), &entry("b.txt", "h"), "", "", &config, Ratio::zero()).unwrap();
    assert!(r.identical);
    assert_eq!(score(r.similarity_score), 1.0);
}

#[test]
fn empty_against_text_scores_zero() {
    let config = CompareConfig::default();
    let r = compare_text_files(&entry("a.txt", "h"), &entry("b.txt", "g"), "", "p\nq\n", &config, Ratio::zero()).unwrap();
    assert_eq!(score(r.similarity_score), 0.0);
    assert_eq!(r.only_in_file2, 2);
    assert!(!r.identical);
}

#[test]
fn normalisation_options() {
    let mut config = CompareConfig::default();
    config.normalization.ignore_trailing_ws = true;
    config.normalization.ignore_all_ws = true;
    config.normalization.skip_empty_lines = true;
    let l = prepare_lines("a  b \r\n\n   \nc\td", &config);
    assert_eq!(l, vec!["a b".to_string(), "c d".to_string()]);
}

#[test]
fn ignore_regex_masks_matches() {
    let mut config = CompareConfig::default();
    config.ignore_regex = Some("[0-9]+".to_string());
    let l = prepare_lines("run 42\nrun 7", &config);
    assert_eq!(l, vec!["run <IGNORED>".to_string(), "run <IGNORED>".to_string()]);
    let r = compare_text_files(&entry("a.txt", "h"), &entry("b.txt", "g"), "t=1\n", "t=2\n", &config, Ratio::zero()).unwrap();
    assert!(r.identical);
}

#[test]
fn similarity_algorithms() {
    let a = lines(&["a", "b", "c", "d"]);
    let b = lines(&["a", "x", "c"]);
    let tags = diff_lines(&a, &b);
    let s = |alg| score(text_similarity(alg, &a, &b, &tags, Ratio::zero()));
    assert_eq!(s(SimilarityAlgorithm::Diff), 2.0 / 5.0);
    assert_eq!(s(SimilarityAlgorithm::RatcliffObershelp), 4.0 / 7.0);
    assert_eq!(s(SimilarityAlgorithm::Hamming), 2.0 / 4.0);
    assert_eq!(s(SimilarityAlgorithm::Lcs), 2.0 / 4.0);
    assert_eq!(s(SimilarityAlgorithm::SmithWaterman), 3.0 / 6.0);
    assert_eq!(s(SimilarityAlgorithm::Levenshtein), 1.0 - 3.0 / 7.0);
    assert_eq!(s(SimilarityAlgorithm::Jaccard), 2.0 / 5.0);
    let x = lines(&["abcd"]);
    let y = lines(&["abce"]);
    let t3 = diff_lines(&x, &y);
    assert_eq!(score(text_similarity(SimilarityAlgorithm::NGram, &x, &y, &t3, Ratio::zero())), 1.0 / 3.0);
    let empty: Vec<String> = Vec::new();
    let t4 = diff_lines(&x, &empty);
    assert_eq!(score(text_similarity(SimilarityAlgorithm::NGram, &x, &empty, &t4, Ratio::zero())), 0.0);
    let upper = lines(&["A b", "b"]);
    let lower = lines(&["a", "B"]);
    let t2 = diff_lines(&upper, &lower);
    assert_eq!(score(text_similarity(SimilarityAlgorithm::Jaccard, &upper, &lower, &t2, Ratio::zero())), 1.0);
    let ab = lines(&["ab"]);
    let ba = lines(&["ba"]);
    let t5 = diff_lines(&ab, &ba);
    assert_eq!(score(text_similarity(SimilarityAlgorithm::DamerauLevenshtein, &ab, &ba, &t5, Ratio::zero())), 0.5);
    assert_eq!(score(text_similarity(SimilarityAlgorithm::Levenshtein, &ab, &ba, &t5, Ratio::zero())), 0.0);
    let given = Ratio { num: 3, den: 10 };
    assert_eq!(score(text_similarity(SimilarityAlgorithm::CharJaro, &a, &b, &tags, given)), 0.3);
}

#[test]
fn truncated_diff_is_flagged() {
    let mut config = CompareConfig::default();
    config.max_diff_bytes = 5;
    let a = lines(&["one", "two"]);
    let b = lines(&["uno", "dos"]);
    let r = compare_text_lines(&entry("a.txt", "h"), &entry("b.txt", "g"), &a, &b, &config, Ratio::zero());
    assert!(r.diff_truncated);
    assert!(r.detailed_diff.ends_with("... [diff truncated] ...\n"));
}

#[test]
fn text_helpers() {
    assert_eq!(sanitize_for_filename("ab:cd/ef"), "ab_cd_ef");
    assert_eq!(escape_html("<a href=\"x\">&'"), "&lt;a href=&quot;x&quot;&gt;&amp;&#39;");
    assert_eq!(escape_json("a\"b\\c\nd\te\r"), "a\\\"b\\\\c\\nd\\te\\r");
    assert_eq!(truncate_path("abcdefghij", 20), "abcdefghij");
    assert_eq!(truncate_path("abcdefghij", 6), "...hij");
    assert_eq!(validate_regex_pattern(Some("  ".to_string())), None);
    assert_eq!(validate_regex_pattern(Some("x".repeat(1001))), None);
    assert_eq!(validate_regex_pattern(Some("a+".to_string())), Some("a+".to_string()));
    assert_eq!(validate_regex_pattern(None), None);
}

#[test]
fn rerun_gives_equal_results() {
    let mut config = CompareConfig::default();
    config.similarity_algorithm = SimilarityAlgorithm::Lcs;
    let a = entry("a.txt", "h1");
    let b = entry("b.txt", "h2");
    let r1 = compare_text_files(&a, &b, "p\nq\nr\ns", "p\nr\ns\nt", &config, Ratio::zero()).unwrap();
    let r2 = compare_text_files(&a, &b, "p\nq\nr\ns", "p\nr\ns\nt", &config, Ratio::zero()).unwrap();
    assert_eq!(r1, r2);
    assert_eq!(score(r1.similarity_score), 3.0 / 4.0);
}

#[test]
fn path_checks() {
    let long = "a".repeat(5000);
    assert_eq!(check_path(&long, "", false), Err(PathRejection::TooLong));
    assert_eq!(check_path("  ", "", false), Err(PathRejection::Empty));
    assert_eq!(
        check_path("x", "/ETC/passwd", false),
        Err(PathRejection::SystemDirectory)
    );
    assert_eq!(check_path("x", "/home/u/data", false), Ok(()));
    assert_eq!(
        check_path("x", "C:\\Windows\\System32\\x", true),
        Err(PathRejection::SystemDirectory)
    );
    assert_eq!(check_path("x", "C:\\data\\Sam", true), Err(PathRejection::SystemDirectory));
    assert_eq!(check_path("x", "C:\\data\\file", true), Ok(()));
}

#[test]
fn invalid_ignore_pattern_is_dropped() {
    let mut config = CompareConfig::default();
    config.ignore_regex = Some("(".to_string());
    assert!(compare_it::text_compare::compile_ignore_regex("(").is_none());
    let with_bad = compare_text_files(&entry("a.txt", "h"), &entry("b.txt", "g"), "t=1\n", "t=2\n", &config, Ratio::zero()).unwrap();
    config.ignore_regex = None;
    let without = compare_text_files(&entry("a.txt", "h"), &entry("b.txt", "g"), "t=1\n", "t=2\n", &config, Ratio::zero()).unwrap();
    assert_eq!(with_bad, without);
    let p = compare_it::text_compare::compile_ignore_regex("[0-9]").unwrap();
    assert_eq!(p.source_text(), "[0-9]");
}
