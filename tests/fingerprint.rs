use compare_it::fingerprint::{
    compute_fingerprint_for_entry, compute_schema_signature, compute_simhash, hamming_distance,
    simhash_similarity,
};
use compare_it::types::{FileEntry, FileType, NormalizationOptions};

#[test]
fn test_hamming_distance() {
    assert_eq!(hamming_distance(0, 0), 0);
    assert_eq!(hamming_distance(0, 1), 1);
    assert_eq!(hamming_distance(0b1111, 0b0000), 4);
}

#[test]
fn test_simhash_similarity() {
    let s = simhash_similarity(0, 0);
    assert_eq!(s.num as f64 / s.den as f64, 1.0);
    let t = simhash_similarity(0, u64::MAX);
    assert!((t.num as f64 / t.den as f64) < 0.1);
}

#[test]
fn test_schema_signature() {
    let cols1 = vec!["a".to_string(), "b".to_string(), "c".to_string()];
    let cols2 = vec!["c".to_string(), "b".to_string(), "a".to_string()];
    assert_eq!(compute_schema_signature(&cols1), compute_schema_signature(&cols2));
}

#[test]
fn schema_signature_shape() {
    let cols = vec!["b".to_string(), "a".to_string()];
    let sig = compute_schema_signature(&cols);
    assert_eq!(sig.len(), 16);
    assert_eq!(sig, blake3::hash(b"a|b").to_hex()[..16].to_string());
}

#[test]
fn simhash_follows_normalised_text() {
    let mut opts = NormalizationOptions::new();
    opts.ignore_case = true;
    opts.ignore_trailing_ws = true;
    assert_eq!(compute_simhash("Alpha beta gamma\ndelta  \n", &opts), compute_simhash("alpha beta GAMMA\ndelta\n", &opts));
    assert_ne!(compute_simhash("alpha beta gamma", &opts), compute_simhash("one two three four", &opts));
}

fn entry(t: FileType) -> FileEntry {
    FileEntry {
        path: "f".to_string(),
        relative_path: "f".to_string(),
        size: 10,
        file_type: t,
        extension: "csv".to_string(),
        content_hash: String::new(),
        simhash: None,
        schema_signature: None,
        line_count: 1,
        columns: Some(vec!["x".to_string(), "y".to_string()]),
    }
}

#[test]
fn large_file_keeps_hash_and_schema_but_no_simhash() {
    let opts = NormalizationOptions::new();
    let mut e = entry(FileType::Csv);
    compute_fingerprint_for_entry(&mut e, "abc".to_string(), "", 500, &opts, 100);
    assert_eq!(e.content_hash, "abc");
    assert!(e.simhash.is_none());
    assert!(e.schema_signature.is_some());
    let mut small = entry(FileType::Csv);
    compute_fingerprint_for_entry(&mut small, "abc".to_string(), "x,y\n1,2\n", 8, &opts, 100);
    assert!(small.simhash.is_some());
    let mut excel = entry(FileType::Excel);
    compute_fingerprint_for_entry(&mut excel, "abc".to_string(), "", 8, &opts, 100);
    assert!(excel.simhash.is_none());
    assert_eq!(excel.schema_signature, small.schema_signature);
}
