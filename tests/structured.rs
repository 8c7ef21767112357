use compare_it::decimal::values_equal;
use compare_it::structured::{
    compare_structured_files, get_delimiter, keyed_records, merge_join, sort_records, KeyedRecord,
};
use compare_it::types::{CompareConfig, FileEntry, FileType, Tolerance};

fn tol(x: f64) -> Tolerance {
    Tolerance { billionths: (x * 1e9).round() as u64 }
}

fn entry(path: &str) -> FileEntry {
    FileEntry {
        path: path.to_string(),
        relative_path: path.to_string(),
        size: 20,
        file_type: FileType::Csv,
        extension: "csv".to_string(),
        content_hash: String::new(),
        simhash: None,
        schema_signature: None,
        line_count: 2,
        columns: None,
    }
}

fn table(text: &str) -> (Vec<String>, Vec<Vec<String>>) {
    let mut it = text.lines();
    let header = it.next().unwrap().split(',').map(|s| s.to_string()).collect();
    let rows = it.map(|l| l.split(',').map(|s| s.to_string()).collect()).collect();
    (header, rows)
}

fn record(key: &str) -> KeyedRecord {
    KeyedRecord { key: key.to_string(), fields: Vec::new() }
}

#[test]
fn test_values_equal() {
    assert!(values_equal("hello", "hello", tol(0.0001)));
    assert!(!values_equal("hello", "world", tol(0.0001)));
    assert!(values_equal("1.0", "1.0", tol(0.0001)));
    assert!(values_equal("1.0000", "1.0001", tol(0.001)));
    assert!(!values_equal("1.0", "2.0", tol(0.0001)));
}

#[test]
fn test_merge_join_ordering() {
    let mut records1 = vec![record("a"), record("c"), record("e")];
    let mut records2 = vec![record("b"), record("c"), record("d")];

    sort_records(&mut records1);
    sort_records(&mut records2);

    let pairs = merge_join(&records1, &records2);
    let common = pairs.len();
    let only1 = records1.len() - common;
    let only2 = records2.len() - common;

    assert_eq!(common, 1);
    assert_eq!(only1, 2);
    assert_eq!(only2, 2);
}

#[test]
fn identical_tables() {
    let (h1, r1) = table("id,val\n1,10\n2,20");
    let (h2, r2) = table("id,val\n1,10\n2,20");
    let mut config = CompareConfig::default();
    config.key_columns = vec!["id".to_string()];
    config.numeric_tolerance = tol(0.0);
    let r = compare_structured_files(&entry("a.csv"), &entry("b.csv"), &h1, &r1, &h2, &r2, &config).unwrap();
    assert_eq!(r.common_records, 2);
    assert_eq!(r.total_field_mismatches, 0);
    assert!(r.identical);
}

#[test]
fn tolerance_and_mismatch() {
    let (h1, r1) = table("id,val\n1,10\n2,20");
    let (h2, r2) = table("id,val\n1,10.00005\n2,21");
    let mut config = CompareConfig::default();
    config.key_columns = vec!["id".to_string()];
    config.numeric_tolerance = tol(1e-4);
    let r = compare_structured_files(&entry("a.csv"), &entry("b.csv"), &h1, &r1, &h2, &r2, &config).unwrap();
    assert_eq!(r.common_records, 2);
    assert_eq!(r.total_field_mismatches, 1);
    assert!(!r.identical);
    assert_eq!(r.field_mismatches.len(), 1);
    assert_eq!(r.field_mismatches[0].column_name, "val");
    assert_eq!(r.field_mismatches[0].sample_mismatches[0].key, "2");
    assert_eq!(r.field_mismatches[0].sample_mismatches[0].value1, "20");
    assert_eq!(r.field_mismatches[0].sample_mismatches[0].value2, "21");
}

#[test]
fn single_column_uses_first_column_as_key() {
    let (h1, r1) = table("name\nann\nbob");
    let (h2, r2) = table("name\nbob\ncid");
    let config = CompareConfig::default();
    let r = compare_structured_files(&entry("a.csv"), &entry("b.csv"), &h1, &r1, &h2, &r2, &config).unwrap();
    assert_eq!(r.common_records, 1);
    assert_eq!(r.only_in_file1, 1);
    assert_eq!(r.only_in_file2, 1);
    assert_eq!(r.similarity_score.num as f64 / r.similarity_score.den as f64, 1.0 / 3.0);
}

#[test]
fn ignored_column_drops_its_mismatches() {
    let (h1, r1) = table("id,a,b\n1,x,p\n2,y,q");
    let (h2, r2) = table("id,a,b\n1,X,P\n2,Y,q");
    let mut config = CompareConfig::default();
    let r = compare_structured_files(&entry("a.csv"), &entry("b.csv"), &h1, &r1, &h2, &r2, &config).unwrap();
    assert_eq!(r.total_field_mismatches, 3);
    config.ignore_columns = vec!["a".to_string()];
    let r2b = compare_structured_files(&entry("a.csv"), &entry("b.csv"), &h1, &r1, &h2, &r2, &config).unwrap();
    assert_eq!(r2b.total_field_mismatches, 1);
    assert_eq!(r2b.common_columns, vec!["id".to_string(), "b".to_string()]);
}

#[test]
fn schema_differences_are_listed() {
    let (h1, r1) = table("id,a,b\n1,x,p");
    let (h2, r2) = table("id,b,c\n1,p,z");
    let config = CompareConfig::default();
    let r = compare_structured_files(&entry("a.csv"), &entry("b.csv"), &h1, &r1, &h2, &r2, &config).unwrap();
    assert_eq!(r.columns_only_in_file1, vec!["a".to_string()]);
    assert_eq!(r.columns_only_in_file2, vec!["c".to_string()]);
    assert!(r.identical);
}

#[test]
fn zero_tolerance_is_exact_for_text() {
    assert!(!values_equal("abc", "abd", tol(0.0)));
    assert!(values_equal("1.5", "1.50", tol(0.0)));
    assert!(!values_equal("1.5", "1.5000001", tol(0.0)));
    assert!(values_equal("100", "101", tol(0.01)));
    assert!(!values_equal("-1", "1", tol(0.5)));
}

#[test]
fn keys_and_delimiters() {
    let headers = vec!["a".to_string(), "b".to_string(), "c".to_string()];
    let rows = vec![vec!["1".to_string(), "2".to_string(), "3".to_string()], vec!["4".to_string()]];
    let keys = vec!["c".to_string(), "a".to_string(), "zz".to_string()];
    let recs = keyed_records(&headers, &rows, &keys);
    assert_eq!(recs[0].key, "3|1");
    assert_eq!(recs[1].key, "4");
    assert_eq!(get_delimiter(&FileType::Tsv), b'\t');
    assert_eq!(get_delimiter(&FileType::Csv), b',');
}

#[test]
fn records_sort_by_key() {
    let mut recs = vec![record("c"), record("a"), record("b")];
    sort_records(&mut recs);
    let keys: Vec<&str> = recs.iter().map(|r| r.key.as_str()).collect();
    assert_eq!(keys, vec!["a", "b", "c"]);
}

#[test]
fn long_and_exponent_numbers_use_the_tolerance() {
    assert!(values_equal("3.14159265358979", "3.1415926535898", tol(1e-4)));
    assert!(values_equal("1e3", "1000.0", tol(0.0)));
    assert!(values_equal("1.5E-2", "0.015", tol(0.0)));
    assert!(values_equal("-2.5e+1", "-25", tol(0.0)));
    assert!(values_equal("12345678901234567890123", "12345678901234567890124", tol(1e-4)));
    assert!(!values_equal("12345678901234567890123", "12345678901234567890124", tol(0.0)));
    assert!(!values_equal("1e401", "1E401", tol(0.5)));
    assert!(!values_equal("1e", "1", tol(0.5)));
    assert!(!values_equal("0.1", "-0.1", tol(0.0001)));
    assert!(values_equal("0.1", "-0.1", tol(1.0)));
}
