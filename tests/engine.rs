use compare_it::engine::{calculate_summary, create_identical_result, plan_comparison, PairPlan};
use compare_it::matching::make_candidate;
use compare_it::run_state::{next_stage, progress_percent, ProgressAction, RunEvent, RunStage};
use compare_it::types::{CompareMode, ComparisonResult, FileEntry, FileType, Ratio};

fn entry(path: &str, hash: &str, t: FileType) -> FileEntry {
    FileEntry {
        path: path.to_string(),
        relative_path: path.to_string(),
        size: 8,
        file_type: t,
        extension: "bin".to_string(),
        content_hash: hash.to_string(),
        simhash: None,
        schema_signature: None,
        line_count: 4,
        columns: None,
    }
}

#[test]
fn binary_against_itself_is_hash_only_identical() {
    let a = entry("a.bin", "feed", FileType::Binary);
    let pair = make_candidate(&a, &a);
    assert_eq!(plan_comparison(&pair, CompareMode::Auto), PairPlan::Identical);
    let r = create_identical_result(&pair.file1, &pair.file2);
    assert!(matches!(r, ComparisonResult::HashOnly { identical: true, .. }));
}

#[test]
fn binary_against_other_binary_differs() {
    let a = entry("a.bin", "feed", FileType::Binary);
    let b = entry("b.bin", "beef", FileType::Binary);
    let pair = make_candidate(&a, &b);
    assert_eq!(plan_comparison(&pair, CompareMode::Auto), PairPlan::HashOnly);
    let r = compare_it::engine::create_hash_only_result(&a, &b);
    assert!(!r.is_identical());
}

#[test]
fn auto_mode_picks_backend() {
    let c1 = entry("a.csv", "1", FileType::Csv);
    let c2 = entry("b.xlsx", "2", FileType::Excel);
    let t = entry("c.txt", "3", FileType::Text);
    assert_eq!(plan_comparison(&make_candidate(&c1, &c2), CompareMode::Auto), PairPlan::Structured);
    assert_eq!(plan_comparison(&make_candidate(&c1, &t), CompareMode::Auto), PairPlan::Text);
    assert_eq!(plan_comparison(&make_candidate(&c1, &t), CompareMode::Structured), PairPlan::Structured);
}

#[test]
fn summary_counts_and_average() {
    let a = entry("a", "1", FileType::Text);
    let b = entry("b", "2", FileType::Text);
    let same = create_identical_result(&a, &a);
    let diff = compare_it::engine::create_hash_only_result(&a, &b);
    let err = compare_it::engine::create_error_result(&a, &b, "boom".to_string());
    let results = vec![same, diff, err];
    let s = calculate_summary(&results, 2, 2);
    assert_eq!(s.pairs_compared, 3);
    assert_eq!(s.identical_pairs, 1);
    assert_eq!(s.different_pairs, 1);
    assert_eq!(s.error_pairs, 1);
    assert_eq!(s.identical_pairs + s.different_pairs + s.error_pairs, s.pairs_compared);
    assert_eq!(s.average_similarity.num as f64 / s.average_similarity.den as f64, 0.5);
    assert_eq!(s.min_similarity, Ratio { num: 0, den: 1 });
    assert_eq!(s.max_similarity, Ratio { num: 1, den: 1 });
}

#[test]
fn run_stages_advance_in_order() {
    let mut stage = RunStage::New;
    let order = [
        RunStage::Indexing,
        RunStage::Fingerprinting,
        RunStage::Matching,
        RunStage::Comparing,
        RunStage::Summarising,
        RunStage::Done,
    ];
    for expected in order {
        let (next, action) = next_stage(stage, RunEvent::StageDone { next_total: 7 });
        assert_eq!(next, expected);
        if expected == RunStage::Done {
            assert_eq!(action, ProgressAction::Complete { finished: RunStage::Summarising });
        } else {
            assert_eq!(action, ProgressAction::Advance { finished: stage, started: expected, total: 7 });
        }
        stage = next;
    }
    assert_eq!(next_stage(RunStage::New, RunEvent::SetupFailed).0, RunStage::Failed);
    assert_eq!(next_stage(RunStage::Comparing, RunEvent::SetupFailed).0, RunStage::Comparing);
    assert_eq!(next_stage(RunStage::Failed, RunEvent::StageDone { next_total: 1 }).0, RunStage::Failed);
    assert_eq!(progress_percent(3, 0), None);
    assert_eq!(progress_percent(1, 4), Some(25));
    assert_eq!(progress_percent(9, 4), Some(100));
}
