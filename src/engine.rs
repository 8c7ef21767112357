//! Per-pair dispatch, synthesised results and the run summary.

use vstd::prelude::*;
use crate::results::{
    is_error, make_linked_id, spec_linked_id, spec_result_identical, spec_result_similarity,
};
use crate::types::{
    copy_strings, spec_is_tabular, CandidatePair, CompareMode, ComparisonResult, FileEntry,
    FileType, Ratio, StructuredComparisonResult, TextComparisonResult,
};
use crate::strs::string_from_chars;

verus! {

/// The backend that `auto` mode picks: records for two tabular files,
/// text otherwise.
pub open spec fn spec_auto_mode(t1: FileType, t2: FileType) -> CompareMode {
    if spec_is_tabular(t1) && spec_is_tabular(t2) {
        CompareMode::Structured
    } else {
        CompareMode::Text
    }
}

/// Picks the backend from the two file kinds.
pub fn auto_detect_mode(file1: &FileEntry, file2: &FileEntry) -> (r: CompareMode)
    ensures
        r == spec_auto_mode(file1.file_type, file2.file_type),
{
    if file1.file_type.is_tabular() && file2.file_type.is_tabular() {
        CompareMode::Structured
    } else {
        CompareMode::Text
    }
}

/// What to do with a candidate pair.
#[derive(Debug, Clone, Copy, PartialEq, Eq, Structural)]
pub enum PairPlan {
    /// Equal content: synthesise an identical result.
    Identical,
    /// A binary side without equal content: a differing hash-only result.
    HashOnly,
    /// Run the line-diff backend.
    Text,
    /// Run the record-join backend.
    Structured,
}

/// The plan for a pair: equal hashes first, then the explicit mode, then
/// the binary rule and `auto` detection.
pub open spec fn spec_plan(pair: crate::types::CandidateView, mode: CompareMode) -> PairPlan {
    if pair.exact_hash_match {
        PairPlan::Identical
    } else {
        match mode {
            CompareMode::Text => PairPlan::Text,
            CompareMode::Structured => PairPlan::Structured,
            CompareMode::Auto => if pair.file1.file_type == FileType::Binary || pair.file2.file_type
                == FileType::Binary {
                PairPlan::HashOnly
            } else if spec_is_tabular(pair.file1.file_type) && spec_is_tabular(
                pair.file2.file_type,
            ) {
                PairPlan::Structured
            } else {
                PairPlan::Text
            },
        }
    }
}

/// Decides how a pair is compared.
pub fn plan_comparison(pair: &CandidatePair, mode: CompareMode) -> (r: PairPlan)
    ensures
        r == spec_plan(pair@, mode),
{
    if pair.exact_hash_match {
        return PairPlan::Identical;
    }
    match mode {
        CompareMode::Text => PairPlan::Text,
        CompareMode::Structured => PairPlan::Structured,
        CompareMode::Auto => {
            if pair.file1.file_type == FileType::Binary || pair.file2.file_type == FileType::Binary {
                PairPlan::HashOnly
            } else if auto_detect_mode(&pair.file1, &pair.file2) == CompareMode::Structured {
                PairPlan::Structured
            } else {
                PairPlan::Text
            }
        },
    }
}

fn empty_string() -> (r: String)
    ensures
        r@.len() == 0,
{
    string_from_chars(&Vec::new())
}

/// The result for two files with equal content: hash-only when a side is
/// binary, a record result when both are tabular, a text result otherwise;
/// identical in every case.
pub fn create_identical_result(file1: &FileEntry, file2: &FileEntry) -> (r: ComparisonResult)
    ensures
        spec_result_identical(r),
        spec_result_similarity(r) == (Ratio { num: 1, den: 1 }),
        (file1.file_type == FileType::Binary || file2.file_type == FileType::Binary) <==> r is HashOnly,
        r matches ComparisonResult::HashOnly { linked_id, file1_path, file2_path, file1_size, file2_size, .. }
            ==> linked_id@ == spec_linked_id(file1.content_hash@, file2.content_hash@)
            && file1_path@ == file1.path@ && file2_path@ == file2.path@ && file1_size == file1.size
            && file2_size == file2.size,
        !(file1.file_type == FileType::Binary || file2.file_type == FileType::Binary) && spec_is_tabular(
            file1.file_type,
        ) && spec_is_tabular(file2.file_type) <==> r is Structured,
        r matches ComparisonResult::Structured(s) ==> s.linked_id@ == spec_linked_id(
            file1.content_hash@,
            file2.content_hash@,
        ) && s.file1_path@ == file1.path@ && s.file2_path@ == file2.path@ && s.file1_row_count
            == file1.line_count && s.file2_row_count == file2.line_count && s.common_records
            == file1.line_count && s.only_in_file1 == 0 && s.only_in_file2 == 0
            && s.total_field_mismatches == 0 && s.field_mismatches@.len() == 0
            && s.columns_only_in_file1@.len() == 0 && s.columns_only_in_file2@.len() == 0
            && s.common_columns@ == (match file1.columns {
            Some(c) => c@,
            None => Seq::empty(),
        }),
        r matches ComparisonResult::Text(t) ==> t.linked_id@ == spec_linked_id(
            file1.content_hash@,
            file2.content_hash@,
        ) && t.file1_path@ == file1.path@ && t.file2_path@ == file2.path@ && t.file1_line_count
            == file1.line_count && t.file2_line_count == file2.line_count && t.common_lines
            == file1.line_count && t.only_in_file1 == 0 && t.only_in_file2 == 0
            && t.different_positions@.len() == 0 && t.detailed_diff@.len() == 0 && !t.diff_truncated,
{
    let linked_id = make_linked_id(file1.content_hash.as_str(), file2.content_hash.as_str());
    if file1.file_type == FileType::Binary || file2.file_type == FileType::Binary {
        ComparisonResult::HashOnly {
            linked_id,
            file1_path: file1.path.clone(),
            file2_path: file2.path.clone(),
            file1_size: file1.size,
            file2_size: file2.size,
            identical: true,
        }
    } else if file1.file_type.is_tabular() && file2.file_type.is_tabular() {
        let common_columns = match &file1.columns {
            Some(c) => copy_strings(c),
            None => Vec::new(),
        };
        ComparisonResult::Structured(
            StructuredComparisonResult {
                linked_id,
                file1_path: file1.path.clone(),
                file2_path: file2.path.clone(),
                file1_row_count: file1.line_count,
                file2_row_count: file2.line_count,
                common_records: file1.line_count,
                only_in_file1: 0,
                only_in_file2: 0,
                similarity_score: Ratio::one(),
                field_mismatches: Vec::new(),
                total_field_mismatches: 0,
                columns_only_in_file1: Vec::new(),
                columns_only_in_file2: Vec::new(),
                common_columns,
                identical: true,
            },
        )
    } else {
        ComparisonResult::Text(
            TextComparisonResult {
                linked_id,
                file1_path: file1.path.clone(),
                file2_path: file2.path.clone(),
                file1_line_count: file1.line_count,
                file2_line_count: file2.line_count,
                common_lines: file1.line_count,
                only_in_file1: 0,
                only_in_file2: 0,
                similarity_score: Ratio::one(),
                different_positions: empty_string(),
                detailed_diff: empty_string(),
                diff_truncated: false,
                identical: true,
            },
        )
    }
}

/// The result for two binary files whose content differs.
pub fn create_hash_only_result(file1: &FileEntry, file2: &FileEntry) -> (r: ComparisonResult)
    ensures
        r matches ComparisonResult::HashOnly { linked_id, file1_path, file2_path, file1_size, file2_size, identical }
            && linked_id@ == spec_linked_id(file1.content_hash@, file2.content_hash@) && file1_path@
            == file1.path@ && file2_path@ == file2.path@ && file1_size == file1.size && file2_size
            == file2.size && !identical,
{
    ComparisonResult::HashOnly {
        linked_id: make_linked_id(file1.content_hash.as_str(), file2.content_hash.as_str()),
        file1_path: file1.path.clone(),
        file2_path: file2.path.clone(),
        file1_size: file1.size,
        file2_size: file2.size,
        identical: false,
    }
}

/// The result for a pair whose comparison failed.
pub fn create_error_result(file1: &FileEntry, file2: &FileEntry, error: String) -> (r: ComparisonResult)
    ensures
        r == (ComparisonResult::Error { file1_path: file1.path, file2_path: file2.path, error }),
{
    ComparisonResult::Error { file1_path: file1.path.clone(), file2_path: file2.path.clone(), error }
}

} // verus!

verus! {

use crate::types::ComparisonSummary;

/// Units per 1 of a score in the summary's average.
pub const SCORE_UNITS: u64 = 1000000000;

/// Largest result list that the summary accepts.
pub const SUMMARY_LIMIT: usize = 1000000000;

/// A score in units of `10^-9`, rounded down and at most one unit of 1.
pub open spec fn score_units(r: Ratio) -> nat {
    if r.den == 0 {
        0
    } else {
        let u = (r.num as nat * SCORE_UNITS as nat) / r.den as nat;
        if u <= SCORE_UNITS {
            u
        } else {
            SCORE_UNITS as nat
        }
    }
}

pub open spec fn count_errors(rs: Seq<ComparisonResult>) -> nat
    decreases rs.len(),
{
    if rs.len() == 0 {
        0
    } else {
        count_errors(rs.drop_last()) + if is_error(rs.last()) {
            1nat
        } else {
            0nat
        }
    }
}

pub open spec fn count_identical(rs: Seq<ComparisonResult>) -> nat
    decreases rs.len(),
{
    if rs.len() == 0 {
        0
    } else {
        count_identical(rs.drop_last()) + if spec_result_identical(rs.last()) {
            1nat
        } else {
            0nat
        }
    }
}

/// Sum of the scores, in units, of the results that are not errors.
pub open spec fn score_sum(rs: Seq<ComparisonResult>) -> nat
    decreases rs.len(),
{
    if rs.len() == 0 {
        0
    } else {
        score_sum(rs.drop_last()) + if is_error(rs.last()) {
            0nat
        } else {
            score_units(spec_result_similarity(rs.last()))
        }
    }
}

/// Least and greatest score of the results that are not errors (the first
/// of equal ones), or `None` when every result is an error.
pub open spec fn score_range(rs: Seq<ComparisonResult>) -> Option<(Ratio, Ratio)>
    decreases rs.len(),
{
    if rs.len() == 0 {
        None
    } else {
        let prev = score_range(rs.drop_last());
        let x = rs.last();
        if is_error(x) {
            prev
        } else {
            let s = spec_result_similarity(x);
            match prev {
                None => Some((s, s)),
                Some((lo, hi)) => Some(
                    (if lo.spec_ge(s) && !s.spec_ge(lo) { s } else { lo }, if s.spec_ge(hi) && !hi.spec_ge(s) {
                        s
                    } else {
                        hi
                    }),
                ),
            }
        }
    }
}



fn units_of(r: Ratio) -> (u: u64)
    ensures
        u == score_units(r),
        u <= SCORE_UNITS,
{
    if r.den == 0 {
        return 0;
    }
    proof {
        crate::types::lemma_u64_product_fits(r.num, SCORE_UNITS);
    }
    let u = (r.num as u128 * SCORE_UNITS as u128) / r.den as u128;
    if u <= SCORE_UNITS as u128 {
        u as u64
    } else {
        SCORE_UNITS
    }
}

/// Totals over the results of a run: how many pairs were identical,
/// different or failed, and the mean, least and greatest score of those
/// that did not fail.
pub fn calculate_summary(results: &Vec<ComparisonResult>, files1: usize, files2: usize) -> (r:
    ComparisonSummary)
    requires
        results.len() <= SUMMARY_LIMIT,
    ensures
        r.total_files_set1 == files1,
        r.total_files_set2 == files2,
        r.pairs_compared == results.len(),
        r.error_pairs == count_errors(results@),
        r.identical_pairs == count_identical(results@),
        r.identical_pairs + r.different_pairs + r.error_pairs == r.pairs_compared,
        r.error_pairs < r.pairs_compared ==> r.average_similarity == (Ratio {
            num: score_sum(results@) as u64,
            den: ((r.pairs_compared - r.error_pairs) * SCORE_UNITS) as u64,
        }),
        r.error_pairs == r.pairs_compared ==> r.average_similarity == (Ratio { num: 0, den: 1 }),
        match score_range(results@) {
            Some((lo, hi)) => r.min_similarity == lo && r.max_similarity == hi,
            None => r.min_similarity == (Ratio { num: 0, den: 1 }) && r.max_similarity == (Ratio {
                num: 0,
                den: 1,
            }),
        },
{
    let ghost rs = results@;
    let mut errors: usize = 0;
    let mut identical: usize = 0;
    let mut sum: u64 = 0;
    let mut range: Option<(Ratio, Ratio)> = None;
    for i in 0..results.len()
        invariant
            rs == results@,
            results.len() <= SUMMARY_LIMIT,
            errors == count_errors(rs.take(i as int)),
            identical == count_identical(rs.take(i as int)),
            sum == score_sum(rs.take(i as int)),
            range == score_range(rs.take(i as int)),
            errors <= i,
            identical + errors <= i,
            sum <= (i - errors) * SCORE_UNITS,
    {
        assert(rs.take(i + 1).drop_last() =~= rs.take(i as int));
        assert(rs.take(i + 1).last() == rs[i as int]);
        let x = &results[i];
        if x.is_error() {
            errors += 1;
        } else {
            if x.is_identical() {
                identical += 1;
            }
            let s = x.similarity_score();
            sum = sum + units_of(s);
            range = match range {
                None => Some((s, s)),
                Some((lo, hi)) => Some(
                    (if lo.ge(&s) && !s.ge(&lo) { s } else { lo }, if s.ge(&hi) && !hi.ge(&s) {
                        s
                    } else {
                        hi
                    }),
                ),
            };
        }
    }
    assert(rs.take(results.len() as int) =~= rs);
    let n = results.len();
    let average = if errors < n {
        Ratio { num: sum, den: ((n - errors) as u64) * SCORE_UNITS }
    } else {
        Ratio::zero()
    };
    let (lo, hi) = match range {
        Some((lo, hi)) => (lo, hi),
        None => (Ratio::zero(), Ratio::zero()),
    };
    ComparisonSummary {
        total_files_set1: files1,
        total_files_set2: files2,
        pairs_compared: n,
        identical_pairs: identical,
        different_pairs: n - identical - errors,
        error_pairs: errors,
        average_similarity: average,
        min_similarity: lo,
        max_similarity: hi,
    }
}

} // verus!

verus! {

/// Largest number of candidates kept per left file.
pub const TOP_K_CAP: usize = 100;

/// The candidate count per left file: at least 1, at most [`TOP_K_CAP`].
pub fn clamp_top_k(k: usize) -> (r: usize)
    ensures
        r == (if k < 1 { 1 } else if k > TOP_K_CAP { TOP_K_CAP } else { k }),
{
    if k < 1 {
        1
    } else if k > TOP_K_CAP {
        TOP_K_CAP
    } else {
        k
    }
}

} // verus!
