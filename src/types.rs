//! Shared data types of the comparison pipeline.

use vstd::prelude::*;

verus! {

/// Kind of a file, as decided by the indexer.
#[derive(Debug, Clone, Copy, PartialEq, Eq, Structural)]
pub enum FileType {
    /// Plain text, compared line by line.
    Text,
    /// Comma-separated records.
    Csv,
    /// Tab-separated records.
    Tsv,
    /// A spreadsheet workbook.
    Excel,
    /// Opaque bytes, compared by hash only.
    Binary,
    /// A file that could not be read or classified.
    Unknown,
}

pub open spec fn spec_is_structured(t: FileType) -> bool {
    t == FileType::Csv || t == FileType::Tsv
}

pub open spec fn spec_is_tabular(t: FileType) -> bool {
    t == FileType::Csv || t == FileType::Tsv || t == FileType::Excel
}

impl FileType {
    /// True for the delimited record formats (CSV and TSV).
    pub fn is_structured(&self) -> (r: bool)
        ensures
            r == spec_is_structured(*self),
    {
        match self {
            FileType::Csv | FileType::Tsv => true,
            _ => false,
        }
    }

    /// True for every record format: CSV, TSV and spreadsheets.
    pub fn is_tabular(&self) -> (r: bool)
        ensures
            r == spec_is_tabular(*self),
    {
        match self {
            FileType::Csv | FileType::Tsv | FileType::Excel => true,
            _ => false,
        }
    }
}

/// A fraction `num / den`, used for every similarity score.
#[derive(Debug, Clone, Copy, PartialEq, Eq, Structural)]
pub struct Ratio {
    pub num: u64,
    pub den: u64,
}

impl Ratio {
    /// A score in `[0, 1]` with a positive denominator.
    pub open spec fn wf(self) -> bool {
        self.den > 0 && self.num <= self.den
    }

    /// `self >= other` as rational numbers.
    pub open spec fn spec_ge(self, other: Ratio) -> bool {
        self.num as int * other.den as int >= other.num as int * self.den as int
    }

    /// `self == other` as rational numbers.
    pub open spec fn spec_same(self, other: Ratio) -> bool {
        self.num as int * other.den as int == other.num as int * self.den as int
    }

    pub fn one() -> (r: Ratio)
        ensures
            r == (Ratio { num: 1, den: 1 }),
    {
        Ratio { num: 1, den: 1 }
    }

    pub fn zero() -> (r: Ratio)
        ensures
            r == (Ratio { num: 0, den: 1 }),
    {
        Ratio { num: 0, den: 1 }
    }

    /// Compares two fractions exactly.
    pub fn ge(&self, other: &Ratio) -> (r: bool)
        ensures
            r == self.spec_ge(*other),
    {
        proof {
            lemma_u64_product_fits(self.num, other.den);
            lemma_u64_product_fits(other.num, self.den);
        }
        let a = self.num as u128 * other.den as u128;
        let b = other.num as u128 * self.den as u128;
        a >= b
    }
}

/// The product of two `u64` values fits in a `u128`.
pub proof fn lemma_u64_product_fits(a: u64, b: u64)
    ensures
        0 <= a as int * b as int <= u128::MAX as int,
{
    assert(0 <= a as int * b as int <= u64::MAX as int * u64::MAX as int) by (nonlinear_arith)
        requires
            a <= u64::MAX,
            b <= u64::MAX,
    ;
}

/// One discovered file.
#[derive(Debug, Clone, PartialEq)]
pub struct FileEntry {
    /// Path of the file as given to the reader.
    pub path: String,
    /// Path below the indexed root, with `/` between components.
    pub relative_path: String,
    /// Size in bytes.
    pub size: u64,
    pub file_type: FileType,
    /// Lower-case extension without the dot.
    pub extension: String,
    /// Hex digest of the content; empty until fingerprinted.
    pub content_hash: String,
    /// Similarity fingerprint of the normalised text.
    pub simhash: Option<u64>,
    /// Digest of the sorted header columns, for tabular files.
    pub schema_signature: Option<String>,
    /// Lines of a text file, or data rows of a tabular one.
    pub line_count: usize,
    /// Header columns of a tabular file.
    pub columns: Option<Vec<String>>,
}

/// What a [`FileEntry`] holds, as plain values.
pub struct FileEntryView {
    pub path: Seq<char>,
    pub relative_path: Seq<char>,
    pub size: u64,
    pub file_type: FileType,
    pub extension: Seq<char>,
    pub content_hash: Seq<char>,
    pub simhash: Option<u64>,
    pub schema_signature: Option<Seq<char>>,
    pub line_count: usize,
    pub columns: Option<Seq<String>>,
}

impl View for FileEntry {
    type V = FileEntryView;

    open spec fn view(&self) -> FileEntryView {
        FileEntryView {
            path: self.path@,
            relative_path: self.relative_path@,
            size: self.size,
            file_type: self.file_type,
            extension: self.extension@,
            content_hash: self.content_hash@,
            simhash: self.simhash,
            schema_signature: match self.schema_signature {
                Some(s) => Some(s@),
                None => None,
            },
            line_count: self.line_count,
            columns: match self.columns {
                Some(c) => Some(c@),
                None => None,
            },
        }
    }
}

/// Copies a list of strings element by element.
pub fn copy_strings(v: &Vec<String>) -> (r: Vec<String>)
    ensures
        r@ == v@,
{
    let mut r: Vec<String> = Vec::new();
    for i in 0..v.len()
        invariant
            r@ == v@.take(i as int),
    {
        r.push(v[i].clone());
        assert(r@ =~= v@.take(i + 1));
    }
    assert(r@ =~= v@);
    r
}

impl FileEntry {
    /// A copy of this entry with the same view.
    pub fn copy(&self) -> (r: FileEntry)
        ensures
            r@ == self@,
    {
        let schema_signature = match &self.schema_signature {
            Some(s) => Some(s.clone()),
            None => None,
        };
        let columns = match &self.columns {
            Some(c) => Some(copy_strings(c)),
            None => None,
        };
        FileEntry {
            path: self.path.clone(),
            relative_path: self.relative_path.clone(),
            size: self.size,
            file_type: self.file_type,
            extension: self.extension.clone(),
            content_hash: self.content_hash.clone(),
            simhash: self.simhash,
            schema_signature,
            line_count: self.line_count,
            columns,
        }
    }
}

/// Two files chosen for comparison, with their estimated similarity.
#[derive(Debug, Clone, PartialEq)]
pub struct CandidatePair {
    pub file1: FileEntry,
    pub file2: FileEntry,
    /// Fingerprint estimate in `[0, 1]`.
    pub estimated_similarity: Ratio,
    /// Both content hashes are present and equal.
    pub exact_hash_match: bool,
}

impl CandidatePair {
    /// A copy of this pair with the same view.
    pub fn copy(&self) -> (r: CandidatePair)
        ensures
            r@ == self@,
    {
        CandidatePair {
            file1: self.file1.copy(),
            file2: self.file2.copy(),
            estimated_similarity: self.estimated_similarity,
            exact_hash_match: self.exact_hash_match,
        }
    }
}

/// What a [`CandidatePair`] holds, as plain values.
pub struct CandidateView {
    pub file1: FileEntryView,
    pub file2: FileEntryView,
    pub estimated_similarity: Ratio,
    pub exact_hash_match: bool,
}

impl View for CandidatePair {
    type V = CandidateView;

    open spec fn view(&self) -> CandidateView {
        CandidateView {
            file1: self.file1@,
            file2: self.file2@,
            estimated_similarity: self.estimated_similarity,
            exact_hash_match: self.exact_hash_match,
        }
    }
}

/// The views of a list of entries.
pub open spec fn entries_view(v: Seq<FileEntry>) -> Seq<FileEntryView> {
    v.map_values(|e: FileEntry| e@)
}

/// The views of a list of pairs.
pub open spec fn pairs_view(v: Seq<CandidatePair>) -> Seq<CandidateView> {
    v.map_values(|p: CandidatePair| p@)
}

/// Comparison backend selection.
#[derive(Debug, Clone, Copy, PartialEq, Eq, Structural)]
pub enum CompareMode {
    /// Structured when both sides are tabular, text otherwise.
    Auto,
    Text,
    Structured,
}

/// Similarity score of the text backend.
#[derive(Debug, Clone, Copy, PartialEq, Eq, Structural)]
pub enum SimilarityAlgorithm {
    /// `common / (common + only_in_1 + only_in_2)` over the line diff.
    Diff,
    /// Jaro-Winkler over the whole text.
    CharJaro,
    /// Normalised Levenshtein over the whole text.
    Levenshtein,
    /// Normalised Damerau-Levenshtein over the whole text.
    DamerauLevenshtein,
    /// Sorensen-Dice over character bigrams.
    SorensenDice,
    /// Jaccard over unique lower-cased tokens.
    Jaccard,
    /// Cosine over token frequency vectors.
    Cosine,
    /// Ratio `2M / T` of the line diff.
    RatcliffObershelp,
    /// Local alignment of lines, scores +2 / -1 / -1.
    SmithWaterman,
    /// Longest common subsequence of lines over the longer length.
    Lcs,
    /// Equal lines at equal positions over the longer length.
    Hamming,
    /// Jaccard over the byte trigrams of the text that are whole UTF-8 characters.
    NGram,
    /// Cosine over TF-IDF weighted tokens.
    TfIdf,
}

/// How files of the two sides are paired.
#[derive(Debug, Clone, Copy, PartialEq, Eq, Structural)]
pub enum PairingStrategy {
    /// Equal paths below the two roots.
    SamePath,
    /// Equal file names.
    SameName,
    /// Exact hashes first, then the most similar candidates.
    AllVsAll,
}

/// Text normalisation applied before fingerprinting and diffing.
#[derive(Debug, Clone, Copy, PartialEq, Eq, Structural)]
pub struct NormalizationOptions {
    /// Line endings are always normalised; kept for callers that set it.
    pub ignore_eol: bool,
    /// Remove trailing whitespace from each line.
    pub ignore_trailing_ws: bool,
    /// Collapse each run of whitespace to one space.
    pub ignore_all_ws: bool,
    /// Compare lower-cased lines.
    pub ignore_case: bool,
    /// Drop lines that hold only whitespace.
    pub skip_empty_lines: bool,
}

impl NormalizationOptions {
    pub fn new() -> (r: NormalizationOptions)
        ensures
            !r.ignore_eol && !r.ignore_trailing_ws && !r.ignore_all_ws && !r.ignore_case
                && !r.skip_empty_lines,
    {
        NormalizationOptions {
            ignore_eol: false,
            ignore_trailing_ws: false,
            ignore_all_ws: false,
            ignore_case: false,
            skip_empty_lines: false,
        }
    }
}

/// Result of the line-diff backend.
#[derive(Debug, Clone, PartialEq)]
pub struct TextComparisonResult {
    /// `<hash1 prefix>:<hash2 prefix>`.
    pub linked_id: String,
    pub file1_path: String,
    pub file2_path: String,
    /// Normalised line counts.
    pub file1_line_count: usize,
    pub file2_line_count: usize,
    pub common_lines: usize,
    pub only_in_file1: usize,
    pub only_in_file2: usize,
    pub similarity_score: Ratio,
    /// Change indices as runs, e.g. `1-5,8`.
    pub different_positions: String,
    /// Unified diff text, bounded by the configured byte cap.
    pub detailed_diff: String,
    pub diff_truncated: bool,
    pub identical: bool,
}

/// Aggregate of the mismatches of one column.
#[derive(Debug, Clone, PartialEq)]
pub struct ColumnMismatch {
    pub column_name: String,
    /// Records whose values differ in this column.
    pub mismatch_count: usize,
    /// The first five of them.
    pub sample_mismatches: Vec<FieldMismatch>,
}

/// One record whose values differ in a column.
#[derive(Debug, Clone, PartialEq)]
pub struct FieldMismatch {
    /// Key of the record.
    pub key: String,
    pub value1: String,
    pub value2: String,
}

/// Result of the keyed record join backend.
#[derive(Debug, Clone, PartialEq)]
pub struct StructuredComparisonResult {
    pub linked_id: String,
    pub file1_path: String,
    pub file2_path: String,
    /// Data rows, header excluded.
    pub file1_row_count: usize,
    pub file2_row_count: usize,
    pub common_records: usize,
    pub only_in_file1: usize,
    pub only_in_file2: usize,
    pub similarity_score: Ratio,
    pub field_mismatches: Vec<ColumnMismatch>,
    pub total_field_mismatches: usize,
    pub columns_only_in_file1: Vec<String>,
    pub columns_only_in_file2: Vec<String>,
    pub common_columns: Vec<String>,
    pub identical: bool,
}

/// Outcome of comparing one pair.
#[derive(Debug, Clone, PartialEq)]
pub enum ComparisonResult {
    Text(TextComparisonResult),
    Structured(StructuredComparisonResult),
    /// Binary files: only hash equality is known.
    HashOnly {
        linked_id: String,
        file1_path: String,
        file2_path: String,
        file1_size: u64,
        file2_size: u64,
        identical: bool,
    },
    /// The comparison failed.
    Error { file1_path: String, file2_path: String, error: String },
}

/// Totals over the results of a run.
#[derive(Debug, Clone, PartialEq)]
pub struct ComparisonSummary {
    pub total_files_set1: usize,
    pub total_files_set2: usize,
    pub pairs_compared: usize,
    pub identical_pairs: usize,
    pub different_pairs: usize,
    pub error_pairs: usize,
    /// Mean score of the results that are not errors, at `10^-9` resolution.
    pub average_similarity: Ratio,
    pub min_similarity: Ratio,
    pub max_similarity: Ratio,
}

/// Tolerance of the numeric field comparison, in units of `10^-9`.
#[derive(Debug, Clone, Copy, PartialEq, Eq, Structural)]
pub struct Tolerance {
    pub billionths: u64,
}

/// One unit: a tolerance of 1.
pub const TOLERANCE_ONE: u64 = 1000000000;

impl Tolerance {
    /// A tolerance in `[0, 1]`.
    pub open spec fn wf(self) -> bool {
        self.billionths <= TOLERANCE_ONE
    }
}

/// Options of one comparison run.
#[derive(Debug, Clone)]
pub struct CompareConfig {
    pub mode: CompareMode,
    pub pairing: PairingStrategy,
    /// Candidates kept per left file in all-vs-all pairing.
    pub top_k: usize,
    /// Ceiling on the number of pairs after sorting by estimate.
    pub max_pairs: Option<usize>,
    /// Key columns of the record join; empty means the first column.
    pub key_columns: Vec<String>,
    /// Absolute and relative tolerance of numeric fields.
    pub numeric_tolerance: Tolerance,
    pub normalization: NormalizationOptions,
    pub similarity_algorithm: SimilarityAlgorithm,
    /// Cap on the bytes of detailed and unified diff text.
    pub max_diff_bytes: usize,
    pub output_jsonl: Option<String>,
    pub output_csv: Option<String>,
    pub output_dir: Option<String>,
    pub verbose: bool,
    /// Glob patterns of paths left out of indexing.
    pub exclude_patterns: Vec<String>,
    /// Columns hidden from the record comparison.
    pub ignore_columns: Vec<String>,
    /// Text matched by this pattern is replaced before diffing.
    pub ignore_regex: Option<String>,
    /// Directory under which each run gets its own directory.
    pub results_base: String,
    /// Run directory to use as it is, instead of a new one.
    pub output_root: Option<String>,
    /// Files above this size get no similarity fingerprint.
    pub max_fingerprint_size: Option<u64>,
}

/// Default ceiling on diff text: one mebibyte.
pub const DEFAULT_MAX_DIFF_BYTES: usize = 1048576;

/// Default numeric tolerance, `10^-4`.
pub const DEFAULT_TOLERANCE: u64 = 100000;

/// Default number of candidates per left file.
pub const DEFAULT_TOP_K: usize = 3;

impl Default for CompareConfig {
    fn default() -> (r: CompareConfig)
        ensures
            r.mode == CompareMode::Auto,
            r.pairing == PairingStrategy::AllVsAll,
            r.top_k == DEFAULT_TOP_K,
            r.max_pairs is None,
            r.normalization == (NormalizationOptions {
                ignore_eol: false,
                ignore_trailing_ws: false,
                ignore_all_ws: false,
                ignore_case: false,
                skip_empty_lines: false,
            }),
            r.output_jsonl is None,
            r.output_csv is None,
            r.output_dir is None,
            r.results_base@ == "results"@,
            r.key_columns@.len() == 0,
            r.numeric_tolerance.billionths == DEFAULT_TOLERANCE,
            r.similarity_algorithm == SimilarityAlgorithm::Diff,
            r.max_diff_bytes == DEFAULT_MAX_DIFF_BYTES,
            r.exclude_patterns@.len() == 0,
            r.ignore_columns@.len() == 0,
            r.ignore_regex is None,
            r.output_root is None,
            r.max_fingerprint_size is None,
            !r.verbose,
    {
        CompareConfig {
            mode: CompareMode::Auto,
            pairing: PairingStrategy::AllVsAll,
            top_k: DEFAULT_TOP_K,
            max_pairs: None,
            key_columns: Vec::new(),
            numeric_tolerance: Tolerance { billionths: DEFAULT_TOLERANCE },
            normalization: NormalizationOptions::new(),
            similarity_algorithm: SimilarityAlgorithm::Diff,
            max_diff_bytes: DEFAULT_MAX_DIFF_BYTES,
            output_jsonl: None,
            output_csv: None,
            output_dir: None,
            verbose: false,
            exclude_patterns: Vec::new(),
            ignore_columns: Vec::new(),
            ignore_regex: None,
            results_base: "results".to_owned(),
            output_root: None,
            max_fingerprint_size: None,
        }
    }
}

} // verus!
