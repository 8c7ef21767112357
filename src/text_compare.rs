//! The line-diff comparison of two text files.

use vstd::prelude::*;
use crate::lines::{lines_view, normalize_text, spec_normalized_lines};
use crate::ranges::{encode_ranges, lemma_ranges_round_trip, spec_decode_ranges, spec_encode_ranges};
use crate::results::{make_linked_id, spec_linked_id};
use crate::scores::{is_external_algorithm, spec_text_similarity, text_similarity};
use crate::strs::{chars_of, string_from_chars};
use crate::textdiff::{
    change_positions, count_tag, diff_hunks, diff_lines, hunk_lines_view, hunks_view,
    lemma_walk_counts, myers_script, unified_hunks, walks, DiffTag, Hunk,
};
use crate::types::{
    CompareConfig, FileEntry, NormalizationOptions, Ratio, SimilarityAlgorithm, TextComparisonResult,
};

verus! {

pub open spec fn tag_prefix(t: DiffTag) -> char {
    match t {
        DiffTag::Delete => '-',
        DiffTag::Insert => '+',
        DiffTag::Equal => ' ',
    }
}

/// The lines of one hunk, each with its prefix and a newline.
pub open spec fn hunk_body(ls: Seq<(DiffTag, Seq<char>)>) -> Seq<char>
    decreases ls.len(),
{
    if ls.len() == 0 {
        Seq::empty()
    } else {
        hunk_body(ls.drop_last()) + seq![tag_prefix(ls.last().0)] + ls.last().1 + seq!['\n']
    }
}

/// Each hunk header on its own line, followed by the hunk's lines.
pub open spec fn hunks_text(hs: Seq<(Seq<char>, Seq<(DiffTag, Seq<char>)>)>) -> Seq<char>
    decreases hs.len(),
{
    if hs.len() == 0 {
        Seq::empty()
    } else {
        hunks_text(hs.drop_last()) + hs.last().0 + seq!['\n'] + hunk_body(hs.last().1)
    }
}

/// The unified diff text: `--- name1`, `+++ name2`, then the hunks; empty
/// when there is no hunk.
pub open spec fn unified_text(
    n1: Seq<char>,
    n2: Seq<char>,
    hs: Seq<(Seq<char>, Seq<(DiffTag, Seq<char>)>)>,
) -> Seq<char> {
    if hs.len() == 0 {
        Seq::empty()
    } else {
        seq!['-', '-', '-', ' '] + n1 + seq!['\n'] + seq!['+', '+', '+', ' '] + n2 + seq!['\n']
            + hunks_text(hs)
    }
}

fn append_str(out: &mut Vec<char>, s: &str)
    ensures
        final(out)@ == old(out)@ + s@,
{
    let cs = chars_of(s);
    let ghost o0 = out@;
    for i in 0..cs.len()
        invariant
            cs@ == s@,
            out@ == o0 + cs@.take(i as int),
    {
        out.push(cs[i]);
        assert(out@ =~= o0 + cs@.take(i + 1));
    }
    assert(cs@.take(cs.len() as int) =~= cs@);
}

fn prefix_of(t: DiffTag) -> (c: char)
    ensures
        c == tag_prefix(t),
{
    match t {
        DiffTag::Delete => '-',
        DiffTag::Insert => '+',
        DiffTag::Equal => ' ',
    }
}

/// Renders the unified diff, stopping once `max_bytes` bytes are written;
/// returns the text and whether it was cut short.
pub fn render_unified(name1: &str, name2: &str, hunks: &Vec<Hunk>, max_bytes: usize) -> (r: (
    String,
    bool,
))
    ensures
        hunks@.len() == 0 ==> r.0@.len() == 0 && !r.1,
        !r.1 ==> r.0@ == unified_text(name1@, name2@, hunks_view(hunks@)),
{
    if hunks.len() == 0 {
        return (string_from_chars(&Vec::new()), false);
    }
    let ghost hv = hunks_view(hunks@);
    let mut out: Vec<char> = Vec::new();
    out.push('-');
    out.push('-');
    out.push('-');
    out.push(' ');
    append_str(&mut out, name1);
    out.push('\n');
    out.push('+');
    out.push('+');
    out.push('+');
    out.push(' ');
    append_str(&mut out, name2);
    out.push('\n');
    let ghost head = out@;
    assert(head =~= seq!['-', '-', '-', ' '] + name1@ + seq!['\n'] + seq!['+', '+', '+', ' ']
        + name2@ + seq!['\n']);
    let mut bytes: usize = 10;
    bytes = bytes.saturating_add(name1.len());
    bytes = bytes.saturating_add(name2.len());
    let mut truncated = false;
    let mut h: usize = 0;
    while h < hunks.len() && !truncated
        invariant
            hv == hunks_view(hunks@),
            h <= hunks.len(),
            !truncated ==> out@ == head + hunks_text(hv.take(h as int)),
        decreases hunks.len() - h + (if truncated { 0int } else { 1int }),
    {
        if bytes >= max_bytes {
            truncated = true;
        } else {
            let hk = &hunks[h];
            let ghost o0 = out@;
            append_str(&mut out, hk.header.as_str());
            out.push('\n');
            bytes = bytes.saturating_add(hk.header.as_str().len()).saturating_add(1);
            let ghost lv = hunk_lines_view(hk.lines@);
            let ghost o1 = out@;
            let mut k: usize = 0;
            while k < hk.lines.len() && !truncated
                invariant
                    lv == hunk_lines_view(hk.lines@),
                    k <= hk.lines.len(),
                    !truncated ==> out@ == o1 + hunk_body(lv.take(k as int)),
                decreases hk.lines.len() - k + (if truncated { 0int } else { 1int }),
            {
                if bytes >= max_bytes {
                    truncated = true;
                } else {
                    let line = &hk.lines[k];
                    let ghost o2 = out@;
                    out.push(prefix_of(line.tag));
                    append_str(&mut out, line.text.as_str());
                    out.push('\n');
                    bytes = bytes.saturating_add(line.text.as_str().len()).saturating_add(2);
                    assert(lv.take(k + 1).drop_last() =~= lv.take(k as int));
                    assert(lv.take(k + 1).last() == lv[k as int]);
                    assert(out@ =~= o1 + hunk_body(lv.take(k + 1)));
                    k += 1;
                }
            }
            if !truncated {
                assert(lv.take(k as int) =~= lv);
                assert(hv.take(h + 1).drop_last() =~= hv.take(h as int));
                assert(hv.take(h + 1).last() == hv[h as int]);
                assert(out@ =~= head + hunks_text(hv.take(h + 1)));
            }
            h += 1;
        }
    }
    if truncated {
        let marker = chars_of("\n... [diff truncated] ...\n");
        let mut i: usize = 0;
        while i < marker.len()
            invariant
                i <= marker.len(),
            decreases marker.len() - i,
        {
            out.push(marker[i]);
            i += 1;
        }
    } else {
        assert(hv.take(h as int) =~= hv);
    }
    (string_from_chars(&out), truncated)
}

} // verus!

verus! {

/// Counts, positions and the `-`/`+` buffer's overflow flag of a diff.
struct DiffTally {
    common: usize,
    only1: usize,
    only2: usize,
    positions: Vec<usize>,
    truncated: bool,
}

proof fn lemma_change_positions_step(tags: Seq<DiffTag>, k: int)
    requires
        0 <= k < tags.len(),
    ensures
        change_positions(tags.take(k + 1)) == if tags[k] != DiffTag::Equal {
            change_positions(tags.take(k)).push(k as usize)
        } else {
            change_positions(tags.take(k))
        },
{
    assert(tags.take(k + 1).drop_last() =~= tags.take(k));
    assert(tags.take(k + 1).last() == tags[k]);
}

proof fn lemma_count_step(tags: Seq<DiffTag>, k: int, t: DiffTag)
    requires
        0 <= k < tags.len(),
    ensures
        count_tag(tags.take(k + 1), t) == count_tag(tags.take(k), t) + if tags[k] == t {
            1nat
        } else {
            0nat
        },
{
    assert(tags.take(k + 1).drop_last() =~= tags.take(k));
    assert(tags.take(k + 1).last() == tags[k]);
}

/// Walks the diff once: counts the three kinds of change, collects the
/// change positions, and tracks whether the `-`/`+` buffer would exceed
/// `max_bytes`.
fn tally(tags: &Vec<DiffTag>, a: &Vec<String>, b: &Vec<String>, max_bytes: usize) -> (r: DiffTally)
    requires
        walks(tags@, lines_view(a@), lines_view(b@)),
    ensures
        r.common == count_tag(tags@, DiffTag::Equal),
        r.only1 == count_tag(tags@, DiffTag::Delete),
        r.only2 == count_tag(tags@, DiffTag::Insert),
        r.positions@ == change_positions(tags@),
        (forall|k: int| 0 <= k < tags@.len() ==> tags@[k] == DiffTag::Equal) ==> !r.truncated,
{
    let ghost av = lines_view(a@);
    let ghost bv = lines_view(b@);
    let ghost tv = tags@;
    let mut common: usize = 0;
    let mut only1: usize = 0;
    let mut only2: usize = 0;
    let mut positions: Vec<usize> = Vec::new();
    let mut truncated = false;
    let mut bytes: usize = 0;
    let mut i: usize = 0;
    let mut j: usize = 0;
    assert(tv.skip(0) =~= tv);
    assert(av.skip(0) =~= av);
    assert(bv.skip(0) =~= bv);
    for k in 0..tags.len()
        invariant
            tv == tags@,
            av == lines_view(a@),
            bv == lines_view(b@),
            i <= a.len(),
            j <= b.len(),
            walks(tv.skip(k as int), av.skip(i as int), bv.skip(j as int)),
            common == count_tag(tv.take(k as int), DiffTag::Equal),
            only1 == count_tag(tv.take(k as int), DiffTag::Delete),
            only2 == count_tag(tv.take(k as int), DiffTag::Insert),
            common + only1 + only2 == k,
            positions@ == change_positions(tv.take(k as int)),
            truncated ==> exists|q: int| 0 <= q < k && tv[q] != DiffTag::Equal,
    {
        let ghost rest = tv.skip(k as int);
        assert(rest[0] == tv[k as int]);
        assert(rest.drop_first() =~= tv.skip(k + 1));
        proof {
            lemma_count_step(tv, k as int, DiffTag::Equal);
            lemma_count_step(tv, k as int, DiffTag::Delete);
            lemma_count_step(tv, k as int, DiffTag::Insert);
            lemma_change_positions_step(tv, k as int);
        }
        match tags[k] {
            DiffTag::Equal => {
                assert(av.skip(i as int).drop_first() =~= av.skip(i + 1));
                assert(bv.skip(j as int).drop_first() =~= bv.skip(j + 1));
                common += 1;
                i += 1;
                j += 1;
            },
            DiffTag::Delete => {
                assert(av.skip(i as int).drop_first() =~= av.skip(i + 1));
                only1 += 1;
                positions.push(k);
                if bytes < max_bytes {
                    bytes = bytes.saturating_add(a[i].as_str().len()).saturating_add(1);
                } else {
                    truncated = true;
                }
                i += 1;
            },
            DiffTag::Insert => {
                assert(bv.skip(j as int).drop_first() =~= bv.skip(j + 1));
                only2 += 1;
                positions.push(k);
                if bytes < max_bytes {
                    bytes = bytes.saturating_add(b[j].as_str().len()).saturating_add(1);
                } else {
                    truncated = true;
                }
                j += 1;
            },
        }
    }
    assert(tv.take(tags.len() as int) =~= tv);
    DiffTally { common, only1, only2, positions, truncated }
}

/// The exact outcome of a text comparison, given the normalised lines.
pub open spec fn text_result_matches(
    r: TextComparisonResult,
    file1: FileEntry,
    file2: FileEntry,
    a: Seq<Seq<char>>,
    b: Seq<Seq<char>>,
    config: CompareConfig,
    given: Ratio,
) -> bool {
    let tags = myers_script(a, b);
    &&& r.linked_id@ == spec_linked_id(file1.content_hash@, file2.content_hash@)
    &&& r.file1_path@ == file1.path@
    &&& r.file2_path@ == file2.path@
    &&& r.file1_line_count == a.len()
    &&& r.file2_line_count == b.len()
    &&& r.common_lines == count_tag(tags, DiffTag::Equal)
    &&& r.only_in_file1 == count_tag(tags, DiffTag::Delete)
    &&& r.only_in_file2 == count_tag(tags, DiffTag::Insert)
    &&& r.similarity_score == spec_text_similarity(config.similarity_algorithm, a, b, tags, given)
    &&& r.different_positions@ == spec_encode_ranges(change_positions(tags))
    &&& r.identical == (r.only_in_file1 == 0 && r.only_in_file2 == 0)
    &&& r.identical == (a == b)
    &&& (r.identical ==> r.different_positions@.len() == 0)
    &&& r.common_lines + r.only_in_file1 == a.len()
    &&& r.common_lines + r.only_in_file2 == b.len()
    &&& spec_decode_ranges(r.different_positions@).len() == r.only_in_file1 + r.only_in_file2
    &&& (a == b && !is_external_algorithm(config.similarity_algorithm)
        ==> r.similarity_score.num == r.similarity_score.den)
    &&& r.similarity_score.wf()
    &&& (r.identical ==> r.detailed_diff@.len() == 0 && !r.diff_truncated)
    &&& (!r.diff_truncated ==> r.detailed_diff@ == unified_text(
        file1.path@,
        file2.path@,
        unified_hunks(a, b),
    ))
}

/// Compares two lists of normalised lines with a Myers line diff.
/// `given` is the score of the algorithms that the caller computes.
pub fn compare_text_lines(
    file1: &FileEntry,
    file2: &FileEntry,
    lines1: &Vec<String>,
    lines2: &Vec<String>,
    config: &CompareConfig,
    given: Ratio,
) -> (r: TextComparisonResult)
    requires
        lines1.len() + lines2.len() <= usize::MAX,
        given.wf(),
    ensures
        text_result_matches(r, *file1, *file2, lines_view(lines1@), lines_view(lines2@), *config, given),
        lines_view(lines1@) == lines_view(lines2@) ==> r.identical && r.detailed_diff@.len() == 0
            && !r.diff_truncated && r.only_in_file1 == 0 && r.only_in_file2 == 0 && r.common_lines
            == lines1.len(),
        lines_view(lines1@) == lines_view(lines2@) && !is_external_algorithm(
            config.similarity_algorithm,
        ) ==> r.similarity_score.num == r.similarity_score.den,
        lines1.len() == 0 ==> r.common_lines == 0 && r.only_in_file2 == lines2.len(),
        lines1.len() == 0 && lines2.len() > 0 && config.similarity_algorithm
            == SimilarityAlgorithm::Diff ==> r.similarity_score.num == 0,
{
    let ghost av = lines_view(lines1@);
    let ghost bv = lines_view(lines2@);
    let tags = diff_lines(lines1, lines2);
    let t = tally(&tags, lines1, lines2, config.max_diff_bytes);
    proof {
        lemma_walk_counts(tags@, av, bv);
    }
    let similarity_score = text_similarity(config.similarity_algorithm, lines1, lines2, &tags, given);
    proof {
        if av == bv {
            lemma_all_equal_counts(tags@);
        }
    }
    let hunks = diff_hunks(lines1, lines2);
    let identical = t.only1 == 0 && t.only2 == 0;
    proof {
        if identical {
            lemma_no_changes_same(tags@, av, bv);
        }
        lemma_positions_len(tags@);
        lemma_ranges_round_trip(change_positions(tags@));
    }
    let (unified, unified_truncated) = render_unified(
        file1.path.as_str(),
        file2.path.as_str(),
        &hunks,
        config.max_diff_bytes,
    );
    let detailed_diff = if unified.as_str().is_empty() {
        string_from_chars(&Vec::new())
    } else {
        unified
    };
    TextComparisonResult {
        linked_id: make_linked_id(file1.content_hash.as_str(), file2.content_hash.as_str()),
        file1_path: file1.path.clone(),
        file2_path: file2.path.clone(),
        file1_line_count: lines1.len(),
        file2_line_count: lines2.len(),
        common_lines: t.common,
        only_in_file1: t.only1,
        only_in_file2: t.only2,
        similarity_score,
        different_positions: encode_ranges(t.positions.as_slice()),
        detailed_diff,
        diff_truncated: t.truncated || unified_truncated,
        identical,
    }
}

/// One position per deletion or insertion.
proof fn lemma_positions_len(tags: Seq<DiffTag>)
    ensures
        change_positions(tags).len() == count_tag(tags, DiffTag::Delete) + count_tag(
            tags,
            DiffTag::Insert,
        ),
    decreases tags.len(),
{
    if tags.len() > 0 {
        lemma_positions_len(tags.drop_last());
    }
}

/// A diff of equal changes only has no deletion or insertion.
proof fn lemma_all_equal_counts(tags: Seq<DiffTag>)
    requires
        forall|k: int| 0 <= k < tags.len() ==> tags[k] == DiffTag::Equal,
    ensures
        count_tag(tags, DiffTag::Delete) == 0,
        count_tag(tags, DiffTag::Insert) == 0,
    decreases tags.len(),
{
    if tags.len() > 0 {
        lemma_all_equal_counts(tags.drop_last());
    }
}

/// A diff without deletions or insertions pairs equal lines only, so the
/// two lists are equal and every change is equal.
proof fn lemma_no_changes_same(tags: Seq<DiffTag>, a: Seq<Seq<char>>, b: Seq<Seq<char>>)
    requires
        walks(tags, a, b),
        count_tag(tags, DiffTag::Delete) == 0,
        count_tag(tags, DiffTag::Insert) == 0,
    ensures
        a == b,
        forall|k: int| 0 <= k < tags.len() ==> tags[k] == DiffTag::Equal,
    decreases tags.len(),
{
    if tags.len() == 0 {
        assert(a =~= b);
    } else {
        crate::textdiff::lemma_count_front(tags, DiffTag::Delete);
        crate::textdiff::lemma_count_front(tags, DiffTag::Insert);
        lemma_no_changes_same(tags.drop_first(), a.drop_first(), b.drop_first());
        assert(a =~= seq![a[0]] + a.drop_first());
        assert(b =~= seq![b[0]] + b.drop_first());
        assert forall|k: int| 0 <= k < tags.len() implies tags[k] == DiffTag::Equal by {
            if k > 0 {
                assert(tags[k] == tags.drop_first()[k - 1]);
            }
        }
    }
}

} // verus!

verus! {

#[verifier::external_type_specification]
#[verifier::external_body]
pub struct ExRegex(regex::Regex);

/// Ceiling on the compiled size of an ignore pattern, in bytes.
pub const REGEX_SIZE_LIMIT: usize = 1000000;

/// What an ignore pattern's matches become.
pub const IGNORED_TOKEN: &'static str = "<IGNORED>";

/// A compiled ignore pattern together with its source text.
pub struct IgnorePattern {
    source: String,
    regex: regex::Regex,
}

impl IgnorePattern {
    /// The pattern text that was compiled.
    pub closed spec fn source(&self) -> Seq<char> {
        self.source@
    }

    /// The pattern text that was compiled.
    pub fn source_text(&self) -> (r: &str)
        ensures
            r@ == self.source(),
    {
        self.source.as_str()
    }
}

/// Whether `regex` compiles a pattern within the given size limit.
pub uninterp spec fn regex_builds(pattern: Seq<char>, limit: nat) -> bool;

/// A line with every match of a pattern replaced by `with`, as `regex`
/// computes it.
pub uninterp spec fn regex_replaced(pattern: Seq<char>, line: Seq<char>, with: Seq<char>) -> Seq<char>;

/// Relies on `regex::RegexBuilder` with `size_limit` and `dfa_size_limit`:
/// `build` succeeds or fails depending on the pattern and the limit alone,
/// and never panics.
#[verifier::external_body]
fn compile_bounded(pattern: &str, limit: usize) -> (r: Option<IgnorePattern>)
    ensures
        r is Some <==> regex_builds(pattern@, limit as nat),
        r matches Some(p) ==> p.source() == pattern@,
{
    let built = regex::RegexBuilder::new(pattern).size_limit(limit).dfa_size_limit(limit).build();
    built.ok().map(|regex| IgnorePattern { source: pattern.to_string(), regex })
}

/// Relies on `regex::Regex::replace_all`: every match in `line` is replaced
/// by `with` (which holds no `$`, so it is taken literally); the result
/// depends on the pattern, the line and `with` alone.
#[verifier::external_body]
fn replace_matches(p: &IgnorePattern, line: &str, with: &str) -> (r: String)
    ensures
        r@ == regex_replaced(p.source(), line@, with@),
{
    p.regex.replace_all(line, with).into_owned()
}

/// Compiles the ignore pattern with a bounded automaton size; an invalid
/// or oversized pattern yields `None` and is dropped.
pub fn compile_ignore_regex(pattern: &str) -> (r: Option<IgnorePattern>)
    ensures
        r is Some <==> regex_builds(pattern@, REGEX_SIZE_LIMIT as nat),
        r matches Some(p) ==> p.source() == pattern@,
{
    compile_bounded(pattern, REGEX_SIZE_LIMIT)
}

/// The lines with every match of `pattern` replaced by `<IGNORED>`.
pub open spec fn masked_lines(ls: Seq<Seq<char>>, pattern: Seq<char>) -> Seq<Seq<char>> {
    ls.map_values(|l: Seq<char>| regex_replaced(pattern, l, IGNORED_TOKEN@))
}

/// Replaces the matches of the pattern in every line by `<IGNORED>`.
pub fn apply_regex_filter(lines: &Vec<String>, p: &IgnorePattern) -> (r: Vec<String>)
    ensures
        lines_view(r@) == masked_lines(lines_view(lines@), p.source()),
{
    let ghost lv = lines_view(lines@);
    let mut r: Vec<String> = Vec::new();
    for i in 0..lines.len()
        invariant
            lv == lines_view(lines@),
            lines_view(r@) == masked_lines(lv.take(i as int), p.source()),
    {
        let ghost r0 = lines_view(r@);
        r.push(replace_matches(p, lines[i].as_str(), IGNORED_TOKEN));
        assert(lines_view(r@) =~= r0.push(regex_replaced(p.source(), lv[i as int], IGNORED_TOKEN@)));
        assert(masked_lines(lv.take(i + 1), p.source()) =~= masked_lines(lv.take(i as int), p.source()).push(
            regex_replaced(p.source(), lv[i as int], IGNORED_TOKEN@),
        ));
    }
    assert(lv.take(lines.len() as int) =~= lv);
    r
}

/// The lines of a text as the comparison sees them: normalised, then, when
/// an ignore pattern is given and compiles, with its matches replaced.
pub open spec fn spec_prepared(
    t: Seq<char>,
    opts: NormalizationOptions,
    pattern: Option<Seq<char>>,
) -> Seq<Seq<char>> {
    let n = spec_normalized_lines(t, opts);
    match pattern {
        Some(p) => if regex_builds(p, REGEX_SIZE_LIMIT as nat) {
            masked_lines(n, p)
        } else {
            n
        },
        None => n,
    }
}

/// The configured ignore pattern as plain text.
pub open spec fn pattern_of(config: CompareConfig) -> Option<Seq<char>> {
    match config.ignore_regex {
        Some(p) => Some(p@),
        None => None,
    }
}

/// An ignore pattern that does not compile is dropped: the lines are those
/// of a run without a pattern.
pub proof fn lemma_bad_pattern_dropped(t: Seq<char>, opts: NormalizationOptions, p: Seq<char>)
    requires
        !regex_builds(p, REGEX_SIZE_LIMIT as nat),
    ensures
        spec_prepared(t, opts, Some(p)) == spec_prepared(t, opts, None),
{
}

/// The lines of a text as the comparison sees them.
pub fn prepare_lines(text: &str, config: &CompareConfig) -> (r: Vec<String>)
    ensures
        lines_view(r@) == spec_prepared(text@, config.normalization, pattern_of(*config)),
{
    let lines = normalize_text(text, &config.normalization);
    match &config.ignore_regex {
        Some(p) => match compile_ignore_regex(p.as_str()) {
            Some(re) => apply_regex_filter(&lines, &re),
            None => lines,
        },
        None => lines,
    }
}

/// Compares two texts line by line. Fails only when the two line lists
/// together are too long to count.
pub fn compare_text_files(
    file1: &FileEntry,
    file2: &FileEntry,
    text1: &str,
    text2: &str,
    config: &CompareConfig,
    given: Ratio,
) -> (r: Result<TextComparisonResult, String>)
    requires
        given.wf(),
    ensures
        r is Err <==> spec_prepared(text1@, config.normalization, pattern_of(*config)).len()
            + spec_prepared(text2@, config.normalization, pattern_of(*config)).len() > usize::MAX,
        r matches Ok(t) ==> text_result_matches(
            t,
            *file1,
            *file2,
            spec_prepared(text1@, config.normalization, pattern_of(*config)),
            spec_prepared(text2@, config.normalization, pattern_of(*config)),
            *config,
            given,
        ),
        r matches Ok(t) ==> (text1@ == text2@ ==> t.identical && t.only_in_file1 == 0
            && t.only_in_file2 == 0 && t.detailed_diff@.len() == 0 && !t.diff_truncated
            && t.different_positions@.len() == 0),
        r matches Ok(t) ==> (text1@ == text2@ && !is_external_algorithm(config.similarity_algorithm)
            ==> t.similarity_score.num == t.similarity_score.den),
{
    let lines1 = prepare_lines(text1, config);
    let lines2 = prepare_lines(text2, config);
    if lines1.len() > usize::MAX - lines2.len() {
        return Err(string_from_chars(&chars_of("too many lines to compare")));
    }
    Ok(compare_text_lines(file1, file2, &lines1, &lines2, config, given))
}

} // verus!

verus! {

/// Rerunning a text comparison on the same lines and configuration gives
/// the same result: every count, the score, the positions, the linked id
/// and the verdict agree, and so does the diff text when neither run cut
/// it short.
pub proof fn lemma_text_rerun(
    r1: TextComparisonResult,
    r2: TextComparisonResult,
    file1: FileEntry,
    file2: FileEntry,
    a: Seq<Seq<char>>,
    b: Seq<Seq<char>>,
    config: CompareConfig,
    given: Ratio,
)
    requires
        text_result_matches(r1, file1, file2, a, b, config, given),
        text_result_matches(r2, file1, file2, a, b, config, given),
    ensures
        r1.linked_id@ == r2.linked_id@,
        r1.file1_path@ == r2.file1_path@,
        r1.file2_path@ == r2.file2_path@,
        r1.file1_line_count == r2.file1_line_count,
        r1.file2_line_count == r2.file2_line_count,
        r1.common_lines == r2.common_lines,
        r1.only_in_file1 == r2.only_in_file1,
        r1.only_in_file2 == r2.only_in_file2,
        r1.similarity_score == r2.similarity_score,
        r1.different_positions@ == r2.different_positions@,
        r1.identical == r2.identical,
        !r1.diff_truncated && !r2.diff_truncated ==> r1.detailed_diff@ == r2.detailed_diff@,
{
}

} // verus!
