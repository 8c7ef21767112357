//! Similarity scores of two line lists.

use vstd::prelude::*;
use crate::fingerprint::split_words;
use crate::lines::{lines_view, lower_of, to_lower};
use crate::structured::{kept, kept_columns, select, select_columns};
use crate::strs::{chars_of, string_from_chars};
use crate::textdiff::{count_tag, lemma_walk_counts, walks, DiffTag};
use crate::types::{Ratio, SimilarityAlgorithm};

verus! {

/// Lines joined by `\n`.
pub open spec fn join_lines(ls: Seq<Seq<char>>) -> Seq<char>
    decreases ls.len(),
{
    if ls.len() == 0 {
        Seq::empty()
    } else if ls.len() == 1 {
        ls[0]
    } else {
        join_lines(ls.drop_last()) + seq!['\n'] + ls.last()
    }
}

/// Joins lines with `\n`.
pub fn join_with_newlines(ls: &Vec<String>) -> (r: String)
    ensures
        r@ == join_lines(lines_view(ls@)),
{
    let ghost lv = lines_view(ls@);
    let mut out: Vec<char> = Vec::new();
    for i in 0..ls.len()
        invariant
            lv == lines_view(ls@),
            out@ == join_lines(lv.take(i as int)),
    {
        assert(lv.take(i + 1).drop_last() =~= lv.take(i as int));
        assert(lv.take(i + 1).last() == ls@[i as int]@);
        if i > 0 {
            out.push('\n');
        }
        let cs = chars_of(ls[i].as_str());
        let mut k: usize = 0;
        let ghost o0 = out@;
        while k < cs.len()
            invariant
                k <= cs.len(),
                out@ == o0 + cs@.take(k as int),
            decreases cs.len() - k,
        {
            out.push(cs[k]);
            k += 1;
            assert(out@ =~= o0 + cs@.take(k as int));
        }
        assert(cs@.take(cs.len() as int) =~= cs@);
        proof {
            if i > 0 {
                assert(join_lines(lv.take(i + 1)) == join_lines(lv.take(i as int)) + seq!['\n'] + lv[i as int]);
            } else {
                assert(join_lines(lv.take(1)) == lv[0]);
            }
        }
        assert(out@ =~= join_lines(lv.take(i + 1)));
    }
    assert(lv.take(ls.len() as int) =~= lv);
    string_from_chars(&out)
}

/// `common / (common + only_1 + only_2)`, or 1 when both are empty.
pub open spec fn diff_score(common: nat, d1: nat, d2: nat) -> Ratio {
    if common + d1 + d2 == 0 {
        Ratio { num: 1, den: 1 }
    } else {
        Ratio { num: common as u64, den: (common + d1 + d2) as u64 }
    }
}

/// `2 * matches / (n + m)`, or 1 when both are empty.
pub open spec fn myers_ratio(common: nat, n: nat, m: nat) -> Ratio {
    if n + m == 0 {
        Ratio { num: 1, den: 1 }
    } else {
        Ratio { num: (2 * common) as u64, den: (n + m) as u64 }
    }
}

/// Number of positions below `k` where the two lists hold equal lines.
pub open spec fn equal_positions(a: Seq<Seq<char>>, b: Seq<Seq<char>>, k: int) -> nat
    decreases k,
{
    if k <= 0 {
        0
    } else {
        equal_positions(a, b, k - 1) + if a[k - 1] == b[k - 1] {
            1nat
        } else {
            0nat
        }
    }
}

/// Equal lines at equal positions over the longer length; 1 when both are
/// empty.
pub open spec fn hamming_score(a: Seq<Seq<char>>, b: Seq<Seq<char>>) -> Ratio {
    let n = a.len();
    let m = b.len();
    if n == 0 && m == 0 {
        Ratio { num: 1, den: 1 }
    } else {
        Ratio {
            num: equal_positions(a, b, if n <= m { n as int } else { m as int }) as u64,
            den: (if n <= m { m } else { n }) as u64,
        }
    }
}

/// Levenshtein distance of two texts, as `strsim::levenshtein` computes it.
pub uninterp spec fn levenshtein_of(a: Seq<char>, b: Seq<char>) -> nat;

/// Damerau-Levenshtein distance of two texts, as
/// `strsim::damerau_levenshtein` computes it.
pub uninterp spec fn damerau_of(a: Seq<char>, b: Seq<char>) -> nat;

/// Relies on `strsim::levenshtein`: an edit distance in characters, never
/// more than the longer length, and zero for equal texts.
#[verifier::external_body]
fn levenshtein_distance(a: &str, b: &str) -> (r: usize)
    ensures
        r == levenshtein_of(a@, b@),
        r <= a@.len() || r <= b@.len(),
        a@ == b@ ==> r == 0,
{
    strsim::levenshtein(a, b)
}

/// Relies on `strsim::damerau_levenshtein`: an edit distance in characters,
/// never more than the longer length, and zero for equal texts.
#[verifier::external_body]
fn damerau_distance(a: &str, b: &str) -> (r: usize)
    ensures
        r == damerau_of(a@, b@),
        r <= a@.len() || r <= b@.len(),
        a@ == b@ ==> r == 0,
{
    strsim::damerau_levenshtein(a, b)
}

/// `1 - d / max(|a|, |b|)`, or 1 when both texts are empty.
pub open spec fn edit_score(d: nat, n: nat, m: nat) -> Ratio {
    let hi = if n <= m { m } else { n };
    if hi == 0 {
        Ratio { num: 1, den: 1 }
    } else {
        Ratio { num: (hi - d) as u64, den: hi as u64 }
    }
}

/// The algorithms whose score the caller computes and hands in.
pub open spec fn is_external_algorithm(algo: SimilarityAlgorithm) -> bool {
    match algo {
        SimilarityAlgorithm::CharJaro | SimilarityAlgorithm::SorensenDice
        | SimilarityAlgorithm::Cosine | SimilarityAlgorithm::TfIdf => true,
        _ => false,
    }
}

/// Whether the algorithm's score comes from the caller.
pub fn needs_external_score(algo: SimilarityAlgorithm) -> (r: bool)
    ensures
        r == is_external_algorithm(algo),
{
    match algo {
        SimilarityAlgorithm::CharJaro | SimilarityAlgorithm::SorensenDice
        | SimilarityAlgorithm::Cosine | SimilarityAlgorithm::TfIdf => true,
        _ => false,
    }
}

} // verus!

verus! {

/// Length of a longest common subsequence of two line lists.
pub open spec fn lcs(a: Seq<Seq<char>>, b: Seq<Seq<char>>) -> nat
    decreases a.len() + b.len(),
{
    if a.len() == 0 || b.len() == 0 {
        0
    } else if a.last() == b.last() {
        lcs(a.drop_last(), b.drop_last()) + 1
    } else {
        let x = lcs(a.drop_last(), b);
        let y = lcs(a, b.drop_last());
        if x >= y {
            x
        } else {
            y
        }
    }
}

proof fn lemma_lcs_bound(a: Seq<Seq<char>>, b: Seq<Seq<char>>)
    ensures
        lcs(a, b) <= a.len(),
        lcs(a, b) <= b.len(),
    decreases a.len() + b.len(),
{
    if a.len() > 0 && b.len() > 0 {
        lemma_lcs_bound(a.drop_last(), b.drop_last());
        lemma_lcs_bound(a.drop_last(), b);
        lemma_lcs_bound(a, b.drop_last());
    }
}

/// Length of a longest common subsequence, by the row-by-row table.
pub fn lcs_length(a: &Vec<String>, b: &Vec<String>) -> (r: usize)
    requires
        b.len() < usize::MAX,
    ensures
        r == lcs(lines_view(a@), lines_view(b@)),
{
    let ghost av = lines_view(a@);
    let ghost bv = lines_view(b@);
    let m = b.len();
    let mut prev: Vec<usize> = Vec::new();
    for j in 0..m + 1
        invariant
            prev.len() == j,
            forall|k: int| 0 <= k < j ==> prev@[k] == 0,
    {
        prev.push(0);
    }
    assert forall|k: int| 0 <= k <= m implies prev@[k] == lcs(av.take(0), bv.take(k)) by {}
    for i in 0..a.len()
        invariant
            av == lines_view(a@),
            bv == lines_view(b@),
            m == b.len(),
            prev.len() == m + 1,
            forall|k: int| 0 <= k <= m ==> prev@[k] == lcs(av.take(i as int), #[trigger] bv.take(k)),
    {
        let mut curr: Vec<usize> = Vec::new();
        curr.push(0);
        assert(curr@[0] == lcs(av.take(i + 1), bv.take(0)));
        for j in 1..m + 1
            invariant
                av == lines_view(a@),
                bv == lines_view(b@),
                i < a.len(),
                m == b.len(),
                prev.len() == m + 1,
                forall|k: int| 0 <= k <= m ==> prev@[k] == lcs(av.take(i as int), #[trigger] bv.take(k)),
                curr.len() == j,
                forall|k: int| 0 <= k < j ==> curr@[k] == lcs(av.take(i + 1), #[trigger] bv.take(k)),
        {
            let ghost ai = av.take(i + 1);
            let ghost bj = bv.take(j as int);
            assert(ai.drop_last() =~= av.take(i as int));
            assert(bj.drop_last() =~= bv.take(j - 1));
            assert(ai.last() == a@[i as int]@);
            assert(bj.last() == b@[j - 1]@);
            proof {
                lemma_lcs_bound(av.take(i as int), bv.take(j - 1));
                lemma_lcs_bound(av.take(i as int), bv.take(j as int));
            }
            let v = if a[i] == b[j - 1] {
                prev[j - 1] + 1
            } else if prev[j] >= curr[j - 1] {
                prev[j]
            } else {
                curr[j - 1]
            };
            curr.push(v);
        }
        prev = curr;
    }
    assert(av.take(a.len() as int) =~= av);
    assert(bv.take(m as int) =~= bv);
    prev[m]
}

} // verus!

verus! {

/// Largest line count for which the local-alignment table is computed.
pub const SW_LIMIT: usize = 2000;

/// Largest line count for which the subsequence table is computed.
pub const LCS_LIMIT: usize = 5000;

pub open spec fn max_int(x: int, y: int) -> int {
    if x >= y {
        x
    } else {
        y
    }
}

/// Local-alignment table cell: match +2, mismatch -1, gap -1, floor 0.
pub open spec fn sw_cell(a: Seq<Seq<char>>, b: Seq<Seq<char>>, i: nat, j: nat) -> int
    decreases i + j,
{
    if i == 0 || j == 0 {
        0
    } else {
        let s: int = if a[i - 1] == b[j - 1] {
            2
        } else {
            -1
        };
        max_int(
            max_int(0, sw_cell(a, b, (i - 1) as nat, (j - 1) as nat) + s),
            max_int(sw_cell(a, b, (i - 1) as nat, j) - 1, sw_cell(a, b, i, (j - 1) as nat) - 1),
        )
    }
}

/// Greatest cell of row `i` up to column `j`.
pub open spec fn sw_row_best(a: Seq<Seq<char>>, b: Seq<Seq<char>>, i: nat, j: nat) -> int
    decreases j,
{
    if j == 0 {
        0
    } else {
        max_int(sw_row_best(a, b, i, (j - 1) as nat), sw_cell(a, b, i, j))
    }
}

/// Greatest cell of the whole table up to row `i`.
pub open spec fn sw_best(a: Seq<Seq<char>>, b: Seq<Seq<char>>, i: nat) -> int
    decreases i,
{
    if i == 0 {
        0
    } else {
        max_int(sw_best(a, b, (i - 1) as nat), sw_row_best(a, b, i, b.len()))
    }
}

proof fn lemma_sw_cell_bound(a: Seq<Seq<char>>, b: Seq<Seq<char>>, i: nat, j: nat)
    ensures
        0 <= sw_cell(a, b, i, j) <= 2 * i,
    decreases i + j,
{
    if i > 0 && j > 0 {
        lemma_sw_cell_bound(a, b, (i - 1) as nat, (j - 1) as nat);
        lemma_sw_cell_bound(a, b, (i - 1) as nat, j);
        lemma_sw_cell_bound(a, b, i, (j - 1) as nat);
    }
}

proof fn lemma_sw_row_bound(a: Seq<Seq<char>>, b: Seq<Seq<char>>, i: nat, j: nat)
    ensures
        0 <= sw_row_best(a, b, i, j) <= 2 * i,
    decreases j,
{
    if j > 0 {
        lemma_sw_row_bound(a, b, i, (j - 1) as nat);
        lemma_sw_cell_bound(a, b, i, j);
    }
}

proof fn lemma_sw_best_bound(a: Seq<Seq<char>>, b: Seq<Seq<char>>, i: nat)
    ensures
        0 <= sw_best(a, b, i) <= 2 * i,
    decreases i,
{
    if i > 0 {
        lemma_sw_best_bound(a, b, (i - 1) as nat);
        lemma_sw_row_bound(a, b, i, b.len());
    }
}

/// Greatest local-alignment score of two line lists.
pub fn sw_max_score(a: &Vec<String>, b: &Vec<String>) -> (r: u64)
    requires
        a.len() <= SW_LIMIT,
        b.len() <= SW_LIMIT,
    ensures
        r == sw_best(lines_view(a@), lines_view(b@), a.len() as nat),
{
    let ghost av = lines_view(a@);
    let ghost bv = lines_view(b@);
    let m = b.len();
    let mut prev: Vec<i64> = Vec::new();
    for j in 0..m + 1
        invariant
            prev.len() == j,
            forall|k: int| 0 <= k < j ==> prev@[k] == 0,
    {
        prev.push(0);
    }
    let mut best: i64 = 0;
    for i in 0..a.len()
        invariant
            av == lines_view(a@),
            bv == lines_view(b@),
            m == b.len(),
            a.len() <= SW_LIMIT,
            b.len() <= SW_LIMIT,
            prev.len() == m + 1,
            forall|k: int| 0 <= k <= m ==> prev@[k] == sw_cell(av, bv, i as nat, k as nat),
            best == sw_best(av, bv, i as nat),
    {
        let mut curr: Vec<i64> = Vec::new();
        curr.push(0);
        let mut row_best: i64 = 0;
        for j in 1..m + 1
            invariant
                av == lines_view(a@),
                bv == lines_view(b@),
                i < a.len(),
                m == b.len(),
                a.len() <= SW_LIMIT,
                prev.len() == m + 1,
                forall|k: int| 0 <= k <= m ==> prev@[k] == sw_cell(av, bv, i as nat, k as nat),
                curr.len() == j,
                forall|k: int| 0 <= k < j ==> curr@[k] == sw_cell(av, bv, (i + 1) as nat, k as nat),
                row_best == sw_row_best(av, bv, (i + 1) as nat, (j - 1) as nat),
        {
            proof {
                lemma_sw_cell_bound(av, bv, i as nat, (j - 1) as nat);
                lemma_sw_cell_bound(av, bv, i as nat, j as nat);
                lemma_sw_cell_bound(av, bv, (i + 1) as nat, (j - 1) as nat);
            }
            let s: i64 = if a[i] == b[j - 1] {
                2
            } else {
                -1
            };
            let mut v: i64 = 0;
            if prev[j - 1] + s > v {
                v = prev[j - 1] + s;
            }
            if prev[j] - 1 > v {
                v = prev[j] - 1;
            }
            if curr[j - 1] - 1 > v {
                v = curr[j - 1] - 1;
            }
            assert(v == sw_cell(av, bv, (i + 1) as nat, j as nat));
            curr.push(v);
            if v > row_best {
                row_best = v;
            }
        }
        proof {
            lemma_sw_row_bound(av, bv, (i + 1) as nat, m as nat);
        }
        if row_best > best {
            best = row_best;
        }
        prev = curr;
    }
    proof {
        lemma_sw_best_bound(av, bv, a.len() as nat);
    }
    best as u64
}

} // verus!

verus! {

/// `lcs / max(n, m)`, 1 for two empty lists, 0 for one empty list, and
/// the diff ratio above [`LCS_LIMIT`] lines.
pub open spec fn lcs_score(a: Seq<Seq<char>>, b: Seq<Seq<char>>, common: nat) -> Ratio {
    let n = a.len();
    let m = b.len();
    if n == 0 && m == 0 {
        Ratio { num: 1, den: 1 }
    } else if n == 0 || m == 0 {
        Ratio { num: 0, den: 1 }
    } else if n > LCS_LIMIT || m > LCS_LIMIT {
        myers_ratio(common, n, m)
    } else {
        Ratio { num: lcs(a, b) as u64, den: (if n <= m { m } else { n }) as u64 }
    }
}

/// Best local alignment over `2 * min(n, m)`, capped at 1; the diff ratio
/// above [`SW_LIMIT`] lines; 1 for two empty lists, 0 for one.
pub open spec fn sw_score(a: Seq<Seq<char>>, b: Seq<Seq<char>>, common: nat) -> Ratio {
    let n = a.len();
    let m = b.len();
    if n > SW_LIMIT || m > SW_LIMIT {
        myers_ratio(common, n, m)
    } else if n == 0 && m == 0 {
        Ratio { num: 1, den: 1 }
    } else if n == 0 || m == 0 {
        Ratio { num: 0, den: 1 }
    } else {
        let den = 2 * (if n <= m { n } else { m });
        let best = sw_best(a, b, n);
        Ratio { num: (if best <= den { best } else { den as int }) as u64, den: den as u64 }
    }
}

/// The similarity score of two normalised line lists under `algo`, given
/// their line diff `tags` and, for the caller-computed algorithms, `given`.
pub open spec fn spec_text_similarity(
    algo: SimilarityAlgorithm,
    a: Seq<Seq<char>>,
    b: Seq<Seq<char>>,
    tags: Seq<DiffTag>,
    given: Ratio,
) -> Ratio {
    let c = count_tag(tags, DiffTag::Equal);
    let d1 = count_tag(tags, DiffTag::Delete);
    let d2 = count_tag(tags, DiffTag::Insert);
    let ja = join_lines(a);
    let jb = join_lines(b);
    match algo {
        SimilarityAlgorithm::Diff => diff_score(c, d1, d2),
        SimilarityAlgorithm::RatcliffObershelp => myers_ratio(c, a.len(), b.len()),
        SimilarityAlgorithm::Hamming => hamming_score(a, b),
        SimilarityAlgorithm::Levenshtein => edit_score(levenshtein_of(ja, jb), ja.len(), jb.len()),
        SimilarityAlgorithm::DamerauLevenshtein => edit_score(damerau_of(ja, jb), ja.len(), jb.len()),
        SimilarityAlgorithm::Lcs => lcs_score(a, b, c),
        SimilarityAlgorithm::SmithWaterman => sw_score(a, b, c),
        SimilarityAlgorithm::Jaccard => jaccard_score(a, b),
        SimilarityAlgorithm::NGram => ngram_score(a, b),
        _ => given,
    }
}


fn hamming_lines(a: &Vec<String>, b: &Vec<String>) -> (r: Ratio)
    ensures
        r == hamming_score(lines_view(a@), lines_view(b@)),
        r.wf(),
{
    let ghost av = lines_view(a@);
    let ghost bv = lines_view(b@);
    let n = a.len();
    let m = b.len();
    if n == 0 && m == 0 {
        return Ratio::one();
    }
    let lo = if n <= m { n } else { m };
    let hi = if n <= m { m } else { n };
    let mut matches: usize = 0;
    for i in 0..lo
        invariant
            av == lines_view(a@),
            bv == lines_view(b@),
            lo <= n,
            lo <= m,
            n == a.len(),
            m == b.len(),
            matches == equal_positions(av, bv, i as int),
            matches <= i,
    {
        if a[i] == b[i] {
            matches += 1;
        }
    }
    Ratio { num: matches as u64, den: hi as u64 }
}

fn char_count(s: &str) -> (r: usize)
    ensures
        r == s@.len(),
{
    chars_of(s).len()
}

fn edit_ratio(d: usize, n: usize, m: usize) -> (r: Ratio)
    requires
        d <= n || d <= m,
    ensures
        r == edit_score(d as nat, n as nat, m as nat),
        r.wf(),
{
    let hi = if n <= m { m } else { n };
    if hi == 0 {
        Ratio::one()
    } else {
        Ratio { num: (hi - d) as u64, den: hi as u64 }
    }
}

/// The similarity score of two normalised line lists.
pub fn text_similarity(
    algo: SimilarityAlgorithm,
    a: &Vec<String>,
    b: &Vec<String>,
    tags: &Vec<DiffTag>,
    given: Ratio,
) -> (r: Ratio)
    requires
        walks(tags@, lines_view(a@), lines_view(b@)),
        a.len() + b.len() <= usize::MAX,
        given.wf(),
    ensures
        r == spec_text_similarity(algo, lines_view(a@), lines_view(b@), tags@, given),
        r.wf(),
        lines_view(a@) == lines_view(b@) && (forall|k: int|
            0 <= k < tags@.len() ==> tags@[k] == DiffTag::Equal) && !is_external_algorithm(algo)
            ==> r.num == r.den,
{
    let ghost av = lines_view(a@);
    let ghost bv = lines_view(b@);
    let (c, d1, d2) = count_changes(tags);
    proof {
        lemma_walk_counts(tags@, av, bv);
    }
    let n = a.len();
    let m = b.len();
    let r = match algo {
        SimilarityAlgorithm::Diff => {
            if c + d1 + d2 == 0 {
                Ratio::one()
            } else {
                Ratio { num: c as u64, den: (c + d1 + d2) as u64 }
            }
        },
        SimilarityAlgorithm::RatcliffObershelp => myers_ratio_of(c, n, m),
        SimilarityAlgorithm::Hamming => hamming_lines(a, b),
        SimilarityAlgorithm::Levenshtein => {
            let ja = join_with_newlines(a);
            let jb = join_with_newlines(b);
            let d = levenshtein_distance(ja.as_str(), jb.as_str());
            proof {
                if av == bv {
                    assert(levenshtein_of(join_lines(av), join_lines(av)) == 0);
                }
            }
            edit_ratio(d, char_count(ja.as_str()), char_count(jb.as_str()))
        },
        SimilarityAlgorithm::DamerauLevenshtein => {
            let ja = join_with_newlines(a);
            let jb = join_with_newlines(b);
            let d = damerau_distance(ja.as_str(), jb.as_str());
            proof {
                if av == bv {
                    assert(damerau_of(join_lines(av), join_lines(av)) == 0);
                }
            }
            edit_ratio(d, char_count(ja.as_str()), char_count(jb.as_str()))
        },
        SimilarityAlgorithm::Lcs => {
            if n == 0 && m == 0 {
                Ratio::one()
            } else if n == 0 || m == 0 {
                Ratio::zero()
            } else if n > LCS_LIMIT || m > LCS_LIMIT {
                myers_ratio_of(c, n, m)
            } else {
                let l = lcs_length(a, b);
                proof {
                    lemma_lcs_bound(av, bv);
                }
                let hi = if n <= m { m } else { n };
                Ratio { num: l as u64, den: hi as u64 }
            }
        },
        SimilarityAlgorithm::SmithWaterman => {
            if n > SW_LIMIT || m > SW_LIMIT {
                myers_ratio_of(c, n, m)
            } else if n == 0 && m == 0 {
                Ratio::one()
            } else if n == 0 || m == 0 {
                Ratio::zero()
            } else {
                let lo = if n <= m { n } else { m };
                let den = 2 * lo as u64;
                let best = sw_max_score(a, b);
                Ratio { num: if best <= den { best } else { den }, den }
            }
        },
        SimilarityAlgorithm::Jaccard => jaccard_lines(a, b),
        SimilarityAlgorithm::NGram => ngram_lines(a, b),
        _ => given,
    };
    proof {
        if av == bv && (forall|k: int| 0 <= k < tags@.len() ==> tags@[k] == DiffTag::Equal)
            && !is_external_algorithm(algo) {
            lemma_self_similarity(algo, av, tags@, given);
        }
    }
    r
}

fn myers_ratio_of(c: usize, n: usize, m: usize) -> (r: Ratio)
    requires
        c <= n,
        c <= m,
        n + m <= usize::MAX,
    ensures
        r == myers_ratio(c as nat, n as nat, m as nat),
        r.wf(),
{
    if n + m == 0 {
        Ratio::one()
    } else {
        Ratio { num: (2 * c) as u64, den: (n + m) as u64 }
    }
}

/// Counts equal, deleted and inserted changes.
pub fn count_changes(tags: &Vec<DiffTag>) -> (r: (usize, usize, usize))
    ensures
        r.0 == count_tag(tags@, DiffTag::Equal),
        r.1 == count_tag(tags@, DiffTag::Delete),
        r.2 == count_tag(tags@, DiffTag::Insert),
        r.0 + r.1 + r.2 == tags@.len(),
{
    let mut c: usize = 0;
    let mut d1: usize = 0;
    let mut d2: usize = 0;
    for k in 0..tags.len()
        invariant
            c == count_tag(tags@.take(k as int), DiffTag::Equal),
            d1 == count_tag(tags@.take(k as int), DiffTag::Delete),
            d2 == count_tag(tags@.take(k as int), DiffTag::Insert),
            c + d1 + d2 == k,
    {
        assert(tags@.take(k + 1).drop_last() =~= tags@.take(k as int));
        assert(tags@.take(k + 1).last() == tags@[k as int]);
        match tags[k] {
            DiffTag::Equal => c += 1,
            DiffTag::Delete => d1 += 1,
            DiffTag::Insert => d2 += 1,
        }
    }
    assert(tags@.take(tags.len() as int) =~= tags@);
    (c, d1, d2)
}

} // verus!

verus! {

/// The lower-cased words of all lines, in order.
pub open spec fn lower_tokens(ls: Seq<Seq<char>>) -> Seq<Seq<char>> {
    crate::fingerprint::all_words(ls).map_values(|w: Seq<char>| lower_of(w))
}

/// Jaccard over distinct lower-cased tokens: shared over all distinct
/// tokens, 1 when neither text has a token (the denominator saturates at
/// `u64::MAX`).
pub open spec fn jaccard_score(a: Seq<Seq<char>>, b: Seq<Seq<char>>) -> Ratio {
    let ua = kept_columns(lower_tokens(a), Seq::empty());
    let ub = kept_columns(lower_tokens(b), Seq::empty());
    let inter = select_columns(ua, ub, true).len();
    let total = ua.len() + ub.len() - inter;
    let den: int = if total <= u64::MAX { total } else { u64::MAX as int };
    if total <= 0 {
        Ratio { num: 1, den: 1 }
    } else {
        Ratio { num: (if inter <= den { inter as int } else { den }) as u64, den: den as u64 }
    }
}

proof fn lemma_select_len(a: Seq<Seq<char>>, o: Seq<Seq<char>>, inside: bool)
    ensures
        select_columns(a, o, inside).len() <= a.len(),
    decreases a.len(),
{
    if a.len() > 0 {
        lemma_select_len(a.drop_last(), o, inside);
    }
}


fn lower_token_list(ls: &Vec<String>) -> (r: Vec<String>)
    ensures
        lines_view(r@) == lower_tokens(lines_view(ls@)),
{
    let ghost lv = lines_view(ls@);
    let mut r: Vec<String> = Vec::new();
    for i in 0..ls.len()
        invariant
            lv == lines_view(ls@),
            lines_view(r@) == lower_tokens(lv.take(i as int)),
    {
        assert(lv.take(i + 1).drop_last() =~= lv.take(i as int));
        assert(lv.take(i + 1).last() == ls@[i as int]@);
        let cs = chars_of(ls[i].as_str());
        let ws = split_words(&cs);
        let ghost wv = ws@.map_values(|w: Vec<char>| w@);
        let ghost r0 = lines_view(r@);
        for k in 0..ws.len()
            invariant
                wv == ws@.map_values(|w: Vec<char>| w@),
                lines_view(r@) == r0 + wv.take(k as int).map_values(|w: Seq<char>| lower_of(w)),
        {
            let s = string_from_chars(&ws[k]);
            let low = to_lower(s.as_str());
            let ghost r1 = lines_view(r@);
            r.push(low);
            assert(lines_view(r@) =~= r1.push(lower_of(wv[k as int])));
            assert(wv.take(k + 1).map_values(|w: Seq<char>| lower_of(w)) =~= wv.take(k as int).map_values(
                |w: Seq<char>| lower_of(w),
            ).push(lower_of(wv[k as int])));
        }
        assert(wv.take(ws.len() as int) =~= wv);
        assert(crate::fingerprint::all_words(lv.take(i + 1)) == crate::fingerprint::all_words(
            lv.take(i as int),
        ) + wv);
        assert(lower_tokens(lv.take(i + 1)) =~= lower_tokens(lv.take(i as int)) + wv.map_values(
            |w: Seq<char>| lower_of(w),
        ));
    }
    assert(lv.take(ls.len() as int) =~= lv);
    r
}

/// Jaccard similarity of the distinct lower-cased tokens of two texts.
pub fn jaccard_lines(a: &Vec<String>, b: &Vec<String>) -> (r: Ratio)
    ensures
        r == jaccard_score(lines_view(a@), lines_view(b@)),
        r.wf(),
{
    let ta = lower_token_list(a);
    let tb = lower_token_list(b);
    let none: Vec<String> = Vec::new();
    assert(lines_view(none@) =~= Seq::<Seq<char>>::empty());
    let ua = kept(&ta, &none);
    let ub = kept(&tb, &none);
    let both = select(&ua, &ub, true);
    proof {
        lemma_select_len(lines_view(ua@), lines_view(ub@), true);
    }
    let inter = both.len();
    let total: u128 = (ua.len() - inter) as u128 + ub.len() as u128;
    let den: u64 = if total <= u64::MAX as u128 { total as u64 } else { u64::MAX };
    if total == 0 {
        Ratio::one()
    } else {
        Ratio { num: if inter as u128 <= den as u128 { inter as u64 } else { den }, den }
    }
}

} // verus!

verus! {

pub open spec fn is_ascii_byte(b: u8) -> bool {
    b < 0x80
}

pub open spec fn is_cont_byte(b: u8) -> bool {
    0x80 <= b <= 0xbf
}

/// Three bytes that form complete UTF-8 characters on their own.
pub open spec fn valid_utf8_3(x: u8, y: u8, z: u8) -> bool {
    (is_ascii_byte(x) && is_ascii_byte(y) && is_ascii_byte(z)) || (is_ascii_byte(x) && 0xc2 <= y
        <= 0xdf && is_cont_byte(z)) || (0xc2 <= x <= 0xdf && is_cont_byte(y) && is_ascii_byte(z)) || (
    x == 0xe0 && 0xa0 <= y <= 0xbf && is_cont_byte(z)) || (0xe1 <= x <= 0xec && is_cont_byte(y)
        && is_cont_byte(z)) || (x == 0xed && 0x80 <= y <= 0x9f && is_cont_byte(z)) || (0xee <= x
        <= 0xef && is_cont_byte(y) && is_cont_byte(z))
}

/// A byte triple as one number.
pub open spec fn gram_code(x: u8, y: u8, z: u8) -> u32 {
    (x as int * 65536 + y as int * 256 + z as int) as u32
}

/// The distinct valid trigrams among the first `n` byte windows, in order
/// of first occurrence.
pub open spec fn grams_upto(b: Seq<u8>, n: nat) -> Seq<u32>
    decreases n,
{
    if n == 0 || n + 2 > b.len() {
        Seq::empty()
    } else {
        let prev = grams_upto(b, (n - 1) as nat);
        let k = n - 1;
        let code = gram_code(b[k], b[k + 1], b[k + 2]);
        if valid_utf8_3(b[k], b[k + 1], b[k + 2]) && !prev.contains(code) {
            prev.push(code)
        } else {
            prev
        }
    }
}

pub open spec fn grams_of(b: Seq<u8>) -> Seq<u32> {
    if b.len() < 3 {
        Seq::empty()
    } else {
        grams_upto(b, (b.len() - 2) as nat)
    }
}

/// Elements of `a` that `b` holds.
pub open spec fn shared_count(a: Seq<u32>, b: Seq<u32>) -> nat
    decreases a.len(),
{
    if a.len() == 0 {
        0
    } else {
        shared_count(a.drop_last(), b) + if b.contains(a.last()) {
            1nat
        } else {
            0nat
        }
    }
}

/// Jaccard over the distinct valid byte trigrams of the joined texts: 1
/// for two empty texts, 0 when one is empty.
pub open spec fn ngram_score(a: Seq<Seq<char>>, b: Seq<Seq<char>>) -> Ratio {
    let ta = join_lines(a);
    let tb = join_lines(b);
    let ga = grams_of(vstd::utf8::encode_utf8(ta));
    let gb = grams_of(vstd::utf8::encode_utf8(tb));
    let inter = shared_count(ga, gb);
    let total = ga.len() + gb.len() - inter;
    let den: int = if total <= u64::MAX { total } else { u64::MAX as int };
    if ta.len() == 0 && tb.len() == 0 {
        Ratio { num: 1, den: 1 }
    } else if ta.len() == 0 || tb.len() == 0 {
        Ratio { num: 0, den: 1 }
    } else if total <= 0 {
        Ratio { num: 1, den: 1 }
    } else {
        Ratio { num: (if inter <= den { inter as int } else { den }) as u64, den: den as u64 }
    }
}

fn contains_code(v: &Vec<u32>, x: u32) -> (r: bool)
    ensures
        r == v@.contains(x),
{
    for i in 0..v.len()
        invariant
            forall|k: int| 0 <= k < i ==> v@[k] != x,
    {
        if v[i] == x {
            assert(v@[i as int] == x);
            return true;
        }
    }
    false
}

fn trigrams(b: &[u8]) -> (r: Vec<u32>)
    ensures
        r@ == grams_of(b@),
{
    let mut r: Vec<u32> = Vec::new();
    if b.len() < 3 {
        return r;
    }
    let n = b.len() - 2;
    for k in 0..n
        invariant
            n == b.len() - 2,
            b.len() >= 3,
            r@ == grams_upto(b@, k as nat),
    {
        let (x, y, z) = (b[k], b[k + 1], b[k + 2]);
        let valid = (x < 0x80 && y < 0x80 && z < 0x80) || (x < 0x80 && 0xc2 <= y && y <= 0xdf && 0x80
            <= z && z <= 0xbf) || (0xc2 <= x && x <= 0xdf && 0x80 <= y && y <= 0xbf && z < 0x80) || (x
            == 0xe0 && 0xa0 <= y && y <= 0xbf && 0x80 <= z && z <= 0xbf) || (0xe1 <= x && x <= 0xec
            && 0x80 <= y && y <= 0xbf && 0x80 <= z && z <= 0xbf) || (x == 0xed && 0x80 <= y && y
            <= 0x9f && 0x80 <= z && z <= 0xbf) || (0xee <= x && x <= 0xef && 0x80 <= y && y <= 0xbf
            && 0x80 <= z && z <= 0xbf);
        let code: u32 = x as u32 * 65536 + y as u32 * 256 + z as u32;
        assert(code == gram_code(x, y, z));
        if valid && !contains_code(&r, code) {
            r.push(code);
        }
    }
    r
}

fn shared(a: &Vec<u32>, b: &Vec<u32>) -> (r: usize)
    ensures
        r == shared_count(a@, b@),
        r <= a@.len(),
{
    let mut c: usize = 0;
    for i in 0..a.len()
        invariant
            c == shared_count(a@.take(i as int), b@),
            c <= i,
    {
        assert(a@.take(i + 1).drop_last() =~= a@.take(i as int));
        assert(a@.take(i + 1).last() == a@[i as int]);
        if contains_code(b, a[i]) {
            c += 1;
        }
    }
    assert(a@.take(a.len() as int) =~= a@);
    c
}

/// Jaccard similarity of the distinct character trigrams of two texts.
pub fn ngram_lines(a: &Vec<String>, b: &Vec<String>) -> (r: Ratio)
    ensures
        r == ngram_score(lines_view(a@), lines_view(b@)),
        r.wf(),
{
    let ja = join_with_newlines(a);
    let jb = join_with_newlines(b);
    if ja.as_str().is_empty() && jb.as_str().is_empty() {
        return Ratio::one();
    }
    if ja.as_str().is_empty() || jb.as_str().is_empty() {
        return Ratio::zero();
    }
    let ga = trigrams(ja.as_str().as_bytes());
    let gb = trigrams(jb.as_str().as_bytes());
    let inter = shared(&ga, &gb);
    let total: u128 = (ga.len() - inter) as u128 + gb.len() as u128;
    let den: u64 = if total <= u64::MAX as u128 { total as u64 } else { u64::MAX };
    if total == 0 {
        Ratio::one()
    } else {
        Ratio { num: if inter as u128 <= den as u128 { inter as u64 } else { den }, den }
    }
}

} // verus!

verus! {

proof fn lemma_equal_positions_self(a: Seq<Seq<char>>, k: int)
    requires
        0 <= k <= a.len(),
    ensures
        equal_positions(a, a, k) == k,
    decreases k,
{
    if k > 0 {
        lemma_equal_positions_self(a, k - 1);
    }
}

proof fn lemma_lcs_self(a: Seq<Seq<char>>)
    ensures
        lcs(a, a) == a.len(),
    decreases a.len(),
{
    if a.len() > 0 {
        lemma_lcs_self(a.drop_last());
    }
}

proof fn lemma_select_self(u: Seq<Seq<char>>, v: Seq<Seq<char>>)
    requires
        forall|x: Seq<char>| u.contains(x) ==> v.contains(x),
    ensures
        select_columns(u, v, true) == u,
    decreases u.len(),
{
    if u.len() > 0 {
        assert forall|x: Seq<char>| u.drop_last().contains(x) implies v.contains(x) by {
            let i = choose|i: int| 0 <= i < u.drop_last().len() && u.drop_last()[i] == x;
            assert(u[i] == x);
        }
        lemma_select_self(u.drop_last(), v);
        assert(u[u.len() - 1] == u.last());
        assert(u.drop_last().push(u.last()) =~= u);
    }
}

/// The score of a text against itself is 1 under every algorithm whose
/// score this crate computes.
pub proof fn lemma_self_similarity(algo: SimilarityAlgorithm, a: Seq<Seq<char>>, tags: Seq<DiffTag>, given: Ratio)
    requires
        walks(tags, a, a),
        forall|k: int| 0 <= k < tags.len() ==> tags[k] == DiffTag::Equal,
        !is_external_algorithm(algo),
        algo == SimilarityAlgorithm::Levenshtein ==> levenshtein_of(join_lines(a), join_lines(a)) == 0,
        algo == SimilarityAlgorithm::DamerauLevenshtein ==> damerau_of(join_lines(a), join_lines(a))
            == 0,
    ensures
        spec_text_similarity(algo, a, a, tags, given).num == spec_text_similarity(algo, a, a, tags, given).den,
{
    lemma_walk_counts(tags, a, a);
    lemma_all_equal_tag_counts(tags);
    match algo {
        SimilarityAlgorithm::Hamming => {
            lemma_equal_positions_self(a, a.len() as int);
        },
        SimilarityAlgorithm::Lcs => {
            lemma_lcs_self(a);
        },
        SimilarityAlgorithm::Jaccard => {
            let ua = kept_columns(lower_tokens(a), Seq::empty());
            lemma_select_self(ua, ua);
        },
        SimilarityAlgorithm::SmithWaterman | SimilarityAlgorithm::NGram => {
            lemma_self_similarity_sw_ngram(a, tags);
        },
        _ => {},
    }
}

proof fn lemma_all_equal_tag_counts(tags: Seq<DiffTag>)
    requires
        forall|k: int| 0 <= k < tags.len() ==> tags[k] == DiffTag::Equal,
    ensures
        count_tag(tags, DiffTag::Delete) == 0,
        count_tag(tags, DiffTag::Insert) == 0,
        count_tag(tags, DiffTag::Equal) == tags.len(),
    decreases tags.len(),
{
    if tags.len() > 0 {
        lemma_all_equal_tag_counts(tags.drop_last());
    }
}

} // verus!

verus! {

proof fn lemma_sw_diagonal(a: Seq<Seq<char>>, i: nat)
    requires
        i <= a.len(),
    ensures
        sw_cell(a, a, i, i) == 2 * i,
    decreases i,
{
    lemma_sw_cell_bound(a, a, i, i);
    if i > 0 {
        lemma_sw_diagonal(a, (i - 1) as nat);
    }
}

proof fn lemma_sw_row_best_ge(a: Seq<Seq<char>>, b: Seq<Seq<char>>, i: nat, j: nat, k: nat)
    requires
        k <= j,
    ensures
        sw_row_best(a, b, i, j) >= sw_cell(a, b, i, k) || k == 0,
    decreases j,
{
    if j > 0 && k < j {
        lemma_sw_row_best_ge(a, b, i, (j - 1) as nat, k);
    }
}

proof fn lemma_sw_best_ge(a: Seq<Seq<char>>, b: Seq<Seq<char>>, i: nat, k: nat)
    requires
        0 < k <= i,
    ensures
        sw_best(a, b, i) >= sw_row_best(a, b, k, b.len()),
    decreases i,
{
    if k < i {
        lemma_sw_best_ge(a, b, (i - 1) as nat, k);
    }
}

proof fn lemma_shared_self(g: Seq<u32>, h: Seq<u32>)
    requires
        forall|x: u32| g.contains(x) ==> h.contains(x),
    ensures
        shared_count(g, h) == g.len(),
    decreases g.len(),
{
    if g.len() > 0 {
        assert forall|x: u32| g.drop_last().contains(x) implies h.contains(x) by {
            let i = choose|i: int| 0 <= i < g.drop_last().len() && g.drop_last()[i] == x;
            assert(g[i] == x);
        }
        lemma_shared_self(g.drop_last(), h);
        assert(g[g.len() - 1] == g.last());
        assert(g.contains(g.last()));
    }
}

/// The local-alignment and trigram scores of a text against itself are 1.
pub proof fn lemma_self_similarity_sw_ngram(a: Seq<Seq<char>>, tags: Seq<DiffTag>)
    requires
        walks(tags, a, a),
        forall|k: int| 0 <= k < tags.len() ==> tags[k] == DiffTag::Equal,
    ensures
        sw_score(a, a, count_tag(tags, DiffTag::Equal)).num == sw_score(
            a,
            a,
            count_tag(tags, DiffTag::Equal),
        ).den,
        ngram_score(a, a).num == ngram_score(a, a).den,
{
    lemma_walk_counts(tags, a, a);
    lemma_all_equal_tag_counts(tags);
    let n = a.len();
    if 0 < n <= SW_LIMIT {
        lemma_sw_diagonal(a, n);
        lemma_sw_row_best_ge(a, a, n, n, n);
        lemma_sw_best_ge(a, a, n, n);
        lemma_sw_best_bound(a, a, n);
    }
    let g = grams_of(vstd::utf8::encode_utf8(join_lines(a)));
    lemma_shared_self(g, g);
}

} // verus!
