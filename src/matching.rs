//! Candidate pair generation: blocking rules, similarity estimates and the
//! three pairing strategies.

use vstd::prelude::*;
use crate::fingerprint::{simhash_similarity, spec_simhash_similarity};
use crate::strs::{chars_eq, file_name, spec_file_name, str_eq};
use crate::types::{
    entries_view, pairs_view, spec_is_tabular, CandidatePair, CandidateView, CompareConfig,
    FileEntry, FileEntryView, FileType, PairingStrategy, Ratio,
};

verus! {

pub open spec fn in_text_group(e: Seq<char>) -> bool {
    e == "txt"@ || e == "log"@ || e == "md"@ || e == "rst"@ || e == ""@
}

pub open spec fn in_csv_group(e: Seq<char>) -> bool {
    e == "csv"@ || e == "tsv"@ || e == "tab"@
}

pub open spec fn in_code_group(e: Seq<char>) -> bool {
    e == "rs"@ || e == "py"@ || e == "js"@ || e == "ts"@ || e == "java"@ || e == "c"@
        || e == "cpp"@ || e == "h"@ || e == "hpp"@ || e == "go"@
}

pub open spec fn in_config_group(e: Seq<char>) -> bool {
    e == "json"@ || e == "yaml"@ || e == "yml"@ || e == "toml"@ || e == "ini"@ || e == "cfg"@
}

/// Equal extensions, or two extensions of one of the declared groups.
pub open spec fn spec_extensions_compatible(a: Seq<char>, b: Seq<char>) -> bool {
    a == b || (in_text_group(a) && in_text_group(b)) || (in_csv_group(a) && in_csv_group(b))
        || (in_code_group(a) && in_code_group(b)) || (in_config_group(a) && in_config_group(b))
}

fn is_text_ext(e: &str) -> (r: bool)
    ensures
        r == in_text_group(e@),
{
    str_eq(e, "txt") || str_eq(e, "log") || str_eq(e, "md") || str_eq(e, "rst") || str_eq(e, "")
}

fn is_csv_ext(e: &str) -> (r: bool)
    ensures
        r == in_csv_group(e@),
{
    str_eq(e, "csv") || str_eq(e, "tsv") || str_eq(e, "tab")
}

fn is_code_ext(e: &str) -> (r: bool)
    ensures
        r == in_code_group(e@),
{
    str_eq(e, "rs") || str_eq(e, "py") || str_eq(e, "js") || str_eq(e, "ts") || str_eq(e, "java")
        || str_eq(e, "c") || str_eq(e, "cpp") || str_eq(e, "h") || str_eq(e, "hpp") || str_eq(
        e,
        "go",
    )
}

fn is_config_ext(e: &str) -> (r: bool)
    ensures
        r == in_config_group(e@),
{
    str_eq(e, "json") || str_eq(e, "yaml") || str_eq(e, "yml") || str_eq(e, "toml") || str_eq(
        e,
        "ini",
    ) || str_eq(e, "cfg")
}

/// Whether files with these two extensions may be compared.
pub fn extensions_compatible(ext1: &str, ext2: &str) -> (r: bool)
    ensures
        r == spec_extensions_compatible(ext1@, ext2@),
{
    str_eq(ext1, ext2) || (is_text_ext(ext1) && is_text_ext(ext2)) || (is_csv_ext(ext1)
        && is_csv_ext(ext2)) || (is_code_ext(ext1) && is_code_ext(ext2)) || (is_config_ext(ext1)
        && is_config_ext(ext2))
}

/// Sizes within a factor of ten of each other, when both are non-zero.
pub open spec fn spec_size_ratio_ok(a: u64, b: u64) -> bool {
    a == 0 || b == 0 || (10 * a as int >= b as int && a as int <= 10 * b as int)
}

/// Binary files, tabular files and the rest form three separate classes.
pub open spec fn type_class(t: FileType) -> int {
    if t == FileType::Binary {
        0
    } else if spec_is_tabular(t) {
        1
    } else {
        2
    }
}

/// The blocking rules that a pair must pass to be scored.
pub open spec fn spec_passes_blocking(f1: FileEntryView, f2: FileEntryView) -> bool {
    &&& spec_extensions_compatible(f1.extension, f2.extension)
    &&& spec_size_ratio_ok(f1.size, f2.size)
    &&& type_class(f1.file_type) == type_class(f2.file_type)
}

fn same_type_class(a: FileType, b: FileType) -> (r: bool)
    ensures
        r == (type_class(a) == type_class(b)),
{
    let ca: u8 = if a == FileType::Binary {
        0
    } else if a.is_tabular() {
        1
    } else {
        2
    };
    let cb: u8 = if b == FileType::Binary {
        0
    } else if b.is_tabular() {
        1
    } else {
        2
    };
    ca == cb
}

/// Checks the extension, size-ratio and file-kind rules.
pub fn passes_blocking_rules(f1: &FileEntry, f2: &FileEntry) -> (r: bool)
    ensures
        r == spec_passes_blocking(f1@, f2@),
{
    if !extensions_compatible(f1.extension.as_str(), f2.extension.as_str()) {
        return false;
    }
    if f1.size > 0 && f2.size > 0 {
        let a = f1.size as u128;
        let b = f2.size as u128;
        if 10 * a < b || a > 10 * b {
            return false;
        }
    }
    same_type_class(f1.file_type, f2.file_type)
}

/// Both content hashes are present and equal.
pub open spec fn hashes_match(f1: FileEntryView, f2: FileEntryView) -> bool {
    f1.content_hash.len() > 0 && f1.content_hash == f2.content_hash
}

/// Largest size for which `10 * size` fits in 64 bits.
pub const SIZE_SCALE_LIMIT: u64 = 1844674407370955161;

/// `0.3 * min / max` of two positive sizes; above [`SIZE_SCALE_LIMIT`] both
/// sizes are divided by 16 first so that the fraction fits in 64 bits.
pub open spec fn spec_size_estimate(a: u64, b: u64) -> Ratio {
    let lo = if a <= b { a } else { b };
    let hi = if a <= b { b } else { a };
    if hi <= SIZE_SCALE_LIMIT {
        Ratio { num: (3 * lo) as u64, den: (10 * hi) as u64 }
    } else {
        Ratio { num: (3 * (lo / 16)) as u64, den: (10 * (hi / 16)) as u64 }
    }
}

/// Estimated similarity: equal hashes, then fingerprints, then equal
/// schemas, then the size ratio, then zero.
pub open spec fn spec_estimate(f1: FileEntryView, f2: FileEntryView) -> Ratio {
    if hashes_match(f1, f2) {
        Ratio { num: 1, den: 1 }
    } else if f1.simhash is Some && f2.simhash is Some {
        spec_simhash_similarity(f1.simhash->0, f2.simhash->0)
    } else if f1.schema_signature is Some && f2.schema_signature is Some
        && f1.schema_signature->0 == f2.schema_signature->0 {
        Ratio { num: 1, den: 2 }
    } else if f1.size > 0 && f2.size > 0 {
        spec_size_estimate(f1.size, f2.size)
    } else {
        Ratio { num: 0, den: 1 }
    }
}

fn size_estimate(a: u64, b: u64) -> (r: Ratio)
    requires
        a > 0,
        b > 0,
    ensures
        r == spec_size_estimate(a, b),
        r.wf(),
{
    let lo = if a <= b { a } else { b };
    let hi = if a <= b { b } else { a };
    if hi <= SIZE_SCALE_LIMIT {
        Ratio { num: 3 * lo, den: 10 * hi }
    } else {
        Ratio { num: 3 * (lo / 16), den: 10 * (hi / 16) }
    }
}

/// Fingerprint-based similarity estimate of two entries.
pub fn estimate_similarity(f1: &FileEntry, f2: &FileEntry) -> (r: Ratio)
    ensures
        r == spec_estimate(f1@, f2@),
        r.wf(),
{
    if !f1.content_hash.as_str().is_empty() && f1.content_hash == f2.content_hash {
        return Ratio::one();
    }
    match (f1.simhash, f2.simhash) {
        (Some(h1), Some(h2)) => {
            return simhash_similarity(h1, h2);
        },
        _ => {},
    }
    match (&f1.schema_signature, &f2.schema_signature) {
        (Some(s1), Some(s2)) => {
            if str_eq(s1.as_str(), s2.as_str()) {
                return Ratio { num: 1, den: 2 };
            }
        },
        _ => {},
    }
    if f1.size > 0 && f2.size > 0 {
        return size_estimate(f1.size, f2.size);
    }
    Ratio::zero()
}

} // verus!

verus! {

/// The pair of two entries, with its estimate and hash flag.
pub open spec fn spec_candidate(f1: FileEntryView, f2: FileEntryView) -> CandidateView {
    CandidateView {
        file1: f1,
        file2: f2,
        estimated_similarity: spec_estimate(f1, f2),
        exact_hash_match: hashes_match(f1, f2),
    }
}

/// Builds the pair of two entries.
pub fn make_candidate(f1: &FileEntry, f2: &FileEntry) -> (r: CandidatePair)
    ensures
        r@ == spec_candidate(f1@, f2@),
{
    let est = estimate_similarity(f1, f2);
    let exact = !f1.content_hash.as_str().is_empty() && f1.content_hash == f2.content_hash;
    CandidatePair { file1: f1.copy(), file2: f2.copy(), estimated_similarity: est, exact_hash_match: exact }
}

/// Index of the first entry whose relative path is `p`, or -1.
pub open spec fn find_path(f2: Seq<FileEntryView>, p: Seq<char>) -> int
    decreases f2.len(),
{
    if f2.len() == 0 {
        -1
    } else {
        let k = find_path(f2.drop_last(), p);
        if k >= 0 {
            k
        } else if f2.last().relative_path == p {
            f2.len() - 1
        } else {
            -1
        }
    }
}

/// Same-path pairing: each left entry, in order, with the first right entry
/// that has its relative path.
pub open spec fn spec_match_by_path(f1: Seq<FileEntryView>, f2: Seq<FileEntryView>) -> Seq<
    CandidateView,
>
    decreases f1.len(),
{
    if f1.len() == 0 {
        Seq::empty()
    } else {
        let prev = spec_match_by_path(f1.drop_last(), f2);
        let j = find_path(f2, f1.last().relative_path);
        if j >= 0 {
            prev.push(spec_candidate(f1.last(), f2[j]))
        } else {
            prev
        }
    }
}

proof fn lemma_find_path_range(f2: Seq<FileEntryView>, p: Seq<char>)
    ensures
        -1 <= find_path(f2, p) < f2.len(),
        find_path(f2, p) >= 0 ==> f2[find_path(f2, p)].relative_path == p,
    decreases f2.len(),
{
    if f2.len() > 0 {
        lemma_find_path_range(f2.drop_last(), p);
    }
}

fn find_by_path(files2: &Vec<FileEntry>, p: &String) -> (r: Option<usize>)
    ensures
        match r {
            Some(j) => find_path(entries_view(files2@), p@) == j as int,
            None => find_path(entries_view(files2@), p@) == -1,
        },
{
    let ghost v = entries_view(files2@);
    let mut j: usize = 0;
    while j < files2.len()
        invariant
            j <= files2.len(),
            v == entries_view(files2@),
            find_path(v.take(j as int), p@) == -1,
        decreases files2.len() - j,
    {
        assert(v.take(j + 1).drop_last() =~= v.take(j as int));
        if files2[j].relative_path == *p {
            proof {
                lemma_find_path_stable(v, p@, j + 1);
            }
            return Some(j);
        }
        j += 1;
    }
    assert(v.take(j as int) =~= v);
    None
}

proof fn lemma_find_path_stable(v: Seq<FileEntryView>, p: Seq<char>, n: int)
    requires
        0 < n <= v.len(),
        find_path(v.take(n), p) >= 0,
    ensures
        find_path(v, p) == find_path(v.take(n), p),
    decreases v.len() - n,
{
    if n < v.len() {
        assert(v.take(n + 1).drop_last() =~= v.take(n));
        lemma_find_path_stable(v, p, n + 1);
    } else {
        assert(v.take(n) =~= v);
    }
}

/// Pairs entries whose relative paths are equal.
pub fn match_by_path(files1: &Vec<FileEntry>, files2: &Vec<FileEntry>) -> (r: Vec<CandidatePair>)
    ensures
        pairs_view(r@) == spec_match_by_path(entries_view(files1@), entries_view(files2@)),
{
    let ghost v1 = entries_view(files1@);
    let ghost v2 = entries_view(files2@);
    let mut r: Vec<CandidatePair> = Vec::new();
    for i in 0..files1.len()
        invariant
            v1 == entries_view(files1@),
            v2 == entries_view(files2@),
            pairs_view(r@) == spec_match_by_path(v1.take(i as int), v2),
    {
        assert(v1.take(i + 1).drop_last() =~= v1.take(i as int));
        assert(v1.take(i + 1).last() == files1@[i as int]@);
        match find_by_path(files2, &files1[i].relative_path) {
            Some(j) => {
                proof {
                    lemma_find_path_range(v2, files1@[i as int].relative_path@);
                }
                let c = make_candidate(&files1[i], &files2[j]);
                r.push(c);
                assert(pairs_view(r@) =~= spec_match_by_path(v1.take(i + 1), v2));
            },
            None => {},
        }
    }
    assert(v1.take(files1.len() as int) =~= v1);
    r
}

} // verus!

verus! {

/// Index of the right entry named `name` with the greatest estimate against
/// `l`, the last of several equal ones; -1 if no entry has that name.
pub open spec fn best_by_name(f2: Seq<FileEntryView>, l: FileEntryView, name: Seq<char>) -> int
    decreases f2.len(),
{
    if f2.len() == 0 {
        -1
    } else {
        let k = best_by_name(f2.drop_last(), l, name);
        let j = f2.len() - 1;
        if spec_file_name(f2[j].relative_path) == name && (k < 0 || spec_estimate(
            l,
            f2[j],
        ).spec_ge(spec_estimate(l, f2[k]))) {
            j
        } else {
            k
        }
    }
}

/// Same-name pairing: each left entry with a file name, in order, with the
/// best-estimated right entry of that name.
pub open spec fn spec_match_by_name(f1: Seq<FileEntryView>, f2: Seq<FileEntryView>) -> Seq<
    CandidateView,
>
    decreases f1.len(),
{
    if f1.len() == 0 {
        Seq::empty()
    } else {
        let prev = spec_match_by_name(f1.drop_last(), f2);
        let l = f1.last();
        let name = spec_file_name(l.relative_path);
        let j = if name.len() > 0 {
            best_by_name(f2, l, name)
        } else {
            -1
        };
        if j >= 0 {
            prev.push(spec_candidate(l, f2[j]))
        } else {
            prev
        }
    }
}

proof fn lemma_best_by_name_range(f2: Seq<FileEntryView>, l: FileEntryView, name: Seq<char>)
    ensures
        -1 <= best_by_name(f2, l, name) < f2.len(),
    decreases f2.len(),
{
    if f2.len() > 0 {
        lemma_best_by_name_range(f2.drop_last(), l, name);
    }
}

fn best_named(files2: &Vec<FileEntry>, names2: &Vec<Vec<char>>, l: &FileEntry, name: &Vec<char>) -> (r:
    Option<usize>)
    requires
        names2.len() == files2.len(),
        forall|j: int|
            0 <= j < files2.len() ==> names2@[j]@ == spec_file_name(files2@[j].relative_path@),
    ensures
        match r {
            Some(j) => best_by_name(entries_view(files2@), l@, name@) == j as int,
            None => best_by_name(entries_view(files2@), l@, name@) == -1,
        },
{
    let ghost v = entries_view(files2@);
    let mut best: Option<usize> = None;
    let mut best_est = Ratio::zero();
    for j in 0..files2.len()
        invariant
            v == entries_view(files2@),
            names2.len() == files2.len(),
            forall|j: int|
                0 <= j < files2.len() ==> names2@[j]@ == spec_file_name(files2@[j].relative_path@),
            match best {
                Some(b) => b < j && best_by_name(v.take(j as int), l@, name@) == b as int
                    && best_est == spec_estimate(l@, v[b as int]),
                None => best_by_name(v.take(j as int), l@, name@) == -1,
            },
    {
        assert(v.take(j + 1).drop_last() =~= v.take(j as int));
        assert(v.take(j + 1)[j as int] == v[j as int]);
        if chars_eq(&names2[j], name) {
            let e = estimate_similarity(l, &files2[j]);
            let better = match best {
                Some(_) => e.ge(&best_est),
                None => true,
            };
            if better {
                best = Some(j);
                best_est = e;
            }
        }
    }
    assert(v.take(files2.len() as int) =~= v);
    best
}

/// Pairs each left entry with the best-estimated right entry of the same
/// file name.
pub fn match_by_name(files1: &Vec<FileEntry>, files2: &Vec<FileEntry>) -> (r: Vec<CandidatePair>)
    ensures
        pairs_view(r@) == spec_match_by_name(entries_view(files1@), entries_view(files2@)),
{
    let ghost v1 = entries_view(files1@);
    let ghost v2 = entries_view(files2@);
    let mut names2: Vec<Vec<char>> = Vec::new();
    for j in 0..files2.len()
        invariant
            names2.len() == j,
            forall|k: int|
                0 <= k < j ==> names2@[k]@ == spec_file_name(files2@[k].relative_path@),
    {
        names2.push(file_name(files2[j].relative_path.as_str()));
    }
    let mut r: Vec<CandidatePair> = Vec::new();
    for i in 0..files1.len()
        invariant
            v1 == entries_view(files1@),
            v2 == entries_view(files2@),
            names2.len() == files2.len(),
            forall|k: int|
                0 <= k < files2.len() ==> names2@[k]@ == spec_file_name(files2@[k].relative_path@),
            pairs_view(r@) == spec_match_by_name(v1.take(i as int), v2),
    {
        assert(v1.take(i + 1).drop_last() =~= v1.take(i as int));
        assert(v1.take(i + 1).last() == files1@[i as int]@);
        let name = file_name(files1[i].relative_path.as_str());
        if name.len() > 0 {
            match best_named(files2, &names2, &files1[i], &name) {
                Some(j) => {
                    proof {
                        lemma_best_by_name_range(v2, files1@[i as int]@, name@);
                    }
                    let c = make_candidate(&files1[i], &files2[j]);
                    r.push(c);
                    assert(pairs_view(r@) =~= spec_match_by_name(v1.take(i + 1), v2));
                },
                None => {},
            }
        }
    }
    assert(v1.take(files1.len() as int) =~= v1);
    r
}

} // verus!

verus! {

/// Some pair already holds a right entry with path `p`.
pub open spec fn right_used(pairs: Seq<CandidateView>, p: Seq<char>) -> bool {
    exists|k: int| 0 <= k < pairs.len() && pairs[k].file2.path == p
}

/// Some pair already holds a left entry with path `p`.
pub open spec fn left_used(pairs: Seq<CandidateView>, p: Seq<char>) -> bool {
    exists|k: int| 0 <= k < pairs.len() && pairs[k].file1.path == p
}

/// Index of the first right entry with hash `h` whose path no pair holds
/// yet, or -1.
pub open spec fn first_unused(f2: Seq<FileEntryView>, h: Seq<char>, pairs: Seq<CandidateView>) -> int
    decreases f2.len(),
{
    if f2.len() == 0 {
        -1
    } else {
        let k = first_unused(f2.drop_last(), h, pairs);
        if k >= 0 {
            k
        } else if f2.last().content_hash == h && !right_used(pairs, f2.last().path) {
            f2.len() - 1
        } else {
            -1
        }
    }
}

/// A pair of two entries with equal content.
pub open spec fn exact_candidate(l: FileEntryView, r: FileEntryView) -> CandidateView {
    CandidateView {
        file1: l,
        file2: r,
        estimated_similarity: Ratio { num: 1, den: 1 },
        exact_hash_match: true,
    }
}

/// Greedy exact-hash pass: each hashed left entry, in order, with the first
/// right entry of the same hash that is not taken yet.
pub open spec fn spec_exact_matches(f1: Seq<FileEntryView>, f2: Seq<FileEntryView>) -> Seq<
    CandidateView,
>
    decreases f1.len(),
{
    if f1.len() == 0 {
        Seq::empty()
    } else {
        let prev = spec_exact_matches(f1.drop_last(), f2);
        let l = f1.last();
        let j = first_unused(f2, l.content_hash, prev);
        if l.content_hash.len() > 0 && j >= 0 {
            prev.push(exact_candidate(l, f2[j]))
        } else {
            prev
        }
    }
}

proof fn lemma_first_unused_range(f2: Seq<FileEntryView>, h: Seq<char>, pairs: Seq<CandidateView>)
    ensures
        -1 <= first_unused(f2, h, pairs) < f2.len(),
        first_unused(f2, h, pairs) >= 0 ==> !right_used(pairs, f2[first_unused(f2, h, pairs)].path)
            && f2[first_unused(f2, h, pairs)].content_hash == h,
    decreases f2.len(),
{
    if f2.len() > 0 {
        lemma_first_unused_range(f2.drop_last(), h, pairs);
    }
}

proof fn lemma_first_unused_stable(
    v: Seq<FileEntryView>,
    h: Seq<char>,
    pairs: Seq<CandidateView>,
    n: int,
)
    requires
        0 < n <= v.len(),
        first_unused(v.take(n), h, pairs) >= 0,
    ensures
        first_unused(v, h, pairs) == first_unused(v.take(n), h, pairs),
    decreases v.len() - n,
{
    if n < v.len() {
        assert(v.take(n + 1).drop_last() =~= v.take(n));
        lemma_first_unused_stable(v, h, pairs, n + 1);
    } else {
        assert(v.take(n) =~= v);
    }
}

fn is_right_used(pairs: &Vec<CandidatePair>, p: &String) -> (r: bool)
    ensures
        r == right_used(pairs_view(pairs@), p@),
{
    let ghost pv = pairs_view(pairs@);
    for k in 0..pairs.len()
        invariant
            pv == pairs_view(pairs@),
            forall|m: int| 0 <= m < k ==> pv[m].file2.path != p@,
    {
        if pairs[k].file2.path == *p {
            assert(pv[k as int].file2.path == p@);
            return true;
        }
    }
    false
}

fn is_left_used(pairs: &Vec<CandidatePair>, p: &String) -> (r: bool)
    ensures
        r == left_used(pairs_view(pairs@), p@),
{
    let ghost pv = pairs_view(pairs@);
    for k in 0..pairs.len()
        invariant
            pv == pairs_view(pairs@),
            forall|m: int| 0 <= m < k ==> pv[m].file1.path != p@,
    {
        if pairs[k].file1.path == *p {
            assert(pv[k as int].file1.path == p@);
            return true;
        }
    }
    false
}

fn find_unused(files2: &Vec<FileEntry>, h: &String, pairs: &Vec<CandidatePair>) -> (r: Option<usize>)
    ensures
        match r {
            Some(j) => first_unused(entries_view(files2@), h@, pairs_view(pairs@)) == j as int,
            None => first_unused(entries_view(files2@), h@, pairs_view(pairs@)) == -1,
        },
{
    let ghost v = entries_view(files2@);
    let ghost pv = pairs_view(pairs@);
    let mut j: usize = 0;
    while j < files2.len()
        invariant
            j <= files2.len(),
            v == entries_view(files2@),
            pv == pairs_view(pairs@),
            first_unused(v.take(j as int), h@, pv) == -1,
        decreases files2.len() - j,
    {
        assert(v.take(j + 1).drop_last() =~= v.take(j as int));
        if files2[j].content_hash == *h && !is_right_used(pairs, &files2[j].path) {
            proof {
                lemma_first_unused_stable(v, h@, pv, j + 1);
            }
            return Some(j);
        }
        j += 1;
    }
    assert(v.take(j as int) =~= v);
    None
}

/// Greedy one-to-one pairing of entries with equal content hashes; each
/// right entry is used at most once.
pub fn find_exact_hash_matches(files1: &Vec<FileEntry>, files2: &Vec<FileEntry>) -> (r: Vec<
    CandidatePair,
>)
    ensures
        pairs_view(r@) == spec_exact_matches(entries_view(files1@), entries_view(files2@)),
{
    let ghost v1 = entries_view(files1@);
    let ghost v2 = entries_view(files2@);
    let mut r: Vec<CandidatePair> = Vec::new();
    for i in 0..files1.len()
        invariant
            v1 == entries_view(files1@),
            v2 == entries_view(files2@),
            pairs_view(r@) == spec_exact_matches(v1.take(i as int), v2),
    {
        assert(v1.take(i + 1).drop_last() =~= v1.take(i as int));
        assert(v1.take(i + 1).last() == files1@[i as int]@);
        if !files1[i].content_hash.as_str().is_empty() {
            match find_unused(files2, &files1[i].content_hash, &r) {
                Some(j) => {
                    proof {
                        lemma_first_unused_range(v2, files1@[i as int].content_hash@, pairs_view(r@));
                    }
                    let c = CandidatePair {
                        file1: files1[i].copy(),
                        file2: files2[j].copy(),
                        estimated_similarity: Ratio::one(),
                        exact_hash_match: true,
                    };
                    r.push(c);
                    assert(pairs_view(r@) =~= spec_exact_matches(v1.take(i + 1), v2));
                },
                None => {
                    assert(pairs_view(r@) =~= spec_exact_matches(v1.take(i + 1), v2));
                },
            }
        }
    }
    assert(v1.take(files1.len() as int) =~= v1);
    r
}

} // verus!

verus! {

/// Index of the first right entry that passes the blocking rules against
/// `l`, is not in `chosen`, and has the greatest estimate; -1 if none.
pub open spec fn pick_best(l: FileEntryView, f2: Seq<FileEntryView>, chosen: Seq<int>) -> int
    decreases f2.len(),
{
    if f2.len() == 0 {
        -1
    } else {
        let k = pick_best(l, f2.drop_last(), chosen);
        let j = f2.len() - 1;
        if spec_passes_blocking(l, f2[j]) && !chosen.contains(j) && (k < 0 || !spec_estimate(
            l,
            f2[k],
        ).spec_ge(spec_estimate(l, f2[j]))) {
            j
        } else {
            k
        }
    }
}

/// The right entries chosen for `l`: up to `n` of them, best first, ties
/// broken by position.
pub open spec fn spec_top_k(l: FileEntryView, f2: Seq<FileEntryView>, n: nat) -> Seq<int>
    decreases n,
{
    if n == 0 {
        Seq::empty()
    } else {
        let prev = spec_top_k(l, f2, (n - 1) as nat);
        let j = pick_best(l, f2, prev);
        if j >= 0 {
            prev.push(j)
        } else {
            prev
        }
    }
}

/// A pair found by the similarity pass.
pub open spec fn similar_candidate(l: FileEntryView, r: FileEntryView) -> CandidateView {
    CandidateView {
        file1: l,
        file2: r,
        estimated_similarity: spec_estimate(l, r),
        exact_hash_match: false,
    }
}

pub open spec fn picks_to_pairs(l: FileEntryView, f2: Seq<FileEntryView>, picks: Seq<int>) -> Seq<
    CandidateView,
> {
    picks.map_values(|j: int| similar_candidate(l, f2[j]))
}

/// Similarity pass: for each left entry in order, its top `k` right entries.
pub open spec fn spec_similarity_matches(f1: Seq<FileEntryView>, f2: Seq<FileEntryView>, k: nat) -> Seq<
    CandidateView,
>
    decreases f1.len(),
{
    if f1.len() == 0 {
        Seq::empty()
    } else {
        spec_similarity_matches(f1.drop_last(), f2, k) + picks_to_pairs(
            f1.last(),
            f2,
            spec_top_k(f1.last(), f2, k),
        )
    }
}

proof fn lemma_pick_best_range(l: FileEntryView, f2: Seq<FileEntryView>, chosen: Seq<int>)
    ensures
        -1 <= pick_best(l, f2, chosen) < f2.len(),
    decreases f2.len(),
{
    if f2.len() > 0 {
        lemma_pick_best_range(l, f2.drop_last(), chosen);
    }
}

proof fn lemma_top_k_range(l: FileEntryView, f2: Seq<FileEntryView>, n: nat)
    ensures
        spec_top_k(l, f2, n).len() <= n,
        forall|i: int| 0 <= i < spec_top_k(l, f2, n).len() ==> 0 <= #[trigger] spec_top_k(l, f2, n)[i] < f2.len(),
    decreases n,
{
    if n > 0 {
        lemma_top_k_range(l, f2, (n - 1) as nat);
        lemma_pick_best_range(l, f2, spec_top_k(l, f2, (n - 1) as nat));
    }
}

proof fn lemma_top_k_saturates(l: FileEntryView, f2: Seq<FileEntryView>, n: nat, m: nat)
    requires
        n <= m,
        pick_best(l, f2, spec_top_k(l, f2, n)) < 0,
    ensures
        spec_top_k(l, f2, m) == spec_top_k(l, f2, n),
    decreases m - n,
{
    if m > n {
        lemma_top_k_saturates(l, f2, n, (m - 1) as nat);
    }
}

fn contains_index(v: &Vec<usize>, j: usize) -> (r: bool)
    ensures
        r == v@.map_values(|x: usize| x as int).contains(j as int),
{
    let ghost s = v@.map_values(|x: usize| x as int);
    for k in 0..v.len()
        invariant
            s == v@.map_values(|x: usize| x as int),
            forall|m: int| 0 <= m < k ==> s[m] != j as int,
    {
        if v[k] == j {
            assert(s[k as int] == j as int);
            return true;
        }
    }
    false
}

fn pick_next(l: &FileEntry, files2: &Vec<FileEntry>, chosen: &Vec<usize>) -> (r: Option<usize>)
    ensures
        match r {
            Some(j) => pick_best(l@, entries_view(files2@), chosen@.map_values(|x: usize| x as int))
                == j as int,
            None => pick_best(l@, entries_view(files2@), chosen@.map_values(|x: usize| x as int))
                == -1,
        },
{
    let ghost v = entries_view(files2@);
    let ghost cs = chosen@.map_values(|x: usize| x as int);
    let mut best: Option<usize> = None;
    let mut best_est = Ratio::zero();
    for j in 0..files2.len()
        invariant
            v == entries_view(files2@),
            cs == chosen@.map_values(|x: usize| x as int),
            match best {
                Some(b) => b < j && pick_best(l@, v.take(j as int), cs) == b as int && best_est
                    == spec_estimate(l@, v[b as int]),
                None => pick_best(l@, v.take(j as int), cs) == -1,
            },
    {
        assert(v.take(j + 1).drop_last() =~= v.take(j as int));
        assert(v.take(j + 1)[j as int] == v[j as int]);
        if passes_blocking_rules(l, &files2[j]) && !contains_index(chosen, j) {
            let e = estimate_similarity(l, &files2[j]);
            let better = match best {
                Some(_) => !best_est.ge(&e),
                None => true,
            };
            if better {
                best = Some(j);
                best_est = e;
            }
        }
    }
    assert(v.take(files2.len() as int) =~= v);
    best
}

/// For each left entry, the `top_k` right entries that pass the blocking
/// rules with the highest estimates.
pub fn find_similarity_matches(files1: &Vec<FileEntry>, files2: &Vec<FileEntry>, top_k: usize) -> (r:
    Vec<CandidatePair>)
    ensures
        pairs_view(r@) == spec_similarity_matches(
            entries_view(files1@),
            entries_view(files2@),
            top_k as nat,
        ),
{
    let ghost v1 = entries_view(files1@);
    let ghost v2 = entries_view(files2@);
    let mut r: Vec<CandidatePair> = Vec::new();
    for i in 0..files1.len()
        invariant
            v1 == entries_view(files1@),
            v2 == entries_view(files2@),
            pairs_view(r@) == spec_similarity_matches(v1.take(i as int), v2, top_k as nat),
    {
        assert(v1.take(i + 1).drop_last() =~= v1.take(i as int));
        assert(v1.take(i + 1).last() == files1@[i as int]@);
        let ghost l = files1@[i as int]@;
        let mut chosen: Vec<usize> = Vec::new();
        let mut t: usize = 0;
        let mut done = false;
        while t < top_k && !done
            invariant
                v2 == entries_view(files2@),
                i < files1.len(),
                l == files1@[i as int]@,
                t <= top_k,
                chosen@.map_values(|x: usize| x as int) == spec_top_k(l, v2, t as nat),
                done ==> pick_best(l, v2, spec_top_k(l, v2, t as nat)) < 0,
            decreases top_k - t + (if done { 0int } else { 1int }),
        {
            match pick_next(&files1[i], files2, &chosen) {
                Some(j) => {
                    chosen.push(j);
                    assert(chosen@.map_values(|x: usize| x as int) =~= spec_top_k(l, v2, (t + 1) as nat));
                    t += 1;
                },
                None => {
                    done = true;
                },
            }
        }
        proof {
            if done {
                lemma_top_k_saturates(l, v2, t as nat, top_k as nat);
            }
            lemma_top_k_range(l, v2, top_k as nat);
        }
        let ghost picks = spec_top_k(l, v2, top_k as nat);
        let ghost before = pairs_view(r@);
        for m in 0..chosen.len()
            invariant
                v2 == entries_view(files2@),
                i < files1.len(),
                l == files1@[i as int]@,
                chosen@.map_values(|x: usize| x as int) == picks,
                forall|q: int| 0 <= q < picks.len() ==> 0 <= #[trigger] picks[q] < v2.len(),
                pairs_view(r@) == before + picks_to_pairs(l, v2, picks.take(m as int)),
        {
            assert(picks[m as int] == chosen@[m as int] as int);
            let j = chosen[m];
            let c = CandidatePair {
                file1: files1[i].copy(),
                file2: files2[j].copy(),
                estimated_similarity: estimate_similarity(&files1[i], &files2[j]),
                exact_hash_match: false,
            };
            assert(c@ == similar_candidate(l, v2[picks[m as int]]));
            assert(picks.take(m + 1) =~= picks.take(m as int).push(picks[m as int]));
            assert(picks_to_pairs(l, v2, picks.take(m + 1)) =~= picks_to_pairs(
                l,
                v2,
                picks.take(m as int),
            ).push(similar_candidate(l, v2[picks[m as int]])));
            let ghost pv0 = pairs_view(r@);
            r.push(c);
            assert(pairs_view(r@) =~= pv0.push(c@));
            assert(pairs_view(r@) =~= before + picks_to_pairs(l, v2, picks.take(m + 1)));
        }
        assert(picks.take(chosen.len() as int) =~= picks);
        assert(pairs_view(r@) =~= spec_similarity_matches(v1.take(i + 1), v2, top_k as nat));
    }
    assert(v1.take(files1.len() as int) =~= v1);
    r
}

} // verus!

verus! {

/// The left entries whose path no pair holds.
pub open spec fn unmatched_left(f1: Seq<FileEntryView>, pairs: Seq<CandidateView>) -> Seq<FileEntryView>
    decreases f1.len(),
{
    if f1.len() == 0 {
        Seq::empty()
    } else {
        let prev = unmatched_left(f1.drop_last(), pairs);
        if left_used(pairs, f1.last().path) {
            prev
        } else {
            prev.push(f1.last())
        }
    }
}

/// The right entries whose path no pair holds.
pub open spec fn unmatched_right(f2: Seq<FileEntryView>, pairs: Seq<CandidateView>) -> Seq<
    FileEntryView,
>
    decreases f2.len(),
{
    if f2.len() == 0 {
        Seq::empty()
    } else {
        let prev = unmatched_right(f2.drop_last(), pairs);
        if right_used(pairs, f2.last().path) {
            prev
        } else {
            prev.push(f2.last())
        }
    }
}

fn unmatched(files: &Vec<FileEntry>, pairs: &Vec<CandidatePair>, left: bool) -> (r: Vec<FileEntry>)
    ensures
        left ==> entries_view(r@) == unmatched_left(entries_view(files@), pairs_view(pairs@)),
        !left ==> entries_view(r@) == unmatched_right(entries_view(files@), pairs_view(pairs@)),
{
    let ghost v = entries_view(files@);
    let ghost pv = pairs_view(pairs@);
    let mut r: Vec<FileEntry> = Vec::new();
    for i in 0..files.len()
        invariant
            v == entries_view(files@),
            pv == pairs_view(pairs@),
            left ==> entries_view(r@) == unmatched_left(v.take(i as int), pv),
            !left ==> entries_view(r@) == unmatched_right(v.take(i as int), pv),
    {
        assert(v.take(i + 1).drop_last() =~= v.take(i as int));
        assert(v.take(i + 1).last() == files@[i as int]@);
        let used = if left {
            is_left_used(pairs, &files[i].path)
        } else {
            is_right_used(pairs, &files[i].path)
        };
        if !used {
            let ghost r0 = entries_view(r@);
            r.push(files[i].copy());
            assert(entries_view(r@) =~= r0.push(files@[i as int]@));
        }
    }
    assert(v.take(files.len() as int) =~= v);
    r
}

/// Inserts `x` after every element whose estimate is at least its own.
pub open spec fn insert_desc(s: Seq<CandidateView>, x: CandidateView) -> Seq<CandidateView>
    decreases s.len(),
{
    if s.len() == 0 {
        seq![x]
    } else if s[0].estimated_similarity.spec_ge(x.estimated_similarity) {
        seq![s[0]] + insert_desc(s.drop_first(), x)
    } else {
        seq![x] + s
    }
}

/// Stable sort by estimated similarity, highest first.
pub open spec fn sort_desc(s: Seq<CandidateView>) -> Seq<CandidateView>
    decreases s.len(),
{
    if s.len() == 0 {
        s
    } else {
        insert_desc(sort_desc(s.drop_last()), s.last())
    }
}

proof fn lemma_insert_at(s: Seq<CandidateView>, x: CandidateView, p: int)
    requires
        0 <= p <= s.len(),
        forall|i: int| 0 <= i < p ==> s[i].estimated_similarity.spec_ge(x.estimated_similarity),
        p == s.len() || !s[p].estimated_similarity.spec_ge(x.estimated_similarity),
    ensures
        insert_desc(s, x) == s.insert(p, x),
    decreases p,
{
    if s.len() == 0 {
        assert(s.insert(p, x) =~= seq![x]);
    } else if p == 0 {
        assert(s.insert(p, x) =~= seq![x] + s);
    } else {
        let t = s.drop_first();
        assert forall|i: int| 0 <= i < p - 1 implies t[i].estimated_similarity.spec_ge(
            x.estimated_similarity,
        ) by {
            assert(t[i] == s[i + 1]);
        }
        lemma_insert_at(t, x, p - 1);
        assert(s.insert(p, x) =~= seq![s[0]] + t.insert(p - 1, x));
    }
}

/// Sorts pairs by estimated similarity, highest first, keeping the order
/// of equal ones.
pub fn sort_by_estimate(v: &Vec<CandidatePair>) -> (r: Vec<CandidatePair>)
    ensures
        pairs_view(r@) == sort_desc(pairs_view(v@)),
{
    let ghost pv = pairs_view(v@);
    let mut out: Vec<CandidatePair> = Vec::new();
    for i in 0..v.len()
        invariant
            pv == pairs_view(v@),
            pairs_view(out@) == sort_desc(pv.take(i as int)),
    {
        assert(pv.take(i + 1).drop_last() =~= pv.take(i as int));
        assert(pv.take(i + 1).last() == v@[i as int]@);
        let x = v[i].copy();
        let mut p: usize = 0;
        while p < out.len() && out[p].estimated_similarity.ge(&x.estimated_similarity)
            invariant
                p <= out.len(),
                forall|q: int|
                    0 <= q < p ==> (#[trigger] out@[q]).estimated_similarity.spec_ge(
                        x.estimated_similarity,
                    ),
            decreases out.len() - p,
        {
            p += 1;
        }
        let ghost o0 = pairs_view(out@);
        proof {
            lemma_insert_at(o0, x@, p as int);
        }
        out.insert(p, x);
        assert(pairs_view(out@) =~= o0.insert(p as int, x@));
    }
    assert(pv.take(v.len() as int) =~= pv);
    out
}

/// Keeps the first `max` elements when a ceiling is set.
pub open spec fn cap(s: Seq<CandidateView>, max: Option<usize>) -> Seq<CandidateView> {
    match max {
        Some(m) => if m < s.len() {
            s.take(m as int)
        } else {
            s
        },
        None => s,
    }
}

/// All-vs-all pairing: the exact-hash pass, then the similarity pass over
/// the entries it left, sorted by estimate and capped.
pub open spec fn spec_all_vs_all(
    f1: Seq<FileEntryView>,
    f2: Seq<FileEntryView>,
    k: nat,
    max: Option<usize>,
) -> Seq<CandidateView> {
    let exact = spec_exact_matches(f1, f2);
    let similar = spec_similarity_matches(unmatched_left(f1, exact), unmatched_right(f2, exact), k);
    cap(sort_desc(exact + similar), max)
}

/// Exact-hash pairs first, then the best candidates of the remaining files,
/// sorted by estimate (highest first) and capped at `max_pairs`.
pub fn all_vs_all_match(
    files1: &Vec<FileEntry>,
    files2: &Vec<FileEntry>,
    top_k: usize,
    max_pairs: Option<usize>,
) -> (r: Vec<CandidatePair>)
    ensures
        pairs_view(r@) == spec_all_vs_all(
            entries_view(files1@),
            entries_view(files2@),
            top_k as nat,
            max_pairs,
        ),
{
    let mut all = find_exact_hash_matches(files1, files2);
    let rest1 = unmatched(files1, &all, true);
    let rest2 = unmatched(files2, &all, false);
    let mut similar = find_similarity_matches(&rest1, &rest2, top_k);
    let ghost e = pairs_view(all@);
    let ghost s = pairs_view(similar@);
    all.append(&mut similar);
    assert(pairs_view(all@) =~= e + s);
    let mut sorted = sort_by_estimate(&all);
    match max_pairs {
        Some(m) => {
            let ghost before = pairs_view(sorted@);
            sorted.truncate(m);
            assert(pairs_view(sorted@) =~= cap(before, max_pairs));
        },
        None => {},
    }
    sorted
}

} // verus!

verus! {

/// The pairs that a strategy yields for two entry lists.
pub open spec fn spec_generate(
    f1: Seq<FileEntryView>,
    f2: Seq<FileEntryView>,
    pairing: PairingStrategy,
    k: nat,
    max: Option<usize>,
) -> Seq<CandidateView> {
    match pairing {
        PairingStrategy::SamePath => cap(spec_match_by_path(f1, f2), max),
        PairingStrategy::SameName => cap(spec_match_by_name(f1, f2), max),
        PairingStrategy::AllVsAll => spec_all_vs_all(f1, f2, k, max),
    }
}

/// Candidate pairs of the two entry lists under the configured strategy.
pub fn generate_candidates(files1: &Vec<FileEntry>, files2: &Vec<FileEntry>, config: &CompareConfig) -> (r:
    Vec<CandidatePair>)
    ensures
        pairs_view(r@) == spec_generate(
            entries_view(files1@),
            entries_view(files2@),
            config.pairing,
            config.top_k as nat,
            config.max_pairs,
        ),
{
    let mut r = match config.pairing {
        PairingStrategy::SamePath => match_by_path(files1, files2),
        PairingStrategy::SameName => match_by_name(files1, files2),
        PairingStrategy::AllVsAll => {
            return all_vs_all_match(files1, files2, config.top_k, config.max_pairs);
        },
    };
    match config.max_pairs {
        Some(m) => {
            let ghost before = pairs_view(r@);
            r.truncate(m);
            assert(pairs_view(r@) =~= cap(before, config.max_pairs));
        },
        None => {},
    }
    r
}

/// Every pair of the sequence takes its left entry from `f1` and its right
/// entry from `f2`.
pub open spec fn drawn_from(s: Seq<CandidateView>, f1: Seq<FileEntryView>, f2: Seq<FileEntryView>) -> bool {
    forall|q: int| 0 <= q < s.len() ==> f1.contains(#[trigger] s[q].file1) && f2.contains(s[q].file2)
}

proof fn lemma_path_drawn(f1: Seq<FileEntryView>, f2: Seq<FileEntryView>)
    ensures
        drawn_from(spec_match_by_path(f1, f2), f1, f2),
    decreases f1.len(),
{
    if f1.len() > 0 {
        lemma_path_drawn(f1.drop_last(), f2);
        lemma_find_path_range(f2, f1.last().relative_path);
        let prev = spec_match_by_path(f1.drop_last(), f2);
        assert forall|q: int| 0 <= q < prev.len() implies f1.contains(#[trigger] prev[q].file1) by {
            let i = choose|i: int| 0 <= i < f1.drop_last().len() && f1.drop_last()[i] == prev[q].file1;
            assert(f1[i] == prev[q].file1);
        }
        assert(f1[f1.len() - 1] == f1.last());
    }
}

proof fn lemma_name_drawn(f1: Seq<FileEntryView>, f2: Seq<FileEntryView>)
    ensures
        drawn_from(spec_match_by_name(f1, f2), f1, f2),
    decreases f1.len(),
{
    if f1.len() > 0 {
        lemma_name_drawn(f1.drop_last(), f2);
        lemma_best_by_name_range(f2, f1.last(), spec_file_name(f1.last().relative_path));
        let prev = spec_match_by_name(f1.drop_last(), f2);
        assert forall|q: int| 0 <= q < prev.len() implies f1.contains(#[trigger] prev[q].file1) by {
            let i = choose|i: int| 0 <= i < f1.drop_last().len() && f1.drop_last()[i] == prev[q].file1;
            assert(f1[i] == prev[q].file1);
        }
        assert(f1[f1.len() - 1] == f1.last());
    }
}

proof fn lemma_exact_drawn(f1: Seq<FileEntryView>, f2: Seq<FileEntryView>)
    ensures
        drawn_from(spec_exact_matches(f1, f2), f1, f2),
        forall|q: int|
            0 <= q < spec_exact_matches(f1, f2).len() ==> (#[trigger] spec_exact_matches(f1, f2)[q]).exact_hash_match,
    decreases f1.len(),
{
    if f1.len() > 0 {
        lemma_exact_drawn(f1.drop_last(), f2);
        let prev = spec_exact_matches(f1.drop_last(), f2);
        lemma_first_unused_range(f2, f1.last().content_hash, prev);
        assert forall|q: int| 0 <= q < prev.len() implies f1.contains(#[trigger] prev[q].file1) by {
            let i = choose|i: int| 0 <= i < f1.drop_last().len() && f1.drop_last()[i] == prev[q].file1;
            assert(f1[i] == prev[q].file1);
        }
        assert(f1[f1.len() - 1] == f1.last());
    }
}

proof fn lemma_unmatched_subset(f: Seq<FileEntryView>, pairs: Seq<CandidateView>)
    ensures
        forall|x: FileEntryView| unmatched_left(f, pairs).contains(x) ==> f.contains(x),
        forall|x: FileEntryView| unmatched_right(f, pairs).contains(x) ==> f.contains(x),
    decreases f.len(),
{
    if f.len() > 0 {
        lemma_unmatched_subset(f.drop_last(), pairs);
        assert forall|x: FileEntryView| f.drop_last().contains(x) implies f.contains(x) by {
            let i = choose|i: int| 0 <= i < f.drop_last().len() && f.drop_last()[i] == x;
            assert(f[i] == x);
        }
        assert(f[f.len() - 1] == f.last());
        let pl = unmatched_left(f.drop_last(), pairs);
        let pr = unmatched_right(f.drop_last(), pairs);
        assert forall|x: FileEntryView| pl.push(f.last()).contains(x) implies f.contains(x) by {
            let i = choose|i: int| 0 <= i < pl.push(f.last()).len() && pl.push(f.last())[i] == x;
            if i < pl.len() {
                assert(pl.contains(x));
            }
        }
        assert forall|x: FileEntryView| pr.push(f.last()).contains(x) implies f.contains(x) by {
            let i = choose|i: int| 0 <= i < pr.push(f.last()).len() && pr.push(f.last())[i] == x;
            if i < pr.len() {
                assert(pr.contains(x));
            }
        }
    }
}

proof fn lemma_similar_drawn(f1: Seq<FileEntryView>, f2: Seq<FileEntryView>, k: nat)
    ensures
        drawn_from(spec_similarity_matches(f1, f2, k), f1, f2),
        forall|q: int|
            0 <= q < spec_similarity_matches(f1, f2, k).len() ==> !(
            #[trigger] spec_similarity_matches(f1, f2, k)[q]).exact_hash_match,
    decreases f1.len(),
{
    if f1.len() > 0 {
        lemma_similar_drawn(f1.drop_last(), f2, k);
        let prev = spec_similarity_matches(f1.drop_last(), f2, k);
        let picks = spec_top_k(f1.last(), f2, k);
        lemma_top_k_range(f1.last(), f2, k);
        let add = picks_to_pairs(f1.last(), f2, picks);
        assert(f1[f1.len() - 1] == f1.last());
        assert forall|q: int| 0 <= q < prev.len() implies f1.contains(#[trigger] prev[q].file1) by {
            let i = choose|i: int| 0 <= i < f1.drop_last().len() && f1.drop_last()[i] == prev[q].file1;
            assert(f1[i] == prev[q].file1);
        }
        assert forall|q: int| 0 <= q < add.len() implies f2.contains(#[trigger] add[q].file2) by {
            assert(0 <= picks[q] < f2.len());
            assert(f2[picks[q]] == add[q].file2);
        }
        let all = prev + add;
        assert forall|q: int| 0 <= q < all.len() implies f1.contains(#[trigger] all[q].file1) && f2.contains(
            all[q].file2,
        ) && !all[q].exact_hash_match by {
            if q >= prev.len() {
                assert(all[q] == add[q - prev.len()]);
            }
        }
    }
}

proof fn lemma_insert_desc_contains(s: Seq<CandidateView>, x: CandidateView)
    ensures
        forall|y: CandidateView| insert_desc(s, x).contains(y) ==> y == x || s.contains(y),
        insert_desc(s, x).len() == s.len() + 1,
    decreases s.len(),
{
    if s.len() > 0 {
        lemma_insert_desc_contains(s.drop_first(), x);
        let t = insert_desc(s.drop_first(), x);
        assert forall|y: CandidateView| insert_desc(s, x).contains(y) implies y == x || s.contains(y) by {
            let i = choose|i: int| 0 <= i < insert_desc(s, x).len() && insert_desc(s, x)[i] == y;
            if s[0].estimated_similarity.spec_ge(x.estimated_similarity) {
                if i == 0 {
                    assert(s[0] == y);
                } else {
                    assert(t[i - 1] == y);
                    assert(t.contains(y));
                    if y != x {
                        assert(s.drop_first().contains(y));
                        let m = choose|m: int| 0 <= m < s.drop_first().len() && s.drop_first()[m] == y;
                        assert(s[m + 1] == y);
                    }
                }
            } else if i > 0 {
                assert(s[i - 1] == y);
            }
        }
    }
}

proof fn lemma_sort_desc_contains(s: Seq<CandidateView>)
    ensures
        forall|y: CandidateView| sort_desc(s).contains(y) ==> s.contains(y),
        sort_desc(s).len() == s.len(),
    decreases s.len(),
{
    if s.len() > 0 {
        lemma_sort_desc_contains(s.drop_last());
        lemma_insert_desc_contains(sort_desc(s.drop_last()), s.last());
        assert(s[s.len() - 1] == s.last());
        assert forall|y: CandidateView| s.drop_last().contains(y) implies s.contains(y) by {
            let i = choose|i: int| 0 <= i < s.drop_last().len() && s.drop_last()[i] == y;
            assert(s[i] == y);
        }
    }
}

/// Adjacent elements never increase in estimated similarity.
pub open spec fn non_increasing(s: Seq<CandidateView>) -> bool {
    forall|q: int|
        0 <= q < s.len() - 1 ==> (#[trigger] s[q]).estimated_similarity.spec_ge(
            s[q + 1].estimated_similarity,
        )
}

proof fn lemma_ge_total(a: Ratio, b: Ratio)
    ensures
        a.spec_ge(b) || b.spec_ge(a),
{
}

proof fn lemma_insert_desc_head(s: Seq<CandidateView>, x: CandidateView)
    ensures
        insert_desc(s, x).len() > 0,
        insert_desc(s, x)[0] == x || (s.len() > 0 && insert_desc(s, x)[0] == s[0]),
{
}

proof fn lemma_tail_non_increasing(s: Seq<CandidateView>)
    requires
        s.len() > 0,
        non_increasing(s),
    ensures
        non_increasing(s.drop_first()),
{
    let t = s.drop_first();
    assert forall|q: int| 0 <= q < t.len() - 1 implies (#[trigger] t[q]).estimated_similarity.spec_ge(
        t[q + 1].estimated_similarity,
    ) by {
        assert(t[q] == s[q + 1]);
        assert(t[q + 1] == s[q + 2]);
    }
}

proof fn lemma_cons_non_increasing(y: CandidateView, u: Seq<CandidateView>)
    requires
        non_increasing(u),
        u.len() > 0 ==> y.estimated_similarity.spec_ge(u[0].estimated_similarity),
    ensures
        non_increasing(seq![y] + u),
{
    let w = seq![y] + u;
    assert forall|q: int| 0 <= q < w.len() - 1 implies (#[trigger] w[q]).estimated_similarity.spec_ge(
        w[q + 1].estimated_similarity,
    ) by {
        if q > 0 {
            assert(w[q] == u[q - 1]);
            assert(w[q + 1] == u[q]);
        } else {
            assert(w[0] == y);
            assert(w[1] == u[0]);
        }
    }
}

#[verifier::rlimit(40)]
proof fn lemma_insert_desc_sorted(s: Seq<CandidateView>, x: CandidateView)
    requires
        non_increasing(s),
    ensures
        non_increasing(insert_desc(s, x)),
    decreases s.len(),
{
    if s.len() == 0 {
        lemma_cons_non_increasing(x, s);
        assert(seq![x] + s =~= seq![x]);
        assert(insert_desc(s, x) == seq![x]);
    } else {
        let t = s.drop_first();
        lemma_tail_non_increasing(s);
        if s[0].estimated_similarity.spec_ge(x.estimated_similarity) {
            lemma_insert_desc_sorted(t, x);
            let u = insert_desc(t, x);
            lemma_insert_desc_head(t, x);
            if t.len() > 0 {
                assert(s[1] == t[0]);
            }
            lemma_cons_non_increasing(s[0], u);
            assert(insert_desc(s, x) == seq![s[0]] + u);
        } else {
            lemma_ge_total(x.estimated_similarity, s[0].estimated_similarity);
            lemma_cons_non_increasing(x, s);
            assert(insert_desc(s, x) == seq![x] + s);
        }
    }
}

proof fn lemma_sort_desc_sorted(s: Seq<CandidateView>)
    ensures
        non_increasing(sort_desc(s)),
    decreases s.len(),
{
    if s.len() > 0 {
        lemma_sort_desc_sorted(s.drop_last());
        lemma_insert_desc_sorted(sort_desc(s.drop_last()), s.last());
    }
}

#[verifier::rlimit(50)]
proof fn lemma_all_vs_all_well_formed(
    f1: Seq<FileEntryView>,
    f2: Seq<FileEntryView>,
    k: nat,
    max: Option<usize>,
)
    ensures
        drawn_from(spec_all_vs_all(f1, f2, k, max), f1, f2),
        non_increasing(spec_all_vs_all(f1, f2, k, max)),
        max is Some ==> spec_all_vs_all(f1, f2, k, max).len() <= max->0,
        forall|q: int|
            0 <= q < spec_all_vs_all(f1, f2, k, max).len() && (#[trigger] spec_all_vs_all(
                f1,
                f2,
                k,
                max,
            )[q]).exact_hash_match ==> spec_exact_matches(f1, f2).contains(
                spec_all_vs_all(f1, f2, k, max)[q],
            ),
{
    let exact = spec_exact_matches(f1, f2);
    let u1 = unmatched_left(f1, exact);
    let u2 = unmatched_right(f2, exact);
    let similar = spec_similarity_matches(u1, u2, k);
    let all = exact + similar;
    let sorted = sort_desc(all);
    let r = cap(sorted, max);
    assert(r == spec_all_vs_all(f1, f2, k, max));
    lemma_exact_drawn(f1, f2);
    lemma_similar_drawn(u1, u2, k);
    lemma_unmatched_subset(f1, exact);
    lemma_unmatched_subset(f2, exact);
    lemma_sort_desc_contains(all);
    lemma_sort_desc_sorted(all);
    assert forall|q: int| 0 <= q < r.len() implies f1.contains(#[trigger] r[q].file1) && f2.contains(
        r[q].file2,
    ) && (r[q].exact_hash_match ==> exact.contains(r[q])) by {
        assert(r[q] == sorted[q]);
        assert(sorted.contains(sorted[q]));
        assert(all.contains(r[q]));
        let i = choose|i: int| 0 <= i < all.len() && all[i] == r[q];
        if i < exact.len() {
            assert(exact[i] == r[q]);
        } else {
            assert(similar[i - exact.len()] == r[q]);
            assert(u1.contains(r[q].file1));
            assert(u2.contains(r[q].file2));
        }
    }
    assert forall|q: int| 0 <= q < r.len() && (#[trigger] r[q]).exact_hash_match implies exact.contains(
        r[q],
    ) by {
        assert(f1.contains(r[q].file1));
    }
    assert forall|q: int| 0 <= q < r.len() - 1 implies (#[trigger] r[q]).estimated_similarity.spec_ge(
        r[q + 1].estimated_similarity,
    ) by {
        assert(r[q] == sorted[q]);
        assert(r[q + 1] == sorted[q + 1]);
    }
}

proof fn lemma_cap_drawn(
    s: Seq<CandidateView>,
    f1: Seq<FileEntryView>,
    f2: Seq<FileEntryView>,
    max: Option<usize>,
)
    requires
        drawn_from(s, f1, f2),
    ensures
        drawn_from(cap(s, max), f1, f2),
        max is Some ==> cap(s, max).len() <= max->0,
{
    let c = cap(s, max);
    assert forall|q: int| 0 <= q < c.len() implies f1.contains(#[trigger] c[q].file1) && f2.contains(
        c[q].file2,
    ) by {
        assert(c[q] == s[q]);
    }
}

/// Matcher laws: every pair takes its left entry from the left list and
/// its right entry from the right list; there are at most `max_pairs` of
/// them under every strategy; in all-vs-all pairing the pairs come sorted
/// by estimated similarity, highest first, and each pair flagged as an
/// exact hash match comes from the exact-hash pass.
pub proof fn lemma_candidates_well_formed(
    f1: Seq<FileEntryView>,
    f2: Seq<FileEntryView>,
    pairing: PairingStrategy,
    k: nat,
    max: Option<usize>,
)
    ensures
        drawn_from(spec_generate(f1, f2, pairing, k, max), f1, f2),
        pairing == PairingStrategy::AllVsAll ==> non_increasing(spec_generate(f1, f2, pairing, k, max)),
        max is Some ==> spec_generate(f1, f2, pairing, k, max).len() <= max->0,
        pairing == PairingStrategy::AllVsAll ==> forall|q: int|
            0 <= q < spec_generate(f1, f2, pairing, k, max).len() && (#[trigger] spec_generate(
                f1,
                f2,
                pairing,
                k,
                max,
            )[q]).exact_hash_match ==> spec_exact_matches(f1, f2).contains(
                spec_generate(f1, f2, pairing, k, max)[q],
            ),
{
    match pairing {
        PairingStrategy::SamePath => {
            lemma_path_drawn(f1, f2);
            lemma_cap_drawn(spec_match_by_path(f1, f2), f1, f2, max);
        },
        PairingStrategy::SameName => {
            lemma_name_drawn(f1, f2);
            lemma_cap_drawn(spec_match_by_name(f1, f2), f1, f2, max);
        },
        PairingStrategy::AllVsAll => lemma_all_vs_all_well_formed(f1, f2, k, max),
    }
}

} // verus!

verus! {

/// Exact-hash law: no right-side entry (identified by its path) appears in
/// more than one pair of the exact-hash pass.
pub proof fn lemma_exact_pass_right_unique(f1: Seq<FileEntryView>, f2: Seq<FileEntryView>)
    ensures
        forall|a: int, b: int|
            0 <= a < b < spec_exact_matches(f1, f2).len() ==> (#[trigger] spec_exact_matches(
                f1,
                f2,
            )[a]).file2.path != (#[trigger] spec_exact_matches(f1, f2)[b]).file2.path,
    decreases f1.len(),
{
    if f1.len() > 0 {
        lemma_exact_pass_right_unique(f1.drop_last(), f2);
        let prev = spec_exact_matches(f1.drop_last(), f2);
        let l = f1.last();
        lemma_first_unused_range(f2, l.content_hash, prev);
        let cur = spec_exact_matches(f1, f2);
        assert forall|a: int, b: int| 0 <= a < b < cur.len() implies (#[trigger] cur[a]).file2.path
            != (#[trigger] cur[b]).file2.path by {
            if b == prev.len() {
                assert(cur[a] == prev[a]);
                assert(!right_used(prev, cur[b].file2.path));
            } else {
                assert(cur[a] == prev[a]);
                assert(cur[b] == prev[b]);
            }
        }
    }
}

} // verus!

verus! {

/// No two pairs flagged as exact hash matches share a right-side path.
pub open spec fn exact_rights_distinct(s: Seq<CandidateView>) -> bool {
    forall|i: int, j: int|
        0 <= i < j < s.len() && (#[trigger] s[i]).exact_hash_match && (#[trigger] s[j]).exact_hash_match
            ==> s[i].file2.path != s[j].file2.path
}

/// `x`, if flagged, shares its right-side path with no flagged pair of `s`.
pub open spec fn exact_compatible(s: Seq<CandidateView>, x: CandidateView) -> bool {
    forall|y: CandidateView|
        s.contains(y) && y.exact_hash_match && x.exact_hash_match ==> y.file2.path != x.file2.path
}

proof fn lemma_insert_desc_distinct(s: Seq<CandidateView>, x: CandidateView)
    requires
        exact_rights_distinct(s),
        exact_compatible(s, x),
    ensures
        exact_rights_distinct(insert_desc(s, x)),
    decreases s.len(),
{
    if s.len() == 0 {
        assert(insert_desc(s, x) == seq![x]);
    } else if s[0].estimated_similarity.spec_ge(x.estimated_similarity) {
        let t = s.drop_first();
        assert(exact_rights_distinct(t)) by {
            assert forall|i: int, j: int|
                0 <= i < j < t.len() && (#[trigger] t[i]).exact_hash_match && (
                #[trigger] t[j]).exact_hash_match implies t[i].file2.path != t[j].file2.path by {
                assert(t[i] == s[i + 1]);
                assert(t[j] == s[j + 1]);
            }
        }
        assert(exact_compatible(t, x)) by {
            assert forall|y: CandidateView| t.contains(y) && y.exact_hash_match && x.exact_hash_match implies y.file2.path
                != x.file2.path by {
                let k = choose|k: int| 0 <= k < t.len() && t[k] == y;
                assert(s[k + 1] == y);
                assert(s.contains(y));
            }
        }
        lemma_insert_desc_distinct(t, x);
        lemma_insert_desc_contains(t, x);
        let u = insert_desc(t, x);
        let w = seq![s[0]] + u;
        assert(insert_desc(s, x) == w);
        assert forall|i: int, j: int|
            0 <= i < j < w.len() && (#[trigger] w[i]).exact_hash_match && (#[trigger] w[j]).exact_hash_match
                implies w[i].file2.path != w[j].file2.path by {
            if i == 0 {
                assert(w[j] == u[j - 1]);
                assert(u.contains(u[j - 1]));
                if u[j - 1] == x {
                    assert(s.contains(s[0]));
                } else {
                    assert(t.contains(u[j - 1]));
                    let k = choose|k: int| 0 <= k < t.len() && t[k] == u[j - 1];
                    assert(t[k] == s[k + 1]);
                    assert(s[k + 1] == u[j - 1]);
                    assert(s[0] == s[0]);
                    assert(w[i] == s[0]);
                }
            } else {
                assert(w[i] == u[i - 1]);
                assert(w[j] == u[j - 1]);
            }
        }
    } else {
        let w = seq![x] + s;
        assert(insert_desc(s, x) == w);
        assert forall|i: int, j: int|
            0 <= i < j < w.len() && (#[trigger] w[i]).exact_hash_match && (#[trigger] w[j]).exact_hash_match
                implies w[i].file2.path != w[j].file2.path by {
            assert(w[j] == s[j - 1]);
            if i == 0 {
                assert(s.contains(s[j - 1]));
            } else {
                assert(w[i] == s[i - 1]);
            }
        }
    }
}

proof fn lemma_sort_desc_distinct(s: Seq<CandidateView>)
    requires
        exact_rights_distinct(s),
    ensures
        exact_rights_distinct(sort_desc(s)),
    decreases s.len(),
{
    if s.len() > 0 {
        let init = s.drop_last();
        assert(exact_rights_distinct(init)) by {
            assert forall|i: int, j: int|
                0 <= i < j < init.len() && (#[trigger] init[i]).exact_hash_match && (
                #[trigger] init[j]).exact_hash_match implies init[i].file2.path != init[j].file2.path by {
                assert(init[i] == s[i]);
                assert(init[j] == s[j]);
            }
        }
        lemma_sort_desc_distinct(init);
        lemma_sort_desc_contains(init);
        let sorted = sort_desc(init);
        assert(exact_compatible(sorted, s.last())) by {
            assert forall|y: CandidateView|
                sorted.contains(y) && y.exact_hash_match && s.last().exact_hash_match implies y.file2.path
                    != s.last().file2.path by {
                assert(init.contains(y));
                let k = choose|k: int| 0 <= k < init.len() && init[k] == y;
                assert(s[k] == y);
                assert(s[s.len() - 1] == s.last());
            }
        }
        lemma_insert_desc_distinct(sorted, s.last());
    }
}

/// Exact-hash law of all-vs-all pairing: in the final, sorted and capped
/// list, no right-side entry (identified by its path) appears in more
/// than one pair flagged as an exact hash match.
pub proof fn lemma_all_vs_all_exact_unique(
    f1: Seq<FileEntryView>,
    f2: Seq<FileEntryView>,
    k: nat,
    max: Option<usize>,
)
    ensures
        exact_rights_distinct(spec_all_vs_all(f1, f2, k, max)),
{
    let exact = spec_exact_matches(f1, f2);
    let similar = spec_similarity_matches(unmatched_left(f1, exact), unmatched_right(f2, exact), k);
    let all = exact + similar;
    lemma_exact_pass_right_unique(f1, f2);
    lemma_similar_drawn(unmatched_left(f1, exact), unmatched_right(f2, exact), k);
    assert(exact_rights_distinct(all)) by {
        assert forall|i: int, j: int|
            0 <= i < j < all.len() && (#[trigger] all[i]).exact_hash_match && (#[trigger] all[j]).exact_hash_match
                implies all[i].file2.path != all[j].file2.path by {
            if j >= exact.len() {
                assert(all[j] == similar[j - exact.len()]);
            } else {
                assert(all[i] == exact[i]);
                assert(all[j] == exact[j]);
            }
        }
    }
    lemma_sort_desc_distinct(all);
    let sorted = sort_desc(all);
    let r = cap(sorted, max);
    assert forall|i: int, j: int|
        0 <= i < j < r.len() && (#[trigger] r[i]).exact_hash_match && (#[trigger] r[j]).exact_hash_match
            implies r[i].file2.path != r[j].file2.path by {
        assert(r[i] == sorted[i]);
        assert(r[j] == sorted[j]);
    }
}

} // verus!
