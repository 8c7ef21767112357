//! Exclude patterns of the indexer: glob matching of relative paths.

use vstd::prelude::*;
use crate::lines::lines_view;
use crate::strs::chars_of;

verus! {

/// Glob match: `**` matches any run of characters, `*` any run within
/// one path component, `?` any one character but `/`, every other
/// character itself.
pub open spec fn glob(p: Seq<char>, t: Seq<char>) -> bool
    decreases p.len() + t.len(),
{
    if p.len() == 0 {
        t.len() == 0
    } else if p.len() >= 2 && p[0] == '*' && p[1] == '*' {
        glob(p.skip(2), t) || (t.len() > 0 && glob(p, t.drop_first()))
    } else if p[0] == '*' {
        glob(p.drop_first(), t) || (t.len() > 0 && t[0] != '/' && glob(p, t.drop_first()))
    } else if t.len() == 0 {
        false
    } else if (p[0] == '?' && t[0] != '/') || p[0] == t[0] {
        glob(p.drop_first(), t.drop_first())
    } else {
        false
    }
}

fn glob_at(p: &Vec<char>, t: &Vec<char>, i: usize, j: usize) -> (r: bool)
    requires
        i <= p.len(),
        j <= t.len(),
    ensures
        r == glob(p@.skip(i as int), t@.skip(j as int)),
    decreases p.len() - i + t.len() - j,
{
    let ghost ps = p@.skip(i as int);
    let ghost ts = t@.skip(j as int);
    if i == p.len() {
        return j == t.len();
    }
    assert(ps.drop_first() =~= p@.skip(i + 1));
    if j < t.len() {
        assert(ts.drop_first() =~= t@.skip(j + 1));
    }
    if i + 1 < p.len() && p[i] == '*' && p[i + 1] == '*' {
        assert(ps.skip(2) =~= p@.skip(i + 2));
        if glob_at(p, t, i + 2, j) {
            return true;
        }
        if j < t.len() {
            return glob_at(p, t, i, j + 1);
        }
        return false;
    }
    if p[i] == '*' {
        if glob_at(p, t, i + 1, j) {
            return true;
        }
        if j < t.len() && t[j] != '/' {
            return glob_at(p, t, i, j + 1);
        }
        return false;
    }
    if j == t.len() {
        return false;
    }
    if (p[i] == '?' && t[j] != '/') || p[i] == t[j] {
        glob_at(p, t, i + 1, j + 1)
    } else {
        false
    }
}

/// Pieces of `t` between `/` characters.
pub open spec fn components(t: Seq<char>) -> Seq<Seq<char>>
    decreases t.len(),
{
    if t.len() == 0 {
        seq![Seq::empty()]
    } else {
        let r = components(t.drop_last());
        if t.last() == '/' {
            r.push(Seq::empty())
        } else {
            r.update(r.len() - 1, r.last().push(t.last()))
        }
    }
}

/// The path of a directory that holds `path`, ending before position `j`.
pub open spec fn is_ancestor_end(path: Seq<char>, j: int) -> bool {
    0 < j < path.len() && path[j] == '/'
}

/// A pattern excludes a path when it matches the whole path, one of the
/// directories that hold it (so that a walk skips their contents), or one
/// of its components.
pub open spec fn pattern_excludes(p: Seq<char>, path: Seq<char>) -> bool {
    glob(p, path) || (exists|j: int| is_ancestor_end(path, j) && glob(p, #[trigger] path.take(j)))
        || (exists|c: int| 0 <= c < components(path).len() && glob(p, #[trigger] components(path)[c]))
}

pub open spec fn excluded(path: Seq<char>, patterns: Seq<Seq<char>>) -> bool {
    exists|k: int| 0 <= k < patterns.len() && pattern_excludes(#[trigger] patterns[k], path)
}

proof fn lemma_components_nonempty(t: Seq<char>)
    ensures
        components(t).len() >= 1,
    decreases t.len(),
{
    if t.len() > 0 {
        lemma_components_nonempty(t.drop_last());
    }
}

fn split_components(t: &Vec<char>) -> (r: Vec<Vec<char>>)
    ensures
        r@.map_values(|c: Vec<char>| c@) == components(t@),
{
    let mut pieces: Vec<Vec<char>> = Vec::new();
    let mut cur: Vec<char> = Vec::new();
    let ghost tv = t@;
    for i in 0..t.len()
        invariant
            tv == t@,
            pieces@.map_values(|l: Vec<char>| l@).push(cur@) == components(tv.take(i as int)),
    {
        proof {
            lemma_components_nonempty(tv.take(i as int));
        }
        assert(tv.take(i + 1).drop_last() =~= tv.take(i as int));
        assert(tv.take(i + 1).last() == t@[i as int]);
        let ghost before = pieces@.map_values(|l: Vec<char>| l@);
        if t[i] == '/' {
            let done = cur;
            cur = Vec::new();
            pieces.push(done);
            assert(pieces@.map_values(|l: Vec<char>| l@) =~= before.push(done@));
            assert(pieces@.map_values(|l: Vec<char>| l@).push(cur@) =~= components(tv.take(i + 1)));
        } else {
            let ghost c0 = cur@;
            cur.push(t[i]);
            assert(before.push(c0).update(before.len() as int, c0.push(t@[i as int])) =~= before.push(
                cur@,
            ));
        }
    }
    assert(tv.take(t.len() as int) =~= tv);
    let ghost before = pieces@.map_values(|l: Vec<char>| l@);
    pieces.push(cur);
    assert(pieces@.map_values(|l: Vec<char>| l@) =~= before.push(cur@));
    pieces
}

/// Whether a glob pattern matches a text.
pub fn glob_match(pattern: &str, text: &str) -> (r: bool)
    ensures
        r == glob(pattern@, text@),
{
    let p = chars_of(pattern);
    let t = chars_of(text);
    assert(p@.skip(0) =~= p@);
    assert(t@.skip(0) =~= t@);
    glob_at(&p, &t, 0, 0)
}

/// Whether an exclude pattern matches a relative path or one of its
/// components.
pub fn is_excluded(rel_path: &str, patterns: &Vec<String>) -> (r: bool)
    ensures
        r == excluded(rel_path@, lines_view(patterns@)),
{
    let ghost pv = lines_view(patterns@);
    let t = chars_of(rel_path);
    let comps = split_components(&t);
    let ghost cv = comps@.map_values(|c: Vec<char>| c@);
    for k in 0..patterns.len()
        invariant
            pv == lines_view(patterns@),
            t@ == rel_path@,
            cv == comps@.map_values(|c: Vec<char>| c@),
            cv == components(rel_path@),
            forall|q: int| 0 <= q < k ==> !pattern_excludes(#[trigger] pv[q], rel_path@),
    {
        let p = chars_of(patterns[k].as_str());
        if matches_path(&p, &t, &comps) {
            assert(pattern_excludes(pv[k as int], rel_path@));
            return true;
        }
    }
    false
}

/// Whether one pattern excludes a path.
fn matches_path(p: &Vec<char>, t: &Vec<char>, comps: &Vec<Vec<char>>) -> (r: bool)
    requires
        comps@.map_values(|c: Vec<char>| c@) == components(t@),
    ensures
        r == pattern_excludes(p@, t@),
{
    let ghost cv = comps@.map_values(|c: Vec<char>| c@);
    assert(p@.skip(0) =~= p@);
    assert(t@.skip(0) =~= t@);
    if glob_at(p, t, 0, 0) {
        return true;
    }
    let mut prefix: Vec<char> = Vec::new();
    for j in 0..t.len()
        invariant
            prefix@ == t@.take(j as int),
            p@.skip(0) == p@,
            !glob(p@, t@),
            forall|q: int| 0 <= q < j && is_ancestor_end(t@, q) ==> !glob(p@, #[trigger] t@.take(q)),
    {
        if j > 0 && t[j] == '/' {
            assert(prefix@.skip(0) =~= prefix@);
            if glob_at(p, &prefix, 0, 0) {
                assert(is_ancestor_end(t@, j as int) && glob(p@, t@.take(j as int)));
                return true;
            }
        }
        prefix.push(t[j]);
        assert(prefix@ =~= t@.take(j + 1));
    }
    for c in 0..comps.len()
        invariant
            cv == comps@.map_values(|c: Vec<char>| c@),
            cv == components(t@),
            p@.skip(0) == p@,
            !glob(p@, t@),
            forall|q: int| is_ancestor_end(t@, q) ==> !glob(p@, #[trigger] t@.take(q)),
            forall|q: int| 0 <= q < c ==> !glob(p@, #[trigger] components(t@)[q]),
    {
        assert(comps@[c as int]@.skip(0) =~= comps@[c as int]@);
        assert(cv[c as int] == comps@[c as int]@);
        if glob_at(p, &comps[c], 0, 0) {
            assert(glob(p@, components(t@)[c as int]));
            return true;
        }
    }
    false
}

/// The paths that no pattern excludes, in order.
pub open spec fn kept_paths(paths: Seq<Seq<char>>, patterns: Seq<Seq<char>>) -> Seq<Seq<char>>
    decreases paths.len(),
{
    if paths.len() == 0 {
        Seq::empty()
    } else {
        let prev = kept_paths(paths.drop_last(), patterns);
        if excluded(paths.last(), patterns) {
            prev
        } else {
            prev.push(paths.last())
        }
    }
}

/// Keeps the paths that no exclude pattern matches.
pub fn filter_paths(paths: &Vec<String>, patterns: &Vec<String>) -> (r: Vec<String>)
    ensures
        lines_view(r@) == kept_paths(lines_view(paths@), lines_view(patterns@)),
{
    let ghost pv = lines_view(paths@);
    let mut r: Vec<String> = Vec::new();
    for i in 0..paths.len()
        invariant
            pv == lines_view(paths@),
            lines_view(r@) == kept_paths(pv.take(i as int), lines_view(patterns@)),
    {
        assert(pv.take(i + 1).drop_last() =~= pv.take(i as int));
        assert(pv.take(i + 1).last() == paths@[i as int]@);
        if !is_excluded(paths[i].as_str(), patterns) {
            let ghost r0 = lines_view(r@);
            r.push(paths[i].clone());
            assert(lines_view(r@) =~= r0.push(paths@[i as int]@));
        }
    }
    assert(pv.take(paths.len() as int) =~= pv);
    r
}

/// Indexer law: no kept path matches an exclude pattern, and every path
/// that no pattern matches is kept.
pub proof fn lemma_kept_paths(paths: Seq<Seq<char>>, patterns: Seq<Seq<char>>)
    ensures
        forall|i: int|
            0 <= i < kept_paths(paths, patterns).len() ==> !excluded(
                #[trigger] kept_paths(paths, patterns)[i],
                patterns,
            ),
        forall|i: int|
            0 <= i < paths.len() && !excluded(#[trigger] paths[i], patterns) ==> kept_paths(
                paths,
                patterns,
            ).contains(paths[i]),
    decreases paths.len(),
{
    if paths.len() > 0 {
        let init = paths.drop_last();
        lemma_kept_paths(init, patterns);
        let prev = kept_paths(init, patterns);
        let cur = kept_paths(paths, patterns);
        assert forall|i: int| 0 <= i < cur.len() implies !excluded(#[trigger] cur[i], patterns) by {
            if i < prev.len() {
                assert(cur[i] == prev[i]);
            }
        }
        assert forall|i: int| 0 <= i < paths.len() && !excluded(#[trigger] paths[i], patterns) implies cur.contains(
            paths[i],
        ) by {
            if i < paths.len() - 1 {
                assert(init[i] == paths[i]);
                assert(prev.contains(paths[i]));
                let j = choose|j: int| 0 <= j < prev.len() && prev[j] == paths[i];
                assert(cur[j] == paths[i]);
            } else {
                assert(cur[cur.len() - 1] == paths[i]);
            }
        }
    }
}

} // verus!
