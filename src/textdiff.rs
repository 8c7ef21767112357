//! Line diff of two normalised texts and the text comparison result.

use vstd::prelude::*;
use crate::lines::lines_view;
use similar::{Algorithm, ChangeTag, TextDiff};

verus! {

/// What a change of the line diff does.
#[derive(Debug, Clone, Copy, PartialEq, Eq, Structural)]
pub enum DiffTag {
    /// The line is in both texts.
    Equal,
    /// The line is only in the first text.
    Delete,
    /// The line is only in the second text.
    Insert,
}

/// `tags` is an edit script from `a` to `b`: equal changes take one line of
/// each (and the two are equal), deletions one line of `a`, insertions one
/// line of `b`, in order, until both are used up.
pub open spec fn walks(tags: Seq<DiffTag>, a: Seq<Seq<char>>, b: Seq<Seq<char>>) -> bool
    decreases tags.len(),
{
    if tags.len() == 0 {
        a.len() == 0 && b.len() == 0
    } else {
        match tags[0] {
            DiffTag::Equal => a.len() > 0 && b.len() > 0 && a[0] == b[0] && walks(
                tags.drop_first(),
                a.drop_first(),
                b.drop_first(),
            ),
            DiffTag::Delete => a.len() > 0 && walks(tags.drop_first(), a.drop_first(), b),
            DiffTag::Insert => b.len() > 0 && walks(tags.drop_first(), a, b.drop_first()),
        }
    }
}

/// The change sequence that Myers' algorithm in the `similar` crate yields.
pub uninterp spec fn myers_script(a: Seq<Seq<char>>, b: Seq<Seq<char>>) -> Seq<DiffTag>;

/// Relies on `similar::TextDiff::diff_slices` with `Algorithm::Myers` and
/// `iter_all_changes`: the changes walk both line lists in order, equal
/// changes pairing equal lines, and identical lists give only equal changes
/// (the common prefix is taken first).
#[verifier::external_body]
fn myers_diff(a: &Vec<String>, b: &Vec<String>) -> (r: Vec<DiffTag>)
    ensures
        r@ == myers_script(lines_view(a@), lines_view(b@)),
        walks(r@, lines_view(a@), lines_view(b@)),
        lines_view(a@) == lines_view(b@) ==> forall|k: int|
            0 <= k < r@.len() ==> r@[k] == DiffTag::Equal,
{
    let old: Vec<&str> = a.iter().map(|s| s.as_str()).collect();
    let new: Vec<&str> = b.iter().map(|s| s.as_str()).collect();
    let diff = TextDiff::configure().algorithm(Algorithm::Myers).diff_slices(&old, &new);
    diff.iter_all_changes().map(|c| match c.tag() {
        ChangeTag::Equal => DiffTag::Equal,
        ChangeTag::Delete => DiffTag::Delete,
        ChangeTag::Insert => DiffTag::Insert,
    }).collect()
}

/// The line diff of two line lists.
pub fn diff_lines(a: &Vec<String>, b: &Vec<String>) -> (r: Vec<DiffTag>)
    ensures
        r@ == myers_script(lines_view(a@), lines_view(b@)),
        walks(r@, lines_view(a@), lines_view(b@)),
        lines_view(a@) == lines_view(b@) ==> forall|k: int|
            0 <= k < r@.len() ==> r@[k] == DiffTag::Equal,
{
    myers_diff(a, b)
}

/// Number of changes with tag `t`.
pub open spec fn count_tag(tags: Seq<DiffTag>, t: DiffTag) -> nat
    decreases tags.len(),
{
    if tags.len() == 0 {
        0
    } else {
        count_tag(tags.drop_last(), t) + if tags.last() == t {
            1nat
        } else {
            0nat
        }
    }
}

/// Indices of the changes that are not equal.
pub open spec fn change_positions(tags: Seq<DiffTag>) -> Seq<usize>
    decreases tags.len(),
{
    if tags.len() == 0 {
        Seq::empty()
    } else if tags.last() != DiffTag::Equal {
        change_positions(tags.drop_last()).push((tags.len() - 1) as usize)
    } else {
        change_positions(tags.drop_last())
    }
}

/// Counts along an edit script: equal plus deleted is the first length,
/// equal plus inserted the second.
pub proof fn lemma_walk_counts(tags: Seq<DiffTag>, a: Seq<Seq<char>>, b: Seq<Seq<char>>)
    requires
        walks(tags, a, b),
    ensures
        count_tag(tags, DiffTag::Equal) + count_tag(tags, DiffTag::Delete) == a.len(),
        count_tag(tags, DiffTag::Equal) + count_tag(tags, DiffTag::Insert) == b.len(),
    decreases tags.len(),
{
    if tags.len() > 0 {
        let (a2, b2) = match tags[0] {
            DiffTag::Equal => (a.drop_first(), b.drop_first()),
            DiffTag::Delete => (a.drop_first(), b),
            DiffTag::Insert => (a, b.drop_first()),
        };
        lemma_walk_counts(tags.drop_first(), a2, b2);
        lemma_count_front(tags, DiffTag::Equal);
        lemma_count_front(tags, DiffTag::Delete);
        lemma_count_front(tags, DiffTag::Insert);
    }
}

/// Counting from the front agrees with counting from the back.
pub proof fn lemma_count_front(tags: Seq<DiffTag>, t: DiffTag)
    requires
        tags.len() > 0,
    ensures
        count_tag(tags, t) == count_tag(tags.drop_first(), t) + if tags[0] == t {
            1nat
        } else {
            0nat
        },
    decreases tags.len(),
{
    if tags.len() > 1 {
        lemma_count_front(tags.drop_last(), t);
        assert(tags.drop_last().drop_first() =~= tags.drop_first().drop_last());
        assert(tags.drop_last()[0] == tags[0]);
        assert(tags.drop_first().last() == tags.last());
        let df = tags.drop_first();
        assert(count_tag(df, t) == count_tag(df.drop_last(), t) + if df.last() == t {
            1nat
        } else {
            0nat
        });
    } else {
        assert(tags.drop_first().len() == 0);
        assert(tags.drop_last().len() == 0);
        assert(count_tag(tags.drop_first(), t) == 0);
        assert(count_tag(tags.drop_last(), t) == 0);
        assert(tags[0] == tags.last());
    }
}

} // verus!

verus! {

/// One line of a unified-diff hunk.
#[derive(Debug, Clone, PartialEq)]
pub struct HunkLine {
    pub tag: DiffTag,
    pub text: String,
}

/// One hunk of a unified diff: its `@@ -a,b +c,d @@` header and its lines.
#[derive(Debug, Clone, PartialEq)]
pub struct Hunk {
    pub header: String,
    pub lines: Vec<HunkLine>,
}

pub open spec fn hunk_lines_view(v: Seq<HunkLine>) -> Seq<(DiffTag, Seq<char>)> {
    v.map_values(|l: HunkLine| (l.tag, l.text@))
}

pub open spec fn hunks_view(v: Seq<Hunk>) -> Seq<(Seq<char>, Seq<(DiffTag, Seq<char>)>)> {
    v.map_values(|h: Hunk| (h.header@, hunk_lines_view(h.lines@)))
}

/// The hunks, with three lines of context, of the unified diff that the
/// `similar` crate builds from the Myers line diff.
pub uninterp spec fn unified_hunks(a: Seq<Seq<char>>, b: Seq<Seq<char>>) -> Seq<
    (Seq<char>, Seq<(DiffTag, Seq<char>)>),
>;

/// Relies on `similar`'s `unified_diff().context_radius(3).iter_hunks()`:
/// the hunks depend on the two line lists alone, and lists without changes
/// give no hunk.
#[verifier::external_body]
fn unified_hunks_of(a: &Vec<String>, b: &Vec<String>) -> (r: Vec<Hunk>)
    ensures
        hunks_view(r@) == unified_hunks(lines_view(a@), lines_view(b@)),
        lines_view(a@) == lines_view(b@) ==> r@.len() == 0,
{
    let old: Vec<&str> = a.iter().map(|s| s.as_str()).collect();
    let new: Vec<&str> = b.iter().map(|s| s.as_str()).collect();
    let diff = TextDiff::configure().algorithm(Algorithm::Myers).diff_slices(&old, &new);
    diff.unified_diff().context_radius(3).iter_hunks().map(|h| Hunk {
        header: h.header().to_string(),
        lines: h.iter_changes().map(|c| HunkLine {
            tag: match c.tag() {
                ChangeTag::Equal => DiffTag::Equal,
                ChangeTag::Delete => DiffTag::Delete,
                ChangeTag::Insert => DiffTag::Insert,
            },
            text: c.value().to_string(),
        }).collect(),
    }).collect()
}

/// The hunks of the unified diff of two line lists.
pub fn diff_hunks(a: &Vec<String>, b: &Vec<String>) -> (r: Vec<Hunk>)
    ensures
        hunks_view(r@) == unified_hunks(lines_view(a@), lines_view(b@)),
        lines_view(a@) == lines_view(b@) ==> r@.len() == 0,
{
    unified_hunks_of(a, b)
}

} // verus!
