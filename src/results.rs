//! Result helpers: linked ids and the accessors of a comparison result.

use vstd::prelude::*;
use crate::strs::{chars_of, string_from_chars};

verus! {

/// Length of the hash prefix in a linked id.
pub const LINKED_PREFIX: usize = 16;

/// The first sixteen characters of a hash, or all of a shorter one.
pub open spec fn hash_prefix(h: Seq<char>) -> Seq<char> {
    if h.len() <= LINKED_PREFIX {
        h
    } else {
        h.take(LINKED_PREFIX as int)
    }
}

/// `<hash1 prefix>:<hash2 prefix>`.
pub open spec fn spec_linked_id(h1: Seq<char>, h2: Seq<char>) -> Seq<char> {
    hash_prefix(h1) + seq![':'] + hash_prefix(h2)
}

fn push_prefix(out: &mut Vec<char>, h: &str)
    ensures
        final(out)@ == old(out)@ + hash_prefix(h@),
{
    let cs = chars_of(h);
    let n = if cs.len() <= LINKED_PREFIX { cs.len() } else { LINKED_PREFIX };
    let ghost o0 = out@;
    for i in 0..n
        invariant
            n <= cs.len(),
            cs@ == h@,
            out@ == o0 + cs@.take(i as int),
    {
        out.push(cs[i]);
        assert(out@ =~= o0 + cs@.take(i + 1));
    }
    assert(cs@.take(n as int) =~= hash_prefix(h@));
}

/// The id that ties a result to its artifacts.
pub fn make_linked_id(h1: &str, h2: &str) -> (r: String)
    ensures
        r@ == spec_linked_id(h1@, h2@),
{
    let mut out: Vec<char> = Vec::new();
    push_prefix(&mut out, h1);
    out.push(':');
    push_prefix(&mut out, h2);
    assert(out@ =~= spec_linked_id(h1@, h2@));
    string_from_chars(&out)
}

} // verus!

verus! {

use crate::types::{ComparisonResult, Ratio};

/// The similarity of a result: its score, 1 or 0 for a hash comparison,
/// 0 for an error.
pub open spec fn spec_result_similarity(r: ComparisonResult) -> Ratio {
    match r {
        ComparisonResult::Text(t) => t.similarity_score,
        ComparisonResult::Structured(s) => s.similarity_score,
        ComparisonResult::HashOnly { identical, .. } => if identical {
            Ratio { num: 1, den: 1 }
        } else {
            Ratio { num: 0, den: 1 }
        },
        ComparisonResult::Error { .. } => Ratio { num: 0, den: 1 },
    }
}

pub open spec fn spec_result_identical(r: ComparisonResult) -> bool {
    match r {
        ComparisonResult::Text(t) => t.identical,
        ComparisonResult::Structured(s) => s.identical,
        ComparisonResult::HashOnly { identical, .. } => identical,
        ComparisonResult::Error { .. } => false,
    }
}

pub open spec fn is_error(r: ComparisonResult) -> bool {
    r is Error
}

impl ComparisonResult {
    /// The linked id; an error result has none and gives its first path.
    pub fn linked_id(&self) -> (r: &str)
        ensures
            r@ == match *self {
                ComparisonResult::Text(t) => t.linked_id@,
                ComparisonResult::Structured(s) => s.linked_id@,
                ComparisonResult::HashOnly { linked_id, .. } => linked_id@,
                ComparisonResult::Error { file1_path, .. } => file1_path@,
            },
    {
        match self {
            ComparisonResult::Text(t) => t.linked_id.as_str(),
            ComparisonResult::Structured(s) => s.linked_id.as_str(),
            ComparisonResult::HashOnly { linked_id, .. } => linked_id.as_str(),
            ComparisonResult::Error { file1_path, .. } => file1_path.as_str(),
        }
    }

    pub fn similarity_score(&self) -> (r: Ratio)
        ensures
            r == spec_result_similarity(*self),
    {
        match self {
            ComparisonResult::Text(t) => t.similarity_score,
            ComparisonResult::Structured(s) => s.similarity_score,
            ComparisonResult::HashOnly { identical, .. } => if *identical {
                Ratio::one()
            } else {
                Ratio::zero()
            },
            ComparisonResult::Error { .. } => Ratio::zero(),
        }
    }

    pub fn is_identical(&self) -> (r: bool)
        ensures
            r == spec_result_identical(*self),
    {
        match self {
            ComparisonResult::Text(t) => t.identical,
            ComparisonResult::Structured(s) => s.identical,
            ComparisonResult::HashOnly { identical, .. } => *identical,
            ComparisonResult::Error { .. } => false,
        }
    }

    pub fn is_error(&self) -> (r: bool)
        ensures
            r == is_error(*self),
    {
        match self {
            ComparisonResult::Error { .. } => true,
            _ => false,
        }
    }

    /// The two paths of the compared pair.
    pub fn file_paths(&self) -> (r: (&str, &str))
        ensures
            (r.0@, r.1@) == match *self {
                ComparisonResult::Text(t) => (t.file1_path@, t.file2_path@),
                ComparisonResult::Structured(s) => (s.file1_path@, s.file2_path@),
                ComparisonResult::HashOnly { file1_path, file2_path, .. } => (file1_path@, file2_path@),
                ComparisonResult::Error { file1_path, file2_path, .. } => (file1_path@, file2_path@),
            },
    {
        match self {
            ComparisonResult::Text(t) => (t.file1_path.as_str(), t.file2_path.as_str()),
            ComparisonResult::Structured(s) => (s.file1_path.as_str(), s.file2_path.as_str()),
            ComparisonResult::HashOnly { file1_path, file2_path, .. } => (
                file1_path.as_str(),
                file2_path.as_str(),
            ),
            ComparisonResult::Error { file1_path, file2_path, .. } => (
                file1_path.as_str(),
                file2_path.as_str(),
            ),
        }
    }
}

} // verus!
