//! Escaping and validation of short texts.

use vstd::prelude::*;
use crate::lines::{all_ws, is_whitespace, lower_of, to_lower};
use crate::strs::{chars_of, string_from_chars};

verus! {

pub open spec fn unsafe_in_filename(c: char) -> bool {
    c == '/' || c == '\\' || c == ':' || c == '*' || c == '?' || c == '"' || c == '<' || c == '>'
        || c == '|'
}

/// `s` with every character that file systems reject replaced by `_`.
pub open spec fn spec_sanitized(s: Seq<char>) -> Seq<char> {
    s.map_values(|c: char| if unsafe_in_filename(c) { '_' } else { c })
}

/// Makes a linked id usable as a file name.
pub fn sanitize_for_filename(s: &str) -> (r: String)
    ensures
        r@ == spec_sanitized(s@),
{
    let cs = chars_of(s);
    let mut out: Vec<char> = Vec::new();
    for i in 0..cs.len()
        invariant
            cs@ == s@,
            out@ == spec_sanitized(cs@.take(i as int)),
    {
        let c = cs[i];
        let d = if c == '/' || c == '\\' || c == ':' || c == '*' || c == '?' || c == '"' || c == '<'
            || c == '>' || c == '|' {
            '_'
        } else {
            c
        };
        out.push(d);
        assert(out@ =~= spec_sanitized(cs@.take(i + 1)));
    }
    assert(cs@.take(cs.len() as int) =~= cs@);
    string_from_chars(&out)
}

/// The HTML entity of a character, or the character itself.
pub open spec fn html_char(c: char) -> Seq<char> {
    if c == '&' {
        seq!['&', 'a', 'm', 'p', ';']
    } else if c == '<' {
        seq!['&', 'l', 't', ';']
    } else if c == '>' {
        seq!['&', 'g', 't', ';']
    } else if c == '"' {
        seq!['&', 'q', 'u', 'o', 't', ';']
    } else if c == '\'' {
        seq!['&', '#', '3', '9', ';']
    } else {
        seq![c]
    }
}

/// The JSON string escape of a character, or the character itself.
pub open spec fn json_char(c: char) -> Seq<char> {
    if c == '\\' {
        seq!['\\', '\\']
    } else if c == '"' {
        seq!['\\', '"']
    } else if c == '\n' {
        seq!['\\', 'n']
    } else if c == '\r' {
        seq!['\\', 'r']
    } else if c == '\t' {
        seq!['\\', 't']
    } else {
        seq![c]
    }
}

/// Each character replaced by its escape.
pub open spec fn escaped(s: Seq<char>, json: bool) -> Seq<char>
    decreases s.len(),
{
    if s.len() == 0 {
        Seq::empty()
    } else {
        escaped(s.drop_last(), json) + if json {
            json_char(s.last())
        } else {
            html_char(s.last())
        }
    }
}

fn push_all(out: &mut Vec<char>, s: &[char])
    ensures
        final(out)@ == old(out)@ + s@,
{
    let ghost o0 = out@;
    for i in 0..s.len()
        invariant
            out@ == o0 + s@.take(i as int),
    {
        out.push(s[i]);
        assert(out@ =~= o0 + s@.take(i + 1));
    }
    assert(s@.take(s.len() as int) =~= s@);
}

fn escape(s: &str, json: bool) -> (r: String)
    ensures
        r@ == escaped(s@, json),
{
    let cs = chars_of(s);
    let mut out: Vec<char> = Vec::new();
    for i in 0..cs.len()
        invariant
            cs@ == s@,
            out@ == escaped(cs@.take(i as int), json),
    {
        assert(cs@.take(i + 1).drop_last() =~= cs@.take(i as int));
        assert(cs@.take(i + 1).last() == cs@[i as int]);
        let c = cs[i];
        if json {
            if c == '\\' {
                push_all(&mut out, &['\\', '\\']);
            } else if c == '"' {
                push_all(&mut out, &['\\', '"']);
            } else if c == '\n' {
                push_all(&mut out, &['\\', 'n']);
            } else if c == '\r' {
                push_all(&mut out, &['\\', 'r']);
            } else if c == '\t' {
                push_all(&mut out, &['\\', 't']);
            } else {
                out.push(c);
            }
        } else {
            if c == '&' {
                push_all(&mut out, &['&', 'a', 'm', 'p', ';']);
            } else if c == '<' {
                push_all(&mut out, &['&', 'l', 't', ';']);
            } else if c == '>' {
                push_all(&mut out, &['&', 'g', 't', ';']);
            } else if c == '"' {
                push_all(&mut out, &['&', 'q', 'u', 'o', 't', ';']);
            } else if c == '\'' {
                push_all(&mut out, &['&', '#', '3', '9', ';']);
            } else {
                out.push(c);
            }
        }
        assert(out@ =~= escaped(cs@.take(i + 1), json));
    }
    assert(cs@.take(cs.len() as int) =~= cs@);
    string_from_chars(&out)
}

/// Escapes the HTML special characters `& < > " '`.
pub fn escape_html(s: &str) -> (r: String)
    ensures
        r@ == escaped(s@, false),
{
    escape(s, false)
}

/// Escapes a text for use inside a JSON string literal.
pub fn escape_json(s: &str) -> (r: String)
    ensures
        r@ == escaped(s@, true),
{
    escape(s, true)
}

/// The path itself when it has at most `max_len` characters, else `...`
/// followed by its last `max_len - 3` characters.
pub open spec fn spec_truncated(p: Seq<char>, max_len: nat) -> Seq<char> {
    if p.len() <= max_len {
        p
    } else {
        let keep: nat = if max_len >= 3 { (max_len - 3) as nat } else { 0 };
        seq!['.', '.', '.'] + p.subrange(p.len() - keep, p.len() as int)
    }
}

/// Shortens a path for display.
pub fn truncate_path(path: &str, max_len: usize) -> (r: String)
    ensures
        r@ == spec_truncated(path@, max_len as nat),
{
    let cs = chars_of(path);
    if cs.len() <= max_len {
        return string_from_chars(&cs);
    }
    let keep: usize = if max_len >= 3 { max_len - 3 } else { 0 };
    let mut out: Vec<char> = Vec::new();
    out.push('.');
    out.push('.');
    out.push('.');
    let start = cs.len() - keep;
    let ghost o0 = out@;
    for i in start..cs.len()
        invariant
            cs@ == path@,
            start <= cs.len(),
            out@ == o0 + cs@.subrange(start as int, i as int),
    {
        out.push(cs[i]);
        assert(out@ =~= o0 + cs@.subrange(start as int, i + 1));
    }
    assert(out@ =~= spec_truncated(path@, max_len as nat));
    string_from_chars(&out)
}

/// Longest accepted ignore pattern, in characters.
pub const MAX_REGEX_LENGTH: usize = 1000;

/// A pattern is kept when it has at most [`MAX_REGEX_LENGTH`] characters
/// and is not blank.
pub open spec fn pattern_kept(p: Seq<char>) -> bool {
    p.len() <= MAX_REGEX_LENGTH && !all_ws(p)
}

/// Drops an ignore pattern that is too long or blank.
pub fn validate_regex_pattern(pattern: Option<String>) -> (r: Option<String>)
    ensures
        match pattern {
            Some(p) => if pattern_kept(p@) {
                r == Some(p)
            } else {
                r is None
            },
            None => r is None,
        },
{
    match pattern {
        Some(p) => {
            let cs = chars_of(p.as_str());
            if cs.len() > MAX_REGEX_LENGTH {
                return None;
            }
            let mut blank = true;
            for i in 0..cs.len()
                invariant
                    cs@ == p@,
                    blank == (forall|k: int| 0 <= k < i ==> crate::lines::is_ws(#[trigger] cs@[k])),
            {
                if !is_whitespace(cs[i]) {
                    blank = false;
                }
            }
            if blank {
                None
            } else {
                Some(p)
            }
        },
        None => None,
    }
}

} // verus!

verus! {

/// Longest accepted input path, in characters.
pub const MAX_PATH_LENGTH: usize = 4096;

/// Why an input path is refused.
#[derive(Debug, Clone, Copy, PartialEq, Eq, Structural)]
pub enum PathRejection {
    TooLong,
    Empty,
    SystemDirectory,
}

/// `t` occurs in `s` at position `i`.
pub open spec fn occurs_at(s: Seq<char>, t: Seq<char>, i: int) -> bool {
    0 <= i && i + t.len() <= s.len() && s.subrange(i, i + t.len()) == t
}

pub open spec fn has_infix(s: Seq<char>, t: Seq<char>) -> bool {
    exists|i: int| occurs_at(s, t, i)
}

fn occurs(s: &Vec<char>, t: &Vec<char>, i: usize) -> (r: bool)
    requires
        i + t.len() <= s.len(),
    ensures
        r == occurs_at(s@, t@, i as int),
{
    for k in 0..t.len()
        invariant
            i + t.len() <= s.len(),
            forall|q: int| 0 <= q < k ==> s@[i + q] == t@[q],
    {
        if s[i + k] != t[k] {
            assert(s@.subrange(i as int, i + t.len())[k as int] != t@[k as int]);
            return false;
        }
    }
    assert(s@.subrange(i as int, i + t.len()) =~= t@);
    true
}

fn infix(s: &Vec<char>, t: &str) -> (r: bool)
    ensures
        r == has_infix(s@, t@),
{
    let tc = chars_of(t);
    if tc.len() > s.len() {
        assert forall|i: int| !occurs_at(s@, t@, i) by {}
        return false;
    }
    let last = s.len() - tc.len();
    for i in 0..last
        invariant
            tc@ == t@,
            last == s.len() - tc.len(),
            tc.len() <= s.len(),
            forall|q: int| 0 <= q < i ==> !occurs_at(s@, t@, q),
    {
        if occurs(s, &tc, i) {
            return true;
        }
    }
    if occurs(s, &tc, last) {
        return true;
    }
    assert forall|q: int| !occurs_at(s@, t@, q) by {
        if 0 <= q <= last {
        }
    }
    false
}

fn prefix(s: &Vec<char>, t: &str) -> (r: bool)
    ensures
        r == occurs_at(s@, t@, 0),
{
    let tc = chars_of(t);
    if tc.len() > s.len() {
        return false;
    }
    occurs(s, &tc, 0)
}

fn suffix(s: &Vec<char>, t: &str) -> (r: bool)
    ensures
        r == (t@.len() <= s@.len() && occurs_at(s@, t@, s@.len() - t@.len())),
{
    let tc = chars_of(t);
    if tc.len() > s.len() {
        return false;
    }
    occurs(s, &tc, s.len() - tc.len())
}

/// A lower-cased resolved path inside a system directory.
pub open spec fn spec_system_path(l: Seq<char>, windows: bool) -> bool {
    if windows {
        has_infix(l, "\\windows\\system32"@) || has_infix(l, "\\programdata"@) || has_infix(
            l,
            "\\appdata\\local\\microsoft"@,
        ) || ("\\sam"@.len() <= l.len() && occurs_at(l, "\\sam"@, l.len() - "\\sam"@.len())) || (
        "\\security"@.len() <= l.len() && occurs_at(l, "\\security"@, l.len() - "\\security"@.len()))
            || ("\\system"@.len() <= l.len() && occurs_at(l, "\\system"@, l.len() - "\\system"@.len()))
    } else {
        occurs_at(l, "/etc"@, 0) || occurs_at(l, "/var"@, 0) || occurs_at(l, "/root"@, 0) || occurs_at(
            l,
            "/proc"@,
            0,
        ) || occurs_at(l, "/sys"@, 0) || occurs_at(l, "/dev"@, 0)
    }
}

/// The verdict on an input path: its text first (not too long, not
/// blank), then, once resolved, whether it lies in a system directory.
pub fn check_path(path: &str, resolved: &str, windows: bool) -> (r: Result<(), PathRejection>)
    ensures
        path@.len() > MAX_PATH_LENGTH ==> r == Err::<(), PathRejection>(PathRejection::TooLong),
        path@.len() <= MAX_PATH_LENGTH && all_ws(path@) ==> r == Err::<(), PathRejection>(
            PathRejection::Empty,
        ),
        path@.len() <= MAX_PATH_LENGTH && !all_ws(path@) ==> (r == if spec_system_path(
            lower_of(resolved@),
            windows,
        ) {
            Err::<(), PathRejection>(PathRejection::SystemDirectory)
        } else {
            Ok::<(), PathRejection>(())
        }),
{
    let cs = chars_of(path);
    if cs.len() > MAX_PATH_LENGTH {
        return Err(PathRejection::TooLong);
    }
    let mut blank = true;
    for i in 0..cs.len()
        invariant
            cs@ == path@,
            blank == (forall|k: int| 0 <= k < i ==> crate::lines::is_ws(#[trigger] cs@[k])),
    {
        if !is_whitespace(cs[i]) {
            blank = false;
        }
    }
    if blank {
        return Err(PathRejection::Empty);
    }
    let low = to_lower(resolved);
    let l = chars_of(low.as_str());
    let system = if windows {
        infix(&l, "\\windows\\system32") || infix(&l, "\\programdata") || infix(
            &l,
            "\\appdata\\local\\microsoft",
        ) || suffix(&l, "\\sam") || suffix(&l, "\\security") || suffix(&l, "\\system")
    } else {
        prefix(&l, "/etc") || prefix(&l, "/var") || prefix(&l, "/root") || prefix(&l, "/proc")
            || prefix(&l, "/sys") || prefix(&l, "/dev")
    };
    if system {
        Err(PathRejection::SystemDirectory)
    } else {
        Ok(())
    }
}

} // verus!
