//! Line splitting and line normalisation.

use vstd::prelude::*;
use crate::strs::{chars_of, string_from_chars};
use crate::types::NormalizationOptions;

verus! {

/// Unicode `White_Space` characters.
pub open spec fn is_ws(c: char) -> bool {
    let u = c as u32;
    (0x9 <= u <= 0xd) || u == 0x20 || u == 0x85 || u == 0xa0 || u == 0x1680 || (0x2000 <= u
        <= 0x200a) || u == 0x2028 || u == 0x2029 || u == 0x202f || u == 0x205f || u == 0x3000
}

/// Whether `c` is a Unicode whitespace character.
pub fn is_whitespace(c: char) -> (r: bool)
    ensures
        r == is_ws(c),
{
    let u = c as u32;
    (0x9 <= u && u <= 0xd) || u == 0x20 || u == 0x85 || u == 0xa0 || u == 0x1680 || (0x2000 <= u
        && u <= 0x200a) || u == 0x2028 || u == 0x2029 || u == 0x202f || u == 0x205f || u == 0x3000
}

/// Pieces of `t` between `\n` characters; one more piece than newlines.
pub open spec fn split_newlines(t: Seq<char>) -> Seq<Seq<char>>
    decreases t.len(),
{
    if t.len() == 0 {
        seq![Seq::empty()]
    } else {
        let r = split_newlines(t.drop_last());
        if t.last() == '\n' {
            r.push(Seq::empty())
        } else {
            r.update(r.len() - 1, r.last().push(t.last()))
        }
    }
}

/// A line without its trailing carriage return.
pub open spec fn strip_cr(l: Seq<char>) -> Seq<char> {
    if l.len() > 0 && l.last() == '\r' {
        l.drop_last()
    } else {
        l
    }
}

/// The lines of a text: split at `\n`, a final empty piece dropped, and a
/// `\r` before each `\n` removed.
pub open spec fn spec_lines(t: Seq<char>) -> Seq<Seq<char>> {
    let pieces = split_newlines(t);
    let kept = if pieces.last().len() == 0 {
        pieces.drop_last()
    } else {
        pieces
    };
    kept.map_values(|l: Seq<char>| strip_cr(l))
}

proof fn lemma_split_nonempty(t: Seq<char>)
    ensures
        split_newlines(t).len() >= 1,
    decreases t.len(),
{
    if t.len() > 0 {
        lemma_split_nonempty(t.drop_last());
    }
}

/// Splits a text into lines as [`spec_lines`] describes.
pub fn split_lines(t: &Vec<char>) -> (r: Vec<Vec<char>>)
    ensures
        r@.map_values(|l: Vec<char>| l@) == spec_lines(t@),
{
    let mut pieces: Vec<Vec<char>> = Vec::new();
    let mut cur: Vec<char> = Vec::new();
    let ghost tv = t@;
    assert(tv.take(0) =~= Seq::<char>::empty());
    for i in 0..t.len()
        invariant
            tv == t@,
            pieces@.map_values(|l: Vec<char>| l@).push(cur@) == split_newlines(tv.take(i as int)),
    {
        proof {
            lemma_split_nonempty(tv.take(i as int));
        }
        assert(tv.take(i + 1).drop_last() =~= tv.take(i as int));
        assert(tv.take(i + 1).last() == t@[i as int]);
        let ghost before = pieces@.map_values(|l: Vec<char>| l@);
        if t[i] == '\n' {
            let done = cur;
            cur = Vec::new();
            pieces.push(done);
            assert(pieces@.map_values(|l: Vec<char>| l@) =~= before.push(done@));
            assert(pieces@.map_values(|l: Vec<char>| l@).push(cur@) =~= split_newlines(
                tv.take(i + 1),
            ));
        } else {
            let ghost c0 = cur@;
            cur.push(t[i]);
            assert(before.push(c0).update(before.len() as int, c0.push(t@[i as int])) =~= before.push(
                cur@,
            ));
        }
    }
    assert(tv.take(t.len() as int) =~= tv);
    let ghost all = split_newlines(tv);
    if cur.len() > 0 {
        pieces.push(cur);
    }
    assert(pieces@.map_values(|l: Vec<char>| l@) =~= (if all.last().len() == 0 {
        all.drop_last()
    } else {
        all
    }));
    let ghost kept = pieces@.map_values(|l: Vec<char>| l@);
    let mut r: Vec<Vec<char>> = Vec::new();
    for k in 0..pieces.len()
        invariant
            kept == pieces@.map_values(|l: Vec<char>| l@),
            r@.map_values(|l: Vec<char>| l@) == kept.take(k as int).map_values(
                |l: Seq<char>| strip_cr(l),
            ),
    {
        let mut l = copy_chars(&pieces[k]);
        if l.len() > 0 && l[l.len() - 1] == '\r' {
            l.pop();
        }
        assert(l@ == strip_cr(kept[k as int]));
        let ghost r0 = r@.map_values(|l: Vec<char>| l@);
        r.push(l);
        assert(r@.map_values(|l: Vec<char>| l@) =~= r0.push(strip_cr(kept[k as int])));
        assert(kept.take(k + 1).map_values(|l: Seq<char>| strip_cr(l)) =~= kept.take(
            k as int,
        ).map_values(|l: Seq<char>| strip_cr(l)).push(strip_cr(kept[k as int])));
    }
    assert(kept.take(pieces.len() as int) =~= kept);
    r
}

/// A copy of a character vector.
pub fn copy_chars(v: &Vec<char>) -> (r: Vec<char>)
    ensures
        r@ == v@,
{
    let mut r: Vec<char> = Vec::new();
    for i in 0..v.len()
        invariant
            r@ == v@.take(i as int),
    {
        r.push(v[i]);
        assert(r@ =~= v@.take(i + 1));
    }
    assert(r@ =~= v@);
    r
}

} // verus!

verus! {

/// `s` without its trailing whitespace.
pub open spec fn trim_end(s: Seq<char>) -> Seq<char>
    decreases s.len(),
{
    if s.len() > 0 && is_ws(s.last()) {
        trim_end(s.drop_last())
    } else {
        s
    }
}

/// The maximal runs of non-whitespace characters of `s`.
pub open spec fn words(s: Seq<char>) -> Seq<Seq<char>>
    decreases s.len(),
{
    if s.len() == 0 {
        Seq::empty()
    } else {
        let w = words(s.drop_last());
        let c = s.last();
        if is_ws(c) {
            w
        } else if s.len() >= 2 && !is_ws(s[s.len() - 2]) && w.len() > 0 {
            w.update(w.len() - 1, w.last().push(c))
        } else {
            w.push(seq![c])
        }
    }
}

/// Words joined by single spaces.
pub open spec fn join_words(ws: Seq<Seq<char>>) -> Seq<char>
    decreases ws.len(),
{
    if ws.len() == 0 {
        Seq::empty()
    } else if ws.len() == 1 {
        ws[0]
    } else {
        join_words(ws.drop_last()) + seq![' '] + ws.last()
    }
}

/// Every character is whitespace.
pub open spec fn all_ws(s: Seq<char>) -> bool {
    forall|i: int| 0 <= i < s.len() ==> is_ws(#[trigger] s[i])
}

/// Lower-case form of a text, as std's `str::to_lowercase` computes it.
pub uninterp spec fn lower_of(s: Seq<char>) -> Seq<char>;

/// Relies on `str::to_lowercase`: the result depends on the characters
/// alone, and an empty text stays empty.
#[verifier::external_body]
pub fn to_lower(s: &str) -> (r: String)
    ensures
        r@ == lower_of(s@),
        s@.len() == 0 ==> r@.len() == 0,
{
    s.to_lowercase()
}

/// One line after the enabled normalisations.
pub open spec fn normalize_line(l: Seq<char>, opts: NormalizationOptions) -> Seq<char> {
    let a = if opts.ignore_trailing_ws {
        trim_end(l)
    } else {
        l
    };
    let b = if opts.ignore_all_ws {
        join_words(words(a))
    } else {
        a
    };
    if opts.ignore_case {
        lower_of(b)
    } else {
        b
    }
}

/// Normalised lines, blank ones dropped when asked.
pub open spec fn normalize_lines(ls: Seq<Seq<char>>, opts: NormalizationOptions) -> Seq<Seq<char>>
    decreases ls.len(),
{
    if ls.len() == 0 {
        Seq::empty()
    } else {
        let prev = normalize_lines(ls.drop_last(), opts);
        let n = normalize_line(ls.last(), opts);
        if opts.skip_empty_lines && all_ws(n) {
            prev
        } else {
            prev.push(n)
        }
    }
}

/// The normalised lines of a text.
pub open spec fn spec_normalized_lines(t: Seq<char>, opts: NormalizationOptions) -> Seq<Seq<char>> {
    normalize_lines(spec_lines(t), opts)
}

/// The character sequences of a list of strings.
pub open spec fn lines_view(v: Seq<String>) -> Seq<Seq<char>> {
    v.map_values(|s: String| s@)
}

fn trim_end_chars(s: &Vec<char>) -> (r: Vec<char>)
    ensures
        r@ == trim_end(s@),
{
    let mut r = copy_chars(s);
    while r.len() > 0 && is_whitespace(r[r.len() - 1])
        invariant
            trim_end(r@) == trim_end(s@),
        decreases r.len(),
    {
        r.pop();
    }
    r
}

proof fn lemma_words_nonempty(s: Seq<char>)
    ensures
        forall|k: int| 0 <= k < words(s).len() ==> (#[trigger] words(s)[k]).len() > 0,
        s.len() > 0 && !is_ws(s.last()) ==> words(s).len() > 0,
    decreases s.len(),
{
    if s.len() > 0 {
        lemma_words_nonempty(s.drop_last());
        let w = words(s.drop_last());
        let c = s.last();
        assert forall|k: int| 0 <= k < words(s).len() implies (#[trigger] words(s)[k]).len() > 0 by {
            if !is_ws(c) && s.len() >= 2 && !is_ws(s[s.len() - 2]) && w.len() > 0 {
                if k < w.len() - 1 {
                    assert(words(s)[k] == w[k]);
                }
            } else if !is_ws(c) {
                if k < w.len() {
                    assert(words(s)[k] == w[k]);
                }
            }
        }
    }
}

proof fn lemma_join_push(ws: Seq<Seq<char>>, c: char)
    requires
        ws.len() > 0,
    ensures
        join_words(ws.update(ws.len() - 1, ws.last().push(c))) == join_words(ws).push(c),
{
    let u = ws.update(ws.len() - 1, ws.last().push(c));
    if ws.len() > 1 {
        assert(u.drop_last() =~= ws.drop_last());
        assert(join_words(u) =~= join_words(ws).push(c));
    }
}

proof fn lemma_join_len(ws: Seq<Seq<char>>)
    requires
        forall|k: int| 0 <= k < ws.len() ==> (#[trigger] ws[k]).len() > 0,
    ensures
        join_words(ws).len() == 0 <==> ws.len() == 0,
    decreases ws.len(),
{
    if ws.len() > 1 {
        lemma_join_len(ws.drop_last());
    }
}

fn collapse_ws(s: &Vec<char>) -> (r: Vec<char>)
    ensures
        r@ == join_words(words(s@)),
{
    let mut out: Vec<char> = Vec::new();
    let mut in_word = false;
    let ghost sv = s@;
    for i in 0..s.len()
        invariant
            sv == s@,
            out@ == join_words(words(sv.take(i as int))),
            in_word == (i > 0 && !is_ws(sv[i - 1])),
    {
        let ghost w = words(sv.take(i as int));
        assert(sv.take(i + 1).drop_last() =~= sv.take(i as int));
        assert(sv.take(i + 1).last() == sv[i as int]);
        proof {
            lemma_words_nonempty(sv.take(i as int));
            lemma_join_len(w);
            if i > 0 {
                assert(sv.take(i + 1)[i - 1] == sv[i - 1]);
                assert(sv.take(i as int).last() == sv[i - 1]);
            }
        }
        let c = s[i];
        if is_whitespace(c) {
            in_word = false;
        } else if in_word {
            proof {
                lemma_join_push(w, c);
            }
            out.push(c);
        } else {
            if out.len() > 0 {
                out.push(' ');
            }
            out.push(c);
            proof {
                let w2 = w.push(seq![c]);
                assert(w2.drop_last() =~= w);
                if w.len() > 0 {
                    assert(join_words(w2) == join_words(w) + seq![' '] + seq![c]);
                } else {
                    assert(join_words(w2) == seq![c]);
                }
            }
            assert(out@ =~= join_words(w.push(seq![c])));
            in_word = true;
        }
    }
    assert(sv.take(s.len() as int) =~= sv);
    out
}

fn all_whitespace(s: &Vec<char>) -> (r: bool)
    ensures
        r == all_ws(s@),
{
    for i in 0..s.len()
        invariant
            forall|k: int| 0 <= k < i ==> is_ws(s@[k]),
    {
        if !is_whitespace(s[i]) {
            return false;
        }
    }
    true
}

/// One line after the enabled normalisations.
pub fn normalize_one(l: &Vec<char>, opts: &NormalizationOptions) -> (r: Vec<char>)
    ensures
        r@ == normalize_line(l@, *opts),
{
    let a = if opts.ignore_trailing_ws {
        trim_end_chars(l)
    } else {
        copy_chars(l)
    };
    let b = if opts.ignore_all_ws {
        collapse_ws(&a)
    } else {
        a
    };
    if opts.ignore_case {
        let s = string_from_chars(&b);
        let low = to_lower(s.as_str());
        chars_of(low.as_str())
    } else {
        b
    }
}

/// Splits a text into lines and normalises them.
pub fn normalize_text(text: &str, opts: &NormalizationOptions) -> (r: Vec<String>)
    ensures
        lines_view(r@) == spec_normalized_lines(text@, *opts),
{
    let cs = chars_of(text);
    let ls = split_lines(&cs);
    let ghost lv = ls@.map_values(|l: Vec<char>| l@);
    let mut r: Vec<String> = Vec::new();
    for i in 0..ls.len()
        invariant
            lv == ls@.map_values(|l: Vec<char>| l@),
            lv == spec_lines(text@),
            lines_view(r@) == normalize_lines(lv.take(i as int), *opts),
    {
        assert(lv.take(i + 1).drop_last() =~= lv.take(i as int));
        assert(lv.take(i + 1).last() == ls@[i as int]@);
        let n = normalize_one(&ls[i], opts);
        if !(opts.skip_empty_lines && all_whitespace(&n)) {
            let ghost r0 = lines_view(r@);
            let s = string_from_chars(&n);
            r.push(s);
            assert(lines_view(r@) =~= r0.push(n@));
        }
    }
    assert(lv.take(ls.len() as int) =~= lv);
    r
}

} // verus!
