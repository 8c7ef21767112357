//! Compact text form of a list of positions: runs of consecutive values
//! written `a-b`, single values written `a`, separated by commas.

use vstd::prelude::*;
use crate::strs::{decimal, digit_char, push_decimal, string_from_chars};

verus! {

/// Maximal runs of consecutive values, each as `(first, last)`.
pub open spec fn runs(p: Seq<usize>) -> Seq<(int, int)>
    decreases p.len(),
{
    if p.len() == 0 {
        Seq::empty()
    } else {
        let r = runs(p.drop_last());
        let x = p.last() as int;
        if r.len() > 0 && x == r.last().1 + 1 {
            r.update(r.len() - 1, (r.last().0, x))
        } else {
            r.push((x, x))
        }
    }
}

/// `a` for a single value, `a-b` for a longer run.
pub open spec fn run_text(r: (int, int)) -> Seq<char> {
    if r.0 == r.1 {
        decimal(r.0 as nat)
    } else {
        decimal(r.0 as nat) + seq!['-'] + decimal(r.1 as nat)
    }
}

/// The run texts joined by commas.
pub open spec fn join_runs(rs: Seq<(int, int)>) -> Seq<char>
    decreases rs.len(),
{
    if rs.len() == 0 {
        Seq::empty()
    } else if rs.len() == 1 {
        run_text(rs[0])
    } else {
        join_runs(rs.drop_last()) + seq![','] + run_text(rs.last())
    }
}

/// The text form of a position list.
pub open spec fn spec_encode_ranges(p: Seq<usize>) -> Seq<char> {
    join_runs(runs(p))
}

proof fn lemma_runs_values(p: Seq<usize>)
    ensures
        p.len() == 0 <==> runs(p).len() == 0,
        forall|i: int| 0 <= i < runs(p).len() ==> 0 <= (#[trigger] runs(p)[i]).0 <= runs(p)[i].1,
        p.len() > 0 ==> runs(p).last().1 == p.last() as int,
    decreases p.len(),
{
    if p.len() > 0 {
        lemma_runs_values(p.drop_last());
    }
}

fn push_run(out: &mut Vec<char>, start: usize, end: usize)
    requires
        start <= end,
    ensures
        final(out)@ == old(out)@ + run_text((start as int, end as int)),
{
    push_decimal(out, start);
    if start != end {
        out.push('-');
        push_decimal(out, end);
    }
    assert(final(out)@ =~= old(out)@ + run_text((start as int, end as int)));
}

/// Encodes positions as comma-separated runs, e.g. `1-3,5,7-9`.
pub fn encode_ranges(positions: &[usize]) -> (r: String)
    ensures
        r@ == spec_encode_ranges(positions@),
{
    let ghost p = positions@;
    if positions.len() == 0 {
        return string_from_chars(&Vec::new());
    }
    let mut out: Vec<char> = Vec::new();
    let mut start: usize = positions[0];
    let mut end: usize = positions[0];
    assert(p.take(1).drop_last() =~= p.take(0));
    assert(p.take(1).last() == positions[0]);
    assert(runs(p.take(0)) == Seq::<(int, int)>::empty());
    assert(runs(p.take(1)) == Seq::<(int, int)>::empty().push((start as int, end as int)));
    assert(runs(p.take(1)) =~= seq![(start as int, end as int)]);
    for i in 1..positions.len()
        invariant
            p == positions@,
            positions.len() > 0,
            start <= end,
            runs(p.take(i as int)).len() > 0,
            runs(p.take(i as int)).last() == (start as int, end as int),
            runs(p.take(i as int)).len() == 1 ==> out@ == Seq::<char>::empty(),
            runs(p.take(i as int)).len() > 1 ==> out@ == join_runs(runs(p.take(i as int)).drop_last())
                + seq![','],
    {
        let pos = positions[i];
        let ghost prev = runs(p.take(i as int));
        assert(p.take(i + 1).drop_last() =~= p.take(i as int));
        assert(p.take(i + 1).last() == pos);
        if end < usize::MAX && pos == end + 1 {
            end = pos;
            let ghost cur = runs(p.take(i + 1));
            assert(cur == prev.update(prev.len() - 1, (start as int, end as int)));
            assert(cur.drop_last() =~= prev.drop_last());
        } else {
            let ghost o0 = out@;
            push_run(&mut out, start, end);
            out.push(',');
            start = pos;
            end = pos;
            let ghost cur = runs(p.take(i + 1));
            assert(cur == prev.push((start as int, end as int)));
            assert(cur.drop_last() =~= prev);
            proof {
                if prev.len() > 1 {
                    assert(join_runs(prev) == join_runs(prev.drop_last()) + seq![','] + run_text(
                        prev.last(),
                    ));
                } else {
                    assert(join_runs(prev) == run_text(prev[0]));
                    assert(prev[0] == prev.last());
                }
                assert(out@ =~= join_runs(prev) + seq![',']);
            }
        }
    }
    let ghost o1 = out@;
    push_run(&mut out, start, end);
    assert(p.take(positions.len() as int) =~= p);
    proof {
        let rs = runs(p);
        if rs.len() > 1 {
            assert(join_runs(rs) == join_runs(rs.drop_last()) + seq![','] + run_text(rs.last()));
        } else {
            assert(rs[0] == rs.last());
        }
    }
    assert(out@ =~= spec_encode_ranges(p));
    string_from_chars(&out)
}

} // verus!

verus! {

/// Pieces of `s` between `sep` characters; one more piece than separators.
pub open spec fn split_on(s: Seq<char>, sep: char) -> Seq<Seq<char>>
    decreases s.len(),
{
    if s.len() == 0 {
        seq![Seq::empty()]
    } else {
        let r = split_on(s.drop_last(), sep);
        if s.last() == sep {
            r.push(Seq::empty())
        } else {
            r.update(r.len() - 1, r.last().push(s.last()))
        }
    }
}

/// The value of a digit string.
pub open spec fn digits_of(s: Seq<char>) -> nat
    decreases s.len(),
{
    if s.len() == 0 {
        0
    } else {
        digits_of(s.drop_last()) * 10 + ((s.last() as u32) - ('0' as u32)) as nat
    }
}

/// The values `a, a + 1, ..., b`.
pub open spec fn span(a: int, b: int) -> Seq<usize> {
    Seq::new((b - a + 1) as nat, |i: int| (a + i) as usize)
}

/// One piece `a` or `a-b`, expanded.
pub open spec fn decode_piece(piece: Seq<char>) -> Seq<usize> {
    let parts = split_on(piece, '-');
    if parts.len() == 1 {
        span(digits_of(parts[0]) as int, digits_of(parts[0]) as int)
    } else {
        span(digits_of(parts[0]) as int, digits_of(parts[1]) as int)
    }
}

pub open spec fn decode_pieces(pieces: Seq<Seq<char>>) -> Seq<usize>
    decreases pieces.len(),
{
    if pieces.len() == 0 {
        Seq::empty()
    } else {
        decode_pieces(pieces.drop_last()) + decode_piece(pieces.last())
    }
}

/// The positions that a compact text lists, runs expanded; the empty text
/// lists none.
pub open spec fn spec_decode_ranges(s: Seq<char>) -> Seq<usize> {
    if s.len() == 0 {
        Seq::empty()
    } else {
        decode_pieces(split_on(s, ','))
    }
}

proof fn lemma_digit_value(d: nat)
    requires
        d < 10,
    ensures
        ((digit_char(d) as u32) - ('0' as u32)) as nat == d,
{
}

proof fn lemma_decimal_value(n: nat)
    ensures
        digits_of(decimal(n)) == n,
        forall|i: int| 0 <= i < decimal(n).len() ==> #[trigger] decimal(n)[i] != ',' && decimal(n)[i] != '-',
        decimal(n).len() > 0,
    decreases n,
{
    lemma_digit_value(n % 10);
    if n >= 10 {
        lemma_decimal_value(n / 10);
        let d = decimal(n / 10);
        assert(decimal(n).drop_last() =~= d);
        assert(decimal(n).last() == digit_char(n % 10));
        assert(digits_of(decimal(n)) == digits_of(d) * 10 + n % 10);
        assert((n / 10) * 10 + n % 10 == n);
        assert forall|i: int| 0 <= i < decimal(n).len() implies #[trigger] decimal(n)[i] != ',' && decimal(
            n,
        )[i] != '-' by {
            if i < d.len() {
                assert(decimal(n)[i] == d[i]);
            }
        }
    } else {
        assert(decimal(n).drop_last() =~= Seq::<char>::empty());
        assert(decimal(n).last() == digit_char(n % 10));
        assert(digits_of(decimal(n)) == digits_of(Seq::<char>::empty()) * 10 + n % 10);
    }
}

/// Splitting a text free of `sep` gives the text itself.
proof fn lemma_split_plain(s: Seq<char>, sep: char)
    requires
        forall|i: int| 0 <= i < s.len() ==> s[i] != sep,
    ensures
        split_on(s, sep) == seq![s],
    decreases s.len(),
{
    if s.len() > 0 {
        lemma_split_plain(s.drop_last(), sep);
        assert(s.last() == s[s.len() - 1]);
        assert(s.last() != sep);
        assert(s.drop_last().push(s.last()) =~= s);
        let r = seq![s.drop_last()];
        assert(r.len() == 1 && r.last() == s.drop_last());
        assert(r.update(0, s.drop_last().push(s.last())) =~= seq![s]);
    } else {
        assert(s =~= Seq::<char>::empty());
    }
}

/// Appending a text free of `sep` extends the last piece.
proof fn lemma_split_append(x: Seq<char>, y: Seq<char>, sep: char)
    requires
        forall|i: int| 0 <= i < y.len() ==> y[i] != sep,
    ensures
        split_on(x + y, sep) == split_on(x, sep).update(
            split_on(x, sep).len() - 1,
            split_on(x, sep).last() + y,
        ),
        split_on(x, sep).len() >= 1,
    decreases y.len(),
{
    lemma_split_len(x, sep);
    if y.len() == 0 {
        assert(x + y =~= x);
        assert(split_on(x, sep).last() + y =~= split_on(x, sep).last());
        assert(split_on(x, sep).update(split_on(x, sep).len() - 1, split_on(x, sep).last())
            =~= split_on(x, sep));
    } else {
        lemma_split_append(x, y.drop_last(), sep);
        assert((x + y).drop_last() =~= x + y.drop_last());
        assert((x + y).last() == y.last());
        let r = split_on(x, sep);
        assert(y.last() == y[y.len() - 1]);
        assert(y.last() != sep);
        assert((r.last() + y.drop_last()).push(y.last()) =~= r.last() + y);
        let u = r.update(r.len() - 1, r.last() + y.drop_last());
        assert(u.last() == r.last() + y.drop_last());
        assert(r.update(r.len() - 1, r.last() + y.drop_last()).update(
            r.len() - 1,
            (r.last() + y.drop_last()).push(y.last()),
        ) =~= r.update(r.len() - 1, r.last() + y));
    }
}

proof fn lemma_split_len(s: Seq<char>, sep: char)
    ensures
        split_on(s, sep).len() >= 1,
    decreases s.len(),
{
    if s.len() > 0 {
        lemma_split_len(s.drop_last(), sep);
    }
}

/// Splitting `x`, a separator and a text free of it, adds that text as a
/// new piece.
proof fn lemma_split_join(x: Seq<char>, y: Seq<char>, sep: char)
    requires
        forall|i: int| 0 <= i < y.len() ==> y[i] != sep,
    ensures
        split_on(x + seq![sep] + y, sep) == split_on(x, sep).push(y),
{
    lemma_split_append(x + seq![sep], y, sep);
    assert((x + seq![sep]).drop_last() =~= x);
    assert(split_on(x + seq![sep], sep) == split_on(x, sep).push(Seq::empty()));
    let r = split_on(x, sep).push(Seq::<char>::empty());
    assert(r.update(r.len() - 1, r.last() + y) =~= split_on(x, sep).push(y));
}

proof fn lemma_run_text_plain(r: (int, int))
    requires
        0 <= r.0 <= r.1,
    ensures
        forall|i: int| 0 <= i < run_text(r).len() ==> #[trigger] run_text(r)[i] != ',',
        decode_piece(run_text(r)) == span(r.0, r.1),
{
    lemma_decimal_value(r.0 as nat);
    lemma_decimal_value(r.1 as nat);
    let a = decimal(r.0 as nat);
    let b = decimal(r.1 as nat);
    if r.0 == r.1 {
        lemma_split_plain(a, '-');
    } else {
        let t = a + seq!['-'] + b;
        assert forall|i: int| 0 <= i < t.len() implies #[trigger] t[i] != ',' by {
            if i < a.len() {
                assert(t[i] == a[i]);
            } else if i > a.len() {
                assert(t[i] == b[i - a.len() - 1]);
            }
        }
        lemma_split_plain(a, '-');
        lemma_split_join(a, b, '-');
    }
}

/// Concatenation of the spans of runs.
pub open spec fn expand(rs: Seq<(int, int)>) -> Seq<usize>
    decreases rs.len(),
{
    if rs.len() == 0 {
        Seq::empty()
    } else {
        expand(rs.drop_last()) + span(rs.last().0, rs.last().1)
    }
}

proof fn lemma_expand_runs(p: Seq<usize>)
    ensures
        expand(runs(p)) == p,
        forall|i: int| 0 <= i < runs(p).len() ==> 0 <= (#[trigger] runs(p)[i]).0 <= runs(p)[i].1,
    decreases p.len(),
{
    if p.len() > 0 {
        lemma_expand_runs(p.drop_last());
        let r = runs(p.drop_last());
        let x = p.last() as int;
        if r.len() > 0 && x == r.last().1 + 1 {
            let u = r.update(r.len() - 1, (r.last().0, x));
            assert(u.drop_last() =~= r.drop_last());
            assert(span(r.last().0, x) =~= span(r.last().0, r.last().1).push(p.last()));
            assert(expand(r) == expand(r.drop_last()) + span(r.last().0, r.last().1));
            assert(expand(u) =~= expand(r).push(p.last()));
        } else {
            let u = r.push((x, x));
            assert(u.drop_last() =~= r);
            assert(span(x, x) =~= seq![p.last()]);
        }
        assert(p =~= p.drop_last().push(p.last()));
    }
}

proof fn lemma_decode_join(rs: Seq<(int, int)>)
    requires
        forall|i: int| 0 <= i < rs.len() ==> 0 <= (#[trigger] rs[i]).0 <= rs[i].1,
        rs.len() > 0,
    ensures
        decode_pieces(split_on(join_runs(rs), ',')) == expand(rs),
    decreases rs.len(),
{
    lemma_run_text_plain(rs.last());
    if rs.len() == 1 {
        lemma_split_plain(run_text(rs[0]), ',');
        assert(rs.drop_last() =~= Seq::<(int, int)>::empty());
        assert(rs.last() == rs[0]);
        assert(seq![run_text(rs[0])].drop_last() =~= Seq::<Seq<char>>::empty());
        assert(seq![run_text(rs[0])].last() == run_text(rs[0]));
        assert(join_runs(rs) == run_text(rs[0]));
        assert(decode_pieces(seq![run_text(rs[0])]) == decode_pieces(Seq::<Seq<char>>::empty())
            + decode_piece(run_text(rs[0])));
        assert(expand(rs) == expand(rs.drop_last()) + span(rs.last().0, rs.last().1));
        assert(decode_pieces(split_on(join_runs(rs), ',')) =~= expand(rs));
    } else {
        lemma_decode_join(rs.drop_last());
        lemma_split_join(join_runs(rs.drop_last()), run_text(rs.last()), ',');
        let pieces = split_on(join_runs(rs.drop_last()), ',');
        assert(pieces.push(run_text(rs.last())).drop_last() =~= pieces);
        assert(pieces.push(run_text(rs.last())).last() == run_text(rs.last()));
        assert(join_runs(rs) == join_runs(rs.drop_last()) + seq![','] + run_text(rs.last()));
        assert(expand(rs) == expand(rs.drop_last()) + span(rs.last().0, rs.last().1));
    }
}

/// Round trip of the compact form: decoding the encoding of any position
/// list gives the list back (for an ascending list, its sorted order).
pub proof fn lemma_ranges_round_trip(p: Seq<usize>)
    ensures
        spec_decode_ranges(spec_encode_ranges(p)) == p,
{
    lemma_expand_runs(p);
    lemma_runs_values(p);
    if p.len() > 0 {
        lemma_decode_join(runs(p));
        let rs = runs(p);
        lemma_run_text_plain(rs.last());
        lemma_decimal_value(rs.last().0 as nat);
        if rs.len() == 1 {
            assert(join_runs(rs) == run_text(rs[0]));
            assert(rs[0] == rs.last());
        } else {
            assert(join_runs(rs) == join_runs(rs.drop_last()) + seq![','] + run_text(rs.last()));
        }
        assert(spec_encode_ranges(p).len() > 0);
    } else {
        assert(spec_encode_ranges(p).len() == 0);
    }
}

} // verus!
