//! Keyed record join of two tables.

use vstd::prelude::*;
use crate::decimal::{spec_values_equal, values_equal};
use crate::lines::lines_view;
use crate::strs::{chars_of, string_from_chars};
use crate::types::{ColumnMismatch, FieldMismatch, FileType, Tolerance};

verus! {

/// Field delimiter of a delimited file: tab for TSV, comma otherwise.
pub fn get_delimiter(file_type: &FileType) -> (r: u8)
    ensures
        r == (if *file_type == FileType::Tsv { 9u8 } else { 44u8 }),
{
    match file_type {
        FileType::Tsv => 9u8,
        _ => 44u8,
    }
}

/// A record with the key built from its key columns.
#[derive(Debug, Clone, PartialEq)]
pub struct KeyedRecord {
    pub key: String,
    pub fields: Vec<String>,
}

/// A record as plain values: its key and its fields.
pub open spec fn record_view(k: KeyedRecord) -> (Seq<char>, Seq<Seq<char>>) {
    (k.key@, lines_view(k.fields@))
}

pub open spec fn records_view(v: Seq<KeyedRecord>) -> Seq<(Seq<char>, Seq<Seq<char>>)> {
    v.map_values(|k: KeyedRecord| record_view(k))
}

/// Index of the first `c` in `h`, or -1.
pub open spec fn first_index(h: Seq<Seq<char>>, c: Seq<char>) -> int
    decreases h.len(),
{
    if h.len() == 0 {
        -1
    } else if first_index(h.drop_last(), c) >= 0 {
        first_index(h.drop_last(), c)
    } else if h.last() == c {
        h.len() - 1
    } else {
        -1
    }
}

/// Index of the last `c` in `h`, or -1.
pub open spec fn last_index(h: Seq<Seq<char>>, c: Seq<char>) -> int
    decreases h.len(),
{
    if h.len() == 0 {
        -1
    } else if h.last() == c {
        h.len() - 1
    } else {
        last_index(h.drop_last(), c)
    }
}

/// Column indices of the key: the first column when no key column is
/// named, else the position of each named column that the header has.
pub open spec fn key_indices_of(h: Seq<Seq<char>>, keys: Seq<Seq<char>>) -> Seq<int>
    decreases keys.len(),
{
    if keys.len() == 0 {
        Seq::empty()
    } else {
        let prev = key_indices_of(h, keys.drop_last());
        let i = first_index(h, keys.last());
        if i >= 0 {
            prev.push(i)
        } else {
            prev
        }
    }
}

pub open spec fn spec_key_indices(h: Seq<Seq<char>>, keys: Seq<Seq<char>>) -> Seq<int> {
    if keys.len() == 0 {
        seq![0int]
    } else {
        key_indices_of(h, keys)
    }
}

/// The fields at the key indices that the record has.
pub open spec fn key_fields(fields: Seq<Seq<char>>, idx: Seq<int>) -> Seq<Seq<char>>
    decreases idx.len(),
{
    if idx.len() == 0 {
        Seq::empty()
    } else {
        let prev = key_fields(fields, idx.drop_last());
        let i = idx.last();
        if 0 <= i < fields.len() {
            prev.push(fields[i])
        } else {
            prev
        }
    }
}

/// Parts joined by `|`.
pub open spec fn join_pipe(ws: Seq<Seq<char>>) -> Seq<char>
    decreases ws.len(),
{
    if ws.len() == 0 {
        Seq::empty()
    } else if ws.len() == 1 {
        ws[0]
    } else {
        join_pipe(ws.drop_last()) + seq!['|'] + ws.last()
    }
}

/// The key of a record.
pub open spec fn spec_key(fields: Seq<Seq<char>>, idx: Seq<int>) -> Seq<char> {
    join_pipe(key_fields(fields, idx))
}

fn find_first(h: &Vec<String>, c: &String) -> (r: Option<usize>)
    ensures
        match r {
            Some(i) => first_index(lines_view(h@), c@) == i as int,
            None => first_index(lines_view(h@), c@) == -1,
        },
{
    let ghost v = lines_view(h@);
    let mut i: usize = 0;
    while i < h.len()
        invariant
            i <= h.len(),
            v == lines_view(h@),
            first_index(v.take(i as int), c@) == -1,
        decreases h.len() - i,
    {
        assert(v.take(i + 1).drop_last() =~= v.take(i as int));
        if h[i] == *c {
            proof {
                lemma_first_index_stable(v, c@, i + 1);
            }
            return Some(i);
        }
        i += 1;
    }
    assert(v.take(i as int) =~= v);
    None
}

proof fn lemma_first_index_stable(v: Seq<Seq<char>>, c: Seq<char>, n: int)
    requires
        0 < n <= v.len(),
        first_index(v.take(n), c) >= 0,
    ensures
        first_index(v, c) == first_index(v.take(n), c),
    decreases v.len() - n,
{
    if n < v.len() {
        assert(v.take(n + 1).drop_last() =~= v.take(n));
        lemma_first_index_stable(v, c, n + 1);
    } else {
        assert(v.take(n) =~= v);
    }
}


/// Column indices of the key columns in a header.
pub fn key_indices(headers: &Vec<String>, key_columns: &Vec<String>) -> (r: Vec<usize>)
    ensures
        r@.map_values(|i: usize| i as int) == spec_key_indices(lines_view(headers@), lines_view(
            key_columns@,
        )),
{
    let ghost hv = lines_view(headers@);
    let ghost kv = lines_view(key_columns@);
    let mut r: Vec<usize> = Vec::new();
    if key_columns.len() == 0 {
        r.push(0);
        assert(r@.map_values(|i: usize| i as int) =~= seq![0int]);
        return r;
    }
    for k in 0..key_columns.len()
        invariant
            hv == lines_view(headers@),
            kv == lines_view(key_columns@),
            r@.map_values(|i: usize| i as int) == key_indices_of(hv, kv.take(k as int)),
    {
        assert(kv.take(k + 1).drop_last() =~= kv.take(k as int));
        assert(kv.take(k + 1).last() == key_columns@[k as int]@);
        match find_first(headers, &key_columns[k]) {
            Some(i) => {
                let ghost r0 = r@.map_values(|i: usize| i as int);
                r.push(i);
                assert(r@.map_values(|i: usize| i as int) =~= r0.push(i as int));
            },
            None => {},
        }
    }
    assert(kv.take(key_columns.len() as int) =~= kv);
    r
}

fn append_chars(out: &mut Vec<char>, s: &str)
    ensures
        final(out)@ == old(out)@ + s@,
{
    let cs = chars_of(s);
    let ghost o0 = out@;
    for i in 0..cs.len()
        invariant
            cs@ == s@,
            out@ == o0 + cs@.take(i as int),
    {
        out.push(cs[i]);
        assert(out@ =~= o0 + cs@.take(i + 1));
    }
    assert(cs@.take(cs.len() as int) =~= cs@);
}

/// The key of a record: its key fields joined by `|`.
pub fn build_key(fields: &Vec<String>, idx: &Vec<usize>) -> (r: String)
    ensures
        r@ == spec_key(lines_view(fields@), idx@.map_values(|i: usize| i as int)),
{
    let ghost fv = lines_view(fields@);
    let ghost iv = idx@.map_values(|i: usize| i as int);
    let mut out: Vec<char> = Vec::new();
    let mut parts: usize = 0;
    for k in 0..idx.len()
        invariant
            fv == lines_view(fields@),
            iv == idx@.map_values(|i: usize| i as int),
            parts == key_fields(fv, iv.take(k as int)).len(),
            parts <= k,
            out@ == join_pipe(key_fields(fv, iv.take(k as int))),
    {
        assert(iv.take(k + 1).drop_last() =~= iv.take(k as int));
        assert(iv.take(k + 1).last() == idx@[k as int] as int);
        let i = idx[k];
        if i < fields.len() {
            let ghost prev = key_fields(fv, iv.take(k as int));
            if parts > 0 {
                out.push('|');
            }
            append_chars(&mut out, fields[i].as_str());
            proof {
                let cur = prev.push(fv[i as int]);
                assert(cur.drop_last() =~= prev);
                if prev.len() > 0 {
                    assert(join_pipe(cur) == join_pipe(prev) + seq!['|'] + fv[i as int]);
                } else {
                    assert(join_pipe(cur) == cur[0]);
                }
            }
            parts += 1;
        }
    }
    assert(iv.take(idx.len() as int) =~= iv);
    string_from_chars(&out)
}

} // verus!

verus! {

/// `a` orders strictly before `b`, comparing characters by code point.
pub open spec fn key_lt(a: Seq<char>, b: Seq<char>) -> bool
    decreases a.len(),
{
    if a.len() == 0 {
        b.len() > 0
    } else if b.len() == 0 {
        false
    } else if a[0] != b[0] {
        (a[0] as u32) < (b[0] as u32)
    } else {
        key_lt(a.drop_first(), b.drop_first())
    }
}

/// Compares two keys: -1, 0 or 1.
pub fn key_cmp(a: &str, b: &str) -> (r: i8)
    ensures
        r == 0 <==> a@ == b@,
        r < 0 <==> key_lt(a@, b@),
        -1 <= r <= 1,
{
    let x = chars_of(a);
    let y = chars_of(b);
    let mut i: usize = 0;
    assert(a@.skip(0) =~= a@);
    assert(b@.skip(0) =~= b@);
    while i < x.len() && i < y.len() && x[i] == y[i]
        invariant
            x@ == a@,
            y@ == b@,
            i <= x.len(),
            i <= y.len(),
            x@.take(i as int) == y@.take(i as int),
            key_lt(a@, b@) == key_lt(a@.skip(i as int), b@.skip(i as int)),
        decreases x.len() - i,
    {
        assert(a@.skip(i as int).drop_first() =~= a@.skip(i + 1));
        assert(b@.skip(i as int).drop_first() =~= b@.skip(i + 1));
        assert(x@.take(i + 1) =~= x@.take(i as int).push(x@[i as int]));
        assert(y@.take(i + 1) =~= y@.take(i as int).push(y@[i as int]));
        i += 1;
    }
    if i == x.len() && i == y.len() {
        assert(x@ =~= x@.take(i as int));
        assert(y@ =~= y@.take(i as int));
        assert(a@.skip(i as int).len() == 0);
        0
    } else if i == x.len() {
        assert(a@.skip(i as int).len() == 0);
        assert(a@.len() != b@.len());
        -1
    } else if i == y.len() {
        assert(b@.skip(i as int).len() == 0);
        assert(a@.len() != b@.len());
        1
    } else {
        assert(a@.skip(i as int)[0] == x[i as int]);
        assert(b@.skip(i as int)[0] == y[i as int]);
        assert(a@[i as int] != b@[i as int]);
        if (x[i] as u32) < (y[i] as u32) {
            -1
        } else {
            1
        }
    }
}

/// The records in the order a stable sort by key gives them.
pub uninterp spec fn sorted_by_key(v: Seq<(Seq<char>, Seq<Seq<char>>)>) -> Seq<
    (Seq<char>, Seq<Seq<char>>),
>;

/// Relies on rayon's `par_sort_by`, a stable sort, comparing keys with
/// `String::cmp` (byte order, which for UTF-8 is code-point order): the
/// result is a permutation of the records, ordered by key, and depends on
/// the records alone.
#[verifier::external_body]
fn par_sort_records(v: &mut Vec<KeyedRecord>)
    ensures
        records_view(final(v)@) == sorted_by_key(records_view(old(v)@)),
        records_view(final(v)@).to_multiset() == records_view(old(v)@).to_multiset(),
        forall|i: int|
            0 <= i < final(v)@.len() - 1 ==> !key_lt(
                (#[trigger] final(v)@[i + 1]).key@,
                final(v)@[i].key@,
            ),
{
    rayon::slice::ParallelSliceMut::par_sort_by(v.as_mut_slice(), |a, b| a.key.cmp(&b.key))
}

/// Sorts records by key.
pub fn sort_records(v: &mut Vec<KeyedRecord>)
    ensures
        records_view(final(v)@) == sorted_by_key(records_view(old(v)@)),
        records_view(final(v)@).to_multiset() == records_view(old(v)@).to_multiset(),
        final(v)@.len() == old(v)@.len(),
{
    par_sort_records(v);
    proof {
        let a = records_view(final(v)@);
        let b = records_view(old(v)@);
        a.to_multiset_ensures();
        b.to_multiset_ensures();
    }
}

/// Index pairs of records with equal keys, met by a merge walk of two
/// key-sorted lists from positions `i` and `j`: equal keys pair up, and the
/// side with the smaller key advances.
pub open spec fn merge_from(
    l: Seq<(Seq<char>, Seq<Seq<char>>)>,
    r: Seq<(Seq<char>, Seq<Seq<char>>)>,
    i: int,
    j: int,
) -> Seq<(int, int)>
    decreases l.len() - i + r.len() - j,
{
    if i < 0 || j < 0 || i >= l.len() || j >= r.len() {
        Seq::empty()
    } else if l[i].0 == r[j].0 {
        seq![(i, j)] + merge_from(l, r, i + 1, j + 1)
    } else if key_lt(l[i].0, r[j].0) {
        merge_from(l, r, i + 1, j)
    } else {
        merge_from(l, r, i, j + 1)
    }
}

pub open spec fn merge_matches(
    l: Seq<(Seq<char>, Seq<Seq<char>>)>,
    r: Seq<(Seq<char>, Seq<Seq<char>>)>,
) -> Seq<(int, int)> {
    merge_from(l, r, 0, 0)
}

proof fn lemma_merge_bounds(
    l: Seq<(Seq<char>, Seq<Seq<char>>)>,
    r: Seq<(Seq<char>, Seq<Seq<char>>)>,
    i: int,
    j: int,
)
    requires
        0 <= i <= l.len(),
        0 <= j <= r.len(),
    ensures
        merge_from(l, r, i, j).len() <= l.len() - i,
        merge_from(l, r, i, j).len() <= r.len() - j,
        forall|k: int|
            0 <= k < merge_from(l, r, i, j).len() ==> i <= (#[trigger] merge_from(l, r, i, j)[k]).0
                < l.len() && j <= merge_from(l, r, i, j)[k].1 < r.len(),
    decreases l.len() - i + r.len() - j,
{
    if i < l.len() && j < r.len() {
        if l[i].0 == r[j].0 {
            lemma_merge_bounds(l, r, i + 1, j + 1);
            let t = merge_from(l, r, i + 1, j + 1);
            assert forall|k: int| 0 <= k < merge_from(l, r, i, j).len() implies i <= (
            #[trigger] merge_from(l, r, i, j)[k]).0 < l.len() && j <= merge_from(l, r, i, j)[k].1
                < r.len() by {
                if k > 0 {
                    assert(merge_from(l, r, i, j)[k] == t[k - 1]);
                }
            }
        } else if key_lt(l[i].0, r[j].0) {
            lemma_merge_bounds(l, r, i + 1, j);
        } else {
            lemma_merge_bounds(l, r, i, j + 1);
        }
    }
}

/// Walks two key-sorted record lists and returns the index pairs of records
/// with equal keys.
pub fn merge_join(left: &Vec<KeyedRecord>, right: &Vec<KeyedRecord>) -> (r: Vec<(usize, usize)>)
    ensures
        r@.map_values(|p: (usize, usize)| (p.0 as int, p.1 as int)) == merge_matches(
            records_view(left@),
            records_view(right@),
        ),
{
    let ghost l = records_view(left@);
    let ghost rv = records_view(right@);
    let mut out: Vec<(usize, usize)> = Vec::new();
    let mut i: usize = 0;
    let mut j: usize = 0;
    while i < left.len() && j < right.len()
        invariant
            l == records_view(left@),
            rv == records_view(right@),
            i <= left.len(),
            j <= right.len(),
            merge_from(l, rv, 0, 0) == out@.map_values(|p: (usize, usize)| (p.0 as int, p.1 as int))
                + merge_from(l, rv, i as int, j as int),
        decreases left.len() - i + right.len() - j,
    {
        let c = key_cmp(left[i].key.as_str(), right[j].key.as_str());
        let ghost o0 = out@.map_values(|p: (usize, usize)| (p.0 as int, p.1 as int));
        if c == 0 {
            out.push((i, j));
            assert(out@.map_values(|p: (usize, usize)| (p.0 as int, p.1 as int)) =~= o0.push(
                (i as int, j as int),
            ));
            assert(merge_from(l, rv, i as int, j as int) == seq![(i as int, j as int)] + merge_from(
                l,
                rv,
                i + 1,
                j + 1,
            ));
            assert(o0 + merge_from(l, rv, i as int, j as int) =~= o0.push((i as int, j as int))
                + merge_from(l, rv, i + 1, j + 1));
            i += 1;
            j += 1;
        } else if c < 0 {
            i += 1;
        } else {
            j += 1;
        }
    }
    assert(merge_from(l, rv, i as int, j as int) =~= Seq::<(int, int)>::empty());
    assert(out@.map_values(|p: (usize, usize)| (p.0 as int, p.1 as int)) + Seq::<(int, int)>::empty()
        =~= out@.map_values(|p: (usize, usize)| (p.0 as int, p.1 as int)));
    out
}

} // verus!

verus! {

/// The columns of a header that are not ignored, each once, in header order.
pub open spec fn kept_columns(h: Seq<Seq<char>>, ignore: Seq<Seq<char>>) -> Seq<Seq<char>>
    decreases h.len(),
{
    if h.len() == 0 {
        Seq::empty()
    } else {
        let prev = kept_columns(h.drop_last(), ignore);
        let x = h.last();
        if ignore.contains(x) || prev.contains(x) {
            prev
        } else {
            prev.push(x)
        }
    }
}

/// The columns of `cols` that are (`inside`) or are not in `other`.
pub open spec fn select_columns(cols: Seq<Seq<char>>, other: Seq<Seq<char>>, inside: bool) -> Seq<
    Seq<char>,
>
    decreases cols.len(),
{
    if cols.len() == 0 {
        Seq::empty()
    } else {
        let prev = select_columns(cols.drop_last(), other, inside);
        if other.contains(cols.last()) == inside {
            prev.push(cols.last())
        } else {
            prev
        }
    }
}

fn contains_string(v: &Vec<String>, x: &String) -> (r: bool)
    ensures
        r == lines_view(v@).contains(x@),
{
    let ghost lv = lines_view(v@);
    for i in 0..v.len()
        invariant
            lv == lines_view(v@),
            forall|k: int| 0 <= k < i ==> lv[k] != x@,
    {
        if v[i] == *x {
            assert(lv[i as int] == x@);
            return true;
        }
    }
    false
}

fn copy_string(s: &String) -> (r: String)
    ensures
        r@ == s@,
{
    s.clone()
}

/// The columns of a header that are not ignored, each once.
pub fn kept(headers: &Vec<String>, ignore: &Vec<String>) -> (r: Vec<String>)
    ensures
        lines_view(r@) == kept_columns(lines_view(headers@), lines_view(ignore@)),
{
    let ghost hv = lines_view(headers@);
    let ghost iv = lines_view(ignore@);
    let mut r: Vec<String> = Vec::new();
    for k in 0..headers.len()
        invariant
            hv == lines_view(headers@),
            iv == lines_view(ignore@),
            lines_view(r@) == kept_columns(hv.take(k as int), iv),
    {
        assert(hv.take(k + 1).drop_last() =~= hv.take(k as int));
        assert(hv.take(k + 1).last() == headers@[k as int]@);
        if !contains_string(ignore, &headers[k]) && !contains_string(&r, &headers[k]) {
            let ghost r0 = lines_view(r@);
            r.push(copy_string(&headers[k]));
            assert(lines_view(r@) =~= r0.push(headers@[k as int]@));
        }
    }
    assert(hv.take(headers.len() as int) =~= hv);
    r
}

/// The columns of `cols` that are (`inside`) or are not in `other`.
pub fn select(cols: &Vec<String>, other: &Vec<String>, inside: bool) -> (r: Vec<String>)
    ensures
        lines_view(r@) == select_columns(lines_view(cols@), lines_view(other@), inside),
{
    let ghost cv = lines_view(cols@);
    let ghost ov = lines_view(other@);
    let mut r: Vec<String> = Vec::new();
    for k in 0..cols.len()
        invariant
            cv == lines_view(cols@),
            ov == lines_view(other@),
            lines_view(r@) == select_columns(cv.take(k as int), ov, inside),
    {
        assert(cv.take(k + 1).drop_last() =~= cv.take(k as int));
        assert(cv.take(k + 1).last() == cols@[k as int]@);
        if contains_string(other, &cols[k]) == inside {
            let ghost r0 = lines_view(r@);
            r.push(copy_string(&cols[k]));
            assert(lines_view(r@) =~= r0.push(cols@[k as int]@));
        }
    }
    assert(cv.take(cols.len() as int) =~= cv);
    r
}

fn find_last(h: &Vec<String>, c: &String) -> (r: Option<usize>)
    ensures
        match r {
            Some(i) => last_index(lines_view(h@), c@) == i as int && i < h.len(),
            None => last_index(lines_view(h@), c@) == -1,
        },
{
    let ghost v = lines_view(h@);
    let mut i: usize = h.len();
    assert(v.take(i as int) =~= v);
    while i > 0
        invariant
            i <= h.len(),
            v == lines_view(h@),
            last_index(v, c@) == last_index(v.take(i as int), c@),
        decreases i,
    {
        assert(v.take(i as int).last() == h@[i - 1]@);
        if h[i - 1] == *c {
            return Some(i - 1);
        }
        assert(v.take(i as int).drop_last() =~= v.take(i - 1));
        i -= 1;
    }
    None
}

/// A field of a record, or the empty text past its end.
pub open spec fn field_at(fields: Seq<Seq<char>>, i: int) -> Seq<char> {
    if 0 <= i < fields.len() {
        fields[i]
    } else {
        Seq::empty()
    }
}

/// The mismatches `(key, value1, value2)` of one column over the matched
/// pairs, in pair order.
pub open spec fn column_mismatches(
    l: Seq<(Seq<char>, Seq<Seq<char>>)>,
    r: Seq<(Seq<char>, Seq<Seq<char>>)>,
    pairs: Seq<(int, int)>,
    i1: int,
    i2: int,
    tn: nat,
) -> Seq<(Seq<char>, Seq<char>, Seq<char>)>
    decreases pairs.len(),
{
    if pairs.len() == 0 {
        Seq::empty()
    } else {
        let prev = column_mismatches(l, r, pairs.drop_last(), i1, i2, tn);
        let p = pairs.last();
        let v1 = field_at(l[p.0].1, i1);
        let v2 = field_at(r[p.1].1, i2);
        if spec_values_equal(v1, v2, tn) {
            prev
        } else {
            prev.push((l[p.0].0, v1, v2))
        }
    }
}

} // verus!

verus! {

/// Most sample mismatches kept per column.
pub const MAX_SAMPLES: usize = 5;

pub open spec fn mismatch_view(m: FieldMismatch) -> (Seq<char>, Seq<char>, Seq<char>) {
    (m.key@, m.value1@, m.value2@)
}

/// A column summary as plain values.
pub open spec fn column_view(c: ColumnMismatch) -> (Seq<char>, nat, Seq<(Seq<char>, Seq<char>, Seq<char>)>) {
    (c.column_name@, c.mismatch_count as nat, c.sample_mismatches@.map_values(|m: FieldMismatch| mismatch_view(m)))
}

/// Per-column summaries over the compared columns that have mismatches:
/// name, count, and the first five mismatches.
pub open spec fn mismatch_summary(
    cols: Seq<Seq<char>>,
    h1: Seq<Seq<char>>,
    h2: Seq<Seq<char>>,
    l: Seq<(Seq<char>, Seq<Seq<char>>)>,
    r: Seq<(Seq<char>, Seq<Seq<char>>)>,
    pairs: Seq<(int, int)>,
    tn: nat,
) -> Seq<(Seq<char>, nat, Seq<(Seq<char>, Seq<char>, Seq<char>)>)>
    decreases cols.len(),
{
    if cols.len() == 0 {
        Seq::empty()
    } else {
        let prev = mismatch_summary(cols.drop_last(), h1, h2, l, r, pairs, tn);
        let c = cols.last();
        let ms = column_mismatches(l, r, pairs, last_index(h1, c), last_index(h2, c), tn);
        if ms.len() > 0 {
            prev.push((c, ms.len(), if ms.len() <= MAX_SAMPLES {
                ms
            } else {
                ms.take(MAX_SAMPLES as int)
            }))
        } else {
            prev
        }
    }
}

/// Sum of the counts of column summaries.
pub open spec fn total_mismatches(s: Seq<(Seq<char>, nat, Seq<(Seq<char>, Seq<char>, Seq<char>)>)>) -> nat
    decreases s.len(),
{
    if s.len() == 0 {
        0
    } else {
        total_mismatches(s.drop_last()) + s.last().1
    }
}

fn field_or_empty(fields: &Vec<String>, i: Option<usize>) -> (r: String)
    ensures
        r@ == field_at(lines_view(fields@), match i {
            Some(k) => k as int,
            None => -1,
        }),
{
    match i {
        Some(k) => if k < fields.len() {
            fields[k].clone()
        } else {
            string_from_chars(&Vec::new())
        },
        None => string_from_chars(&Vec::new()),
    }
}

/// The mismatches of one column over the matched pairs, as a count and the
/// first five samples.
fn collect_column(
    left: &Vec<KeyedRecord>,
    right: &Vec<KeyedRecord>,
    pairs: &Vec<(usize, usize)>,
    i1: Option<usize>,
    i2: Option<usize>,
    tolerance: Tolerance,
) -> (r: (usize, Vec<FieldMismatch>))
    requires
        tolerance.wf(),
        forall|k: int|
            0 <= k < pairs@.len() ==> (#[trigger] pairs@[k]).0 < left@.len() && pairs@[k].1
                < right@.len(),
    ensures
        ({
            let ms = column_mismatches(
                records_view(left@),
                records_view(right@),
                pairs@.map_values(|p: (usize, usize)| (p.0 as int, p.1 as int)),
                match i1 {
                    Some(k) => k as int,
                    None => -1,
                },
                match i2 {
                    Some(k) => k as int,
                    None => -1,
                },
                tolerance.billionths as nat,
            );
            &&& r.0 == ms.len()
            &&& r.1@.map_values(|m: FieldMismatch| mismatch_view(m)) == (if ms.len() <= MAX_SAMPLES {
                ms
            } else {
                ms.take(MAX_SAMPLES as int)
            })
        }),
{
    let ghost l = records_view(left@);
    let ghost rv = records_view(right@);
    let ghost pv = pairs@.map_values(|p: (usize, usize)| (p.0 as int, p.1 as int));
    let ghost j1 = match i1 {
        Some(k) => k as int,
        None => -1,
    };
    let ghost j2 = match i2 {
        Some(k) => k as int,
        None => -1,
    };
    let mut count: usize = 0;
    let mut samples: Vec<FieldMismatch> = Vec::new();
    for k in 0..pairs.len()
        invariant
            l == records_view(left@),
            rv == records_view(right@),
            pv == pairs@.map_values(|p: (usize, usize)| (p.0 as int, p.1 as int)),
            j1 == (match i1 {
                Some(k) => k as int,
                None => -1,
            }),
            j2 == (match i2 {
                Some(k) => k as int,
                None => -1,
            }),
            tolerance.wf(),
            forall|q: int|
                0 <= q < pairs@.len() ==> (#[trigger] pairs@[q]).0 < left@.len() && pairs@[q].1
                    < right@.len(),
            count == column_mismatches(l, rv, pv.take(k as int), j1, j2, tolerance.billionths as nat).len(),
            count <= k,
            samples@.map_values(|m: FieldMismatch| mismatch_view(m)) == (if count <= MAX_SAMPLES {
                column_mismatches(l, rv, pv.take(k as int), j1, j2, tolerance.billionths as nat)
            } else {
                column_mismatches(l, rv, pv.take(k as int), j1, j2, tolerance.billionths as nat).take(
                    MAX_SAMPLES as int,
                )
            }),
    {
        let ghost prev = column_mismatches(l, rv, pv.take(k as int), j1, j2, tolerance.billionths as nat);
        assert(pv.take(k + 1).drop_last() =~= pv.take(k as int));
        assert(pv.take(k + 1).last() == pv[k as int]);
        let (a, b) = pairs[k];
        let v1 = field_or_empty(&left[a].fields, i1);
        let v2 = field_or_empty(&right[b].fields, i2);
        assert(l[a as int].1 == lines_view(left@[a as int].fields@));
        if !values_equal(v1.as_str(), v2.as_str(), tolerance) {
            let ghost cur = prev.push((l[a as int].0, v1@, v2@));
            if count < MAX_SAMPLES {
                let ghost s0 = samples@.map_values(|m: FieldMismatch| mismatch_view(m));
                samples.push(FieldMismatch { key: left[a].key.clone(), value1: v1, value2: v2 });
                assert(samples@.map_values(|m: FieldMismatch| mismatch_view(m)) =~= s0.push(cur.last()));
                assert(samples@.map_values(|m: FieldMismatch| mismatch_view(m)) =~= (if count + 1
                    <= MAX_SAMPLES {
                    cur
                } else {
                    cur.take(MAX_SAMPLES as int)
                }));
            } else {
                assert(cur.take(MAX_SAMPLES as int) =~= prev.take(MAX_SAMPLES as int));
            }
            count += 1;
        }
    }
    assert(pv.take(pairs.len() as int) =~= pv);
    (count, samples)
}

} // verus!

verus! {

pub open spec fn rows_view(rows: Seq<Vec<String>>) -> Seq<Seq<Seq<char>>> {
    rows.map_values(|r: Vec<String>| lines_view(r@))
}

/// The records of a table with their keys.
pub open spec fn spec_keyed(rows: Seq<Seq<Seq<char>>>, idx: Seq<int>) -> Seq<(Seq<char>, Seq<Seq<char>>)> {
    rows.map_values(|r: Seq<Seq<char>>| (spec_key(r, idx), r))
}

fn copy_row(v: &Vec<String>) -> (r: Vec<String>)
    ensures
        lines_view(r@) == lines_view(v@),
{
    let mut r: Vec<String> = Vec::new();
    for i in 0..v.len()
        invariant
            lines_view(r@) == lines_view(v@).take(i as int),
    {
        let ghost r0 = lines_view(r@);
        r.push(v[i].clone());
        assert(lines_view(r@) =~= r0.push(v@[i as int]@));
        assert(lines_view(v@).take(i + 1) =~= lines_view(v@).take(i as int).push(v@[i as int]@));
    }
    assert(lines_view(v@).take(v.len() as int) =~= lines_view(v@));
    r
}

/// Builds the keyed records of a table from its header and rows.
pub fn keyed_records(headers: &Vec<String>, rows: &Vec<Vec<String>>, key_columns: &Vec<String>) -> (r:
    Vec<KeyedRecord>)
    ensures
        r@.len() == rows@.len(),
        records_view(r@) == spec_keyed(
            rows_view(rows@),
            spec_key_indices(lines_view(headers@), lines_view(key_columns@)),
        ),
{
    let idx = key_indices(headers, key_columns);
    let ghost iv = idx@.map_values(|i: usize| i as int);
    let ghost rv = rows_view(rows@);
    let mut r: Vec<KeyedRecord> = Vec::new();
    for k in 0..rows.len()
        invariant
            rv == rows_view(rows@),
            iv == idx@.map_values(|i: usize| i as int),
            records_view(r@) == spec_keyed(rv.take(k as int), iv),
    {
        let key = build_key(&rows[k], &idx);
        let fields = copy_row(&rows[k]);
        let ghost r0 = records_view(r@);
        r.push(KeyedRecord { key, fields });
        assert(records_view(r@) =~= r0.push((spec_key(rv[k as int], iv), rv[k as int])));
        assert(spec_keyed(rv.take(k + 1), iv) =~= spec_keyed(rv.take(k as int), iv).push(
            (spec_key(rv[k as int], iv), rv[k as int]),
        ));
    }
    assert(rv.take(rows.len() as int) =~= rv);
    assert(records_view(r@).len() == r@.len());
    r
}

/// Jaccard over records: `common / (n1 + n2 - common)`, 1 for two empty
/// tables.
pub open spec fn record_score(common: nat, n1: nat, n2: nat) -> crate::types::Ratio {
    if n1 + n2 - common == 0 {
        crate::types::Ratio { num: 1, den: 1 }
    } else {
        crate::types::Ratio { num: common as u64, den: (n1 + n2 - common) as u64 }
    }
}

/// `n`, or `usize::MAX` when `n` is larger.
pub open spec fn capped(n: nat) -> nat {
    if n <= usize::MAX {
        n
    } else {
        usize::MAX as nat
    }
}

} // verus!

verus! {

/// The exact outcome of a record comparison of two tables.
pub open spec fn structured_result_matches(
    r: crate::types::StructuredComparisonResult,
    file1: crate::types::FileEntry,
    file2: crate::types::FileEntry,
    h1: Seq<Seq<char>>,
    rows1: Seq<Seq<Seq<char>>>,
    h2: Seq<Seq<char>>,
    rows2: Seq<Seq<Seq<char>>>,
    config: crate::types::CompareConfig,
) -> bool {
    let keys = lines_view(config.key_columns@);
    let ignore = lines_view(config.ignore_columns@);
    let tn = config.numeric_tolerance.billionths as nat;
    let l = sorted_by_key(spec_keyed(rows1, spec_key_indices(h1, keys)));
    let rr = sorted_by_key(spec_keyed(rows2, spec_key_indices(h2, keys)));
    let pairs = merge_matches(l, rr);
    let c1 = kept_columns(h1, ignore);
    let c2 = kept_columns(h2, ignore);
    let common = select_columns(c1, c2, true);
    let summary = mismatch_summary(select_columns(common, keys, false), h1, h2, l, rr, pairs, tn);
    &&& l.len() == rows1.len()
    &&& rr.len() == rows2.len()
    &&& r.linked_id@ == crate::results::spec_linked_id(file1.content_hash@, file2.content_hash@)
    &&& r.file1_path@ == file1.path@
    &&& r.file2_path@ == file2.path@
    &&& r.file1_row_count == rows1.len()
    &&& r.file2_row_count == rows2.len()
    &&& r.common_records == pairs.len()
    &&& r.only_in_file1 == rows1.len() - pairs.len()
    &&& r.only_in_file2 == rows2.len() - pairs.len()
    &&& r.similarity_score == record_score(pairs.len(), rows1.len(), rows2.len())
    &&& r.similarity_score.wf()
    &&& r.field_mismatches@.map_values(|c: ColumnMismatch| column_view(c)) == summary
    &&& r.total_field_mismatches == capped(total_mismatches(summary))
    &&& lines_view(r.common_columns@) == common
    &&& lines_view(r.columns_only_in_file1@) == select_columns(c1, c2, false)
    &&& lines_view(r.columns_only_in_file2@) == select_columns(c2, c1, false)
    &&& r.identical == (r.only_in_file1 == 0 && r.only_in_file2 == 0 && r.total_field_mismatches
        == 0)
}

/// Compares two tables, given as header and rows, by a sorted merge-join on
/// the key columns. Fails only when the two tables together have too many
/// rows to count.
#[verifier::rlimit(60)]
pub fn compare_structured_files(
    file1: &crate::types::FileEntry,
    file2: &crate::types::FileEntry,
    headers1: &Vec<String>,
    rows1: &Vec<Vec<String>>,
    headers2: &Vec<String>,
    rows2: &Vec<Vec<String>>,
    config: &crate::types::CompareConfig,
) -> (r: Result<crate::types::StructuredComparisonResult, String>)
    requires
        config.numeric_tolerance.wf(),
    ensures
        r is Err <==> rows1.len() + rows2.len() > usize::MAX,
        r matches Ok(s) ==> structured_result_matches(
            s,
            *file1,
            *file2,
            lines_view(headers1@),
            rows_view(rows1@),
            lines_view(headers2@),
            rows_view(rows2@),
            *config,
        ),
{
    if rows1.len() > usize::MAX - rows2.len() {
        return Err(string_from_chars(&chars_of("too many records to compare")));
    }
    let ghost h1 = lines_view(headers1@);
    let ghost h2 = lines_view(headers2@);
    let mut left = keyed_records(headers1, rows1, &config.key_columns);
    let mut right = keyed_records(headers2, rows2, &config.key_columns);
    sort_records(&mut left);
    sort_records(&mut right);
    let ghost l = records_view(left@);
    let ghost rr = records_view(right@);
    assert(l.len() == rows1.len());
    assert(rr.len() == rows2.len());
    let pairs = merge_join(&left, &right);
    let ghost pv = pairs@.map_values(|p: (usize, usize)| (p.0 as int, p.1 as int));
    proof {
        lemma_merge_bounds(l, rr, 0, 0);
        assert forall|k: int| 0 <= k < pairs@.len() implies (#[trigger] pairs@[k]).0 < left@.len()
            && pairs@[k].1 < right@.len() by {
            assert(pv[k] == merge_matches(l, rr)[k]);
        }
    }
    let c1 = kept(headers1, &config.ignore_columns);
    let c2 = kept(headers2, &config.ignore_columns);
    let common = select(&c1, &c2, true);
    let only1 = select(&c1, &c2, false);
    let only2 = select(&c2, &c1, false);
    let compared = select(&common, &config.key_columns, false);
    let ghost cv = lines_view(compared@);
    let ghost tn = config.numeric_tolerance.billionths as nat;
    let mut summary: Vec<ColumnMismatch> = Vec::new();
    let mut total: usize = 0;
    for k in 0..compared.len()
        invariant
            cv == lines_view(compared@),
            h1 == lines_view(headers1@),
            h2 == lines_view(headers2@),
            l == records_view(left@),
            rr == records_view(right@),
            pv == pairs@.map_values(|p: (usize, usize)| (p.0 as int, p.1 as int)),
            tn == config.numeric_tolerance.billionths as nat,
            config.numeric_tolerance.wf(),
            forall|q: int|
                0 <= q < pairs@.len() ==> (#[trigger] pairs@[q]).0 < left@.len() && pairs@[q].1
                    < right@.len(),
            summary@.map_values(|c: ColumnMismatch| column_view(c)) == mismatch_summary(
                cv.take(k as int),
                h1,
                h2,
                l,
                rr,
                pv,
                tn,
            ),
            total == capped(total_mismatches(mismatch_summary(cv.take(k as int), h1, h2, l, rr, pv, tn))),
    {
        let ghost prev = mismatch_summary(cv.take(k as int), h1, h2, l, rr, pv, tn);
        assert(cv.take(k + 1).drop_last() =~= cv.take(k as int));
        assert(cv.take(k + 1).last() == compared@[k as int]@);
        let i1 = find_last(headers1, &compared[k]);
        let i2 = find_last(headers2, &compared[k]);
        let (count, samples) = collect_column(&left, &right, &pairs, i1, i2, config.numeric_tolerance);
        let ghost c = compared@[k as int]@;
        let ghost ms = column_mismatches(l, rr, pv, last_index(h1, c), last_index(h2, c), tn);
        assert(count == ms.len());
        if count > 0 {
            let ghost s0 = summary@.map_values(|c: ColumnMismatch| column_view(c));
            let cm = ColumnMismatch {
                column_name: copy_string(&compared[k]),
                mismatch_count: count,
                sample_mismatches: samples,
            };
            summary.push(cm);
            assert(summary@.map_values(|c: ColumnMismatch| column_view(c)) =~= s0.push(column_view(cm)));
            let ghost cur = mismatch_summary(cv.take(k + 1), h1, h2, l, rr, pv, tn);
            assert(cur.drop_last() =~= prev);
            assert(total_mismatches(cur) == total_mismatches(prev) + count);
            total = total.saturating_add(count);
        }
    }
    assert(cv.take(compared.len() as int) =~= cv);
    let n1 = rows1.len();
    let n2 = rows2.len();
    let common_count = pairs.len();
    proof {
        lemma_merge_bounds(l, rr, 0, 0);
        assert(pairs@.len() == pv.len());
    }
    let similarity_score = if n1 + n2 - common_count == 0 {
        crate::types::Ratio::one()
    } else {
        crate::types::Ratio { num: common_count as u64, den: (n1 + n2 - common_count) as u64 }
    };
    let only_in_file1 = n1 - common_count;
    let only_in_file2 = n2 - common_count;
    let identical = only_in_file1 == 0 && only_in_file2 == 0 && total == 0;
    Ok(
        crate::types::StructuredComparisonResult {
            linked_id: crate::results::make_linked_id(
                file1.content_hash.as_str(),
                file2.content_hash.as_str(),
            ),
            file1_path: file1.path.clone(),
            file2_path: file2.path.clone(),
            file1_row_count: n1,
            file2_row_count: n2,
            common_records: common_count,
            only_in_file1,
            only_in_file2,
            similarity_score,
            field_mismatches: summary,
            total_field_mismatches: total,
            columns_only_in_file1: only1,
            columns_only_in_file2: only2,
            common_columns: common,
            identical,
        },
    )
}

} // verus!

verus! {

proof fn lemma_merge_self(l: Seq<(Seq<char>, Seq<Seq<char>>)>, i: int)
    requires
        0 <= i <= l.len(),
    ensures
        merge_from(l, l, i, i).len() == l.len() - i,
        forall|k: int|
            0 <= k < merge_from(l, l, i, i).len() ==> #[trigger] merge_from(l, l, i, i)[k] == (i + k, i
                + k),
    decreases l.len() - i,
{
    if i < l.len() {
        lemma_merge_self(l, i + 1);
        let t = merge_from(l, l, i + 1, i + 1);
        assert forall|k: int| 0 <= k < merge_from(l, l, i, i).len() implies #[trigger] merge_from(
            l,
            l,
            i,
            i,
        )[k] == (i + k, i + k) by {
            if k > 0 {
                assert(merge_from(l, l, i, i)[k] == t[k - 1]);
            }
        }
    }
}

proof fn lemma_no_mismatch_on_diagonal(
    l: Seq<(Seq<char>, Seq<Seq<char>>)>,
    pairs: Seq<(int, int)>,
    i1: int,
    tn: nat,
)
    requires
        forall|k: int| 0 <= k < pairs.len() ==> (#[trigger] pairs[k]).0 == pairs[k].1,
    ensures
        column_mismatches(l, l, pairs, i1, i1, tn).len() == 0,
    decreases pairs.len(),
{
    if pairs.len() > 0 {
        lemma_no_mismatch_on_diagonal(l, pairs.drop_last(), i1, tn);
        assert(pairs.last().0 == pairs.last().1);
    }
}

proof fn lemma_summary_self(
    cols: Seq<Seq<char>>,
    h: Seq<Seq<char>>,
    l: Seq<(Seq<char>, Seq<Seq<char>>)>,
    pairs: Seq<(int, int)>,
    tn: nat,
)
    requires
        forall|k: int| 0 <= k < pairs.len() ==> (#[trigger] pairs[k]).0 == pairs[k].1,
    ensures
        mismatch_summary(cols, h, h, l, l, pairs, tn).len() == 0,
    decreases cols.len(),
{
    if cols.len() > 0 {
        lemma_summary_self(cols.drop_last(), h, l, pairs, tn);
        let c = cols.last();
        lemma_no_mismatch_on_diagonal(l, pairs, last_index(h, c), tn);
    }
}

/// A table compared with itself, under any key columns, is identical: every
/// record is common, none is on one side only, and no field differs.
pub proof fn lemma_compare_self(
    r: crate::types::StructuredComparisonResult,
    file1: crate::types::FileEntry,
    file2: crate::types::FileEntry,
    h: Seq<Seq<char>>,
    rows: Seq<Seq<Seq<char>>>,
    config: crate::types::CompareConfig,
)
    requires
        structured_result_matches(r, file1, file2, h, rows, h, rows, config),
    ensures
        r.identical,
        r.common_records == rows.len(),
        r.only_in_file1 == 0,
        r.only_in_file2 == 0,
        r.total_field_mismatches == 0,
        r.field_mismatches@.len() == 0,
{
    let keys = lines_view(config.key_columns@);
    let l = sorted_by_key(spec_keyed(rows, spec_key_indices(h, keys)));
    let pairs = merge_matches(l, l);
    lemma_merge_self(l, 0);
    assert forall|k: int| 0 <= k < pairs.len() implies (#[trigger] pairs[k]).0 == pairs[k].1 by {
        assert(pairs[k] == (k, k));
    }
    let ignore = lines_view(config.ignore_columns@);
    let c1 = kept_columns(h, ignore);
    let common = select_columns(c1, c1, true);
    let cols = select_columns(common, keys, false);
    let tn = config.numeric_tolerance.billionths as nat;
    lemma_summary_self(cols, h, l, pairs, tn);
    assert(r.field_mismatches@.map_values(|c: ColumnMismatch| column_view(c)).len() == 0);
}

} // verus!

verus! {

/// `s` without the occurrences of `c`.
pub open spec fn without(s: Seq<Seq<char>>, c: Seq<char>) -> Seq<Seq<char>>
    decreases s.len(),
{
    if s.len() == 0 {
        Seq::empty()
    } else {
        let prev = without(s.drop_last(), c);
        if s.last() == c {
            prev
        } else {
            prev.push(s.last())
        }
    }
}

proof fn lemma_push_contains(s: Seq<Seq<char>>, y: Seq<char>, x: Seq<char>)
    ensures
        s.push(y).contains(x) <==> (s.contains(x) || x == y),
{
    if s.push(y).contains(x) {
        let i = choose|i: int| 0 <= i < s.push(y).len() && s.push(y)[i] == x;
        if i < s.len() {
            assert(s[i] == x);
        }
    }
    if s.contains(x) {
        let i = choose|i: int| 0 <= i < s.len() && s[i] == x;
        assert(s.push(y)[i] == x);
    }
    if x == y {
        assert(s.push(y)[s.len() as int] == x);
    }
}

proof fn lemma_drop_last_contains(s: Seq<Seq<char>>, x: Seq<char>)
    requires
        s.len() > 0,
    ensures
        s.contains(x) <==> (s.drop_last().contains(x) || x == s.last()),
{
    assert(s =~= s.drop_last().push(s.last()));
    lemma_push_contains(s.drop_last(), s.last(), x);
}

proof fn lemma_without_contains(s: Seq<Seq<char>>, c: Seq<char>, x: Seq<char>)
    ensures
        without(s, c).contains(x) <==> (s.contains(x) && x != c),
    decreases s.len(),
{
    if s.len() > 0 {
        lemma_without_contains(s.drop_last(), c, x);
        lemma_drop_last_contains(s, x);
        lemma_push_contains(without(s.drop_last(), c), s.last(), x);
    }
}

proof fn lemma_kept_without(h: Seq<Seq<char>>, ignore: Seq<Seq<char>>, c: Seq<char>)
    ensures
        kept_columns(h, ignore.push(c)) == without(kept_columns(h, ignore), c),
    decreases h.len(),
{
    if h.len() > 0 {
        lemma_kept_without(h.drop_last(), ignore, c);
        let x = h.last();
        let prev = kept_columns(h.drop_last(), ignore);
        lemma_push_contains(ignore, c, x);
        lemma_without_contains(prev, c, x);
        if !(ignore.contains(x) || prev.contains(x)) {
            assert(without(prev.push(x), c) == (if x == c {
                without(prev, c)
            } else {
                without(prev, c).push(x)
            })) by {
                assert(prev.push(x).drop_last() =~= prev);
            }
        }
    }
}

proof fn lemma_select_without(
    a: Seq<Seq<char>>,
    o1: Seq<Seq<char>>,
    o2: Seq<Seq<char>>,
    inside: bool,
    c: Seq<char>,
)
    requires
        forall|x: Seq<char>| x != c ==> (o1.contains(x) <==> o2.contains(x)),
    ensures
        select_columns(without(a, c), o1, inside) == without(select_columns(a, o2, inside), c),
    decreases a.len(),
{
    if a.len() > 0 {
        lemma_select_without(a.drop_last(), o1, o2, inside, c);
        let x = a.last();
        let prev = select_columns(a.drop_last(), o2, inside);
        if x != c {
            assert(without(a, c).drop_last() =~= without(a.drop_last(), c));
            if o2.contains(x) == inside {
                assert(prev.push(x).drop_last() =~= prev);
            }
        } else if o2.contains(x) == inside {
            assert(prev.push(x).drop_last() =~= prev);
        }
    }
}

pub open spec fn no_dups(s: Seq<Seq<char>>) -> bool {
    forall|i: int, j: int| 0 <= i < j < s.len() ==> s[i] != s[j]
}

proof fn lemma_kept_no_dups(h: Seq<Seq<char>>, ignore: Seq<Seq<char>>)
    ensures
        no_dups(kept_columns(h, ignore)),
    decreases h.len(),
{
    if h.len() > 0 {
        lemma_kept_no_dups(h.drop_last(), ignore);
        let prev = kept_columns(h.drop_last(), ignore);
        let x = h.last();
        if !(ignore.contains(x) || prev.contains(x)) {
            let cur = prev.push(x);
            assert forall|i: int, j: int| 0 <= i < j < cur.len() implies cur[i] != cur[j] by {
                if j == prev.len() {
                    assert(cur[i] == prev[i]);
                    if cur[i] == x {
                        assert(prev.contains(x));
                    }
                }
            }
        }
    }
}

proof fn lemma_select_subset(a: Seq<Seq<char>>, o: Seq<Seq<char>>, inside: bool, x: Seq<char>)
    ensures
        select_columns(a, o, inside).contains(x) ==> a.contains(x),
    decreases a.len(),
{
    if a.len() > 0 {
        lemma_select_subset(a.drop_last(), o, inside, x);
        lemma_drop_last_contains(a, x);
        lemma_push_contains(select_columns(a.drop_last(), o, inside), a.last(), x);
    }
}

proof fn lemma_select_no_dups(a: Seq<Seq<char>>, o: Seq<Seq<char>>, inside: bool)
    requires
        no_dups(a),
    ensures
        no_dups(select_columns(a, o, inside)),
    decreases a.len(),
{
    if a.len() > 0 {
        let init = a.drop_last();
        assert(no_dups(init)) by {
            assert forall|i: int, j: int| 0 <= i < j < init.len() implies init[i] != init[j] by {
                assert(init[i] == a[i]);
                assert(init[j] == a[j]);
            }
        }
        lemma_select_no_dups(init, o, inside);
        let prev = select_columns(init, o, inside);
        let x = a.last();
        if o.contains(x) == inside {
            lemma_select_subset(init, o, inside, x);
            assert(!init.contains(x)) by {
                if init.contains(x) {
                    let i = choose|i: int| 0 <= i < init.len() && init[i] == x;
                    assert(a[i] == a[a.len() - 1]);
                }
            }
            let cur = prev.push(x);
            assert forall|i: int, j: int| 0 <= i < j < cur.len() implies cur[i] != cur[j] by {
                if j == prev.len() {
                    assert(cur[i] == prev[i]);
                    if cur[i] == x {
                        assert(prev.contains(x));
                    }
                }
            }
        }
    }
}

/// The mismatch count of one column.
pub open spec fn column_count(
    c: Seq<char>,
    h1: Seq<Seq<char>>,
    h2: Seq<Seq<char>>,
    l: Seq<(Seq<char>, Seq<Seq<char>>)>,
    r: Seq<(Seq<char>, Seq<Seq<char>>)>,
    pairs: Seq<(int, int)>,
    tn: nat,
) -> nat {
    column_mismatches(l, r, pairs, last_index(h1, c), last_index(h2, c), tn).len()
}

proof fn lemma_total_without(
    cols: Seq<Seq<char>>,
    c: Seq<char>,
    h1: Seq<Seq<char>>,
    h2: Seq<Seq<char>>,
    l: Seq<(Seq<char>, Seq<Seq<char>>)>,
    r: Seq<(Seq<char>, Seq<Seq<char>>)>,
    pairs: Seq<(int, int)>,
    tn: nat,
)
    requires
        no_dups(cols),
    ensures
        total_mismatches(mismatch_summary(without(cols, c), h1, h2, l, r, pairs, tn)) + (if cols.contains(
            c,
        ) {
            column_count(c, h1, h2, l, r, pairs, tn)
        } else {
            0
        }) == total_mismatches(mismatch_summary(cols, h1, h2, l, r, pairs, tn)),
    decreases cols.len(),
{
    if cols.len() > 0 {
        let init = cols.drop_last();
        let x = cols.last();
        assert(no_dups(init)) by {
            assert forall|i: int, j: int| 0 <= i < j < init.len() implies init[i] != init[j] by {
                assert(init[i] == cols[i]);
                assert(init[j] == cols[j]);
            }
        }
        lemma_total_without(init, c, h1, h2, l, r, pairs, tn);
        lemma_drop_last_contains(cols, c);
        let s_init = mismatch_summary(init, h1, h2, l, r, pairs, tn);
        let k = column_count(x, h1, h2, l, r, pairs, tn);
        if k > 0 {
            let e = (x, k, {
                let ms = column_mismatches(l, r, pairs, last_index(h1, x), last_index(h2, x), tn);
                if ms.len() <= MAX_SAMPLES {
                    ms
                } else {
                    ms.take(MAX_SAMPLES as int)
                }
            });
            assert(s_init.push(e).drop_last() =~= s_init);
        }
        if x == c {
            assert(!init.contains(c)) by {
                if init.contains(c) {
                    let i = choose|i: int| 0 <= i < init.len() && init[i] == c;
                    assert(cols[i] == cols[cols.len() - 1]);
                }
            }
        } else {
            let w = without(init, c);
            let sw = mismatch_summary(w, h1, h2, l, r, pairs, tn);
            assert(w.push(x).drop_last() =~= w);
            if k > 0 {
                let e = (x, k, {
                    let ms = column_mismatches(l, r, pairs, last_index(h1, x), last_index(h2, x), tn);
                    if ms.len() <= MAX_SAMPLES {
                        ms
                    } else {
                        ms.take(MAX_SAMPLES as int)
                    }
                });
                assert(sw.push(e).drop_last() =~= sw);
            }
        }
    }
}

/// The mismatch total that the record comparison reports, before capping.
pub open spec fn spec_total_mismatches(
    h1: Seq<Seq<char>>,
    rows1: Seq<Seq<Seq<char>>>,
    h2: Seq<Seq<char>>,
    rows2: Seq<Seq<Seq<char>>>,
    keys: Seq<Seq<char>>,
    ignore: Seq<Seq<char>>,
    tn: nat,
) -> nat {
    let l = sorted_by_key(spec_keyed(rows1, spec_key_indices(h1, keys)));
    let rr = sorted_by_key(spec_keyed(rows2, spec_key_indices(h2, keys)));
    let pairs = merge_matches(l, rr);
    let common = select_columns(kept_columns(h1, ignore), kept_columns(h2, ignore), true);
    total_mismatches(mismatch_summary(select_columns(common, keys, false), h1, h2, l, rr, pairs, tn))
}

/// Ignoring a compared column `c` lowers the mismatch total by exactly the
/// number of mismatches in `c`.
pub proof fn lemma_ignore_column(
    h1: Seq<Seq<char>>,
    rows1: Seq<Seq<Seq<char>>>,
    h2: Seq<Seq<char>>,
    rows2: Seq<Seq<Seq<char>>>,
    keys: Seq<Seq<char>>,
    ignore: Seq<Seq<char>>,
    tn: nat,
    c: Seq<char>,
)
    requires
        select_columns(
            select_columns(kept_columns(h1, ignore), kept_columns(h2, ignore), true),
            keys,
            false,
        ).contains(c),
    ensures
        spec_total_mismatches(h1, rows1, h2, rows2, keys, ignore.push(c), tn) + column_count(
            c,
            h1,
            h2,
            sorted_by_key(spec_keyed(rows1, spec_key_indices(h1, keys))),
            sorted_by_key(spec_keyed(rows2, spec_key_indices(h2, keys))),
            merge_matches(
                sorted_by_key(spec_keyed(rows1, spec_key_indices(h1, keys))),
                sorted_by_key(spec_keyed(rows2, spec_key_indices(h2, keys))),
            ),
            tn,
        ) == spec_total_mismatches(h1, rows1, h2, rows2, keys, ignore, tn),
{
    let k1 = kept_columns(h1, ignore);
    let k2 = kept_columns(h2, ignore);
    lemma_kept_without(h1, ignore, c);
    lemma_kept_without(h2, ignore, c);
    assert forall|x: Seq<char>| x != c implies (without(k2, c).contains(x) <==> k2.contains(x)) by {
        lemma_without_contains(k2, c, x);
    }
    lemma_select_without(k1, without(k2, c), k2, true, c);
    let common = select_columns(k1, k2, true);
    lemma_select_without(common, keys, keys, false, c);
    let cols = select_columns(common, keys, false);
    lemma_kept_no_dups(h1, ignore);
    lemma_select_no_dups(k1, k2, true);
    lemma_select_no_dups(common, keys, false);
    let l = sorted_by_key(spec_keyed(rows1, spec_key_indices(h1, keys)));
    let rr = sorted_by_key(spec_keyed(rows2, spec_key_indices(h2, keys)));
    lemma_total_without(cols, c, h1, h2, l, rr, merge_matches(l, rr), tn);
}

} // verus!

verus! {

/// Rerunning a record comparison on the same tables and configuration
/// gives the same result, field by field.
pub proof fn lemma_structured_rerun(
    r1: crate::types::StructuredComparisonResult,
    r2: crate::types::StructuredComparisonResult,
    file1: crate::types::FileEntry,
    file2: crate::types::FileEntry,
    h1: Seq<Seq<char>>,
    rows1: Seq<Seq<Seq<char>>>,
    h2: Seq<Seq<char>>,
    rows2: Seq<Seq<Seq<char>>>,
    config: crate::types::CompareConfig,
)
    requires
        structured_result_matches(r1, file1, file2, h1, rows1, h2, rows2, config),
        structured_result_matches(r2, file1, file2, h1, rows1, h2, rows2, config),
    ensures
        r1.linked_id@ == r2.linked_id@,
        r1.common_records == r2.common_records,
        r1.only_in_file1 == r2.only_in_file1,
        r1.only_in_file2 == r2.only_in_file2,
        r1.similarity_score == r2.similarity_score,
        r1.field_mismatches@.map_values(|c: ColumnMismatch| column_view(c))
            == r2.field_mismatches@.map_values(|c: ColumnMismatch| column_view(c)),
        r1.total_field_mismatches == r2.total_field_mismatches,
        lines_view(r1.common_columns@) == lines_view(r2.common_columns@),
        lines_view(r1.columns_only_in_file1@) == lines_view(r2.columns_only_in_file1@),
        lines_view(r1.columns_only_in_file2@) == lines_view(r2.columns_only_in_file2@),
        r1.identical == r2.identical,
{
}

} // verus!

verus! {

/// A row right-padded with empty fields up to `width`.
pub open spec fn spec_padded(fields: Seq<Seq<char>>, width: nat) -> Seq<Seq<char>> {
    if fields.len() >= width {
        fields
    } else {
        fields + Seq::new((width - fields.len()) as nat, |i: int| Seq::<char>::empty())
    }
}

/// Right-pads a row that is shorter than its header with empty fields.
pub fn pad_row(fields: Vec<String>, width: usize) -> (r: Vec<String>)
    ensures
        lines_view(r@) == spec_padded(lines_view(fields@), width as nat),
{
    let ghost f0 = lines_view(fields@);
    let mut r = fields;
    while r.len() < width
        invariant
            f0.len() <= r.len() <= width || (f0.len() >= width && r.len() == f0.len()),
            lines_view(r@) == f0 + Seq::new((r.len() - f0.len()) as nat, |i: int| Seq::<char>::empty()),
        decreases width - r.len(),
    {
        let ghost r0 = lines_view(r@);
        let e = string_from_chars(&Vec::new());
        assert(e@ =~= Seq::<char>::empty());
        r.push(e);
        assert(lines_view(r@) =~= r0.push(Seq::<char>::empty()));
        assert(lines_view(r@) =~= f0 + Seq::new((r.len() - f0.len()) as nat, |i: int| Seq::<char>::empty()));
    }
    assert(f0.len() >= width ==> f0 + Seq::new(0, |i: int| Seq::<char>::empty()) =~= f0);
    r
}

} // verus!
