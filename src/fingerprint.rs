//! Fingerprints: similarity hashes, their distance, and schema signatures.

use vstd::multiset::Multiset;
use vstd::prelude::*;
use crate::lines::{
    copy_chars, is_whitespace, is_ws, join_words, lines_view, normalize_text, spec_normalized_lines,
    words,
};
use crate::strs::{chars_of, string_from_chars};
use crate::types::{spec_is_structured, spec_is_tabular, FileEntry, FileType, NormalizationOptions, Ratio};

verus! {

/// Number of one bits among the lowest `n` bits of `x`.
pub open spec fn ones(x: int, n: nat) -> nat
    decreases n,
{
    if n == 0 {
        0
    } else {
        (x % 2) as nat + ones(x / 2, (n - 1) as nat)
    }
}

/// Number of bit positions in which two 64-bit fingerprints differ.
pub open spec fn spec_hamming(a: u64, b: u64) -> nat {
    ones((a ^ b) as int, 64)
}

/// Similarity of two fingerprints: `1 - d / 64` for Hamming distance `d`.
pub open spec fn spec_simhash_similarity(a: u64, b: u64) -> Ratio {
    Ratio { num: (64 - spec_hamming(a, b)) as u64, den: 64 }
}


/// Counts the differing bits of two fingerprints.
pub fn hamming_distance(hash1: u64, hash2: u64) -> (r: u32)
    ensures
        r == spec_hamming(hash1, hash2),
        r <= 64,
{
    let x0: u64 = hash1 ^ hash2;
    let mut x: u64 = x0;
    let mut count: u32 = 0;
    for i in 0..64u32
        invariant
            count <= i,
            count + ones(x as int, (64 - i) as nat) == ones(x0 as int, 64),
    {
        count = count + (x % 2) as u32;
        x = x / 2;
    }
    count
}

/// `1 - hamming(hash1, hash2) / 64`.
pub fn simhash_similarity(hash1: u64, hash2: u64) -> (r: Ratio)
    ensures
        r == spec_simhash_similarity(hash1, hash2),
        r.wf(),
{
    let d = hamming_distance(hash1, hash2);
    Ratio { num: 64 - d as u64, den: 64 }
}

} // verus!

verus! {

/// Bit `i` of `h`.
pub open spec fn bit(h: u64, i: u64) -> bool {
    (h >> i) & 1u64 == 1u64
}

/// Votes for bit `i`: +1 for each hash with the bit set, -1 otherwise.
pub open spec fn votes(hs: Seq<u64>, i: u64) -> int
    decreases hs.len(),
{
    if hs.len() == 0 {
        0
    } else {
        votes(hs.drop_last(), i) + if bit(hs.last(), i) {
            1int
        } else {
            -1int
        }
    }
}

pub open spec fn pow2(n: nat) -> nat
    decreases n,
{
    if n == 0 {
        1
    } else {
        2 * pow2((n - 1) as nat)
    }
}

/// The number whose bit `j` (for `j < n`) is set when the votes for bit
/// `j` are positive.
pub open spec fn simhash_bits(hs: Seq<u64>, n: nat) -> nat
    decreases n,
{
    if n == 0 {
        0
    } else {
        simhash_bits(hs, (n - 1) as nat) + if votes(hs, (n - 1) as u64) > 0 {
            pow2((n - 1) as nat)
        } else {
            0
        }
    }
}

/// The similarity fingerprint of a list of shingle hashes.
pub open spec fn simhash_of(hs: Seq<u64>) -> u64 {
    simhash_bits(hs, 64) as u64
}

proof fn lemma_simhash_bits_bound(hs: Seq<u64>, n: nat)
    ensures
        simhash_bits(hs, n) < pow2(n),
    decreases n,
{
    if n > 0 {
        lemma_simhash_bits_bound(hs, (n - 1) as nat);
    }
}

proof fn lemma_pow2_64()
    ensures
        pow2(64) == 0x1_0000_0000_0000_0000,
{
    reveal_with_fuel(pow2, 65);
}

/// Combines shingle hashes into a fingerprint by a majority vote per bit.
pub fn simhash_from_hashes(hs: &Vec<u64>) -> (r: u64)
    ensures
        r == simhash_of(hs@),
{
    let mut v: Vec<i128> = Vec::new();
    for i in 0..64u64
        invariant
            v.len() == i,
            forall|j: int| 0 <= j < i ==> v@[j] == 0,
    {
        v.push(0);
    }
    assert forall|j: int| 0 <= j < 64 implies v@[j] == votes(hs@.take(0), j as u64) by {}
    for k in 0..hs.len()
        invariant
            v.len() == 64,
            forall|j: int| 0 <= j < 64 ==> v@[j] == votes(hs@.take(k as int), j as u64),
            forall|j: int| 0 <= j < 64 ==> -(k as int) <= #[trigger] v@[j] <= k,
    {
        assert(hs@.take(k + 1).drop_last() =~= hs@.take(k as int));
        assert(hs@.take(k + 1).last() == hs@[k as int]);
        let h = hs[k];
        for i in 0..64u64
            invariant
                v.len() == 64,
                k < hs.len(),
                    h == hs@[k as int],
                hs@.take(k + 1).drop_last() == hs@.take(k as int),
                hs@.take(k + 1).last() == h,
                forall|j: int| 0 <= j < i ==> v@[j] == votes(hs@.take(k + 1), j as u64),
                forall|j: int| i <= j < 64 ==> v@[j] == votes(hs@.take(k as int), j as u64),
                forall|j: int| 0 <= j < i ==> -(k + 1) <= #[trigger] v@[j] <= k + 1,
                forall|j: int| i <= j < 64 ==> -(k as int) <= #[trigger] v@[j] <= k,
        {
            let x = v[i as usize];
            assert(votes(hs@.take(k + 1), i) == votes(hs@.take(k as int), i) + if bit(h, i) {
                1int
            } else {
                -1int
            });
            if (h >> i) & 1 == 1 {
                v.set(i as usize, x + 1);
            } else {
                v.set(i as usize, x - 1);
            }
        }
    }
    assert(hs@.take(hs.len() as int) =~= hs@);
    let mut r: u64 = 0;
    let mut p: u64 = 1;
    let mut i: u64 = 0;
    while i < 64
        invariant
            i <= 64,
            v.len() == 64,
            forall|j: int| 0 <= j < 64 ==> v@[j] == votes(hs@, j as u64),
            r == simhash_bits(hs@, i as nat),
            p == pow2(i as nat) || i == 64,
            i < 64 ==> p == pow2(i as nat),
        decreases 64 - i,
    {
        proof {
            lemma_simhash_bits_bound(hs@, i as nat);
            lemma_simhash_bits_bound(hs@, (i + 1) as nat);
            lemma_pow2_64();
            lemma_pow2_mono(i as nat + 1, 64);
            if i < 63 {
                lemma_pow2_mono(i as nat, 62);
                lemma_pow2_62();
            }
        }
        if v[i as usize] > 0 {
            r = r + p;
        }
        if i < 63 {
            p = p * 2;
        }
        i += 1;
    }
    proof {
        lemma_simhash_bits_bound(hs@, 64);
        lemma_pow2_64();
    }
    r
}

proof fn lemma_pow2_62()
    ensures
        pow2(62) == 0x4000_0000_0000_0000,
{
    reveal_with_fuel(pow2, 63);
}

proof fn lemma_pow2_mono(a: nat, b: nat)
    requires
        a <= b,
    ensures
        pow2(a) <= pow2(b),
    decreases b - a,
{
    if a < b {
        lemma_pow2_mono(a, (b - 1) as nat);
    }
}

} // verus!

verus! {

/// All words of all lines, in order.
pub open spec fn all_words(ls: Seq<Seq<char>>) -> Seq<Seq<char>>
    decreases ls.len(),
{
    if ls.len() == 0 {
        Seq::empty()
    } else {
        all_words(ls.drop_last()) + words(ls.last())
    }
}

/// Shingles of normalised lines: every run of three consecutive words
/// joined by spaces (or all words when there are one or two), then every
/// run of three consecutive lines joined by newlines.
pub open spec fn shingles(ls: Seq<Seq<char>>) -> Seq<Seq<char>> {
    let w = all_words(ls);
    let word_part = if w.len() >= 3 {
        Seq::new(
            (w.len() - 2) as nat,
            |k: int| w[k] + seq![' '] + w[k + 1] + seq![' '] + w[k + 2],
        )
    } else if w.len() > 0 {
        seq![join_words(w)]
    } else {
        Seq::empty()
    };
    let line_part = if ls.len() >= 3 {
        Seq::new(
            (ls.len() - 2) as nat,
            |k: int| ls[k] + seq!['\n'] + ls[k + 1] + seq!['\n'] + ls[k + 2],
        )
    } else {
        Seq::empty()
    };
    word_part + line_part
}

/// The 64-bit hash of a shingle, as std's `DefaultHasher` computes it.
pub uninterp spec fn shingle_hash(s: Seq<char>) -> u64;

/// Relies on std's `DefaultHasher::new`, whose instances all start from
/// the same fixed keys: the hash depends on the text alone.
#[verifier::external_body]
fn hash_text(s: &str) -> (r: u64)
    ensures
        r == shingle_hash(s@),
{
    let mut h = std::collections::hash_map::DefaultHasher::new();
    std::hash::Hash::hash(s, &mut h);
    std::hash::Hasher::finish(&h)
}

/// The fingerprint of normalised lines.
pub open spec fn spec_simhash(ls: Seq<Seq<char>>) -> u64 {
    simhash_of(shingles(ls).map_values(|s: Seq<char>| shingle_hash(s)))
}

/// The words of a line.
pub fn split_words(s: &Vec<char>) -> (r: Vec<Vec<char>>)
    ensures
        r@.map_values(|w: Vec<char>| w@) == words(s@),
{
    let ghost sv = s@;
    let mut r: Vec<Vec<char>> = Vec::new();
    let mut cur: Vec<char> = Vec::new();
    let mut in_word = false;
    for i in 0..s.len()
        invariant
            sv == s@,
            in_word == (i > 0 && !is_ws(sv[i - 1])),
            in_word ==> r@.map_values(|w: Vec<char>| w@).push(cur@) == words(sv.take(i as int)),
            !in_word ==> r@.map_values(|w: Vec<char>| w@) == words(sv.take(i as int)),
    {
        assert(sv.take(i + 1).drop_last() =~= sv.take(i as int));
        assert(sv.take(i + 1).last() == sv[i as int]);
        proof {
            if i > 0 {
                assert(sv.take(i + 1)[i - 1] == sv[i - 1]);
                assert(sv.take(i as int).last() == sv[i - 1]);
                if !is_ws(sv[i - 1]) {
                    lemma_words_last(sv.take(i as int));
                }
            }
        }
        let c = s[i];
        let ghost before = r@.map_values(|w: Vec<char>| w@);
        if is_whitespace(c) {
            if in_word {
                let w = cur;
                cur = Vec::new();
                r.push(w);
                assert(r@.map_values(|w: Vec<char>| w@) =~= before.push(w@));
            }
            in_word = false;
        } else {
            if in_word {
                let ghost c0 = cur@;
                cur.push(c);
                assert(before.push(c0).update(before.len() as int, c0.push(c)) =~= before.push(cur@));
            } else {
                cur = Vec::new();
                cur.push(c);
                assert(cur@ =~= seq![c]);
            }
            in_word = true;
        }
    }
    assert(sv.take(s.len() as int) =~= sv);
    if in_word {
        let ghost before = r@.map_values(|w: Vec<char>| w@);
        r.push(cur);
        assert(r@.map_values(|w: Vec<char>| w@) =~= before.push(cur@));
    }
    r
}

proof fn lemma_words_last(s: Seq<char>)
    requires
        s.len() > 0,
        !is_ws(s.last()),
    ensures
        words(s).len() > 0,
{
    if s.len() >= 2 && !is_ws(s[s.len() - 2]) && words(s.drop_last()).len() > 0 {
    } else {
    }
}

} // verus!

verus! {

fn concat3(a: &Vec<char>, b: &Vec<char>, c: &Vec<char>, sep: char) -> (r: String)
    ensures
        r@ == a@ + seq![sep] + b@ + seq![sep] + c@,
{
    let mut out = copy_chars(a);
    out.push(sep);
    let ghost o1 = out@;
    for i in 0..b.len()
        invariant
            out@ == o1 + b@.take(i as int),
    {
        out.push(b[i]);
        assert(out@ =~= o1 + b@.take(i + 1));
    }
    assert(b@.take(b.len() as int) =~= b@);
    out.push(sep);
    let ghost o2 = out@;
    for i in 0..c.len()
        invariant
            out@ == o2 + c@.take(i as int),
    {
        out.push(c[i]);
        assert(out@ =~= o2 + c@.take(i + 1));
    }
    assert(c@.take(c.len() as int) =~= c@);
    assert(out@ =~= a@ + seq![sep] + b@ + seq![sep] + c@);
    string_from_chars(&out)
}

/// The shingles of normalised lines.
pub fn generate_shingles(lines: &Vec<String>) -> (r: Vec<String>)
    ensures
        lines_view(r@) == shingles(lines_view(lines@)),
{
    let ghost lv = lines_view(lines@);
    let mut ws: Vec<Vec<char>> = Vec::new();
    for i in 0..lines.len()
        invariant
            lv == lines_view(lines@),
            ws@.map_values(|w: Vec<char>| w@) == all_words(lv.take(i as int)),
    {
        assert(lv.take(i + 1).drop_last() =~= lv.take(i as int));
        assert(lv.take(i + 1).last() == lines@[i as int]@);
        let cs = chars_of(lines[i].as_str());
        let mut lw = split_words(&cs);
        let ghost w0 = ws@.map_values(|w: Vec<char>| w@);
        let ghost add = lw@.map_values(|w: Vec<char>| w@);
        ws.append(&mut lw);
        assert(ws@.map_values(|w: Vec<char>| w@) =~= w0 + add);
    }
    assert(lv.take(lines.len() as int) =~= lv);
    let ghost wv = ws@.map_values(|w: Vec<char>| w@);
    let ghost sh = shingles(lv);
    let mut r: Vec<String> = Vec::new();
    let n = ws.len();
    if n >= 3 {
        for k in 0..n - 2
            invariant
                n == ws.len(),
                n >= 3,
                wv == ws@.map_values(|w: Vec<char>| w@),
                lines_view(r@) == Seq::new(
                    (n - 2) as nat,
                    |q: int| wv[q] + seq![' '] + wv[q + 1] + seq![' '] + wv[q + 2],
                ).take(k as int),
        {
            assert(wv[k as int] == ws@[k as int]@);
            assert(wv[k + 1] == ws@[k + 1]@);
            assert(wv[k + 2] == ws@[k + 2]@);
            let s = concat3(&ws[k], &ws[k + 1], &ws[k + 2], ' ');
            assert(s@ == wv[k as int] + seq![' '] + wv[k + 1] + seq![' '] + wv[k + 2]);
            let ghost r0 = lines_view(r@);
            r.push(s);
            assert(lines_view(r@) =~= r0.push(s@));
            assert(lines_view(r@) =~= Seq::new(
                (n - 2) as nat,
                |q: int| wv[q] + seq![' '] + wv[q + 1] + seq![' '] + wv[q + 2],
            ).take(k + 1));
        }
        assert(Seq::new(
            (n - 2) as nat,
            |q: int| wv[q] + seq![' '] + wv[q + 1] + seq![' '] + wv[q + 2],
        ).take((n - 2) as int) =~= Seq::new(
            (n - 2) as nat,
            |q: int| wv[q] + seq![' '] + wv[q + 1] + seq![' '] + wv[q + 2],
        ));
    } else if n > 0 {
        let s = if n == 1 {
            assert(wv[0] == ws@[0]@);
            assert(join_words(wv) == wv[0]);
            string_from_chars(&ws[0])
        } else {
            let mut out = copy_chars(&ws[0]);
            out.push(' ');
            let ghost o1 = out@;
            let w1 = &ws[1];
            for i in 0..w1.len()
                invariant
                    out@ == o1 + w1@.take(i as int),
            {
                out.push(w1[i]);
                assert(out@ =~= o1 + w1@.take(i + 1));
            }
            assert(w1@.take(w1.len() as int) =~= w1@);
            assert(wv.drop_last() =~= seq![wv[0]]);
            assert(wv[0] == ws@[0]@);
            assert(wv[1] == ws@[1]@);
            assert(join_words(wv.drop_last()) == wv[0]);
            assert(join_words(wv) == join_words(wv.drop_last()) + seq![' '] + wv.last());
            assert(out@ =~= join_words(wv));
            string_from_chars(&out)
        };
        assert(s@ == join_words(wv));
        let ghost r0 = lines_view(r@);
        r.push(s);
        assert(lines_view(r@) =~= r0.push(s@));
    }
    let ghost word_part = lines_view(r@);
    let m = lines.len();
    if m >= 3 {
        for k in 0..m - 2
            invariant
                m == lines.len(),
                m >= 3,
                lv == lines_view(lines@),
                lines_view(r@) == word_part + Seq::new(
                    (m - 2) as nat,
                    |q: int| lv[q] + seq!['\n'] + lv[q + 1] + seq!['\n'] + lv[q + 2],
                ).take(k as int),
        {
            let a = chars_of(lines[k].as_str());
            let b = chars_of(lines[k + 1].as_str());
            let c = chars_of(lines[k + 2].as_str());
            let s = concat3(&a, &b, &c, '\n');
            assert(s@ == lv[k as int] + seq!['\n'] + lv[k + 1] + seq!['\n'] + lv[k + 2]);
            let ghost r0 = lines_view(r@);
            r.push(s);
            assert(lines_view(r@) =~= r0.push(s@));
            assert(lines_view(r@) =~= word_part + Seq::new(
                (m - 2) as nat,
                |q: int| lv[q] + seq!['\n'] + lv[q + 1] + seq!['\n'] + lv[q + 2],
            ).take(k + 1));
        }
        assert(Seq::new(
            (m - 2) as nat,
            |q: int| lv[q] + seq!['\n'] + lv[q + 1] + seq!['\n'] + lv[q + 2],
        ).take((m - 2) as int) =~= Seq::new(
            (m - 2) as nat,
            |q: int| lv[q] + seq!['\n'] + lv[q + 1] + seq!['\n'] + lv[q + 2],
        ));
    }
    assert(lines_view(r@) =~= sh);
    r
}

/// The fingerprint of a text: shingles of its normalised lines, hashed and
/// combined by majority vote per bit.
pub fn compute_simhash(text: &str, normalization: &NormalizationOptions) -> (r: u64)
    ensures
        r == spec_simhash(spec_normalized_lines(text@, *normalization)),
{
    let lines = normalize_text(text, normalization);
    let sh = generate_shingles(&lines);
    let ghost sv = lines_view(sh@);
    let mut hs: Vec<u64> = Vec::new();
    for i in 0..sh.len()
        invariant
            sv == lines_view(sh@),
            hs@ == sv.take(i as int).map_values(|s: Seq<char>| shingle_hash(s)),
    {
        hs.push(hash_text(sh[i].as_str()));
        assert(hs@ =~= sv.take(i + 1).map_values(|s: Seq<char>| shingle_hash(s)));
    }
    assert(sv.take(sh.len() as int) =~= sv);
    simhash_from_hashes(&hs)
}

} // verus!

verus! {

/// The strings of a multiset in sorted order, as std's slice sort puts
/// them.
pub uninterp spec fn sorted_strings(m: Multiset<Seq<char>>) -> Seq<Seq<char>>;

/// Relies on std's `slice::sort` on `String`: the result is the sorted
/// arrangement (byte order, which for UTF-8 is code-point order) of the
/// same strings, so it depends only on which strings, with their
/// multiplicities, were given.
#[verifier::external_body]
fn sort_strings(v: &mut Vec<String>)
    ensures
        lines_view(final(v)@) == sorted_strings(lines_view(old(v)@).to_multiset()),
        lines_view(final(v)@).to_multiset() == lines_view(old(v)@).to_multiset(),
        forall|i: int|
            0 <= i < final(v)@.len() - 1 ==> !crate::structured::key_lt(
                (#[trigger] final(v)@[i + 1])@,
                final(v)@[i]@,
            ),
{
    v.sort()
}

/// Lower-case hex BLAKE3 digest of the UTF-8 bytes of a text.
pub uninterp spec fn blake3_hex(s: Seq<char>) -> Seq<char>;

/// A lower-case hexadecimal digit.
pub open spec fn is_hex_digit(c: char) -> bool {
    ('0' <= c <= '9') || ('a' <= c <= 'f')
}

/// Relies on `blake3::hash(..).to_hex()`: the 64 lower-case hex digits of
/// the digest of the text's bytes.
#[verifier::external_body]
fn blake3_text(s: &str) -> (r: String)
    ensures
        r@ == blake3_hex(s@),
        r@.len() == 64,
        forall|i: int| 0 <= i < r@.len() ==> is_hex_digit(#[trigger] r@[i]),
{
    blake3::hash(s.as_bytes()).to_hex().to_string()
}

/// Length of a schema signature.
pub const SIGNATURE_LEN: usize = 16;

/// Schema signature: the first sixteen hex digits of the digest of the
/// sorted column names joined by `|`.
pub open spec fn spec_schema_signature(columns: Seq<Seq<char>>) -> Seq<char> {
    blake3_hex(crate::structured::join_pipe(sorted_strings(columns.to_multiset()))).take(
        SIGNATURE_LEN as int,
    )
}

/// The schema signature of a header.
pub fn compute_schema_signature(columns: &Vec<String>) -> (r: String)
    ensures
        r@ == spec_schema_signature(lines_view(columns@)),
        r@.len() == SIGNATURE_LEN,
        forall|i: int| 0 <= i < r@.len() ==> is_hex_digit(#[trigger] r@[i]),
{
    let mut sorted = crate::types::copy_strings(columns);
    sort_strings(&mut sorted);
    let ghost sv = lines_view(sorted@);
    let mut joined: Vec<char> = Vec::new();
    for i in 0..sorted.len()
        invariant
            sv == lines_view(sorted@),
            joined@ == crate::structured::join_pipe(sv.take(i as int)),
    {
        assert(sv.take(i + 1).drop_last() =~= sv.take(i as int));
        assert(sv.take(i + 1).last() == sorted@[i as int]@);
        if i > 0 {
            joined.push('|');
        }
        let cs = chars_of(sorted[i].as_str());
        let ghost j0 = joined@;
        for k in 0..cs.len()
            invariant
                joined@ == j0 + cs@.take(k as int),
        {
            joined.push(cs[k]);
            assert(joined@ =~= j0 + cs@.take(k + 1));
        }
        assert(cs@.take(cs.len() as int) =~= cs@);
        proof {
            if i > 0 {
                assert(crate::structured::join_pipe(sv.take(i + 1)) == crate::structured::join_pipe(
                    sv.take(i as int),
                ) + seq!['|'] + sv[i as int]);
            } else {
                assert(crate::structured::join_pipe(sv.take(1)) == sv[0]);
            }
        }
        assert(joined@ =~= crate::structured::join_pipe(sv.take(i + 1)));
    }
    assert(sv.take(sorted.len() as int) =~= sv);
    let text = string_from_chars(&joined);
    let digest = blake3_text(text.as_str());
    let dc = chars_of(digest.as_str());
    let mut out: Vec<char> = Vec::new();
    for i in 0..SIGNATURE_LEN
        invariant
            dc@.len() == 64,
            forall|k: int| 0 <= k < dc@.len() ==> is_hex_digit(#[trigger] dc@[k]),
            out@ == dc@.take(i as int),
    {
        out.push(dc[i]);
        assert(out@ =~= dc@.take(i + 1));
    }
    string_from_chars(&out)
}

/// Fingerprint law: the schema signature does not depend on the order of
/// the columns.
pub proof fn lemma_signature_permutation(c1: Seq<Seq<char>>, c2: Seq<Seq<char>>)
    requires
        c1.to_multiset() == c2.to_multiset(),
    ensures
        spec_schema_signature(c1) == spec_schema_signature(c2),
{
}

/// Fingerprint law: texts with equal normalised lines have equal
/// fingerprints.
pub proof fn lemma_simhash_normalised(t1: Seq<char>, t2: Seq<char>, opts: NormalizationOptions)
    requires
        spec_normalized_lines(t1, opts) == spec_normalized_lines(t2, opts),
    ensures
        spec_simhash(spec_normalized_lines(t1, opts)) == spec_simhash(spec_normalized_lines(t2, opts)),
{
}

} // verus!

verus! {

/// What fingerprinting changes in an entry: the content hash always; for a
/// file within the size budget a fingerprint of its text (text and
/// delimited files) and a schema signature (tabular files with a header);
/// for a larger file only the schema signature.
pub open spec fn fingerprinted(
    before: FileEntry,
    after: FileEntry,
    hash: Seq<char>,
    text: Seq<char>,
    file_size: u64,
    opts: NormalizationOptions,
    max_size: u64,
) -> bool {
    let t = before.file_type;
    let sig = if spec_is_tabular(t) && before@.columns is Some {
        Some(spec_schema_signature(crate::lines::lines_view(before@.columns->0)))
    } else {
        before@.schema_signature
    };
    &&& after.content_hash@ == hash
    &&& after@.path == before@.path
    &&& after@.relative_path == before@.relative_path
    &&& after.size == before.size
    &&& after.file_type == t
    &&& after@.extension == before@.extension
    &&& after.line_count == before.line_count
    &&& after@.columns == before@.columns
    &&& after@.schema_signature == sig
    &&& after.simhash == if file_size <= max_size && (t == FileType::Text || spec_is_structured(t)) {
        Some(spec_simhash(spec_normalized_lines(text, opts)))
    } else {
        before.simhash
    }
}

} // verus!

verus! {

/// Fingerprints one entry, given its content digest, its text (read when
/// the file is within the size budget) and its size.
pub fn compute_fingerprint_for_entry(
    entry: &mut FileEntry,
    content_hash: String,
    text: &str,
    file_size: u64,
    normalization: &NormalizationOptions,
    max_file_size: u64,
)
    ensures
        fingerprinted(
            *old(entry),
            *final(entry),
            content_hash@,
            text@,
            file_size,
            *normalization,
            max_file_size,
        ),
{
    entry.content_hash = content_hash;
    if entry.file_type.is_tabular() {
        match &entry.columns {
            Some(c) => {
                let sig = compute_schema_signature(c);
                entry.schema_signature = Some(sig);
            },
            None => {},
        }
    }
    if file_size <= max_file_size && (entry.file_type == FileType::Text
        || entry.file_type.is_structured()) {
        entry.simhash = Some(compute_simhash(text, normalization));
    }
}

/// Fingerprints every entry of a list; `inputs[i]` holds the digest, text
/// and size of `entries[i]`.
pub fn compute_fingerprints(
    entries: &mut Vec<FileEntry>,
    inputs: Vec<(String, String, u64)>,
    normalization: &NormalizationOptions,
    max_file_size: u64,
)
    requires
        inputs@.len() == old(entries)@.len(),
    ensures
        final(entries)@.len() == old(entries)@.len(),
        forall|i: int|
            0 <= i < final(entries)@.len() ==> fingerprinted(
                #[trigger] old(entries)@[i],
                final(entries)@[i],
                inputs@[i].0@,
                inputs@[i].1@,
                inputs@[i].2,
                *normalization,
                max_file_size,
            ),
{
    let ghost before = entries@;
    let mut i: usize = 0;
    while i < entries.len()
        invariant
            i <= entries.len(),
            entries@.len() == before.len(),
            inputs@.len() == before.len(),
            forall|k: int|
                0 <= k < i ==> fingerprinted(
                    #[trigger] before[k],
                    entries@[k],
                    inputs@[k].0@,
                    inputs@[k].1@,
                    inputs@[k].2,
                    *normalization,
                    max_file_size,
                ),
            forall|k: int| i <= k < entries@.len() ==> entries@[k]@ == before[k]@,
        decreases entries.len() - i,
    {
        let (h, t, size) = (inputs[i].0.clone(), inputs[i].1.clone(), inputs[i].2);
        let mut e = entries[i].copy();
        compute_fingerprint_for_entry(&mut e, h, t.as_str(), size, normalization, max_file_size);
        entries.set(i, e);
        i += 1;
    }
}

} // verus!
