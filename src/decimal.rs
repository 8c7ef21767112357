//! Decimal field values and the tolerant comparison of two fields.
//!
//! A field is numeric when it reads `[+|-]digits[.digits][(e|E)[+|-]digits]`
//! with at least one mantissa digit and an exponent of at most 400 in
//! magnitude (beyond that a binary float is infinite, and infinities never
//! compare equal within a tolerance). Numbers of any length are compared
//! exactly, as fractions.

use vstd::prelude::*;
use crate::bignum::{add_nat, bval, digits_ok, is_zero, le, mul_small, pow10n, shift_zeros};
use crate::strs::chars_of;
use crate::types::{Tolerance, TOLERANCE_ONE};

verus! {

/// Bound up to which a run of digits is read into a machine integer.
pub const MANTISSA_LIMIT: u64 = 1000000000000000000;

/// Largest exponent magnitude of a numeric field.
pub const EXP_LIMIT: u64 = 400;

/// Longest field, in characters, that is read as a number.
pub const MAX_FIELD_CHARS: usize = 1000000000;

pub open spec fn is_digit(c: char) -> bool {
    '0' <= c <= '9'
}

pub open spec fn all_digits(s: Seq<char>) -> bool {
    forall|i: int| 0 <= i < s.len() ==> is_digit(#[trigger] s[i])
}

/// The number that a digit string denotes.
pub open spec fn digits_value(s: Seq<char>) -> nat
    decreases s.len(),
{
    if s.len() == 0 {
        0
    } else {
        digits_value(s.drop_last()) * 10 + ((s.last() as u32) - ('0' as u32)) as nat
    }
}

/// Index of the first `c` in `s`, or -1.
pub open spec fn find_char(s: Seq<char>, c: char) -> int
    decreases s.len(),
{
    if s.len() == 0 {
        -1
    } else if find_char(s.drop_last(), c) >= 0 {
        find_char(s.drop_last(), c)
    } else if s.last() == c {
        s.len() - 1
    } else {
        -1
    }
}

/// The sign and the digits after an optional leading `+` or `-`.
pub open spec fn split_sign(s: Seq<char>) -> (bool, Seq<char>) {
    if s.len() > 0 && (s[0] == '-' || s[0] == '+') {
        (s[0] == '-', s.drop_first())
    } else {
        (false, s)
    }
}

pub open spec fn pow10(n: nat) -> nat
    decreases n,
{
    if n == 0 {
        1
    } else {
        10 * pow10((n - 1) as nat)
    }
}

/// Index of the first exponent marker, or -1.
pub open spec fn find_exp(s: Seq<char>) -> int
    decreases s.len(),
{
    if s.len() == 0 {
        -1
    } else if find_exp(s.drop_last()) >= 0 {
        find_exp(s.drop_last())
    } else if s.last() == 'e' || s.last() == 'E' {
        s.len() - 1
    } else {
        -1
    }
}

/// The little-endian digit values of a digit string.
pub open spec fn le_digits(s: Seq<char>) -> Seq<u8> {
    Seq::new(s.len(), |k: int| ((s[s.len() - 1 - k] as u32) - ('0' as u32)) as u8)
}

/// A numeric field as `(integer, scale)`: the value is
/// `integer / 10^scale`; `None` for a field that is not numeric.
pub open spec fn parse_decimal(s: Seq<char>) -> Option<(int, int)> {
    let (neg, body) = split_sign(s);
    let e = find_exp(body);
    let mant = if e >= 0 {
        body.take(e)
    } else {
        body
    };
    let expo = if e >= 0 {
        body.skip(e + 1)
    } else {
        Seq::empty()
    };
    let (eneg, edig) = split_sign(expo);
    let dot = find_char(mant, '.');
    let int_part = if dot >= 0 {
        mant.take(dot)
    } else {
        mant
    };
    let frac = if dot >= 0 {
        mant.skip(dot + 1)
    } else {
        Seq::empty()
    };
    let digits = int_part + frac;
    let ev: int = if eneg {
        -(digits_value(edig) as int)
    } else {
        digits_value(edig) as int
    };
    if s.len() <= MAX_FIELD_CHARS && all_digits(int_part) && all_digits(frac) && digits.len() > 0
        && (e >= 0 ==> (edig.len() > 0 && all_digits(edig) && digits_value(edig) <= EXP_LIMIT)) {
        Some(
            (
                if neg {
                    -(bval(le_digits(digits)) as int)
                } else {
                    bval(le_digits(digits)) as int
                },
                frac.len() - ev,
            ),
        )
    } else {
        None
    }
}

pub open spec fn abs(x: int) -> int {
    if x >= 0 {
        x
    } else {
        -x
    }
}

/// `|x - y| <= t` or `|x - y| / max(|x|, |y|) <= t`, with `t = tn / 10^9`,
/// both numbers brought to a common non-negative scale.
pub open spec fn within_tolerance(x: (int, int), y: (int, int), tn: nat) -> bool {
    let s0: int = if x.1 >= y.1 {
        x.1
    } else {
        y.1
    };
    let s: int = if s0 >= 0 {
        s0
    } else {
        0
    };
    let xs = x.0 * pow10n((s - x.1) as nat);
    let ys = y.0 * pow10n((s - y.1) as nat);
    let d = abs(xs - ys);
    let m = if abs(xs) >= abs(ys) {
        abs(xs)
    } else {
        abs(ys)
    };
    d * TOLERANCE_ONE <= tn * pow10n(s as nat) || (m > 0 && d * TOLERANCE_ONE <= tn * m)
}

/// Two fields are equal: the same text, or two numbers within tolerance.
pub open spec fn spec_values_equal(a: Seq<char>, b: Seq<char>, tn: nat) -> bool {
    a == b || (parse_decimal(a) is Some && parse_decimal(b) is Some && within_tolerance(
        parse_decimal(a)->0,
        parse_decimal(b)->0,
        tn,
    ))
}

proof fn lemma_find_exp_range(s: Seq<char>)
    ensures
        -1 <= find_exp(s) < s.len(),
        find_exp(s) >= 0 ==> (s[find_exp(s)] == 'e' || s[find_exp(s)] == 'E'),
        forall|i: int|
            0 <= i < s.len() && (find_exp(s) < 0 || i < find_exp(s)) ==> s[i] != 'e' && s[i] != 'E',
    decreases s.len(),
{
    if s.len() > 0 {
        lemma_find_exp_range(s.drop_last());
        assert forall|i: int| 0 <= i < s.len() - 1 implies s[i] == s.drop_last()[i] by {}
    }
}

proof fn lemma_digits_value_step(s: Seq<char>, k: int)
    requires
        0 <= k < s.len(),
    ensures
        digits_value(s.take(k + 1)) == digits_value(s.take(k)) * 10 + ((s[k] as u32) - ('0' as u32)) as nat,
{
    assert(s.take(k + 1).drop_last() =~= s.take(k));
    assert(s.take(k + 1).last() == s[k]);
}

proof fn lemma_find_char_range(s: Seq<char>, c: char)
    ensures
        -1 <= find_char(s, c) < s.len(),
        find_char(s, c) >= 0 ==> s[find_char(s, c)] == c,
        forall|i: int| 0 <= i < s.len() && (find_char(s, c) < 0 || i < find_char(s, c)) ==> s[i] != c,
    decreases s.len(),
{
    if s.len() > 0 {
        lemma_find_char_range(s.drop_last(), c);
        assert forall|i: int| 0 <= i < s.len() - 1 implies s[i] == s.drop_last()[i] by {}
    }
}

proof fn lemma_pow10_pos(n: nat)
    ensures
        pow10(n) >= 1,
    decreases n,
{
    if n > 0 {
        lemma_pow10_pos((n - 1) as nat);
    }
}

/// First index in `[from, to)` holding `a` or `b`, or `to`.
fn find_in(s: &Vec<char>, from: usize, to: usize, a: char, b: char) -> (r: usize)
    requires
        from <= to <= s.len(),
    ensures
        from <= r <= to,
        r < to ==> (s@[r as int] == a || s@[r as int] == b),
        forall|i: int| from <= i < r ==> s@[i] != a && s@[i] != b,
{
    let mut i = from;
    while i < to && s[i] != a && s[i] != b
        invariant
            from <= i <= to <= s.len(),
            forall|k: int| from <= k < i ==> s@[k] != a && s@[k] != b,
        decreases to - i,
    {
        i += 1;
    }
    i
}

/// Reads the digits `s[from..to]` onto `acc`; `None` on a non-digit or once
/// the value reaches [`MANTISSA_LIMIT`].
fn read_digits(s: &Vec<char>, from: usize, to: usize, acc: u64) -> (r: Option<u64>)
    requires
        from <= to <= s.len(),
        acc < MANTISSA_LIMIT,
    ensures
        r is Some <==> (all_digits(s@.subrange(from as int, to as int)) && acc * pow10(
            (to - from) as nat,
        ) + digits_value(s@.subrange(from as int, to as int)) < MANTISSA_LIMIT),
        r is Some ==> r->0 == acc * pow10((to - from) as nat) + digits_value(
            s@.subrange(from as int, to as int),
        ),
{
    let ghost sub = s@.subrange(from as int, to as int);
    let mut v: u64 = acc;
    let mut i = from;
    assert(sub.take(0) =~= Seq::<char>::empty());
    assert(pow10(0) == 1);
    assert(acc * pow10(0) == acc);
    while i < to
        invariant
            from <= i <= to <= s.len(),
            sub == s@.subrange(from as int, to as int),
            all_digits(sub.take(i - from)),
            v == acc * pow10((i - from) as nat) + digits_value(sub.take(i - from)),
            v < MANTISSA_LIMIT,
        decreases to - i,
    {
        let c = s[i];
        assert(sub[i - from] == c);
        if !('0' <= c && c <= '9') {
            proof {
                assert(!all_digits(sub));
            }
            return None;
        }
        let d = (c as u32 - '0' as u32) as u64;
        proof {
            lemma_digits_value_step(sub, i - from);
            assert(sub.take(i - from + 1) =~= sub.take(i - from).push(c));
        }
        if v > (MANTISSA_LIMIT - 1 - d) / 10 {
            proof {
                lemma_over_limit(sub, acc, (i - from) as int, v as int, d as int);
            }
            return None;
        }
        v = v * 10 + d;
        i += 1;
        proof {
            assert(acc * pow10((i - from) as nat) == acc * pow10((i - 1 - from) as nat) * 10) by (nonlinear_arith)
                requires
                    pow10((i - from) as nat) == 10 * pow10((i - 1 - from) as nat),
            ;
        }
    }
    assert(sub.take(to - from) =~= sub);
    Some(v)
}

proof fn lemma_over_limit(sub: Seq<char>, acc: u64, k: int, v: int, d: int)
    requires
        0 <= k < sub.len(),
        all_digits(sub.take(k)),
        v == acc * pow10(k as nat) + digits_value(sub.take(k)),
        0 <= d <= 9,
        d == ((sub[k] as u32) - ('0' as u32)) as int,
        v > (MANTISSA_LIMIT - 1 - d) / 10,
    ensures
        !(all_digits(sub) && acc * pow10(sub.len()) + digits_value(sub) < MANTISSA_LIMIT),
{
    if all_digits(sub) {
        lemma_digits_value_step(sub, k);
        lemma_prefix_bound(sub, acc, k + 1);
        assert(v * 10 + d >= MANTISSA_LIMIT);
        assert(acc * pow10((k + 1) as nat) == acc * pow10(k as nat) * 10) by (nonlinear_arith)
            requires
                pow10((k + 1) as nat) == 10 * pow10(k as nat),
        ;
    }
}

proof fn lemma_prefix_bound(sub: Seq<char>, acc: u64, k: int)
    requires
        0 <= k <= sub.len(),
        all_digits(sub),
    ensures
        acc * pow10(k as nat) + digits_value(sub.take(k)) <= acc * pow10(sub.len()) + digits_value(sub),
    decreases sub.len() - k,
{
    if k < sub.len() {
        lemma_digits_value_step(sub, k);
        lemma_prefix_bound(sub, acc, k + 1);
        let p = pow10(k as nat);
        lemma_pow10_pos(k as nat);
        let dv = digits_value(sub.take(k));
        let dd = ((sub[k] as u32) - ('0' as u32)) as int;
        assert(acc * p + dv <= acc * (10 * p) + (dv * 10 + dd)) by (nonlinear_arith)
            requires
                acc >= 0,
                p >= 1,
                dv >= 0,
                dd >= 0,
        ;
        assert(pow10((k + 1) as nat) == 10 * p);
    } else {
        assert(sub.take(k) =~= sub);
    }
}


} // verus!

verus! {

/// A parsed numeric field: sign, little-endian digits and scale.
pub struct Number {
    pub negative: bool,
    pub digits: Vec<u8>,
    pub scale: i64,
}

/// What a parsed number denotes, as `(integer, scale)`.
pub open spec fn number_value(n: Number) -> (int, int) {
    (if n.negative { -(bval(n.digits@) as int) } else { bval(n.digits@) as int }, n.scale as int)
}

/// Numbers as parsed: digits valid and sizes within the field limit.
pub open spec fn number_ok(n: Number) -> bool {
    &&& digits_ok(n.digits@)
    &&& n.digits@.len() <= MAX_FIELD_CHARS
    &&& -(EXP_LIMIT as int) <= n.scale <= MAX_FIELD_CHARS + EXP_LIMIT
}

/// Whether `s[from..to]` holds digits only.
fn check_digits(s: &Vec<char>, from: usize, to: usize) -> (r: bool)
    requires
        from <= to <= s.len(),
    ensures
        r == all_digits(s@.subrange(from as int, to as int)),
{
    let ghost sub = s@.subrange(from as int, to as int);
    let mut k: usize = from;
    while k < to
        invariant
            from <= k <= to <= s.len(),
            sub == s@.subrange(from as int, to as int),
            forall|q: int| from <= q < k ==> is_digit(#[trigger] s@[q]),
        decreases to - k,
    {
        if !('0' <= s[k] && s[k] <= '9') {
            assert(sub[k - from] == s@[k as int]);
            return false;
        }
        k += 1;
    }
    assert forall|i: int| 0 <= i < sub.len() implies is_digit(#[trigger] sub[i]) by {
        assert(sub[i] == s@[from + i]);
    }
    true
}

/// The little-endian digits of `s[a..b]` followed by `s[c..d]`.
fn digits_le(s: &Vec<char>, a: usize, b: usize, c: usize, d: usize) -> (r: Vec<u8>)
    requires
        a <= b <= s.len(),
        c <= d <= s.len(),
        b <= c,
        all_digits(s@.subrange(a as int, b as int)),
        all_digits(s@.subrange(c as int, d as int)),
    ensures
        r@ == le_digits(s@.subrange(a as int, b as int) + s@.subrange(c as int, d as int)),
        digits_ok(r@),
{
    let ghost x = s@.subrange(a as int, b as int);
    let ghost y = s@.subrange(c as int, d as int);
    let ghost digits = x + y;
    let il = b - a;
    let n = il + (d - c);
    let mut v: Vec<u8> = Vec::new();
    for j in 0..n
        invariant
            n == il + (d - c),
            il == b - a,
            a <= b <= s.len(),
            c <= d <= s.len(),
            x == s@.subrange(a as int, b as int),
            y == s@.subrange(c as int, d as int),
            digits == x + y,
            all_digits(x),
            all_digits(y),
            v@ == le_digits(digits).take(j as int),
            digits_ok(v@),
    {
        let q = n - 1 - j;
        let ch = if q < il { s[a + q] } else { s[c + (q - il)] };
        assert(ch == digits[q as int]);
        assert(is_digit(ch));
        let dv: u8 = (ch as u32 - '0' as u32) as u8;
        v.push(dv);
        assert(v@ =~= le_digits(digits).take(j + 1));
    }
    assert(le_digits(digits).take(n as int) =~= le_digits(digits));
    v
}

/// The exponent after the marker at `es - 1`, when it is within
/// [`EXP_LIMIT`].
fn read_exponent(s: &Vec<char>, es: usize) -> (r: Option<i64>)
    requires
        es <= s.len(),
    ensures
        ({
            let (eneg, edig) = split_sign(s@.skip(es as int));
            &&& r is Some <==> (edig.len() > 0 && all_digits(edig) && digits_value(edig) <= EXP_LIMIT)
            &&& r matches Some(v) ==> v == (if eneg {
                -(digits_value(edig) as int)
            } else {
                digits_value(edig) as int
            })
        }),
{
    let ghost expo = s@.skip(es as int);
    let (eneg, ds) = if es < s.len() && (s[es] == '-' || s[es] == '+') {
        (s[es] == '-', es + 1)
    } else {
        (false, es)
    };
    let ghost edig = split_sign(expo).1;
    assert(edig =~= s@.subrange(ds as int, s.len() as int));
    assert(split_sign(expo).0 == eneg);
    if ds == s.len() {
        return None;
    }
    match read_digits(s, ds, s.len(), 0) {
        Some(v) => {
            assert(0 * pow10((s.len() - ds) as nat) == 0);
            if v > EXP_LIMIT {
                return None;
            }
            Some(if eneg { -(v as i64) } else { v as i64 })
        },
        None => {
            assert(0 * pow10((s.len() - ds) as nat) == 0);
            None
        },
    }
}

proof fn lemma_signed(neg: bool, b: nat, p: nat)
    ensures
        (if neg { -(b as int) } else { b as int }) * p == (if neg { -((b * p) as int) } else { (b * p) as int }),
{
    if neg {
        assert((-(b as int)) * p == -((b * p) as int)) by (nonlinear_arith);
    }
}

/// Parses a numeric field as [`parse_decimal`] describes.
#[verifier::rlimit(80)]
pub fn parse_number(s: &str) -> (r: Option<Number>)
    ensures
        r is Some <==> parse_decimal(s@) is Some,
        r matches Some(n) ==> number_ok(n) && number_value(n) == parse_decimal(s@)->0,
{
    let cs = chars_of(s);
    if cs.len() > MAX_FIELD_CHARS {
        return None;
    }
    let ghost sv = s@;
    let (neg, start) = if cs.len() > 0 && (cs[0] == '-' || cs[0] == '+') {
        (cs[0] == '-', 1usize)
    } else {
        (false, 0usize)
    };
    let ghost body = split_sign(sv).1;
    assert(body =~= cs@.skip(start as int));
    let eidx = find_in(&cs, start, cs.len(), 'e', 'E');
    let ghost fe = find_exp(body);
    proof {
        lemma_find_exp_range(body);
        if eidx < cs.len() {
            assert(body[eidx - start] == cs@[eidx as int]);
            if fe >= 0 && fe < eidx - start {
                assert(cs@[fe + start] == body[fe]);
            }
            if fe < 0 || fe > eidx - start {
                assert(body[eidx - start] != 'e' && body[eidx - start] != 'E');
            }
            assert(fe == eidx - start);
        } else {
            if fe >= 0 {
                assert(cs@[fe + start] == body[fe]);
            }
            assert(fe == -1);
        }
    }
    let ghost mant = if fe >= 0 { body.take(fe) } else { body };
    assert(mant =~= cs@.subrange(start as int, eidx as int));
    let dot = find_in(&cs, start, eidx, '.', '.');
    let ghost fd = find_char(mant, '.');
    proof {
        lemma_find_char_range(mant, '.');
        if dot < eidx {
            assert(mant[dot - start] == '.');
            if fd >= 0 && fd < dot - start {
                assert(cs@[fd + start] == mant[fd]);
            }
            assert(fd == dot - start);
        } else {
            if fd >= 0 {
                assert(cs@[fd + start] == mant[fd]);
            }
            assert(fd == -1);
        }
    }
    let frac_start: usize = if dot < eidx { dot + 1 } else { eidx };
    let ghost int_part = cs@.subrange(start as int, dot as int);
    let ghost frac = cs@.subrange(frac_start as int, eidx as int);
    assert(int_part =~= (if fd >= 0 { mant.take(fd) } else { mant }));
    assert(frac =~= (if fd >= 0 { mant.skip(fd + 1) } else { Seq::<char>::empty() }));
    let int_len = dot - start;
    let frac_len = eidx - frac_start;
    if int_len + frac_len == 0 {
        assert((int_part + frac).len() == 0);
        return None;
    }
    if !check_digits(&cs, start, dot) || !check_digits(&cs, frac_start, eidx) {
        return None;
    }
    let ghost expo = if fe >= 0 { body.skip(fe + 1) } else { Seq::<char>::empty() };
    let mut exp_value: i64 = 0;
    if eidx < cs.len() {
        assert(expo =~= cs@.skip(eidx + 1));
        match read_exponent(&cs, eidx + 1) {
            Some(v) => {
                exp_value = v;
            },
            None => {
                return None;
            },
        }
    }
    let le_vec = digits_le(&cs, start, dot, frac_start, eidx);
    let scale: i64 = frac_len as i64 - exp_value;
    Some(Number { negative: neg, digits: le_vec, scale })
}

/// The tolerance test over aligned magnitudes `bx`, `by`: the same sign,
/// or opposite signs.
pub open spec fn within_parts(same_sign: bool, bx: int, by: int, t_abs: int, t_rel: int) -> bool {
    let m = if bx >= by {
        bx
    } else {
        by
    };
    if same_sign {
        (bx * 1000000000 <= by * 1000000000 + t_abs && by * 1000000000 <= bx * 1000000000 + t_abs)
            || (m > 0 && bx * 1000000000 <= by * 1000000000 + t_rel && by * 1000000000 <= bx
            * 1000000000 + t_rel)
    } else {
        (bx + by) * 1000000000 <= t_abs || (m > 0 && (bx + by) * 1000000000 <= t_rel)
    }
}

proof fn lemma_within_parts(x: Number, y: Number, tn: nat, s: int, bx: nat, by: nat)
    requires
        s >= 0,
        s >= x.scale,
        s >= y.scale,
        s == (if x.scale >= y.scale { x.scale as int } else { y.scale as int }) || (s == 0 && x.scale
            < 0 && y.scale < 0),
        bx == bval(x.digits@) * pow10n((s - x.scale) as nat),
        by == bval(y.digits@) * pow10n((s - y.scale) as nat),
    ensures
        within_tolerance(number_value(x), number_value(y), tn) == within_parts(
            x.negative == y.negative,
            bx as int,
            by as int,
            (tn * pow10n(s as nat)) as int,
            (tn * (if bx >= by { bx } else { by })) as int,
        ),
{
    lemma_signed(x.negative, bval(x.digits@), pow10n((s - x.scale) as nat));
    lemma_signed(y.negative, bval(y.digits@), pow10n((s - y.scale) as nat));
}

/// Whether two parsed numbers are within the tolerance.
#[verifier::rlimit(60)]
fn within(x: &Number, y: &Number, tn: u64) -> (r: bool)
    requires
        number_ok(*x),
        number_ok(*y),
        tn <= TOLERANCE_ONE,
    ensures
        r == within_tolerance(number_value(*x), number_value(*y), tn as nat),
{
    let s0: i64 = if x.scale >= y.scale { x.scale } else { y.scale };
    let s: i64 = if s0 >= 0 { s0 } else { 0 };
    let xw = shift_zeros(&x.digits, (s - x.scale) as usize);
    let yw = shift_zeros(&y.digits, (s - y.scale) as usize);
    let xt = shift_zeros(&xw, 9);
    let yt = shift_zeros(&yw, 9);
    let mut one: Vec<u8> = Vec::new();
    one.push(1);
    proof {
        assert(crate::bignum::dig(one@, 0) == 1);
        assert(pow10n(0) == 1);
        assert(crate::bignum::val_upto(one@, 1) == crate::bignum::val_upto(one@, 0) + crate::bignum::dig(
            one@,
            0,
        ) * pow10n(0));
        assert(bval(one@) == 1);
    }
    let unit = shift_zeros(&one, s as usize);
    let t_abs = mul_small(&unit, tn);
    let ghost bx = bval(xw@);
    let ghost by_ = bval(yw@);
    let m = if le(&xw, &yw) { yw } else { xw };
    let m_zero = is_zero(&m);
    let t_rel = mul_small(&m, tn);
    proof {
        assert(bx == bval(x.digits@) * pow10n((s - x.scale) as nat)) by (nonlinear_arith)
            requires
                bx == pow10n((s - x.scale) as nat) * bval(x.digits@),
        ;
        assert(by_ == bval(y.digits@) * pow10n((s - y.scale) as nat)) by (nonlinear_arith)
            requires
                by_ == pow10n((s - y.scale) as nat) * bval(y.digits@),
        ;
        lemma_within_parts(*x, *y, tn as nat, s as int, bx, by_);
        assert(bval(m@) == (if bx >= by_ { bx } else { by_ }));
        assert(bval(t_abs@) == tn * pow10n(s as nat)) by (nonlinear_arith)
            requires
                bval(t_abs@) == bval(unit@) * tn,
                bval(unit@) == pow10n(s as nat) * 1,
        ;
        assert(bval(t_rel@) == tn * bval(m@)) by (nonlinear_arith)
            requires
                bval(t_rel@) == bval(m@) * tn,
        ;
        assert(bval(xt@) == 1000000000 * bx) by {
            reveal_with_fuel(pow10n, 10);
        }
        assert(bval(yt@) == 1000000000 * by_) by {
            reveal_with_fuel(pow10n, 10);
        }
    }
    if x.negative == y.negative {
        let a1 = add_nat(&yt, &t_abs);
        let a2 = add_nat(&xt, &t_abs);
        let abs_ok = le(&xt, &a1) && le(&yt, &a2);
        let r1 = add_nat(&yt, &t_rel);
        let r2 = add_nat(&xt, &t_rel);
        let rel_ok = !m_zero && le(&xt, &r1) && le(&yt, &r2);
        abs_ok || rel_ok
    } else {
        let dt = add_nat(&xt, &yt);
        le(&dt, &t_abs) || (!m_zero && le(&dt, &t_rel))
    }
}

/// Whether two field values are equal: the same text, or two numbers whose
/// absolute or relative difference is within the tolerance.
pub fn values_equal(val1: &str, val2: &str, tolerance: Tolerance) -> (r: bool)
    requires
        tolerance.wf(),
    ensures
        r == spec_values_equal(val1@, val2@, tolerance.billionths as nat),
{
    if crate::strs::str_eq(val1, val2) {
        return true;
    }
    match (parse_number(val1), parse_number(val2)) {
        (Some(x), Some(y)) => within(&x, &y, tolerance.billionths),
        _ => false,
    }
}

/// With tolerance zero, two fields that are not both numeric are equal
/// exactly when their texts are; two numeric fields are equal exactly when
/// they denote the same number.
pub proof fn lemma_zero_tolerance(a: Seq<char>, b: Seq<char>)
    ensures
        !(parse_decimal(a) is Some && parse_decimal(b) is Some) ==> (spec_values_equal(a, b, 0)
            <==> a == b),
{
}

} // verus!
