//! Natural numbers of any size as little-endian decimal digit vectors.

use vstd::prelude::*;

verus! {

/// The digit at position `i`, zero past the end.
pub open spec fn dig(s: Seq<u8>, i: int) -> nat {
    if 0 <= i < s.len() {
        s[i] as nat
    } else {
        0
    }
}

pub open spec fn pow10n(n: nat) -> nat
    decreases n,
{
    if n == 0 {
        1
    } else {
        10 * pow10n((n - 1) as nat)
    }
}

/// Value of the lowest `n` digits.
pub open spec fn val_upto(s: Seq<u8>, n: nat) -> nat
    decreases n,
{
    if n == 0 {
        0
    } else {
        val_upto(s, (n - 1) as nat) + dig(s, n - 1) * pow10n((n - 1) as nat)
    }
}

/// The number that a little-endian digit vector denotes.
pub open spec fn bval(s: Seq<u8>) -> nat {
    val_upto(s, s.len())
}

pub open spec fn digits_ok(s: Seq<u8>) -> bool {
    forall|i: int| 0 <= i < s.len() ==> s[i] < 10
}

pub proof fn lemma_pow10n_pos(n: nat)
    ensures
        pow10n(n) >= 1,
    decreases n,
{
    if n > 0 {
        lemma_pow10n_pos((n - 1) as nat);
    }
}

pub proof fn lemma_pow10n_add(a: nat, b: nat)
    ensures
        pow10n(a + b) == pow10n(a) * pow10n(b),
    decreases b,
{
    if b > 0 {
        lemma_pow10n_add(a, (b - 1) as nat);
        assert((a + b - 1) as nat == a + (b - 1) as nat);
        assert(pow10n(a + b) == 10 * pow10n((a + b - 1) as nat));
        assert(pow10n(b) == 10 * pow10n((b - 1) as nat));
        assert(pow10n(a) * (10 * pow10n((b - 1) as nat)) == 10 * (pow10n(a) * pow10n((b - 1) as nat)))
            by (nonlinear_arith);
    } else {
        assert(pow10n(0) == 1);
        assert(a + b == a);
    }
}

/// Digits past the end add nothing.
pub proof fn lemma_val_past_end(s: Seq<u8>, n: nat)
    requires
        n >= s.len(),
    ensures
        val_upto(s, n) == bval(s),
    decreases n,
{
    if n > s.len() {
        lemma_val_past_end(s, (n - 1) as nat);
        assert(dig(s, n - 1) == 0);
        assert(val_upto(s, n) == val_upto(s, (n - 1) as nat) + dig(s, n - 1) * pow10n((n - 1) as nat));
        assert(0 * pow10n((n - 1) as nat) == 0) by (nonlinear_arith);
    }
}

/// Appending a digit leaves the lower digits' value alone.
pub proof fn lemma_val_push(s: Seq<u8>, d: u8, n: nat)
    requires
        n <= s.len(),
    ensures
        val_upto(s.push(d), n) == val_upto(s, n),
    decreases n,
{
    if n > 0 {
        lemma_val_push(s, d, (n - 1) as nat);
    }
}

/// The lowest `n` digits are below `10^n`.
pub proof fn lemma_val_bound(s: Seq<u8>, n: nat)
    requires
        digits_ok(s),
    ensures
        val_upto(s, n) < pow10n(n),
    decreases n,
{
    if n > 0 {
        lemma_val_bound(s, (n - 1) as nat);
        let p = pow10n((n - 1) as nat);
        let v = val_upto(s, (n - 1) as nat);
        assert(dig(s, n - 1) <= 9);
        assert(v + dig(s, n - 1) * p < 10 * p) by (nonlinear_arith)
            requires
                v < p,
                dig(s, n - 1) <= 9,
        ;
    }
}

/// `n` zero digits in front multiply the value by `10^n`.
pub proof fn lemma_val_shift(s: Seq<u8>, n: nat, k: nat)
    ensures
        val_upto(Seq::new(n, |i: int| 0u8) + s, n + k) == pow10n(n) * val_upto(s, k),
    decreases k,
{
    let z = Seq::new(n, |i: int| 0u8) + s;
    if k == 0 {
        lemma_val_zeros(z, n);
        assert(pow10n(n) * 0 == 0) by (nonlinear_arith);
    } else {
        lemma_val_shift(s, n, (k - 1) as nat);
        assert(dig(z, n + k - 1) == dig(s, k - 1));
        lemma_pow10n_add(n, (k - 1) as nat);
        assert((n + k - 1) as nat == n + (k - 1) as nat);
        assert(val_upto(z, n + k) == val_upto(z, (n + k - 1) as nat) + dig(z, n + k - 1) * pow10n(
            (n + k - 1) as nat,
        ));
        assert(val_upto(s, k) == val_upto(s, (k - 1) as nat) + dig(s, k - 1) * pow10n((k - 1) as nat));
        assert(pow10n(n) * (val_upto(s, (k - 1) as nat) + dig(s, k - 1) * pow10n((k - 1) as nat))
            == pow10n(n) * val_upto(s, (k - 1) as nat) + dig(s, k - 1) * (pow10n(n) * pow10n(
            (k - 1) as nat,
        ))) by (nonlinear_arith);
    }
}

proof fn lemma_val_zeros(z: Seq<u8>, n: nat)
    requires
        n <= z.len(),
        forall|i: int| 0 <= i < n ==> z[i] == 0u8,
    ensures
        val_upto(z, n) == 0,
    decreases n,
{
    if n > 0 {
        lemma_val_zeros(z, (n - 1) as nat);
        assert(dig(z, n - 1) == 0);
        assert(val_upto(z, n) == val_upto(z, (n - 1) as nat) + dig(z, n - 1) * pow10n((n - 1) as nat));
        assert(0 * pow10n((n - 1) as nat) == 0) by (nonlinear_arith);
    }
}

/// `s` followed by... preceded by `n` zeros: `s * 10^n`.
pub fn shift_zeros(s: &Vec<u8>, n: usize) -> (r: Vec<u8>)
    requires
        digits_ok(s@),
    ensures
        digits_ok(r@),
        bval(r@) == pow10n(n as nat) * bval(s@),
        r@ == Seq::new(n as nat, |i: int| 0u8) + s@,
{
    let mut r: Vec<u8> = Vec::new();
    for i in 0..n
        invariant
            r@ == Seq::new(i as nat, |k: int| 0u8),
    {
        r.push(0);
        assert(r@ =~= Seq::new((i + 1) as nat, |k: int| 0u8));
    }
    for i in 0..s.len()
        invariant
            r@ == Seq::new(n as nat, |k: int| 0u8) + s@.take(i as int),
    {
        r.push(s[i]);
        assert(r@ =~= Seq::new(n as nat, |k: int| 0u8) + s@.take(i + 1));
    }
    assert(s@.take(s.len() as int) =~= s@);
    proof {
        lemma_val_shift(s@, n as nat, s.len() as nat);
    }
    r
}

/// `a + b`.
pub fn add_nat(a: &Vec<u8>, b: &Vec<u8>) -> (r: Vec<u8>)
    requires
        digits_ok(a@),
        digits_ok(b@),
    ensures
        digits_ok(r@),
        bval(r@) == bval(a@) + bval(b@),
{
    let n = if a.len() >= b.len() { a.len() } else { b.len() };
    let mut r: Vec<u8> = Vec::new();
    let mut carry: u8 = 0;
    for i in 0..n
        invariant
            digits_ok(a@),
            digits_ok(b@),
            digits_ok(r@),
            r.len() == i,
            carry <= 1,
            val_upto(a@, i as nat) + val_upto(b@, i as nat) == val_upto(r@, i as nat) + carry
                * pow10n(i as nat),
    {
        let x: u8 = if i < a.len() { a[i] } else { 0 };
        let y: u8 = if i < b.len() { b[i] } else { 0 };
        proof {
            if i < a.len() {
                assert(a@[i as int] < 10);
            }
            if i < b.len() {
                assert(b@[i as int] < 10);
            }
        }
        let t: u8 = x + y + carry;
        let d: u8 = t % 10;
        let ghost r0 = r@;
        r.push(d);
        proof {
            lemma_val_push(r0, d, i as nat);
            assert(dig(r@, i as int) == d);
            let p = pow10n(i as nat);
            assert(dig(a@, i as int) == x);
            assert(dig(b@, i as int) == y);
            assert(val_upto(a@, (i + 1) as nat) == val_upto(a@, i as nat) + x * p);
            assert(val_upto(b@, (i + 1) as nat) == val_upto(b@, i as nat) + y * p);
            assert(val_upto(r@, (i + 1) as nat) == val_upto(r@, i as nat) + d * p);
            assert(pow10n((i + 1) as nat) == 10 * p);
            assert(x * p + y * p + carry * p == (x + y + carry) * p) by (nonlinear_arith);
            assert((x + y + carry) * p == d * p + (t / 10) * (10 * p)) by (nonlinear_arith)
                requires
                    t == x + y + carry,
                    d == t % 10,
            ;
        }
        carry = t / 10;
    }
    if carry > 0 {
        let ghost r0 = r@;
        r.push(carry);
        proof {
            lemma_val_push(r0, carry, n as nat);
        }
    }
    proof {
        lemma_val_past_end(a@, n as nat);
        lemma_val_past_end(b@, n as nat);
    }
    r
}

/// `a * k` for a small factor.
pub fn mul_small(a: &Vec<u8>, k: u64) -> (r: Vec<u8>)
    requires
        digits_ok(a@),
        a.len() + 20 <= usize::MAX,
        k <= 1000000000,
    ensures
        digits_ok(r@),
        bval(r@) == bval(a@) * k,
{
    let mut r: Vec<u8> = Vec::new();
    let mut carry: u64 = 0;
    assert(val_upto(a@, 0) * k == 0) by (nonlinear_arith)
        requires
            val_upto(a@, 0) == 0,
    ;
    for i in 0..a.len()
        invariant
            digits_ok(a@),
            digits_ok(r@),
            r.len() == i,
            k <= 1000000000,
            carry <= k,
            val_upto(a@, i as nat) * k == val_upto(r@, i as nat) + carry * pow10n(i as nat),
    {
        assert(a@[i as int] < 10);
        assert(a@[i as int] as u64 * k <= 9 * 1000000000) by (nonlinear_arith)
            requires
                a@[i as int] < 10,
                k <= 1000000000,
        ;
        let t: u64 = a[i] as u64 * k + carry;
        let d: u8 = (t % 10) as u8;
        let ghost r0 = r@;
        r.push(d);
        proof {
            lemma_val_push(r0, d, i as nat);
            let p = pow10n(i as nat);
            let v = val_upto(a@, i as nat);
            assert(dig(a@, i as int) == a@[i as int]);
            assert(dig(r@, i as int) == d);
            assert(val_upto(a@, (i + 1) as nat) == v + a@[i as int] * p);
            assert(val_upto(r@, (i + 1) as nat) == val_upto(r@, i as nat) + d * p);
            assert(pow10n((i + 1) as nat) == 10 * p);
            assert((v + a@[i as int] * p) * k == v * k + (a@[i as int] * k) * p) by (nonlinear_arith);
            assert((a@[i as int] * k + carry) * p == (a@[i as int] * k) * p + carry * p) by (nonlinear_arith);
            assert((a@[i as int] * k + carry) * p == d * p + (t / 10) * (10 * p)) by (nonlinear_arith)
                requires
                    t == a@[i as int] * k + carry,
                    d == t % 10,
            ;
            assert(t / 10 <= k) by (nonlinear_arith)
                requires
                    t == a@[i as int] * k + carry,
                    a@[i as int] <= 9,
                    carry <= k,
            ;
        }
        carry = t / 10;
    }
    let mut m: usize = a.len();
    assert(pow10n(0) == 1);
    assert(carry * pow10n(0) == carry);
    while carry > 0
        invariant
            digits_ok(r@),
            r.len() == m,
            a.len() <= m,
            a.len() + 20 <= usize::MAX,
            m - a.len() <= 10,
            carry * pow10n((m - a.len()) as nat) <= 1000000000,
            bval(a@) * k == val_upto(r@, m as nat) + carry * pow10n(m as nat),
        decreases carry,
    {
        let d: u8 = (carry % 10) as u8;
        let ghost r0 = r@;
        r.push(d);
        proof {
            lemma_val_push(r0, d, m as nat);
            let p = pow10n(m as nat);
            assert(dig(r@, m as int) == d);
            assert(val_upto(r@, (m + 1) as nat) == val_upto(r@, m as nat) + d * p);
            assert(pow10n((m + 1) as nat) == 10 * p);
            assert(carry * p == d * p + (carry / 10) * (10 * p)) by (nonlinear_arith)
                requires
                    d == carry % 10,
            ;
            let j = (m - a.len()) as nat;
            lemma_pow10n_ten(j);
            assert(carry * pow10n(j) >= pow10n(j)) by (nonlinear_arith)
                requires
                    carry >= 1,
            ;
            assert((carry / 10) * (10 * pow10n(j)) <= carry * pow10n(j)) by (nonlinear_arith);
            assert(pow10n(j + 1) == 10 * pow10n(j));
        }
        carry = carry / 10;
        m += 1;
    }
    r
}

proof fn lemma_pow10n_ten(j: nat)
    ensures
        j >= 10 ==> pow10n(j) > 1000000000,
    decreases j,
{
    if j > 10 {
        lemma_pow10n_ten((j - 1) as nat);
    } else if j == 10 {
        reveal_with_fuel(pow10n, 11);
    }
}

/// `a <= b`.
pub fn le(a: &Vec<u8>, b: &Vec<u8>) -> (r: bool)
    requires
        digits_ok(a@),
        digits_ok(b@),
    ensures
        r == (bval(a@) <= bval(b@)),
{
    let n = if a.len() >= b.len() { a.len() } else { b.len() };
    let mut borrow: bool = false;
    let ghost mut rest: int = 0;
    for i in 0..n
        invariant
            digits_ok(a@),
            digits_ok(b@),
            0 <= rest < pow10n(i as nat),
            val_upto(b@, i as nat) - val_upto(a@, i as nat) == rest - (if borrow { 1int } else {
                0int
            }) * pow10n(i as nat),
    {
        let x: i16 = if i < a.len() { a[i] as i16 } else { 0 };
        let y: i16 = if i < b.len() { b[i] as i16 } else { 0 };
        proof {
            if i < a.len() {
                assert(a@[i as int] < 10);
            }
            if i < b.len() {
                assert(b@[i as int] < 10);
            }
        }
        let t: i16 = y - x - (if borrow { 1 } else { 0 });
        proof {
            let p = pow10n(i as nat);
            assert(dig(a@, i as int) == x);
            assert(dig(b@, i as int) == y);
            assert(val_upto(a@, (i + 1) as nat) == val_upto(a@, i as nat) + x * p);
            assert(val_upto(b@, (i + 1) as nat) == val_upto(b@, i as nat) + y * p);
            assert(pow10n((i + 1) as nat) == 10 * p);
            assert(y * p - x * p == (y - x) * p) by (nonlinear_arith);
            let bb: int = if borrow { 1 } else { 0 };
            let dd: int = if t < 0 { t + 10 } else { t as int };
            let nb: int = if t < 0 { 1 } else { 0 };
            assert(dd * p + rest - nb * (10 * p) == (y - x) * p + rest - bb * p) by (nonlinear_arith)
                requires
                    dd == (if t < 0 { t + 10 } else { t as int }),
                    nb == (if t < 0 { 1int } else { 0int }),
                    t == y - x - bb,
            ;
            assert(0 <= dd * p + rest < 10 * p) by (nonlinear_arith)
                requires
                    0 <= dd <= 9,
                    0 <= rest < p,
            ;
            rest = dd * p + rest;
        }
        borrow = t < 0;
    }
    proof {
        lemma_val_past_end(a@, n as nat);
        lemma_val_past_end(b@, n as nat);
    }
    !borrow
}

/// `a == 0`.
pub fn is_zero(a: &Vec<u8>) -> (r: bool)
    requires
        digits_ok(a@),
    ensures
        r == (bval(a@) == 0),
{
    for i in 0..a.len()
        invariant
            forall|k: int| 0 <= k < i ==> a@[k] == 0,
            val_upto(a@, i as nat) == 0,
    {
        if a[i] != 0 {
            proof {
                lemma_pow10n_pos(i as nat);
                lemma_val_mono(a@, (i + 1) as nat, a.len() as nat);
                assert(a@[i as int] * pow10n(i as nat) >= 1) by (nonlinear_arith)
                    requires
                        a@[i as int] >= 1,
                        pow10n(i as nat) >= 1,
                ;
            }
            return false;
        }
    }
    true
}

proof fn lemma_val_mono(s: Seq<u8>, m: nat, n: nat)
    requires
        m <= n,
    ensures
        val_upto(s, m) <= val_upto(s, n),
    decreases n,
{
    if m < n {
        lemma_val_mono(s, m, (n - 1) as nat);
        lemma_pow10n_pos((n - 1) as nat);
    }
}

} // verus!
