//! Unsigned amounts of any size, held as decimal digits.

use vstd::prelude::*;
use vstd::arithmetic::div_mod::{lemma_basic_div, lemma_div_denominator, lemma_fundamental_div_mod_converse};
use crate::abi::{be_value, copy_bytes};
use crate::decimal::{all_digits, digits_of, fixed_text, lemma_digits_are_digits, lemma_pow10_adds, lemma_pow10_positive, lemma_price_shift_down, lemma_price_shift_up, pow10, price_mantissa, render_fixed, MAX_DECIMALS, PRICE_SCALE};

verus! {

/// The number that decimal digits spell, least significant digit first.
pub open spec fn le_val(s: Seq<u8>) -> nat
    decreases s.len(),
{
    if s.len() == 0 {
        0
    } else {
        s[0] as nat + 10 * le_val(s.subrange(1, s.len() as int))
    }
}

/// An unsigned amount: its decimal digits, least significant first.
#[derive(Debug, PartialEq, Eq)]
pub struct Amount {
    pub digits: Vec<u8>,
}

impl View for Amount {
    type V = nat;

    open spec fn view(&self) -> nat {
        le_val(self.digits@)
    }
}

impl Amount {
    /// Every digit is below ten, and the digits fit a text.
    pub open spec fn wf(&self) -> bool {
        all_digits(self.digits@) && self.digits@.len() <= 0x1000_0000
    }
}

pub proof fn lemma_le_val_push(s: Seq<u8>, d: u8)
    ensures
        le_val(s.push(d)) == le_val(s) + d * pow10(s.len()),
    decreases s.len(),
{
    let p = s.push(d);
    if s.len() == 0 {
        assert(p.subrange(1, 1) =~= Seq::<u8>::empty());
        assert(le_val(p.subrange(1, 1)) == 0);
        assert(pow10(0) == 1);
        assert(d * pow10(0) == d) by (nonlinear_arith)
            requires
                pow10(0) == 1,
        ;
    } else {
        let t = s.subrange(1, s.len() as int);
        lemma_le_val_push(t, d);
        assert(p.subrange(1, p.len() as int) =~= t.push(d));
        assert(pow10(s.len()) == 10 * pow10(t.len()));
        assert(10 * (d * pow10(t.len())) == d * pow10(s.len())) by (nonlinear_arith)
            requires
                pow10(s.len()) == 10 * pow10(t.len()),
        ;
    }
}

/// Taking one more digit adds that digit at its place value.
pub proof fn lemma_le_val_step(s: Seq<u8>, i: int)
    requires
        0 <= i < s.len(),
    ensures
        le_val(s.subrange(0, i + 1)) == le_val(s.subrange(0, i)) + s[i] * pow10(i as nat),
{
    lemma_le_val_push(s.subrange(0, i), s[i]);
    assert(s.subrange(0, i).push(s[i]) =~= s.subrange(0, i + 1));
}

pub proof fn lemma_le_val_bound(s: Seq<u8>)
    requires
        all_digits(s),
    ensures
        le_val(s) < pow10(s.len()),
    decreases s.len(),
{
    if s.len() == 0 {
        assert(pow10(0) == 1);
    } else {
        let t = s.subrange(1, s.len() as int);
        lemma_le_val_bound(t);
        assert(pow10(s.len()) == 10 * pow10(t.len()));
    }
}

/// Dropping the `k` lowest digits divides by ten to the `k`.
pub proof fn lemma_le_val_skip(s: Seq<u8>, k: nat)
    requires
        all_digits(s),
        k <= s.len(),
    ensures
        le_val(s.subrange(k as int, s.len() as int)) == le_val(s) / pow10(k),
    decreases k,
{
    if k == 0 {
        assert(s.subrange(0, s.len() as int) =~= s);
        assert(pow10(0) == 1);
    } else {
        let t = s.subrange(1, s.len() as int);
        lemma_le_val_skip(t, (k - 1) as nat);
        assert(t.subrange(k - 1, t.len() as int) =~= s.subrange(k as int, s.len() as int));
        assert(le_val(s) / 10 == le_val(t));
        lemma_pow10_positive((k - 1) as nat);
        lemma_div_denominator(
            le_val(s) as int,
            10,
            pow10((k - 1) as nat) as int,
        );
        assert(pow10(k) == 10 * pow10((k - 1) as nat));
    }
}

fn times_256_plus(acc: &Vec<u8>, byte: u8) -> (out: Vec<u8>)
    requires
        all_digits(acc@),
    ensures
        all_digits(out@),
        le_val(out@) == le_val(acc@) * 256 + byte,
        out@.len() <= acc@.len() + 3,
{
    let mut out: Vec<u8> = Vec::new();
    let mut carry: u32 = byte as u32;
    let mut i: usize = 0;
    assert(pow10(0) == 1);
    assert(le_val(acc@.subrange(0, 0)) == 0);
    assert(le_val(out@) == 0);
    while i < acc.len()
        invariant
            i <= acc@.len(),
            all_digits(acc@),
            all_digits(out@),
            out@.len() == i,
            carry <= 255,
            le_val(out@) + carry * pow10(i as nat) == le_val(acc@.subrange(0, i as int)) * 256
                + byte,
        decreases acc@.len() - i,
    {
        let t: u32 = acc[i] as u32 * 256 + carry;
        proof {
            lemma_le_val_push(out@, (t % 10) as u8);
            lemma_le_val_step(acc@, i as int);
            let p = pow10(i as nat) as int;
            let lo = le_val(out@) as int;
            let la = le_val(acc@.subrange(0, i as int)) as int;
            let ai = acc@[i as int] as int;
            let c = carry as int;
            let tt = t as int;
            assert(lo + (tt % 10) * p + (tt / 10) * (10 * p) == (la + ai * p) * 256 + byte)
                by (nonlinear_arith)
                requires
                    lo + c * p == la * 256 + byte,
                    tt == ai * 256 + c,
                    tt == 10 * (tt / 10) + tt % 10,
            ;
            assert(pow10((i + 1) as nat) == 10 * p);
        }
        out.push((t % 10) as u8);
        carry = t / 10;
        i = i + 1;
    }
    assert(acc@.subrange(0, i as int) =~= acc@);
    let ghost base = out@.len();
    let mut extra: usize = 0;
    while carry > 0
        invariant
            all_digits(out@),
            carry <= 255,
            extra <= 3,
            out@.len() == acc@.len() + extra,
            extra == 0 ==> carry <= 255,
            extra == 1 ==> carry <= 25,
            extra == 2 ==> carry <= 2,
            extra == 3 ==> carry == 0,
            le_val(out@) + carry * pow10(out@.len()) == le_val(acc@) * 256 + byte,
        decreases carry,
    {
        proof {
            lemma_le_val_push(out@, (carry % 10) as u8);
            let p = pow10(out@.len()) as int;
            let lo = le_val(out@) as int;
            let c = carry as int;
            assert(lo + (c % 10) * p + (c / 10) * (10 * p) == lo + c * p) by (nonlinear_arith)
                requires
                    c == 10 * (c / 10) + c % 10,
            ;
            assert(pow10((out@.len() + 1) as nat) == 10 * p);
        }
        out.push((carry % 10) as u8);
        carry = carry / 10;
        extra = extra + 1;
    }
    assert(0 * pow10(out@.len()) == 0);
    out
}

impl Amount {
    /// The amount that bytes spell, most significant byte first.
    pub fn from_be_bytes(bytes: &[u8]) -> (amount: Amount)
        requires
            bytes@.len() <= 0x100_0000,
        ensures
            amount@ == be_value(bytes@),
            amount.wf(),
    {
        let mut acc: Vec<u8> = Vec::new();
        let mut i: usize = 0;
        while i < bytes.len()
            invariant
                i <= bytes@.len(),
                bytes@.len() <= 0x100_0000,
                all_digits(acc@),
                acc@.len() <= 3 * i,
                le_val(acc@) == be_value(bytes@.subrange(0, i as int)),
            decreases bytes@.len() - i,
        {
            proof {
                let next = bytes@.subrange(0, i + 1);
                assert(next.drop_last() =~= bytes@.subrange(0, i as int));
                assert(next.last() == bytes@[i as int]);
            }
            acc = times_256_plus(&acc, bytes[i]);
            i = i + 1;
        }
        assert(bytes@.subrange(0, i as int) =~= bytes@);
        Amount { digits: acc }
    }

    /// Whether the amount is zero.
    pub fn is_zero(&self) -> (zero: bool)
        requires
            self.wf(),
        ensures
            zero == (self@ == 0),
    {
        let mut zero = true;
        let mut i: usize = 0;
        while i < self.digits.len()
            invariant
                i <= self.digits@.len(),
                zero == (le_val(self.digits@.subrange(0, i as int)) == 0),
            decreases self.digits@.len() - i,
        {
            proof {
                lemma_le_val_step(self.digits@, i as int);
                lemma_pow10_positive(i as nat);
                let p = pow10(i as nat) as int;
                let d = self.digits@[i as int] as int;
                assert((d * p == 0) == (d == 0)) by (nonlinear_arith)
                    requires
                        p > 0,
                        d >= 0,
                ;
                assert(d * p >= 0) by (nonlinear_arith)
                    requires
                        p > 0,
                        d >= 0,
                ;
            }
            if self.digits[i] != 0 {
                zero = false;
            }
            i = i + 1;
        }
        assert(self.digits@.subrange(0, i as int) =~= self.digits@);
        zero
    }
}

/// Appends a digit to the digits of `q`, which gives the digits of `10 q + d`.
pub(crate) fn append_digit(digits: &mut Vec<u8>, d: u8, Ghost(q): Ghost<nat>)
    requires
        d < 10,
        old(digits)@ == digits_of(q),
    ensures
        final(digits)@ == digits_of(q * 10 + d as nat),
        final(digits)@.len() <= old(digits)@.len() + 1,
{
    proof {
        lemma_digits_are_digits(q);
    }
    if digits.len() == 1 && digits[0] == 0 {
        assert(q == 0) by {
            if q >= 10 {
                lemma_digits_are_digits(q / 10);
            }
        }
        digits.set(0, d);
        assert(digits@ =~= digits_of(q * 10 + d as nat));
    } else {
        assert(q > 0);
        assert((q * 10 + d as nat) / 10 == q);
        assert((q * 10 + d as nat) % 10 == d as nat);
        digits.push(d);
        assert(digits@ =~= digits_of(q * 10 + d as nat));
    }
}

impl Amount {
    /// The decimal digits of the amount, most significant first, without
    /// leading zeros.
    pub fn canonical_digits(&self) -> (digits: Vec<u8>)
        requires
            self.wf(),
        ensures
            digits@ == digits_of(self@),
            digits@.len() <= self.digits@.len() + 1,
    {
        let mut digits: Vec<u8> = Vec::new();
        digits.push(0);
        let n = self.digits.len();
        let mut i: usize = n;
        let ghost mut q: nat = 0;
        assert(digits@ =~= digits_of(0));
        assert(le_val(self.digits@.subrange(n as int, n as int)) == 0);
        while i > 0
            invariant
                i <= n,
                n == self.digits@.len(),
                all_digits(self.digits@),
                digits@ == digits_of(q),
                digits@.len() <= 1 + (n - i),
                q == le_val(self.digits@.subrange(i as int, n as int)),
            decreases i,
        {
            i = i - 1;
            let d = self.digits[i];
            proof {
                let cur = self.digits@.subrange(i as int, n as int);
                assert(cur.subrange(1, cur.len() as int) =~= self.digits@.subrange(i + 1, n as int));
                assert(cur[0] == d);
            }
            append_digit(&mut digits, d, Ghost(q));
            proof {
                q = q * 10 + d as nat;
            }
        }
        assert(self.digits@.subrange(0, n as int) =~= self.digits@);
        digits
    }
}


/// Whether `r` is at least `a`, both written with the same number of digits.
fn at_least(r: &Vec<u8>, a: &Vec<u8>) -> (ge: bool)
    requires
        r@.len() == a@.len(),
        all_digits(r@),
        all_digits(a@),
    ensures
        ge == (le_val(r@) >= le_val(a@)),
{
    let mut ge = true;
    let mut i: usize = 0;
    while i < r.len()
        invariant
            i <= r@.len(),
            r@.len() == a@.len(),
            all_digits(r@),
            all_digits(a@),
            ge == (le_val(r@.subrange(0, i as int)) >= le_val(a@.subrange(0, i as int))),
        decreases r@.len() - i,
    {
        proof {
            lemma_le_val_step(r@, i as int);
            lemma_le_val_step(a@, i as int);
            lemma_le_val_bound(r@.subrange(0, i as int));
            lemma_le_val_bound(a@.subrange(0, i as int));
            let p = pow10(i as nat) as int;
            let x = le_val(r@.subrange(0, i as int)) as int;
            let y = le_val(a@.subrange(0, i as int)) as int;
            let ri = r@[i as int] as int;
            let ai = a@[i as int] as int;
            assert(ri > ai ==> x + ri * p >= y + ai * p) by (nonlinear_arith)
                requires
                    0 <= x < p,
                    0 <= y < p,
            ;
            assert(ri < ai ==> x + ri * p < y + ai * p) by (nonlinear_arith)
                requires
                    0 <= x < p,
                    0 <= y < p,
            ;
        }
        if r[i] > a[i] {
            ge = true;
        } else if r[i] < a[i] {
            ge = false;
        }
        i = i + 1;
    }
    assert(r@.subrange(0, i as int) =~= r@);
    assert(a@.subrange(0, i as int) =~= a@);
    ge
}

/// Takes `a` away from `r`, both written with the same number of digits.
fn take_away(r: &mut Vec<u8>, a: &Vec<u8>)
    requires
        old(r)@.len() == a@.len(),
        all_digits(old(r)@),
        all_digits(a@),
        le_val(old(r)@) >= le_val(a@),
    ensures
        final(r)@.len() == a@.len(),
        all_digits(final(r)@),
        le_val(final(r)@) == le_val(old(r)@) - le_val(a@),
{
    let ghost before = r@;
    let n = r.len();
    let mut borrow: u8 = 0;
    let mut i: usize = 0;
    assert(pow10(0) == 1);
    while i < n
        invariant
            i <= n,
            n == a@.len(),
            r@.len() == n,
            before.len() == n,
            all_digits(before),
            all_digits(a@),
            all_digits(r@),
            borrow <= 1,
            forall|j: int| i <= j < n ==> r@[j] == before[j],
            le_val(r@.subrange(0, i as int)) + le_val(a@.subrange(0, i as int)) == le_val(
                before.subrange(0, i as int),
            ) + borrow * pow10(i as nat),
        decreases n - i,
    {
        let x: u8 = r[i];
        let y: u8 = a[i] + borrow;
        let ghost lower = r@.subrange(0, i as int);
        let digit: u8;
        let next: u8;
        if x >= y {
            digit = x - y;
            next = 0;
        } else {
            digit = x + 10 - y;
            next = 1;
        }
        r.set(i, digit);
        proof {
            assert(r@.subrange(0, i as int) =~= lower);
            lemma_le_val_step(r@, i as int);
            lemma_le_val_step(a@, i as int);
            lemma_le_val_step(before, i as int);
            let p = pow10(i as nat) as int;
            let lr = le_val(lower) as int;
            let la = le_val(a@.subrange(0, i as int)) as int;
            let lb = le_val(before.subrange(0, i as int)) as int;
            let dg = digit as int;
            let ai = a@[i as int] as int;
            let xi = x as int;
            let bw = borrow as int;
            let nx = next as int;
            assert(lr + dg * p + la + ai * p == lb + xi * p + nx * (10 * p)) by (nonlinear_arith)
                requires
                    lr + la == lb + bw * p,
                    dg == xi + 10 * nx - ai - bw,
            ;
            assert(pow10((i + 1) as nat) == 10 * p);
        }
        borrow = next;
        i = i + 1;
    }
    proof {
        assert(r@.subrange(0, n as int) =~= r@);
        assert(a@.subrange(0, n as int) =~= a@);
        assert(before.subrange(0, n as int) =~= before);
        lemma_le_val_bound(r@);
        lemma_pow10_positive(n as nat);
        let p = pow10(n as nat) as int;
        let bw = borrow as int;
        assert(bw == 0) by (nonlinear_arith)
            requires
                0 <= bw <= 1,
                le_val(r@) + le_val(a@) == le_val(before) + bw * p,
                le_val(r@) < p,
                le_val(before) >= le_val(a@),
        ;
        assert(bw * p == 0) by (nonlinear_arith)
            requires
                bw == 0,
        ;
    }
}

/// Where a number is below the place value of its top digit, that digit is
/// zero.
pub proof fn lemma_top_digit_zero(s: Seq<u8>)
    requires
        s.len() > 0,
        all_digits(s),
        le_val(s) < pow10((s.len() - 1) as nat),
    ensures
        s.last() == 0,
        le_val(s.drop_last()) == le_val(s),
{
    lemma_le_val_push(s.drop_last(), s.last());
    assert(s.drop_last().push(s.last()) =~= s);
    let p = pow10((s.len() - 1) as nat) as int;
    let d = s.last() as int;
    assert(d == 0) by (nonlinear_arith)
        requires
            d >= 0,
            d * p < p,
            p >= 0,
    ;
    assert(d * p == 0) by (nonlinear_arith)
        requires
            d == 0,
    ;
}

/// Multiplies `r` by ten and adds `d`, within the same number of digits.
fn shift_in(r: &mut Vec<u8>, d: u8)
    requires
        old(r)@.len() > 0,
        all_digits(old(r)@),
        le_val(old(r)@) < pow10((old(r)@.len() - 1) as nat),
        d < 10,
    ensures
        final(r)@.len() == old(r)@.len(),
        all_digits(final(r)@),
        le_val(final(r)@) == le_val(old(r)@) * 10 + d,
{
    proof {
        lemma_top_digit_zero(r@);
    }
    let ghost rest = r@.drop_last();
    r.pop();
    assert(r@ =~= rest);
    r.insert(0, d);
    assert(r@.subrange(1, r@.len() as int) =~= rest);
    assert(r@[0] == d);
}


/// One step of long division: brings the digit `d` down to the remainder and
/// gives the next digit of the quotient.
fn divide_step(rem: &mut Vec<u8>, divisor: &Vec<u8>, d: u8) -> (digit: u8)
    requires
        old(rem)@.len() == divisor@.len(),
        divisor@.len() > 0,
        all_digits(old(rem)@),
        all_digits(divisor@),
        le_val(divisor@) < pow10((divisor@.len() - 1) as nat),
        le_val(old(rem)@) < le_val(divisor@),
        d < 10,
    ensures
        final(rem)@.len() == divisor@.len(),
        all_digits(final(rem)@),
        digit < 10,
        le_val(final(rem)@) < le_val(divisor@),
        digit * le_val(divisor@) + le_val(final(rem)@) == le_val(old(rem)@) * 10 + d,
{
    shift_in(rem, d);
    let ghost start = le_val(rem@) as int;
    let ghost a = le_val(divisor@) as int;
    let mut count: u8 = 0;
    let mut more = at_least(rem, divisor);
    assert(0 * a + le_val(rem@) == start);
    while more
        invariant
            rem@.len() == divisor@.len(),
            all_digits(rem@),
            all_digits(divisor@),
            a == le_val(divisor@),
            more == (le_val(rem@) >= le_val(divisor@)),
            count * a + le_val(rem@) == start,
            start < 10 * a,
            a > 0,
            count <= 9,
        decreases le_val(rem@),
    {
        let ghost r0 = le_val(rem@) as int;
        take_away(rem, divisor);
        proof {
            let c = count as int;
            let r1 = le_val(rem@) as int;
            assert((c + 1) * a + r1 == start && c + 1 <= 9) by (nonlinear_arith)
                requires
                    c * a + r0 == start,
                    r1 == r0 - a,
                    r1 >= 0,
                    start < 10 * a,
                    a > 0,
                    c >= 0,
            ;
        }
        count = count + 1;
        more = at_least(rem, divisor);
    }
    count
}

/// A number below ten to the `n` divided by a power of ten at least as large
/// gives zero.
pub proof fn lemma_small_over_pow10(x: nat, n: nat, k: nat)
    requires
        x < pow10(n),
        n <= k,
    ensures
        x / pow10(k) == 0,
{
    lemma_pow10_adds(n, (k - n) as nat);
    lemma_pow10_positive((k - n) as nat);
    lemma_pow10_positive(n);
    let p = pow10(n) as int;
    let e = pow10((k - n) as nat) as int;
    assert(p * e >= p) by (nonlinear_arith)
        requires
            p > 0,
            e >= 1,
    ;
    lemma_basic_div(x as int, pow10(k) as int);
}

fn zeros(n: usize) -> (out: Vec<u8>)
    ensures
        out@.len() == n,
        all_digits(out@),
        le_val(out@) == 0,
{
    let mut out: Vec<u8> = Vec::new();
    let mut i: usize = 0;
    while i < n
        invariant
            i <= n,
            out@.len() == i,
            all_digits(out@),
            le_val(out@) == 0,
        decreases n - i,
    {
        proof {
            lemma_le_val_push(out@, 0);
            assert(0 * pow10(out@.len()) == 0);
        }
        out.push(0);
        i = i + 1;
    }
    out
}

/// The digits of the price of A in B, most significant first.
pub fn price_digits(a: &Amount, a_dec: u64, b: &Amount, b_dec: u64) -> (digits: Vec<u8>)
    requires
        a.wf(),
        b.wf(),
        a_dec <= MAX_DECIMALS,
        b_dec <= MAX_DECIMALS,
    ensures
        digits@ == digits_of(
            price_mantissa(a@, a_dec as nat, b@, b_dec as nat),
        ),
        digits@.len() <= b.digits@.len() + 300,
{
    let ghost wanted = price_mantissa(a@, a_dec as nat, b@, b_dec as nat);
    let mut digits: Vec<u8> = Vec::new();
    digits.push(0);
    assert(digits@ =~= digits_of(0));
    if a.is_zero() {
        return digits;
    }
    let mut divisor = copy_bytes(a.digits.as_slice());
    proof {
        lemma_le_val_push(a.digits@, 0);
        lemma_le_val_bound(a.digits@);
        assert(0 * pow10(a.digits@.len()) == 0);
    }
    divisor.push(0);
    let mut rem = zeros(divisor.len());
    let up: u64 = a_dec + PRICE_SCALE;
    let drop: u64 = if up >= b_dec {
        0
    } else {
        b_dec - up
    };
    let fill: u64 = if up >= b_dec {
        up - b_dec
    } else {
        0
    };
    let n = b.digits.len();
    let low: usize = if drop as usize >= n {
        n
    } else {
        drop as usize
    };
    let ghost av = a@ as int;
    let ghost mut q: nat = 0;
    let ghost mut np: nat = 0;
    let mut i: usize = n;
    assert(le_val(b.digits@.subrange(n as int, n as int)) == 0);
    assert(0 * av + le_val(rem@) == 0);
    while i > low
        invariant
            low <= i <= n,
            n == b.digits@.len(),
            n <= 0x1000_0000,
            all_digits(b.digits@),
            rem@.len() == divisor@.len(),
            divisor@.len() > 0,
            all_digits(rem@),
            all_digits(divisor@),
            av == le_val(divisor@),
            av > 0,
            le_val(divisor@) < pow10((divisor@.len() - 1) as nat),
            le_val(rem@) < le_val(divisor@),
            np == le_val(b.digits@.subrange(i as int, n as int)),
            q * av + le_val(rem@) == np,
            digits@ == digits_of(q),
            digits@.len() <= 1 + (n - i),
        decreases i,
    {
        i = i - 1;
        let d = b.digits[i];
        let ghost r0 = le_val(rem@) as int;
        proof {
            let cur = b.digits@.subrange(i as int, n as int);
            assert(cur.subrange(1, cur.len() as int) =~= b.digits@.subrange(i + 1, n as int));
            assert(cur[0] == d);
        }
        let digit = divide_step(&mut rem, &divisor, d);
        proof {
            let r1 = le_val(rem@) as int;
            let dg = digit as int;
            let qq = q as int;
            let nn = np as int;
            assert((qq * 10 + dg) * av + r1 == nn * 10 + d) by (nonlinear_arith)
                requires
                    qq * av + r0 == nn,
                    dg * av + r1 == r0 * 10 + d,
            ;
        }
        append_digit(&mut digits, digit, Ghost(q));
        proof {
            q = q * 10 + digit as nat;
            np = np * 10 + d as nat;
        }
    }
    let ghost base = np;
    proof {
        lemma_le_val_skip(b.digits@, low as nat);
        if drop as usize >= n {
            lemma_le_val_bound(b.digits@);
            lemma_small_over_pow10(b@, n as nat, drop as nat);
            lemma_small_over_pow10(b@, n as nat, n as nat);
        }
        assert(base == b@ / pow10(drop as nat));
        assert(pow10(0) == 1);
        assert(base * pow10(0) == base) by (nonlinear_arith)
            requires
                pow10(0) == 1,
        ;
    }
    let mut j: u64 = 0;
    while j < fill
        invariant
            j <= fill <= 273,
            n <= 0x1000_0000,
            rem@.len() == divisor@.len(),
            divisor@.len() > 0,
            all_digits(rem@),
            all_digits(divisor@),
            av == le_val(divisor@),
            av > 0,
            le_val(divisor@) < pow10((divisor@.len() - 1) as nat),
            le_val(rem@) < le_val(divisor@),
            np == base * pow10(j as nat),
            q * av + le_val(rem@) == np,
            digits@ == digits_of(q),
            digits@.len() <= 1 + n + j,
        decreases fill - j,
    {
        let ghost r0 = le_val(rem@) as int;
        let digit = divide_step(&mut rem, &divisor, 0);
        proof {
            let r1 = le_val(rem@) as int;
            let dg = digit as int;
            let qq = q as int;
            let nn = np as int;
            assert((qq * 10 + dg) * av + r1 == nn * 10) by (nonlinear_arith)
                requires
                    qq * av + r0 == nn,
                    dg * av + r1 == r0 * 10 + 0,
            ;
            let pj = pow10(j as nat) as int;
            let bs = base as int;
            assert(nn * 10 == bs * (10 * pj)) by (nonlinear_arith)
                requires
                    nn == bs * pj,
            ;
            assert(pow10((j + 1) as nat) == 10 * pj);
        }
        append_digit(&mut digits, digit, Ghost(q));
        proof {
            q = q * 10 + digit as nat;
            np = np * 10;
        }
        j = j + 1;
    }
    proof {
        lemma_fundamental_div_mod_converse(
            np as int,
            av,
            q as int,
            le_val(rem@) as int,
        );
        if up >= b_dec {
            assert(b@ / 1 == b@);
            lemma_price_shift_up(a@, b@, fill as nat, b_dec as nat);
        } else {
            lemma_price_shift_down(a@, b@, up as nat, drop as nat);
        }
        assert(q == wanted);
    }
    digits
}

/// An amount as a decimal quantity: `amount / 10^decimals`, written out
/// exactly.
pub fn convert_token_to_decimal(amount: &Amount, decimals: u64) -> (text: String)
    requires
        amount.wf(),
        decimals <= MAX_DECIMALS,
    ensures
        text@ == fixed_text(amount@, decimals as nat),
{
    let digits = amount.canonical_digits();
    proof {
        lemma_digits_are_digits(amount@);
    }
    render_fixed(&digits, decimals)
}

/// The price of token A in token B: B's quantity `b / 10^b_dec` divided by A's
/// quantity `a / 10^a_dec`, to eighteen fractional digits, rounded down. Zero
/// where A's amount is zero.
pub fn get_token_price(a: &Amount, a_dec: u64, b: &Amount, b_dec: u64) -> (text: String)
    requires
        a.wf(),
        b.wf(),
        a_dec <= MAX_DECIMALS,
        b_dec <= MAX_DECIMALS,
    ensures
        text@ == fixed_text(
            price_mantissa(a@, a_dec as nat, b@, b_dec as nat),
            PRICE_SCALE as nat,
        ),
{
    let digits = price_digits(a, a_dec, b, b_dec);
    proof {
        lemma_digits_are_digits(
            price_mantissa(a@, a_dec as nat, b@, b_dec as nat),
        );
    }
    render_fixed(&digits, PRICE_SCALE)
}

} // verus!
