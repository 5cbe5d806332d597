//! Exact base-ten arithmetic on token amounts: scaling a raw amount by a
//! token's decimals, and the price of one side of a pair in the other.

use vstd::prelude::*;
use vstd::arithmetic::div_mod::{lemma_div_denominator, lemma_div_multiples_vanish_quotient};

verus! {

/// How many fractional digits a price carries.
pub const PRICE_SCALE: u64 = 18;

/// The most decimals a token can declare.
pub const MAX_DECIMALS: u64 = 255;

/// Ten to the power `n`.
pub open spec fn pow10(n: nat) -> nat
    decreases n,
{
    if n == 0 {
        1
    } else {
        10 * pow10((n - 1) as nat)
    }
}

/// The decimal digits of `n`, most significant first, without leading zeros.
pub open spec fn digits_of(n: nat) -> Seq<u8>
    decreases n,
{
    if n < 10 {
        seq![n as u8]
    } else {
        digits_of(n / 10).push((n % 10) as u8)
    }
}

/// The character of a decimal digit.
pub open spec fn digit_char(d: u8) -> char {
    seq!['0', '1', '2', '3', '4', '5', '6', '7', '8', '9'][d as int]
}

pub open spec fn digit_chars(digits: Seq<u8>) -> Seq<char> {
    Seq::new(digits.len(), |i: int| digit_char(digits[i]))
}

/// The digits, with zeros put in front until there is one more digit than
/// `scale`.
pub open spec fn padded(digits: Seq<u8>, scale: nat) -> Seq<u8> {
    if digits.len() > scale {
        digits
    } else {
        Seq::new((scale + 1 - digits.len()) as nat, |i: int| 0u8) + digits
    }
}

/// Fixed-point text of a digit string: the point stands before the last `scale`
/// digits, and is left out where `scale` is zero.
pub open spec fn fixed_text_of(digits: Seq<u8>, scale: nat) -> Seq<char> {
    let all = padded(digits, scale);
    let cut = all.len() - scale;
    if scale == 0 {
        digit_chars(all)
    } else {
        digit_chars(all.subrange(0, cut)) + seq!['.'] + digit_chars(
            all.subrange(cut, all.len() as int),
        )
    }
}

/// The text of `mantissa / 10^scale`, exact to `scale` fractional digits.
pub open spec fn fixed_text(mantissa: nat, scale: nat) -> Seq<char> {
    fixed_text_of(digits_of(mantissa), scale)
}

pub open spec fn all_digits(digits: Seq<u8>) -> bool {
    forall|i: int| 0 <= i < digits.len() ==> digits[i] < 10
}

pub proof fn lemma_digits_are_digits(n: nat)
    ensures
        all_digits(digits_of(n)),
        digits_of(n).len() >= 1,
    decreases n,
{
    if n >= 10 {
        lemma_digits_are_digits(n / 10);
    }
}

pub proof fn lemma_pow10_positive(n: nat)
    ensures
        pow10(n) > 0,
    decreases n,
{
    if n > 0 {
        lemma_pow10_positive((n - 1) as nat);
    }
}

pub proof fn lemma_pow10_adds(a: nat, b: nat)
    ensures
        pow10(a + b) == pow10(a) * pow10(b),
    decreases b,
{
    if b == 0 {
        assert(pow10(a) * 1 == pow10(a));
    } else {
        lemma_pow10_adds(a, (b - 1) as nat);
        assert(pow10(a + b) == 10 * pow10((a + b - 1) as nat));
        assert(10 * (pow10(a) * pow10((b - 1) as nat)) == pow10(a) * (10 * pow10((b - 1) as nat)))
            by (nonlinear_arith);
    }
}

fn digit_str(d: u8) -> (text: &'static str)
    requires
        d < 10,
    ensures
        text@ == seq![digit_char(d)],
{
    proof {
        reveal_strlit("0");
        reveal_strlit("1");
        reveal_strlit("2");
        reveal_strlit("3");
        reveal_strlit("4");
        reveal_strlit("5");
        reveal_strlit("6");
        reveal_strlit("7");
        reveal_strlit("8");
        reveal_strlit("9");
    }
    let text = if d == 0 {
        "0"
    } else if d == 1 {
        "1"
    } else if d == 2 {
        "2"
    } else if d == 3 {
        "3"
    } else if d == 4 {
        "4"
    } else if d == 5 {
        "5"
    } else if d == 6 {
        "6"
    } else if d == 7 {
        "7"
    } else if d == 8 {
        "8"
    } else {
        "9"
    };
    assert(text@ =~= seq![digit_char(d)]);
    text
}

fn append_digits(text: &mut String, digits: &Vec<u8>, pad: usize, from: usize, to: usize)
    requires
        all_digits(digits@),
        from <= to <= pad + digits@.len() <= usize::MAX,
    ensures
        final(text)@ == old(text)@ + digit_chars(
            (Seq::new(pad as nat, |i: int| 0u8) + digits@).subrange(from as int, to as int),
        ),
{
    let ghost all = Seq::new(pad as nat, |i: int| 0u8) + digits@;
    let mut j: usize = from;
    assert(text@ =~= old(text)@ + digit_chars(all.subrange(from as int, j as int)));
    while j < to
        invariant
            from <= j <= to <= pad + digits@.len(),
            all_digits(digits@),
            all == Seq::new(pad as nat, |i: int| 0u8) + digits@,
            text@ == old(text)@ + digit_chars(all.subrange(from as int, j as int)),
        decreases to - j,
    {
        let d: u8 = if j < pad {
            0
        } else {
            digits[j - pad]
        };
        assert(d == all[j as int]);
        text.append(digit_str(d));
        assert(text@ =~= old(text)@ + digit_chars(all.subrange(from as int, j + 1)));
        j = j + 1;
    }
}

/// Writes a digit string as fixed-point text with `scale` fractional digits.
pub fn render_fixed(digits: &Vec<u8>, scale: u64) -> (text: String)
    requires
        all_digits(digits@),
        scale <= MAX_DECIMALS,
        digits@.len() <= usize::MAX - 256,
    ensures
        text@ == fixed_text_of(digits@, scale as nat),
{
    let scale: usize = scale as usize;
    let len = digits.len();
    let pad: usize = if len > scale {
        0
    } else {
        scale + 1 - len
    };
    let total = pad + len;
    let cut = total - scale;
    let ghost all = Seq::new(pad as nat, |i: int| 0u8) + digits@;
    assert(all =~= padded(digits@, scale as nat));
    let mut text = String::new();
    if scale == 0 {
        append_digits(&mut text, digits, pad, 0, total);
        assert(all.subrange(0, total as int) =~= all);
        assert(text@ =~= digit_chars(all));
    } else {
        append_digits(&mut text, digits, pad, 0, cut);
        proof {
            reveal_strlit(".");
        }
        text.append(".");
        append_digits(&mut text, digits, pad, cut, total);
        assert(text@ =~= digit_chars(all.subrange(0, cut as int)) + seq!['.'] + digit_chars(
            all.subrange(cut as int, all.len() as int),
        ));
    }
    text
}


/// The price of token A in token B, as a whole number of units of
/// `10^-PRICE_SCALE`: the quotient of B's quantity `b / 10^b_dec` by A's
/// quantity `a / 10^a_dec`, rounded down; zero where A's amount is zero.
pub open spec fn price_mantissa(a: nat, a_dec: nat, b: nat, b_dec: nat) -> nat {
    if a == 0 {
        0
    } else {
        (b * pow10(a_dec + PRICE_SCALE as nat)) / (a * pow10(b_dec))
    }
}

/// Cancelling the common power of ten in a price's numerator and denominator
/// where the numerator holds the larger power.
pub proof fn lemma_price_shift_up(a: nat, b: nat, z: nat, b_dec: nat)
    requires
        a > 0,
    ensures
        (b * pow10(z + b_dec)) / (a * pow10(b_dec)) == (b * pow10(z)) / a,
{
    lemma_pow10_adds(z, b_dec);
    lemma_pow10_positive(b_dec);
    let c = pow10(b_dec) as int;
    let x = (b * pow10(z)) as int;
    lemma_div_multiples_vanish_quotient(c, x, a as int);
    assert(c * x == b * (pow10(z) * pow10(b_dec))) by (nonlinear_arith)
        requires
            c == pow10(b_dec),
            x == b * pow10(z),
    ;
    assert(c * (a as int) == a * pow10(b_dec)) by (nonlinear_arith)
        requires
            c == pow10(b_dec),
    ;
}

/// The same where the denominator holds the larger power.
pub proof fn lemma_price_shift_down(a: nat, b: nat, up: nat, k: nat)
    requires
        a > 0,
    ensures
        (b * pow10(up)) / (a * pow10(up + k)) == (b / pow10(k)) / a,
{
    lemma_pow10_adds(up, k);
    lemma_pow10_positive(up);
    lemma_pow10_positive(k);
    let c = pow10(up) as int;
    let d = (pow10(k) * a) as int;
    assert(d > 0) by (nonlinear_arith)
        requires
            d == pow10(k) * a,
            pow10(k) > 0,
            a > 0,
    ;
    lemma_div_multiples_vanish_quotient(c, b as int, d);
    lemma_div_denominator(b as int, pow10(k) as int, a as int);
    assert(c * (b as int) == b * pow10(up)) by (nonlinear_arith)
        requires
            c == pow10(up),
    ;
    assert(c * d == a * (pow10(up) * pow10(k))) by (nonlinear_arith)
        requires
            c == pow10(up),
            d == pow10(k) * a,
    ;
}

} // verus!
