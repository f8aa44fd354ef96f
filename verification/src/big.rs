//! Decimal text of `m * 2^k` for numbers that no machine integer holds.
use crate::decimal::{decimal, digit_char, digit_text, pow10};
use vstd::arithmetic::power2::{lemma2_to64, lemma_pow2_unfold, pow2};
use vstd::prelude::*;
use vstd::string::*;

verus! {

/// The number with the given decimal digits, the lowest digit first.
spec fn value(digits: Seq<u8>) -> nat
    decreases digits.len(),
{
    if digits.len() == 0 {
        0
    } else {
        digits[0] as nat + 10 * value(digits.skip(1))
    }
}

/// Each entry is one decimal digit.
spec fn all_digits(digits: Seq<u8>) -> bool {
    forall|i: int| 0 <= i < digits.len() ==> #[trigger] digits[i] < 10
}

/// A digit added at the high end counts as many tens as there were digits.
proof fn lemma_value_push(digits: Seq<u8>, d: u8)
    ensures
        value(digits.push(d)) == value(digits) + pow10(digits.len()) * d,
    decreases digits.len(),
{
    let longer = digits.push(d);
    reveal_with_fuel(value, 2);
    if digits.len() == 0 {
        assert(longer.skip(1) == Seq::<u8>::empty());
        assert(pow10(0) == 1);
    } else {
        assert(longer.skip(1) == digits.skip(1).push(d));
        lemma_value_push(digits.skip(1), d);
        let p = pow10((digits.len() - 1) as nat);
        assert((10 * p) * d == 10 * (p * d)) by (nonlinear_arith);
    }
}

/// The decimal digits of `n`, the lowest first.
fn digits_of(n: u64) -> (digits: Vec<u8>)
    requires
        n > 0,
    ensures
        value(digits@) == n,
        all_digits(digits@),
        digits.len() > 0,
        digits@.last() > 0,
{
    let mut digits: Vec<u8> = Vec::new();
    let mut rest: u64 = n;
    proof {
        assert(pow10(0) == 1);
        assert(value(digits@) == 0);
        assert(1 * rest == rest);
    }
    while rest > 0
        invariant
            value(digits@) + pow10(digits@.len()) * rest == n,
            all_digits(digits@),
            rest == 0 ==> digits.len() > 0 && digits@.last() > 0,
            n > 0,
        decreases rest,
    {
        let d: u8 = (rest % 10) as u8;
        let ghost p = pow10(digits@.len());
        proof {
            lemma_value_push(digits@, d);
            assert(pow10(digits@.len() + 1) == 10 * p);
            assert(p * rest == p * d + (10 * p) * (rest / 10)) by (nonlinear_arith)
                requires
                    d == rest % 10,
            ;
        }
        digits.push(d);
        rest = rest / 10;
    }
    assert(pow10(digits@.len()) * 0 == 0);
    digits
}

/// The digits of twice the number.
fn doubled(digits: &Vec<u8>) -> (twice: Vec<u8>)
    requires
        all_digits(digits@),
        digits.len() > 0,
        digits@.last() > 0,
    ensures
        value(twice@) == 2 * value(digits@),
        all_digits(twice@),
        twice.len() > 0,
        twice@.last() > 0,
{
    let mut twice: Vec<u8> = Vec::new();
    let mut carry: u8 = 0;
    let mut i: usize = 0;
    proof {
        assert(digits@.skip(0) == digits@);
        assert(pow10(0) == 1);
    }
    while i < digits.len()
        invariant
            all_digits(digits@),
            digits.len() > 0,
            digits@.last() > 0,
            all_digits(twice@),
            i <= digits.len(),
            twice.len() == i,
            carry <= 1,
            value(twice@) + pow10(i as nat) * (2 * value(digits@.skip(i as int)) + carry) == 2
                * value(digits@),
            i == digits.len() && carry == 0 ==> twice@.last() > 0,
        decreases digits.len() - i,
    {
        let x: u8 = 2 * digits[i] + carry;
        let low: u8 = x % 10;
        let ghost p = pow10(i as nat);
        let ghost high = value(digits@.skip(i + 1));
        proof {
            lemma_value_push(twice@, low);
            assert(digits@.skip(i as int).skip(1) == digits@.skip(i + 1));
            assert(value(digits@.skip(i as int)) == digits@[i as int] + 10 * high);
            assert(pow10((i + 1) as nat) == 10 * p);
            assert(p * (2 * (digits@[i as int] + 10 * high) + carry) == p * low + (10 * p) * (2
                * high + x / 10)) by (nonlinear_arith)
                requires
                    x == 2 * digits@[i as int] + carry,
                    low == x % 10,
            ;
        }
        twice.push(low);
        carry = x / 10;
        i = i + 1;
    }
    proof {
        assert(digits@.skip(i as int) == Seq::<u8>::empty());
        assert(pow10(i as nat) * 0 == 0);
        lemma_value_push(twice@, carry);
    }
    if carry > 0 {
        twice.push(carry);
    }
    twice
}

/// A number with a non-zero highest digit is positive.
proof fn lemma_value_pos(digits: Seq<u8>)
    requires
        digits.len() > 0,
        digits.last() > 0,
    ensures
        value(digits) > 0,
    decreases digits.len(),
{
    if digits.len() > 1 {
        lemma_value_pos(digits.skip(1));
    }
}

/// The text of a number that is given by its digits.
fn digits_text(digits: &Vec<u8>) -> (text: String)
    requires
        all_digits(digits@),
        digits.len() > 0,
        digits@.last() > 0,
    ensures
        text@ == decimal(value(digits@)),
{
    let mut i: usize = digits.len() - 1;
    let mut text = digit_text(digits[i]).to_owned();
    proof {
        assert(digits@.skip(i as int).skip(1) == Seq::<u8>::empty());
        reveal_with_fuel(value, 2);
    }
    while i > 0
        invariant
            all_digits(digits@),
            digits.len() > 0,
            digits@.last() > 0,
            i < digits.len(),
            text@ == decimal(value(digits@.skip(i as int))),
        decreases i,
    {
        let ghost above = value(digits@.skip(i as int));
        proof {
            lemma_value_pos(digits@.skip(i as int));
            assert(digits@.skip(i - 1).skip(1) == digits@.skip(i as int));
        }
        i = i - 1;
        text.append(digit_text(digits[i]));
        proof {
            let n = value(digits@.skip(i as int));
            assert(n == digits@[i as int] + 10 * above);
            assert(decimal(above) + seq![digit_char(digits@[i as int] as nat)] == decimal(n));
        }
    }
    assert(digits@.skip(0) == digits@);
    text
}

/// The decimal text of `m * 2^k`.
pub fn shifted_text(m: u64, k: u32) -> (text: String)
    ensures
        text@ == decimal(m as nat * pow2(k as nat)),
{
    if m == 0 {
        assert(0 * pow2(k as nat) == 0) by (nonlinear_arith);
        return digit_text(0).to_owned();
    }
    let mut digits = digits_of(m);
    let mut done: u32 = 0;
    proof {
        lemma2_to64();
    }
    while done < k
        invariant
            done <= k,
            value(digits@) == m * pow2(done as nat),
            all_digits(digits@),
            digits.len() > 0,
            digits@.last() > 0,
        decreases k - done,
    {
        digits = doubled(&digits);
        proof {
            lemma_pow2_unfold((done + 1) as nat);
            assert(2 * (m * pow2(done as nat)) == m * (2 * pow2(done as nat))) by (nonlinear_arith);
        }
        done = done + 1;
    }
    digits_text(&digits)
}

} // verus!
