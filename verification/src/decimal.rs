//! Decimal text of natural numbers.
use crate::readings::{is_comma_text, law_commas_read_back};
use vstd::prelude::*;
use vstd::string::*;

verus! {

/// The character of one decimal digit.
pub open spec fn digit_char(d: nat) -> char {
    (48 + d) as char
}

/// `10^p`.
pub open spec fn pow10(p: nat) -> nat
    decreases p,
{
    if p == 0 {
        1
    } else {
        10 * pow10((p - 1) as nat)
    }
}

/// The decimal text of `n`, without leading zeros.
pub open spec fn decimal(n: nat) -> Seq<char>
    decreases n,
{
    if n < 10 {
        seq![digit_char(n)]
    } else {
        decimal(n / 10).push(digit_char(n % 10))
    }
}

/// The last `width` decimal digits of `n`, with leading zeros.
pub open spec fn padded(n: nat, width: nat) -> Seq<char>
    decreases width,
{
    if width == 0 {
        seq![]
    } else {
        padded(n / 10, (width - 1) as nat).push(digit_char(n % 10))
    }
}

/// A digit text with a comma before every third digit, counted from its end.
pub open spec fn grouped(digits: Seq<char>) -> Seq<char>
    decreases digits.len(),
{
    if digits.len() <= 3 {
        digits
    } else {
        grouped(digits.take(digits.len() - 3)).push(',') + digits.skip(digits.len() - 3)
    }
}

/// The text of one digit.
pub(crate) fn digit_text(d: u8) -> (text: &'static str)
    requires
        d < 10,
    ensures
        text@ == seq![digit_char(d as nat)],
{
    proof {
        reveal_strlit("0");
        reveal_strlit("1");
        reveal_strlit("2");
        reveal_strlit("3");
        reveal_strlit("4");
        reveal_strlit("5");
        reveal_strlit("6");
        reveal_strlit("7");
        reveal_strlit("8");
        reveal_strlit("9");
    }
    match d {
        0 => "0",
        1 => "1",
        2 => "2",
        3 => "3",
        4 => "4",
        5 => "5",
        6 => "6",
        7 => "7",
        8 => "8",
        _ => "9",
    }
}

/// The decimal text of `n`.
pub fn decimal_text(n: u128) -> (text: String)
    ensures
        text@ == decimal(n as nat),
    decreases n,
{
    if n < 10 {
        digit_text(n as u8).to_owned()
    } else {
        let mut text = decimal_text(n / 10);
        text.append(digit_text((n % 10) as u8));
        assert(decimal((n / 10) as nat) + seq![digit_char((n % 10) as nat)] == decimal(n as nat));
        text
    }
}

/// The last `width` decimal digits of `n`.
pub fn padded_text(n: u128, width: u32) -> (text: String)
    ensures
        text@ == padded(n as nat, width as nat),
    decreases width,
{
    if width == 0 {
        String::new()
    } else {
        let mut text = padded_text(n / 10, width - 1);
        text.append(digit_text((n % 10) as u8));
        assert(padded((n / 10) as nat, (width - 1) as nat) + seq![digit_char((n % 10) as nat)]
            == padded(n as nat, width as nat));
        text
    }
}

/// Every character of a decimal text is a digit.
pub proof fn lemma_decimal_digits(n: nat)
    ensures
        decimal(n).len() > 0,
        forall|i: int| 0 <= i < decimal(n).len() ==> '0' <= #[trigger] decimal(n)[i] <= '9',
    decreases n,
{
    if n >= 10 {
        lemma_decimal_digits(n / 10);
    }
}

/// The value in decimal with a comma before every group of three digits, as in
/// `1,234,567`.
pub fn format_with_commas(value: u64) -> (text: String)
    ensures
        text@ == grouped(decimal(value as nat)),
        is_comma_text(text@, value as nat),
{
    proof {
        law_commas_read_back(value as nat);
    }
    let digits = decimal_text(value as u128);
    let ghost all = digits@;
    proof {
        lemma_decimal_digits(value as nat);
        reveal_strlit(",");
        assert(digits.is_ascii());
    }
    let len: usize = digits.as_str().unicode_len();
    let rest: usize = len % 3;
    let first_group_len: usize = if rest == 0 { 3 } else { rest };
    let mut formatted = digits.as_str().substring_ascii(0, first_group_len).to_owned();
    let mut index: usize = first_group_len;
    assert(all.subrange(0, index as int) == all.take(index as int));
    while index < len
        invariant
            digits@ == all,
            digits.is_ascii(),
            len == all.len(),
            0 < index <= len,
            (len - index) % 3 == 0,
            ","@ == seq![','],
            formatted@ == grouped(all.take(index as int)),
        decreases len - index,
    {
        formatted.append(",");
        formatted.append(digits.as_str().substring_ascii(index, index + 3));
        proof {
            let longer = all.take(index + 3);
            assert(longer.take(longer.len() - 3) == all.take(index as int));
            assert(longer.skip(longer.len() - 3) == all.subrange(index as int, index + 3));
            assert(grouped(all.take(index as int)) + seq![','] == grouped(
                all.take(index as int),
            ).push(','));
        }
        index = index + 3;
    }
    assert(all.take(len as int) == all);
    formatted
}

} // verus!
