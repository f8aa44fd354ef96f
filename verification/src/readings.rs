//! What the texts of figures say when they are read back, digit by digit.
use crate::amounts::{
    block_reward_text, capitalization, circulating_supply_text, coins, market_cap_text,
    max_supply_text, mined_text, price_text, seconds_text,
};
use crate::decimal::{decimal, digit_char, grouped, padded, pow10};
use crate::double::{
    fixed_point, fixed_text, law_nearest, lemma_binade_exists,
    lemma_nearest_same_ratio, lemma_whole_exact, nearest, product, quotient, saturated, whole,
    Binary, HIGH, LOW,
};
use crate::laws::{law_commas_keep_digits, without_commas};
use crate::price::{Price, PriceValue};
use crate::rounding::{
    half_up, lemma_half_even, lemma_pow2_ratio, lemma_pow2_up_pos, pow2_down, pow2_up,
    scaled_den, scaled_num,
};
use vstd::arithmetic::div_mod::lemma_fundamental_div_mod_converse;
use vstd::arithmetic::power::{lemma_pow_positive, pow};
use vstd::arithmetic::power2::pow2;
use vstd::prelude::*;

verus! {

// Digits.

/// The number that a text of digits stands for.
pub open spec fn number(text: Seq<char>) -> nat
    decreases text.len(),
{
    if text.len() == 0 {
        0
    } else {
        (10 * number(text.drop_last()) + (text.last() as int - '0' as int)) as nat
    }
}

/// There are only digits in the text.
pub open spec fn only_digits(text: Seq<char>) -> bool {
    forall|i: int| 0 <= i < text.len() ==> '0' <= #[trigger] text[i] <= '9'
}

/// The text is a number as it is written by hand: some digits, and no zero before
/// others.
pub open spec fn is_plain(text: Seq<char>) -> bool {
    &&& text.len() > 0
    &&& only_digits(text)
    &&& text.len() > 1 ==> text[0] != '0'
}

/// A digit more makes the number ten times greater and adds the digit.
proof fn lemma_number_push(text: Seq<char>, d: nat)
    requires
        d < 10,
    ensures
        number(text.push(digit_char(d))) == 10 * number(text) + d,
        '0' <= digit_char(d) <= '9',
        only_digits(text) ==> only_digits(text.push(digit_char(d))),
{
    assert(text.push(digit_char(d)).drop_last() == text);
    assert(digit_char(d) as int == 48 + d);
}

/// The decimal text of a number is read back as the number, without leading zeros.
pub proof fn law_decimal_read_back(n: nat)
    ensures
        is_plain(decimal(n)),
        number(decimal(n)) == n,
        n > 0 ==> decimal(n)[0] != '0',
    decreases n,
{
    if n < 10 {
        lemma_number_push(Seq::empty(), n);
        assert(Seq::<char>::empty().push(digit_char(n)) =~= decimal(n));
        assert(digit_char(n) as int == 48 + n);
    } else {
        law_decimal_read_back(n / 10);
        lemma_number_push(decimal(n / 10), n % 10);
    }
}

/// There is one plain text for each number.
pub proof fn law_plain_texts_differ(a: Seq<char>, b: Seq<char>)
    requires
        is_plain(a),
        is_plain(b),
        number(a) == number(b),
    ensures
        a == b,
{
    lemma_plain_is_decimal(a);
    lemma_plain_is_decimal(b);
}

proof fn lemma_plain_is_decimal(a: Seq<char>)
    requires
        is_plain(a),
    ensures
        a == decimal(number(a)),
        a.len() > 1 ==> number(a) >= 10,
        a[0] != '0' ==> number(a) > 0,
    decreases a.len(),
{
    let front = a.drop_last();
    let d = (a.last() as int - '0' as int) as nat;
    assert('0' <= a[a.len() - 1] <= '9');
    assert(digit_char(d) == a.last());
    if a.len() == 1 {
        assert(front == Seq::<char>::empty());
        assert(number(front) == 0);
        assert(a =~= seq![digit_char(d)]);
    } else {
        assert forall|i: int| 0 <= i < front.len() implies '0' <= #[trigger] front[i] <= '9' by {
            assert('0' <= a[i] <= '9');
        }
        assert(front[0] == a[0]);
        lemma_plain_is_decimal(front);
        assert(number(a) / 10 == number(front) && number(a) % 10 == d);
        assert(a =~= decimal(number(front)).push(digit_char(d)));
    }
}

/// `pow10` is the power of ten.
pub proof fn law_pow10(p: nat)
    ensures
        pow10(p) == pow(10, p),
        pow10(p) > 0,
    decreases p,
{
    reveal(pow);
    if p > 0 {
        law_pow10((p - 1) as nat);
    }
}

/// The padded text has the given length, and is read back as the remainder by the power
/// of ten.
pub proof fn law_padded_read_back(n: nat, width: nat)
    ensures
        padded(n, width).len() == width,
        only_digits(padded(n, width)),
        number(padded(n, width)) == n as int % pow(10, width),
    decreases width,
{
    reveal(pow);
    if width == 0 {
        assert(n as int % 1 == 0);
    } else {
        let w = (width - 1) as nat;
        let p = pow(10, w);
        law_padded_read_back(n / 10, w);
        lemma_number_push(padded(n / 10, w), n % 10);
        lemma_pow_positive(10, w);
        let (q, r) = ((n / 10) as int / p, (n / 10) as int % p);
        let last = 10 * r + n % 10;
        assert((n / 10) as int == q * p + r && 0 <= r < p) by (nonlinear_arith)
            requires
                p > 0,
                q == (n / 10) as int / p,
                r == (n / 10) as int % p,
        ;
        assert(n as int == q * (10 * p) + last) by (nonlinear_arith)
            requires
                n as int == 10 * (n / 10) + n % 10,
                (n / 10) as int == q * p + r,
                last == 10 * r + n % 10,
        ;
        lemma_fundamental_div_mod_converse(n as int, 10 * p, q, last);
    }
}

/// Where the commas stand: in the text of a number with commas there is one exactly where
/// the number of characters from there to the end is a multiple of four, and none comes
/// first. Every other character is a digit.
pub proof fn law_places_of_commas(n: nat, i: int)
    requires
        0 <= i < grouped(decimal(n)).len(),
    ensures
        grouped(decimal(n))[i] == ',' <==> (grouped(decimal(n)).len() - i) % 4 == 0,
        grouped(decimal(n))[i] == ',' || '0' <= grouped(decimal(n))[i] <= '9',
        grouped(decimal(n)).len() % 4 != 0,
        without_commas(grouped(decimal(n))) == decimal(n),
        number(without_commas(grouped(decimal(n)))) == n,
        n > 0 ==> grouped(decimal(n))[0] != '0',
{
    law_decimal_read_back(n);
    law_commas_keep_digits(n);
    lemma_grouped(decimal(n), i);
    lemma_grouped(decimal(n), 0);
}

proof fn lemma_grouped(digits: Seq<char>, i: int)
    requires
        digits.len() > 0,
        only_digits(digits),
    ensures
        grouped(digits).len() > 0,
        grouped(digits).len() % 4 != 0,
        grouped(digits)[0] == digits[0],
        0 <= i < grouped(digits).len() ==> (grouped(digits)[i] == ',' <==> (grouped(digits).len()
            - i) % 4 == 0),
        0 <= i < grouped(digits).len() ==> grouped(digits)[i] == ',' || '0' <= grouped(digits)[i]
            <= '9',
    decreases digits.len(),
{
    let text = grouped(digits);
    if digits.len() <= 3 {
        if 0 <= i < text.len() {
            assert('0' <= digits[i] <= '9');
        }
    } else {
        let front = digits.take(digits.len() - 3);
        let back = digits.skip(digits.len() - 3);
        assert forall|k: int| 0 <= k < front.len() implies '0' <= #[trigger] front[k] <= '9' by {
            assert('0' <= digits[k] <= '9');
        }
        lemma_grouped(front, i);
        let start = grouped(front);
        assert(text == start.push(',') + back);
        assert(text.len() == start.len() + 4);
        if 0 <= i < text.len() {
            if i < start.len() {
                assert(text[i] == start[i]);
            } else if i == start.len() {
                assert(text[i] == ',');
            } else {
                let k = i - start.len() - 1;
                assert(text[i] == back[k]);
                assert(back[k] == digits[digits.len() - 3 + k]);
            }
        }
    }
}

// Doubles.

/// `2^e` where that is an integer, else 1.
pub open spec fn two_to(e: int) -> nat {
    if e > 0 {
        pow2(e as nat)
    } else {
        1
    }
}

/// `r` is the double nearest to `num / den`: its significand has 53 bits, or is the next
/// power of two, it is off by half a unit of the significand at most, and on a tie the
/// significand is even.
pub open spec fn is_nearest_double(r: Binary, num: nat, den: nat) -> bool {
    if num == 0 {
        r.m == 0
    } else {
        // The ratio divided by `2^r.e` is `x / y`.
        let x = num * two_to(-r.e);
        let y = den * two_to(r.e);
        &&& 0x10_0000_0000_0000 * y <= x < 0x20_0000_0000_0000 * y
        &&& 2 * x <= 2 * (r.m * y) + y
        &&& 2 * (r.m * y) <= 2 * x + y
        &&& 2 * x == 2 * (r.m * y) + y || 2 * (r.m * y) == 2 * x + y ==> r.m % 2 == 0
    }
}

proof fn lemma_nearest_is_nearest(n: nat, d: nat)
    requires
        d > 0,
    ensures
        is_nearest_double(nearest(n, d), n, d),
{
    if n > 0 {
        law_nearest(n, d);
        lemma_binade_exists(n, d);
    }
}

/// The double of an integer is the nearest one.
pub proof fn law_double_of_integer(n: nat)
    ensures
        is_nearest_double(whole(n), n, 1),
{
    lemma_nearest_is_nearest(n, 1);
}

/// A quotient of doubles is the double nearest to the exact quotient.
pub proof fn law_double_quotient(a: Binary, b: Binary)
    requires
        b.m > 0,
    ensures
        is_nearest_double(
            quotient(a, b),
            a.m * two_to(a.e) * two_to(-b.e),
            b.m * two_to(b.e) * two_to(-a.e),
        ),
{
    let k = b.e - a.e;
    lemma_pow2_up_pos(k);
    lemma_pow2_up_pos(a.e);
    lemma_pow2_up_pos(b.e);
    lemma_pow2_ratio(k, a.e);
    let (uk, dk) = (pow2_up(k), pow2_down(k));
    let (ua, da) = (pow2_up(a.e), pow2_down(a.e));
    let (ub, db) = (pow2_up(b.e), pow2_down(b.e));
    let (n, d) = (a.m * dk, b.m * uk);
    let (n2, d2) = (a.m * ua * db, b.m * ub * da);
    assert(n * d2 == n2 * d) by (nonlinear_arith)
        requires
            uk * ua * db == dk * da * ub,
            n == a.m * dk,
            d == b.m * uk,
            n2 == a.m * ua * db,
            d2 == b.m * ub * da,
    {
        assert(n * d2 == (a.m * b.m) * (dk * da * ub));
        assert(n2 * d == (a.m * b.m) * (uk * ua * db));
    }
    assert(d > 0 && d2 > 0) by (nonlinear_arith)
        requires
            d == b.m * uk,
            d2 == b.m * ub * da,
            b.m > 0,
            uk > 0,
            ub > 0,
            da > 0,
    ;
    lemma_same_double(n, d, n2, d2);
}

/// A product of doubles is the double nearest to the exact product.
pub proof fn law_double_product(a: Binary, b: Binary)
    ensures
        is_nearest_double(
            product(a, b),
            a.m * b.m * two_to(a.e) * two_to(b.e),
            two_to(-a.e) * two_to(-b.e),
        ),
{
    let k = -a.e - b.e;
    lemma_pow2_up_pos(k);
    lemma_pow2_up_pos(a.e);
    lemma_pow2_up_pos(b.e);
    lemma_pow2_ratio(a.e, b.e);
    let (uk, dk) = (pow2_up(k), pow2_down(k));
    let (ua, da) = (pow2_up(a.e), pow2_down(a.e));
    let (ub, db) = (pow2_up(b.e), pow2_down(b.e));
    assert(pow2_down(a.e + b.e) == uk && pow2_up(a.e + b.e) == dk);
    let m = a.m * b.m;
    let (n, d) = (m * dk, 1 * uk);
    let (n2, d2) = (m * ua * ub, da * db);
    assert(n * d2 == n2 * d) by (nonlinear_arith)
        requires
            ua * ub * uk == da * db * dk,
            n == m * dk,
            d == 1 * uk,
            n2 == m * ua * ub,
            d2 == da * db,
    {
        assert(n * d2 == m * (da * db * dk));
        assert(n2 * d == m * (ua * ub * uk));
    }
    assert(d2 > 0) by (nonlinear_arith)
        requires
            d2 == da * db,
            da > 0,
            db > 0,
    ;
    lemma_same_double(n, d, n2, d2);
}

/// Equal ratios have the same nearest double.
proof fn lemma_same_double(n: nat, d: nat, n2: nat, d2: nat)
    requires
        d > 0,
        d2 > 0,
        n * d2 == n2 * d,
    ensures
        is_nearest_double(nearest(n, d), n2, d2),
{
    if n2 == 0 {
        assert(n == 0) by (nonlinear_arith)
            requires
                n * d2 == 0 * d,
                d2 > 0,
        ;
    } else {
        assert(n > 0) by (nonlinear_arith)
            requires
                n * d2 == n2 * d,
                n2 > 0,
                d > 0,
        ;
        lemma_nearest_same_ratio(n, d, n2, d2);
        lemma_nearest_is_nearest(n2, d2);
    }
}

/// `n` is the integer nearest to `r * 10^places`, and the even one on a tie.
pub open spec fn is_nearest_integer(n: nat, r: Binary, places: nat) -> bool {
    let x = r.m * pow(10, places) * two_to(r.e);
    let y = two_to(-r.e) as int;
    &&& 2 * x <= 2 * (n * y) + y
    &&& 2 * (n * y) <= 2 * x + y
    &&& 2 * x == 2 * (n * y) + y || 2 * (n * y) == 2 * x + y ==> n % 2 == 0
}

/// The text is a number with the given number of decimal places: an integer part without
/// leading zeros, a point and the places; or without places just an integer.
pub open spec fn has_places(text: Seq<char>, places: nat) -> bool {
    if places == 0 {
        is_plain(text)
    } else {
        &&& text.len() > places + 1
        &&& is_plain(text.take(text.len() - places - 1))
        &&& text[text.len() - places - 1] == '.'
        &&& only_digits(text.skip(text.len() - places))
    }
}

/// The digits of a number with the given number of decimal places, without the point.
pub open spec fn unpointed(text: Seq<char>, places: nat) -> Seq<char> {
    if places == 0 {
        text
    } else {
        text.take(text.len() - places - 1) + text.skip(text.len() - places)
    }
}

/// The text shows `r` with the given number of decimal places, rounded to the nearest
/// such number, and the unit behind it.
pub open spec fn shows_double(text: Seq<char>, r: Binary, places: nat, unit: Seq<char>) -> bool {
    let figure = text.take(text.len() - unit.len());
    &&& text.len() > unit.len()
    &&& text.skip(text.len() - unit.len()) == unit
    &&& has_places(figure, places)
    &&& is_nearest_integer(number(unpointed(figure, places)), r, places)
}

/// Digits behind digits.
proof fn lemma_number_concat(a: Seq<char>, b: Seq<char>)
    requires
        only_digits(b),
    ensures
        number(a + b) == number(a) * pow(10, b.len()) + number(b),
    decreases b.len(),
{
    reveal(pow);
    if b.len() == 0 {
        assert(a + b == a);
    } else {
        let front = b.drop_last();
        assert forall|i: int| 0 <= i < front.len() implies '0' <= #[trigger] front[i] <= '9' by {
            assert('0' <= b[i] <= '9');
        }
        assert('0' <= b[b.len() - 1] <= '9');
        lemma_number_concat(a, front);
        assert((a + b).drop_last() == a + front);
        let p = pow(10, front.len());
        assert(10 * (number(a) * p) == number(a) * (10 * p)) by (nonlinear_arith);
    }
}

/// A double with decimal places is read back as the nearest such number.
pub proof fn law_fixed_text_read_back(r: Binary, places: nat, unit: Seq<char>)
    ensures
        shows_double(fixed_text(r, places) + unit, r, places, unit),
{
    let n = fixed_point(r, places);
    let body = fixed_text(r, places);
    let text = body + unit;
    law_pow10(places);
    assert(text.take(text.len() - unit.len()) =~= body);
    assert(text.skip(text.len() - unit.len()) =~= unit);
    // The digits.
    if places == 0 {
        law_decimal_read_back(n);
    } else {
        let p = pow10(places);
        let (front, back) = (decimal(n / p), padded(n, places));
        law_decimal_read_back(n / p);
        law_padded_read_back(n, places);
        assert(body == front.push('.') + back);
        assert(body.take(body.len() - places - 1) =~= front);
        assert(body.skip(body.len() - places) =~= back);
        lemma_number_concat(front, back);
        assert(n == (n / p) * p + n % p) by (nonlinear_arith)
            requires
                p > 0,
        ;
    }
    assert(number(unpointed(body, places)) == n);
    // The rounding.
    let x = scaled_num(r.m * pow10(places), -r.e);
    let y = scaled_den(1, -r.e);
    lemma_pow2_up_pos(r.e);
    assert(y == two_to(-r.e) && x == r.m * pow(10, places) * two_to(r.e));
    lemma_half_even(x, y);
}

/// Rounded to an integer with ties going up, and capped.
pub proof fn law_saturated_value(r: Binary)
    ensures
        ({
            let n = saturated(r);
            let x = r.m * two_to(r.e);
            let y = two_to(-r.e);
            &&& n <= u64::MAX
            &&& (2 * n - 1) * y <= 2 * x
            &&& n < u64::MAX ==> 2 * x < (2 * n + 1) * y
        }),
{
    let x = r.m * two_to(r.e);
    let y = two_to(-r.e);
    lemma_pow2_up_pos(r.e);
    assert(scaled_num(r.m, -r.e) == x && scaled_den(1, -r.e) == y);
    let q = half_up(x, y);
    assert(q * (2 * y) <= 2 * x + y && 2 * x + y < (q + 1) * (2 * y)) by (nonlinear_arith)
        requires
            y > 0,
            q == (2 * x + y) / (2 * y),
    ;
    assert((2 * q - 1) * y == q * (2 * y) - y) by (nonlinear_arith);
    assert((2 * q + 1) * y == (q + 1) * (2 * y) - y) by (nonlinear_arith);
    let n = saturated(r);
    assert((2 * n - 1) * y <= (2 * q - 1) * y) by (nonlinear_arith)
        requires
            n <= q,
            y > 0,
    ;
}

// Figures.

/// Dividing a double by an integer below `2^53` rounds the exact quotient.
proof fn lemma_divided_by(a: Binary, c: nat)
    requires
        0 < c < HIGH,
    ensures
        is_nearest_double(quotient(a, whole(c)), a.m * two_to(a.e), c * two_to(-a.e)),
{
    lemma_whole_exact(c);
    let b = whole(c);
    let k = b.e - a.e;
    lemma_pow2_up_pos(k);
    lemma_pow2_up_pos(a.e);
    lemma_pow2_up_pos(b.e);
    lemma_pow2_ratio(k, a.e);
    let (uk, dk) = (pow2_up(k), pow2_down(k));
    let (ua, da) = (pow2_up(a.e), pow2_down(a.e));
    let db = pow2_down(b.e);
    assert(pow2_up(b.e) == 1);
    let (n, d) = (a.m * dk, b.m * uk);
    let (n2, d2) = (a.m * ua, c * da);
    assert(n * d2 == n2 * d) by (nonlinear_arith)
        requires
            uk * ua * db == dk * da * 1,
            n == a.m * dk,
            d == b.m * uk,
            b.m == c * db,
            n2 == a.m * ua,
            d2 == c * da,
    {
        assert(n * d2 == (a.m * c) * (dk * da));
        assert(n2 * d == (a.m * c) * (uk * ua * db));
    }
    assert(d > 0 && d2 > 0) by (nonlinear_arith)
        requires
            d == b.m * uk,
            d2 == c * da,
            b.m > 0,
            uk > 0,
            c > 0,
            da > 0,
    ;
    lemma_same_double(n, d, n2, d2);
}

/// Multiplying a double by an integer below `2^53` rounds the exact product.
proof fn lemma_times(a: Binary, c: nat)
    requires
        0 < c < HIGH,
    ensures
        is_nearest_double(product(a, whole(c)), a.m * c * two_to(a.e), two_to(-a.e)),
{
    lemma_whole_exact(c);
    let b = whole(c);
    let k = -a.e - b.e;
    lemma_pow2_up_pos(k);
    lemma_pow2_up_pos(a.e);
    lemma_pow2_up_pos(b.e);
    lemma_pow2_ratio(a.e, b.e);
    let (uk, dk) = (pow2_up(k), pow2_down(k));
    let (ua, da) = (pow2_up(a.e), pow2_down(a.e));
    let db = pow2_down(b.e);
    assert(pow2_up(b.e) == 1);
    assert(pow2_down(a.e + b.e) == uk && pow2_up(a.e + b.e) == dk);
    let (n, d) = ((a.m * b.m) * dk, 1 * uk);
    let (n2, d2) = (a.m * c * ua, da);
    assert(n * d2 == n2 * d) by (nonlinear_arith)
        requires
            ua * 1 * uk == da * db * dk,
            n == (a.m * b.m) * dk,
            d == 1 * uk,
            b.m == c * db,
            n2 == a.m * c * ua,
            d2 == da,
    {
        assert(n * d2 == (a.m * c) * (da * db * dk));
        assert(n2 * d == (a.m * c) * (ua * uk));
    }
    lemma_same_double(n, d, n2, d2);
}

/// A block time is the double of the milliseconds divided by a thousand, and shown in
/// whole seconds. Both doubles are given.
pub proof fn law_seconds_read_back(milliseconds: nat) -> (steps: (Binary, Binary))
    ensures
        is_nearest_double(steps.0, milliseconds, 1),
        is_nearest_double(
            steps.1,
            steps.0.m * two_to(steps.0.e),
            1_000 * two_to(-steps.0.e),
        ),
        shows_double(seconds_text(milliseconds), steps.1, 0, "s avg"@),
{
    let x = whole(milliseconds);
    let q = quotient(x, whole(1_000));
    law_double_of_integer(milliseconds);
    lemma_divided_by(x, 1_000);
    law_fixed_text_read_back(q, 0, "s avg"@);
    (x, q)
}

/// A reward is the double of the atomic units divided by a hundred million, and shown
/// with four decimal places. Both doubles are given.
pub proof fn law_block_reward_read_back(atomic_units: nat) -> (steps: (Binary, Binary))
    ensures
        is_nearest_double(steps.0, atomic_units, 1),
        is_nearest_double(
            steps.1,
            steps.0.m * two_to(steps.0.e),
            100_000_000 * two_to(-steps.0.e),
        ),
        shows_double(block_reward_text(atomic_units), steps.1, 4, " XEL"@),
{
    let x = whole(atomic_units);
    let q = coins(atomic_units);
    law_double_of_integer(atomic_units);
    lemma_divided_by(x, 100_000_000);
    law_fixed_text_read_back(q, 4, " XEL"@);
    (x, q)
}

/// A circulating supply is the double of the atomic units divided by a hundred million,
/// and shown in whole coins. Both doubles are given.
pub proof fn law_circulating_supply_read_back(atomic_units: nat) -> (steps: (Binary, Binary))
    ensures
        is_nearest_double(steps.0, atomic_units, 1),
        is_nearest_double(
            steps.1,
            steps.0.m * two_to(steps.0.e),
            100_000_000 * two_to(-steps.0.e),
        ),
        shows_double(circulating_supply_text(atomic_units), steps.1, 0, " XEL"@),
{
    let x = whole(atomic_units);
    let q = coins(atomic_units);
    law_double_of_integer(atomic_units);
    lemma_divided_by(x, 100_000_000);
    law_fixed_text_read_back(q, 0, " XEL"@);
    (x, q)
}

/// A maximum supply is the double of the atomic units divided by a hundred million, then
/// by a million, and shown with one decimal place. The three doubles are given.
pub proof fn law_max_supply_read_back(atomic_units: nat) -> (steps: (Binary, Binary, Binary))
    ensures
        is_nearest_double(steps.0, atomic_units, 1),
        is_nearest_double(
            steps.1,
            steps.0.m * two_to(steps.0.e),
            100_000_000 * two_to(-steps.0.e),
        ),
        is_nearest_double(
            steps.2,
            steps.1.m * two_to(steps.1.e),
            1_000_000 * two_to(-steps.1.e),
        ),
        shows_double(max_supply_text(atomic_units), steps.2, 1, "M XEL"@),
{
    let x = whole(atomic_units);
    let q = coins(atomic_units);
    let r = quotient(q, whole(1_000_000));
    law_double_of_integer(atomic_units);
    lemma_divided_by(x, 100_000_000);
    lemma_divided_by(q, 1_000_000);
    law_fixed_text_read_back(r, 1, "M XEL"@);
    (x, q, r)
}

/// The share of the maximum supply that circulates is the quotient of the doubles of
/// both, times a hundred, and shown with two decimal places. The four doubles are given.
pub proof fn law_mined_read_back(circulating: nat, maximum: nat) -> (steps: (
    Binary,
    Binary,
    Binary,
    Binary,
))
    requires
        maximum > 0,
    ensures
        is_nearest_double(steps.0, circulating, 1),
        is_nearest_double(steps.1, maximum, 1),
        is_nearest_double(
            steps.2,
            steps.0.m * two_to(steps.0.e) * two_to(-steps.1.e),
            steps.1.m * two_to(steps.1.e) * two_to(-steps.0.e),
        ),
        is_nearest_double(
            steps.3,
            steps.2.m * 100 * two_to(steps.2.e),
            two_to(-steps.2.e),
        ),
        shows_double(mined_text(circulating, maximum), steps.3, 2, "%"@),
{
    let (x, y) = (whole(circulating), whole(maximum));
    let q = quotient(x, y);
    let p = product(q, whole(100));
    law_double_of_integer(circulating);
    law_double_of_integer(maximum);
    law_nearest(maximum, 1);
    law_double_quotient(x, y);
    lemma_times(q, 100);
    law_fixed_text_read_back(p, 2, "%"@);
    (x, y, q, p)
}

/// What the bits of a price mean: a sign, eleven bits of exponent and 52 bits of fraction.
/// The greatest exponent stands for infinity and for what is no number, the least one for
/// numbers without a leading one.
pub proof fn law_price_bits(bits: u64, negative: bool, exponent: nat, fraction: nat)
    requires
        exponent < 2048,
        fraction < 0x10_0000_0000_0000,
        bits == (if negative {
            0x8000_0000_0000_0000int
        } else {
            0
        }) + exponent * 0x10_0000_0000_0000 + fraction,
    ensures
        exponent == 2047 && fraction != 0 ==> (Price { bits })@ == PriceValue::NotANumber,
        exponent == 2047 && fraction == 0 ==> (Price { bits })@ == (PriceValue::Infinite {
            negative,
        }),
        exponent == 0 ==> (Price { bits })@ == (PriceValue::Finite {
            negative,
            magnitude: Binary { m: fraction, e: -1074 },
        }),
        0 < exponent < 2047 ==> (Price { bits })@ == (PriceValue::Finite {
            negative,
            magnitude: Binary { m: 0x10_0000_0000_0000 + fraction, e: exponent - 1075 },
        }),
{
    let low = LOW as nat;
    let high: nat = if negative {
        2048
    } else {
        0
    };
    let n = bits as nat;
    assert(n == (high + exponent) * low + fraction);
    lemma_fundamental_div_mod_converse(
        n as int,
        low as int,
        (high + exponent) as int,
        fraction as int,
    );
    assert(n / low == high + exponent && n % low == fraction);
    assert((high + exponent) % 2048 == exponent);
    assert(n / 0x8000_0000_0000_0000 == (if negative {
        1nat
    } else {
        0
    }));
}

/// A price is shown behind a dollar sign, with a minus sign where it is negative and four
/// decimal places, or as what it is where it is no finite number.
pub proof fn law_price_read_back(price: PriceValue)
    ensures
        price is NotANumber ==> price_text(price) == "$NaN"@,
        price matches PriceValue::Infinite { negative } ==> price_text(price) == (if negative {
            "$-inf"@
        } else {
            "$inf"@
        }),
        price matches PriceValue::Finite { negative: true, magnitude } ==> price_text(price).take(2)
            == "$-"@ && shows_double(price_text(price).skip(2), magnitude, 4, seq![]),
        price matches PriceValue::Finite { negative: false, magnitude } ==> price_text(price).take(1)
            == "$"@ && shows_double(price_text(price).skip(1), magnitude, 4, seq![]),
{
    reveal_strlit("$");
    reveal_strlit("-");
    reveal_strlit("$-");
    reveal_strlit("NaN");
    reveal_strlit("$NaN");
    reveal_strlit("inf");
    reveal_strlit("$inf");
    reveal_strlit("-inf");
    reveal_strlit("$-inf");
    let text = price_text(price);
    match price {
        PriceValue::NotANumber => {
            assert(text =~= "$NaN"@);
        },
        PriceValue::Infinite { negative } => {
            if negative {
                assert(text =~= "$-inf"@);
            } else {
                assert(text =~= "$inf"@);
            }
        },
        PriceValue::Finite { negative, magnitude } => {
            let body = fixed_text(magnitude, 4);
            law_fixed_text_read_back(magnitude, 4, seq![]);
            assert(body + seq![] =~= body);
            if negative {
                assert(text.take(2) =~= "$-"@);
                assert(text.skip(2) =~= body);
            } else {
                assert(text.take(1) =~= "$"@);
                assert(text.skip(1) =~= body);
            }
        },
    }
}

/// The text is a number with a comma before every group of three digits.
pub open spec fn is_comma_text(text: Seq<char>, n: nat) -> bool {
    &&& text.len() % 4 != 0
    &&& forall|i: int|
        0 <= i < text.len() ==> (#[trigger] text[i] == ',' <==> (text.len() - i) % 4 == 0)
    &&& is_plain(without_commas(text))
    &&& number(without_commas(text)) == n
}

/// A number is written with a comma before every group of three digits.
pub proof fn law_commas_read_back(n: nat)
    ensures
        is_comma_text(grouped(decimal(n)), n),
{
    let text = grouped(decimal(n));
    law_decimal_read_back(n);
    law_commas_keep_digits(n);
    lemma_grouped(decimal(n), 0);
    assert forall|i: int| 0 <= i < text.len() implies (#[trigger] text[i] == ',' <==> (text.len()
        - i) % 4 == 0) by {
        law_places_of_commas(n, i);
    }
}

/// A market capitalisation is shown behind a dollar sign as a number of whole dollars,
/// with commas.
pub proof fn law_market_cap_read_back(circulating: nat, price: PriceValue)
    ensures
        market_cap_text(circulating, price).take(1) == "$"@,
        is_comma_text(
            market_cap_text(circulating, price).skip(1),
            capitalization(circulating, price),
        ),
{
    let text = market_cap_text(circulating, price);
    let n = capitalization(circulating, price);
    reveal_strlit("$");
    law_commas_read_back(n);
    assert(text.take(1) =~= "$"@);
    assert(text.skip(1) =~= grouped(decimal(n)));
}

/// A market capitalisation at a finite price that is not negative is the double of the
/// atomic units divided by a hundred million, times the price, rounded to the nearest
/// integer with ties going up, and capped at the greatest 64-bit integer. The three
/// doubles are given.
pub proof fn law_market_cap_value(circulating: nat, magnitude: Binary) -> (steps: (
    Binary,
    Binary,
    Binary,
))
    ensures
        is_nearest_double(steps.0, circulating, 1),
        is_nearest_double(
            steps.1,
            steps.0.m * two_to(steps.0.e),
            100_000_000 * two_to(-steps.0.e),
        ),
        is_nearest_double(
            steps.2,
            steps.1.m * magnitude.m * two_to(steps.1.e) * two_to(magnitude.e),
            two_to(-steps.1.e) * two_to(-magnitude.e),
        ),
        ({
            let n = capitalization(circulating, PriceValue::Finite { negative: false, magnitude });
            let x = steps.2.m * two_to(steps.2.e);
            let y = two_to(-steps.2.e);
            &&& n <= 0xFFFF_FFFF_FFFF_FFFF
            &&& (2 * n - 1) * y <= 2 * x
            &&& n < 0xFFFF_FFFF_FFFF_FFFF ==> 2 * x < (2 * n + 1) * y
        }),
{
    let x = whole(circulating);
    let q = coins(circulating);
    let v = product(q, magnitude);
    law_double_of_integer(circulating);
    lemma_divided_by(x, 100_000_000);
    law_double_product(q, magnitude);
    law_saturated_value(v);
    (x, q, v)
}

/// What is worth nothing, and what is worth more than can be shown: at a negative price, or
/// one that is no number, a supply is worth nothing; at an infinite price it is worth the
/// greatest 64-bit integer, where there is any.
pub proof fn law_market_cap_limits(circulating: nat, price: PriceValue)
    ensures
        price is NotANumber ==> capitalization(circulating, price) == 0,
        price matches PriceValue::Finite { negative: true, .. } ==> capitalization(
            circulating,
            price,
        ) == 0,
        price matches PriceValue::Infinite { negative } ==> capitalization(circulating, price) == (
        if negative || circulating == 0 {
            0nat
        } else {
            0xFFFF_FFFF_FFFF_FFFF
        }),
{
}

} // verus!
