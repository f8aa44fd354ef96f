//! Double-precision arithmetic on non-negative numbers, carried out in integers.
//!
//! A double is a significand of at most 53 bits times a power of two. Each
//! operation gives the double that is nearest to the exact result, ties going to
//! the even significand, as IEEE 754 asks for. The exponent has no bounds here.
use crate::big::shifted_text;
use crate::decimal::{decimal, decimal_text, padded, padded_text, pow10};
use crate::rounding::{
    half_even, half_up, is_half_even, lemma_half_even, lemma_half_even_monotone,
    lemma_half_even_same_ratio, lemma_half_even_unique, lemma_half_up_monotone, lemma_pow2_ratio,
    lemma_pow2_up_pos, lemma_scaled_order, pow2_down, pow2_up, scaled_den, scaled_num,
};
use vstd::arithmetic::power2::{
    lemma2_to64, lemma2_to64_rest, lemma_pow2_adds, lemma_pow2_pos, lemma_pow2_strictly_increases,
    lemma_pow2_unfold, pow2,
};
use vstd::prelude::*;
use vstd::string::*;

verus! {

/// The least significand of a rounded non-zero number, `2^52`.
pub const LOW: u64 = 0x10_0000_0000_0000;

/// The least integer with more than 53 bits, `2^53`.
pub const HIGH: u64 = 0x20_0000_0000_0000;

/// The number `m * 2^e`.
pub ghost struct Binary {
    pub m: nat,
    pub e: int,
}

/// `n / d` lies between `2^52 * 2^e` and `2^53 * 2^e`.
pub open spec fn in_binade(n: nat, d: nat, e: int) -> bool {
    LOW * scaled_den(d, e) <= scaled_num(n, e) < HIGH * scaled_den(d, e)
}

/// The exponent that gives the significand of `n / d` 53 bits.
pub open spec fn binade(n: nat, d: nat) -> int {
    choose|e: int| in_binade(n, d, e)
}

/// The double nearest to `n / d`.
pub open spec fn nearest(n: nat, d: nat) -> Binary {
    if n == 0 {
        Binary { m: 0, e: 0 }
    } else {
        let e = binade(n, d);
        Binary { m: half_even(scaled_num(n, e), scaled_den(d, e)), e }
    }
}

/// The double nearest to the integer `n`.
pub open spec fn whole(n: nat) -> Binary {
    nearest(n, 1)
}

/// The double nearest to `a / b`.
pub open spec fn quotient(a: Binary, b: Binary) -> Binary {
    nearest(scaled_num(a.m, b.e - a.e), scaled_den(b.m, b.e - a.e))
}

/// The double nearest to `a * b`.
pub open spec fn product(a: Binary, b: Binary) -> Binary {
    nearest(scaled_num(a.m * b.m, -a.e - b.e), scaled_den(1, -a.e - b.e))
}

/// The integer nearest to `a * 10^places`, ties going to the even one.
pub open spec fn fixed_point(a: Binary, places: nat) -> nat {
    half_even(scaled_num(a.m * pow10(places), -a.e), scaled_den(1, -a.e))
}

/// `a` in decimal with the given number of decimal places.
pub open spec fn fixed_text(a: Binary, places: nat) -> Seq<char> {
    let n = fixed_point(a, places);
    if places == 0 {
        decimal(n)
    } else {
        decimal(n / pow10(places)).push('.') + padded(n, places)
    }
}

/// `a` rounded to the nearest integer, ties going up, and capped at the greatest
/// 64-bit integer.
pub open spec fn saturated(a: Binary) -> nat {
    let n = half_up(scaled_num(a.m, -a.e), scaled_den(1, -a.e));
    if n <= u64::MAX {
        n
    } else {
        u64::MAX as nat
    }
}

/// `a` is at most `b`.
pub open spec fn at_most(a: Binary, b: Binary) -> bool {
    scaled_num(a.m, b.e - a.e) <= scaled_den(b.m, b.e - a.e)
}

/// `n / d` lies in one binade at most.
pub proof fn lemma_binade_unique(n: nat, d: nat, e: int, f: int)
    requires
        d > 0,
        in_binade(n, d, e),
        in_binade(n, d, f),
    ensures
        e == f,
{
    lemma_binade_ordered(n, d, e, f);
    lemma_binade_ordered(n, d, f, e);
}

proof fn lemma_binade_ordered(n: nat, d: nat, e: int, f: int)
    requires
        d > 0,
        in_binade(n, d, e),
        in_binade(n, d, f),
    ensures
        e >= f,
{
    if e < f {
        let t = f - e;
        lemma_pow2_ratio(e, t);
        lemma_pow2_up_pos(e);
        lemma_pow2_up_pos(f);
        lemma_pow2_unfold(t as nat);
        lemma_pow2_pos((t - 1) as nat);
        let (ue, de) = (pow2_up(e), pow2_down(e));
        let (uf, df) = (pow2_up(f), pow2_down(f));
        let p = pow2(t as nat);
        assert(ue * p * df == de * uf) by (nonlinear_arith)
            requires
                ue * p * df == de * 1 * uf,
        ;
        assert(n * de * uf < HIGH * (d * ue) * uf) by (nonlinear_arith)
            requires
                n * de < HIGH * (d * ue),
                uf > 0,
        ;
        assert(n * df * (ue * p) >= LOW * (d * uf) * (ue * p)) by (nonlinear_arith)
            requires
                n * df >= LOW * (d * uf),
                ue > 0,
                p > 0,
        ;
        assert(n * df * (ue * p) == n * (ue * p * df)) by (nonlinear_arith);
        assert(n * de * uf == n * (de * uf)) by (nonlinear_arith);
        assert(LOW * (d * uf) * (ue * p) >= HIGH * (d * ue) * uf) by (nonlinear_arith)
            requires
                p >= 2,
                HIGH == 2 * LOW,
                d > 0,
                uf > 0,
                ue > 0,
        ;
    }
}

/// Every positive ratio lies in the binade that `binade` gives.
pub proof fn lemma_binade_exists(n: nat, d: nat)
    requires
        n > 0,
        d > 0,
    ensures
        in_binade(n, d, binade(n, d)),
{
    let k = d + 52;
    lemma_pow2_at_least(d);
    lemma_pow2_adds(d, 52);
    lemma2_to64_rest();
    assert(LOW * (d * 1) <= n * pow2(k)) by (nonlinear_arith)
        requires
            pow2(k) == pow2(d) * LOW,
            pow2(d) > d,
            n > 0,
    ;
    assert(pow2_down(-k) == pow2(k));
    let e = lemma_climb(n, d, -(k as int));
    assert(in_binade(n, d, e));
}

proof fn lemma_climb(n: nat, d: nat, e: int) -> (f: int)
    requires
        n > 0,
        d > 0,
        LOW * scaled_den(d, e) <= scaled_num(n, e),
    ensures
        in_binade(n, d, f),
    decreases n - e,
{
    if e >= 0 {
        lemma_pow2_at_least(e as nat);
        lemma2_to64();
        assert(e < n) by (nonlinear_arith)
            requires
                LOW * (d * pow2(e as nat)) <= n * 1,
                pow2(e as nat) > e,
                d > 0,
                LOW > 0,
        ;
    }
    if scaled_num(n, e) < HIGH * scaled_den(d, e) {
        e
    } else {
        lemma_pow2_ratio(e, 1);
        lemma_pow2_up_pos(e);
        lemma_pow2_up_pos(e + 1);
        lemma2_to64();
        let (ue, de) = (pow2_up(e), pow2_down(e));
        let (uf, df) = (pow2_up(e + 1), pow2_down(e + 1));
        assert(ue * 2 * df == de * uf) by (nonlinear_arith)
            requires
                ue * 2 * df == de * 1 * uf,
        ;
        assert(n * de * uf >= HIGH * (d * ue) * uf) by (nonlinear_arith)
            requires
                n * de >= HIGH * (d * ue),
                uf > 0,
        ;
        assert(n * de * uf == n * (de * uf)) by (nonlinear_arith);
        assert(n * (ue * 2 * df) == (n * df) * (2 * ue)) by (nonlinear_arith);
        assert(HIGH * (d * ue) * uf == (LOW * (d * uf)) * (2 * ue)) by (nonlinear_arith)
            requires
                HIGH == 2 * LOW,
        ;
        assert(LOW * (d * uf) <= n * df) by (nonlinear_arith)
            requires
                (n * df) * (2 * ue) >= (LOW * (d * uf)) * (2 * ue),
                ue > 0,
        ;
        lemma_climb(n, d, e + 1)
    }
}

/// A power of two exceeds its exponent.
proof fn lemma_pow2_at_least(e: nat)
    ensures
        pow2(e) > e,
    decreases e,
{
    lemma2_to64();
    if e > 0 {
        lemma_pow2_at_least((e - 1) as nat);
        lemma_pow2_unfold(e);
    }
}

/// The double nearest to a positive ratio has a significand of 53 bits, or is the next
/// power of two, and is off by half a unit of the significand at most; on a tie the
/// significand is even.
pub proof fn law_nearest(n: nat, d: nat)
    requires
        n > 0,
        d > 0,
    ensures
        LOW <= nearest(n, d).m <= HIGH,
        is_half_even(
            scaled_num(n, nearest(n, d).e),
            scaled_den(d, nearest(n, d).e),
            nearest(n, d).m,
        ),
{
    let e = binade(n, d);
    lemma_binade_exists(n, d);
    lemma_pow2_up_pos(e);
    let (x, y) = (scaled_num(n, e), scaled_den(d, e));
    assert(y > 0) by (nonlinear_arith)
        requires
            y == d * pow2_up(e),
            d > 0,
            pow2_up(e) > 0,
    ;
    lemma_half_even(x, y);
    assert(LOW <= x / y < HIGH) by (nonlinear_arith)
        requires
            y > 0,
            LOW * y <= x < HIGH * y,
    ;
}

/// Whether a ratio lies in a binade depends on the ratio alone.
proof fn lemma_binade_same_ratio(n: nat, d: nat, e: int, n2: nat, d2: nat, e2: int)
    requires
        scaled_den(d, e) > 0,
        scaled_den(d2, e2) > 0,
        scaled_num(n, e) * scaled_den(d2, e2) == scaled_num(n2, e2) * scaled_den(d, e),
        in_binade(n, d, e),
    ensures
        in_binade(n2, d2, e2),
{
    let (x, y) = (scaled_num(n, e), scaled_den(d, e));
    let (x2, y2) = (scaled_num(n2, e2), scaled_den(d2, e2));
    assert(LOW * y2 <= x2 && x2 < HIGH * y2) by (nonlinear_arith)
        requires
            y > 0,
            y2 > 0,
            x * y2 == x2 * y,
            LOW * y <= x,
            x < HIGH * y,
    ;
}

/// Dividing a ratio by `2^k` takes `k` from the exponent of its double.
pub proof fn lemma_nearest_scaled(n: nat, d: nat, k: int)
    requires
        n > 0,
        d > 0,
    ensures
        nearest(scaled_num(n, k), scaled_den(d, k)) == (Binary {
            m: nearest(n, d).m,
            e: nearest(n, d).e - k,
        }),
{
    let e = binade(n, d);
    lemma_binade_exists(n, d);
    let (n2, d2, e2) = (scaled_num(n, k), scaled_den(d, k), e - k);
    lemma_pow2_up_pos(k);
    lemma_pow2_up_pos(e);
    lemma_pow2_up_pos(e2);
    let (uk, dk) = (pow2_up(k), pow2_down(k));
    let (ue, de) = (pow2_up(e), pow2_down(e));
    let (u2, w2) = (pow2_up(e2), pow2_down(e2));
    assert(n2 > 0 && d2 > 0 && d * ue > 0 && (d * uk) * u2 > 0) by (nonlinear_arith)
        requires
            n2 == n * dk,
            d2 == d * uk,
            n > 0,
            d > 0,
            dk > 0,
            uk > 0,
            ue > 0,
            u2 > 0,
    ;
    lemma_pow2_ratio(k, e2);
    assert((n * de) * ((d * uk) * u2) == ((n * dk) * w2) * (d * ue)) by (nonlinear_arith)
        requires
            uk * u2 * de == dk * w2 * ue,
    {
        assert((n * de) * ((d * uk) * u2) == (n * d) * (uk * u2 * de));
        assert(((n * dk) * w2) * (d * ue) == (n * d) * (dk * w2 * ue));
    }
    lemma_binade_same_ratio(n, d, e, n2, d2, e2);
    lemma_binade_unique(n2, d2, e2, binade(n2, d2));
    lemma_half_even_same_ratio(
        scaled_num(n, e),
        scaled_den(d, e),
        scaled_num(n2, e2),
        scaled_den(d2, e2),
    );
}

/// The double nearest to a ratio depends on the ratio alone.
pub proof fn lemma_nearest_same_ratio(n: nat, d: nat, n2: nat, d2: nat)
    requires
        n > 0,
        n2 > 0,
        d > 0,
        d2 > 0,
        n * d2 == n2 * d,
    ensures
        nearest(n, d) == nearest(n2, d2),
{
    let e = binade(n, d);
    lemma_binade_exists(n, d);
    lemma_pow2_up_pos(e);
    let (u, w) = (pow2_up(e), pow2_down(e));
    assert((n * w) * (d2 * u) == (n2 * w) * (d * u) && d * u > 0 && d2 * u > 0) by (nonlinear_arith)
        requires
            n * d2 == n2 * d,
            d > 0,
            d2 > 0,
            u > 0,
    {
        assert((n * w) * (d2 * u) == (n * d2) * (w * u));
        assert((n2 * w) * (d * u) == (n2 * d) * (w * u));
    }
    lemma_binade_same_ratio(n, d, e, n2, d2, e);
    lemma_binade_unique(n2, d2, e, binade(n2, d2));
    lemma_half_even_same_ratio(
        scaled_num(n, e),
        scaled_den(d, e),
        scaled_num(n2, e),
        scaled_den(d2, e),
    );
}

/// A greater ratio lies in no lower binade.
proof fn lemma_binade_monotone(n: nat, d: nat, e: int, n2: nat, d2: nat, f: int)
    requires
        d > 0,
        d2 > 0,
        n * d2 <= n2 * d,
        in_binade(n, d, e),
        in_binade(n2, d2, f),
    ensures
        e <= f,
{
    if f < e {
        let t = e - f;
        lemma_pow2_ratio(f, t);
        lemma_pow2_up_pos(e);
        lemma_pow2_up_pos(f);
        lemma_pow2_unfold(t as nat);
        lemma_pow2_pos((t - 1) as nat);
        let (ue, de) = (pow2_up(e), pow2_down(e));
        let (uf, df) = (pow2_up(f), pow2_down(f));
        let p = pow2(t as nat);
        assert(uf * p * de == df * ue) by (nonlinear_arith)
            requires
                uf * p * de == df * 1 * ue,
        ;
        assert((n * d2) * (de * (uf * p)) <= (n2 * d) * (df * ue)) by (nonlinear_arith)
            requires
                n * d2 <= n2 * d,
                uf * p * de == df * ue,
        {
            assert(de * (uf * p) == df * ue);
        }
        assert((n * de) * (d2 * (uf * p)) == (n * d2) * (de * (uf * p))) by (nonlinear_arith);
        assert((n2 * df) * (d * ue) == (n2 * d) * (df * ue)) by (nonlinear_arith);
        assert((LOW * (d * ue)) * (d2 * (uf * p)) <= (n * de) * (d2 * (uf * p))) by (nonlinear_arith)
            requires
                LOW * (d * ue) <= n * de,
                d2 > 0,
                uf > 0,
                p >= 2,
        ;
        assert((n2 * df) * (d * ue) < (HIGH * (d2 * uf)) * (d * ue)) by (nonlinear_arith)
            requires
                n2 * df < HIGH * (d2 * uf),
                d > 0,
                ue > 0,
        ;
        let both = (d * ue) * (d2 * uf);
        assert((HIGH * (d2 * uf)) * (d * ue) == HIGH * both) by (nonlinear_arith)
            requires
                both == (d * ue) * (d2 * uf),
        ;
        assert((LOW * (d * ue)) * (d2 * (uf * p)) == (LOW * p) * both) by (nonlinear_arith)
            requires
                both == (d * ue) * (d2 * uf),
        ;
        assert((LOW * p) * both >= HIGH * both) by (nonlinear_arith)
            requires
                p >= 2,
                HIGH == 2 * LOW,
                both >= 0,
        ;
    }
}

/// A greater ratio has no smaller nearest double.
pub proof fn law_nearest_monotone(n: nat, d: nat, n2: nat, d2: nat)
    requires
        d > 0,
        d2 > 0,
        n * d2 <= n2 * d,
    ensures
        at_most(nearest(n, d), nearest(n2, d2)),
{
    let (a, b) = (nearest(n, d), nearest(n2, d2));
    let t = b.e - a.e;
    lemma_pow2_up_pos(t);
    if n == 0 {
        assert(0 * pow2_down(t) == 0) by (nonlinear_arith);
    } else {
        assert(n2 > 0) by (nonlinear_arith)
            requires
                n * d2 <= n2 * d,
                n > 0,
                d2 > 0,
        ;
        law_nearest(n, d);
        law_nearest(n2, d2);
        let (e, f) = (binade(n, d), binade(n2, d2));
        lemma_binade_exists(n, d);
        lemma_binade_exists(n2, d2);
        lemma_binade_monotone(n, d, e, n2, d2, f);
        if e == f {
            lemma_pow2_up_pos(e);
            let (u, w) = (pow2_up(e), pow2_down(e));
            assert((n * w) * (d2 * u) <= (n2 * w) * (d * u) && d * u > 0 && d2 * u > 0)
                by (nonlinear_arith)
                requires
                    n * d2 <= n2 * d,
                    d > 0,
                    d2 > 0,
                    u > 0,
                    w > 0,
            {
                assert((n * w) * (d2 * u) == (n * d2) * (w * u));
                assert((n2 * w) * (d * u) == (n2 * d) * (w * u));
                assert((n * d2) * (w * u) <= (n2 * d) * (w * u));
            }
            lemma_half_even_monotone(
                scaled_num(n, e),
                scaled_den(d, e),
                scaled_num(n2, e),
                scaled_den(d2, e),
            );
        } else {
            lemma_pow2_unfold(t as nat);
            lemma_pow2_pos((t - 1) as nat);
            assert(b.m * pow2_up(t) >= HIGH) by (nonlinear_arith)
                requires
                    b.m >= LOW,
                    pow2_up(t) >= 2,
                    HIGH == 2 * LOW,
            ;
        }
    }
}

/// A greater factor gives no smaller product.
pub proof fn law_product_monotone(a: Binary, b: Binary, c: Binary)
    requires
        at_most(b, c),
    ensures
        at_most(product(a, b), product(a, c)),
{
    let (j, k) = (-a.e - b.e, -a.e - c.e);
    lemma_pow2_up_pos(j);
    lemma_pow2_up_pos(k);
    let t = j - k;
    let (x, y) = (a.m * b.m, a.m * c.m);
    assert(x * pow2_down(t) <= y * pow2_up(t)) by (nonlinear_arith)
        requires
            b.m * pow2_down(t) <= c.m * pow2_up(t),
            x == a.m * b.m,
            y == a.m * c.m,
    {
        assert(x * pow2_down(t) == a.m * (b.m * pow2_down(t)));
        assert(y * pow2_up(t) == a.m * (c.m * pow2_up(t)));
    }
    lemma_scaled_order(x, y, j, k);
    assert(1 * pow2_up(j) == pow2_up(j) && 1 * pow2_up(k) == pow2_up(k));
    law_nearest_monotone(
        scaled_num(x, j),
        scaled_den(1, j),
        scaled_num(y, k),
        scaled_den(1, k),
    );
}

/// A greater dividend gives no smaller quotient.
pub proof fn law_quotient_monotone(a: Binary, b: Binary, c: Binary)
    requires
        at_most(a, b),
        c.m > 0,
    ensures
        at_most(quotient(a, c), quotient(b, c)),
{
    let (j, k) = (c.e - a.e, c.e - b.e);
    lemma_pow2_up_pos(j);
    lemma_pow2_up_pos(k);
    lemma_scaled_order(a.m, b.m, j, k);
    let (x, y) = (scaled_num(a.m, j), scaled_num(b.m, k));
    let (u, w) = (pow2_up(j), pow2_up(k));
    assert(x * (c.m * w) <= y * (c.m * u) && c.m * u > 0 && c.m * w > 0) by (nonlinear_arith)
        requires
            x * w <= y * u,
            c.m > 0,
            u > 0,
            w > 0,
    {
        assert(x * (c.m * w) == c.m * (x * w));
        assert(y * (c.m * u) == c.m * (y * u));
    }
    law_nearest_monotone(x, scaled_den(c.m, j), y, scaled_den(c.m, k));
}

/// A product does not depend on the order of its factors.
pub proof fn law_product_commutes(a: Binary, b: Binary)
    ensures
        product(a, b) == product(b, a),
{
    assert(a.m * b.m == b.m * a.m) by (nonlinear_arith);
}

/// A greater number is not shown as a smaller one.
pub proof fn law_fixed_point_monotone(a: Binary, b: Binary, places: nat)
    requires
        at_most(a, b),
    ensures
        fixed_point(a, places) <= fixed_point(b, places),
{
    let (j, k) = (-a.e, -b.e);
    lemma_pow2_up_pos(j);
    lemma_pow2_up_pos(k);
    let t = j - k;
    let p = pow10(places);
    let (x, y) = (a.m * p, b.m * p);
    assert(x * pow2_down(t) <= y * pow2_up(t)) by (nonlinear_arith)
        requires
            a.m * pow2_down(t) <= b.m * pow2_up(t),
            x == a.m * p,
            y == b.m * p,
    {
        assert(x * pow2_down(t) == p * (a.m * pow2_down(t)));
        assert(y * pow2_up(t) == p * (b.m * pow2_up(t)));
    }
    lemma_scaled_order(x, y, j, k);
    assert(1 * pow2_up(j) == pow2_up(j) && 1 * pow2_up(k) == pow2_up(k));
    lemma_half_even_monotone(
        scaled_num(x, j),
        scaled_den(1, j),
        scaled_num(y, k),
        scaled_den(1, k),
    );
}

/// A number divided by itself and multiplied by an integer below `2^53` is that integer.
pub proof fn lemma_self_ratio(a: Binary, n: nat)
    requires
        a.m > 0,
        0 < n < HIGH,
    ensures
        product(quotient(a, a), whole(n)) == whole(n),
{
    assert(a.m * 1 == a.m);
    lemma_nearest_same_ratio(a.m, a.m, 1, 1);
    let (x, y) = (whole(1), whole(n));
    assert(quotient(a, a) == x);
    lemma_whole_exact(1);
    lemma_whole_exact(n);
    let k = -x.e - y.e;
    let (wx, wy) = (pow2_down(x.e), pow2_down(y.e));
    lemma_pow2_up_pos(k);
    lemma_pow2_ratio(-x.e, -y.e);
    assert(pow2_up(x.e) == 1 && pow2_up(y.e) == 1 && pow2_down(k) == 1);
    assert(wx * wy == pow2_up(k)) by (nonlinear_arith)
        requires
            wx * wy * 1 == 1 * 1 * pow2_up(k),
    ;
    let (num, den) = (scaled_num(x.m * y.m, k), scaled_den(1, k));
    assert(num * 1 == n * den && num > 0 && den > 0) by (nonlinear_arith)
        requires
            num == (x.m * y.m) * 1,
            x.m == 1 * wx,
            y.m == n * wy,
            den == 1 * (wx * wy),
            wx * wy > 0,
            n > 0,
    {
        assert(num == n * (wx * wy));
    }
    lemma_nearest_same_ratio(num, den, n, 1);
}

/// An integer below `2^53` is shown exactly.
pub proof fn lemma_whole_fixed_point(n: nat, places: nat)
    requires
        0 < n < HIGH,
    ensures
        fixed_point(whole(n), places) == n * pow10(places),
{
    lemma_whole_exact(n);
    let a = whole(n);
    let p = pow10(places);
    let u = pow2_up(-a.e);
    lemma_pow2_up_pos(-a.e);
    let x = scaled_num(a.m * p, -a.e);
    assert(pow2_down(-a.e) == 1);
    assert(x * 1 == (n * p) * (1 * u)) by (nonlinear_arith)
        requires
            x == (a.m * p) * 1,
            a.m == n * u,
    ;
    lemma_half_even_same_ratio(x, scaled_den(1, -a.e), n * p, 1);
    assert((n * p) / 1 == n * p && (n * p) % 1 == 0);
}

/// A greater number is rounded to no smaller integer.
pub proof fn law_saturated_monotone(a: Binary, b: Binary)
    requires
        at_most(a, b),
    ensures
        saturated(a) <= saturated(b),
{
    let (j, k) = (-a.e, -b.e);
    lemma_pow2_up_pos(j);
    lemma_pow2_up_pos(k);
    lemma_scaled_order(a.m, b.m, j, k);
    assert(1 * pow2_up(j) == pow2_up(j) && 1 * pow2_up(k) == pow2_up(k));
    lemma_half_up_monotone(
        scaled_num(a.m, j),
        scaled_den(1, j),
        scaled_num(b.m, k),
        scaled_den(1, k),
    );
}

/// An integer below `2^53` is its own nearest double.
pub proof fn lemma_whole_exact(n: nat)
    requires
        0 < n < HIGH,
    ensures
        whole(n).e <= 0,
        whole(n).m == n * pow2_down(whole(n).e),
        whole(n).m > 0,
{
    let e = binade(n, 1);
    lemma_binade_exists(n, 1);
    lemma2_to64();
    lemma_pow2_up_pos(e);
    if e > 0 {
        lemma_pow2_unfold(e as nat);
        lemma_pow2_pos((e - 1) as nat);
        assert(LOW * (1 * pow2(e as nat)) >= HIGH) by (nonlinear_arith)
            requires
                pow2(e as nat) >= 2,
        ;
        assert(n * pow2_down(e) == n) by (nonlinear_arith)
            requires
                pow2_down(e) == 1,
        ;
        assert(false);
    }
    assert(pow2_up(e) == 1);
    let x = scaled_num(n, e);
    assert(x / 1 == x && x % 1 == 0);
    assert(n * pow2_down(e) > 0) by (nonlinear_arith)
        requires
            n > 0,
            pow2_down(e) > 0,
    ;
}

/// Dividing integers below `2^53` rounds their exact ratio once.
pub proof fn lemma_whole_quotient(a: nat, d: nat)
    requires
        a < HIGH,
        0 < d < HIGH,
    ensures
        quotient(whole(a), whole(d)) == nearest(a, d),
{
    lemma_whole_exact(d);
    let (x, y) = (whole(a), whole(d));
    let k = y.e - x.e;
    lemma_pow2_up_pos(k);
    let (uk, wk) = (pow2_up(k), pow2_down(k));
    if a == 0 {
        assert(0 * wk == 0) by (nonlinear_arith);
    } else {
        lemma_whole_exact(a);
        let (wx, wy) = (pow2_down(x.e), pow2_down(y.e));
        lemma_pow2_ratio(x.e, k);
        assert(uk * wy == wx * wk) by (nonlinear_arith)
            requires
                1 * uk * wy == wx * wk * 1,
        ;
        let (n2, d2) = (scaled_num(x.m, k), scaled_den(y.m, k));
        assert(n2 * d == a * d2) by (nonlinear_arith)
            requires
                uk * wy == wx * wk,
                n2 == (a * wx) * wk,
                d2 == (d * wy) * uk,
        {
            assert(n2 * d == (a * d) * (wx * wk));
            assert(a * d2 == (a * d) * (uk * wy));
        }
        assert(n2 > 0 && d2 > 0) by (nonlinear_arith)
            requires
                n2 == x.m * wk,
                d2 == y.m * uk,
                x.m > 0,
                y.m > 0,
                wk > 0,
                uk > 0,
        ;
        lemma_nearest_same_ratio(n2, d2, a, d);
    }
}

/// Rounding to a double first does not change the nearest integer, where the
/// divisor is even and both integers are below `2^53`.
pub proof fn lemma_integer_part_exact(a: nat, d: nat)
    requires
        a < HIGH,
        0 < d < HIGH,
        d % 2 == 0,
    ensures
        fixed_point(quotient(whole(a), whole(d)), 0) == half_even(a, d),
{
    lemma_whole_quotient(a, d);
    lemma2_to64();
    assert(pow10(0) == 1);
    if a == 0 {
        assert(0nat / d == 0 && 0nat % d == 0) by (nonlinear_arith)
            requires
                d > 0,
        ;
        assert(half_even(0, 1) == 0);
    } else {
        let e = binade(a, d);
        lemma_binade_exists(a, d);
        lemma_pow2_up_pos(e);
        let w = pow2_down(e);
        if e >= 0 {
            assert(LOW * (d * pow2_up(e)) >= HIGH) by (nonlinear_arith)
                requires
                    d >= 2,
                    pow2_up(e) >= 1,
            ;
            assert(a * w == a) by (nonlinear_arith)
                requires
                    w == 1,
            ;
            assert(false);
        }
        assert(pow2_up(e) == 1);
        let m = nearest(a, d).m;
        let n = a * w;
        assert(d * 1 == d);
        lemma_half_even(n, d);
        let q = half_even(a, d);
        lemma_half_even(a, d);
        lemma_pow2_unfold((-e) as nat);
        lemma_pow2_pos((-e - 1) as nat);
        lemma_rounded_twice(a, d, pow2((-e - 1) as nat), m, q);
        assert(m * 1 == m && 1 * w == w);
        lemma_half_even(m, w);
        lemma_half_even_unique(m, w, q, half_even(m, w));
    }
}

/// With `m` nearest to `a * 2h / d` and `q` nearest to `a / d`, `q` is nearest to
/// `m / 2h` too.
proof fn lemma_rounded_twice(a: nat, d: nat, h: nat, m: nat, q: nat)
    requires
        0 < a < HIGH,
        d > 0,
        d % 2 == 0,
        h > 0,
        LOW * d <= a * (2 * h),
        is_half_even(a * (2 * h), d, m),
        is_half_even(a, d, q),
    ensures
        is_half_even(m, 2 * h, q),
{
    let w = 2 * h;
    let c = d / 2;
    assert(q * d == 2 * (q * c)) by (nonlinear_arith)
        requires
            d == 2 * c,
    ;
    if 2 * a == 2 * (q * d) + d {
        lemma_rounded_half(a, d, h, m, 2 * q + 1);
        assert((2 * q + 1) * h == q * w + h) by (nonlinear_arith)
            requires
                w == 2 * h,
        ;
    } else if 2 * a + d == 2 * (q * d) {
        assert(q > 0) by (nonlinear_arith)
            requires
                2 * a + d == 2 * (q * d),
                d > 0,
        ;
        lemma_rounded_half(a, d, h, m, (2 * q - 1) as nat);
        assert((2 * q - 1) * h == q * w - h) by (nonlinear_arith)
            requires
                w == 2 * h,
        ;
    } else {
        assert(d < 2 * w) by (nonlinear_arith)
            requires
                LOW * d <= a * w,
                a < HIGH,
                HIGH == 2 * LOW,
                w > 0,
        ;
        lemma_rounded_off_half(a, d, w, m, q);
    }
}

/// A half-integer is a double: `m` is exactly `odd * h` where `a / d` is `odd / 2`.
proof fn lemma_rounded_half(a: nat, d: nat, h: nat, m: nat, odd: nat)
    requires
        d > 0,
        is_half_even(a * (2 * h), d, m),
        2 * a == 2 * ((odd / 2) * d) + d || 2 * a + d == 2 * ((odd / 2 + 1) * d),
        odd % 2 == 1,
    ensures
        m == odd * h,
{
    let t = odd / 2;
    assert(odd == 2 * t + 1);
    assert((t + 1) * d == t * d + d) by (nonlinear_arith);
    assert(2 * a == odd * d) by (nonlinear_arith)
        requires
            2 * a == 2 * (t * d) + d,
            odd == 2 * t + 1,
    ;
    assert(a * (2 * h) == (odd * h) * d) by (nonlinear_arith)
        requires
            2 * a == odd * d,
    ;
    lemma_half_even_unique(a * (2 * h), d, m, odd * h);
}

/// Away from the half-integers rounding to a double does not reach one.
proof fn lemma_rounded_off_half(a: nat, d: nat, w: nat, m: nat, q: nat)
    requires
        d > 0,
        d < 2 * w,
        2 * (m * d) <= 2 * (a * w) + d,
        2 * (a * w) <= 2 * (m * d) + d,
        2 * a + 2 <= 2 * (q * d) + d,
        2 * (q * d) + 2 <= 2 * a + d,
    ensures
        2 * m < 2 * (q * w) + w,
        2 * (q * w) < 2 * m + w,
{
    let x = q * d;
    assert((2 * a + 2) * w <= (2 * x + d) * w) by (nonlinear_arith)
        requires
            2 * a + 2 <= 2 * x + d,
    ;
    assert((2 * x + 2) * w <= (2 * a + d) * w) by (nonlinear_arith)
        requires
            2 * x + 2 <= 2 * a + d,
    ;
    assert((2 * a + 2) * w == 2 * (a * w) + 2 * w) by (nonlinear_arith);
    assert((2 * x + d) * w == 2 * (x * w) + d * w) by (nonlinear_arith);
    assert((2 * x + 2) * w == 2 * (x * w) + 2 * w) by (nonlinear_arith);
    assert((2 * a + d) * w == 2 * (a * w) + d * w) by (nonlinear_arith);
    assert(2 * (m * d) < 2 * (x * w) + d * w);
    assert(2 * (x * w) < 2 * (m * d) + d * w);
    let y = q * w;
    assert(x * w == y * d) by (nonlinear_arith)
        requires
            x == q * d,
            y == q * w,
    ;
    assert((2 * m) * d < (2 * y + w) * d) by (nonlinear_arith)
        requires
            2 * (m * d) < 2 * (y * d) + d * w,
    ;
    assert((2 * y) * d < (2 * m + w) * d) by (nonlinear_arith)
        requires
            2 * (y * d) < 2 * (m * d) + d * w,
    ;
    assert(2 * m < 2 * y + w) by (nonlinear_arith)
        requires
            (2 * m) * d < (2 * y + w) * d,
            d > 0,
    ;
    assert(2 * y < 2 * m + w) by (nonlinear_arith)
        requires
            (2 * y) * d < (2 * m + w) * d,
            d > 0,
    ;
}

/// A rounded non-negative number: `significand * 2^exponent`.
#[derive(Debug, Clone, Copy)]
pub struct Double {
    pub significand: u64,
    pub exponent: i32,
}

impl View for Double {
    type V = Binary;

    open spec fn view(&self) -> Binary {
        Binary { m: self.significand as nat, e: self.exponent as int }
    }
}

impl Double {
    /// The significand has at most 53 bits, and the exponent leaves room for an
    /// operation.
    pub open spec fn wf(self) -> bool {
        &&& self.significand <= HIGH
        &&& -10_000 <= self.exponent <= 10_000
    }

    /// A wide significand, as every rounded number but zero has it.
    pub open spec fn normal(self) -> bool {
        LOW <= self.significand <= HIGH
    }

    /// The double nearest to `n / d`.
    fn from_ratio(n: u128, d: u64) -> (r: Double)
        requires
            0 < n <= HIGH * HIGH,
            0 < d <= HIGH,
        ensures
            r@ == nearest(n as nat, d as nat),
            r.normal(),
            -110 <= r.exponent <= 110,
    {
        let mut num: u128 = n;
        let mut den: u128 = d as u128;
        let mut e: i32 = 0;
        proof {
            lemma2_to64();
            lemma2_to64_rest();
            lemma_pow2_adds(53, 53);
            assert(n as nat * 1 == n as nat && d as nat * 1 == d as nat);
        }
        while num >= den * (HIGH as u128)
            invariant
                0 < n <= HIGH * HIGH,
                0 < d <= HIGH,
                num == n,
                0 <= e <= 60,
                den == scaled_den(d as nat, e as int),
                0 < den <= 4 * HIGH,
                e > 0 ==> num >= LOW * den,
            decreases 8 * HIGH - den,
        {
            proof {
                assert(den <= HIGH) by (nonlinear_arith)
                    requires
                        num >= den * HIGH,
                        num <= HIGH * HIGH,
                ;
                lemma_den_doubles(d as nat, e as int);
                if e >= 54 {
                    lemma2_to64_rest();
                    if e > 54 {
                        lemma_pow2_strictly_increases(54, e as nat);
                    }
                    assert(den > HIGH) by (nonlinear_arith)
                        requires
                            den == d * pow2(e as nat),
                            pow2(e as nat) > HIGH,
                            d > 0,
                    ;
                }
            }
            den = den * 2;
            e = e + 1;
        }
        assert(e <= 0 ==> num == scaled_num(n as nat, e as int));
        assert(den * LOW <= u128::MAX) by (nonlinear_arith)
            requires
                den <= 4 * HIGH,
        ;
        while num < den * (LOW as u128)
            invariant
                0 < n <= HIGH * HIGH,
                0 < d <= HIGH,
                -108 <= e <= 60,
                den == scaled_den(d as nat, e as int),
                0 < den <= 4 * HIGH,
                num == scaled_num(n as nat, e as int),
                0 < num < den * HIGH,
                den * LOW <= u128::MAX,
                e > 0 ==> num >= LOW * den,
                e <= 0 ==> den == d,
            decreases den * HIGH - num,
        {
            proof {
                lemma_num_doubles(n as nat, e as int);
                lemma2_to64_rest();
                if e <= -106 {
                    lemma_pow2_adds(53, 53);
                    if e < -106 {
                        lemma_pow2_strictly_increases(106, (-e) as nat);
                    }
                    assert(num >= HIGH * HIGH) by (nonlinear_arith)
                        requires
                            num == n * pow2((-e) as nat),
                            pow2((-e) as nat) >= HIGH * HIGH,
                            n > 0,
                    ;
                    assert(den * LOW <= HIGH * LOW) by (nonlinear_arith)
                        requires
                            den <= HIGH,
                    ;
                }
            }
            num = num * 2;
            e = e - 1;
        }
        assert(in_binade(n as nat, d as nat, e as int));
        proof {
            lemma_binade_unique(n as nat, d as nat, e as int, binade(n as nat, d as nat));
        }
        let q: u128 = num / den;
        let r: u128 = num % den;
        assert(LOW <= q < HIGH) by (nonlinear_arith)
            requires
                q == num / den,
                den > 0,
                LOW * den <= num < HIGH * den,
        ;
        let m: u128 = if 2 * r < den || (2 * r == den && q % 2 == 0) {
            q
        } else {
            q + 1
        };
        Double { significand: m as u64, exponent: e }
    }

    /// The double nearest to `n`.
    pub fn from_integer(n: u64) -> (r: Double)
        ensures
            r@ == whole(n as nat),
            n > 0 ==> r.normal(),
            n == 0 ==> r.significand == 0,
            r.significand <= HIGH,
            -110 <= r.exponent <= 110,
    {
        if n == 0 {
            Double { significand: 0, exponent: 0 }
        } else {
            Double::from_ratio(n as u128, 1)
        }
    }

    /// The double nearest to `self / other`.
    pub fn divided_by(&self, other: &Double) -> (r: Double)
        requires
            self.wf(),
            other.wf(),
            other.significand > 0,
        ensures
            r@ == quotient(self@, other@),
            self.significand > 0 ==> r.normal(),
            self.significand == 0 ==> r.significand == 0,
            r.significand <= HIGH,
            r.exponent == 0 || -110 <= r.exponent - (self.exponent - other.exponent) <= 110,
    {
        let ghost k = other.exponent - self.exponent;
        if self.significand == 0 {
            assert(0 * pow2_down(k) == 0) by (nonlinear_arith);
            return Double { significand: 0, exponent: 0 };
        }
        assert(self.significand <= HIGH * HIGH) by (nonlinear_arith)
            requires
                self.significand <= HIGH,
        ;
        let r = Double::from_ratio(self.significand as u128, other.significand);
        proof {
            lemma_nearest_scaled(self.significand as nat, other.significand as nat, k);
        }
        Double {
            significand: r.significand,
            exponent: r.exponent + (self.exponent - other.exponent),
        }
    }

    /// The double nearest to `self * other`.
    pub fn times(&self, other: &Double) -> (r: Double)
        requires
            self.wf(),
            other.wf(),
        ensures
            r@ == product(self@, other@),
            self.significand > 0 && other.significand > 0 ==> r.normal(),
            r.significand <= HIGH,
            r.exponent == 0 || -110 <= r.exponent - (self.exponent + other.exponent) <= 110,
    {
        let ghost k = -self.exponent - other.exponent;
        if self.significand == 0 || other.significand == 0 {
            assert((self.significand * other.significand) * pow2_down(k) == 0) by (nonlinear_arith)
                requires
                    self.significand == 0 || other.significand == 0,
            ;
            return Double { significand: 0, exponent: 0 };
        }
        assert(0 < self.significand * other.significand <= HIGH * HIGH) by (nonlinear_arith)
            requires
                0 < self.significand <= HIGH,
                0 < other.significand <= HIGH,
        ;
        let both: u128 = (self.significand as u128) * (other.significand as u128);
        let r = Double::from_ratio(both, 1);
        proof {
            lemma_nearest_scaled(both as nat, 1, k);
        }
        Double {
            significand: r.significand,
            exponent: r.exponent + (self.exponent + other.exponent),
        }
    }

    /// The number in decimal with the given number of decimal places.
    pub fn to_fixed(&self, places: u32) -> (text: String)
        requires
            self.wf(),
            places <= 4,
        ensures
            text@ == fixed_text(self@, places as nat),
    {
        let ten: u128 = power_of_ten(places);
        let ghost e = self.exponent as int;
        let ghost x = self.significand as nat * ten as nat;
        proof {
            reveal_strlit(".");
        }
        if self.exponent >= 0 {
            let mut text = shifted_text(self.significand, self.exponent as u32);
            proof {
                lemma2_to64();
                let n = fixed_point(self@, places as nat);
                let whole_part = self.significand as nat * pow2(e as nat);
                assert(pow2_up(e) == pow2(e as nat));
                assert(n == x * pow2(e as nat) / 1);
                assert(x * pow2(e as nat) == whole_part * ten) by (nonlinear_arith)
                    requires
                        x == self.significand * ten,
                        whole_part == self.significand * pow2(e as nat),
                ;
                assert(whole_part * (ten as nat) / (ten as nat) == whole_part) by (nonlinear_arith)
                    requires
                        ten > 0,
                ;
                lemma_padded_multiple(whole_part, places as nat);
            }
            let ghost front = text@;
            if places > 0 {
                text.append(".");
                text.append(padded_text(0, places).as_str());
                assert(front + seq!['.'] == front.push('.'));
                assert(text@ == front.push('.') + padded(0, places as nat));
            } else {
                assert(fixed_point(self@, 0) == self.significand as nat * pow2(e as nat));
            }
            return text;
        }
        assert(x <= HIGH * 10_000) by (nonlinear_arith)
            requires
                x == self.significand * ten,
                self.significand <= HIGH,
                ten <= 10_000,
        ;
        let n: u128 = round_down_shift((self.significand as u128) * ten, (-self.exponent) as u32);
        assert(n == fixed_point(self@, places as nat)) by {
            assert(x * 1 == x);
            assert(1 * pow2((-e) as nat) == pow2((-e) as nat));
        }
        let mut text = decimal_text(n / ten);
        let ghost front = text@;
        assert(front == decimal(n as nat / pow10(places as nat)));
        if places > 0 {
            text.append(".");
            text.append(padded_text(n, places).as_str());
            assert(front + seq!['.'] == front.push('.'));
            assert(text@ == front.push('.') + padded(n as nat, places as nat));
        } else {
            assert(pow10(0) == 1);
            assert(n as nat / 1 == n);
        }
        text
    }

    /// The nearest integer, ties going up, capped at the greatest 64-bit integer.
    pub fn to_integer(&self) -> (n: u64)
        requires
            self.wf(),
        ensures
            n == saturated(self@),
    {
        let ghost e = self.exponent as int;
        let m: u128 = self.significand as u128;
        proof {
            lemma2_to64();
            lemma2_to64_rest();
        }
        if self.exponent >= 0 {
            assert(saturated(self@) <= u64::MAX);
            assert(half_up(scaled_num(m as nat, -e), scaled_den(1, -e)) == m * pow2(e as nat)) by {
                assert(pow2_up(e) == pow2(e as nat));
                let v = m * pow2(e as nat);
                assert((2 * v + 1) / 2 == v) by (nonlinear_arith);
            }
            if self.significand == 0 {
                assert(0 * pow2(e as nat) == 0) by (nonlinear_arith);
                return 0;
            }
            if self.exponent >= 64 {
                proof {
                    if e > 64 {
                        lemma_pow2_strictly_increases(64, e as nat);
                    }
                    assert(m * pow2(e as nat) > u64::MAX) by (nonlinear_arith)
                        requires
                            m > 0,
                            pow2(e as nat) > u64::MAX,
                    ;
                }
                return u64::MAX;
            }
            let p: u128 = power_of_two(self.exponent as u32);
            assert(p <= 0x8000_0000_0000_0000) by {
                if e < 63 {
                    lemma_pow2_strictly_increases(e as nat, 63);
                }
            }
            assert(m * p <= HIGH * 0x8000_0000_0000_0000) by (nonlinear_arith)
                requires
                    m <= HIGH,
                    p <= 0x8000_0000_0000_0000,
            ;
            let v: u128 = m * p;
            return if v <= u64::MAX as u128 { v as u64 } else { u64::MAX };
        }
        let k: u32 = (-self.exponent) as u32;
        assert(scaled_num(m as nat, -e) == m && scaled_den(1, -e) == pow2(k as nat)) by {
            assert(m * 1 == m);
            assert(1 * pow2(k as nat) == pow2(k as nat));
        }
        if k >= 60 {
            proof {
                if k > 60 {
                    lemma_pow2_strictly_increases(60, k as nat);
                }
                let p = pow2(k as nat);
                assert((2 * m + p) / (2 * p) as int == 0) by (nonlinear_arith)
                    requires
                        2 * m < p,
                ;
            }
            return 0;
        }
        let p: u128 = power_of_two(k);
        assert(2 <= p < 0x1000_0000_0000_0000) by {
            lemma_pow2_strictly_increases(k as nat, 60);
            if k > 1 {
                lemma_pow2_strictly_increases(1, k as nat);
            }
        }
        let n: u128 = (2 * m + p) / (2 * p);
        assert(n <= 2 * m + p) by (nonlinear_arith)
            requires
                n == (2 * m + p) / (2 * p) as int,
                p > 0,
        ;
        n as u64
    }
}

/// `10^places`.
fn power_of_ten(places: u32) -> (r: u128)
    requires
        places <= 4,
    ensures
        r == pow10(places as nat),
        1 <= r <= 10_000,
{
    reveal_with_fuel(pow10, 5);
    match places {
        0 => 1,
        1 => 10,
        2 => 100,
        3 => 1_000,
        _ => 10_000,
    }
}

/// `2^k`.
fn power_of_two(k: u32) -> (r: u128)
    requires
        k <= 100,
    ensures
        r == pow2(k as nat),
        r > 0,
{
    let mut r: u128 = 1;
    let mut i: u32 = 0;
    proof {
        lemma2_to64();
        lemma2_to64_rest();
    }
    while i < k
        invariant
            i <= k <= 100,
            r == pow2(i as nat),
            r > 0,
        decreases k - i,
    {
        proof {
            lemma2_to64_rest();
            lemma_pow2_adds(60, 40);
            lemma_pow2_unfold((i + 1) as nat);
            lemma_pow2_strictly_increases(i as nat, 100);
        }
        r = r * 2;
        i = i + 1;
    }
    r
}

/// `x / 2^k` rounded to the nearest integer, ties going to the even one.
fn round_down_shift(x: u128, k: u32) -> (n: u128)
    requires
        x <= HIGH * 10_000,
        k > 0,
    ensures
        n == half_even(x as nat, pow2(k as nat)),
{
    if k >= 100 {
        proof {
            lemma2_to64_rest();
            lemma_pow2_adds(60, 40);
            if k > 100 {
                lemma_pow2_strictly_increases(100, k as nat);
            }
            let p = pow2(k as nat);
            assert(x as nat / p == 0 && x as nat % p == x) by (nonlinear_arith)
                requires
                    x < p,
            ;
        }
        return 0;
    }
    let p: u128 = power_of_two(k);
    proof {
        lemma2_to64_rest();
        lemma_pow2_adds(60, 40);
        lemma_pow2_strictly_increases(k as nat, 100);
    }
    let q: u128 = x / p;
    let r: u128 = x % p;
    if 2 * r < p || (2 * r == p && q % 2 == 0) {
        q
    } else {
        q + 1
    }
}

/// The last `width` digits of a multiple of `10^width` are zeros.
proof fn lemma_padded_multiple(t: nat, width: nat)
    ensures
        padded(t * pow10(width), width) == padded(0, width),
    decreases width,
{
    if width > 0 {
        let p = pow10((width - 1) as nat);
        lemma_padded_multiple(t, (width - 1) as nat);
        assert(t * (10 * p) == 10 * (t * p)) by (nonlinear_arith);
    }
}

/// One step up doubles the denominator of a ratio that is not scaled down.
proof fn lemma_den_doubles(d: nat, e: int)
    requires
        e >= 0,
    ensures
        scaled_den(d, e + 1) == 2 * scaled_den(d, e),
{
    lemma2_to64();
    lemma_pow2_unfold((e + 1) as nat);
    assert(d * (2 * pow2_up(e)) == 2 * (d * pow2_up(e))) by (nonlinear_arith);
}

/// One step down doubles the numerator of a ratio that is not scaled up.
proof fn lemma_num_doubles(n: nat, e: int)
    requires
        e <= 0,
    ensures
        scaled_num(n, e - 1) == 2 * scaled_num(n, e),
{
    lemma2_to64();
    lemma_pow2_unfold((1 - e) as nat);
    assert(n * (2 * pow2_down(e)) == 2 * (n * pow2_down(e))) by (nonlinear_arith);
}

} // verus!
