//! Ratios of natural numbers, scaled by powers of two and rounded to integers.
use vstd::arithmetic::power2::{lemma2_to64, lemma_pow2_adds, lemma_pow2_pos, pow2};
use vstd::prelude::*;

verus! {

/// `2^k` where `k` is positive, else 1.
pub open spec fn pow2_up(k: int) -> nat {
    if k > 0 {
        pow2(k as nat)
    } else {
        1
    }
}

/// `2^(-k)` where `k` is negative, else 1.
pub open spec fn pow2_down(k: int) -> nat {
    pow2_up(-k)
}

/// The numerator of `(n / d) / 2^k`.
pub open spec fn scaled_num(n: nat, k: int) -> nat {
    n * pow2_down(k)
}

/// The denominator of `(n / d) / 2^k`.
pub open spec fn scaled_den(d: nat, k: int) -> nat {
    d * pow2_up(k)
}

/// `n / d` rounded to the nearest integer, a tie going to the even one.
pub open spec fn half_even(n: nat, d: nat) -> nat {
    let q = n / d;
    let r = n % d;
    if 2 * r < d || (2 * r == d && q % 2 == 0) {
        q
    } else {
        q + 1
    }
}

/// `n / d` rounded to the nearest integer, a tie going up.
pub open spec fn half_up(n: nat, d: nat) -> nat {
    (2 * n + d) / (2 * d)
}

/// `q` is a nearest integer to `n / d`, and the even one on a tie.
pub open spec fn is_half_even(n: nat, d: nat, q: nat) -> bool {
    &&& 2 * n <= 2 * (q * d) + d
    &&& 2 * (q * d) <= 2 * n + d
    &&& (2 * n == 2 * (q * d) + d || 2 * (q * d) == 2 * n + d) ==> q % 2 == 0
}

/// The powers of two behind a scaled ratio are positive.
pub proof fn lemma_pow2_up_pos(k: int)
    ensures
        pow2_up(k) > 0,
        pow2_down(k) > 0,
{
    if k > 0 {
        lemma_pow2_pos(k as nat);
    }
    if k < 0 {
        lemma_pow2_pos((-k) as nat);
    }
}

/// `2^a * 2^b = 2^(a + b)`, with each power written as a ratio.
pub proof fn lemma_pow2_ratio(a: int, b: int)
    ensures
        pow2_up(a) * pow2_up(b) * pow2_down(a + b) == pow2_down(a) * pow2_down(b) * pow2_up(a + b),
{
    lemma2_to64();
    if a >= 0 && b >= 0 {
        lemma_pow2_adds(a as nat, b as nat);
    } else if a <= 0 && b <= 0 {
        lemma_pow2_adds((-a) as nat, (-b) as nat);
        assert((-(a + b)) as nat == (-a) as nat + (-b) as nat);
    } else if a > 0 {
        if a + b >= 0 {
            lemma_pow2_adds((-b) as nat, (a + b) as nat);
        } else {
            lemma_pow2_adds(a as nat, (-(a + b)) as nat);
        }
    } else {
        if a + b >= 0 {
            lemma_pow2_adds((-a) as nat, (a + b) as nat);
        } else {
            lemma_pow2_adds(b as nat, (-(a + b)) as nat);
        }
    }
    let (ua, ub, uc) = (pow2_up(a), pow2_up(b), pow2_up(a + b));
    let (da, db, dc) = (pow2_down(a), pow2_down(b), pow2_down(a + b));
    assert(ua * ub * dc == da * db * uc) by (nonlinear_arith)
        requires
            ({
                ||| da == 1 && db == 1 && dc == 1 && ua * ub == uc
                ||| ua == 1 && ub == 1 && uc == 1 && da * db == dc
                ||| ub == 1 && da == 1 && dc == 1 && ua == db * uc
                ||| ub == 1 && da == 1 && uc == 1 && ua * dc == db
                ||| ua == 1 && db == 1 && dc == 1 && ub == da * uc
                ||| ua == 1 && db == 1 && uc == 1 && ub * dc == da
            }),
    ;
}

/// `half_even` gives a nearest integer, and the even one on a tie.
pub proof fn lemma_half_even(n: nat, d: nat)
    requires
        d > 0,
    ensures
        is_half_even(n, d, half_even(n, d)),
{
    let q = n / d;
    let r = n % d;
    assert(n == q * d + r && 0 <= r < d) by (nonlinear_arith)
        requires
            d > 0,
            q == n / d,
            r == n % d,
    ;
    assert((q + 1) * d == q * d + d) by (nonlinear_arith);
}

/// Only one integer is nearest in the sense of `is_half_even`.
pub proof fn lemma_half_even_unique(n: nat, d: nat, p: nat, q: nat)
    requires
        d > 0,
        is_half_even(n, d, p),
        is_half_even(n, d, q),
    ensures
        p == q,
{
    lemma_half_even_ordered(n, d, p, q);
    lemma_half_even_ordered(n, d, q, p);
}

proof fn lemma_half_even_ordered(n: nat, d: nat, p: nat, q: nat)
    requires
        d > 0,
        is_half_even(n, d, p),
        is_half_even(n, d, q),
    ensures
        p >= q,
{
    if q > p + 1 {
        assert(q * d >= p * d + 2 * d) by (nonlinear_arith)
            requires
                p + 2 <= q,
        ;
    } else if q == p + 1 {
        assert(q * d == p * d + d) by (nonlinear_arith)
            requires
                q == p + 1,
        ;
    }
}

/// What is nearest to a ratio is nearest to every equal ratio.
pub proof fn lemma_half_even_same_ratio(n: nat, d: nat, n2: nat, d2: nat)
    requires
        d > 0,
        d2 > 0,
        n * d2 == n2 * d,
    ensures
        half_even(n, d) == half_even(n2, d2),
{
    let q = half_even(n, d);
    lemma_half_even(n, d);
    lemma_half_even(n2, d2);
    let t = q * d;
    let t2 = q * d2;
    assert(t * d2 == t2 * d) by (nonlinear_arith)
        requires
            t == q * d,
            t2 == q * d2,
    ;
    assert((2 * n) * d2 == (2 * n2) * d) by (nonlinear_arith)
        requires
            n * d2 == n2 * d,
    ;
    assert((2 * n + d) * d2 == (2 * n2 + d2) * d) by (nonlinear_arith)
        requires
            n * d2 == n2 * d,
    ;
    assert((2 * t) * d2 == (2 * t2) * d) by (nonlinear_arith)
        requires
            t * d2 == t2 * d,
    ;
    assert((2 * t + d) * d2 == (2 * t2 + d2) * d) by (nonlinear_arith)
        requires
            t * d2 == t2 * d,
    ;
    lemma_compare_scaled(2 * n, 2 * t + d, 2 * n2, 2 * t2 + d2, d, d2);
    lemma_compare_scaled(2 * t, 2 * n + d, 2 * t2, 2 * n2 + d2, d, d2);
    assert(is_half_even(n2, d2, q));
    lemma_half_even_unique(n2, d2, q, half_even(n2, d2));
}

/// Comparing `x` and `y` is comparing `x2` and `y2` where both pairs are
/// proportional.
proof fn lemma_compare_scaled(x: nat, y: nat, x2: nat, y2: nat, d: nat, d2: nat)
    requires
        d > 0,
        d2 > 0,
        x * d2 == x2 * d,
        y * d2 == y2 * d,
    ensures
        x <= y <==> x2 <= y2,
        x == y <==> x2 == y2,
{
    assert(x <= y <==> x * d2 <= y * d2) by (nonlinear_arith)
        requires
            d2 > 0,
    ;
    assert(x2 <= y2 <==> x2 * d <= y2 * d) by (nonlinear_arith)
        requires
            d > 0,
    ;
    assert(y <= x <==> y * d2 <= x * d2) by (nonlinear_arith)
        requires
            d2 > 0,
    ;
    assert(y2 <= x2 <==> y2 * d <= x2 * d) by (nonlinear_arith)
        requires
            d > 0,
    ;
}

/// A greater ratio has no smaller nearest integer.
pub proof fn lemma_half_even_monotone(n: nat, d: nat, n2: nat, d2: nat)
    requires
        d > 0,
        d2 > 0,
        n * d2 <= n2 * d,
    ensures
        half_even(n, d) <= half_even(n2, d2),
{
    let (p, q) = (half_even(n, d), half_even(n2, d2));
    lemma_half_even(n, d);
    lemma_half_even(n2, d2);
    if p > q {
        assert((2 * p - 1) * d <= 2 * n) by (nonlinear_arith)
            requires
                2 * (p * d) <= 2 * n + d,
        ;
        assert(2 * n2 <= (2 * q + 1) * d2) by (nonlinear_arith)
            requires
                2 * n2 <= 2 * (q * d2) + d2,
        ;
        assert((2 * p - 1) * (d * d2) <= (2 * n) * d2) by (nonlinear_arith)
            requires
                (2 * p - 1) * d <= 2 * n,
                d2 > 0,
        ;
        assert((2 * n2) * d <= (2 * q + 1) * (d * d2)) by (nonlinear_arith)
            requires
                2 * n2 <= (2 * q + 1) * d2,
                d > 0,
        ;
        assert((2 * n) * d2 <= (2 * n2) * d) by (nonlinear_arith)
            requires
                n * d2 <= n2 * d,
        ;
        assert(d * d2 > 0) by (nonlinear_arith)
            requires
                d > 0,
                d2 > 0,
        ;
        assert(2 * p - 1 <= 2 * q + 1) by (nonlinear_arith)
            requires
                (2 * p - 1) * (d * d2) <= (2 * q + 1) * (d * d2),
                d * d2 > 0,
        ;
        assert(p == q + 1);
        assert(2 * n == (2 * p - 1) * d) by (nonlinear_arith)
            requires
                (2 * n) * d2 == (2 * p - 1) * (d * d2),
                d2 > 0,
        {
            assert((2 * n) * d2 == ((2 * p - 1) * d) * d2);
        }
        assert(2 * n2 == (2 * q + 1) * d2) by (nonlinear_arith)
            requires
                (2 * n2) * d == (2 * q + 1) * (d * d2),
                d > 0,
        {
            assert((2 * n2) * d == ((2 * q + 1) * d2) * d);
        }
        assert((2 * p - 1) * d == 2 * (p * d) - d) by (nonlinear_arith);
        assert((2 * q + 1) * d2 == 2 * (q * d2) + d2) by (nonlinear_arith);
        assert(p % 2 == 0 && q % 2 == 0);
    }
}

/// A greater ratio has no smaller nearest integer, ties going up.
pub proof fn lemma_half_up_monotone(n: nat, d: nat, n2: nat, d2: nat)
    requires
        d > 0,
        d2 > 0,
        n * d2 <= n2 * d,
    ensures
        half_up(n, d) <= half_up(n2, d2),
{
    let q = half_up(n, d);
    assert(q * (2 * d) <= 2 * n + d) by (nonlinear_arith)
        requires
            d > 0,
            q == (2 * n + d) / (2 * d),
    ;
    assert((q * (2 * d2)) * d <= (2 * n + d) * d2) by (nonlinear_arith)
        requires
            q * (2 * d) <= 2 * n + d,
            d2 > 0,
    {
        assert((q * (2 * d2)) * d == (q * (2 * d)) * d2);
    }
    assert((2 * n + d) * d2 <= (2 * n2 + d2) * d) by (nonlinear_arith)
        requires
            n * d2 <= n2 * d,
    ;
    assert(q * (2 * d2) <= 2 * n2 + d2) by (nonlinear_arith)
        requires
            (q * (2 * d2)) * d <= (2 * n2 + d2) * d,
            d > 0,
    ;
    assert(q <= (2 * n2 + d2) / (2 * d2)) by (nonlinear_arith)
        requires
            q * (2 * d2) <= 2 * n2 + d2,
            d2 > 0,
    ;
}

/// Where `x / 2^j` is at most `y / 2^k`, it is so with both written as ratios.
pub proof fn lemma_scaled_order(x: nat, y: nat, j: int, k: int)
    requires
        x * pow2_down(j - k) <= y * pow2_up(j - k),
    ensures
        scaled_num(x, j) * pow2_up(k) <= scaled_num(y, k) * pow2_up(j),
{
    let t = j - k;
    lemma_pow2_ratio(k, t);
    lemma_pow2_up_pos(k);
    lemma_pow2_up_pos(j);
    lemma_pow2_up_pos(t);
    let (uj, dj) = (pow2_up(j), pow2_down(j));
    let (uk, dk) = (pow2_up(k), pow2_down(k));
    let (ut, dt) = (pow2_up(t), pow2_down(t));
    assert(uk * ut * dj == dk * dt * uj);
    assert(((x * dj) * uk) * ut == (x * dt) * (dk * uj)) by (nonlinear_arith)
        requires
            uk * ut * dj == dk * dt * uj,
    {
        assert(((x * dj) * uk) * ut == x * (uk * ut * dj));
        assert((x * dt) * (dk * uj) == x * (dk * dt * uj));
    }
    assert((x * dt) * (dk * uj) <= (y * ut) * (dk * uj)) by (nonlinear_arith)
        requires
            x * dt <= y * ut,
            dk > 0,
            uj > 0,
    ;
    assert((y * ut) * (dk * uj) == ((y * dk) * uj) * ut) by (nonlinear_arith);
    assert((x * dj) * uk <= (y * dk) * uj) by (nonlinear_arith)
        requires
            ((x * dj) * uk) * ut <= ((y * dk) * uj) * ut,
            ut > 0,
    ;
}

} // verus!
