//! Single precision arithmetic on integers.
//!
//! The compressor steers by a ratio held in IEEE 754 single precision. This module computes
//! the few roundings it needs with integers: a positive quotient is rounded to the nearest
//! single, ties to the even significand, and is held as the bit pattern of that single. The
//! bit patterns of positive singles are ordered as the singles are.

use vstd::prelude::*;
use vstd::arithmetic::power2::pow2;
use vstd::arithmetic::power2::lemma2_to64;
use vstd::arithmetic::power2::lemma_pow2_pos;
use vstd::arithmetic::power2::lemma_pow2_unfold;
use vstd::arithmetic::power2::lemma_pow2_adds;
use vstd::arithmetic::power2::lemma_pow2_strictly_increases;

verus! {

/// `2^e` is the weight of the last place of `num / den` in a significand of 24 bits.
pub open spec fn last_place(num: nat, den: nat, e: int) -> bool {
    if e >= 0 {
        0x80_0000 * (den * pow2(e as nat)) <= num < 0x100_0000 * (den * pow2(e as nat))
    } else {
        0x80_0000 * den <= num * pow2((-e) as nat) < 0x100_0000 * den
    }
}

/// `n / d` rounded to the nearest integer, a tie to the even one.
pub open spec fn half_even(n: nat, d: nat) -> nat {
    let q = n / d;
    let twice = 2 * (n % d);
    if twice < d {
        q
    } else if twice > d {
        q + 1
    } else {
        q + q % 2
    }
}

/// The significand of `num / den` when its last place weighs `2^e`.
pub open spec fn significand(num: nat, den: nat, e: int) -> nat {
    if e >= 0 {
        half_even(num, den * pow2(e as nat))
    } else {
        half_even(num * pow2((-e) as nat), den)
    }
}

/// Bit pattern of the single nearest to `num / den`, for a positive quotient in the range of
/// the normal singles. A significand that rounds up to `2^24` carries into the exponent.
pub open spec fn quotient_bits(num: nat, den: nat) -> int {
    let e = choose|e: int| last_place(num, den, e);
    (e + 149) * 0x80_0000 + significand(num, den, e)
}

/// The integer `x` rounded to single precision, which is an integer again.
pub open spec fn rounded_integer(x: nat) -> nat {
    if x < 0x100_0000 {
        x
    } else {
        let e = choose|e: int| last_place(x, 1, e);
        significand(x, 1, e) * pow2(e as nat)
    }
}

/// A positive quotient has at most one last place.
pub proof fn lemma_last_place_unique(num: nat, den: nat, e: int, f: int)
    requires
        den > 0,
        last_place(num, den, e),
        last_place(num, den, f),
    ensures
        e == f,
{
    lemma_last_place_ordered(num, den, e, f);
    lemma_last_place_ordered(num, den, f, e);
}

proof fn lemma_last_place_ordered(num: nat, den: nat, e: int, f: int)
    requires
        den > 0,
        last_place(num, den, e),
        last_place(num, den, f),
    ensures
        e >= f,
{
    if e >= f {
        return;
    }
    if e >= 0 {
        let a = pow2(e as nat);
        let k = pow2((f - e) as nat);
        lemma_pow2_adds(e as nat, (f - e) as nat);
        lemma_pow2_unfold((f - e) as nat);
        lemma_pow2_pos((f - e - 1) as nat);
        assert(pow2(f as nat) == a * k);
        assert(den * (a * k) >= 2 * (den * a)) by (nonlinear_arith)
            requires k >= 2, den > 0, a >= 0;
    } else if f >= 0 {
        let a = pow2((-e) as nat);
        let k = pow2(f as nat);
        lemma_pow2_unfold((-e) as nat);
        lemma_pow2_pos((-e - 1) as nat);
        lemma_pow2_pos(f as nat);
        assert(den * k >= den) by (nonlinear_arith) requires k >= 1, den > 0;
        assert(num * a >= 2 * num) by (nonlinear_arith) requires a >= 2, num >= 0;
    } else {
        let a = pow2((-f) as nat);
        let k = pow2((f - e) as nat);
        lemma_pow2_adds((-f) as nat, (f - e) as nat);
        lemma_pow2_unfold((f - e) as nat);
        lemma_pow2_pos((f - e - 1) as nat);
        assert(pow2((-e) as nat) == a * k);
        assert(num * (a * k) >= 2 * (num * a)) by (nonlinear_arith)
            requires k >= 2, num >= 0, a >= 0;
    }
}

proof fn lemma_exponent_below(e: nat, bound: nat)
    requires
        pow2(e) < pow2(bound),
    ensures
        e < bound,
{
    if e > bound {
        lemma_pow2_strictly_increases(bound, e);
    }
}

/// Rounds `n / d` to the nearest integer, a tie to the even one.
pub fn divide_half_even(n: u128, d: u128) -> (q: u128)
    requires
        0 < d < 0x8000_0000_0000_0000_0000_0000_0000_0000,
        n < 0x8000_0000_0000_0000_0000_0000_0000_0000,
    ensures
        q == half_even(n as nat, d as nat),
        n / d <= q <= n / d + 1,
{
    let q: u128 = n / d;
    let twice: u128 = 2 * (n % d);
    assert(q <= n) by (nonlinear_arith)
        requires d > 0, q == n / d, n >= 0;
    if twice < d {
        q
    } else if twice > d {
        q + 1
    } else {
        q + q % 2
    }
}

/// Bit pattern of the single nearest to `num / den`.
pub fn quotient(num: u64, den: u128) -> (bits: u32)
    requires
        0 < num < 0x1000_0000,
        0 < den <= 0x8_0000_0000_0000_0000,
    ensures
        bits == quotient_bits(num as nat, den as nat),
{
    let mut n: u128 = num as u128;
    let mut d: u128 = den;
    let mut e: i32 = 0;
    proof {
        lemma2_to64();
        assert(den * pow2(0) == den);
    }
    while n >= d * 0x100_0000
        invariant
            n == num,
            0 < n < 0x1000_0000,
            0 < den,
            0 < d <= 0x8_0000_0000_0000_0000,
            0 <= e <= 28,
            d == den * pow2(e as nat),
            e > 0 ==> n >= d * 0x80_0000,
        decreases n - d,
    {
        d = d * 2;
        proof {
            lemma2_to64();
            lemma_pow2_unfold((e + 1) as nat);
            let k = pow2(e as nat);
            assert(den * (2 * k) == 2 * (den * k)) by (nonlinear_arith);
            assert(den * k >= k) by (nonlinear_arith) requires den > 0, k >= 0;
            lemma_exponent_below(e as nat, 28);
        }
        e = e + 1;
    }
    while n < d * 0x80_0000
        invariant
            0 < num,
            0 < n < d * 0x100_0000,
            0 < d <= 0x8_0000_0000_0000_0000,
            -100 <= e <= 28,
            e >= 0 ==> n == num && d == den * pow2(e as nat),
            e < 0 ==> d == den && n == num * pow2((-e) as nat),
            e > 0 ==> n >= d * 0x80_0000,
        decreases d * 0x100_0000 - n,
    {
        proof {
            lemma2_to64();
            lemma_pow2_unfold((1 - e) as nat);
            let k = pow2((-e) as nat);
            assert(num * (2 * k) == 2 * (num * k)) by (nonlinear_arith);
            assert(num * k >= k) by (nonlinear_arith) requires num > 0, k >= 0;
            lemma_pow2_adds(64, 32);
            lemma_exponent_below((-e) as nat, 96);
        }
        n = n * 2;
        e = e - 1;
    }
    assert(last_place(num as nat, den as nat, e as int));
    proof {
        lemma_last_place_unique(
            num as nat,
            den as nat,
            e as int,
            choose|f: int| last_place(num as nat, den as nat, f),
        );
        assert(n / d < 0x100_0000) by (nonlinear_arith)
            requires n < d * 0x100_0000, d > 0;
    }
    let m: u128 = divide_half_even(n, d);
    (e + 149) as u32 * 0x80_0000 + m as u32
}

/// Rounds an integer to single precision.
pub fn round_integer(x: u128) -> (r: u128)
    requires
        x < 0x1_0000_0000_0000_0000,
    ensures
        r == rounded_integer(x as nat),
        r <= 0x1_0000_0000_0000_0000,
        r <= x + x / 0x80_0000,
        x > 0 ==> r > 0,
{
    if x < 0x100_0000 {
        return x;
    }
    let mut d: u128 = 1;
    let ghost mut e: int = 0;
    proof {
        lemma2_to64();
    }
    while x >= d * 0x100_0000
        invariant
            0x100_0000 <= x < 0x1_0000_0000_0000_0000,
            0 < d <= 0x1_0000_0000_0000_0000,
            0 <= e,
            d == 1 * pow2(e as nat),
            x >= d * 0x80_0000,
        decreases x - d,
    {
        proof {
            lemma_pow2_unfold((e + 1) as nat);
            e = e + 1;
        }
        d = d * 2;
    }
    assert(last_place(x as nat, 1, e));
    proof {
        lemma_last_place_unique(x as nat, 1, e, choose|f: int| last_place(x as nat, 1, f));
    }
    let m: u128 = divide_half_even(x, d);
    proof {
        lemma_rounded_bound(x as nat, d as nat, m as nat, e as nat);
    }
    m * d
}

/// Rounding never passes the power of two above.
proof fn lemma_rounded_bound(x: nat, d: nat, m: nat, e: nat)
    requires
        d == pow2(e),
        0 < x < 0x1_0000_0000_0000_0000,
        0x80_0000 * d <= x < 0x100_0000 * d,
        x / d <= m <= x / d + 1,
    ensures
        0 < m * d <= 0x1_0000_0000_0000_0000,
        m * d <= x + x / 0x80_0000,
{
    lemma2_to64();
    lemma_pow2_pos(e);
    assert(0x80_0000 <= x / d < 0x100_0000) by (nonlinear_arith)
        requires
            0x80_0000 * d <= x < 0x100_0000 * d,
            d > 0,
    ;
    lemma_pow2_adds(20, 20);
    lemma_pow2_adds(20, 21);
    lemma_exponent_below(e, 41);
    if e < 40 {
        lemma_pow2_strictly_increases(e, 40);
    }
    assert(0 < m * d <= 0x100_0000 * 0x100_0000_0000) by (nonlinear_arith)
        requires
            0 < m <= 0x100_0000,
            0 < d <= 0x100_0000_0000,
    ;
    assert(m * d <= x + d) by (nonlinear_arith)
        requires
            m <= x / d + 1,
            d > 0,
    ;
}

/// In a running sum of steps of three the rounding stops the growth at `2^26`.
pub proof fn lemma_sum_stops(x: nat)
    requires
        x <= 0x400_0003,
    ensures
        rounded_integer(x) <= 0x400_0000,
{
    lemma2_to64();
    if x >= 0x400_0000 {
        assert(last_place(x, 1, 3));
        lemma_last_place_unique(x, 1, 3, choose|f: int| last_place(x, 1, f));
        assert(half_even(x, 8) == 0x80_0000);
        let m = significand(x, 1, 3);
        assert(m == half_even(x, 8));
        assert(m * pow2(3) <= 0x400_0000) by (nonlinear_arith)
            requires
                m <= 0x80_0000,
                pow2(3) == 8,
        ;
    } else if x >= 0x200_0000 {
        assert(last_place(x, 1, 2));
        lemma_last_place_unique(x, 1, 2, choose|f: int| last_place(x, 1, f));
        assert(half_even(x, 4) <= 0x100_0000);
        let m = significand(x, 1, 2);
        assert(m == half_even(x, 4));
        assert(m * pow2(2) <= 0x400_0000) by (nonlinear_arith)
            requires
                m <= 0x100_0000,
                pow2(2) == 4,
        ;
    } else if x >= 0x100_0000 {
        assert(last_place(x, 1, 1));
        lemma_last_place_unique(x, 1, 1, choose|f: int| last_place(x, 1, f));
        assert(half_even(x, 2) <= 0x100_0000);
        let m = significand(x, 1, 1);
        assert(m == half_even(x, 2));
        assert(m * pow2(1) <= 0x400_0000) by (nonlinear_arith)
            requires
                m <= 0x100_0000,
                pow2(1) == 2,
        ;
    }
}

/// Every positive quotient has a last place.
pub proof fn lemma_last_place_exists(num: nat, den: nat) -> (e: int)
    requires
        num > 0,
        den > 0,
    ensures
        last_place(num, den, e),
        num >= 0x80_0000 * den ==> e >= 0,
        num < 0x100_0000 * den ==> e <= 0,
    decreases
            if num >= 0x100_0000 * den {
                num - den
            } else if num < 0x80_0000 * den {
                0x100_0000 * den - num
            } else {
                0
            },
{
    lemma2_to64();
    if num >= 0x100_0000 * den {
        let e = lemma_last_place_exists(num, 2 * den);
        let k = pow2(e as nat);
        lemma_pow2_unfold((e + 1) as nat);
        assert(den * (2 * k) == (2 * den) * k) by (nonlinear_arith);
        e + 1
    } else if num < 0x80_0000 * den {
        let e = lemma_last_place_exists(2 * num, den);
        let k = pow2((-e) as nat);
        lemma_pow2_unfold((1 - e) as nat);
        assert((1 - e - 1) as nat == (-e) as nat);
        assert(num * (2 * k) == (2 * num) * k) by (nonlinear_arith);
        if e == 0 {
            assert(den * pow2(0) == den);
            assert((2 * num) * k == 2 * num);
        }
        assert(-(e - 1) == 1 - e);
        e - 1
    } else {
        assert(den * pow2(0) == den);
        0
    }
}

/// What rounding to the nearest integer, ties to even, amounts to without a division: the
/// result is at most a half away from the quotient, and even where it is exactly that.
pub proof fn law_half_even(n: nat, d: nat)
    requires
        d > 0,
    ensures
        2 * n <= (2 * half_even(n, d) + 1) * d,
        2 * n >= (2 * half_even(n, d) - 1) * d,
        2 * n == (2 * half_even(n, d) + 1) * d ==> half_even(n, d) % 2 == 0,
        2 * n == (2 * half_even(n, d) - 1) * d ==> half_even(n, d) % 2 == 0,
{
    let q = n / d;
    let r = n % d;
    let h = half_even(n, d);
    assert(n == q * d + r && 0 <= r < d) by (nonlinear_arith)
        requires
            q == n / d,
            r == n % d,
            d > 0,
    ;
    assert((2 * h + 1) * d == 2 * (h * d) + d) by (nonlinear_arith);
    assert((2 * h - 1) * d == 2 * (h * d) - d) by (nonlinear_arith);
    assert((q + 1) * d == q * d + d) by (nonlinear_arith);
}

/// Rounding to the nearest integer keeps the order.
proof fn lemma_half_even_monotone(n1: nat, d1: nat, n2: nat, d2: nat)
    requires
        d1 > 0,
        d2 > 0,
        n1 * d2 <= n2 * d1,
    ensures
        half_even(n1, d1) <= half_even(n2, d2),
{
    let h1 = half_even(n1, d1);
    let h2 = half_even(n2, d2);
    law_half_even(n1, d1);
    law_half_even(n2, d2);
    if h1 > h2 {
        let low = 2 * h1 - 1;
        let high = 2 * h2 + 1;
        assert(low >= high);
        assert(2 * n1 == low * d1 && 2 * n2 == high * d2 && low == high) by (nonlinear_arith)
            requires
                n1 * d2 <= n2 * d1,
                2 * n1 >= low * d1,
                2 * n2 <= high * d2,
                low >= high,
                high >= 1,
                d1 > 0,
                d2 > 0,
        ;
    }
}

/// A last place, with both sides scaled so that no exponent is negative.
proof fn lemma_last_place_scaled(num: nat, den: nat, e: int, k: nat)
    requires
        last_place(num, den, e),
        e + k >= 0,
    ensures
        0x80_0000 * (den * pow2((e + k) as nat)) <= num * pow2(k) < 0x100_0000 * (den * pow2(
            (e + k) as nat,
        )),
        significand(num, den, e) == half_even(num * pow2(k), den * pow2((e + k) as nat)),
        den > 0 ==> den * pow2((e + k) as nat) > 0,
{
    lemma_pow2_pos(k);
    lemma_pow2_pos((e + k) as nat);
    if den > 0 {
        let p = pow2((e + k) as nat);
        assert(den * p > 0) by (nonlinear_arith) requires den > 0, p > 0;
    }
    if e >= 0 {
        let n = num;
        let d = den * pow2(e as nat);
        let c = pow2(k);
        lemma_pow2_adds(e as nat, k);
        let b = pow2(e as nat);
        assert(den * (b * c) == d * c) by (nonlinear_arith) requires d == den * b;
        lemma_scale(n, d, c);
    } else {
        let n = num * pow2((-e) as nat);
        let d = den;
        let c = pow2((e + k) as nat);
        lemma_pow2_adds((-e) as nat, (e + k) as nat);
        let b = pow2((-e) as nat);
        assert(num * (b * c) == n * c) by (nonlinear_arith) requires n == num * b;
        lemma_scale(n, d, c);
    }
}

/// Scaling both sides of a quotient changes neither its bounds nor its rounding.
proof fn lemma_scale(n: nat, d: nat, c: nat)
    requires
        c > 0,
        0x80_0000 * d <= n < 0x100_0000 * d,
    ensures
        0x80_0000 * (d * c) <= n * c < 0x100_0000 * (d * c),
        half_even(n * c, d * c) == half_even(n, d),
{
    assert(0x80_0000 * (d * c) <= n * c < 0x100_0000 * (d * c)) by (nonlinear_arith)
        requires
            c > 0,
            0x80_0000 * d <= n < 0x100_0000 * d,
    ;
    assert(d * c > 0) by (nonlinear_arith) requires d > 0, c > 0;
    assert((n * c) * d == n * (d * c)) by (nonlinear_arith);
    lemma_half_even_monotone(n * c, d * c, n, d);
    lemma_half_even_monotone(n, d, n * c, d * c);
}

/// The bit patterns are ordered as the quotients are: a quotient that is not larger does not
/// have a larger bit pattern.
pub proof fn law_quotient_monotone(num1: nat, den1: nat, num2: nat, den2: nat)
    requires
        num1 > 0,
        den1 > 0,
        num2 > 0,
        den2 > 0,
        num1 * den2 <= num2 * den1,
    ensures
        quotient_bits(num1, den1) <= quotient_bits(num2, den2),
{
    let e1 = lemma_last_place_exists(num1, den1);
    let e2 = lemma_last_place_exists(num2, den2);
    lemma_last_place_unique(num1, den1, e1, choose|f: int| last_place(num1, den1, f));
    lemma_last_place_unique(num2, den2, e2, choose|f: int| last_place(num2, den2, f));
    let k: nat = (if e1 < 0 {
        -e1
    } else {
        0
    } + if e2 < 0 {
        -e2
    } else {
        0
    }) as nat;
    lemma_last_place_scaled(num1, den1, e1, k);
    lemma_last_place_scaled(num2, den2, e2, k);
    lemma_pow2_pos(k);
    let c = pow2(k);
    let n1 = num1 * c;
    let n2 = num2 * c;
    let p1 = pow2((e1 + k) as nat);
    let p2 = pow2((e2 + k) as nat);
    lemma_pow2_pos((e1 + k) as nat);
    lemma_pow2_pos((e2 + k) as nat);
    assert(n1 * den2 <= n2 * den1) by (nonlinear_arith)
        requires
            n1 == num1 * c,
            n2 == num2 * c,
            num1 * den2 <= num2 * den1,
            c > 0,
    ;
    if e1 == e2 {
        assert(n1 * (den2 * p2) <= n2 * (den1 * p1)) by (nonlinear_arith)
            requires
                n1 * den2 <= n2 * den1,
                p1 == p2,
                p1 > 0,
        ;
        lemma_half_even_monotone(n1, den1 * p1, n2, den2 * p2);
    } else if e1 < e2 {
        lemma_significand_bounds(n1, den1 * p1);
        lemma_significand_bounds(n2, den2 * p2);
    } else {
        let up = pow2((e1 - e2) as nat);
        lemma_pow2_adds((e2 + k) as nat, (e1 - e2) as nat);
        lemma_pow2_unfold((e1 - e2) as nat);
        lemma_pow2_pos((e1 - e2 - 1) as nat);
        assert(p1 >= 2 * p2) by (nonlinear_arith)
            requires
                p1 == p2 * up,
                up >= 2,
                p2 > 0,
        ;
        assert(n1 * den2 > n2 * den1) by (nonlinear_arith)
            requires
                n1 >= 0x80_0000 * (den1 * p1),
                n2 < 0x100_0000 * (den2 * p2),
                p1 >= 2 * p2,
                p2 > 0,
                den1 > 0,
                den2 > 0,
        ;
    }
}

/// A significand has 24 bits, or has been rounded up to the next power of two.
proof fn lemma_significand_bounds(n: nat, d: nat)
    requires
        d > 0,
        0x80_0000 * d <= n < 0x100_0000 * d,
    ensures
        0x80_0000 <= half_even(n, d) <= 0x100_0000,
{
    assert(0x80_0000 <= n / d < 0x100_0000) by (nonlinear_arith)
        requires
            d > 0,
            0x80_0000 * d <= n < 0x100_0000 * d,
    ;
}

/// A positive integer stays positive.
pub proof fn lemma_rounded_positive(x: nat)
    requires
        x > 0,
    ensures
        rounded_integer(x) > 0,
{
    if x >= 0x100_0000 {
        let e = lemma_last_place_exists(x, 1);
        lemma_last_place_unique(x, 1, e, choose|f: int| last_place(x, 1, f));
        let p = pow2(e as nat);
        lemma_pow2_pos(e as nat);
        lemma_significand_bounds(x, 1 * p);
        let m = significand(x, 1, e);
        assert(m * p > 0) by (nonlinear_arith) requires m > 0, p > 0;
    }
}

/// The bit pattern holds the single nearest to the quotient. With the significand `m` and the
/// exponent `e` that the pattern holds, the quotient is at most half of `2^e` away from
/// `m * 2^e`, and `m` is even where it is exactly that; below a power of two, where singles are
/// twice as dense, at most a quarter. Both sides are scaled by `2^k` so that no exponent is
/// negative.
pub proof fn law_quotient_nearest(num: nat, den: nat, k: nat)
    requires
        num > 0,
        den > 0,
        quotient_bits(num, den) / 0x80_0000 - 150 + k >= 1,
    ensures
        ({
            let m = 0x80_0000 + quotient_bits(num, den) % 0x80_0000;
            let e = quotient_bits(num, den) / 0x80_0000 - 150;
            let n = num * pow2(k);
            let d = den * pow2((e + k) as nat);
            &&& (2 * m - 1) * d <= 2 * n <= (2 * m + 1) * d
            &&& 2 * n == (2 * m - 1) * d || 2 * n == (2 * m + 1) * d ==> m % 2 == 0
            &&& m == 0x80_0000 ==> 4 * n >= (4 * m - 1) * d
        }),
{
    let bits = quotient_bits(num, den);
    let m = 0x80_0000 + bits % 0x80_0000;
    let e = bits / 0x80_0000 - 150;
    let place = lemma_last_place_exists(num, den);
    lemma_last_place_unique(num, den, place, choose|f: int| last_place(num, den, f));
    let n = num * pow2(k);
    assert(place + k >= 0) by {
        lemma_significand_in_range(num, den, place);
    }
    lemma_significand_in_range(num, den, place);
    lemma_last_place_scaled(num, den, place, k);
    let d = den * pow2((place + k) as nat);
    let rounded = significand(num, den, place) as int;
    law_half_even(n, d);
    assert(bits == (place + 149) * 0x80_0000 + rounded);
    if rounded < 0x100_0000 {
        assert(e == place && m == rounded);
        assert(half_even(n, d) == m);
        if m == 0x80_0000 {
            assert((4 * m - 1) * d == 0x1ff_ffff * d);
        }
    } else {
        assert(e == place + 1 && m == 0x80_0000);
        let wide = den * pow2((e + k) as nat);
        lemma_pow2_unfold((e + k) as nat);
        let p = pow2((place + k) as nat);
        assert((e + k - 1) as nat == (place + k) as nat);
        assert(den * (2 * p) == 2 * (den * p)) by (nonlinear_arith);
        assert(wide == 2 * d);
        assert(half_even(n, d) == 0x100_0000);
        assert((2 * half_even(n, d) - 1) * d == 0x1ff_ffff * d);
        assert((2 * m - 1) * wide == 0xff_ffff * wide);
        assert((2 * m + 1) * wide == 0x100_0001 * wide);
        assert((4 * m - 1) * wide == 0x1ff_ffff * wide);
    }
}

/// The significand at the last place has 24 bits, or has been rounded up to `2^24`.
proof fn lemma_significand_in_range(num: nat, den: nat, e: int)
    requires
        den > 0,
        last_place(num, den, e),
    ensures
        0x80_0000 <= significand(num, den, e) <= 0x100_0000,
{
    if e >= 0 {
        let p = pow2(e as nat);
        lemma_pow2_pos(e as nat);
        assert(den * p > 0) by (nonlinear_arith) requires den > 0, p > 0;
        lemma_significand_bounds(num, den * p);
    } else {
        lemma_significand_bounds(num * pow2((-e) as nat), den);
    }
}

/// An integer of at most 24 bits is kept. Of a larger one 24 bits are kept, `m` at the weight
/// `2^e`: the result is at most half of that weight away, and `m` is even where it is exactly
/// that.
pub proof fn law_rounded_integer(x: nat) -> (place: (nat, nat))
    ensures
        x < 0x100_0000 ==> rounded_integer(x) == x,
        x >= 0x100_0000 ==> {
            let (m, e) = place;
            &&& 0x80_0000 <= m <= 0x100_0000
            &&& 0x80_0000 * pow2(e) <= x < 0x100_0000 * pow2(e)
            &&& rounded_integer(x) == m * pow2(e)
            &&& 2 * x - pow2(e) <= 2 * rounded_integer(x) <= 2 * x + pow2(e)
            &&& 2 * rounded_integer(x) == 2 * x - pow2(e) ==> m % 2 == 0
            &&& 2 * rounded_integer(x) == 2 * x + pow2(e) ==> m % 2 == 0
        },
{
    if x < 0x100_0000 {
        (0, 0)
    } else {
        let e = lemma_last_place_exists(x, 1);
        lemma_last_place_unique(x, 1, e, choose|f: int| last_place(x, 1, f));
        let p = pow2(e as nat);
        lemma_pow2_pos(e as nat);
        lemma_significand_bounds(x, p);
        law_half_even(x, p);
        let m = half_even(x, p);
        assert(1 * p == p);
        assert(m == significand(x, 1, e));
        assert((2 * m + 1) * p == 2 * (m * p) + p) by (nonlinear_arith);
        assert((2 * m - 1) * p == 2 * (m * p) - p) by (nonlinear_arith);
        (m, e as nat)
    }
}

} // verus!
