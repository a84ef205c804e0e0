//! Binary floating point, in integers.
//!
//! A few sizes and gray levels are defined by IEEE arithmetic in single or double
//! precision. This module computes them with integers: a positive number is a mantissa
//! times a power of two, and every operation rounds to nearest, ties to even. The
//! precision is given by its `unit`, the smallest normalized mantissa. Exponents are
//! unbounded here: no value the library forms comes near the range of either format.

use vstd::prelude::*;
use vstd::arithmetic::power2::{pow2, lemma_pow2_adds, lemma_pow2_pos, lemma_pow2_strictly_increases,
    lemma_pow2_unfold, lemma2_to64, lemma2_to64_rest};

verus! {

/// The unit of single precision: mantissas have 24 bits.
pub const SINGLE: u64 = 0x80_0000;

/// The unit of double precision: mantissas have 53 bits.
pub const DOUBLE: u64 = 0x10_0000_0000_0000;

/// The number `mantissa` times two to the `exponent`.
#[derive(Clone, Copy)]
pub struct Float {
    pub mantissa: u64,
    pub exponent: i32,
}

/// What a [`Float`] stands for.
pub struct Binary {
    pub mantissa: nat,
    pub exponent: int,
}

impl View for Float {
    type V = Binary;

    open spec fn view(&self) -> Binary {
        Binary { mantissa: self.mantissa as nat, exponent: self.exponent as int }
    }
}

/// The quotient of `n` by `d` rounded to the nearest integer, ties to even.
pub open spec fn nearest_even(n: nat, d: nat) -> nat {
    let q = n / d;
    let r = n % d;
    if 2 * r > d || (2 * r == d && q % 2 == 1) {
        q + 1
    } else {
        q
    }
}

/// Doubles the denominator `d`, counting in `e`, until `n / d` is below twice the unit.
pub open spec fn scale_down(unit: nat, n: nat, d: nat, e: int) -> (nat, int)
    decreases (if n >= 2 * (unit * d) { n - 2 * (unit * d) + 1 } else { 0 }),
{
    if 0 < d && 0 < unit && n >= 2 * (unit * d) {
        proof {
            assert(unit * (2 * d) == 2 * (unit * d)) by (nonlinear_arith);
            assert(unit * d > 0) by (nonlinear_arith)
                requires
                    unit > 0,
                    d > 0,
            ;
        }
        scale_down(unit, n, 2 * d, e + 1)
    } else {
        (d, e)
    }
}

/// Doubles the numerator `n`, counting down in `e`, until `n / d` reaches the unit.
pub open spec fn scale_up(unit: nat, n: nat, d: nat, e: int) -> (nat, int)
    decreases (if n < unit * d { unit * d - n } else { 0 }),
{
    if 0 < n && n < unit * d {
        scale_up(unit, 2 * n, d, e - 1)
    } else {
        (n, e)
    }
}

/// The number `n / d` rounded to the precision of `unit`.
pub open spec fn ratio(unit: nat, n: nat, d: nat) -> Binary {
    if n == 0 {
        Binary { mantissa: 0, exponent: 0 }
    } else {
        let (d2, e1) = scale_down(unit, n, d, 0);
        let (n2, e2) = scale_up(unit, n, d2, e1);
        let m = nearest_even(n2, d2);
        if m == 2 * unit {
            Binary { mantissa: unit, exponent: e2 + 1 }
        } else {
            Binary { mantissa: m, exponent: e2 }
        }
    }
}

/// The number `f` times two to the `k`.
pub open spec fn shifted(f: Binary, k: int) -> Binary {
    if f.mantissa == 0 {
        f
    } else {
        Binary { mantissa: f.mantissa, exponent: f.exponent + k }
    }
}

/// The product of two numbers, rounded.
pub open spec fn product(unit: nat, a: Binary, b: Binary) -> Binary {
    shifted(ratio(unit, a.mantissa * b.mantissa, 1), a.exponent + b.exponent)
}

/// The quotient of two numbers, rounded.
pub open spec fn quotient(unit: nat, a: Binary, b: Binary) -> Binary {
    shifted(ratio(unit, a.mantissa, b.mantissa), a.exponent - b.exponent)
}

/// Whether a number is zero or has a mantissa of full length.
pub open spec fn normal(unit: nat, f: Binary) -> bool {
    ||| f == (Binary { mantissa: 0, exponent: 0 })
    ||| unit <= f.mantissa < 2 * unit
}

/// A power of two up to a number of that size has a small exponent.
pub proof fn lemma_pow2_bound(k: nat, x: nat)
    requires
        pow2(k) <= x,
        x < 0x40_0000_0000_0000_0000_0000_0000_0000,
    ensures
        k < 118,
{
    if k >= 118 {
        lemma2_to64();
        lemma2_to64_rest();
        lemma_pow2_adds(64, 54);
        assert(pow2(118) == 0x40_0000_0000_0000_0000_0000_0000_0000);
        if k > 118 {
            lemma_pow2_strictly_increases(118, k);
        }
    }
}

proof fn lemma_pow2_facts(n: nat, d: nat, unit: nat, d2: nat, n2: nat, k: nat, e: int)
    requires
        0 < unit,
        0 < n,
        n2 == n * pow2(k),
        unit * d2 <= n2 < 2 * (unit * d2),
        d <= d2,
        e > 0 ==> k == 0 && pow2(e as nat) <= d2,
        e <= 0 ==> k == -e && d2 == d,
    ensures
        e >= 0 ==> unit * d <= n,
        e > 0 ==> pow2(e as nat) <= n && pow2((e + 1) as nat) <= 2 * n,
        e <= 0 ==> unit * d <= n * pow2((-e) as nat),
        e == 0 ==> pow2(1) <= 2 * n,
        e < 0 ==> unit * d <= 2 * (n * pow2((-(e + 1)) as nat)),
        e < 0 ==> pow2((-e) as nat) <= 2 * (unit * d) && pow2((-(e + 1)) as nat) <= 2 * (unit * d),
{
    lemma2_to64();
    assert(unit * d <= unit * d2) by (nonlinear_arith)
        requires
            d <= d2,
    ;
    assert(n * pow2(0) == n) by (nonlinear_arith)
        requires
            pow2(0) == 1,
    ;
    if e > 0 {
        assert(d2 <= unit * d2) by (nonlinear_arith)
            requires
                0 < unit,
        ;
        lemma_pow2_unfold((e + 1) as nat);
    }
    if e < 0 {
        lemma_pow2_unfold(k);
        let h = pow2((-(e + 1)) as nat);
        assert(pow2(k) == 2 * h);
        assert(n * pow2(k) == 2 * (n * h)) by (nonlinear_arith)
            requires
                pow2(k) == 2 * h,
        ;
        assert(pow2(k) <= n * pow2(k)) by (nonlinear_arith)
            requires
                0 < n,
        ;
    }
}

/// The number `n / d`, rounded.
pub fn round_ratio(unit: u64, n: u128, d: u128) -> (r: Float)
    requires
        0 < unit <= DOUBLE,
        0 < d < 0x1_0000_0000_0000_0000,
        n < 0x1_0000_0000_0000_0000_0000_0000_0000,
    ensures
        r@ == ratio(unit as nat, n as nat, d as nat),
        normal(unit as nat, r@),
        0 < n ==> unit <= r.mantissa,
        -120 < r.exponent < 120,
        0 < n && r.exponent > 0 ==> unit * d <= n && pow2(r.exponent as nat) <= 2 * n,
        0 < n && r.exponent <= 0 ==> unit * d <= 2 * (n * pow2((-r.exponent) as nat)),
        0 < n && r.exponent < 0 ==> pow2((-r.exponent) as nat) <= 2 * (unit * d),
{
    if n == 0 {
        return Float { mantissa: 0, exponent: 0 };
    }
    let u: u128 = unit as u128;
    let mut d2: u128 = d;
    let mut e: i32 = 0;
    let ghost mut k: nat = 0;
    assert(u * d <= 0x10_0000_0000_0000 * 0x1_0000_0000_0000_0000) by (nonlinear_arith)
        requires
            u <= 0x10_0000_0000_0000,
            d <= 0x1_0000_0000_0000_0000,
    ;
    assert(d <= u * d) by (nonlinear_arith)
        requires
            0 < u,
            0 < d,
    ;
    proof {
        lemma2_to64();
    }
    while n >= 2 * (u * d2)
        invariant
            0 < u <= DOUBLE,
            u == unit,
            0 < d2 <= u * d2,
            u * d2 <= 0x20_0000_0000_0000_0000_0000_0000_0000,
            n < 0x1_0000_0000_0000_0000_0000_0000_0000,
            scale_down(u as nat, n as nat, d as nat, 0) == scale_down(u as nat, n as nat, d2 as nat, e as int),
            e == k,
            pow2(k) <= d2,
            k == 0 ==> d2 == d,
            d <= d2,
            k > 0 ==> u * d2 <= n,
            e <= 118,
        decreases 0x20_0000_0000_0000_0000_0000_0000_0000 - d2,
    {
        proof {
            assert(u * (2 * d2) == 2 * (u * d2)) by (nonlinear_arith);
            assert(d2 <= u * d2) by (nonlinear_arith)
                requires
                    0 < u,
                    0 < d2,
            ;
            assert(2 * d2 <= u * (2 * d2));
            lemma_pow2_unfold(k + 1);
            lemma_pow2_bound((k + 1) as nat, (2 * d2) as nat);
        }
        d2 = 2 * d2;
        e = e + 1;
        proof {
            k = k + 1;
        }
    }
    let ghost (sd, se) = scale_down(unit as nat, n as nat, d as nat, 0);
    assert(sd == d2 && se == e);
    let ud: u128 = u * d2;
    let mut n2: u128 = n;
    let ghost e1: int = e as int;
    let ghost mut k: nat = 0;
    while n2 < ud
        invariant
            0 < n2,
            n2 < 2 * ud,
            ud <= 0x20_0000_0000_0000_0000_0000_0000_0000,
            ud == u * d2,
            u == unit,
            0 <= e1 <= 118,
            n2 < 2 * ud || k == 0,
            scale_up(unit as nat, n as nat, d2 as nat, e1) == scale_up(unit as nat, n2 as nat, d2 as nat, e as int),
            e == e1 - k,
            n2 == n * pow2(k),
            k > 0 ==> e1 == 0 && n2 < 2 * ud,
            e1 > 0 ==> ud <= n,
            0 < n,
            k < 118,
        decreases 2 * ud - n2,
    {
        proof {
            lemma_pow2_unfold(k + 1);
            assert(n * pow2(k + 1) == 2 * (n * pow2(k))) by (nonlinear_arith)
                requires
                    pow2(k + 1) == 2 * pow2(k),
            ;
            lemma_pow2_pos(k);
            assert(n <= n * pow2(k)) by (nonlinear_arith)
                requires
                    0 < pow2(k),
            ;
            assert(pow2(k + 1) <= n * pow2(k + 1)) by (nonlinear_arith)
                requires
                    0 < n,
            ;
            lemma_pow2_bound((k + 1) as nat, (2 * n2) as nat);
        }
        n2 = 2 * n2;
        e = e - 1;
        proof {
            k = k + 1;
        }
    }
    assert(scale_up(unit as nat, n as nat, d2 as nat, e1) == (n2 as nat, e as int));
    let q: u128 = n2 / d2;
    let r: u128 = n2 % d2;
    assert(u <= q < 2 * u) by (nonlinear_arith)
        requires
            u * d2 <= n2 < 2 * (u * d2),
            q == n2 / d2,
            d2 > 0,
    ;
    let m: u128 = if 2 * r > d2 || (2 * r == d2 && q % 2 == 1) { q + 1 } else { q };
    assert(m == nearest_even(n2 as nat, d2 as nat));
    proof {
        lemma_pow2_facts(n as nat, d as nat, unit as nat, d2 as nat, n2 as nat, k, e as int);
    }
    if m == 2 * u {
        Float { mantissa: unit, exponent: e + 1 }
    } else {
        Float { mantissa: m as u64, exponent: e }
    }
}

/// Two to the `k`.
pub fn power_of_two(k: u32) -> (r: u128)
    requires
        k <= 120,
    ensures
        r == pow2(k as nat),
        0 < r <= 0x100_0000_0000_0000_0000_0000_0000_0000,
{
    let mut r: u128 = 1;
    proof {
        lemma2_to64();
        lemma2_to64_rest();
        lemma_pow2_adds(64, 56);
    }
    for i in 0..k
        invariant
            r == pow2(i as nat),
            k <= 120,
            pow2(120) == 0x100_0000_0000_0000_0000_0000_0000_0000,
    {
        proof {
            lemma_pow2_unfold((i + 1) as nat);
            if i + 1 < 120 {
                lemma_pow2_strictly_increases((i + 1) as nat, 120);
            }
        }
        r = 2 * r;
    }
    proof {
        if k < 120 {
            lemma_pow2_strictly_increases(k as nat, 120);
        }
        lemma_pow2_pos(k as nat);
    }
    r
}

fn shift(f: Float, k: i32) -> (r: Float)
    requires
        -100000 <= f.exponent <= 100000,
        -100000 <= k <= 100000,
    ensures
        r@ == shifted(f@, k as int),
{
    if f.mantissa == 0 {
        f
    } else {
        Float { mantissa: f.mantissa, exponent: f.exponent + k }
    }
}

/// The product of `a` and `b`, rounded.
pub fn multiply(unit: u64, a: Float, b: Float) -> (r: Float)
    requires
        0 < unit <= DOUBLE,
        a.mantissa < 2 * DOUBLE,
        b.mantissa < 2 * DOUBLE,
        -10000 <= a.exponent <= 10000,
        -10000 <= b.exponent <= 10000,
    ensures
        r@ == product(unit as nat, a@, b@),
        normal(unit as nat, r@),
        0 < a.mantissa && 0 < b.mantissa ==> unit <= r.mantissa,
        a.exponent + b.exponent - 120 < r.exponent < a.exponent + b.exponent + 120 || r.exponent == 0,
{
    assert(a.mantissa * b.mantissa < 0x20_0000_0000_0000 * 0x20_0000_0000_0000) by (nonlinear_arith)
        requires
            a.mantissa < 0x20_0000_0000_0000,
            b.mantissa < 0x20_0000_0000_0000,
    ;
    assert(0 < a.mantissa && 0 < b.mantissa ==> 0 < a.mantissa * b.mantissa) by (nonlinear_arith);
    let f: Float = round_ratio(unit, a.mantissa as u128 * b.mantissa as u128, 1);
    shift(f, a.exponent + b.exponent)
}

/// The quotient of `a` by `b`, rounded.
pub fn divide(unit: u64, a: Float, b: Float) -> (r: Float)
    requires
        0 < unit <= DOUBLE,
        0 < b.mantissa,
        -10000 <= a.exponent <= 10000,
        -10000 <= b.exponent <= 10000,
    ensures
        r@ == quotient(unit as nat, a@, b@),
        normal(unit as nat, r@),
        0 < a.mantissa ==> unit <= r.mantissa,
        a.exponent - b.exponent - 120 < r.exponent < a.exponent - b.exponent + 120 || r.exponent == 0,
{
    let f: Float = round_ratio(unit, a.mantissa as u128, b.mantissa as u128);
    shift(f, a.exponent - b.exponent)
}

/// The distance between two numbers, rounded.
pub open spec fn distance(unit: nat, a: Binary, b: Binary) -> Binary {
    let e = if a.exponent < b.exponent { a.exponent } else { b.exponent };
    let x = a.mantissa * pow2((a.exponent - e) as nat);
    let y = b.mantissa * pow2((b.exponent - e) as nat);
    shifted(ratio(unit, (if x < y { y - x } else { x - y }) as nat, 1), e)
}

/// The distance between `a` and `b`, rounded.
pub fn subtract(unit: u64, a: Float, b: Float) -> (r: Float)
    requires
        0 < unit <= DOUBLE,
        a.mantissa < 2 * DOUBLE,
        b.mantissa < 2 * DOUBLE,
        -10000 <= a.exponent <= 10000,
        -10000 <= b.exponent <= 10000,
        a.exponent - b.exponent <= 56 || a.mantissa == 0 || b.mantissa == 0,
        b.exponent - a.exponent <= 56 || a.mantissa == 0 || b.mantissa == 0,
        normal(unit as nat, a@),
        normal(unit as nat, b@),
    ensures
        r@ == distance(unit as nat, a@, b@),
        normal(unit as nat, r@),
        -200 <= a.exponent <= 200 && -200 <= b.exponent <= 200 ==> -400 < r.exponent < 400,
{
    proof {
        lemma2_to64();
    }
    if a.mantissa == 0 || b.mantissa == 0 {
        let other: Float = if a.mantissa == 0 { b } else { a };
        proof {
            lemma_zero_distance(unit as nat, a@, b@);
        }
        return other;
    }
    let e: i32 = if a.exponent < b.exponent { a.exponent } else { b.exponent };
    let p: u128 = power_of_two((a.exponent - e) as u32);
    let q: u128 = power_of_two((b.exponent - e) as u32);
    proof {
        lemma_small_power((a.exponent - e) as nat);
        lemma_small_power((b.exponent - e) as nat);
        assert(a.mantissa * p < 0x20_0000_0000_0000 * 0x200_0000_0000_0000) by (nonlinear_arith)
            requires
                a.mantissa < 0x20_0000_0000_0000,
                p <= 0x100_0000_0000_0000,
        ;
        assert(b.mantissa * q < 0x20_0000_0000_0000 * 0x200_0000_0000_0000) by (nonlinear_arith)
            requires
                b.mantissa < 0x20_0000_0000_0000,
                q <= 0x100_0000_0000_0000,
        ;
    }
    let x: u128 = a.mantissa as u128 * p;
    let y: u128 = b.mantissa as u128 * q;
    let f: Float = round_ratio(unit, if x < y { y - x } else { x - y }, 1);
    shift(f, e)
}

proof fn lemma_small_power(k: nat)
    requires
        k <= 56,
    ensures
        pow2(k) <= 0x100_0000_0000_0000,
{
    lemma2_to64_rest();
    if k < 56 {
        lemma_pow2_strictly_increases(k, 56);
    }
}

proof fn lemma_zero_distance(unit: nat, a: Binary, b: Binary)
    requires
        0 < unit,
        normal(unit, a),
        normal(unit, b),
        a.mantissa == 0 || b.mantissa == 0,
    ensures
        distance(unit, a, b) == if a.mantissa == 0 { b } else { a },
{
    let e = if a.exponent < b.exponent { a.exponent } else { b.exponent };
    let f = if a.mantissa == 0 { b } else { a };
    let z = if a.mantissa == 0 { a } else { b };
    let x = f.mantissa * pow2((f.exponent - e) as nat);
    assert(z.mantissa * pow2((z.exponent - e) as nat) == 0) by (nonlinear_arith)
        requires
            z.mantissa == 0,
    ;
    lemma_scaled_integer(unit, f, (f.exponent - e) as nat);
}

/// Rounding an integer multiple of a normal number by a power of two changes nothing.
proof fn lemma_scaled_integer(unit: nat, f: Binary, k: nat)
    requires
        0 < unit,
        normal(unit, f),
    ensures
        ratio(unit, f.mantissa * pow2(k), 1) == shifted(
            Binary { mantissa: f.mantissa, exponent: 0 },
            k as int,
        ),
{
    let m = f.mantissa;
    if m == 0 {
        assert(m * pow2(k) == 0) by (nonlinear_arith)
            requires
                m == 0,
        ;
    } else {
        lemma2_to64();
        lemma_scale_down_power(unit, m, k, 0);
        lemma_pow2_pos(k);
        let p = pow2(k);
        assert(m * p >= unit * p) by (nonlinear_arith)
            requires
                m >= unit,
        ;
        assert(m * p > 0) by (nonlinear_arith)
            requires
                m > 0,
                p > 0,
        ;
        assert((m * p) / p == m && (m * p) % p == 0) by {
            vstd::arithmetic::div_mod::lemma_fundamental_div_mod_converse((m * p) as int, p as int, m as int, 0);
        }
    }
}

proof fn lemma_scale_down_power(unit: nat, m: nat, k: nat, j: nat)
    requires
        0 < unit,
        unit <= m < 2 * unit,
        j <= k,
    ensures
        scale_down(unit, m * pow2(k), pow2(j), j as int) == (pow2(k), k as int),
    decreases k - j,
{
    let n = m * pow2(k);
    let d = pow2(j);
    lemma_pow2_pos(j);
    lemma_pow2_pos(k);
    if j < k {
        lemma_pow2_unfold((j + 1) as nat);
        lemma_scale_down_power(unit, m, k, (j + 1) as nat);
        if j + 1 < k {
            lemma_pow2_strictly_increases((j + 1) as nat, k);
        }
        assert(n >= 2 * (unit * d)) by (nonlinear_arith)
            requires
                n == m * pow2(k),
                m >= unit,
                pow2(k) >= 2 * d,
                d >= 0,
        ;
    } else {
        assert(n < 2 * (unit * d)) by (nonlinear_arith)
            requires
                n == m * d,
                m < 2 * unit,
                d > 0,
        ;
    }
}

/// Doubling the numerator takes at least `k` steps where `k - 1` do not reach the unit.
proof fn lemma_scale_up_most(unit: nat, n: nat, d: nat, e: int, k: nat)
    requires
        0 < n,
        k > 0 ==> n * pow2((k - 1) as nat) < unit * d,
    ensures
        scale_up(unit, n, d, e).1 <= e - k,
    decreases (if n < unit * d { unit * d - n } else { 0 }),
{
    if k > 0 {
        lemma_pow2_pos((k - 1) as nat);
        assert(n <= n * pow2((k - 1) as nat)) by (nonlinear_arith)
            requires
                pow2((k - 1) as nat) >= 1,
        ;
    }
    if n < unit * d {
        if k > 1 {
            lemma_pow2_unfold((k - 1) as nat);
            assert(2 * n * pow2((k - 2) as nat) == n * (2 * pow2((k - 2) as nat))) by (nonlinear_arith);
        }
        lemma_scale_up_most(unit, 2 * n, d, e - 1, if k == 0 { 0 } else { (k - 1) as nat });
    }
}

/// Doubling the numerator takes at most `k` steps where these reach the unit.
proof fn lemma_scale_up_least(unit: nat, n: nat, d: nat, e: int, k: nat)
    requires
        unit * d <= n * pow2(k),
    ensures
        scale_up(unit, n, d, e).1 >= e - k,
    decreases k,
{
    if 0 < n && n < unit * d {
        if k == 0 {
            lemma2_to64();
            assert(n * pow2(0) == n) by (nonlinear_arith)
                requires
                    pow2(0) == 1,
            ;
        } else {
            lemma_pow2_unfold(k);
            assert(2 * n * pow2((k - 1) as nat) == n * (2 * pow2((k - 1) as nat))) by (nonlinear_arith);
            lemma_scale_up_least(unit, 2 * n, d, e - 1, (k - 1) as nat);
        }
    }
}

/// Where the unit is reached, doubling the denominator does not go below it.
proof fn lemma_scale_down_reached(unit: nat, n: nat, d: nat, e: int)
    requires
        0 < unit,
        0 < d,
        unit * d <= n,
    ensures
        ({
            let (d2, e2) = scale_down(unit, n, d, e);
            0 < d2 && unit * d2 <= n && e <= e2
        }),
    decreases (if n >= 2 * (unit * d) { n - 2 * (unit * d) + 1 } else { 0 }),
{
    if n >= 2 * (unit * d) {
        assert(unit * (2 * d) == 2 * (unit * d)) by (nonlinear_arith);
        assert(unit * d > 0) by (nonlinear_arith)
            requires
                unit > 0,
                d > 0,
        ;
        lemma_scale_down_reached(unit, n, 2 * d, e + 1);
    }
}

/// An integer of at least the unit is rounded to a number with no fraction.
pub proof fn lemma_large_integer(unit: nat, n: nat)
    requires
        0 < unit <= n,
    ensures
        ratio(unit, n, 1).exponent >= 0,
        ratio(unit, n, 1).mantissa > 0,
{
    lemma_scale_down_reached(unit, n, 1, 0);
    let (d2, e1) = scale_down(unit, n, 1, 0);
    assert(n / d2 >= unit) by (nonlinear_arith)
        requires
            unit * d2 <= n,
            d2 > 0,
    ;
}

/// An integer of at least 32768 in single precision.
pub proof fn lemma_single_least(n: nat)
    requires
        n >= 0x8000,
    ensures
        ratio(SINGLE as nat, n, 1).exponent >= -8,
{
    let unit = SINGLE as nat;
    if n >= unit {
        lemma_large_integer(unit, n);
    } else {
        lemma2_to64();
        lemma_scale_up_least(unit, n, 1, 0, 8);
    }
}

/// The quotient of a number below 1.5 times the unit by a number of at least the unit.
pub proof fn lemma_quotient_most(m: nat, d: nat)
    requires
        0 < m < 0xc0_0000,
        SINGLE <= d < 2 * SINGLE,
    ensures
        ratio(SINGLE as nat, m, d).exponent <= -22,
{
    let unit = SINGLE as nat;
    assert(m < 2 * (unit * d)) by (nonlinear_arith)
        requires
            m < 0xc0_0000,
            d >= 1,
            unit == 0x80_0000,
    ;
    assert(m * 0x40_0000 < unit * d) by (nonlinear_arith)
        requires
            m < 0xc0_0000,
            d >= 0x80_0000,
            unit == 0x80_0000,
    ;
    lemma2_to64();
    lemma_scale_up_most(unit, m, d, 0, 23);
}

/// Whether `a` is less than `b`, both normal for the same precision.
pub open spec fn less(a: Binary, b: Binary) -> bool {
    if a.mantissa == 0 || b.mantissa == 0 {
        a.mantissa < b.mantissa
    } else {
        a.exponent < b.exponent || (a.exponent == b.exponent && a.mantissa < b.mantissa)
    }
}

/// Whether `a` is less than `b`.
pub fn is_less(a: Float, b: Float) -> (r: bool)
    ensures
        r == less(a@, b@),
{
    if a.mantissa == 0 || b.mantissa == 0 {
        a.mantissa < b.mantissa
    } else {
        a.exponent < b.exponent || (a.exponent == b.exponent && a.mantissa < b.mantissa)
    }
}

/// Quadruples `n`, counting down in `h`, until it reaches `floor`.
pub open spec fn scale_fourfold(floor: nat, n: nat, h: int) -> (nat, int)
    decreases (if n < floor { floor - n } else { 0 }),
{
    if 0 < n && n < floor {
        scale_fourfold(floor, 4 * n, h - 1)
    } else {
        (n, h)
    }
}

/// Whether `s` is the integer nearest to the square root of `n`. The root of an integer
/// never lies halfway between two integers.
pub open spec fn is_nearest_root(n: nat, s: nat) -> bool {
    (2 * s - 1) * (2 * s - 1) < 4 * n < (2 * s + 1) * (2 * s + 1)
}

/// The integer nearest to the square root of the positive `n`.
pub open spec fn nearest_root(n: nat) -> nat {
    choose|s: nat| s > 0 && is_nearest_root(n, s)
}

/// The square root of a number, rounded.
pub open spec fn root(unit: nat, a: Binary) -> Binary {
    if a.mantissa == 0 {
        a
    } else {
        let n = if a.exponent % 2 == 0 { a.mantissa } else { 2 * a.mantissa };
        let (n2, h) = scale_fourfold(unit * unit, n, a.exponent / 2);
        let s = nearest_root(n2);
        if s == 2 * unit {
            Binary { mantissa: unit, exponent: h + 1 }
        } else {
            Binary { mantissa: s, exponent: h }
        }
    }
}

proof fn lemma_nearest_root_unique(n: nat, s: nat, t: nat)
    requires
        s > 0,
        t > 0,
        is_nearest_root(n, s),
        is_nearest_root(n, t),
    ensures
        s == t,
{
    if s < t {
        assert((2 * s + 1) * (2 * s + 1) <= (2 * t - 1) * (2 * t - 1)) by (nonlinear_arith)
            requires
                0 < s < t,
        ;
    }
    if t < s {
        assert((2 * t + 1) * (2 * t + 1) <= (2 * s - 1) * (2 * s - 1)) by (nonlinear_arith)
            requires
                0 < t < s,
        ;
    }
}

/// The square root of `a` in single precision.
pub fn square_root(a: Float) -> (r: Float)
    requires
        normal(SINGLE as nat, a@),
        -10000 <= a.exponent <= 10000,
    ensures
        r@ == root(SINGLE as nat, a@),
        normal(SINGLE as nat, r@),
        0 < a.mantissa ==> SINGLE <= r.mantissa,
        -200 <= a.exponent <= 200 ==> -400 <= r.exponent <= 400,
{
    if a.mantissa == 0 {
        return a;
    }
    let even: bool = a.exponent % 2 == 0;
    let mut n: u64 = if even { a.mantissa } else { 2 * a.mantissa };
    let mut h: i32 = if even {
        a.exponent / 2
    } else if a.exponent > 0 {
        (a.exponent - 1) / 2
    } else {
        -((1 - a.exponent) / 2)
    };
    assert(h == (a.exponent as int) / 2);
    let ghost n0: nat = n as nat;
    let ghost h0: int = h as int;
    let ghost mut k: nat = 0;
    proof {
        lemma2_to64();
    }
    while n < 0x4000_0000_0000
        invariant
            0x80_0000 <= n < 0x1_0000_0000_0000,
            scale_fourfold(0x4000_0000_0000, n0, h0) == scale_fourfold(0x4000_0000_0000, n as nat, h as int),
            h == h0 - k,
            pow2(k) <= n,
            k < 118,
            -5001 <= h0 <= 5001,
            -200 <= a.exponent <= 200 ==> -101 <= h0 <= 101,
        decreases 0x1_0000_0000_0000 - n,
    {
        proof {
            lemma_pow2_unfold((k + 1) as nat);
            lemma_pow2_bound((k + 1) as nat, (4 * n) as nat);
            k = k + 1;
        }
        n = 4 * n;
        h = h - 1;
    }
    assert(scale_fourfold(0x4000_0000_0000, n0, h0) == (n as nat, h as int));
    assert(0x80_0000nat * 0x80_0000nat == 0x4000_0000_0000);
    let mut lo: u64 = 0x80_0000;
    let mut hi: u64 = 0x100_0000;
    while hi - lo > 1
        invariant
            0x80_0000 <= lo < hi <= 0x100_0000,
            lo * lo <= n < hi * hi,
        decreases hi - lo,
    {
        let mid: u64 = lo + (hi - lo) / 2;
        assert(mid * mid <= 0x100_0000 * 0x100_0000) by (nonlinear_arith)
            requires
                mid <= 0x100_0000,
        ;
        if mid * mid <= n {
            lo = mid;
        } else {
            hi = mid;
        }
    }
    assert(hi == lo + 1);
    assert(lo * lo <= n) by (nonlinear_arith)
        requires
            lo * lo <= n,
    ;
    let s: u64 = if n - lo * lo > lo { lo + 1 } else { lo };
    proof {
        if n - lo * lo > lo {
            assert((2 * s - 1) * (2 * s - 1) < 4 * n < (2 * s + 1) * (2 * s + 1)) by (nonlinear_arith)
                requires
                    s == lo + 1,
                    lo * lo + lo < n,
                    n < (lo + 1) * (lo + 1),
                    0 < lo,
            ;
        } else {
            assert((2 * s - 1) * (2 * s - 1) < 4 * n < (2 * s + 1) * (2 * s + 1)) by (nonlinear_arith)
                requires
                    s == lo,
                    lo * lo <= n <= lo * lo + lo,
                    0 < lo,
            ;
        }
        assert(is_nearest_root(n as nat, s as nat));
        let t = nearest_root(n as nat);
        lemma_nearest_root_unique(n as nat, s as nat, t);
    }
    if s == 0x100_0000 {
        Float { mantissa: 0x80_0000, exponent: h + 1 }
    } else {
        Float { mantissa: s, exponent: h }
    }
}

/// A number rounded to the nearest integer, halves upward.
pub open spec fn nearest_integer(f: Binary) -> nat {
    if f.exponent >= 0 {
        f.mantissa * pow2(f.exponent as nat)
    } else {
        (2 * f.mantissa + pow2((-f.exponent) as nat)) / (2 * pow2((-f.exponent) as nat))
    }
}

/// The nearest integer to `f`, or `cap` where it is larger.
pub fn round_to_integer(f: Float, cap: u32) -> (r: u32)
    requires
        f.mantissa < 2 * DOUBLE,
        -10000 <= f.exponent,
    ensures
        r == if nearest_integer(f@) < cap { nearest_integer(f@) } else { cap as nat },
{
    if f.exponent >= 0 {
        let mut n: u64 = f.mantissa;
        let mut e: i32 = f.exponent;
        proof {
            lemma2_to64();
            assert(n * pow2(0) == n) by (nonlinear_arith)
                requires
                    pow2(0) == 1,
            ;
        }
        while e > 0 && 0 < n && n < cap as u64
            invariant
                0 <= e,
                nearest_integer(f@) == n * pow2(e as nat),
                n < 2 * DOUBLE,
            decreases e,
        {
            proof {
                lemma_pow2_unfold(e as nat);
                assert(n * pow2(e as nat) == (2 * n) * pow2((e - 1) as nat)) by (nonlinear_arith)
                    requires
                        pow2(e as nat) == 2 * pow2((e - 1) as nat),
                ;
            }
            n = 2 * n;
            e = e - 1;
        }
        proof {
            lemma_pow2_pos(e as nat);
            assert(n <= n * pow2(e as nat)) by (nonlinear_arith)
                requires
                    pow2(e as nat) > 0,
            ;
            assert(0 * pow2(e as nat) == 0);
            lemma2_to64();
            assert(n * pow2(0) == n) by (nonlinear_arith)
                requires
                    pow2(0) == 1,
            ;
        }
        if n < cap as u64 {
            n as u32
        } else {
            cap
        }
    } else if f.exponent < -60 {
        proof {
            let p = pow2((-f.exponent) as nat);
            lemma2_to64_rest();
            if -f.exponent > 60 {
                lemma_pow2_strictly_increases(60, (-f.exponent) as nat);
            }
            assert((2 * (f.mantissa as nat) + p) / (2 * p) == 0) by {
                vstd::arithmetic::div_mod::lemma_fundamental_div_mod_converse(
                    (2 * f.mantissa + p) as int, (2 * p) as int, 0, (2 * f.mantissa + p) as int);
            }
        }
        0
    } else {
        let p: u128 = power_of_two((-f.exponent) as u32);
        proof {
            lemma2_to64_rest();
            if -f.exponent < 60 {
                lemma_pow2_strictly_increases((-f.exponent) as nat, 60);
            }
        }
        let n: u128 = (2 * f.mantissa as u128 + p) / (2 * p);
        if n < cap as u128 {
            n as u32
        } else {
            cap
        }
    }
}

proof fn lemma_scale_up_steps(unit: nat, n: nat, e: int) -> (k: nat)
    requires
        0 < n < 2 * unit,
    ensures
        scale_up(unit, n, 1, e) == (n * pow2(k), e - k),
        unit <= n * pow2(k) < 2 * unit,
    decreases (if n < unit { unit - n } else { 0 }),
{
    lemma2_to64();
    if n < unit {
        let k = lemma_scale_up_steps(unit, 2 * n, e - 1);
        lemma_pow2_unfold((k + 1) as nat);
        assert(n * pow2((k + 1) as nat) == 2 * n * pow2(k)) by (nonlinear_arith)
            requires
                pow2((k + 1) as nat) == 2 * pow2(k),
        ;
        (k + 1) as nat
    } else {
        assert(n * pow2(0) == n) by (nonlinear_arith)
            requires
                pow2(0) == 1,
        ;
        0
    }
}

/// An integer below twice the unit is held exactly: some power of two times it is the mantissa,
/// and the exponent undoes that.
pub proof fn lemma_exact_integer(unit: nat, n: nat) -> (k: nat)
    requires
        0 < n < 2 * unit,
    ensures
        ratio(unit, n, 1) == (Binary { mantissa: n * pow2(k), exponent: -k }),
        unit <= n * pow2(k) < 2 * unit,
{
    let k = lemma_scale_up_steps(unit, n, 0);
    let m = n * pow2(k);
    assert(m / 1 == m && m % 1 == 0);
    k
}

proof fn lemma_nearest_exact(m: nat, p: nat, n: nat)
    requires
        p > 0,
        m == n * p,
    ensures
        (2 * m + p) / (2 * p) == n,
{
    let d = 2 * p;
    assert(2 * m + p == n * d + p) by (nonlinear_arith)
        requires
            m == n * p,
            d == 2 * p,
    ;
    vstd::arithmetic::div_mod::lemma_fundamental_div_mod_converse((2 * m + p) as int, d as int, n as int, p as int);
}

/// Rounding an integer below twice the unit to the precision of the unit, and then to an integer,
/// changes nothing.
pub proof fn law_integer_kept(unit: nat, n: nat)
    requires
        n < 2 * unit,
    ensures
        nearest_integer(ratio(unit, n, 1)) == n,
{
    lemma2_to64();
    if n == 0 {
        assert(0 * pow2(0) == 0) by (nonlinear_arith);
    } else {
        let k = lemma_exact_integer(unit, n);
        lemma_pow2_pos(k);
        if k == 0 {
            assert(n * pow2(0) == n) by (nonlinear_arith)
                requires
                    pow2(0) == 1,
            ;
        } else {
            lemma_nearest_exact(n * pow2(k), pow2(k), n);
        }
    }
}

/// The product of an integer below twice the unit by a power of two, neither small nor large, is
/// exact.
pub proof fn law_doubled(n: nat, j: nat)
    requires
        0 < n < 2 * SINGLE,
        j <= 1,
    ensures
        nearest_integer(
            product(SINGLE as nat, ratio(SINGLE as nat, n, 1), Binary { mantissa: SINGLE as nat, exponent: j - 23 }),
        ) == n * pow2(j),
{
    let unit = SINGLE as nat;
    lemma2_to64();
    lemma2_to64_rest();
    let k = lemma_exact_integer(unit, n);
    let m = n * pow2(k);
    assert(pow2(23) == 0x80_0000);
    lemma_scaled_integer(unit, Binary { mantissa: m, exponent: 0 }, 23);
    assert(m * unit == m * pow2(23));
    let r = product(unit, ratio(unit, n, 1), Binary { mantissa: unit, exponent: j - 23 });
    assert(r == (Binary { mantissa: m, exponent: j - k }));
    lemma_pow2_pos(k);
    lemma_pow2_pos(j);
    if j >= k {
        let d = (j - k) as nat;
        lemma_pow2_adds(k, d);
        assert(m * pow2(d) == n * pow2(j)) by (nonlinear_arith)
            requires
                m == n * pow2(k),
                pow2(k) * pow2(d) == pow2(j),
        ;
    } else {
        let d = (k - j) as nat;
        lemma_pow2_adds(j, d);
        lemma_pow2_pos(d);
        assert(m == (n * pow2(j)) * pow2(d)) by (nonlinear_arith)
            requires
                m == n * pow2(k),
                pow2(j) * pow2(d) == pow2(k),
        ;
        lemma_nearest_exact(m, pow2(d), n * pow2(j));
    }
}

proof fn lemma_scale_up_23(m: nat, d: nat, j: nat)
    requires
        0 < m,
        0 < d,
        j <= 23,
        m * 0x40_0000 < SINGLE * d <= m * 0x80_0000,
    ensures
        scale_up(SINGLE as nat, m * pow2(j), d, -j) == (m * pow2(23), -23int),
    decreases 23 - j,
{
    let unit = SINGLE as nat;
    lemma2_to64();
    lemma2_to64_rest();
    lemma_pow2_pos(j);
    assert(m * pow2(j) > 0) by (nonlinear_arith)
        requires
            m > 0,
            pow2(j) > 0,
    ;
    if j < 23 {
        if j < 22 {
            lemma_pow2_strictly_increases(j, 22);
        }
        assert(m * pow2(j) <= m * 0x40_0000) by (nonlinear_arith)
            requires
                pow2(j) <= 0x40_0000,
        ;
        lemma_pow2_unfold((j + 1) as nat);
        assert(m * pow2((j + 1) as nat) == 2 * (m * pow2(j))) by (nonlinear_arith)
            requires
                pow2((j + 1) as nat) == 2 * pow2(j),
        ;
        lemma_scale_up_23(m, d, (j + 1) as nat);
    }
}

proof fn lemma_ratio_23(m: nat, d: nat, q: nat)
    requires
        0 < m,
        0 < d,
        m * 0x40_0000 < SINGLE * d <= m * 0x80_0000,
        m * 0x80_0000 == q * d,
        q < 2 * SINGLE,
    ensures
        ratio(SINGLE as nat, m, d) == (Binary { mantissa: q, exponent: -23 }),
{
    let unit = SINGLE as nat;
    lemma2_to64();
    lemma2_to64_rest();
    assert(m < 2 * (unit * d)) by (nonlinear_arith)
        requires
            m * 0x40_0000 < unit * d,
            unit == 0x80_0000,
    ;
    assert(m * pow2(0) == m) by (nonlinear_arith)
        requires
            pow2(0) == 1,
    ;
    lemma_scale_up_23(m, d, 0);
    vstd::arithmetic::div_mod::lemma_fundamental_div_mod_converse((m * 0x80_0000) as int, d as int, q as int, 0);
}

/// A number divided by one is itself, and divided by itself is one.
pub proof fn law_divided(a: Binary)
    requires
        SINGLE <= a.mantissa < 2 * SINGLE,
    ensures
        quotient(SINGLE as nat, a, Binary { mantissa: SINGLE as nat, exponent: -23 }) == a,
        quotient(SINGLE as nat, a, a) == (Binary { mantissa: SINGLE as nat, exponent: -23 }),
{
    let m = a.mantissa;
    let unit = SINGLE as nat;
    lemma_ratio_23(m, unit, m);
    assert(m * 0x40_0000 < unit * m <= m * 0x80_0000) by (nonlinear_arith)
        requires
            unit == 0x80_0000,
            m > 0,
    ;
    assert(m * 0x80_0000 == unit * m) by (nonlinear_arith)
        requires
            unit == 0x80_0000,
    ;
    lemma_ratio_23(m, m, unit);
}

/// The product of a small integer by three times a power of two is exact.
pub proof fn law_tripled(n: nat, j: nat)
    requires
        0 < n <= 0x3f_ffff,
        j <= 1,
    ensures
        nearest_integer(
            product(SINGLE as nat, ratio(SINGLE as nat, n, 1), Binary { mantissa: 0xc0_0000, exponent: j - 23 }),
        ) == if j == 0 {
            (3 * n + 1) / 2
        } else {
            3 * n
        },
{
    let unit = SINGLE as nat;
    lemma2_to64();
    lemma2_to64_rest();
    let k = lemma_exact_integer(unit, n);
    let m = n * pow2(k);
    let a = 3 * n;
    let c = lemma_exact_integer(unit, a);
    let b = a * pow2(c);
    lemma_pow2_pos(k);
    lemma_pow2_pos(c);
    assert(k >= 2) by {
        if k < 2 {
            assert(k == 0 || k == 1);
            assert(m <= 2 * n) by (nonlinear_arith)
                requires
                    m == n * pow2(k),
                    pow2(k) <= 2,
            ;
        }
    }
    assert(c <= 23) by {
        if c > 23 {
            if c > 24 {
                lemma_pow2_strictly_increases(24, c);
            }
            assert(a * pow2(c) >= pow2(c)) by (nonlinear_arith)
                requires
                    a >= 1,
            ;
        }
    }
    let s = (k + 22) as nat;
    let d = (s - c) as nat;
    lemma_pow2_adds(k, 22);
    lemma_pow2_adds(c, d);
    assert(pow2(22) == 0x40_0000);
    assert(m * 0xc0_0000 == b * pow2(d)) by (nonlinear_arith)
        requires
            m == n * pow2(k),
            b == 3 * n * pow2(c),
            pow2(c) * pow2(d) == pow2(k) * 0x40_0000,
    ;
    lemma_scaled_integer(unit, Binary { mantissa: b, exponent: 0 }, d);
    let p = product(unit, ratio(unit, n, 1), Binary { mantissa: 0xc0_0000, exponent: j - 23 });
    assert(p == (Binary { mantissa: b, exponent: j - 1 - c }));
    if j == 0 {
        let e = (c + 1) as nat;
        lemma_pow2_unfold(e);
        let q = pow2(e);
        let x = (3 * n + 1) / 2;
        assert(q == 2 * pow2(c));
        assert(2 * b + q == (3 * n + 1) * q) by (nonlinear_arith)
            requires
                b == 3 * n * pow2(c),
                q == 2 * pow2(c),
        ;
        let r = ((3 * n + 1) % 2) * q;
        assert((3 * n + 1) * q == x * (2 * q) + r) by (nonlinear_arith)
            requires
                3 * n + 1 == 2 * x + (3 * n + 1) % 2,
                r == ((3 * n + 1) % 2) * q,
        ;
        assert(0 <= r < 2 * q) by (nonlinear_arith)
            requires
                r == ((3 * n + 1) % 2) * q,
                0 <= (3 * n + 1) % 2 <= 1,
                q > 0,
        ;
        vstd::arithmetic::div_mod::lemma_fundamental_div_mod_converse((2 * b + q) as int, (2 * q) as int, x as int, r as int);
    } else if c == 0 {
        assert(b * pow2(0) == a) by (nonlinear_arith)
            requires
                b == a * pow2(0),
                pow2(0) == 1,
        ;
    } else {
        lemma_nearest_exact(b, pow2(c), a);
    }
}

proof fn lemma_scale_up_general(unit: nat, n: nat, d: nat, e: int) -> (k: nat)
    requires
        0 < n < 2 * (unit * d),
    ensures
        scale_up(unit, n, d, e) == (n * pow2(k), e - k),
        unit * d <= n * pow2(k) < 2 * (unit * d),
    decreases (if n < unit * d { unit * d - n } else { 0 }),
{
    lemma2_to64();
    if n < unit * d {
        let k = lemma_scale_up_general(unit, 2 * n, d, e - 1);
        lemma_pow2_unfold((k + 1) as nat);
        assert(n * pow2((k + 1) as nat) == 2 * n * pow2(k)) by (nonlinear_arith)
            requires
                pow2((k + 1) as nat) == 2 * pow2(k),
        ;
        (k + 1) as nat
    } else {
        assert(n * pow2(0) == n) by (nonlinear_arith)
            requires
                pow2(0) == 1,
        ;
        0
    }
}

proof fn lemma_nearest_even_close(n: nat, d: nat)
    requires
        d > 0,
    ensures
        -d <= 2 * (nearest_even(n, d) * d - n) <= d,
{
    let q = n / d;
    let r = n % d;
    vstd::arithmetic::div_mod::lemma_fundamental_div_mod(n as int, d as int);
    assert(n == q * d + r) by (nonlinear_arith)
        requires
            n == d * q + r,
    ;
    assert((q + 1) * d == q * d + d) by (nonlinear_arith);
}

/// The quotient of two integers, of which the second is not much smaller, in the precision of the
/// unit: it is off by half of its last place at most.
pub proof fn lemma_ratio_close(unit: nat, n: nat, d: nat) -> (j: nat)
    requires
        0 < n,
        0 < d,
        0 < unit,
        2 * n <= unit * d,
    ensures
        ratio(unit, n, d).exponent == -j,
        unit <= ratio(unit, n, d).mantissa < 2 * unit,
        -d <= 2 * (ratio(unit, n, d).mantissa * d - n * pow2(j)) <= d,
{
    let k = lemma_scale_up_general(unit, n, d, 0);
    let n2 = n * pow2(k);
    let m = nearest_even(n2, d);
    lemma_nearest_even_close(n2, d);
    assert(unit <= m <= 2 * unit) by (nonlinear_arith)
        requires
            unit * d <= n2 < 2 * (unit * d),
            -d <= 2 * (m * d - n2) <= d,
            d > 0,
    ;
    lemma2_to64();
    assert(k > 0) by {
        if k == 0 {
            assert(n * pow2(0) == n) by (nonlinear_arith)
                requires
                    pow2(0) == 1,
            ;
            assert(unit * d > 0) by (nonlinear_arith)
                requires
                    unit > 0,
                    d > 0,
            ;
        }
    }
    if m == 2 * unit {
        let j = (k - 1) as nat;
        lemma_pow2_unfold(k);
        assert(n2 == 2 * (n * pow2(j))) by (nonlinear_arith)
            requires
                n2 == n * pow2(k),
                pow2(k) == 2 * pow2(j),
        ;
        assert(m * d == 2 * (unit * d)) by (nonlinear_arith)
            requires
                m == 2 * unit,
        ;
        j
    } else {
        k
    }
}

proof fn lemma_scale_down_general(unit: nat, n: nat, e: nat) -> (t: nat)
    requires
        0 < unit,
        unit * pow2(e) <= n,
    ensures
        t >= e,
        scale_down(unit, n, pow2(e), e as int) == (pow2(t), t as int),
        unit * pow2(t) <= n < 2 * (unit * pow2(t)),
    decreases (if n >= 2 * (unit * pow2(e)) { n - 2 * (unit * pow2(e)) + 1 } else { 0 }),
{
    lemma_pow2_pos(e);
    if n >= 2 * (unit * pow2(e)) {
        lemma_pow2_unfold((e + 1) as nat);
        let p = pow2(e);
        assert(unit * (2 * p) == 2 * (unit * p)) by (nonlinear_arith);
        assert(unit * p > 0) by (nonlinear_arith)
            requires
                unit > 0,
                p > 0,
        ;
        lemma_scale_down_general(unit, n, (e + 1) as nat)
    } else {
        e
    }
}

/// A large integer in the precision of the unit: it is off by half of its last place at most.
pub proof fn lemma_integer_close(unit: nat, n: nat) -> (t: nat)
    requires
        0 < unit <= n,
    ensures
        ratio(unit, n, 1).exponent == t,
        unit <= ratio(unit, n, 1).mantissa < 2 * unit,
        -pow2(t) <= 2 * (ratio(unit, n, 1).mantissa * pow2(t) - n) <= pow2(t),
{
    lemma2_to64();
    assert(unit * pow2(0) == unit) by (nonlinear_arith)
        requires
            pow2(0) == 1,
    ;
    let t = lemma_scale_down_general(unit, n, 0);
    let d = pow2(t);
    lemma_pow2_pos(t);
    let m = nearest_even(n, d);
    lemma_nearest_even_close(n, d);
    assert(unit <= m <= 2 * unit) by (nonlinear_arith)
        requires
            unit * d <= n < 2 * (unit * d),
            -d <= 2 * (m * d - n) <= d,
            d > 0,
    ;
    if m == 2 * unit {
        lemma_pow2_unfold((t + 1) as nat);
        assert(unit * pow2((t + 1) as nat) == m * d) by (nonlinear_arith)
            requires
                m == 2 * unit,
                pow2((t + 1) as nat) == 2 * d,
        ;
        (t + 1) as nat
    } else {
        t
    }
}

proof fn lemma_root_from(n: nat, s: nat) -> (r: nat)
    requires
        4 * n < (2 * s + 1) * (2 * s + 1),
    ensures
        4 * n < (2 * r + 1) * (2 * r + 1),
        r > 0 ==> (2 * r - 1) * (2 * r - 1) <= 4 * n,
    decreases s,
{
    if s == 0 || (2 * s - 1) * (2 * s - 1) <= 4 * n {
        s
    } else {
        assert(2 * (s - 1) + 1 == 2 * s - 1);
        lemma_root_from(n, (s - 1) as nat)
    }
}

proof fn lemma_root_found(n: nat)
    requires
        n > 0,
    ensures
        nearest_root(n) > 0,
{
    assert(4 * n < (2 * n + 1) * (2 * n + 1)) by (nonlinear_arith)
        requires
            n > 0,
    ;
    let r = lemma_root_from(n, n);
    if r == 0 {
        assert((2 * r + 1) * (2 * r + 1) == 1) by (nonlinear_arith)
            requires
                r == 0,
        ;
    }
    let o = 2 * r - 1;
    assert(o * o == 4 * (r * r - r) + 1) by (nonlinear_arith)
        requires
            o == 2 * r - 1,
    ;
    assert((2 * r - 1) * (2 * r - 1) != 4 * n);
    assert(is_nearest_root(n, r));
}

proof fn lemma_fourfold_least(floor: nat, n: nat, h: int, c: nat)
    requires
        0 < n,
        floor <= n * pow2(2 * c),
    ensures
        scale_fourfold(floor, n, h).1 >= h - c,
        scale_fourfold(floor, n, h).0 > 0,
    decreases c,
{
    lemma2_to64();
    if n < floor {
        if c == 0 {
            assert(n * pow2(0) == n) by (nonlinear_arith)
                requires
                    pow2(0) == 1,
            ;
        } else {
            lemma_pow2_unfold(2 * c);
            lemma_pow2_unfold((2 * c - 1) as nat);
            assert(n * pow2(2 * c) == 4 * n * pow2((2 * c - 2) as nat)) by (nonlinear_arith)
                requires
                    pow2(2 * c) == 4 * pow2((2 * c - 2) as nat),
            ;
            assert(2 * (c - 1) == 2 * c - 2);
            lemma_fourfold_least(floor, 4 * n, h - 1, (c - 1) as nat);
        }
    }
}

/// The root of a number of at least one is at least one.
pub proof fn lemma_root_least(a: Binary)
    requires
        SINGLE <= a.mantissa < 2 * SINGLE,
        a.exponent >= -23,
    ensures
        root(SINGLE as nat, a).mantissa > 0,
        root(SINGLE as nat, a).exponent >= -23,
{
    let unit = SINGLE as nat;
    lemma2_to64();
    lemma2_to64_rest();
    let n = if a.exponent % 2 == 0 { a.mantissa } else { 2 * a.mantissa };
    let h = a.exponent / 2;
    if a.exponent % 2 == 0 {
        assert(pow2(24) == 0x100_0000);
        assert(unit * unit <= n * 0x100_0000) by (nonlinear_arith)
            requires
                n >= unit,
                unit == 0x80_0000,
        ;
        lemma_fourfold_least(unit * unit, n, h, 12);
    } else {
        assert(pow2(22) == 0x40_0000);
        assert(unit * unit <= n * 0x40_0000) by (nonlinear_arith)
            requires
                n >= 2 * unit,
                unit == 0x80_0000,
        ;
        lemma_fourfold_least(unit * unit, n, h, 11);
    }
    let (n2, h2) = scale_fourfold(unit * unit, n, h);
    lemma_root_found(n2);
}

} // verus!
