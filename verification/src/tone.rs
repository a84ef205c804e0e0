//! The tone curve: a gamma of 17/20, in whole levels.
//!
//! Level `v` becomes 255 (v / 255) ^ (20 / 17), rounded. The seventeenth power of that is a
//! fraction of integers, so the rounding is decided by comparing integers of some 180 bits.

use vstd::prelude::*;
use vstd::arithmetic::power::{lemma0_pow, lemma_pow_adds, lemma_pow_distributes, lemma_pow_positive, pow};
use crate::raster::{mapped, GrayImage};

verus! {

/// The seventeenth power of `out` and a half, both sides of the comparison scaled to integers.
pub open spec fn half_step(out: int) -> int {
    pow(2 * out + 1, 17) * pow(255, 3)
}

/// The seventeenth power of the exact tone of level `v`, on the same scale.
pub open spec fn exact_tone(v: int) -> int {
    pow(v, 20) * pow(2, 17)
}

/// Whether `out` is the exact tone of `v`, rounded to the nearest level, halves upward.
pub open spec fn is_tone(v: int, out: int) -> bool {
    &&& out > 0 ==> half_step(out - 1) <= exact_tone(v)
    &&& exact_tone(v) < half_step(out)
}

/// The tone of a level.
pub open spec fn tone_level(v: u8) -> u8 {
    choose|out: u8| is_tone(v as int, out as int)
}

proof fn lemma_pow_monotone(x: int, y: int, n: nat)
    requires
        0 <= x <= y,
    ensures
        0 <= pow(x, n) <= pow(y, n),
    decreases n,
{
    reveal(pow);
    if n > 0 {
        lemma_pow_monotone(x, y, (n - 1) as nat);
        let a = pow(x, (n - 1) as nat);
        let b = pow(y, (n - 1) as nat);
        assert(0 <= x * a <= y * b) by (nonlinear_arith)
            requires
                0 <= x <= y,
                0 <= a <= b,
        ;
    }
}

proof fn lemma_pow_strict(x: int, y: int, n: nat)
    requires
        0 <= x < y,
        0 < n,
    ensures
        pow(x, n) < pow(y, n),
{
    reveal(pow);
    lemma_pow_monotone(x, y, (n - 1) as nat);
    lemma_pow_positive(y, (n - 1) as nat);
    let a = pow(x, (n - 1) as nat);
    let b = pow(y, (n - 1) as nat);
    assert(x * a < y * b) by (nonlinear_arith)
        requires
            0 <= x < y,
            0 <= a <= b,
            0 < b,
    ;
}

proof fn lemma_half_step_monotone(a: int, b: int)
    requires
        0 <= a <= b,
    ensures
        half_step(a) <= half_step(b),
{
    lemma_pow_monotone(2 * a + 1, 2 * b + 1, 17);
    lemma_pow_positive(255, 3);
    let x = pow(2 * a + 1, 17);
    let y = pow(2 * b + 1, 17);
    let z = pow(255, 3);
    assert(x * z <= y * z) by (nonlinear_arith)
        requires
            x <= y,
            0 < z,
    ;
}

/// A level has one tone.
proof fn lemma_tone_unique(v: int, a: int, b: int)
    requires
        0 <= a,
        0 <= b,
        is_tone(v, a),
        is_tone(v, b),
    ensures
        a == b,
{
    if a < b {
        lemma_half_step_monotone(a, b - 1);
    }
    if b < a {
        lemma_half_step_monotone(b, a - 1);
    }
}

/// No tone is above the brightest level.
proof fn lemma_tone_range(v: int)
    requires
        0 <= v <= 255,
    ensures
        exact_tone(v) < half_step(255),
{
    lemma_pow_monotone(v, 255, 20);
    lemma_pow_positive(2, 17);
    lemma_pow_positive(255, 3);
    lemma_pow_adds(255, 17, 3);
    lemma_pow_distributes(255, 2, 17);
    lemma_pow_strict(510, 511, 17);
    let a = pow(v, 20);
    let b = pow(255, 17);
    let c = pow(255, 3);
    let d = pow(2, 17);
    assert(a * d < pow(511, 17) * c) by (nonlinear_arith)
        requires
            a <= b * c,
            b * d < pow(511, 17),
            0 < c,
            0 < d,
    ;
}

/// The number with the given digits in base two to the 32, the lowest first.
pub open spec fn number(digits: Seq<u32>) -> int
    decreases digits.len(),
{
    if digits.len() == 0 {
        0
    } else {
        number(digits.drop_last()) + digits.last() * pow(0x1_0000_0000, (digits.len() - 1) as nat)
    }
}

proof fn lemma_number_bound(digits: Seq<u32>)
    ensures
        0 <= number(digits) < pow(0x1_0000_0000, digits.len()),
    decreases digits.len(),
{
    reveal(pow);
    if digits.len() > 0 {
        lemma_number_bound(digits.drop_last());
        let p = pow(0x1_0000_0000, (digits.len() - 1) as nat);
        let d = digits.last() as int;
        assert(0 <= d * p <= 0xffff_ffff * p) by (nonlinear_arith)
            requires
                0 <= d <= 0xffff_ffff,
                0 < p,
        ;
    }
}

/// Of two numbers that agree from digit `n` on, the one with the smaller digit before that
/// is smaller.
proof fn lemma_number_less(a: Seq<u32>, b: Seq<u32>, n: int)
    requires
        a.len() == b.len(),
        0 < n <= a.len(),
        forall|i: int| n <= i < a.len() ==> a[i] == b[i],
        a[n - 1] < b[n - 1],
    ensures
        number(a) < number(b),
    decreases a.len(),
{
    let p = pow(0x1_0000_0000, (a.len() - 1) as nat);
    if n == a.len() {
        lemma_number_bound(a.drop_last());
        lemma_number_bound(b.drop_last());
        let x = a.last() as int;
        let y = b.last() as int;
        assert(x * p + p <= y * p) by (nonlinear_arith)
            requires
                x + 1 <= y,
                0 <= p,
        ;
    } else {
        lemma_number_less(a.drop_last(), b.drop_last(), n);
    }
}

/// Whether the first number is less than the second.
fn digits_less(a: &Vec<u32>, b: &Vec<u32>) -> (r: bool)
    requires
        a@.len() == b@.len(),
    ensures
        r == (number(a@) < number(b@)),
{
    let mut n: usize = a.len();
    while n > 0
        invariant
            a@.len() == b@.len(),
            n <= a@.len(),
            forall|i: int| n <= i < a@.len() ==> a@[i] == b@[i],
        decreases n,
    {
        if a[n - 1] < b[n - 1] {
            proof {
                lemma_number_less(a@, b@, n as int);
            }
            return true;
        }
        if b[n - 1] < a[n - 1] {
            proof {
                lemma_number_less(b@, a@, n as int);
            }
            return false;
        }
        n = n - 1;
    }
    assert(a@ =~= b@);
    false
}

/// The number times `k`, with one digit more.
fn digits_times(a: &Vec<u32>, k: u32) -> (r: Vec<u32>)
    ensures
        r@.len() == a@.len() + 1,
        number(r@) == number(a@) * k,
{
    let mut r: Vec<u32> = Vec::new();
    let mut carry: u64 = 0;
    proof {
        reveal(pow);
        assert(number(a@.take(0)) == 0);
        assert(0 * k == 0);
        assert(0 * pow(0x1_0000_0000, 0) == 0);
    }
    for i in 0..a.len()
        invariant
            carry <= 0xffff_ffff,
            r@.len() == i,
            number(r@) + carry * pow(0x1_0000_0000, i as nat) == number(a@.take(i as int)) * k,
    {
        let ghost before = r@;
        let ghost old_carry = carry as int;
        let d: u64 = a[i] as u64;
        assert(d * k <= 0xffff_ffff * 0xffff_ffff) by (nonlinear_arith)
            requires
                d <= 0xffff_ffff,
                k <= 0xffff_ffff,
        ;
        let t: u64 = d * k as u64 + carry;
        let low: u32 = (t % 0x1_0000_0000) as u32;
        carry = t / 0x1_0000_0000;
        r.push(low);
        proof {
            assert(r@.drop_last() =~= before);
            assert(a@.take(i + 1).drop_last() =~= a@.take(i as int));
            reveal(pow);
            let p = pow(0x1_0000_0000, i as nat);
            assert(pow(0x1_0000_0000, (i + 1) as nat) == 0x1_0000_0000 * p);
            let s = number(a@.take(i as int));
            let c = carry as int;
            let l = low as int;
            assert((s + d * p) * k == s * k + (d * k) * p) by (nonlinear_arith);
            assert(l * p + c * (0x1_0000_0000 * p) == (d * k) * p + old_carry * p) by (nonlinear_arith)
                requires
                    l + c * 0x1_0000_0000 == d * k + old_carry,
            ;
        }
    }
    let ghost before = r@;
    r.push(carry as u32);
    proof {
        assert(r@.drop_last() =~= before);
        assert(a@.take(a@.len() as int) =~= a@);
    }
    r
}

/// The number times the `n`th power of `k`, with `n` digits more.
fn digits_times_power(a: Vec<u32>, k: u32, n: u32) -> (r: Vec<u32>)
    ensures
        r@.len() == a@.len() + n,
        number(r@) == number(a@) * pow(k as int, n as nat),
{
    let mut r: Vec<u32> = a;
    proof {
        reveal(pow);
        assert(number(a@) * 1 == number(a@));
    }
    for i in 0..n
        invariant
            r@.len() == a@.len() + i,
            number(r@) == number(a@) * pow(k as int, i as nat),
    {
        proof {
            reveal(pow);
            let s = number(a@);
            let p = pow(k as int, i as nat);
            assert(pow(k as int, (i + 1) as nat) == k * p);
            assert(s * (k * p) == (s * p) * k) by (nonlinear_arith);
        }
        r = digits_times(&r, k);
    }
    r
}

/// The number one.
fn digits_of_one() -> (r: Vec<u32>)
    ensures
        r@.len() == 1,
        number(r@) == 1,
{
    let mut r: Vec<u32> = Vec::new();
    r.push(1);
    proof {
        reveal(pow);
        assert(r@.drop_last() =~= Seq::<u32>::empty());
        assert(number(Seq::<u32>::empty()) == 0);
    }
    r
}

/// The tone of each of the 256 levels.
fn tone_levels() -> (r: Vec<u8>)
    ensures
        r@.len() == 256,
        forall|v: int| 0 <= v < 256 ==> #[trigger] r@[v] == tone_level(v as u8),
{
    let mut steps: Vec<Vec<u32>> = Vec::new();
    for out in 0..256u32
        invariant
            steps@.len() == out,
            forall|i: int|
                0 <= i < out ==> #[trigger] steps@[i]@.len() == 38 && number(steps@[i]@) == half_step(i),
    {
        let power: Vec<u32> = digits_times_power(digits_of_one(), 2 * out + 1, 17);
        let step: Vec<u32> = digits_times_power(digits_times_power(power, 255, 3), 1, 17);
        proof {
            lemma_pow_one(17);
            let x = pow(2 * out + 1, 17);
            let y = pow(255, 3);
            assert((1 * x) * y * 1 == x * y) by (nonlinear_arith);
        }
        steps.push(step);
    }
    let mut levels: Vec<u8> = Vec::new();
    for v in 0..256u32
        invariant
            steps@.len() == 256,
            forall|i: int|
                0 <= i < 256 ==> #[trigger] steps@[i]@.len() == 38 && number(steps@[i]@) == half_step(i),
            levels@.len() == v,
            forall|i: int| 0 <= i < v ==> #[trigger] levels@[i] == tone_level(i as u8),
    {
        let exact: Vec<u32> = digits_times_power(digits_times_power(digits_of_one(), v, 20), 2, 17);
        proof {
            let x = pow(v as int, 20);
            assert(1 * x == x);
            lemma_tone_range(v as int);
        }
        let mut out: usize = 0;
        while !digits_less(&exact, &steps[out])
            invariant
                out < 256,
                v < 256,
                exact@.len() == 38,
                number(exact@) == exact_tone(v as int),
                exact_tone(v as int) < half_step(255),
                steps@.len() == 256,
                forall|i: int|
                    0 <= i < 256 ==> #[trigger] steps@[i]@.len() == 38 && number(steps@[i]@) == half_step(i),
                out > 0 ==> half_step(out - 1) <= exact_tone(v as int),
            decreases 256 - out,
        {
            assert(number(steps@[out as int]@) == half_step(out as int));
            out = out + 1;
        }
        proof {
            assert(number(steps@[out as int]@) == half_step(out as int));
            assert(is_tone(v as int, out as u8 as int));
            lemma_tone_unique(v as int, out as int, tone_level(v as u8) as int);
        }
        levels.push(out as u8);
    }
    levels
}

proof fn lemma_pow_one(n: nat)
    ensures
        pow(1, n) == 1,
    decreases n,
{
    reveal(pow);
    if n > 0 {
        lemma_pow_one((n - 1) as nat);
    }
}

/// The image with its levels mapped by the tone curve.
pub fn gamma_correct(gray: &GrayImage) -> (r: GrayImage)
    ensures
        r@ == mapped(gray@, |v: u8| tone_level(v)),
{
    let levels: Vec<u8> = tone_levels();
    let total: usize = gray.pixels.len();
    let mut pixels: Vec<u8> = Vec::with_capacity(total);
    for i in 0..total
        invariant
            levels@.len() == 256,
            forall|v: int| 0 <= v < 256 ==> #[trigger] levels@[v] == tone_level(v as u8),
            total == gray.pixels@.len(),
            pixels@.len() == i,
            forall|j: int| 0 <= j < i ==> #[trigger] pixels@[j] == tone_level(gray.pixels@[j]),
    {
        pixels.push(levels[gray.pixels[i] as usize]);
    }
    let r = GrayImage { width: gray.width, height: gray.height, pixels };
    assert(r@ =~= mapped(gray@, |v: u8| tone_level(v)));
    r
}

proof fn lemma_least_tone(v: int, n: int) -> (r: int)
    requires
        0 <= n,
        exact_tone(v) < half_step(n),
    ensures
        0 <= r <= n,
        is_tone(v, r),
    decreases n,
{
    if n == 0 || half_step(n - 1) <= exact_tone(v) {
        n
    } else {
        lemma_least_tone(v, n - 1)
    }
}

proof fn lemma_tone_is(v: u8)
    ensures
        is_tone(v as int, tone_level(v) as int),
{
    lemma_tone_range(v as int);
    let r = lemma_least_tone(v as int, 255);
    assert(is_tone(v as int, (r as u8) as int));
}

/// The tone of a level is 255 times the power 20/17 of its share of 255, rounded to the nearest
/// level. So black stays black, white stays white, and a brighter level has no darker tone.
pub proof fn law_tone(v: u8, w: u8)
    ensures
        pow(2 * tone_level(v) + 1, 17) * pow(255, 3) > pow(v as int, 20) * pow(2, 17),
        tone_level(v) > 0 ==> pow(2 * tone_level(v) - 1, 17) * pow(255, 3) <= pow(v as int, 20) * pow(2, 17),
        v <= w ==> tone_level(v) <= tone_level(w),
        tone_level(0) == 0,
        tone_level(255) == 255,
{
    lemma_tone_is(0);
    lemma_tone_is(255);
    lemma_pow_positive(255, 3);
    if tone_level(0) > 0 {
        let k = tone_level(0) - 1;
        lemma_pow_positive(2 * k + 1, 17);
        let x = pow(2 * k + 1, 17);
        let z = pow(255, 3);
        assert(x * z > 0) by (nonlinear_arith)
            requires
                x > 0,
                z > 0,
        ;
        lemma0_pow(20);
        assert(0 * pow(2, 17) == 0);
    }
    if tone_level(255) < 255 {
        lemma_half_step_monotone(tone_level(255) as int, 254);
        lemma_pow_monotone(509, 510, 17);
        lemma_pow_adds(255, 17, 3);
        lemma_pow_distributes(255, 2, 17);
        let (a, b, c, d) = (pow(255, 20), pow(255, 17), pow(255, 3), pow(2, 17));
        assert(pow(509, 17) * c <= a * d) by (nonlinear_arith)
            requires
                a == b * c,
                pow(509, 17) <= b * d,
                0 < c,
        ;
    }
    lemma_tone_is(v);
    lemma_tone_is(w);
    if v <= w && tone_level(v) > tone_level(w) {
        lemma_pow_monotone(v as int, w as int, 20);
        lemma_pow_positive(2, 17);
        assert(pow(v as int, 20) * pow(2, 17) <= pow(w as int, 20) * pow(2, 17)) by (nonlinear_arith)
            requires
                pow(v as int, 20) <= pow(w as int, 20),
                pow(2, 17) > 0,
        ;
        lemma_half_step_monotone(tone_level(w) as int, tone_level(v) - 1);
    }
}

} // verus!
