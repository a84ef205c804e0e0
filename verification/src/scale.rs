//! Scaling an image, and the size that images are searched at.

use vstd::prelude::*;
use vstd::arithmetic::div_mod::lemma_fundamental_div_mod_converse;
use vstd::arithmetic::power2::{lemma2_to64, lemma2_to64_rest, lemma_pow2_adds, lemma_pow2_pos,
    lemma_pow2_strictly_increases, pow2};
use crate::float::{distance, divide, is_less, law_doubled, law_tripled, lemma_exact_integer, lemma_integer_close,
    lemma_large_integer, lemma_ratio_close, lemma_root_least, lemma_quotient_most, lemma_single_least, less,
    multiply, nearest_integer, product, quotient, ratio, root, round_ratio, round_to_integer, scale_down, scale_up,
    square_root, subtract, Binary, Float, SINGLE};
use crate::raster::{fits, is_countable, lemma_fits, Gray, GrayImage};

verus! {

/// How pixels are weighed when an image is scaled.
#[derive(Clone, Copy)]
pub enum Filter {
    Lanczos3,
    CatmullRom,
}

/// Whether `out` is what scaling `source` to `width` by `height` may give. The weights of the
/// Lanczos filter come from a sine, which is not the same to the last bit on every machine.
pub uninterp spec fn resize_outcome(source: Gray, width: u32, height: u32, filter: Filter, out: Gray) -> bool;

/// Calls `image::imageops::resize`. Claimed of it: the image it returns has the size asked
/// for, is the source itself where that is its size, and is an outcome of scaling the source
/// to that size with that filter. Which levels the scaled pixels have is not stated.
#[verifier::external_body]
pub(crate) fn resize(gray: &GrayImage, width: u32, height: u32, filter: Filter) -> (r: GrayImage)
    requires
        gray@.wf(),
        1 <= width <= 8000,
        1 <= height <= 8000,
    ensures
        r@.wf(),
        r.width == width,
        r.height == height,
        width == gray.width && height == gray.height ==> r@ == gray@,
        resize_outcome(gray@, width, height, filter, r@),
{
    let kind = match filter {
        Filter::Lanczos3 => image::imageops::FilterType::Lanczos3,
        Filter::CatmullRom => image::imageops::FilterType::CatmullRom,
    };
    let source = image::GrayImage::from_raw(gray.width, gray.height, gray.pixels.clone()).unwrap();
    let out = image::imageops::resize(&source, width, height, kind);
    GrayImage { width: out.width(), height: out.height(), pixels: out.into_raw() }
}

/// The integer `n` in single precision.
pub open spec fn single(n: nat) -> Binary {
    ratio(SINGLE as nat, n, 1)
}

/// One, in single precision.
pub open spec fn one() -> Binary {
    Binary { mantissa: 0x80_0000, exponent: -23 }
}

/// The distance from one to the next number in single precision.
pub open spec fn epsilon() -> Binary {
    Binary { mantissa: 0x80_0000, exponent: -46 }
}

/// The scale one.
pub fn scale_one() -> (r: Float)
    ensures
        r@ == one(),
{
    Float { mantissa: 0x80_0000, exponent: -23 }
}

/// The scale one and a half.
pub fn scale_three_halves() -> (r: Float)
    ensures
        r@ == three_halves(),
{
    Float { mantissa: 0xc0_0000, exponent: -23 }
}

/// The scale two.
pub fn scale_two() -> (r: Float)
    ensures
        r@ == two(),
{
    Float { mantissa: 0x80_0000, exponent: -22 }
}

/// The scale three.
pub fn scale_three() -> (r: Float)
    ensures
        r@ == three(),
{
    Float { mantissa: 0xc0_0000, exponent: -22 }
}

/// One and a half, in single precision.
pub open spec fn three_halves() -> Binary {
    Binary { mantissa: 0xc0_0000, exponent: -23 }
}

/// Two, in single precision.
pub open spec fn two() -> Binary {
    Binary { mantissa: 0x80_0000, exponent: -22 }
}

/// Three, in single precision.
pub open spec fn three() -> Binary {
    Binary { mantissa: 0xc0_0000, exponent: -22 }
}

/// A positive scale in single precision, neither tiny nor huge.
pub open spec fn is_scale(scale: Binary) -> bool {
    &&& SINGLE <= scale.mantissa < 2 * SINGLE
    &&& -60 <= scale.exponent <= 20
}

/// A side of an image times a scale, rounded, from one up to `limit`.
pub open spec fn scaled_side(side: u32, scale: Binary, limit: u32) -> u32 {
    let n = nearest_integer(product(SINGLE as nat, single(side as nat), scale));
    if n < 1 {
        1
    } else if n < limit {
        n as u32
    } else {
        limit
    }
}

/// A side times a scale, rounded, from one up to `limit`.
pub fn scale_side(side: u32, scale: Float, limit: u32) -> (r: u32)
    requires
        is_scale(scale@),
        1 <= limit,
    ensures
        r == scaled_side(side, scale@, limit),
        1 <= r <= limit,
{
    let n: u32 = round_to_integer(multiply(SINGLE, round_ratio(SINGLE, side as u128, 1), scale), limit);
    if n < 1 {
        1
    } else {
        n
    }
}

/// Whether a scale is one, as near as single precision tells.
pub open spec fn near_one(scale: Binary) -> bool {
    less(distance(SINGLE as nat, scale, one()), epsilon())
}

/// One is near one.
pub proof fn lemma_one_is_near()
    ensures
        near_one(one()),
{
}

/// Whether `out` is what scaling `gray` by a factor may give.
pub open spec fn scaled_outcome(gray: Gray, scale: Binary, out: Gray) -> bool {
    if near_one(scale) {
        out == gray
    } else {
        resize_outcome(
            gray,
            scaled_side(gray.width, scale, 8000),
            scaled_side(gray.height, scale, 8000),
            Filter::Lanczos3,
            out,
        )
    }
}

/// Scales an image by a factor. Each side has from 1 to 8000 pixels then, unless the factor
/// is one, which changes nothing.
pub fn resize_with_scale(gray: &GrayImage, scale: Float) -> (r: GrayImage)
    requires
        gray@.wf(),
        is_scale(scale@),
    ensures
        scaled_outcome(gray@, scale@, r@),
        r@.wf(),
        !near_one(scale@) ==> r.width == scaled_side(gray.width, scale@, 8000) && r.height == scaled_side(
            gray.height,
            scale@,
            8000,
        ),
{
    let apart: Float = subtract(SINGLE, scale, scale_one());
    if is_less(apart, Float { mantissa: 0x80_0000, exponent: -46 }) {
        return gray.duplicate();
    }
    let w: u32 = scale_side(gray.width, scale, 8000);
    let h: u32 = scale_side(gray.height, scale, 8000);
    resize(gray, w, h, Filter::Lanczos3)
}

/// Whether an image is small enough to be searched as it is.
pub open spec fn is_small(gray: Gray) -> bool {
    gray.width <= 2400 && gray.height <= 2400 && gray.width * gray.height <= 3_600_000
}

/// The lesser of two numbers.
pub open spec fn lesser(a: Binary, b: Binary) -> Binary {
    if less(b, a) {
        b
    } else {
        a
    }
}

/// A number moved into the range from a fifth, as single precision has it, to one.
pub open spec fn clamped(a: Binary) -> Binary {
    let fifth = Binary { mantissa: 0xcc_cccd, exponent: -26 };
    if less(a, fifth) {
        fifth
    } else if less(one(), a) {
        one()
    } else {
        a
    }
}

/// The factor that brings a large image down: its longer side to 2400 pixels and its area to
/// 3,600,000, but no further than to a fifth. An image without pixels has no area to bring
/// down.
pub open spec fn input_scale(width: u32, height: u32) -> Binary {
    let unit = SINGLE as nat;
    let side = if width < height { height } else { width };
    let area = (width * height) as nat;
    let by_side = quotient(unit, single(2400), single(side as nat));
    if area == 0 {
        clamped(by_side)
    } else {
        clamped(lesser(by_side, root(unit, quotient(unit, single(3_600_000), single(area)))))
    }
}

/// Whether `out` is what bringing `gray` to the size it is searched at may give.
pub open spec fn normalized_outcome(gray: Gray, out: Gray) -> bool {
    if is_small(gray) {
        out == gray
    } else {
        scaled_outcome(gray, input_scale(gray.width, gray.height), out)
    }
}

/// The lesser of two numbers.
fn least(a: Float, b: Float) -> (r: Float)
    ensures
        r@ == lesser(a@, b@),
        r == a || r == b,
{
    if is_less(b, a) {
        b
    } else {
        a
    }
}

/// A positive number moved into the range from a fifth to one.
fn clamp_scale(a: Float) -> (r: Float)
    requires
        SINGLE <= a.mantissa < 2 * SINGLE,
    ensures
        r@ == clamped(a@),
        is_scale(r@),
{
    let fifth: Float = Float { mantissa: 0xcc_cccd, exponent: -26 };
    if is_less(a, fifth) {
        fifth
    } else if is_less(scale_one(), a) {
        scale_one()
    } else {
        a
    }
}

/// The factor that brings a large image down.
pub fn scale_of_input(width: u32, height: u32) -> (r: Float)
    requires
        0 < width || 0 < height,
        fits(width, height),
    ensures
        r@ == input_scale(width, height),
        is_scale(r@),
        width >= 0x8000 || height >= 0x8000 ==> !near_one(r@),
{
    let side: u32 = if width < height { height } else { width };
    proof {
        lemma_fits(width, height);
    }
    let area: u64 = width as u64 * height as u64;
    let by_side: Float = divide(
        SINGLE,
        round_ratio(SINGLE, 2400, 1),
        round_ratio(SINGLE, side as u128, 1),
    );
    proof {
        if side >= 0x8000 {
            lemma_single_2400();
            lemma_single_least(side as nat);
            lemma_quotient_most(9_830_400, single(side as nat).mantissa);
            lemma_long_side(by_side@, by_side@);
        }
    }
    if area == 0 {
        clamp_scale(by_side)
    } else {
        let by_area: Float = square_root(
            divide(SINGLE, round_ratio(SINGLE, 3_600_000, 1), round_ratio(SINGLE, area as u128, 1)),
        );
        proof {
            if side >= 0x8000 {
                lemma_long_side(by_side@, by_area@);
            }
        }
        clamp_scale(least(by_side, by_area))
    }
}

/// The number 2400 in single precision.
proof fn lemma_single_2400()
    ensures
        single(2400) == (Binary { mantissa: 9_830_400, exponent: -12 }),
{
    reveal_with_fuel(crate::float::scale_up, 14);
    assert(scale_down(SINGLE as nat, 2400, 1, 0) == (1nat, 0int));
    assert(scale_up(SINGLE as nat, 2400, 1, 0) == (9_830_400nat, -12int));
}

/// A factor between a fifth and a half is not near one.
proof fn lemma_not_near_one(scale: Binary)
    requires
        scale.exponent == -26,
        scale.mantissa < 2 * SINGLE,
    ensures
        !near_one(scale),
{
    lemma2_to64();
    let x = scale.mantissa * pow2(0);
    let y = 0x80_0000nat * pow2(3);
    assert(pow2(3) == 8);
    assert(x == scale.mantissa) by (nonlinear_arith)
        requires
            x == scale.mantissa * pow2(0),
            pow2(0) == 1,
    ;
    lemma_large_integer(SINGLE as nat, (y - x) as nat);
}

/// A side of 32768 or more is scaled down, unless there is no image.
proof fn lemma_long_side(by_side: Binary, other: Binary)
    requires
        by_side.exponent <= -26,
        SINGLE <= by_side.mantissa < 2 * SINGLE,
        SINGLE <= other.mantissa < 2 * SINGLE,
    ensures
        !near_one(clamped(by_side)),
        !near_one(clamped(lesser(by_side, other))),
{
    lemma_not_near_one(clamped(by_side));
    lemma_not_near_one(clamped(lesser(by_side, other)));
}

/// Brings an image to the size it is searched at.
pub fn normalize_gray_input(gray: &GrayImage) -> (r: GrayImage)
    requires
        gray@.wf(),
    ensures
        normalized_outcome(gray@, r@),
        r@.wf(),
        is_countable(r@),
{
    proof {
        lemma_fits(gray.width, gray.height);
    }
    let area: u64 = gray.width as u64 * gray.height as u64;
    if gray.width <= 2400 && gray.height <= 2400 && area <= 3_600_000 {
        return gray.duplicate();
    }
    assert(gray.width == 0 ==> gray.width * gray.height == 0) by (nonlinear_arith);
    let r: GrayImage = resize_with_scale(gray, scale_of_input(gray.width, gray.height));
    assert(r.width * r.height <= 0x8000 * 0x8000) by (nonlinear_arith)
        requires
            r.width <= 0x8000,
            r.height <= 0x8000,
    ;
    r
}

/// Scaling by one keeps a side, and scaling by two doubles it, up to the limit.
pub proof fn law_scaled_side(side: u32, limit: u32)
    requires
        0 < side <= 0x7f_ffff,
        limit >= 1,
    ensures
        scaled_side(side, one(), limit) == if side < limit { side } else { limit },
        scaled_side(side, two(), limit) == if 2 * side < limit { (2 * side) as u32 } else { limit },
{
    lemma2_to64();
    law_doubled(side as nat, 0);
    law_doubled(side as nat, 1);
    assert(side * pow2(0) == side) by (nonlinear_arith)
        requires
            pow2(0) == 1,
    ;
    assert(side * pow2(1) == 2 * side) by (nonlinear_arith)
        requires
            pow2(1) == 2,
    ;
}

/// However an image is scaled, its sides have from 1 to 8000 pixels then, unless it is left as it
/// is.
pub proof fn law_scaled_bounds(side: u32, scale: Binary, limit: u32)
    requires
        limit >= 1,
    ensures
        1 <= scaled_side(side, scale, limit) <= limit,
{
}

/// Scaling an image by one, or bringing one to the size it is searched at that has up to 2400
/// pixels in each side and up to 3,600,000 in all, leaves it as it is.
pub proof fn law_left_as_it_is(gray: Gray, out: Gray)
    ensures
        scaled_outcome(gray, one(), out) <==> out == gray,
        gray.width <= 2400 && gray.height <= 2400 && gray.width * gray.height <= 3_600_000 ==> (normalized_outcome(gray, out)
            <==> out == gray),
{
    lemma_one_is_near();
}

/// Scaling by one and a half, and by three, gives that many times a side, halves upward, up to the
/// limit.
pub proof fn law_tripled_side(side: u32, limit: u32)
    requires
        0 < side <= 0x3f_ffff,
        limit >= 1,
    ensures
        scaled_side(side, three_halves(), limit) == if (3 * side + 1) / 2 < limit {
            ((3 * side + 1) / 2) as u32
        } else {
            limit
        },
        scaled_side(side, three(), limit) == if 3 * side < limit { (3 * side) as u32 } else { limit },
{
    law_tripled(side as nat, 0);
    law_tripled(side as nat, 1);
}

proof fn lemma_far_from_one(scale: Binary)
    requires
        scale == three_halves() || scale == two(),
    ensures
        !near_one(scale),
{
    lemma2_to64();
    assert(pow2(0) == 1 && pow2(1) == 2);
    let unit = SINGLE as nat;
    if scale == two() {
        let x = 0x80_0000nat * pow2(1);
        let y = 0x80_0000nat * pow2(0);
        assert(x - y == unit);
        lemma_large_integer(unit, (x - y) as nat);
    } else {
        let x = 0xc0_0000nat * pow2(0);
        let y = 0x80_0000nat * pow2(0);
        assert(x - y == 0x40_0000);
        let k = lemma_exact_integer(unit, 0x40_0000);
        assert(k <= 1) by {
            if k > 1 {
                if k > 2 {
                    lemma_pow2_strictly_increases(2, k);
                }
                assert(0x40_0000 * pow2(k) >= 0x40_0000 * 4) by (nonlinear_arith)
                    requires
                        pow2(k) >= 4,
                ;
            }
        }
    }
}

/// An image that is scaled by two, or by one and a half, has sides that are so many times as long,
/// up to 8000 pixels, and is resampled with the Lanczos filter.
pub proof fn law_scaled(gray: Gray, out: Gray)
    requires
        0 < gray.width <= 0x3f_ffff,
        0 < gray.height <= 0x3f_ffff,
    ensures
        scaled_outcome(gray, two(), out) <==> resize_outcome(
            gray,
            if 2 * gray.width < 8000 {
                (2 * gray.width) as u32
            } else {
                8000
            },
            if 2 * gray.height < 8000 {
                (2 * gray.height) as u32
            } else {
                8000
            },
            Filter::Lanczos3,
            out,
        ),
        scaled_outcome(gray, three_halves(), out) <==> resize_outcome(
            gray,
            if (3 * gray.width + 1) / 2 < 8000 {
                ((3 * gray.width + 1) / 2) as u32
            } else {
                8000
            },
            if (3 * gray.height + 1) / 2 < 8000 {
                ((3 * gray.height + 1) / 2) as u32
            } else {
                8000
            },
            Filter::Lanczos3,
            out,
        ),
{
    lemma_far_from_one(two());
    lemma_far_from_one(three_halves());
    law_scaled_side(gray.width, 8000);
    law_scaled_side(gray.height, 8000);
    law_tripled_side(gray.width, 8000);
    law_tripled_side(gray.height, 8000);
}

/// The factor that brings a side of more than 2400 and up to 9000 pixels to 2400.
proof fn lemma_by_side(side: nat)
    requires
        2400 < side <= 9000,
    ensures
        ({
            let unit = SINGLE as nat;
            let factor = quotient(unit, single(2400), single(side));
            &&& unit <= factor.mantissa < 2 * unit
            &&& -25 <= factor.exponent <= -24
            &&& factor.exponent == -24 ==> factor.mantissa <= 0xff_fffe
            &&& nearest_integer(product(unit, single(side), factor)) == 2400
        }),
{
    let unit = SINGLE as nat;
    lemma2_to64();
    lemma2_to64_rest();
    lemma_single_2400();
    let k = lemma_exact_integer(unit, side);
    let kk = pow2(k);
    let b = side * kk;
    lemma_pow2_pos(k);
    assert(k >= 10) by {
        if k < 10 {
            if k < 9 {
                lemma_pow2_strictly_increases(k, 9);
            }
            assert(side * kk <= 9000 * 512) by (nonlinear_arith)
                requires
                    side <= 9000,
                    kk <= 512,
            ;
        }
    }
    let a = 9_830_400nat;
    assert(2 * a <= unit * b) by (nonlinear_arith)
        requires
            a == 9_830_400,
            unit == 0x80_0000,
            b >= unit,
    ;
    let j = lemma_ratio_close(unit, a, b);
    let jj = pow2(j);
    let m = ratio(unit, a, b).mantissa;
    let factor = quotient(unit, single(2400), single(side));
    assert(factor == (Binary { mantissa: m, exponent: k - j - 12 }));
    let x = m * b;
    let y = a * jj;
    lemma_by_side_exponent(side, k, j, m);
    let n = b * m;
    assert(n == x) by (nonlinear_arith)
        requires
            n == b * m,
            x == m * b,
    ;
    assert(unit <= n < 0x1_0000_0000_0000) by (nonlinear_arith)
        requires
            n == b * m,
            unit == 0x80_0000,
            unit <= b < 2 * unit,
            unit <= m < 2 * unit,
    ;
    let t = lemma_integer_close(unit, n);
    let tt = pow2(t);
    let mp = ratio(unit, n, 1).mantissa;
    assert(t <= 25) by {
        if t > 25 {
            if t > 26 {
                lemma_pow2_strictly_increases(26, t);
            }
            assert(false) by (nonlinear_arith)
                requires
                    2 * (mp * tt - n) <= tt,
                    mp >= 0x80_0000,
                    tt >= 0x400_0000,
                    n < 0x1_0000_0000_0000,
            ;
        }
    }
    if t < 25 {
        lemma_pow2_strictly_increases(t, 25);
    }
    if j > 22 {
        lemma_pow2_strictly_increases(22, j);
    }
    let e = (j + 12 - t) as nat;
    let pp = pow2(e);
    lemma_pow2_pos(t);
    lemma_pow2_pos(e);
    lemma_pow2_adds(e, t);
    lemma_pow2_adds(j, 12);
    let p = product(unit, single(side), factor);
    assert(p == (Binary { mantissa: mp, exponent: -(e as int) }));
    assert(pp * tt == 4096 * jj) by (nonlinear_arith)
        requires
            pp * tt == pow2((j + 12) as nat),
            jj * pow2(12) == pow2((j + 12) as nat),
            pow2(12) == 4096,
    ;
    let w = pp * tt;
    assert(2400 * w == y) by (nonlinear_arith)
        requires
            w == 4096 * jj,
            y == 9_830_400 * jj,
    ;
    let z = mp * tt;
    assert(-w <= 2 * (z - y) < w) by {
        assert(tt <= 0x200_0000 && b < 0x100_0000);
        assert(w >= 4096 * 0x40_0000);
    }
    assert(4800 * pp <= 2 * mp + pp) by (nonlinear_arith)
        requires
            -w <= 2 * (z - y),
            w == pp * tt,
            y == 2400 * w,
            z == mp * tt,
            tt > 0,
    ;
    assert(2 * mp + pp < 4802 * pp) by (nonlinear_arith)
        requires
            2 * (z - y) < w,
            w == pp * tt,
            y == 2400 * w,
            z == mp * tt,
            tt > 0,
    ;
    let r = 2 * mp + pp - 4800 * pp;
    assert(2 * mp + pp == 2400 * (2 * pp) + r);
    lemma_fundamental_div_mod_converse((2 * mp + pp) as int, (2 * pp) as int, 2400, r);
}

proof fn lemma_by_side_exponent(side: nat, k: nat, j: nat, m: nat)
    requires
        2400 < side <= 9000,
        SINGLE <= m < 2 * SINGLE,
        k >= 10,
        -(side * pow2(k)) <= 2 * (m * (side * pow2(k)) - 9_830_400 * pow2(j)) <= side * pow2(k),
    ensures
        k + 12 <= j <= k + 13,
        j == k + 12 ==> m <= 0xff_fffe,
{
    lemma2_to64();
    lemma2_to64_rest();
    let kk = pow2(k);
    let jj = pow2(j);
    lemma_pow2_pos(k);
    lemma_pow2_adds(k, 11);
    lemma_pow2_adds(k, 12);
    lemma_pow2_adds(k, 14);
    let b = side * kk;
    let x = m * b;
    if j < k + 12 {
        if j < k + 11 {
            lemma_pow2_strictly_increases(j, (k + 11) as nat);
        }
        assert(jj <= 2048 * kk) by (nonlinear_arith)
            requires
                jj <= pow2((k + 11) as nat),
                kk * pow2(11) == pow2((k + 11) as nat),
                pow2(11) == 2048,
        ;
        assert(false) by (nonlinear_arith)
            requires
                2 * (x - 9_830_400 * jj) <= b,
                x == m * b,
                b == side * kk,
                m >= 0x80_0000,
                2400 < side <= 9000,
                jj <= 2048 * kk,
                kk > 0,
        ;
    }
    if j > k + 13 {
        if j > k + 14 {
            lemma_pow2_strictly_increases((k + 14) as nat, j);
        }
        assert(jj >= 16384 * kk) by (nonlinear_arith)
            requires
                jj >= pow2((k + 14) as nat),
                kk * pow2(14) == pow2((k + 14) as nat),
                pow2(14) == 16384,
        ;
        assert(x <= 0xff_ffff * 9000 * kk) by (nonlinear_arith)
            requires
                x == m * b,
                b == side * kk,
                m <= 0xff_ffff,
                side <= 9000,
                kk > 0,
        ;
        assert(b <= 9000 * kk) by (nonlinear_arith)
            requires
                b == side * kk,
                side <= 9000,
                kk > 0,
        ;
        assert(-b <= 2 * (x - 9_830_400 * jj));
        assert(false) by (nonlinear_arith)
            requires
                -b <= 2 * (x - 9_830_400 * jj),
                x <= 0xff_ffff * 9000 * kk,
                b <= 9000 * kk,
                jj >= 16384 * kk,
                kk > 0,
        ;
    }
    if j == k + 12 && m > 0xff_fffe {
        assert(jj == 4096 * kk) by (nonlinear_arith)
            requires
                kk * pow2(12) == jj,
                pow2(12) == 4096,
        ;
        assert(x == 0xff_ffff * side * kk) by (nonlinear_arith)
            requires
                x == m * b,
                b == side * kk,
                m == 0xff_ffff,
        ;
        assert(side * kk >= 2401 * kk) by (nonlinear_arith)
            requires
                side >= 2401,
                kk > 0,
        ;
        assert(false) by (nonlinear_arith)
            requires
                2 * (x - 9_830_400 * jj) <= b,
                x == 0xff_ffff * side * kk,
                b == side * kk,
                jj == 4096 * kk,
                side >= 2401,
                kk > 0,
        ;
    }
}

/// The factor for the area of an image is at least one where the area is small enough.
proof fn lemma_by_area(area: nat)
    requires
        0 < area <= 3_600_000,
    ensures
        ({
            let unit = SINGLE as nat;
            let factor = root(unit, quotient(unit, single(3_600_000), single(area)));
            factor.mantissa > 0 && factor.exponent >= -23
        }),
{
    let unit = SINGLE as nat;
    lemma2_to64();
    let c = lemma_exact_integer(unit, 3_600_000);
    let d = lemma_exact_integer(unit, area);
    let cc = 3_600_000 * pow2(c);
    let dd = area * pow2(d);
    assert(2 * cc <= unit * dd) by (nonlinear_arith)
        requires
            cc < 2 * unit,
            dd >= unit,
            unit == 0x80_0000,
    ;
    let j = lemma_ratio_close(unit, cc, dd);
    let m = ratio(unit, cc, dd).mantissa;
    let a = quotient(unit, single(3_600_000), single(area));
    assert(a == (Binary { mantissa: m, exponent: d - j - c }));
    assert(a.exponent >= -23) by {
        if d - j - c < -23 {
            lemma_pow2_pos(c);
            lemma_pow2_pos(d);
            let s = (j + c) as nat;
            lemma_pow2_adds(c, j);
            lemma_pow2_adds(d, 24);
            lemma2_to64_rest();
            if s > d + 24 {
                lemma_pow2_strictly_increases((d + 24) as nat, s);
            }
            let y = cc * pow2(j);
            assert(y == 3_600_000 * pow2(s)) by (nonlinear_arith)
                requires
                    y == cc * pow2(j),
                    cc == 3_600_000 * pow2(c),
                    pow2(c) * pow2(j) == pow2(s),
            ;
            assert(y >= dd * 0x100_0000) by (nonlinear_arith)
                requires
                    y == 3_600_000 * pow2(s),
                    pow2(s) >= pow2((d + 24) as nat),
                    pow2(d) * pow2(24) == pow2((d + 24) as nat),
                    pow2(24) == 0x100_0000,
                    dd == area * pow2(d),
                    area <= 3_600_000,
                    pow2(d) > 0,
            ;
            assert(m * dd <= 0xff_ffff * dd) by (nonlinear_arith)
                requires
                    m <= 0xff_ffff,
            ;
            assert(false);
        }
    }
    lemma_root_least(a);
}

proof fn lemma_scaled_far(scale: Binary)
    requires
        SINGLE <= scale.mantissa < 2 * SINGLE,
        -25 <= scale.exponent <= -24,
        scale.exponent == -24 ==> scale.mantissa <= 0xff_fffe,
    ensures
        !near_one(scale),
{
    let unit = SINGLE as nat;
    lemma2_to64();
    lemma2_to64_rest();
    let x = scale.mantissa * pow2(0);
    assert(x == scale.mantissa) by (nonlinear_arith)
        requires
            x == scale.mantissa * pow2(0),
            pow2(0) == 1,
    ;
    if scale.exponent == -25 {
        let y = 0x80_0000nat * pow2(2);
        assert(y == 0x200_0000);
        lemma_large_integer(unit, (y - x) as nat);
    } else {
        let y = 0x80_0000nat * pow2(1);
        assert(y == 0x100_0000);
        let n = (y - x) as nat;
        assert(2 <= n <= unit);
        let k = lemma_exact_integer(unit, n);
        assert(k <= 22) by {
            if k > 22 {
                if k > 23 {
                    lemma_pow2_strictly_increases(23, k);
                }
                assert(n * pow2(k) >= 2 * 0x80_0000) by (nonlinear_arith)
                    requires
                        n >= 2,
                        pow2(k) >= 0x80_0000,
                ;
            }
        }
    }
}

/// A long image of not too large an area is brought down to 2400 pixels in its longer side, with
/// the Lanczos filter, and its shorter side in proportion.
pub proof fn law_long_image(gray: Gray, out: Gray)
    requires
        0 < gray.width * gray.height <= 3_600_000,
        2400 < gray.width <= 9000,
        0 < gray.height <= gray.width,
    ensures
        normalized_outcome(gray, out) <==> resize_outcome(
            gray,
            2400,
            scaled_side(gray.height, quotient(SINGLE as nat, single(2400), single(gray.width as nat)), 8000),
            Filter::Lanczos3,
            out,
        ),
{
    let unit = SINGLE as nat;
    let side = gray.width as nat;
    let area = (gray.width * gray.height) as nat;
    let by_side = quotient(unit, single(2400), single(side));
    let by_area = root(unit, quotient(unit, single(3_600_000), single(area)));
    lemma_by_side(side);
    lemma_by_area(area);
    lemma_scaled_far(by_side);
    assert(lesser(by_side, by_area) == by_side);
    assert(clamped(by_side) == by_side);
    assert(input_scale(gray.width, gray.height) == by_side);
    assert(scaled_side(gray.width, by_side, 8000) == 2400);
}

/// The factor that brings an image down does not depend on which of its sides is the longer one. It
/// is that of its longer side or that of its area, whichever is less, but no less than a fifth and
/// no more than one.
pub proof fn law_input_scale(width: u32, height: u32)
    requires
        width > 0,
        height > 0,
    ensures
        input_scale(width, height) == input_scale(height, width),
        !less(input_scale(width, height), Binary { mantissa: 0xcc_cccd, exponent: -26 }),
        !less(Binary { mantissa: 0x80_0000, exponent: -23 }, input_scale(width, height)),
        ({
            let unit = SINGLE as nat;
            let longer = if width < height { height as nat } else { width as nat };
            let by_side = quotient(unit, ratio(unit, 2400, 1), ratio(unit, longer, 1));
            let by_area = root(
                unit,
                quotient(unit, ratio(unit, 3_600_000, 1), ratio(unit, (width * height) as nat, 1)),
            );
            let least = if less(by_area, by_side) { by_area } else { by_side };
            !less(least, Binary { mantissa: 0xcc_cccd, exponent: -26 }) && !less(
                Binary { mantissa: 0x80_0000, exponent: -23 },
                least,
            ) ==> input_scale(width, height) == least
        }),
{
    assert(width * height == height * width) by (nonlinear_arith);
    assert(width * height > 0) by (nonlinear_arith)
        requires
            width > 0,
            height > 0,
    ;
}

} // verus!
