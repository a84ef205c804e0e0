//! Thresholds: over the neighbourhood of a pixel and over the whole image.

use vstd::prelude::*;
use vstd::arithmetic::power2::{lemma2_to64, lemma2_to64_rest, lemma_pow2_adds, lemma_pow2_pos,
    lemma_pow2_strictly_increases, pow2};
use crate::float::{distance, is_less, less, multiply, normal, product, ratio, round_ratio, subtract,
    Binary, Float, DOUBLE};
use crate::raster::{is_countable, lemma_fits, lemma_index, lemma_next, lemma_position, lemma_start, raster,
    Gray, GrayImage};

verus! {

/// The sum of the pixels of row `y` in the columns from `x0` up to but not with `x1`.
pub open spec fn row_sum(gray: Gray, y: int, x0: int, x1: int) -> int
    decreases x1 - x0,
{
    if x1 <= x0 {
        0
    } else {
        row_sum(gray, y, x0, x1 - 1) + gray.at(x1 - 1, y)
    }
}

/// The sum of the pixels in the columns from `x0` up to `x1` and the rows from `y0` up to
/// `y1`, the ends not counted.
pub open spec fn window_sum(gray: Gray, x0: int, y0: int, x1: int, y1: int) -> int
    decreases y1 - y0,
{
    if y1 <= y0 {
        0
    } else {
        window_sum(gray, x0, y0, x1, y1 - 1) + row_sum(gray, y1 - 1, x0, x1)
    }
}

/// The sum of the pixels left of column `x` and above row `y`, in 32 bits.
pub open spec fn corner_sum(gray: Gray, x: int, y: int) -> u32 {
    (window_sum(gray, 0, 0, x, y) % 0x1_0000_0000) as u32
}

/// The integral of an image: in column `x` of row `y`, the sum of all pixels left of and
/// above that place, with one row and one column more than the image has.
pub open spec fn integral_of(gray: Gray) -> Seq<u32> {
    let stride = gray.width + 1;
    Seq::new((stride * (gray.height + 1)) as nat, |i: int| corner_sum(gray, i % stride, i / stride))
}

proof fn lemma_no_columns(gray: Gray, x0: int, y0: int, y1: int)
    ensures
        window_sum(gray, x0, y0, x0, y1) == 0,
    decreases y1 - y0,
{
    if y0 < y1 {
        lemma_no_columns(gray, x0, y0, y1 - 1);
    }
}

proof fn lemma_row_split(gray: Gray, y: int, x0: int, x1: int, x2: int)
    requires
        x0 <= x1 <= x2,
    ensures
        row_sum(gray, y, x0, x2) == row_sum(gray, y, x0, x1) + row_sum(gray, y, x1, x2),
    decreases x2 - x1,
{
    if x1 < x2 {
        lemma_row_split(gray, y, x0, x1, x2 - 1);
    }
}

/// A window is what four corners say of it: the sum up to its far corner, less the sums
/// left of it and above it, plus what was taken twice.
proof fn lemma_corners(gray: Gray, x0: int, y0: int, x1: int, y1: int)
    requires
        0 <= x0 <= x1,
        0 <= y0 <= y1,
    ensures
        window_sum(gray, x0, y0, x1, y1) == window_sum(gray, 0, 0, x1, y1) + window_sum(gray, 0, 0, x0, y0)
            - window_sum(gray, 0, 0, x1, y0) - window_sum(gray, 0, 0, x0, y1),
    decreases y1 - y0,
{
    if y0 < y1 {
        lemma_corners(gray, x0, y0, x1, y1 - 1);
        lemma_row_split(gray, y1 - 1, 0, x0, x1);
    }
}

proof fn lemma_row_bound(gray: Gray, y: int, x0: int, x1: int)
    requires
        x0 <= x1,
    ensures
        0 <= row_sum(gray, y, x0, x1) <= 255 * (x1 - x0),
    decreases x1 - x0,
{
    if x0 < x1 {
        lemma_row_bound(gray, y, x0, x1 - 1);
    }
}

/// No window sums to more than its area times the brightest level.
pub proof fn lemma_window_bound(gray: Gray, x0: int, y0: int, x1: int, y1: int)
    requires
        x0 <= x1,
        y0 <= y1,
    ensures
        0 <= window_sum(gray, x0, y0, x1, y1) <= 255 * ((x1 - x0) * (y1 - y0)),
    decreases y1 - y0,
{
    let w = x1 - x0;
    let h = y1 - y0;
    if y0 < y1 {
        lemma_window_bound(gray, x0, y0, x1, y1 - 1);
        lemma_row_bound(gray, y1 - 1, x0, x1);
        assert(w * h == w * (h - 1) + w) by (nonlinear_arith);
    } else {
        assert(w * h == 0) by (nonlinear_arith)
            requires
                h == 0,
        ;
    }
}

/// The four entries of an integral that [`rect_sum`] reads, taken together in 32 bits.
pub open spec fn four_corners(integral: Seq<u32>, stride: int, x0: int, y0: int, x1: int, y1: int) -> u32 {
    ((integral[(y1 + 1) * stride + (x1 + 1)] + integral[y0 * stride + x0] - integral[y0 * stride + (x1 + 1)]
        - integral[(y1 + 1) * stride + x0]) % 0x1_0000_0000) as u32
}

/// Four entries of an integral give the sum of the window between them: exactly, where that
/// sum fits in 32 bits, even if the sums of larger parts of the image do not.
pub proof fn law_rect_sum(gray: Gray, x0: int, y0: int, x1: int, y1: int)
    requires
        gray.wf(),
        0 <= x0 <= x1 < gray.width,
        0 <= y0 <= y1 < gray.height,
        window_sum(gray, x0, y0, x1 + 1, y1 + 1) < 0x1_0000_0000,
    ensures
        four_corners(integral_of(gray), gray.width + 1, x0, y0, x1, y1) == window_sum(
            gray,
            x0,
            y0,
            x1 + 1,
            y1 + 1,
        ),
{
    let stride = gray.width + 1;
    let rows = gray.height + 1;
    lemma_index(stride, rows, x1 + 1, y1 + 1);
    lemma_index(stride, rows, x0, y0);
    lemma_index(stride, rows, x1 + 1, y0);
    lemma_index(stride, rows, x0, y1 + 1);
    lemma_corners(gray, x0, y0, x1 + 1, y1 + 1);
    lemma_window_bound(gray, x0, y0, x1 + 1, y1 + 1);
}

/// The integral of an image.
pub fn build_integral(gray: &GrayImage) -> (r: Vec<u32>)
    requires
        gray@.wf(),
    ensures
        r@ == integral_of(gray@),
{
    let width: usize = gray.width as usize;
    let height: usize = gray.height as usize;
    proof {
        lemma_fits(gray.width, gray.height);
        assert(gray.width <= gray.width * gray.height + gray.width + gray.height);
        assert(gray.height <= gray.width * gray.height + gray.width + gray.height);
    }
    let stride: usize = width + 1;
    let rows: usize = height + 1;
    let total: usize = stride * rows;
    let mut integral: Vec<u32> = Vec::with_capacity(total);
    let mut sum: u32 = 0;
    let mut x: usize = 0;
    let mut y: usize = 0;
    proof {
        lemma_start(stride as int, rows as int);
    }
    for i in 0..total
        invariant
            gray@.wf(),
            width == gray.width,
            height == gray.height,
            stride == width + 1,
            rows == height + 1,
            total == stride * rows,
            i < total ==> x == i as int % stride as int && y == i as int / stride as int,
            0 < x && 0 < y && i < total ==> sum == row_sum(gray@, y - 1, 0, x - 1) % 0x1_0000_0000,
            integral@.len() == i,
            forall|j: int| 0 <= j < i ==> #[trigger] integral@[j] == integral_of(gray@)[j],
    {
        proof {
            lemma_position(stride as int, rows as int, i as int);
        }
        if x == 0 || y == 0 {
            proof {
                lemma_no_columns(gray@, 0, 0, y as int);
            }
            sum = 0;
            integral.push(0);
        } else {
            proof {
                lemma_index(width as int, height as int, x - 1, y - 1);
                assert(0 <= (y - 1) * width) by (nonlinear_arith)
                    requires
                        y >= 1,
                ;
                assert(gray.pixels.len() <= usize::MAX);
                lemma_index(stride as int, rows as int, x as int, y - 1);
                assert((y - 1) * stride == y * stride - stride) by (nonlinear_arith);
                assert((y - 1) * stride + x == i - stride);
            }
            sum = sum.wrapping_add(gray.pixels[(y - 1) * width + (x - 1)] as u32);
            assert(integral@[i - stride] == corner_sum(gray@, x as int, y - 1));
            integral.push(integral[i - stride].wrapping_add(sum));
        }
        proof {
            lemma_next(stride as int, i as int);
        }
        x = x + 1;
        if x == stride {
            x = 0;
            y = y + 1;
        }
    }
    assert(integral@ =~= integral_of(gray@));
    integral
}

/// The sum of the pixels in the columns from `x0` to `x1` and the rows from `y0` to `y1`,
/// from the integral of an image.
pub fn rect_sum(integral: &[u32], stride: usize, x0: u32, y0: u32, x1: u32, y1: u32) -> (r: u32)
    requires
        x0 <= x1 + 1,
        y0 <= y1 + 1,
        y1 < usize::MAX,
        (y1 + 1) * stride + (x1 + 1) < integral@.len(),
    ensures
        r == four_corners(integral@, stride as int, x0 as int, y0 as int, x1 as int, y1 as int),
{
    let length: usize = integral.len();
    proof {
        assert((y1 + 1) * stride >= 0) by (nonlinear_arith);
        assert(y0 * stride >= 0) by (nonlinear_arith);
        assert(y0 * stride <= (y1 + 1) * stride) by (nonlinear_arith)
            requires
                y0 <= y1 + 1,
        ;
    }
    let left: usize = x0 as usize;
    let top: usize = y0 as usize;
    let right: usize = x1 as usize + 1;
    let bottom: usize = y1 as usize + 1;
    integral[bottom * stride + right].wrapping_add(integral[top * stride + left]).wrapping_sub(
        integral[top * stride + right],
    ).wrapping_sub(integral[bottom * stride + left])
}

/// The columns, or the rows, within `radius` of place `i` of `n`: the first of them and the
/// last.
pub open spec fn reach(i: int, radius: int, n: int) -> (int, int) {
    (if i < radius { 0 } else { i - radius }, if i + radius < n { i + radius } else { n - 1 })
}

/// The mean level in the square of `radius` round a pixel, as far as it lies in the image,
/// rounded down.
pub open spec fn local_mean(gray: Gray, radius: int, x: int, y: int) -> int {
    let (x0, x1) = reach(x, radius, gray.width as int);
    let (y0, y1) = reach(y, radius, gray.height as int);
    window_sum(gray, x0, y0, x1 + 1, y1 + 1) / ((x1 - x0 + 1) * (y1 - y0 + 1))
}

/// Black and white by the local mean less a bias.
pub open spec fn adaptive(gray: Gray, radius: int, bias: int) -> Gray {
    raster(
        gray.width,
        gray.height,
        |x: int, y: int|
            if gray.at(x, y) >= local_mean(gray, radius, x, y) - bias {
                255
            } else {
                0
            },
    )
}

/// The sum of the levels in the square of `radius` round each pixel can be counted in 32 bits.
pub open spec fn sums_fit(gray: Gray, radius: int) -> bool {
    forall|x: int, y: int| 0 <= x < gray.width && 0 <= y < gray.height ==> #[trigger] sum_fits(gray, radius, x, y)
}

/// The sum of the levels in the square of `radius` round a pixel can be counted in 32 bits.
pub open spec fn sum_fits(gray: Gray, radius: int, x: int, y: int) -> bool {
    let (x0, x1) = reach(x, radius, gray.width as int);
    let (y0, y1) = reach(y, radius, gray.height as int);
    window_sum(gray, x0, y0, x1 + 1, y1 + 1) < 0x1_0000_0000
}

/// Squares of a radius of up to 2051 have sums that can be counted, whatever the levels.
pub proof fn lemma_sums_fit(gray: Gray, radius: int)
    requires
        gray.wf(),
        0 <= radius <= 2051,
    ensures
        sums_fit(gray, radius),
{
    assert forall|x: int, y: int| 0 <= x < gray.width && 0 <= y < gray.height implies #[trigger] sum_fits(
        gray,
        radius,
        x,
        y,
    ) by {
        let (x0, x1) = reach(x, radius, gray.width as int);
        let (y0, y1) = reach(y, radius, gray.height as int);
        lemma_window_bound(gray, x0, y0, x1 + 1, y1 + 1);
        let w = x1 - x0 + 1;
        let h = y1 - y0 + 1;
        assert(0 < w * h <= 4103 * 4103) by (nonlinear_arith)
            requires
                0 < w <= 4103,
                0 < h <= 4103,
        ;
    }
}

/// The level of a pixel by its local mean.
fn local_level(gray: &GrayImage, integral: &Vec<u32>, radius: u32, bias: i16, x: u32, y: u32) -> (r: u8)
    requires
        gray@.wf(),
        integral@ == integral_of(gray@),
        x < gray.width,
        y < gray.height,
        sum_fits(gray@, radius as int, x as int, y as int),
    ensures
        r == if gray@.at(x as int, y as int) >= local_mean(gray@, radius as int, x as int, y as int) - bias {
            255u8
        } else {
            0u8
        },
{
    let x0: u32 = if x < radius { 0 } else { x - radius };
    let y0: u32 = if y < radius { 0 } else { y - radius };
    let x1: u32 = if radius < gray.width - x { x + radius } else { gray.width - 1 };
    let y1: u32 = if radius < gray.height - y { y + radius } else { gray.height - 1 };
    let ghost stride_int = gray.width + 1;
    proof {
        lemma_fits(gray.width, gray.height);
        assert(gray.width <= gray.width * gray.height + gray.width + gray.height);
        assert(gray.height <= gray.width * gray.height + gray.width + gray.height);
        lemma_index(gray.width + 1, gray.height + 1, x1 + 1, y1 + 1);
        lemma_index(gray.width as int, gray.height as int, x as int, y as int);
        assert(0 <= y * gray.width) by (nonlinear_arith);
        assert(gray.pixels.len() <= usize::MAX);
        lemma_window_bound(gray@, x0 as int, y0 as int, x1 + 1, y1 + 1);
        let w = x1 - x0 + 1;
        let h = y1 - y0 + 1;
        assert(0 < w * h <= 0xffff_ffff * 0xffff_ffff) by (nonlinear_arith)
            requires
                0 < w <= 0xffff_ffff,
                0 < h <= 0xffff_ffff,
        ;
        law_rect_sum(gray@, x0 as int, y0 as int, x1 as int, y1 as int);
        let s = window_sum(gray@, x0 as int, y0 as int, x1 + 1, y1 + 1);
        assert(s / (w * h) <= 255) by (nonlinear_arith)
            requires
                0 <= s <= 255 * (w * h),
                0 < w * h,
        ;
    }
    let width: usize = gray.width as usize;
    let stride: usize = width + 1;
    let columns: u32 = x1 - x0 + 1;
    let rows: u32 = y1 - y0 + 1;
    let area: u64 = columns as u64 * rows as u64;
    let sum: u32 = rect_sum(integral.as_slice(), stride, x0, y0, x1, y1);
    let mean: i32 = (sum as u64 / area) as i32;
    let row: usize = y as usize;
    let value: i32 = gray.pixels[row * width + x as usize] as i32;
    if value >= mean - bias as i32 {
        255
    } else {
        0
    }
}

/// Black and white by the local mean. The square round a pixel may be as large as its sum can
/// be counted in 32 bits.
pub fn adaptive_binarize(gray: &GrayImage, radius: u32, bias: i16) -> (r: GrayImage)
    requires
        gray@.wf(),
        sums_fit(gray@, radius as int),
    ensures
        r@ == adaptive(gray@, radius as int, bias as int),
        r@.wf(),
{
    let integral: Vec<u32> = build_integral(gray);
    let total: usize = gray.pixels.len();
    let mut pixels: Vec<u8> = Vec::with_capacity(total);
    let mut x: u32 = 0;
    let mut y: u32 = 0;
    proof {
        lemma_start(gray.width as int, gray.height as int);
    }
    for i in 0..total
        invariant
            gray@.wf(),
            sums_fit(gray@, radius as int),
            integral@ == integral_of(gray@),
            total == gray.pixels@.len(),
            i < total ==> x == i as int % gray.width as int && y == i as int / gray.width as int,
            pixels@.len() == i,
            forall|j: int|
                0 <= j < i ==> #[trigger] pixels@[j] == adaptive(gray@, radius as int, bias as int).pixels[j],
    {
        proof {
            lemma_position(gray.width as int, gray.height as int, i as int);
        }
        assert(sum_fits(gray@, radius as int, x as int, y as int));
        pixels.push(local_level(gray, &integral, radius, bias, x, y));
        proof {
            lemma_next(gray.width as int, i as int);
        }
        x = x + 1;
        if x == gray.width {
            x = 0;
            y = y + 1;
        }
    }
    let r = GrayImage { width: gray.width, height: gray.height, pixels };
    assert(r@ =~= adaptive(gray@, radius as int, bias as int));
    r
}

/// How many pixels have the level `t`.
pub open spec fn level_count(pixels: Seq<u8>, t: int) -> nat
    decreases pixels.len(),
{
    if pixels.len() == 0 {
        0
    } else {
        level_count(pixels.drop_last(), t) + if pixels.last() == t { 1nat } else { 0nat }
    }
}

/// How many pixels are no brighter than `t`.
pub open spec fn weight(pixels: Seq<u8>, t: int) -> nat
    decreases pixels.len(),
{
    if pixels.len() == 0 {
        0
    } else {
        weight(pixels.drop_last(), t) + if pixels.last() <= t { 1nat } else { 0nat }
    }
}

/// The sum of the pixels that are no brighter than `t`.
pub open spec fn weighted_sum(pixels: Seq<u8>, t: int) -> nat
    decreases pixels.len(),
{
    if pixels.len() == 0 {
        0
    } else {
        weighted_sum(pixels.drop_last(), t) + if pixels.last() <= t { pixels.last() as nat } else { 0nat }
    }
}

/// An integer in double precision.
pub open spec fn whole(n: nat) -> Binary {
    ratio(DOUBLE as nat, n, 1)
}

/// The variance between the pixels up to level `t` and those above it, in double precision:
/// the product of how many there are of both, times the square of the distance between
/// their means.
pub open spec fn variance_between(pixels: Seq<u8>, t: int) -> Binary {
    let unit = DOUBLE as nat;
    let dark = weight(pixels, t);
    let bright = (pixels.len() - dark) as nat;
    let dark_sum = weighted_sum(pixels, t);
    let bright_sum = (weighted_sum(pixels, 255) - dark_sum) as nat;
    let apart = distance(unit, ratio(unit, dark_sum, dark), ratio(unit, bright_sum, bright));
    product(unit, product(unit, whole(dark), whole(bright)), product(unit, apart, apart))
}

/// Whether level `t` leaves pixels on both sides.
pub open spec fn separates(pixels: Seq<u8>, t: int) -> bool {
    0 < weight(pixels, t) < pixels.len()
}

/// Among the levels below `n` that separate the pixels, the first with the largest variance.
pub open spec fn best_level(pixels: Seq<u8>, n: int) -> Option<int>
    decreases n,
{
    if n <= 0 {
        None
    } else {
        match best_level(pixels, n - 1) {
            None => if separates(pixels, n - 1) {
                Some(n - 1)
            } else {
                None
            },
            Some(best) => if separates(pixels, n - 1) && less(
                variance_between(pixels, best),
                variance_between(pixels, n - 1),
            ) {
                Some(n - 1)
            } else {
                Some(best)
            },
        }
    }
}

/// The threshold of an image: the level that separates its pixels best, or 127 where none
/// separates them.
pub open spec fn otsu(pixels: Seq<u8>) -> u8 {
    match best_level(pixels, 256) {
        Some(t) => t as u8,
        None => 127,
    }
}

proof fn lemma_best_level(pixels: Seq<u8>, n: int)
    requires
        0 <= n <= 256,
    ensures
        best_level(pixels, n) is None <==> forall|t: int| 0 <= t < n ==> !#[trigger] separates(pixels, t),
        best_level(pixels, n) matches Some(best) ==> {
            &&& 0 <= best < n
            &&& separates(pixels, best)
            &&& forall|t: int|
                0 <= t < n && #[trigger] separates(pixels, t) ==> !less(
                    variance_between(pixels, best),
                    variance_between(pixels, t),
                )
            &&& forall|t: int|
                0 <= t < best && #[trigger] separates(pixels, t) ==> less(
                    variance_between(pixels, t),
                    variance_between(pixels, best),
                )
        },
    decreases n,
{
    if n > 0 {
        lemma_best_level(pixels, n - 1);
        assert(separates(pixels, n - 1) || !separates(pixels, n - 1));
    }
}

/// The threshold separates the pixels better than any darker level that separates them, and
/// no brighter level separates them better. It is 127 only where no level separates the
/// pixels, or where 127 is such a level itself.
pub proof fn law_otsu(pixels: Seq<u8>)
    ensures
        ({
            let best = otsu(pixels) as int;
            ||| best == 127 && forall|t: int| 0 <= t < 256 ==> !#[trigger] separates(pixels, t)
            ||| {
                &&& separates(pixels, best)
                &&& forall|t: int|
                    0 <= t < 256 && #[trigger] separates(pixels, t) ==> !less(
                        variance_between(pixels, best),
                        variance_between(pixels, t),
                    )
                &&& forall|t: int|
                    0 <= t < best && #[trigger] separates(pixels, t) ==> less(
                        variance_between(pixels, t),
                        variance_between(pixels, best),
                    )
            }
        }),
{
    lemma_best_level(pixels, 256);
}

proof fn lemma_weight_step(pixels: Seq<u8>, t: int)
    ensures
        weight(pixels, t) == weight(pixels, t - 1) + level_count(pixels, t),
        weighted_sum(pixels, t) == weighted_sum(pixels, t - 1) + t * level_count(pixels, t),
    decreases pixels.len(),
{
    if pixels.len() > 0 {
        lemma_weight_step(pixels.drop_last(), t);
        let c = level_count(pixels.drop_last(), t);
        assert(t * (c + 1) == t * c + t) by (nonlinear_arith);
    } else {
        assert(t * 0 == 0);
    }
}

proof fn lemma_weight_bounds(pixels: Seq<u8>, t: int)
    ensures
        weight(pixels, -1) == 0,
        weighted_sum(pixels, -1) == 0,
        weight(pixels, t) <= pixels.len(),
        weighted_sum(pixels, t) <= 255 * weight(pixels, t),
        weighted_sum(pixels, 255) - weighted_sum(pixels, t) <= 255 * (pixels.len() - weight(pixels, t)),
        weighted_sum(pixels, t) <= weighted_sum(pixels, 255) <= 255 * pixels.len(),
        level_count(pixels, t) <= pixels.len(),
    decreases pixels.len(),
{
    if pixels.len() > 0 {
        lemma_weight_bounds(pixels.drop_last(), t);
    }
}

/// The mean of pixels, from their sum and their number.
fn mean_level(sum: u64, count: u64) -> (r: Float)
    requires
        0 < count <= u32::MAX,
        sum <= 255 * count,
    ensures
        r@ == ratio(DOUBLE as nat, sum as nat, count as nat),
        normal(DOUBLE as nat, r@),
        r.mantissa != 0 ==> -85 <= r.exponent <= -43,
        -85 <= r.exponent <= 0,
{
    let r: Float = round_ratio(DOUBLE, sum as u128, count as u128);
    proof {
        lemma2_to64();
        lemma2_to64_rest();
        let e = r.exponent as int;
        if sum > 0 {
            let u = DOUBLE as int;
            let n = sum as int;
            let d = count as int;
            if e > 0 {
                assert(false) by (nonlinear_arith)
                    requires
                        u * d <= n,
                        n <= 255 * d,
                        u > 255,
                        d > 0,
                ;
            }
            let k = (-e) as nat;
            let p = pow2(k) as int;
            lemma_pow2_pos(k);
            assert(u <= 510 * p) by (nonlinear_arith)
                requires
                    u * d <= 2 * (n * p),
                    n <= 255 * d,
                    d > 0,
                    p > 0,
            ;
            if k < 43 {
                lemma_pow2_strictly_increases(k, 43);
            }
            if k > 85 {
                assert(u * d <= 0x10_0000_0000_0000 * 0xffff_ffff) by (nonlinear_arith)
                    requires
                        u == 0x10_0000_0000_0000,
                        d <= 0xffff_ffff,
                ;
                lemma_pow2_adds(43, 42);
                lemma_pow2_strictly_increases(85, k);
                assert(pow2(85) == 0x20_0000_0000_0000_0000_0000);
            }
        }
    }
    r
}

/// The variance between the pixels on both sides of a level.
fn separation(dark: u64, dark_sum: u64, bright: u64, bright_sum: u64) -> (r: Float)
    requires
        0 < dark <= u32::MAX,
        0 < bright <= u32::MAX,
        dark_sum <= 255 * dark,
        bright_sum <= 255 * bright,
    ensures
        r@ == ({
            let unit = DOUBLE as nat;
            let apart = distance(
                unit,
                ratio(unit, dark_sum as nat, dark as nat),
                ratio(unit, bright_sum as nat, bright as nat),
            );
            product(unit, product(unit, whole(dark as nat), whole(bright as nat)), product(unit, apart, apart))
        }),
{
    let apart: Float = subtract(DOUBLE, mean_level(dark_sum, dark), mean_level(bright_sum, bright));
    let many: Float = multiply(
        DOUBLE,
        round_ratio(DOUBLE, dark as u128, 1),
        round_ratio(DOUBLE, bright as u128, 1),
    );
    multiply(DOUBLE, many, multiply(DOUBLE, apart, apart))
}

/// How many pixels have each level.
fn histogram(gray: &GrayImage) -> (r: Vec<u64>)
    requires
        gray@.wf(),
        is_countable(gray@),
    ensures
        r@.len() == 256,
        forall|t: int| 0 <= t < 256 ==> #[trigger] r@[t] == level_count(gray.pixels@, t),
{
    let total: usize = gray.pixels.len();
    let mut counts: Vec<u64> = vec![0; 256];
    proof {
        lemma_fits(gray.width, gray.height);
    }
    for i in 0..total
        invariant
            total == gray.pixels@.len(),
            total <= u32::MAX,
            counts@.len() == 256,
            forall|t: int| 0 <= t < 256 ==> #[trigger] counts@[t] == level_count(gray.pixels@.take(i as int), t),
    {
        let v: usize = gray.pixels[i] as usize;
        proof {
            assert(gray.pixels@.take(i + 1).drop_last() =~= gray.pixels@.take(i as int));
            lemma_weight_bounds(gray.pixels@.take(i as int), v as int);
        }
        counts.set(v, counts[v] + 1);
    }
    assert(gray.pixels@.take(total as int) =~= gray.pixels@);
    counts
}

/// The threshold that separates the pixels of an image best.
pub fn otsu_threshold(gray: &GrayImage) -> (r: u8)
    requires
        gray@.wf(),
        is_countable(gray@),
    ensures
        r == otsu(gray.pixels@),
{
    let counts: Vec<u64> = histogram(gray);
    let total: u64 = gray.pixels.len() as u64;
    let ghost pixels = gray.pixels@;
    proof {
        lemma_fits(gray.width, gray.height);
        lemma_weight_bounds(pixels, -1);
    }
    let mut sum: u64 = 0;
    for t in 0..256usize
        invariant
            pixels == gray.pixels@,
            pixels.len() <= u32::MAX,
            counts@.len() == 256,
            forall|s: int| 0 <= s < 256 ==> #[trigger] counts@[s] == level_count(pixels, s),
            sum == weighted_sum(pixels, t - 1),
    {
        proof {
            lemma_weight_step(pixels, t as int);
            lemma_weight_bounds(pixels, t as int);
            assert(t * counts@[t as int] <= 255 * 0xffff_ffff) by (nonlinear_arith)
                requires
                    t <= 255,
                    counts@[t as int] <= 0xffff_ffff,
            ;
        }
        sum = sum + t as u64 * counts[t];
    }
    let mut dark: u64 = 0;
    let mut dark_sum: u64 = 0;
    let mut best: Option<(u8, Float)> = None;
    for t in 0..256usize
        invariant
            pixels == gray.pixels@,
            pixels.len() <= u32::MAX,
            total == pixels.len(),
            counts@.len() == 256,
            forall|s: int| 0 <= s < 256 ==> #[trigger] counts@[s] == level_count(pixels, s),
            sum == weighted_sum(pixels, 255),
            dark == weight(pixels, t - 1),
            dark_sum == weighted_sum(pixels, t - 1),
            best is None <==> best_level(pixels, t as int) is None,
            best matches Some((level, variance)) ==> best_level(pixels, t as int) == Some(level as int)
                && variance@ == variance_between(pixels, level as int),
    {
        proof {
            lemma_weight_step(pixels, t as int);
            lemma_weight_bounds(pixels, t as int);
            assert(t * counts@[t as int] <= 255 * 0xffff_ffff) by (nonlinear_arith)
                requires
                    t <= 255,
                    counts@[t as int] <= 0xffff_ffff,
            ;
        }
        dark = dark + counts[t];
        dark_sum = dark_sum + t as u64 * counts[t];
        if 0 < dark && dark < total {
            let variance: Float = separation(dark, dark_sum, total - dark, sum - dark_sum);
            let better: bool = match best {
                None => true,
                Some((_, largest)) => is_less(largest, variance),
            };
            if better {
                best = Some((t as u8, variance));
            }
        }
    }
    match best {
        Some((level, _)) => level,
        None => 127,
    }
}

/// The sum over a window is the sum over its parts, and that over one pixel is its level.
pub proof fn law_window_sum(gray: Gray, x0: int, y0: int, x1: int, y1: int, x: int, y: int)
    requires
        x0 <= x <= x1,
        y0 <= y <= y1,
    ensures
        window_sum(gray, x0, y0, x1, y1) == window_sum(gray, x0, y0, x, y1) + window_sum(gray, x, y0, x1, y1),
        window_sum(gray, x0, y0, x1, y1) == window_sum(gray, x0, y0, x1, y) + window_sum(gray, x0, y, x1, y1),
        window_sum(gray, x, y, x + 1, y + 1) == gray.at(x, y),
        window_sum(gray, x0, y0, x0, y1) == 0,
        window_sum(gray, x0, y0, x1, y0) == 0,
    decreases y1 - y0,
{
    lemma_no_columns(gray, x0, y0, y1);
    lemma_columns_split(gray, x0, y0, x1, y1, x);
    lemma_rows_split(gray, x0, y0, x1, y1, y);
    reveal_with_fuel(window_sum, 2);
    reveal_with_fuel(row_sum, 2);
}

proof fn lemma_columns_split(gray: Gray, x0: int, y0: int, x1: int, y1: int, x: int)
    requires
        x0 <= x <= x1,
    ensures
        window_sum(gray, x0, y0, x1, y1) == window_sum(gray, x0, y0, x, y1) + window_sum(gray, x, y0, x1, y1),
    decreases y1 - y0,
{
    if y0 < y1 {
        lemma_columns_split(gray, x0, y0, x1, y1 - 1, x);
        lemma_row_split(gray, y1 - 1, x0, x, x1);
    }
}

proof fn lemma_rows_split(gray: Gray, x0: int, y0: int, x1: int, y1: int, y: int)
    requires
        y0 <= y <= y1,
    ensures
        window_sum(gray, x0, y0, x1, y1) == window_sum(gray, x0, y0, x1, y) + window_sum(gray, x0, y, x1, y1),
    decreases y1 - y,
{
    if y < y1 {
        lemma_rows_split(gray, x0, y0, x1, y1 - 1, y);
    }
}

/// A pixel becomes white just where its level and the bias reach the mean of the square round it,
/// as far as that lies in the image, rounded down.
pub proof fn law_adaptive(gray: Gray, radius: int, bias: int, x: int, y: int)
    requires
        0 <= x < gray.width,
        0 <= y < gray.height,
        radius >= 0,
    ensures
        adaptive(gray, radius, bias).width == gray.width,
        adaptive(gray, radius, bias).height == gray.height,
        adaptive(gray, radius, bias).at(x, y) == 0 || adaptive(gray, radius, bias).at(x, y) == 255,
        ({
            let left = if x - radius < 0 { 0 } else { x - radius };
            let top = if y - radius < 0 { 0 } else { y - radius };
            let right = if x + radius + 1 > gray.width { gray.width as int } else { x + radius + 1 };
            let bottom = if y + radius + 1 > gray.height { gray.height as int } else { y + radius + 1 };
            let area = (right - left) * (bottom - top);
            adaptive(gray, radius, bias).at(x, y) == 255 <==> window_sum(gray, left, top, right, bottom) < (gray.at(x, y)
                + bias + 1) * area
        }),
{
    lemma_index(gray.width as int, gray.height as int, x, y);
    let left = if x - radius < 0 { 0 } else { x - radius };
    let top = if y - radius < 0 { 0 } else { y - radius };
    let right = if x + radius + 1 > gray.width { gray.width as int } else { x + radius + 1 };
    let bottom = if y + radius + 1 > gray.height { gray.height as int } else { y + radius + 1 };
    let area = (right - left) * (bottom - top);
    let sum = window_sum(gray, left, top, right, bottom);
    let level = gray.at(x, y) + bias;
    assert(area > 0) by (nonlinear_arith)
        requires
            area == (right - left) * (bottom - top),
            right > left,
            bottom > top,
    ;
    assert(reach(x, radius, gray.width as int) == (left, right - 1));
    assert(reach(y, radius, gray.height as int) == (top, bottom - 1));
    assert(right - 1 + 1 == right && bottom - 1 + 1 == bottom);
    assert(local_mean(gray, radius, x, y) == sum / area);
    assert(sum / area <= level <==> sum < (level + 1) * area) by (nonlinear_arith)
        requires
            area > 0,
    ;
}

proof fn lemma_weight_some(pixels: Seq<u8>, t: int)
    ensures
        weight(pixels, t) <= pixels.len(),
        weight(pixels, t) > 0 ==> exists|i: int| 0 <= i < pixels.len() && #[trigger] pixels[i] <= t,
        weight(pixels, t) < pixels.len() ==> exists|i: int| 0 <= i < pixels.len() && #[trigger] pixels[i] > t,
        forall|i: int| 0 <= i < pixels.len() && #[trigger] pixels[i] <= t ==> weight(pixels, t) > 0,
        forall|i: int| 0 <= i < pixels.len() && #[trigger] pixels[i] > t ==> weight(pixels, t) < pixels.len(),
    decreases pixels.len(),
{
    if pixels.len() > 0 {
        let head = pixels.drop_last();
        lemma_weight_some(head, t);
        assert(pixels[pixels.len() - 1] == pixels.last());
        if weight(head, t) > 0 {
            let i = choose|i: int| 0 <= i < head.len() && #[trigger] head[i] <= t;
            assert(pixels[i] <= t);
        }
        if weight(head, t) < head.len() {
            let i = choose|i: int| 0 <= i < head.len() && #[trigger] head[i] > t;
            assert(pixels[i] > t);
        }
        assert forall|i: int| 0 <= i < pixels.len() && #[trigger] pixels[i] <= t implies weight(pixels, t) > 0 by {
            if i < head.len() {
                assert(head[i] <= t);
            }
        }
        assert forall|i: int| 0 <= i < pixels.len() && #[trigger] pixels[i] > t implies weight(pixels, t)
            < pixels.len() by {
            if i < head.len() {
                assert(head[i] > t);
            }
        }
    }
}

/// The threshold of an image with more than one level has pixels on both sides: some are no
/// brighter and some are. So in an image of two levels it tells them apart.
pub proof fn law_otsu_separates(pixels: Seq<u8>, i: int, j: int)
    requires
        0 <= i < pixels.len(),
        0 <= j < pixels.len(),
        pixels[i] < pixels[j],
    ensures
        exists|k: int| 0 <= k < pixels.len() && #[trigger] pixels[k] <= otsu(pixels),
        exists|k: int| 0 <= k < pixels.len() && #[trigger] pixels[k] > otsu(pixels),
        (forall|k: int| 0 <= k < pixels.len() ==> #[trigger] pixels[k] == pixels[i] || pixels[k] == pixels[j]) ==> pixels[i]
            <= otsu(pixels) < pixels[j],
{
    law_otsu(pixels);
    let t = pixels[i] as int;
    lemma_weight_some(pixels, t);
    assert(separates(pixels, t));
    lemma_weight_some(pixels, otsu(pixels) as int);
    let low = choose|k: int| 0 <= k < pixels.len() && #[trigger] pixels[k] <= otsu(pixels);
    let high = choose|k: int| 0 <= k < pixels.len() && #[trigger] pixels[k] > otsu(pixels);
    if forall|k: int| 0 <= k < pixels.len() ==> #[trigger] pixels[k] == pixels[i] || pixels[k] == pixels[j] {
        assert(pixels[low] == pixels[i] || pixels[low] == pixels[j]);
        assert(pixels[high] == pixels[i] || pixels[high] == pixels[j]);
    }
}

/// How many pixels are no brighter than a level, and their sum, and the variance between them and
/// the others: the product of how many there are on both sides and of the squared distance of
/// their means, in double precision.
pub proof fn law_variance(pixels: Seq<u8>, t: int)
    ensures
        weight(pixels, t) == pixels.filter(|v: u8| v <= t).len(),
        weight(pixels, 255) == pixels.len(),
        weighted_sum(pixels, t) <= weighted_sum(pixels, 255),
        ({
            let unit = DOUBLE as nat;
            let dark = pixels.filter(|v: u8| v <= t).len();
            let bright = (pixels.len() - dark) as nat;
            let low = ratio(unit, weighted_sum(pixels, t), dark);
            let high = ratio(unit, (weighted_sum(pixels, 255) - weighted_sum(pixels, t)) as nat, bright);
            let apart = distance(unit, low, high);
            variance_between(pixels, t) == product(
                unit,
                product(unit, ratio(unit, dark, 1), ratio(unit, bright, 1)),
                product(unit, apart, apart),
            )
        }),
        forall|p: Seq<u8>, v: u8|
            #[trigger] weighted_sum(p.push(v), t) == weighted_sum(p, t) + if v <= t {
                v as int
            } else {
                0
            },
{
    lemma_weight_filter(pixels, t);
    lemma_weight_filter(pixels, 255);
    lemma_weight_all(pixels);
    lemma_weight_bounds(pixels, t);
    assert forall|p: Seq<u8>, v: u8| #[trigger] weighted_sum(p.push(v), t) == weighted_sum(p, t) + if v <= t {
        v as int
    } else {
        0
    } by {
        assert(p.push(v).drop_last() =~= p);
        assert(p.push(v).last() == v);
    }
}

proof fn lemma_weight_filter(pixels: Seq<u8>, t: int)
    ensures
        weight(pixels, t) == pixels.filter(|v: u8| v <= t).len(),
    decreases pixels.len(),
{
    reveal(Seq::filter);
    if pixels.len() > 0 {
        lemma_weight_filter(pixels.drop_last(), t);
    }
}

proof fn lemma_weight_all(pixels: Seq<u8>)
    ensures
        weight(pixels, 255) == pixels.len(),
    decreases pixels.len(),
{
    if pixels.len() > 0 {
        lemma_weight_all(pixels.drop_last());
    }
}

} // verus!
