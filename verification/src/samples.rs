//! Images from raw samples.

use vstd::prelude::*;
use vstd::arithmetic::power2::{lemma2_to64, pow2};
use crate::float::{divide, law_divided, law_doubled, lemma_exact_integer, multiply, nearest_integer, product, quotient,
    round_ratio, round_to_integer, Binary, Float, SINGLE};
use crate::raster::{fits, lemma_fits, lemma_index, lemma_next, lemma_position, lemma_start, raster, Gray, GrayImage,
    Rgb, RgbImage};
use crate::scale::single;

verus! {

/// How many samples a pixel has, as the length of the data tells.
pub open spec fn channel_count(width: u32, height: u32, len: usize) -> Option<usize> {
    let px = width * height;
    if px == 0 || px > usize::MAX {
        None
    } else if len == px {
        Some(1)
    } else if len == px * 3 {
        Some(3)
    } else if len == px * 4 {
        Some(4)
    } else {
        None
    }
}

/// How many samples a pixel has, as the length of the data tells.
pub fn infer_channels(width: u32, height: u32, len: usize) -> (r: Option<usize>)
    ensures
        r == channel_count(width, height, len),
{
    assert(0 <= width * height <= 0xffff_ffff * 0xffff_ffff) by (nonlinear_arith)
        requires
            width <= 0xffff_ffff,
            height <= 0xffff_ffff,
    ;
    let px: u128 = (width as u64 * height as u64) as u128;
    let n: u128 = len as u128;
    if px == 0 || px > usize::MAX as u128 {
        None
    } else if n == px {
        Some(1)
    } else if n == px * 3 {
        Some(3)
    } else if n == px * 4 {
        Some(4)
    } else {
        None
    }
}

/// The bytes of a row of single bits.
pub open spec fn bit_row_bytes(width: u32) -> int {
    (width + 7) / 8
}

/// Whether the bit of column `x` of row `y` is set, the highest bit of a byte first.
pub open spec fn bit_set(data: Seq<u8>, width: u32, x: int, y: int) -> bool {
    let bit = (7 - x % 8) as u8;
    (data[y * bit_row_bytes(width) + x / 8] >> bit) & 1u8 == 1u8
}

/// The image of single bits: white where a bit is set, black where not, or the other way
/// round. Each row begins with a new byte.
pub open spec fn bit_image(width: u32, height: u32, data: Seq<u8>, invert: bool) -> Option<Gray> {
    if data.len() < bit_row_bytes(width) * height {
        None
    } else {
        Some(
            raster(
                width,
                height,
                |x: int, y: int|
                    if bit_set(data, width, x, y) != invert {
                        255
                    } else {
                        0
                    },
            ),
        )
    }
}

/// The image of single bits.
pub fn decode_1bit_gray_image(width: u32, height: u32, data: &Vec<u8>, invert: bool) -> (r: Option<GrayImage>)
    requires
        fits(width, height),
    ensures
        r is Some <==> bit_image(width, height, data@, invert) is Some,
        r matches Some(image) ==> bit_image(width, height, data@, invert) == Some(image@) && image@.wf(),
{
    proof {
        lemma_fits(width, height);
    }
    let row_bytes: u64 = (width as u64 + 7) / 8;
    assert(row_bytes * height <= 0x2000_0000 * 0xffff_ffff) by (nonlinear_arith)
        requires
            row_bytes <= 0x2000_0000,
            height <= 0xffff_ffff,
    ;
    if (data.len() as u64) < row_bytes * height as u64 {
        return None;
    }
    let stride: usize = row_bytes as usize;
    let length: usize = data.len();
    let total: usize = width as usize * height as usize;
    let mut pixels: Vec<u8> = Vec::with_capacity(total);
    let mut x: usize = 0;
    let mut y: usize = 0;
    proof {
        lemma_start(width as int, height as int);
    }
    for i in 0..total
        invariant
            total == width * height,
            stride == bit_row_bytes(width),
            length == data@.len(),
            stride * height <= length,
            i < total ==> x == i as int % width as int && y == i as int / width as int,
            pixels@.len() == i,
            forall|j: int|
                0 <= j < i ==> #[trigger] pixels@[j] == (bit_image(width, height, data@, invert)->0).pixels[j],
    {
        proof {
            lemma_position(width as int, height as int, i as int);
            assert(y * stride + stride <= stride * height && 0 <= y * stride) by (nonlinear_arith)
                requires
                    y + 1 <= height,
                    0 <= stride,
                    0 <= y,
            ;
        }
        let byte: u8 = data[y * stride + x / 8];
        let bit: u8 = (7 - x % 8) as u8;
        let on: bool = (byte >> bit) & 1u8 == 1u8;
        pixels.push(if on != invert { 255 } else { 0 });
        proof {
            lemma_next(width as int, i as int);
        }
        x = x + 1;
        if x == width as usize {
            x = 0;
            y = y + 1;
        }
    }
    let r = GrayImage { width, height, pixels };
    assert(r@ =~= bit_image(width, height, data@, invert)->0);
    Some(r)
}

/// How many indices some bytes hold.
pub open spec fn indices_held(len: int, bpc: u8) -> int {
    if bpc == 1 {
        8 * len
    } else if bpc == 2 {
        4 * len
    } else if bpc == 4 {
        2 * len
    } else {
        len
    }
}

/// The largest index of `bpc` bits.
pub open spec fn index_mask(bpc: u8) -> u8 {
    if bpc == 1 {
        1
    } else if bpc == 2 {
        3
    } else if bpc == 4 {
        15
    } else {
        255
    }
}

/// Index `k` of a stream of indices of `bpc` bits each, the highest bits of a byte first,
/// without gaps between the rows.
pub open spec fn index_at(data: Seq<u8>, bpc: u8, k: int) -> u8 {
    let (at, shift) = if bpc == 1 {
        (k / 8, 7 - k % 8)
    } else if bpc == 2 {
        (k / 4, 6 - 2 * (k % 4))
    } else if bpc == 4 {
        (k / 2, 4 - 4 * (k % 2))
    } else {
        (k, 0)
    };
    (data[at] >> (shift as u8)) & index_mask(bpc)
}

/// The step between the levels of two indices, in single precision: 255 over the largest
/// index, or 255 where that is zero.
pub open spec fn level_step(hival: u16) -> Binary {
    if hival == 0 {
        single(255)
    } else {
        quotient(SINGLE as nat, single(255), single(hival as nat))
    }
}

/// The level of an index.
pub open spec fn index_level(index: u8, hival: u16) -> u8 {
    let n = nearest_integer(product(SINGLE as nat, single(index as nat), level_step(hival)));
    if n < 255 {
        n as u8
    } else {
        255
    }
}

/// The image of indices into a palette, taken as levels of gray.
pub open spec fn indexed_image(width: u32, height: u32, data: Seq<u8>, bpc: u8, hival: u16) -> Option<Gray> {
    let total = width * height;
    if total == 0 || !(bpc == 1 || bpc == 2 || bpc == 4 || bpc == 8) || indices_held(data.len() as int, bpc) < total {
        None
    } else {
        Some(
            Gray {
                width,
                height,
                pixels: Seq::new(total as nat, |k: int| index_level(index_at(data, bpc, k), hival)),
            },
        )
    }
}

/// The level of each index of a byte.
fn index_levels(hival: u16) -> (r: Vec<u8>)
    ensures
        r@.len() == 256,
        forall|i: int| 0 <= i < 256 ==> #[trigger] r@[i] == index_level(i as u8, hival),
{
    let full: Float = round_ratio(SINGLE, 255, 1);
    let step: Float = if hival == 0 { full } else { divide(SINGLE, full, round_ratio(SINGLE, hival as u128, 1)) };
    let mut out: Vec<u8> = Vec::new();
    for i in 0..256u32
        invariant
            step@ == level_step(hival),
            step.mantissa < 2 * SINGLE,
            -1000 <= step.exponent <= 1000,
            out@.len() == i,
            forall|j: int| 0 <= j < i ==> #[trigger] out@[j] == index_level(j as u8, hival),
    {
        let level: u32 = round_to_integer(multiply(SINGLE, round_ratio(SINGLE, i as u128, 1), step), 255);
        out.push(level as u8);
    }
    out
}

/// Index `k` of a stream of indices.
fn read_index(data: &Vec<u8>, bpc: u8, k: usize) -> (r: u8)
    requires
        bpc == 1 || bpc == 2 || bpc == 4 || bpc == 8,
        k < indices_held(data@.len() as int, bpc),
    ensures
        r == index_at(data@, bpc, k as int),
{
    if bpc == 1 {
        let shift: u8 = 7 - (k % 8) as u8;
        (data[k / 8] >> shift) & 1
    } else if bpc == 2 {
        let shift: u8 = 6 - (k % 4) as u8 * 2;
        (data[k / 4] >> shift) & 3
    } else if bpc == 4 {
        let shift: u8 = 4 - (k % 2) as u8 * 4;
        (data[k / 2] >> shift) & 15
    } else {
        let shift: u8 = 0;
        (data[k] >> shift) & 255
    }
}

/// The image of indices into a palette.
pub fn decode_indexed_to_gray(width: u32, height: u32, data: &Vec<u8>, bpc: u8, hival: u16) -> (r: Option<GrayImage>)
    requires
        fits(width, height),
    ensures
        r is Some <==> indexed_image(width, height, data@, bpc, hival) is Some,
        r matches Some(image) ==> indexed_image(width, height, data@, bpc, hival) == Some(image@) && image@.wf(),
{
    proof {
        lemma_fits(width, height);
    }
    let total: usize = width as usize * height as usize;
    if total == 0 || !(bpc == 1 || bpc == 2 || bpc == 4 || bpc == 8) {
        return None;
    }
    let length: u128 = data.len() as u128;
    let held: u128 = if bpc == 1 {
        length * 8
    } else if bpc == 2 {
        length * 4
    } else if bpc == 4 {
        length * 2
    } else {
        length
    };
    if held < total as u128 {
        return None;
    }
    let levels: Vec<u8> = index_levels(hival);
    let mut pixels: Vec<u8> = Vec::with_capacity(total);
    for k in 0..total
        invariant
            total == width * height,
            bpc == 1 || bpc == 2 || bpc == 4 || bpc == 8,
            total <= indices_held(data@.len() as int, bpc),
            levels@.len() == 256,
            forall|i: int| 0 <= i < 256 ==> #[trigger] levels@[i] == index_level(i as u8, hival),
            pixels@.len() == k,
            forall|j: int| 0 <= j < k ==> #[trigger] pixels@[j] == index_level(index_at(data@, bpc, j), hival),
    {
        let index: u8 = read_index(data, bpc, k);
        pixels.push(levels[index as usize]);
    }
    let r = GrayImage { width, height, pixels };
    assert(r@ =~= indexed_image(width, height, data@, bpc, hival)->0);
    Some(r)
}

/// The level of a color of which `ink` and `key` are printed: the light that both let
/// through, rounded to the nearest level, halves upward.
pub open spec fn printed_level(ink: u8, key: u8) -> u8 {
    (((255 - ink) * (255 - key) * 2 + 255) / 510) as u8
}

fn print_level(ink: u8, key: u8) -> (r: u8)
    ensures
        r == printed_level(ink, key),
{
    let a: u32 = 255 - ink as u32;
    let b: u32 = 255 - key as u32;
    assert(a * b <= 255 * 255) by (nonlinear_arith)
        requires
            a <= 255,
            b <= 255,
    ;
    ((a * b * 2 + 255) / 510) as u8
}

/// The color image of samples that are `step` bytes apart, where the data has just the
/// length for it. Three samples are red, green and blue; four are cyan, magenta, yellow and
/// key.
pub open spec fn sampled_rgb(width: u32, height: u32, data: Seq<u8>, step: int, printed: bool) -> Option<Rgb> {
    let total = width * height;
    let size = (if printed { 4int } else { 3int }) * step;
    if data.len() != total * size {
        None
    } else {
        Some(
            Rgb {
                width,
                height,
                pixels: Seq::new(
                    (3 * total) as nat,
                    |i: int|
                        {
                            let start = (i / 3) * size;
                            let sample = data[start + (i % 3) * step];
                            if printed {
                                printed_level(sample, data[start + 3 * step])
                            } else {
                                sample
                            }
                        },
                ),
            },
        )
    }
}

/// The color image of samples that are one or two bytes apart.
fn sample_rgb(width: u32, height: u32, data: &Vec<u8>, step: usize, printed: bool) -> (r: Option<RgbImage>)
    requires
        fits(width, height),
        1 <= step <= 2,
    ensures
        r is Some <==> sampled_rgb(width, height, data@, step as int, printed) is Some,
        r matches Some(image) ==> sampled_rgb(width, height, data@, step as int, printed) == Some(image@)
            && image@.wf(),
{
    proof {
        lemma_fits(width, height);
    }
    let total: u128 = width as u128 * height as u128;
    let size: usize = if printed { 4 * step } else { 3 * step };
    assert(0 <= total * size <= usize::MAX * 8) by (nonlinear_arith)
        requires
            0 <= total <= usize::MAX,
            size <= 8,
    ;
    if data.len() as u128 != total * size as u128 {
        return None;
    }
    let length: usize = data.len();
    let mut pixels: Vec<u8> = Vec::new();
    let ghost want = sampled_rgb(width, height, data@, step as int, printed)->0;
    assert(0 * size == 0);
    let count: usize = total as usize;
    for p in 0..count
        invariant
            count == total,
            total == width * height,
            1 <= step <= 2,
            size == if printed { 4 * step } else { 3 * step },
            length == data@.len(),
            length == total * size,
            want == sampled_rgb(width, height, data@, step as int, printed)->0,
            pixels@.len() == 3 * p,
            forall|j: int| 0 <= j < 3 * p ==> #[trigger] pixels@[j] == want.pixels[j],
    {
        proof {
            assert(p * size + size <= total * size && 0 <= p * size) by (nonlinear_arith)
                requires
                    p + 1 <= total,
                    0 <= size,
                    0 <= p,
            ;
        }
        let start: usize = p * size;
        proof {
            let q = 3 * p;
            assert(q / 3 == p && (q + 1) / 3 == p && (q + 2) / 3 == p);
            assert((q % 3) * step == 0) by (nonlinear_arith)
                requires
                    q % 3 == 0,
            ;
            assert(((q + 1) % 3) * step == step) by (nonlinear_arith)
                requires
                    (q + 1) % 3 == 1,
            ;
            assert(((q + 2) % 3) * step == 2 * step) by (nonlinear_arith)
                requires
                    (q + 2) % 3 == 2,
            ;
        }
        let first: u8 = data[start];
        let second: u8 = data[start + step];
        let third: u8 = data[start + 2 * step];
        if printed {
            let key: u8 = data[start + 3 * step];
            pixels.push(print_level(first, key));
            pixels.push(print_level(second, key));
            pixels.push(print_level(third, key));
        } else {
            pixels.push(first);
            pixels.push(second);
            pixels.push(third);
        }
    }
    let r = RgbImage { width, height, pixels };
    assert(r@ =~= want);
    Some(r)
}

/// The image of cyan, magenta, yellow and key, a byte for each.
pub fn decode_cmyk_image(width: u32, height: u32, data: &Vec<u8>) -> (r: Option<RgbImage>)
    requires
        fits(width, height),
    ensures
        r is Some <==> sampled_rgb(width, height, data@, 1, true) is Some,
        r matches Some(image) ==> sampled_rgb(width, height, data@, 1, true) == Some(image@) && image@.wf(),
{
    sample_rgb(width, height, data, 1, true)
}

/// The image of red, green and blue, two bytes for each.
pub fn decode_16bit_rgb(width: u32, height: u32, data: &Vec<u8>) -> (r: Option<RgbImage>)
    requires
        fits(width, height),
    ensures
        r is Some <==> sampled_rgb(width, height, data@, 2, false) is Some,
        r matches Some(image) ==> sampled_rgb(width, height, data@, 2, false) == Some(image@) && image@.wf(),
{
    sample_rgb(width, height, data, 2, false)
}

/// The image of cyan, magenta, yellow and key, two bytes for each.
pub fn decode_16bit_cmyk(width: u32, height: u32, data: &Vec<u8>) -> (r: Option<RgbImage>)
    requires
        fits(width, height),
    ensures
        r is Some <==> sampled_rgb(width, height, data@, 2, true) is Some,
        r matches Some(image) ==> sampled_rgb(width, height, data@, 2, true) == Some(image@) && image@.wf(),
{
    sample_rgb(width, height, data, 2, true)
}

/// The gray image of samples of two bytes, where the data has just the length for it.
pub open spec fn sampled_gray(width: u32, height: u32, data: Seq<u8>) -> Option<Gray> {
    let total = width * height;
    if data.len() != total * 2 {
        None
    } else {
        Some(Gray { width, height, pixels: Seq::new(total as nat, |i: int| data[2 * i]) })
    }
}

/// The gray image of samples of two bytes.
pub fn decode_16bit_gray(width: u32, height: u32, data: &Vec<u8>) -> (r: Option<GrayImage>)
    requires
        fits(width, height),
    ensures
        r is Some <==> sampled_gray(width, height, data@) is Some,
        r matches Some(image) ==> sampled_gray(width, height, data@) == Some(image@) && image@.wf(),
{
    proof {
        lemma_fits(width, height);
    }
    let total: usize = width as usize * height as usize;
    let length: usize = data.len();
    if length as u128 != total as u128 * 2 {
        return None;
    }
    let mut pixels: Vec<u8> = Vec::with_capacity(total);
    for i in 0..total
        invariant
            length == data@.len(),
            length == total * 2,
            pixels@.len() == i,
            forall|j: int| 0 <= j < i ==> #[trigger] pixels@[j] == data@[2 * j],
    {
        pixels.push(data[2 * i]);
    }
    let r = GrayImage { width, height, pixels };
    assert(r@ =~= sampled_gray(width, height, data@)->0);
    Some(r)
}

/// An image of single bits has a pixel for each: where the data has all its rows, each from a
/// new byte on, pixel (x, y) is white just where bit `7 - x % 8` of byte `x / 8` of row `y` is
/// set, or just where it is not; and where a row is missing, there is no image.
pub proof fn law_bit_image(width: u32, height: u32, data: Seq<u8>, invert: bool)
    ensures
        data.len() < ((width + 7) / 8) * height ==> bit_image(width, height, data, invert) is None,
        data.len() >= ((width + 7) / 8) * height ==> bit_image(width, height, data, invert) is Some,
        bit_image(width, height, data, invert) matches Some(image) ==> image.width == width && image.height == height
            && image.pixels.len() == width * height && forall|x: int, y: int|
            0 <= x < width && 0 <= y < height ==> #[trigger] image.at(x, y) == if ((data[y * ((width + 7) / 8) + x / 8] >> (
            (7 - x % 8) as u8)) & 1u8 == 1u8) != invert {
                255u8
            } else {
                0u8
            },
{
    assert(0 <= width * height) by (nonlinear_arith);
    if data.len() >= ((width + 7) / 8) * height {
        let image = bit_image(width, height, data, invert)->0;
        assert forall|x: int, y: int| 0 <= x < width && 0 <= y < height implies #[trigger] image.at(x, y) == if ((data[y
            * ((width + 7) / 8) + x / 8] >> ((7 - x % 8) as u8)) & 1u8 == 1u8) != invert {
            255u8
        } else {
            0u8
        } by {
            lemma_index(width as int, height as int, x, y);
        }
    }
}

/// The indices in some bytes stand one behind the other, the highest bits of a byte first.
pub proof fn law_index_at(data: Seq<u8>, k: int)
    requires
        0 <= k,
    ensures
        index_at(data, 8, k) == data[k],
        index_at(data, 4, 2 * k) == data[k] / 16,
        index_at(data, 4, 2 * k + 1) == data[k] % 16,
        index_at(data, 2, 4 * k) == data[k] / 64,
        index_at(data, 2, 4 * k + 1) == data[k] / 16 % 4,
        index_at(data, 2, 4 * k + 2) == data[k] / 4 % 4,
        index_at(data, 2, 4 * k + 3) == data[k] % 4,
        index_at(data, 1, 8 * k) == data[k] / 128,
        index_at(data, 1, 8 * k + 1) == data[k] / 64 % 2,
        index_at(data, 1, 8 * k + 2) == data[k] / 32 % 2,
        index_at(data, 1, 8 * k + 3) == data[k] / 16 % 2,
        index_at(data, 1, 8 * k + 4) == data[k] / 8 % 2,
        index_at(data, 1, 8 * k + 5) == data[k] / 4 % 2,
        index_at(data, 1, 8 * k + 6) == data[k] / 2 % 2,
        index_at(data, 1, 8 * k + 7) == data[k] % 2,
{
    let b = data[k];
    assert((b >> 0u8) & 255u8 == b) by (bit_vector);
    assert((b >> 4u8) & 15u8 == b / 16 && (b >> 0u8) & 15u8 == b % 16 && (b >> 6u8) & 3u8 == b / 64 && (b >> 4u8) & 3u8
        == b / 16 % 4 && (b >> 2u8) & 3u8 == b / 4 % 4 && (b >> 0u8) & 3u8 == b % 4 && (b >> 7u8) & 1u8 == b / 128 && (b
        >> 6u8) & 1u8 == b / 64 % 2 && (b >> 5u8) & 1u8 == b / 32 % 2 && (b >> 4u8) & 1u8 == b / 16 % 2 && (b >> 3u8)
        & 1u8 == b / 8 % 2 && (b >> 2u8) & 1u8 == b / 4 % 2 && (b >> 1u8) & 1u8 == b / 2 % 2 && (b >> 0u8) & 1u8 == b
        % 2) by (bit_vector);
    assert((4 * k) / 4 == k && (4 * k + 1) / 4 == k && (4 * k + 2) / 4 == k && (4 * k + 3) / 4 == k);
    assert((4 * k) % 4 == 0 && (4 * k + 1) % 4 == 1 && (4 * k + 2) % 4 == 2 && (4 * k + 3) % 4 == 3);
    assert((2 * k) / 2 == k && (2 * k + 1) / 2 == k && (2 * k) % 2 == 0 && (2 * k + 1) % 2 == 1);
    assert((8 * k) / 8 == k && (8 * k + 1) / 8 == k && (8 * k + 2) / 8 == k && (8 * k + 3) / 8 == k);
    assert((8 * k + 4) / 8 == k && (8 * k + 5) / 8 == k && (8 * k + 6) / 8 == k && (8 * k + 7) / 8 == k);
    assert((8 * k) % 8 == 0 && (8 * k + 1) % 8 == 1 && (8 * k + 2) % 8 == 2 && (8 * k + 3) % 8 == 3);
    assert((8 * k + 4) % 8 == 4 && (8 * k + 5) % 8 == 5 && (8 * k + 6) % 8 == 6 && (8 * k + 7) % 8 == 7);
}

/// An image of indices has a pixel for each of the first `width * height` indices, row by row,
/// with the level of that index; it is there just where the data holds so many.
pub proof fn law_indexed_image(width: u32, height: u32, data: Seq<u8>, bpc: u8, hival: u16)
    requires
        bpc == 1 || bpc == 2 || bpc == 4 || bpc == 8,
        width > 0,
        height > 0,
    ensures
        indexed_image(width, height, data, bpc, hival) is Some <==> data.len() * (8int / bpc as int) >= width * height,
        indexed_image(width, height, data, bpc, hival) matches Some(image) ==> image.width == width && image.height
            == height && image.pixels.len() == width * height && forall|x: int, y: int|
            0 <= x < width && 0 <= y < height ==> #[trigger] image.at(x, y) == index_level(
                index_at(data, bpc, y * width + x),
                hival,
            ),
{
    assert(0 < width * height) by (nonlinear_arith)
        requires
            width > 0,
            height > 0,
    ;
    if let Some(image) = indexed_image(width, height, data, bpc, hival) {
        assert forall|x: int, y: int| 0 <= x < width && 0 <= y < height implies #[trigger] image.at(x, y) == index_level(
            index_at(data, bpc, y * width + x),
            hival,
        ) by {
            lemma_index(width as int, height as int, x, y);
        }
    }
}

/// A gray image of samples of two bytes shows the first byte of each; it is there just where the
/// data has two bytes for each pixel.
pub proof fn law_sampled_gray(width: u32, height: u32, data: Seq<u8>)
    ensures
        sampled_gray(width, height, data) is Some <==> data.len() == 2 * (width * height),
        sampled_gray(width, height, data) matches Some(image) ==> image.width == width && image.height == height
            && image.pixels.len() == width * height && forall|x: int, y: int|
            0 <= x < width && 0 <= y < height ==> #[trigger] image.at(x, y) == data[2 * (y * width + x)],
{
    assert(0 <= width * height) by (nonlinear_arith);
    if let Some(image) = sampled_gray(width, height, data) {
        assert forall|x: int, y: int| 0 <= x < width && 0 <= y < height implies #[trigger] image.at(x, y) == data[2 * (y
            * width + x)] by {
            lemma_index(width as int, height as int, x, y);
        }
    }
}

/// A color image of red, green and blue shows the first byte of each sample of pixel `k`.
pub proof fn law_sampled_rgb(width: u32, height: u32, data: Seq<u8>, step: int)
    requires
        step == 1 || step == 2,
    ensures
        sampled_rgb(width, height, data, step, false) is Some <==> data.len() == (width * height) * (3 * step),
        sampled_rgb(width, height, data, step, false) matches Some(image) ==> image.width == width && image.height
            == height && image.pixels.len() == 3 * (width * height) && forall|k: int|
            #![trigger image.pixels[3 * k]]
            0 <= k < width * height ==> image.pixels[3 * k] == data[k * (3 * step)] && image.pixels[3 * k + 1] == data[k
                * (3 * step) + step] && image.pixels[3 * k + 2] == data[k * (3 * step) + 2 * step],
{
    assert(0 <= width * height) by (nonlinear_arith);
    if let Some(image) = sampled_rgb(width, height, data, step, false) {
        assert forall|k: int|
            #![trigger image.pixels[3 * k]]
            0 <= k < width * height implies image.pixels[3 * k] == data[k * (3 * step)] && image.pixels[3 * k + 1]
            == data[k * (3 * step) + step] && image.pixels[3 * k + 2] == data[k * (3 * step) + 2 * step] by {
            lemma_thirds(k);
        }
    }
}

proof fn lemma_thirds(k: int)
    ensures
        (3 * k) / 3 == k,
        (3 * k + 1) / 3 == k,
        (3 * k + 2) / 3 == k,
        (3 * k) % 3 == 0,
        (3 * k + 1) % 3 == 1,
        (3 * k + 2) % 3 == 2,
{
}

/// Whether the levels of pixel `k` are those of its four inks: each the nearest to what is left
/// by its ink and by the key, over 255.
pub open spec fn shows_inks(pixels: Seq<u8>, data: Seq<u8>, step: int, k: int) -> bool {
    let at = k * (4 * step);
    let key = data[at + 3 * step];
    &&& is_printed(data[at], key, pixels[3 * k])
    &&& is_printed(data[at + step], key, pixels[3 * k + 1])
    &&& is_printed(data[at + 2 * step], key, pixels[3 * k + 2])
}

/// A color image of cyan, magenta, yellow and key shows white less the ink, darkened by the key.
pub proof fn law_sampled_cmyk(width: u32, height: u32, data: Seq<u8>, step: int)
    requires
        step == 1 || step == 2,
    ensures
        sampled_rgb(width, height, data, step, true) is Some <==> data.len() == (width * height) * (4 * step),
        sampled_rgb(width, height, data, step, true) matches Some(image) ==> image.width == width && image.height
            == height && image.pixels.len() == 3 * (width * height) && forall|k: int|
            0 <= k < width * height ==> #[trigger] shows_inks(image.pixels, data, step, k),
{
    assert(0 <= width * height) by (nonlinear_arith);
    if let Some(image) = sampled_rgb(width, height, data, step, true) {
        assert forall|k: int| 0 <= k < width * height implies #[trigger] shows_inks(image.pixels, data, step, k) by {
            lemma_thirds(k);
            let at = k * (4 * step);
            let key = data[at + 3 * step];
            lemma_printed(data[at], key);
            lemma_printed(data[at + step], key);
            lemma_printed(data[at + 2 * step], key);
            assert(image.pixels[3 * k] == printed_level(data[at], key));
            assert(image.pixels[3 * k + 1] == printed_level(data[at + step], key));
            assert(image.pixels[3 * k + 2] == printed_level(data[at + 2 * step], key));
        }
    }
}

/// Whether a level is the nearest to what is left by an ink and the key, over 255.
pub open spec fn is_printed(ink: u8, key: u8, level: u8) -> bool {
    -255 <= 2 * ((255 - ink) * (255 - key) - 255 * level) <= 255
}

proof fn lemma_printed(ink: u8, key: u8)
    ensures
        is_printed(ink, key, printed_level(ink, key)),
{
    let a = 255 - ink;
    let b = 255 - key;
    let p = a * b;
    assert(0 <= p <= 255 * 255) by (nonlinear_arith)
        requires
            p == a * b,
            0 <= a <= 255,
            0 <= b <= 255,
    ;
    let q = (p * 2 + 255) / 510;
    assert(a * b * 2 + 255 == p * 2 + 255);
    assert(0 <= q <= 255);
}

/// The number of samples of a pixel is what the length of the data has for each: one, three or
/// four.
pub proof fn law_channel_count(width: u32, height: u32, n: usize)
    requires
        width > 0,
        height > 0,
        4 * (width * height) <= usize::MAX,
    ensures
        channel_count(width, height, n) == Some(1usize) <==> n == width * height,
        channel_count(width, height, n) == Some(3usize) <==> n == 3 * (width * height),
        channel_count(width, height, n) == Some(4usize) <==> n == 4 * (width * height),
        channel_count(width, height, n) matches Some(c) ==> c == 1 || c == 3 || c == 4,
{
    assert(0 < width * height) by (nonlinear_arith)
        requires
            width > 0,
            height > 0,
    ;
}

/// The level of an index: none for the first; for a palette of 256 entries the index itself; and
/// white for the second entry of a palette of two.
pub proof fn law_index_level(index: u8, hival: u16)
    ensures
        index_level(0, hival) == 0,
        index_level(index, 255) == index,
        index_level(1, 1) == 255,
        index_level(1, 0) == 255,
{
    let unit = SINGLE as nat;
    lemma2_to64();
    let step = level_step(hival);
    assert(0 * step.mantissa == 0) by (nonlinear_arith);
    assert(0 * pow2(0) == 0) by (nonlinear_arith);
    assert(single(0) == (Binary { mantissa: 0, exponent: 0 }));
    assert(nearest_integer(product(unit, single(0), step)) == 0);
    let k = lemma_exact_integer(unit, 255);
    law_divided(single(255));
    assert(level_step(255) == (Binary { mantissa: unit, exponent: 0 - 23 }));
    if index > 0 {
        law_doubled(index as nat, 0);
        assert(index * pow2(0) == index) by (nonlinear_arith)
            requires
                pow2(0) == 1,
        ;
    } else {
        assert(0 * level_step(255).mantissa == 0) by (nonlinear_arith);
        assert(nearest_integer(product(unit, single(0), level_step(255))) == 0);
    }
    lemma_single_one();
    assert(level_step(1) == single(255));
    law_doubled(255, 0);
    assert(255 * pow2(0) == 255) by (nonlinear_arith)
        requires
            pow2(0) == 1,
    ;
    assert(single(255).mantissa * unit == unit * single(255).mantissa) by (nonlinear_arith);
    assert(product(unit, single(1), single(255)) == product(unit, single(255), single(1)));
}

proof fn lemma_single_one()
    ensures
        single(1) == (Binary { mantissa: SINGLE as nat, exponent: 0 - 23 }),
{
    reveal_with_fuel(crate::float::scale_up, 25);
    assert(crate::float::scale_down(SINGLE as nat, 1, 1, 0) == (1nat, 0int));
    assert(crate::float::scale_up(SINGLE as nat, 1, 1, 0) == (0x80_0000nat, -23int));
}

} // verus!
