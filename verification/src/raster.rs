//! Gray and color rasters, and the pixel operations on them.

use vstd::prelude::*;
use vstd::arithmetic::div_mod::lemma_fundamental_div_mod_converse;

verus! {

/// A gray image: `width * height` pixels, row by row from the top.
pub struct GrayImage {
    pub width: u32,
    pub height: u32,
    pub pixels: Vec<u8>,
}

/// What a [`GrayImage`] shows.
#[verifier::ext_equal]
pub struct Gray {
    pub width: u32,
    pub height: u32,
    pub pixels: Seq<u8>,
}

/// A color image: three bytes, red, green and blue, for each pixel.
pub struct RgbImage {
    pub width: u32,
    pub height: u32,
    pub pixels: Vec<u8>,
}

/// What an [`RgbImage`] shows.
#[verifier::ext_equal]
pub struct Rgb {
    pub width: u32,
    pub height: u32,
    pub pixels: Seq<u8>,
}

impl View for GrayImage {
    type V = Gray;

    open spec fn view(&self) -> Gray {
        Gray { width: self.width, height: self.height, pixels: self.pixels@ }
    }
}

impl View for RgbImage {
    type V = Rgb;

    open spec fn view(&self) -> Rgb {
        Rgb { width: self.width, height: self.height, pixels: self.pixels@ }
    }
}

/// A raster of this size can be indexed, with a margin of one row and one column.
pub open spec fn fits(width: u32, height: u32) -> bool {
    (width + 1) * (height + 1) <= usize::MAX
}

/// Whether a raster of this size can be indexed.
pub fn has_room(width: u32, height: u32) -> (r: bool)
    ensures
        r == fits(width, height),
{
    assert((width + 1) * (height + 1) <= 0x1_0000_0000 * 0x1_0000_0000) by (nonlinear_arith)
        requires
            width <= 0xffff_ffff,
            height <= 0xffff_ffff,
    ;
    (width as u128 + 1) * (height as u128 + 1) <= usize::MAX as u128
}

/// A raster that can be indexed with a margin can be indexed without.
pub proof fn lemma_fits(width: u32, height: u32)
    requires
        fits(width, height),
    ensures
        0 <= width * height < usize::MAX,
        0 <= width * height + width + height < usize::MAX,
        width < usize::MAX,
        height < usize::MAX,
        fits(height, width),
{
    assert((width + 1) * (height + 1) == width * height + width + height + 1) by (nonlinear_arith);
    assert((width + 1) * (height + 1) == (height + 1) * (width + 1)) by (nonlinear_arith);
    assert(0 <= width * height) by (nonlinear_arith);
}

/// A smaller raster can be indexed too.
pub proof fn lemma_fits_within(width: u32, height: u32, inner_width: u32, inner_height: u32)
    requires
        fits(width, height),
        inner_width <= width,
        inner_height <= height,
    ensures
        fits(inner_width, inner_height),
{
    assert((inner_width + 1) * (inner_height + 1) <= (width + 1) * (height + 1)) by (nonlinear_arith)
        requires
            inner_width <= width,
            inner_height <= height,
    ;
}

impl Gray {
    /// The pixels fill the raster exactly.
    pub open spec fn wf(self) -> bool {
        &&& self.pixels.len() == self.width * self.height
        &&& fits(self.width, self.height)
    }

    /// The pixel in column `x` of row `y`.
    pub open spec fn at(self, x: int, y: int) -> u8 {
        self.pixels[y * self.width + x]
    }
}

impl Rgb {
    /// The samples fill the raster exactly.
    pub open spec fn wf(self) -> bool {
        &&& self.pixels.len() == 3 * (self.width * self.height)
        &&& fits(self.width, self.height)
    }
}

/// The pixels of an image can be counted in 32 bits.
pub open spec fn is_countable(gray: Gray) -> bool {
    gray.width * gray.height <= u32::MAX
}

/// The gray image whose pixel in column `x` of row `y` is `f(x, y)`.
pub open spec fn raster(width: u32, height: u32, f: spec_fn(int, int) -> u8) -> Gray {
    Gray {
        width,
        height,
        pixels: Seq::new((width * height) as nat, |i: int| f(i % (width as int), i / (width as int))),
    }
}

/// The gray image with every level replaced by `f` of it.
pub open spec fn mapped(gray: Gray, f: spec_fn(u8) -> u8) -> Gray {
    Gray { width: gray.width, height: gray.height, pixels: gray.pixels.map_values(f) }
}

/// Column `x` of row `y` lies in the raster, at the index it is read from.
pub proof fn lemma_index(width: int, height: int, x: int, y: int)
    requires
        0 <= x < width,
        0 <= y < height,
    ensures
        0 <= y * width + x < width * height,
        (y * width + x) % width == x,
        (y * width + x) / width == y,
{
    assert(0 <= y * width + x < width * height) by (nonlinear_arith)
        requires
            0 <= x < width,
            0 <= y < height,
    ;
    assert(y * width + x == y * width + x);
    lemma_fundamental_div_mod_converse(y * width + x, width, y, x);
}

/// Every index of the raster is a column of a row.
pub proof fn lemma_position(width: int, height: int, i: int)
    requires
        0 <= i < width * height,
        0 <= width,
        0 <= height,
    ensures
        0 < width,
        0 <= i % width < width,
        0 <= i / width < height,
        i == (i / width) * width + i % width,
{
    assert(width > 0) by (nonlinear_arith)
        requires
            0 <= i < width * height,
            0 <= width,
            0 <= height,
    ;
    vstd::arithmetic::div_mod::lemma_fundamental_div_mod(i, width);
    assert(width * (i / width) == (i / width) * width) by (nonlinear_arith);
    assert(0 <= i / width < height) by (nonlinear_arith)
        requires
            0 <= i < width * height,
            i == (i / width) * width + i % width,
            0 <= i % width < width,
    ;
}

/// The first index is the first column of the first row.
pub proof fn lemma_start(width: int, height: int)
    requires
        0 <= width,
        0 <= height,
    ensures
        0 < width * height ==> 0int % width == 0 && 0int / width == 0,
        0 <= width * height,
{
    if 0 < width * height {
        lemma_position(width, height, 0);
        lemma_fundamental_div_mod_converse(0, width, 0, 0);
    }
    assert(0 <= width * height) by (nonlinear_arith)
        requires
            0 <= width,
            0 <= height,
    ;
}

/// The step from one index to the next, in columns and rows.
pub proof fn lemma_next(width: int, i: int)
    requires
        0 < width,
        0 <= i,
    ensures
        i % width == width - 1 ==> (i + 1) % width == 0 && (i + 1) / width == i / width + 1,
        i % width != width - 1 ==> (i + 1) % width == i % width + 1 && (i + 1) / width == i / width,
{
    let x = i % width;
    let y = i / width;
    vstd::arithmetic::div_mod::lemma_fundamental_div_mod(i, width);
    assert(width * y == y * width) by (nonlinear_arith);
    if x == width - 1 {
        assert((y + 1) * width == y * width + width) by (nonlinear_arith);
        lemma_fundamental_div_mod_converse(i + 1, width, y + 1, 0);
    } else {
        lemma_fundamental_div_mod_converse(i + 1, width, y, x + 1);
    }
}

impl GrayImage {
    /// The image of `width` by `height` made of the first pixels of `data`, where there are
    /// enough of them and the raster can be indexed.
    pub fn from_raw(width: u32, height: u32, data: Vec<u8>) -> (r: Option<GrayImage>)
        ensures
            r is Some <==> width * height <= data@.len() && fits(width, height),
            r matches Some(image) ==> image@.wf() && image@ == (Gray {
                width,
                height,
                pixels: data@.take(width * height),
            }),
    {
        let mut data = data;
        assert(width * height <= 0xffff_ffff * 0xffff_ffff) by (nonlinear_arith)
            requires
                width <= 0xffff_ffff,
                height <= 0xffff_ffff,
        ;
        let total: u64 = width as u64 * height as u64;
        if total > data.len() as u64 || !has_room(width, height) {
            return None;
        }
        assert(0 <= width * height) by (nonlinear_arith);
        data.truncate(total as usize);
        Some(GrayImage { width, height, pixels: data })
    }

    /// A copy of the image.
    pub fn duplicate(&self) -> (r: GrayImage)
        ensures
            r@ == self@,
    {
        let pixels: Vec<u8> = self.pixels.clone();
        assert(pixels@ =~= self.pixels@);
        GrayImage { width: self.width, height: self.height, pixels }
    }
}

impl RgbImage {
    /// The image of `width` by `height` made of the first samples of `data`, where there are
    /// enough of them and the raster can be indexed.
    pub fn from_raw(width: u32, height: u32, data: Vec<u8>) -> (r: Option<RgbImage>)
        ensures
            r is Some <==> 3 * (width * height) <= data@.len() && fits(width, height),
            r matches Some(image) ==> image@.wf() && image@ == (Rgb {
                width,
                height,
                pixels: data@.take(3 * (width * height)),
            }),
    {
        let mut data = data;
        assert(width * height <= 0xffff_ffff * 0xffff_ffff) by (nonlinear_arith)
            requires
                width <= 0xffff_ffff,
                height <= 0xffff_ffff,
        ;
        assert(0 <= width * height) by (nonlinear_arith);
        let total: u128 = 3 * (width as u64 * height as u64) as u128;
        if total > data.len() as u128 || !has_room(width, height) {
            return None;
        }
        data.truncate(total as usize);
        Some(RgbImage { width, height, pixels: data })
    }

    /// A copy of the image.
    pub fn duplicate(&self) -> (r: RgbImage)
        ensures
            r@ == self@,
    {
        let pixels: Vec<u8> = self.pixels.clone();
        assert(pixels@ =~= self.pixels@);
        RgbImage { width: self.width, height: self.height, pixels }
    }
}

/// The level that binarization gives to `v`: white from the threshold on, black below,
/// the other way round where inverted.
pub open spec fn binarized(v: u8, threshold: u8, invert: bool) -> u8 {
    if (v >= threshold) != invert {
        255
    } else {
        0
    }
}

/// Black and white by a threshold.
pub fn binarize(gray: &GrayImage, threshold: u8, invert: bool) -> (r: GrayImage)
    ensures
        r@ == mapped(gray@, |v: u8| binarized(v, threshold, invert)),
{
    let total: usize = gray.pixels.len();
    let mut pixels: Vec<u8> = Vec::with_capacity(total);
    for i in 0..total
        invariant
            total == gray.pixels@.len(),
            pixels@.len() == i,
            forall|j: int| 0 <= j < i ==> pixels@[j] == binarized(gray.pixels@[j], threshold, invert),
    {
        let mut out: u8 = if gray.pixels[i] >= threshold { 255 } else { 0 };
        if invert {
            out = 255 - out;
        }
        pixels.push(out);
    }
    let r = GrayImage { width: gray.width, height: gray.height, pixels };
    assert(r@ =~= mapped(gray@, |v: u8| binarized(v, threshold, invert)));
    r
}

/// The darkest level among `pixels`, or 255 where there are none.
pub open spec fn darkest(pixels: Seq<u8>) -> u8
    decreases pixels.len(),
{
    if pixels.len() == 0 {
        255
    } else {
        let rest = darkest(pixels.drop_last());
        if pixels.last() < rest {
            pixels.last()
        } else {
            rest
        }
    }
}

/// The brightest level among `pixels`, or 0 where there are none.
pub open spec fn brightest(pixels: Seq<u8>) -> u8
    decreases pixels.len(),
{
    if pixels.len() == 0 {
        0
    } else {
        let rest = brightest(pixels.drop_last());
        if pixels.last() > rest {
            pixels.last()
        } else {
            rest
        }
    }
}

/// Every level lies between the darkest and the brightest.
pub proof fn lemma_extremes(pixels: Seq<u8>, i: int)
    requires
        0 <= i < pixels.len(),
    ensures
        darkest(pixels) <= pixels[i] <= brightest(pixels),
    decreases pixels.len(),
{
    if i < pixels.len() - 1 {
        lemma_extremes(pixels.drop_last(), i);
    }
}

/// The image with its levels spread over the whole range.
pub open spec fn stretched(gray: Gray) -> Gray {
    let min = darkest(gray.pixels);
    let max = brightest(gray.pixels);
    if max <= min {
        gray
    } else {
        mapped(gray, |v: u8| (((v - min) * 255) / (max - min)) as u8)
    }
}

/// Spreads the levels of an image over the whole range.
pub fn stretch_contrast(gray: &GrayImage) -> (r: GrayImage)
    ensures
        r@ == stretched(gray@),
{
    let total: usize = gray.pixels.len();
    let mut min: u8 = 255;
    let mut max: u8 = 0;
    for i in 0..total
        invariant
            total == gray.pixels@.len(),
            min == darkest(gray.pixels@.take(i as int)),
            max == brightest(gray.pixels@.take(i as int)),
    {
        assert(gray.pixels@.take(i + 1).drop_last() =~= gray.pixels@.take(i as int));
        let v: u8 = gray.pixels[i];
        if v < min {
            min = v;
        }
        if v > max {
            max = v;
        }
    }
    assert(gray.pixels@.take(total as int) =~= gray.pixels@);
    if max <= min {
        return gray.duplicate();
    }
    let range: u16 = (max - min) as u16;
    let mut pixels: Vec<u8> = Vec::with_capacity(total);
    for i in 0..total
        invariant
            total == gray.pixels@.len(),
            min == darkest(gray.pixels@),
            max == brightest(gray.pixels@),
            min < max,
            range == max - min,
            pixels@.len() == i,
            forall|j: int|
                0 <= j < i ==> pixels@[j] == ((((#[trigger] gray.pixels@[j]) - min) * 255) / (max - min)) as u8,
    {
        proof {
            lemma_extremes(gray.pixels@, i as int);
        }
        let v: u8 = gray.pixels[i];
        let lifted: u16 = (v - min) as u16 * 255;
        assert(lifted / range <= 255) by (nonlinear_arith)
            requires
                lifted <= range * 255,
                range > 0,
        ;
        pixels.push((lifted / range) as u8);
    }
    let r = GrayImage { width: gray.width, height: gray.height, pixels };
    assert(r@ =~= stretched(gray@));
    r
}

/// A way of turning an image: clockwise by a quarter, a half or three quarters of a full
/// turn, or into its mirror image.
#[derive(Clone, Copy)]
pub enum Turn {
    Quarter,
    Half,
    ThreeQuarters,
    Mirror,
}

/// Where the pixel in column `x` of row `y` of the turned image comes from.
pub open spec fn turn_source(turn: Turn, width: int, height: int, x: int, y: int) -> (int, int) {
    match turn {
        Turn::Quarter => (y, height - 1 - x),
        Turn::Half => (width - 1 - x, height - 1 - y),
        Turn::ThreeQuarters => (width - 1 - y, x),
        Turn::Mirror => (width - 1 - x, y),
    }
}

/// The turned image.
pub open spec fn turned(gray: Gray, turn: Turn) -> Gray {
    let sideways = turn is Quarter || turn is ThreeQuarters;
    raster(
        if sideways { gray.height } else { gray.width },
        if sideways { gray.width } else { gray.height },
        |x: int, y: int|
            {
                let (sx, sy) = turn_source(turn, gray.width as int, gray.height as int, x, y);
                gray.at(sx, sy)
            },
    )
}

/// Turns an image.
pub fn turn_image(gray: &GrayImage, turn: Turn) -> (r: GrayImage)
    requires
        gray@.wf(),
    ensures
        r@ == turned(gray@, turn),
        r@.wf(),
{
    let sideways: bool = match turn {
        Turn::Quarter => true,
        Turn::ThreeQuarters => true,
        _ => false,
    };
    let width: usize = gray.width as usize;
    let height: usize = gray.height as usize;
    let out_width: u32 = if sideways { gray.height } else { gray.width };
    let out_height: u32 = if sideways { gray.width } else { gray.height };
    let total: usize = gray.pixels.len();
    assert(out_width * out_height == total) by (nonlinear_arith)
        requires
            total == gray.width * gray.height,
            (out_width == gray.width && out_height == gray.height) || (out_width == gray.height && out_height
                == gray.width),
    ;
    proof {
        lemma_fits(gray.width, gray.height);
    }
    let mut pixels: Vec<u8> = Vec::with_capacity(total);
    let mut x: usize = 0;
    let mut y: usize = 0;
    proof {
        lemma_start(out_width as int, out_height as int);
    }
    for i in 0..total
        invariant
            gray@.wf(),
            width == gray.width,
            height == gray.height,
            total == gray.pixels@.len(),
            total == out_width * out_height,
            sideways == (turn is Quarter || turn is ThreeQuarters),
            out_width == if sideways { gray.height } else { gray.width },
            out_height == if sideways { gray.width } else { gray.height },
            i < total ==> x == i as int % out_width as int && y == i as int / out_width as int,
            pixels@.len() == i,
            forall|j: int|
                0 <= j < i ==> #[trigger] pixels@[j] == turned(gray@, turn).pixels[j],
    {
        proof {
            lemma_position(out_width as int, out_height as int, i as int);
        }
        let (sx, sy): (usize, usize) = match turn {
            Turn::Quarter => (y, height - 1 - x),
            Turn::Half => (width - 1 - x, height - 1 - y),
            Turn::ThreeQuarters => (width - 1 - y, x),
            Turn::Mirror => (width - 1 - x, y),
        };
        proof {
            lemma_index(width as int, height as int, sx as int, sy as int);
            assert(0 <= sy * width) by (nonlinear_arith);
        }
        pixels.push(gray.pixels[sy * width + sx]);
        proof {
            lemma_next(out_width as int, i as int);
        }
        x = x + 1;
        if x == out_width as usize {
            x = 0;
            y = y + 1;
        }
    }
    let r = GrayImage { width: out_width, height: out_height, pixels };
    assert(r@ =~= turned(gray@, turn));
    r
}

/// The part of an image that starts in column `x` of row `y`, `width` by `height` or as much
/// of that as there is.
pub open spec fn cropped(gray: Gray, x: u32, y: u32, width: u32, height: u32) -> Gray {
    let left = if x < gray.width { x } else { gray.width };
    let top = if y < gray.height { y } else { gray.height };
    let w = if width < gray.width - left { width } else { (gray.width - left) as u32 };
    let h = if height < gray.height - top { height } else { (gray.height - top) as u32 };
    raster(w, h, |cx: int, cy: int| gray.at(left + cx, top + cy))
}

/// Cuts a part out of an image.
pub fn crop(gray: &GrayImage, x: u32, y: u32, width: u32, height: u32) -> (r: GrayImage)
    requires
        gray@.wf(),
    ensures
        r@ == cropped(gray@, x, y, width, height),
        r@.wf(),
{
    let left: u32 = if x < gray.width { x } else { gray.width };
    let top: u32 = if y < gray.height { y } else { gray.height };
    let w: u32 = if width < gray.width - left { width } else { gray.width - left };
    let h: u32 = if height < gray.height - top { height } else { gray.height - top };
    assert(0 <= w * h <= gray.width * gray.height) by (nonlinear_arith)
        requires
            0 <= w <= gray.width,
            0 <= h <= gray.height,
    ;
    proof {
        lemma_fits_within(gray.width, gray.height, w, h);
    }
    let cols: usize = w as usize;
    let rows: usize = h as usize;
    assert(gray.pixels.len() <= usize::MAX);
    let total: usize = cols * rows;
    let stride: usize = gray.width as usize;
    let mut pixels: Vec<u8> = Vec::with_capacity(total);
    let mut cx: usize = 0;
    let mut cy: usize = 0;
    proof {
        lemma_start(w as int, h as int);
    }
    for i in 0..total
        invariant
            gray@.wf(),
            left + w <= gray.width,
            top + h <= gray.height,
            stride == gray.width,
            left == if x < gray.width { x } else { gray.width },
            top == if y < gray.height { y } else { gray.height },
            w == if width < gray.width - left { width as int } else { gray.width - left },
            h == if height < gray.height - top { height as int } else { gray.height - top },
            total == w * h,
            i < total ==> cx == i as int % w as int && cy == i as int / w as int,
            pixels@.len() == i,
            forall|j: int|
                0 <= j < i ==> #[trigger] pixels@[j] == cropped(gray@, x, y, width, height).pixels[j],
    {
        proof {
            lemma_position(w as int, h as int, i as int);
            lemma_index(gray.width as int, gray.height as int, left + cx, top + cy);
            assert(0 <= (top + cy) * stride) by (nonlinear_arith);
        }
        let row: usize = top as usize + cy;
        let column: usize = left as usize + cx;
        assert(gray.pixels.len() <= usize::MAX);
        pixels.push(gray.pixels[row * stride + column]);
        proof {
            lemma_next(w as int, i as int);
        }
        cx = cx + 1;
        if cx == w as usize {
            cx = 0;
            cy = cy + 1;
        }
    }
    let r = GrayImage { width: w, height: h, pixels };
    assert(r@ =~= cropped(gray@, x, y, width, height));
    r
}

/// A pixel of a raster.
proof fn lemma_raster_at(width: u32, height: u32, f: spec_fn(int, int) -> u8, x: int, y: int)
    requires
        0 <= x < width,
        0 <= y < height,
    ensures
        raster(width, height, f).at(x, y) == f(x, y),
{
    lemma_index(width as int, height as int, x, y);
}

/// Two rasters of one size are the same where all their pixels are.
proof fn lemma_same_raster(a: Gray, b: Gray)
    requires
        a.width == b.width,
        a.height == b.height,
        a.pixels.len() == a.width * a.height,
        b.pixels.len() == b.width * b.height,
        forall|x: int, y: int| 0 <= x < a.width && 0 <= y < a.height ==> #[trigger] a.at(x, y) == b.at(x, y),
    ensures
        a == b,
{
    assert forall|i: int| 0 <= i < a.pixels.len() implies a.pixels[i] == b.pixels[i] by {
        lemma_position(a.width as int, a.height as int, i);
        assert(a.at(i % (a.width as int), i / (a.width as int)) == b.at(i % (a.width as int), i / (a.width as int)));
    }
    assert(a =~= b);
}

/// A turned image, pixel by pixel.
proof fn lemma_turned_at(gray: Gray, turn: Turn, x: int, y: int)
    requires
        0 <= x < turned(gray, turn).width,
        0 <= y < turned(gray, turn).height,
    ensures
        ({
            let (sx, sy) = turn_source(turn, gray.width as int, gray.height as int, x, y);
            &&& 0 <= sx < gray.width
            &&& 0 <= sy < gray.height
            &&& turned(gray, turn).at(x, y) == gray.at(sx, sy)
        }),
{
    let sideways = turn is Quarter || turn is ThreeQuarters;
    lemma_raster_at(
        if sideways { gray.height } else { gray.width },
        if sideways { gray.width } else { gray.height },
        |x: int, y: int|
            {
                let (sx, sy) = turn_source(turn, gray.width as int, gray.height as int, x, y);
                gray.at(sx, sy)
            },
        x,
        y,
    );
}

/// Turning an image by a half, or into its mirror image, twice gives it back; so does turning
/// it by a quarter and then by three quarters, or the other way round. Two quarters are a half.
pub proof fn law_turns(gray: Gray)
    requires
        gray.wf(),
    ensures
        turned(turned(gray, Turn::Half), Turn::Half) == gray,
        turned(turned(gray, Turn::Mirror), Turn::Mirror) == gray,
        turned(turned(gray, Turn::Quarter), Turn::ThreeQuarters) == gray,
        turned(turned(gray, Turn::ThreeQuarters), Turn::Quarter) == gray,
        turned(turned(gray, Turn::Quarter), Turn::Quarter) == turned(gray, Turn::Half),
{
    assert(0 <= gray.width * gray.height) by (nonlinear_arith);
    assert(gray.width * gray.height == gray.height * gray.width) by (nonlinear_arith);
    lemma_turn_back(gray, Turn::Half, Turn::Half);
    lemma_turn_back(gray, Turn::Mirror, Turn::Mirror);
    lemma_turn_back(gray, Turn::Quarter, Turn::ThreeQuarters);
    lemma_turn_back(gray, Turn::ThreeQuarters, Turn::Quarter);
    let once = turned(gray, Turn::Quarter);
    let twice = turned(once, Turn::Quarter);
    let half = turned(gray, Turn::Half);
    assert forall|x: int, y: int| 0 <= x < twice.width && 0 <= y < twice.height implies #[trigger] twice.at(x, y)
        == half.at(x, y) by {
        lemma_turned_at(once, Turn::Quarter, x, y);
        let (sx, sy) = turn_source(Turn::Quarter, once.width as int, once.height as int, x, y);
        lemma_turned_at(gray, Turn::Quarter, sx, sy);
        lemma_turned_at(gray, Turn::Half, x, y);
    }
    lemma_same_raster(twice, half);
}

proof fn lemma_turn_back(gray: Gray, turn: Turn, back: Turn)
    requires
        gray.wf(),
        (turn is Half && back is Half) || (turn is Mirror && back is Mirror) || (turn is Quarter && back
            is ThreeQuarters) || (turn is ThreeQuarters && back is Quarter),
    ensures
        turned(turned(gray, turn), back) == gray,
{
    let once = turned(gray, turn);
    let twice = turned(once, back);
    assert(0 <= gray.width * gray.height) by (nonlinear_arith);
    assert forall|x: int, y: int| 0 <= x < twice.width && 0 <= y < twice.height implies #[trigger] twice.at(x, y)
        == gray.at(x, y) by {
        lemma_turned_at(once, back, x, y);
        let (sx, sy) = turn_source(back, once.width as int, once.height as int, x, y);
        lemma_turned_at(gray, turn, sx, sy);
    }
    lemma_same_raster(twice, gray);
}

/// A crop of the size of the image is the image.
pub proof fn law_crop_all(gray: Gray)
    requires
        gray.wf(),
    ensures
        cropped(gray, 0, 0, gray.width, gray.height) == gray,
{
    let all = cropped(gray, 0, 0, gray.width, gray.height);
    assert(0 <= gray.width * gray.height) by (nonlinear_arith);
    assert forall|x: int, y: int| 0 <= x < all.width && 0 <= y < all.height implies #[trigger] all.at(x, y)
        == gray.at(x, y) by {
        lemma_raster_at(gray.width, gray.height, |cx: int, cy: int| gray.at(0 + cx, 0 + cy), x, y);
    }
    lemma_same_raster(all, gray);
}

/// Binarization gives black and white only, and inverted it gives each pixel the other of
/// them.
pub proof fn law_binarized(v: u8, threshold: u8)
    ensures
        binarized(v, threshold, false) == 0 || binarized(v, threshold, false) == 255,
        binarized(v, threshold, true) == 255 - binarized(v, threshold, false),
{
}

/// The darkest and the brightest level occur.
proof fn lemma_extremes_occur(pixels: Seq<u8>)
    requires
        pixels.len() > 0,
    ensures
        pixels.contains(darkest(pixels)),
        pixels.contains(brightest(pixels)),
    decreases pixels.len(),
{
    reveal_with_fuel(darkest, 2);
    reveal_with_fuel(brightest, 2);
    let rest = pixels.drop_last();
    assert(pixels[pixels.len() - 1] == pixels.last());
    if rest.len() > 0 {
        lemma_extremes_occur(rest);
        let i = choose|i: int| 0 <= i < rest.len() && rest[i] == darkest(rest);
        let j = choose|j: int| 0 <= j < rest.len() && rest[j] == brightest(rest);
        assert(pixels[i] == darkest(rest));
        assert(pixels[j] == brightest(rest));
    }
}

proof fn lemma_stretched_level(v: int, min: int, max: int)
    requires
        0 <= min <= v <= max,
        min < max,
    ensures
        0 <= ((v - min) * 255) / (max - min) <= 255,
        v == min ==> ((v - min) * 255) / (max - min) == 0,
        v == max ==> ((v - min) * 255) / (max - min) == 255,
{
    let range = max - min;
    let lifted = (v - min) * 255;
    assert(0 <= lifted / range <= 255) by (nonlinear_arith)
        requires
            0 <= lifted <= range * 255,
            range > 0,
    ;
    if v == min {
        lemma_fundamental_div_mod_converse(lifted, range, 0, 0);
    }
    if v == max {
        assert(lifted == range * 255);
        lemma_fundamental_div_mod_converse(lifted, range, 255, 0);
    }
}

/// An image with more than one level reaches from black to white when it is stretched, and
/// stretching it again changes nothing.
pub proof fn law_stretched(gray: Gray)
    ensures
        darkest(gray.pixels) < brightest(gray.pixels) ==> darkest(stretched(gray).pixels) == 0 && brightest(
            stretched(gray).pixels,
        ) == 255,
        stretched(stretched(gray)) == stretched(gray),
{
    let min = darkest(gray.pixels);
    let max = brightest(gray.pixels);
    let out = stretched(gray);
    if min < max {
        lemma_extremes_occur(gray.pixels);
        let i = choose|i: int| 0 <= i < gray.pixels.len() && gray.pixels[i] == min;
        let j = choose|j: int| 0 <= j < gray.pixels.len() && gray.pixels[j] == max;
        lemma_stretched_level(min as int, min as int, max as int);
        lemma_stretched_level(max as int, min as int, max as int);
        assert(out.pixels[i] == 0);
        assert(out.pixels[j] == 255);
        lemma_extremes(out.pixels, i);
        lemma_extremes(out.pixels, j);
        let again = stretched(out);
        assert forall|k: int| 0 <= k < out.pixels.len() implies again.pixels[k] == out.pixels[k] by {
            let v = out.pixels[k];
            assert((v - 0) * 255 / (255 - 0) == v);
        }
        assert(again =~= out);
    }
}

/// A turned image has the pixels of the image, each in its new place: turned by a quarter, the
/// left column becomes the top row; by half, the last pixel becomes the first; by three quarters,
/// the top row becomes the left column, from below; and mirrored, each row is reversed.
pub proof fn law_turned(gray: Gray, x: int, y: int)
    requires
        0 <= x < gray.width,
        0 <= y < gray.height,
    ensures
        turned(gray, Turn::Quarter).width == gray.height && turned(gray, Turn::Quarter).height == gray.width,
        turned(gray, Turn::Half).width == gray.width && turned(gray, Turn::Half).height == gray.height,
        turned(gray, Turn::ThreeQuarters).width == gray.height && turned(gray, Turn::ThreeQuarters).height == gray.width,
        turned(gray, Turn::Mirror).width == gray.width && turned(gray, Turn::Mirror).height == gray.height,
        turned(gray, Turn::Quarter).at(gray.height - 1 - y, x) == gray.at(x, y),
        turned(gray, Turn::Half).at(gray.width - 1 - x, gray.height - 1 - y) == gray.at(x, y),
        turned(gray, Turn::ThreeQuarters).at(y, gray.width - 1 - x) == gray.at(x, y),
        turned(gray, Turn::Mirror).at(gray.width - 1 - x, y) == gray.at(x, y),
{
    lemma_turned_at(gray, Turn::Quarter, gray.height - 1 - y, x);
    lemma_turned_at(gray, Turn::Half, gray.width - 1 - x, gray.height - 1 - y);
    lemma_turned_at(gray, Turn::ThreeQuarters, y, gray.width - 1 - x);
    lemma_turned_at(gray, Turn::Mirror, gray.width - 1 - x, y);
}

/// A part of an image that lies within it has the size asked for, and the pixels of the image
/// from its corner on.
pub proof fn law_cropped(gray: Gray, x: u32, y: u32, width: u32, height: u32)
    requires
        x + width <= gray.width,
        y + height <= gray.height,
    ensures
        ({
            let part = cropped(gray, x, y, width, height);
            &&& part.width == width && part.height == height
            &&& forall|cx: int, cy: int|
                0 <= cx < width && 0 <= cy < height ==> #[trigger] part.at(cx, cy) == gray.at(x + cx, y + cy)
        }),
{
    let part = cropped(gray, x, y, width, height);
    assert forall|cx: int, cy: int| 0 <= cx < width && 0 <= cy < height implies #[trigger] part.at(cx, cy) == gray.at(
        x + cx,
        y + cy,
    ) by {
        lemma_index(width as int, height as int, cx, cy);
    }
}

/// A pixel is white just where its level reaches the threshold, or just where it does not.
pub proof fn law_binarized_level(v: u8, threshold: u8, invert: bool)
    ensures
        !invert ==> (binarized(v, threshold, invert) == 255 <==> v >= threshold),
        invert ==> (binarized(v, threshold, invert) == 255 <==> v < threshold),
        binarized(v, threshold, invert) == 0 || binarized(v, threshold, invert) == 255,
{
}

/// Stretching keeps the size of an image and moves its levels, in proportion and rounded down, so
/// that they reach from black to white; an image of one level is left as it is.
pub proof fn law_stretched_levels(gray: Gray, low: u8, high: u8)
    requires
        gray.pixels.contains(low),
        gray.pixels.contains(high),
        forall|i: int| 0 <= i < gray.pixels.len() ==> low <= #[trigger] gray.pixels[i] <= high,
    ensures
        stretched(gray).width == gray.width && stretched(gray).height == gray.height,
        stretched(gray).pixels.len() == gray.pixels.len(),
        low == high ==> stretched(gray) == gray,
        low < high ==> forall|i: int|
            0 <= i < gray.pixels.len() ==> is_share(
                gray.pixels[i] - low,
                high - low,
                #[trigger] stretched(gray).pixels[i] as int,
            ),
{
    let i = choose|i: int| 0 <= i < gray.pixels.len() && gray.pixels[i] == low;
    let j = choose|j: int| 0 <= j < gray.pixels.len() && gray.pixels[j] == high;
    lemma_extremes(gray.pixels, i);
    lemma_extremes(gray.pixels, j);
    lemma_extremes_occur(gray.pixels);
    let min = darkest(gray.pixels);
    let max = brightest(gray.pixels);
    let a = choose|a: int| 0 <= a < gray.pixels.len() && gray.pixels[a] == min;
    let b = choose|b: int| 0 <= b < gray.pixels.len() && gray.pixels[b] == max;
    assert(low <= gray.pixels[a] && gray.pixels[b] <= high);
    assert(min == low && max == high);
    if low < high {
        assert forall|k: int| 0 <= k < gray.pixels.len() implies is_share(
            gray.pixels[k] - low,
            high - low,
            #[trigger] stretched(gray).pixels[k] as int,
        ) by {
            lemma_stretched_level(gray.pixels[k] as int, min as int, max as int);
            let n = (gray.pixels[k] - min) * 255;
            let d = max - min;
            assert(n / d * d <= n < n / d * d + d) by (nonlinear_arith)
                requires
                    d > 0,
            ;
        }
    }
}

/// Whether a level is the share of 255 that `part` has of `whole`, rounded down.
pub open spec fn is_share(part: int, whole: int, level: int) -> bool {
    level * whole <= part * 255 < level * whole + whole
}

} // verus!
