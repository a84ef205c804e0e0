//! The forms in which an image is searched: variants of its levels, turned images, and parts
//! of it.

use vstd::prelude::*;
use crate::picture::{rgb_outcome, DynamicImage, Picture};
use crate::raster::{binarize, binarized, crop, cropped, is_countable, lemma_fits, mapped, stretch_contrast, stretched,
    turn_image, turned, Gray, GrayImage, Rgb, RgbImage, Turn};
use crate::scale::{law_scaled_bounds, law_scaled_side, normalize_gray_input, normalized_outcome, resize,
    resize_outcome, scale_side, scale_three, scale_two, scaled_side, three, two, Filter};
use crate::text::texts_of;
use crate::threshold::{adaptive, adaptive_binarize, lemma_sums_fit, otsu, otsu_threshold};
use crate::tone::{gamma_correct, tone_level};

verus! {

/// The images that some gray images show.
pub open spec fn grays_of(images: Seq<GrayImage>) -> Seq<Gray> {
    images.map_values(|image: GrayImage| image@)
}

/// Every image is well formed.
pub open spec fn all_gray_wf(images: Seq<GrayImage>) -> bool {
    forall|i: int| 0 <= i < images.len() ==> (#[trigger] images[i])@.wf()
}

/// Whether an image has no pixels.
pub open spec fn is_empty(gray: Gray) -> bool {
    gray.width == 0 || gray.height == 0
}

/// The levels of an image after a weighted sum over the neighbours of each pixel, with the
/// nine weights given in decimal.
pub uninterp spec fn filter3x3_levels(image: Gray, weights: Seq<Seq<char>>) -> Seq<u8>;

/// Calls `image::imageops::filter3x3`. Claimed of it: it keeps the size of an image with
/// pixels, and its levels depend on the image and the weights alone.
#[verifier::external_body]
fn filter3x3(gray: &GrayImage, weights: &Vec<String>) -> (r: Vec<u8>)
    requires
        gray@.wf(),
        !is_empty(gray@),
        texts_of(weights@) == sharpening(),
    ensures
        r@ == filter3x3_levels(gray@, texts_of(weights@)),
        r@.len() == gray.width * gray.height,
{
    let source = image::GrayImage::from_raw(gray.width, gray.height, gray.pixels.clone()).unwrap();
    let kernel: Vec<_> = weights.iter().map(|weight| weight.parse().unwrap_or_default()).collect();
    image::imageops::filter3x3(&source, kernel.as_slice()).into_raw()
}

/// Whether `levels` may be the levels of an image after a Gaussian blur, with its width given
/// in decimal. The weights come from exponentials, which are not the same to the last bit on
/// every machine.
pub uninterp spec fn blur_outcome(image: Gray, sigma: Seq<char>, levels: Seq<u8>) -> bool;

/// Calls `image::imageops::blur`. Claimed of it: it keeps the size of an image with pixels,
/// and gives an outcome of blurring that image by that much.
#[verifier::external_body]
fn blur(gray: &GrayImage, sigma: &str) -> (r: Vec<u8>)
    requires
        gray@.wf(),
        !is_empty(gray@),
        sigma@ == "0.7"@,
    ensures
        blur_outcome(gray@, sigma@, r@),
        r@.len() == gray.width * gray.height,
{
    let source = image::GrayImage::from_raw(gray.width, gray.height, gray.pixels.clone()).unwrap();
    image::imageops::blur(&source, sigma.parse().unwrap_or_default()).into_raw()
}

/// The weights that sharpen an image.
pub open spec fn sharpening() -> Seq<Seq<char>> {
    seq!["0"@, "-1"@, "0"@, "-1"@, "5.2"@, "-1"@, "0"@, "-1"@, "0"@]
}

/// The sharpened image; one without pixels stays as it is.
pub open spec fn sharpened(gray: Gray) -> Gray {
    if is_empty(gray) {
        gray
    } else {
        Gray { width: gray.width, height: gray.height, pixels: filter3x3_levels(gray, sharpening()) }
    }
}

/// Sharpens an image.
pub fn sharpen(gray: &GrayImage) -> (r: GrayImage)
    requires
        gray@.wf(),
    ensures
        r@ == sharpened(gray@),
        r@.wf(),
{
    if gray.width == 0 || gray.height == 0 {
        return gray.duplicate();
    }
    let mut weights: Vec<String> = Vec::new();
    weights.push("0".to_owned());
    weights.push("-1".to_owned());
    weights.push("0".to_owned());
    weights.push("-1".to_owned());
    weights.push("5.2".to_owned());
    weights.push("-1".to_owned());
    weights.push("0".to_owned());
    weights.push("-1".to_owned());
    weights.push("0".to_owned());
    assert(texts_of(weights@) =~= sharpening());
    let pixels: Vec<u8> = filter3x3(gray, &weights);
    GrayImage { width: gray.width, height: gray.height, pixels }
}

/// Whether `out` may be the blurred image; one without pixels stays as it is.
pub open spec fn blurred_outcome(gray: Gray, out: Gray) -> bool {
    if is_empty(gray) {
        out == gray
    } else {
        out.width == gray.width && out.height == gray.height && blur_outcome(gray, "0.7"@, out.pixels)
    }
}

/// Blurs an image.
fn soften(gray: &GrayImage) -> (r: GrayImage)
    requires
        gray@.wf(),
    ensures
        blurred_outcome(gray@, r@),
        r@.wf(),
{
    if gray.width == 0 || gray.height == 0 {
        return gray.duplicate();
    }
    let pixels: Vec<u8> = blur(gray, "0.7");
    GrayImage { width: gray.width, height: gray.height, pixels }
}

/// The image in black and white, by the threshold that separates its pixels best.
pub open spec fn two_tone(gray: Gray, invert: bool) -> Gray {
    let threshold = otsu(gray.pixels);
    mapped(gray, |v: u8| binarized(v, threshold, invert))
}

/// The variants of an image that are searched first: itself, with its contrast stretched, and
/// that in black and white.
pub open spec fn fast_variants(gray: Gray) -> Seq<Gray> {
    let clear = stretched(gray);
    seq![gray, clear, two_tone(clear, false)]
}

/// All variants of an image that are searched.
pub open spec fn all_variants(gray: Gray) -> Seq<Gray> {
    let clear = stretched(gray);
    seq![
        gray,
        clear,
        mapped(clear, |v: u8| tone_level(v)),
        two_tone(clear, false),
        two_tone(clear, true),
        adaptive(clear, 24, 7),
        sharpened(clear),
    ]
}

/// The variants of an image that are searched first.
pub fn build_fast_gray_variants(gray: &GrayImage) -> (r: Vec<GrayImage>)
    requires
        gray@.wf(),
        is_countable(gray@),
    ensures
        grays_of(r@) == fast_variants(gray@),
        all_gray_wf(r@),
{
    let clear: GrayImage = stretch_contrast(gray);
    let threshold: u8 = otsu_threshold(&clear);
    let mut out: Vec<GrayImage> = Vec::new();
    out.push(gray.duplicate());
    out.push(clear.duplicate());
    out.push(binarize(&clear, threshold, false));
    assert(grays_of(out@) =~= fast_variants(gray@));
    out
}

/// All variants of an image that are searched.
pub fn build_gray_variants(gray: &GrayImage) -> (r: Vec<GrayImage>)
    requires
        gray@.wf(),
        is_countable(gray@),
    ensures
        grays_of(r@) == all_variants(gray@),
        all_gray_wf(r@),
{
    let clear: GrayImage = stretch_contrast(gray);
    let threshold: u8 = otsu_threshold(&clear);
    let mut out: Vec<GrayImage> = Vec::new();
    out.push(gray.duplicate());
    out.push(clear.duplicate());
    out.push(gamma_correct(&clear));
    out.push(binarize(&clear, threshold, false));
    out.push(binarize(&clear, threshold, true));
    proof {
        lemma_sums_fit(clear@, 24);
    }
    out.push(adaptive_binarize(&clear, 24, 7));
    out.push(sharpen(&clear));
    assert(grays_of(out@) =~= all_variants(gray@));
    out
}

/// The positions in which an image is searched: as it is, or also turned and mirrored.
pub open spec fn orientations(gray: Gray, aggressive: bool) -> Seq<Gray> {
    if aggressive {
        seq![
            gray,
            turned(gray, Turn::Quarter),
            turned(gray, Turn::Half),
            turned(gray, Turn::ThreeQuarters),
            turned(gray, Turn::Mirror),
        ]
    } else {
        seq![gray]
    }
}

/// The positions in which an image is searched.
pub fn oriented_variants(gray: &GrayImage, aggressive: bool) -> (r: Vec<GrayImage>)
    requires
        gray@.wf(),
    ensures
        grays_of(r@) == orientations(gray@, aggressive),
        all_gray_wf(r@),
{
    let mut out: Vec<GrayImage> = Vec::new();
    out.push(gray.duplicate());
    if aggressive {
        out.push(turn_image(gray, Turn::Quarter));
        out.push(turn_image(gray, Turn::Half));
        out.push(turn_image(gray, Turn::ThreeQuarters));
        out.push(turn_image(gray, Turn::Mirror));
    }
    assert(grays_of(out@) =~= orientations(gray@, aggressive));
    out
}

/// The parts of a large image that are searched: all of it, what is left without a margin,
/// and its quarters.
pub open spec fn crops(gray: Gray) -> Seq<Gray> {
    let w = gray.width;
    let h = gray.height;
    if w < 200 || h < 200 {
        seq![gray]
    } else {
        let mx = w / 10;
        let my = h / 10;
        let iw = (w - mx * 2) as u32;
        let ih = (h - my * 2) as u32;
        let hw = w / 2;
        let hh = h / 2;
        let right = (w - hw) as u32;
        let low = (h - hh) as u32;
        let inner = if iw > 64 && ih > 64 { seq![cropped(gray, mx, my, iw, ih)] } else { Seq::empty() };
        seq![gray] + inner + seq![
            cropped(gray, 0, 0, hw, hh),
            cropped(gray, right, 0, hw, hh),
            cropped(gray, 0, low, hw, hh),
            cropped(gray, right, low, hw, hh),
        ]
    }
}

/// The parts of a large image that are searched.
pub fn crop_variants(gray: &GrayImage) -> (r: Vec<GrayImage>)
    requires
        gray@.wf(),
    ensures
        grays_of(r@) == crops(gray@),
        all_gray_wf(r@),
{
    let w: u32 = gray.width;
    let h: u32 = gray.height;
    let mut out: Vec<GrayImage> = Vec::new();
    out.push(gray.duplicate());
    if w < 200 || h < 200 {
        assert(grays_of(out@) =~= crops(gray@));
        return out;
    }
    let mx: u32 = w / 10;
    let my: u32 = h / 10;
    let iw: u32 = w - mx * 2;
    let ih: u32 = h - my * 2;
    if iw > 64 && ih > 64 {
        out.push(crop(gray, mx, my, iw, ih));
    }
    let hw: u32 = w / 2;
    let hh: u32 = h / 2;
    out.push(crop(gray, 0, 0, hw, hh));
    out.push(crop(gray, w - hw, 0, hw, hh));
    out.push(crop(gray, 0, h - hh, hw, hh));
    out.push(crop(gray, w - hw, h - hh, hw, hh));
    assert(grays_of(out@) =~= crops(gray@));
    out
}

/// The length of a tile of a side: two thirds, at least 64.
pub open spec fn tile_length(side: u32) -> u32 {
    if side * 2 / 3 < 64 {
        64
    } else {
        (side * 2 / 3) as u32
    }
}

/// The length of a tile of a side.
fn two_thirds(side: u32) -> (r: u32)
    ensures
        r == tile_length(side),
{
    let length: u64 = side as u64 * 2 / 3;
    if length < 64 {
        64
    } else {
        length as u32
    }
}

/// The tiles of a large image that are searched: all of it, then its left edge from the top,
/// the middle and the bottom, and its middle from the top.
pub open spec fn tiles(gray: Gray) -> Seq<Gray> {
    let w = gray.width;
    let h = gray.height;
    if w < 240 || h < 240 {
        seq![gray]
    } else {
        let tw = tile_length(w);
        let th = tile_length(h);
        let x = ((w - tw) / 2) as u32;
        let y = ((h - th) / 2) as u32;
        seq![
            gray,
            cropped(gray, 0, 0, tw, th),
            cropped(gray, 0, y, tw, th),
            cropped(gray, 0, (h - th) as u32, tw, th),
            cropped(gray, x, 0, tw, th),
        ]
    }
}

/// The tiles of a large image that are searched.
pub fn tile_variants(gray: &GrayImage) -> (r: Vec<GrayImage>)
    requires
        gray@.wf(),
    ensures
        grays_of(r@) == tiles(gray@),
        all_gray_wf(r@),
{
    let w: u32 = gray.width;
    let h: u32 = gray.height;
    let mut out: Vec<GrayImage> = Vec::new();
    out.push(gray.duplicate());
    if w < 240 || h < 240 {
        assert(grays_of(out@) =~= tiles(gray@));
        return out;
    }
    let tw: u32 = two_thirds(w);
    let th: u32 = two_thirds(h);
    let x: u32 = (w - tw) / 2;
    let y: u32 = (h - th) / 2;
    out.push(crop(gray, 0, 0, tw, th));
    out.push(crop(gray, 0, y, tw, th));
    out.push(crop(gray, 0, h - th, tw, th));
    out.push(crop(gray, x, 0, tw, th));
    assert(grays_of(out@) =~= tiles(gray@));
    out
}

/// The gray image of one of the three colors.
pub open spec fn channel(rgb: Rgb, k: int) -> Gray {
    Gray {
        width: rgb.width,
        height: rgb.height,
        pixels: Seq::new((rgb.width * rgb.height) as nat, |i: int| rgb.pixels[3 * i + k]),
    }
}

/// The greater of two levels.
pub open spec fn brighter(a: u8, b: u8) -> u8 {
    if a < b {
        b
    } else {
        a
    }
}

/// The gray image of the brightest color of each pixel.
pub open spec fn brightest_channel(rgb: Rgb) -> Gray {
    Gray {
        width: rgb.width,
        height: rgb.height,
        pixels: Seq::new(
            (rgb.width * rgb.height) as nat,
            |i: int| brighter(brighter(rgb.pixels[3 * i], rgb.pixels[3 * i + 1]), rgb.pixels[3 * i + 2]),
        ),
    }
}

/// The gray images searched where the gray levels of a picture have no payload: its red, its
/// green, and the brightest of its colors.
pub open spec fn channels(rgb: Rgb) -> Seq<Gray> {
    seq![channel(rgb, 0), channel(rgb, 1), brightest_channel(rgb)]
}

/// The gray images of the colors of an image.
fn split_channels(rgb: &RgbImage) -> (r: Vec<GrayImage>)
    requires
        rgb@.wf(),
    ensures
        grays_of(r@) == channels(rgb@),
        all_gray_wf(r@),
{
    proof {
        lemma_fits(rgb.width, rgb.height);
    }
    let total: usize = rgb.width as usize * rgb.height as usize;
    let length: usize = rgb.pixels.len();
    let mut red: Vec<u8> = Vec::with_capacity(total);
    let mut green: Vec<u8> = Vec::with_capacity(total);
    let mut bright: Vec<u8> = Vec::with_capacity(total);
    for i in 0..total
        invariant
            length == rgb.pixels@.len(),
            length == 3 * total,
            total == rgb.width * rgb.height,
            red@.len() == i,
            green@.len() == i,
            bright@.len() == i,
            forall|j: int| 0 <= j < i ==> #[trigger] red@[j] == channel(rgb@, 0).pixels[j],
            forall|j: int| 0 <= j < i ==> #[trigger] green@[j] == channel(rgb@, 1).pixels[j],
            forall|j: int| 0 <= j < i ==> #[trigger] bright@[j] == brightest_channel(rgb@).pixels[j],
    {
        let a: u8 = rgb.pixels[3 * i];
        let b: u8 = rgb.pixels[3 * i + 1];
        let c: u8 = rgb.pixels[3 * i + 2];
        let ab: u8 = if a < b { b } else { a };
        red.push(a);
        green.push(b);
        bright.push(if ab < c { c } else { ab });
    }
    let first = GrayImage { width: rgb.width, height: rgb.height, pixels: red };
    let second = GrayImage { width: rgb.width, height: rgb.height, pixels: green };
    let third = GrayImage { width: rgb.width, height: rgb.height, pixels: bright };
    assert(first@ =~= channel(rgb@, 0));
    assert(second@ =~= channel(rgb@, 1));
    assert(third@ =~= brightest_channel(rgb@));
    let mut out: Vec<GrayImage> = Vec::new();
    out.push(first);
    out.push(second);
    out.push(third);
    assert(grays_of(out@) =~= channels(rgb@));
    out
}

/// Whether each image of `outs` may be the one of `grays` brought to the size it is searched
/// at.
pub open spec fn all_normalized(grays: Seq<Gray>, outs: Seq<Gray>) -> bool {
    &&& outs.len() == grays.len()
    &&& forall|i: int| 0 <= i < grays.len() ==> normalized_outcome(#[trigger] grays[i], outs[i])
}

/// Whether `outs` may be the gray images of the colors of a picture, brought to the size they
/// are searched at.
pub open spec fn channels_outcome(picture: Picture, outs: Seq<Gray>) -> bool {
    exists|rgb: Rgb| #[trigger] rgb_outcome(picture, rgb) && all_normalized(channels(rgb), outs)
}

/// The gray images of the colors of a picture.
pub fn dynamic_gray_candidates(image: &DynamicImage) -> (r: Vec<GrayImage>)
    requires
        image.wf(),
    ensures
        channels_outcome(image@, grays_of(r@)),
        all_gray_wf(r@),
        r@.len() == 3,
{
    let rgb: RgbImage = image.to_rgb8();
    let parts: Vec<GrayImage> = split_channels(&rgb);
    let ghost wanted = channels(rgb@);
    assert(wanted.len() == parts@.len());
    let mut out: Vec<GrayImage> = Vec::new();
    for i in 0..parts.len()
        invariant
            wanted == grays_of(parts@),
            all_gray_wf(parts@),
            out@.len() == i,
            all_gray_wf(out@),
            forall|j: int| 0 <= j < i ==> normalized_outcome(#[trigger] wanted[j], out@[j]@),
    {
        out.push(normalize_gray_input(&parts[i]));
    }
    assert(all_normalized(wanted, grays_of(out@)));
    out
}

/// Whether `outs` may be the images in which a rendered page is searched: its gray levels,
/// blurred, sharpened, and enlarged twice and three times.
pub open spec fn rendered_variants(gray: Gray, outs: Seq<Gray>) -> bool {
    &&& outs.len() == 5
    &&& outs[0] == gray
    &&& blurred_outcome(gray, outs[1])
    &&& outs[2] == sharpened(gray)
    &&& resize_outcome(
        gray,
        scaled_side(gray.width, two(), 7000),
        scaled_side(gray.height, two(), 7000),
        Filter::CatmullRom,
        outs[3],
    )
    &&& resize_outcome(
        gray,
        scaled_side(gray.width, three(), 7000),
        scaled_side(gray.height, three(), 7000),
        Filter::CatmullRom,
        outs[4],
    )
}

/// The images in which a rendered page is searched.
pub fn build_rendered_variants(gray: &GrayImage) -> (r: Vec<GrayImage>)
    requires
        gray@.wf(),
    ensures
        rendered_variants(gray@, grays_of(r@)),
        all_gray_wf(r@),
{
    let mut out: Vec<GrayImage> = Vec::new();
    out.push(gray.duplicate());
    out.push(soften(gray));
    out.push(sharpen(gray));
    let w2: u32 = scale_side(gray.width, scale_two(), 7000);
    let h2: u32 = scale_side(gray.height, scale_two(), 7000);
    out.push(resize(gray, w2, h2, Filter::CatmullRom));
    let w3: u32 = scale_side(gray.width, scale_three(), 7000);
    let h3: u32 = scale_side(gray.height, scale_three(), 7000);
    out.push(resize(gray, w3, h3, Filter::CatmullRom));
    out
}

/// The forms of an image that are searched begin with the image itself and the image with its
/// contrast stretched. A fast search has one more, in black and white by the best threshold; an
/// aggressive one has its tone corrected, black and white, white and black, black and white by the
/// neighbourhood, and sharpened. All have the size of the image.
pub proof fn law_variants(gray: Gray)
    ensures
        fast_variants(gray).len() == 3,
        all_variants(gray).len() == 7,
        fast_variants(gray)[0] == gray,
        all_variants(gray)[0] == gray,
        fast_variants(gray)[1] == stretched(gray),
        all_variants(gray)[1] == stretched(gray),
        forall|i: int|
            0 <= i < 7 ==> (#[trigger] all_variants(gray)[i]).width == gray.width && all_variants(gray)[i].height
                == gray.height,
        ({
            let clear = stretched(gray);
            let threshold = otsu(clear.pixels);
            &&& forall|i: int|
                0 <= i < clear.pixels.len() ==> (#[trigger] fast_variants(gray)[2].pixels[i] == 255 <==> clear.pixels[i]
                    >= threshold)
            &&& forall|i: int|
                0 <= i < clear.pixels.len() ==> #[trigger] all_variants(gray)[2].pixels[i] == tone_level(clear.pixels[i])
            &&& forall|i: int|
                0 <= i < clear.pixels.len() ==> (#[trigger] all_variants(gray)[3].pixels[i] == 255 <==> clear.pixels[i]
                    >= threshold)
            &&& forall|i: int|
                0 <= i < clear.pixels.len() ==> (#[trigger] all_variants(gray)[4].pixels[i] == 255 <==> clear.pixels[i]
                    < threshold)
            &&& all_variants(gray)[5] == adaptive(clear, 24, 7)
            &&& all_variants(gray)[6] == sharpened(clear)
        }),
{
}

/// An image is searched as it is; and in an aggressive search also turned by a quarter, by half
/// and by three quarters, and mirrored.
pub proof fn law_orientations(gray: Gray)
    ensures
        orientations(gray, false) == seq![gray],
        orientations(gray, true).len() == 5,
        orientations(gray, true)[0] == gray,
        orientations(gray, true).contains(turned(gray, Turn::Quarter)),
        orientations(gray, true).contains(turned(gray, Turn::Half)),
        orientations(gray, true).contains(turned(gray, Turn::ThreeQuarters)),
        orientations(gray, true).contains(turned(gray, Turn::Mirror)),
{
    let all = orientations(gray, true);
    assert(all[1] == turned(gray, Turn::Quarter));
    assert(all[2] == turned(gray, Turn::Half));
    assert(all[3] == turned(gray, Turn::ThreeQuarters));
    assert(all[4] == turned(gray, Turn::Mirror));
}

/// The parts of an image that are searched: all of it; and, where each side has at least 200
/// pixels, all but a tenth at each edge, and its four quarters, which cover it.
pub proof fn law_crops(gray: Gray)
    ensures
        gray.width < 200 || gray.height < 200 ==> crops(gray) == seq![gray],
        gray.width >= 200 && gray.height >= 200 ==> ({
            let parts = crops(gray);
            let w = gray.width;
            let h = gray.height;
            &&& parts.len() == 6
            &&& parts[0] == gray
            &&& parts[1] == cropped(gray, w / 10, h / 10, (w - w / 10 * 2) as u32, (h - h / 10 * 2) as u32)
            &&& parts[2] == cropped(gray, 0, 0, w / 2, h / 2)
            &&& parts[3] == cropped(gray, (w - w / 2) as u32, 0, w / 2, h / 2)
            &&& parts[4] == cropped(gray, 0, (h - h / 2) as u32, w / 2, h / 2)
            &&& parts[5] == cropped(gray, (w - w / 2) as u32, (h - h / 2) as u32, w / 2, h / 2)
        }),
{
}

/// The tiles of an image that are searched: all of it; and, where each side has at least 240
/// pixels, four tiles of two thirds of its sides, along its left edge and at its top.
pub proof fn law_tiles(gray: Gray)
    ensures
        gray.width < 240 || gray.height < 240 ==> tiles(gray) == seq![gray],
        gray.width >= 240 && gray.height >= 240 ==> ({
            let parts = tiles(gray);
            let w = (gray.width * 2 / 3) as u32;
            let h = (gray.height * 2 / 3) as u32;
            &&& parts.len() == 5
            &&& parts[0] == gray
            &&& parts[1] == cropped(gray, 0, 0, w, h)
            &&& parts[2] == cropped(gray, 0, ((gray.height - h) / 2) as u32, w, h)
            &&& parts[3] == cropped(gray, 0, (gray.height - h) as u32, w, h)
            &&& parts[4] == cropped(gray, ((gray.width - w) / 2) as u32, 0, w, h)
        }),
{
}

/// The color forms of a picture are its red levels, its green levels, and for each pixel the
/// brightest of its three.
pub proof fn law_channels(rgb: Rgb, k: int)
    requires
        0 <= k < rgb.width * rgb.height,
    ensures
        channels(rgb).len() == 3,
        forall|i: int| 0 <= i < 3 ==> (#[trigger] channels(rgb)[i]).width == rgb.width && channels(rgb)[i].height
            == rgb.height,
        channels(rgb)[0].pixels[k] == rgb.pixels[3 * k],
        channels(rgb)[1].pixels[k] == rgb.pixels[3 * k + 1],
        ({
            let best = channels(rgb)[2].pixels[k];
            &&& best >= rgb.pixels[3 * k] && best >= rgb.pixels[3 * k + 1] && best >= rgb.pixels[3 * k + 2]
            &&& best == rgb.pixels[3 * k] || best == rgb.pixels[3 * k + 1] || best == rgb.pixels[3 * k + 2]
        }),
{
}

/// A rendered page is searched in five forms: as it is, blurred, sharpened, and two and three times
/// as large, with sides of up to 7000 pixels.
pub proof fn law_rendered_forms(gray: Gray, forms: Seq<Gray>)
    requires
        rendered_variants(gray, forms),
        0 < gray.width <= 0x7f_ffff,
        0 < gray.height <= 0x7f_ffff,
    ensures
        forms.len() == 5,
        forms[0] == gray,
        forms[1].width == gray.width && forms[1].height == gray.height && blur_outcome(gray, "0.7"@, forms[1].pixels),
        forms[2].width == gray.width && forms[2].height == gray.height,
        forms[2].pixels == filter3x3_levels(gray, sharpening()),
        ({
            let w = if 2 * gray.width < 7000 { (2 * gray.width) as u32 } else { 7000u32 };
            let h = if 2 * gray.height < 7000 { (2 * gray.height) as u32 } else { 7000u32 };
            resize_outcome(gray, w, h, Filter::CatmullRom, forms[3])
        }),
        exists|w: u32, h: u32| #[trigger] resize_outcome(gray, w, h, Filter::CatmullRom, forms[4]) && w <= 7000 && h <= 7000,
{
    law_scaled_side(gray.width, 7000);
    law_scaled_side(gray.height, 7000);
    law_scaled_bounds(gray.width, three(), 7000);
    law_scaled_bounds(gray.height, three(), 7000);
    let w = scaled_side(gray.width, three(), 7000);
    let h = scaled_side(gray.height, three(), 7000);
    assert(resize_outcome(gray, w, h, Filter::CatmullRom, forms[4]));
}

/// An image is sharpened with weights that sum up to more than one: five and a fifth for the pixel,
/// less one for each of its four neighbours, and nothing for the corners.
pub proof fn law_sharpening()
    ensures
        sharpening().len() == 9,
        sharpening()[4] == "5.2"@,
        forall|i: int| 0 <= i < 9 && i % 2 == 1 ==> #[trigger] sharpening()[i] == "-1"@,
        forall|i: int|
            0 <= i < 9 && i % 2 == 0 && i != 4 ==> #[trigger] sharpening()[i] == "0"@,
{
}

/// The images that some gray images show are those of each of them, in order.
pub proof fn law_grays_of(images: Seq<GrayImage>)
    ensures
        grays_of(images).len() == images.len(),
        forall|i: int| 0 <= i < images.len() ==> grays_of(images)[i] == (#[trigger] images[i])@,
{
}

} // verus!
