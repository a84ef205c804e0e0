//! Pictures: gray or color images, and image files.

use vstd::prelude::*;
use vstd::seq_lib::{to_multiset_build, to_multiset_insert};
use crate::raster::{fits, Gray, GrayImage, Rgb, RgbImage};

verus! {

/// A format of image files.
#[derive(Clone, Copy)]
pub enum ImageFormat {
    Png,
    Jpeg,
    Bmp,
    WebP,
    Tiff,
}

/// An image file, in the format given or in the one that its bytes suggest.
#[verifier::ext_equal]
pub struct Encoded {
    pub bytes: Seq<u8>,
    pub format: Option<ImageFormat>,
}

/// The size of the image in a file whose bytes suggest its format, where it can be read.
pub uninterp spec fn guessed_size(bytes: Seq<u8>) -> Option<(u32, u32)>;

/// The size of the image in a file of a format, where it can be read.
pub uninterp spec fn size_as(bytes: Seq<u8>, format: ImageFormat) -> Option<(u32, u32)>;

/// Whether `luma` may be the gray levels of the image in a file. They are weighted sums in
/// single precision, which a build with fused multiplication and addition rounds otherwise.
pub uninterp spec fn file_luma(bytes: Seq<u8>, format: Option<ImageFormat>, luma: Seq<u8>) -> bool;

/// Whether `rgb` may be the colors of the image in a file.
pub uninterp spec fn file_rgb(bytes: Seq<u8>, format: Option<ImageFormat>, rgb: Seq<u8>) -> bool;

/// Whether `luma` may be the gray levels of a color image.
pub uninterp spec fn rgb_luma(image: Rgb, luma: Seq<u8>) -> bool;

/// What is read from an image file.
pub struct FileContent {
    pub width: u32,
    pub height: u32,
    pub luma: Vec<u8>,
    pub rgb: Vec<u8>,
}

/// Calls `image::load_from_memory`, and `to_luma8` and `to_rgb8` of the image that it gives.
/// Claimed of them: whether the bytes can be read, and the size of the image, depend on the
/// bytes alone; there are as many gray levels and colors as the size says, and they are
/// gray levels and colors of that file.
#[verifier::external_body]
fn load_from_memory(bytes: &[u8]) -> (r: Option<FileContent>)
    ensures
        r is None ==> guessed_size(bytes@) is None,
        r matches Some(c) ==> guessed_size(bytes@) == Some((c.width, c.height)) && c.luma@.len() == c.width * c.height
            && c.rgb@.len() == 3 * (c.width * c.height) && file_luma(bytes@, None, c.luma@) && file_rgb(
            bytes@,
            None,
            c.rgb@,
        ),
{
    let image = image::load_from_memory(bytes).ok()?;
    let luma = image.to_luma8().into_raw();
    Some(FileContent { width: image.width(), height: image.height(), luma, rgb: image.to_rgb8().into_raw() })
}

/// Calls `image::load_from_memory_with_format`, and `to_luma8` and `to_rgb8` of the image that
/// it gives. Claimed of them: whether the bytes can be read in that format, and the size of
/// the image, depend on the bytes and the format alone; there are as many gray levels and
/// colors as the size says, and they are gray levels and colors of that file.
#[verifier::external_body]
fn load_with_format(bytes: &[u8], format: ImageFormat) -> (r: Option<FileContent>)
    ensures
        r is None ==> size_as(bytes@, format) is None,
        r matches Some(c) ==> size_as(bytes@, format) == Some((c.width, c.height)) && c.luma@.len() == c.width
            * c.height && c.rgb@.len() == 3 * (c.width * c.height) && file_luma(bytes@, Some(format), c.luma@)
            && file_rgb(bytes@, Some(format), c.rgb@),
{
    let kind = match format {
        ImageFormat::Png => image::ImageFormat::Png,
        ImageFormat::Jpeg => image::ImageFormat::Jpeg,
        ImageFormat::Bmp => image::ImageFormat::Bmp,
        ImageFormat::WebP => image::ImageFormat::WebP,
        ImageFormat::Tiff => image::ImageFormat::Tiff,
    };
    let image = image::load_from_memory_with_format(bytes, kind).ok()?;
    let luma = image.to_luma8().into_raw();
    Some(FileContent { width: image.width(), height: image.height(), luma, rgb: image.to_rgb8().into_raw() })
}

/// Calls `image::DynamicImage::to_luma8` on a color image. Claimed of it: there is a gray
/// level for each pixel, and they are gray levels of that image.
#[verifier::external_body]
fn luma_of_rgb(image: &RgbImage) -> (r: Vec<u8>)
    requires
        image@.wf(),
    ensures
        r@.len() == image.width * image.height,
        rgb_luma(image@, r@),
{
    let pixels = image.pixels.clone();
    let buffer = image::RgbImage::from_raw(image.width, image.height, pixels).unwrap();
    image::DynamicImage::ImageRgb8(buffer).to_luma8().into_raw()
}

/// The size of the image in a file, where it can be read and indexed.
pub open spec fn encoded_size(file: Encoded) -> Option<(u32, u32)> {
    let size = match file.format {
        None => guessed_size(file.bytes),
        Some(format) => size_as(file.bytes, format),
    };
    match size {
        Some((width, height)) if fits(width, height) => Some((width, height)),
        _ => None,
    }
}

/// The image in a file: its gray levels and its colors.
pub struct LoadedImage {
    pub source: Ghost<Encoded>,
    pub luma: GrayImage,
    pub rgb: RgbImage,
}

impl LoadedImage {
    /// The gray levels and the colors are those of the file.
    pub open spec fn wf(self) -> bool {
        let file = self.source@;
        &&& self.luma@.wf()
        &&& self.rgb@.wf()
        &&& encoded_size(file) == Some((self.luma.width, self.luma.height))
        &&& encoded_size(file) == Some((self.rgb.width, self.rgb.height))
        &&& file_luma(file.bytes, file.format, self.luma.pixels@)
        &&& file_rgb(file.bytes, file.format, self.rgb.pixels@)
    }
}

/// A picture.
pub enum DynamicImage {
    ImageLuma8(GrayImage),
    ImageRgb8(RgbImage),
    File(LoadedImage),
}

/// What a [`DynamicImage`] stands for: its pixels, or the file that it was read from.
#[verifier::ext_equal]
pub enum Picture {
    Luma(Gray),
    Color(Rgb),
    File(Encoded),
}

impl View for DynamicImage {
    type V = Picture;

    open spec fn view(&self) -> Picture {
        match self {
            DynamicImage::ImageLuma8(gray) => Picture::Luma(gray@),
            DynamicImage::ImageRgb8(rgb) => Picture::Color(rgb@),
            DynamicImage::File(image) => Picture::File(image.source@),
        }
    }
}

/// The pictures that some images stand for.
pub open spec fn pictures_of(images: Seq<DynamicImage>) -> Seq<Picture> {
    images.map_values(|image: DynamicImage| image@)
}

/// Every image is well formed.
pub open spec fn all_wf(images: Seq<DynamicImage>) -> bool {
    forall|i: int| 0 <= i < images.len() ==> (#[trigger] images[i]).wf()
}

/// The size of a picture.
pub open spec fn picture_size(picture: Picture) -> (u32, u32) {
    match picture {
        Picture::Luma(gray) => (gray.width, gray.height),
        Picture::Color(rgb) => (rgb.width, rgb.height),
        Picture::File(file) => encoded_size(file)->0,
    }
}

/// Whether `gray` may be the gray levels of a picture.
pub open spec fn luma_outcome(picture: Picture, gray: Gray) -> bool {
    &&& gray.wf()
    &&& (gray.width, gray.height) == picture_size(picture)
    &&& match picture {
        Picture::Luma(own) => gray == own,
        Picture::Color(rgb) => rgb_luma(rgb, gray.pixels),
        Picture::File(file) => file_luma(file.bytes, file.format, gray.pixels),
    }
}

/// A gray image in colors: each level three times.
pub open spec fn gray_to_rgb(gray: Gray) -> Rgb {
    Rgb {
        width: gray.width,
        height: gray.height,
        pixels: Seq::new(3 * gray.pixels.len(), |i: int| gray.pixels[i / 3]),
    }
}

/// Whether `rgb` may be the colors of a picture.
pub open spec fn rgb_outcome(picture: Picture, rgb: Rgb) -> bool {
    &&& rgb.wf()
    &&& (rgb.width, rgb.height) == picture_size(picture)
    &&& match picture {
        Picture::Luma(gray) => rgb == gray_to_rgb(gray),
        Picture::Color(own) => rgb == own,
        Picture::File(file) => file_rgb(file.bytes, file.format, rgb.pixels),
    }
}

/// A gray image in colors.
fn color_of_gray(gray: &GrayImage) -> (r: RgbImage)
    requires
        gray@.wf(),
    ensures
        r@ == gray_to_rgb(gray@),
        r@.wf(),
{
    let mut pixels: Vec<u8> = Vec::new();
    for i in 0..gray.pixels.len()
        invariant
            pixels@.len() == 3 * i,
            forall|j: int| 0 <= j < 3 * i ==> #[trigger] pixels@[j] == gray.pixels@[j / 3],
    {
        let v: u8 = gray.pixels[i];
        pixels.push(v);
        pixels.push(v);
        pixels.push(v);
    }
    let r = RgbImage { width: gray.width, height: gray.height, pixels };
    assert(r@ =~= gray_to_rgb(gray@));
    r
}

impl DynamicImage {
    /// The image is well formed.
    pub open spec fn wf(self) -> bool {
        match self {
            DynamicImage::ImageLuma8(gray) => gray@.wf(),
            DynamicImage::ImageRgb8(rgb) => rgb@.wf(),
            DynamicImage::File(image) => image.wf(),
        }
    }

    /// The size of the image.
    pub fn size(&self) -> (r: (u32, u32))
        requires
            self.wf(),
        ensures
            r == picture_size(self@),
    {
        match self {
            DynamicImage::ImageLuma8(gray) => (gray.width, gray.height),
            DynamicImage::ImageRgb8(rgb) => (rgb.width, rgb.height),
            DynamicImage::File(image) => (image.luma.width, image.luma.height),
        }
    }

    /// The gray levels of the image.
    pub fn to_luma8(&self) -> (r: GrayImage)
        requires
            self.wf(),
        ensures
            luma_outcome(self@, r@),
    {
        match self {
            DynamicImage::ImageLuma8(gray) => gray.duplicate(),
            DynamicImage::ImageRgb8(rgb) => {
                let pixels: Vec<u8> = luma_of_rgb(rgb);
                GrayImage { width: rgb.width, height: rgb.height, pixels }
            },
            DynamicImage::File(image) => image.luma.duplicate(),
        }
    }

    /// The colors of the image.
    pub fn to_rgb8(&self) -> (r: RgbImage)
        requires
            self.wf(),
        ensures
            rgb_outcome(self@, r@),
    {
        match self {
            DynamicImage::ImageLuma8(gray) => color_of_gray(gray),
            DynamicImage::ImageRgb8(rgb) => rgb.duplicate(),
            DynamicImage::File(image) => image.rgb.duplicate(),
        }
    }
}

/// Makes an image of what was read from a file.
fn assemble(content: FileContent, Ghost(file): Ghost<Encoded>) -> (r: Option<DynamicImage>)
    requires
        content.luma@.len() == content.width * content.height,
        content.rgb@.len() == 3 * (content.width * content.height),
        fits(content.width, content.height) ==> encoded_size(file) == Some((content.width, content.height)),
        !fits(content.width, content.height) ==> encoded_size(file) is None,
        file_luma(file.bytes, file.format, content.luma@),
        file_rgb(file.bytes, file.format, content.rgb@),
    ensures
        r is Some <==> encoded_size(file) is Some,
        r matches Some(image) ==> image.wf() && image@ == Picture::File(file),
{
    let width: u32 = content.width;
    let height: u32 = content.height;
    assert(content.luma@.take(width * height) =~= content.luma@);
    assert(content.rgb@.take(3 * (width * height)) =~= content.rgb@);
    match GrayImage::from_raw(width, height, content.luma) {
        None => None,
        Some(luma) => match RgbImage::from_raw(width, height, content.rgb) {
            None => None,
            Some(rgb) => Some(DynamicImage::File(LoadedImage { source: Ghost(file), luma, rgb })),
        },
    }
}

/// The image in a file whose bytes suggest its format, where it can be read.
pub fn load_image(bytes: &[u8]) -> (r: Option<DynamicImage>)
    ensures
        r is Some <==> encoded_size(Encoded { bytes: bytes@, format: None }) is Some,
        r matches Some(image) ==> image.wf() && image@ == Picture::File(Encoded { bytes: bytes@, format: None }),
{
    match load_from_memory(bytes) {
        None => None,
        Some(content) => assemble(content, Ghost(Encoded { bytes: bytes@, format: None })),
    }
}

/// The image in a file of a format, where it can be read.
pub fn load_image_as(bytes: &[u8], format: ImageFormat) -> (r: Option<DynamicImage>)
    ensures
        r is Some <==> encoded_size(Encoded { bytes: bytes@, format: Some(format) }) is Some,
        r matches Some(image) ==> image.wf() && image@ == Picture::File(
            Encoded { bytes: bytes@, format: Some(format) },
        ),
{
    match load_with_format(bytes, format) {
        None => None,
        Some(content) => assemble(content, Ghost(Encoded { bytes: bytes@, format: Some(format) })),
    }
}

/// How promising a picture of a size is: large and square is best. A picture without pixels
/// comes last.
pub open spec fn size_priority(width: u32, height: u32) -> int {
    let area = width * height;
    if area <= 0 {
        i64::MIN as int
    } else {
        let longer = if width < height { height as int } else { width as int };
        let apart = if width < height { height - width } else { width - height };
        let counted = if area < 5_000_000 { area } else { 5_000_000 };
        let score = if counted / 10_000 < 1 { 1 } else { counted / 10_000 };
        score - apart * 1000 / longer
    }
}

/// How promising a picture is.
pub open spec fn priority(picture: Picture) -> int {
    let (width, height) = picture_size(picture);
    size_priority(width, height)
}

/// How promising an image is.
pub fn image_priority(image: &DynamicImage) -> (r: i64)
    requires
        image.wf(),
    ensures
        r == priority(image@),
{
    let (width, height) = image.size();
    assert(0 <= width * height <= 0xffff_ffff * 0xffff_ffff) by (nonlinear_arith)
        requires
            width <= 0xffff_ffff,
            height <= 0xffff_ffff,
    ;
    let area: u64 = width as u64 * height as u64;
    if area == 0 {
        return i64::MIN;
    }
    assert(width > 0 || height > 0) by (nonlinear_arith)
        requires
            width * height > 0,
    ;
    let longer: i64 = if width < height { height as i64 } else { width as i64 };
    let apart: i64 = if width < height { (height - width) as i64 } else { (width - height) as i64 };
    let counted: i64 = if area < 5_000_000 { area as i64 } else { 5_000_000 };
    let score: i64 = if counted / 10_000 < 1 { 1 } else { counted / 10_000 };
    assert(0 <= (apart * 1000) / (longer as int) <= 1000) by (nonlinear_arith)
        requires
            0 <= apart <= longer,
            0 < longer,
    ;
    score - apart * 1000 / longer
}

/// Pictures in order of priority with one more, behind those that are as promising.
pub open spec fn with_picture(pictures: Seq<Picture>, picture: Picture) -> Seq<Picture>
    decreases pictures.len(),
{
    if pictures.len() == 0 || priority(pictures.last()) >= priority(picture) {
        pictures.push(picture)
    } else {
        with_picture(pictures.drop_last(), picture).push(pictures.last())
    }
}

/// Pictures in order of priority, the most promising first.
pub open spec fn prioritized(pictures: Seq<Picture>) -> Seq<Picture>
    decreases pictures.len(),
{
    if pictures.len() == 0 {
        pictures
    } else {
        with_picture(prioritized(pictures.drop_last()), pictures.last())
    }
}

/// Those of some pictures that have the priority `k`, in order.
pub open spec fn of_priority(pictures: Seq<Picture>, k: int) -> Seq<Picture>
    decreases pictures.len(),
{
    if pictures.len() == 0 {
        pictures
    } else if priority(pictures.last()) == k {
        of_priority(pictures.drop_last(), k).push(pictures.last())
    } else {
        of_priority(pictures.drop_last(), k)
    }
}

/// No picture comes after a less promising one.
pub open spec fn descending(pictures: Seq<Picture>) -> bool {
    forall|i: int, j: int|
        0 <= i < j < pictures.len() ==> priority(#[trigger] pictures[i]) >= priority(#[trigger] pictures[j])
}

proof fn lemma_with_picture(pictures: Seq<Picture>, picture: Picture, k: int)
    requires
        descending(pictures),
    ensures
        descending(with_picture(pictures, picture)),
        with_picture(pictures, picture).len() == pictures.len() + 1,
        with_picture(pictures, picture).len() > 0,
        priority(with_picture(pictures, picture).last()) <= priority(picture),
        pictures.len() > 0 ==> priority(with_picture(pictures, picture).last()) <= priority(pictures.last()),
        forall|i: int|
            0 <= i < with_picture(pictures, picture).len() ==> priority(
                #[trigger] with_picture(pictures, picture)[i],
            ) >= priority(picture) || (pictures.len() > 0 && priority(with_picture(pictures, picture)[i])
                >= priority(pictures.last())),
        of_priority(with_picture(pictures, picture), k) == if priority(picture) == k {
            of_priority(pictures, k).push(picture)
        } else {
            of_priority(pictures, k)
        },
    decreases pictures.len(),
{
    let r = with_picture(pictures, picture);
    if pictures.len() == 0 || priority(pictures.last()) >= priority(picture) {
        assert(r.drop_last() =~= pictures);
        assert forall|i: int, j: int| 0 <= i < j < r.len() implies priority(#[trigger] r[i]) >= priority(
            #[trigger] r[j],
        ) by {
            if j == pictures.len() && i < pictures.len() - 1 {
                assert(priority(pictures[i]) >= priority(pictures[pictures.len() - 1]));
            }
        }
    } else {
        let head = pictures.drop_last();
        let inner = with_picture(head, picture);
        assert(descending(head)) by {
            assert forall|i: int, j: int| 0 <= i < j < head.len() implies priority(#[trigger] head[i]) >= priority(
                #[trigger] head[j],
            ) by {
                assert(priority(pictures[i]) >= priority(pictures[j]));
            }
        }
        lemma_with_picture(head, picture, k);
        assert(r.drop_last() =~= inner);
        assert forall|i: int, j: int| 0 <= i < j < r.len() implies priority(#[trigger] r[i]) >= priority(
            #[trigger] r[j],
        ) by {
            if j == inner.len() {
                assert(r[i] == inner[i]);
                if head.len() > 0 {
                    assert(priority(pictures[head.len() - 1]) >= priority(pictures[pictures.len() - 1]));
                }
            } else {
                assert(priority(inner[i]) >= priority(inner[j]));
            }
        }
        assert forall|i: int| 0 <= i < r.len() implies priority(#[trigger] r[i]) >= priority(picture) || (
        pictures.len() > 0 && priority(r[i]) >= priority(pictures.last())) by {
            if i < inner.len() {
                assert(r[i] == inner[i]);
                if head.len() > 0 {
                    assert(priority(pictures[head.len() - 1]) >= priority(pictures[pictures.len() - 1]));
                }
            }
        }
    }
}

/// Ordering pictures by priority leaves no less promising picture before a more promising
/// one, and keeps the pictures of each priority, all of them and in the order they had.
pub proof fn law_prioritized(pictures: Seq<Picture>, k: int)
    ensures
        prioritized(pictures).len() == pictures.len(),
        descending(prioritized(pictures)),
        of_priority(prioritized(pictures), k) == of_priority(pictures, k),
    decreases pictures.len(),
{
    if pictures.len() > 0 {
        law_prioritized(pictures.drop_last(), k);
        lemma_with_picture(prioritized(pictures.drop_last()), pictures.last(), k);
    }
}

/// Adds an image to images in order of priority.
fn insert_image(images: &mut Vec<DynamicImage>, image: DynamicImage)
    requires
        all_wf(old(images)@),
        image.wf(),
    ensures
        pictures_of(final(images)@) == with_picture(pictures_of(old(images)@), image@),
        final(images)@.to_multiset() == old(images)@.to_multiset().insert(image),
        all_wf(final(images)@),
{
    let wanted: i64 = image_priority(&image);
    let ghost before = pictures_of(images@);
    let ghost picture = image@;
    let mut at: usize = images.len();
    assert(before.take(at as int) =~= before);
    assert(with_picture(before, picture) =~= with_picture(before.take(at as int), picture) + before.subrange(
        at as int,
        before.len() as int,
    ));
    while at > 0 && image_priority(&images[at - 1]) < wanted
        invariant
            at <= images@.len(),
            all_wf(images@),
            images@ == old(images)@,
            before == pictures_of(images@),
            wanted == priority(picture),
            with_picture(before, picture) == with_picture(before.take(at as int), picture) + before.subrange(
                at as int,
                before.len() as int,
            ),
        decreases at,
    {
        proof {
            let head = before.take(at as int);
            assert(head.last() == images@[at - 1]@);
            assert(head.drop_last() =~= before.take(at - 1));
            assert(with_picture(before.take(at - 1), picture).push(before[at - 1]) + before.subrange(
                at as int,
                before.len() as int,
            ) =~= with_picture(before.take(at - 1), picture) + before.subrange(at - 1, before.len() as int));
        }
        at = at - 1;
    }
    proof {
        if at > 0 {
            assert(before.take(at as int).last() == images@[at - 1]@);
        }
    }
    let ghost olds = images@;
    images.insert(at, image);
    assert(images@ =~= olds.insert(at as int, image));
    proof {
        to_multiset_insert(olds, at as int, image);
    }
    assert(pictures_of(images@) =~= before.take(at as int).push(picture) + before.subrange(
        at as int,
        before.len() as int,
    ));
    assert forall|i: int| 0 <= i < images@.len() implies (#[trigger] images@[i]).wf() by {
        if i < at {
            assert(images@[i] == olds[i]);
        } else if i > at {
            assert(images@[i] == olds[i - 1]);
        }
    }
}

/// Puts images in order of priority.
pub fn prioritize_images(images: Vec<DynamicImage>) -> (r: Vec<DynamicImage>)
    requires
        all_wf(images@),
    ensures
        pictures_of(r@) == prioritized(pictures_of(images@)),
        r@.to_multiset() == images@.to_multiset(),
        all_wf(r@),
{
    let mut out: Vec<DynamicImage> = Vec::new();
    let ghost pictures = pictures_of(images@);
    assert(pictures_of(out@) =~= pictures.take(0));
    assert(out@ =~= images@.take(0));
    for image in it: images
        invariant
            it.seq() == images@,
            all_wf(images@),
            pictures == pictures_of(images@),
            out@.to_multiset() == images@.take(it.index() as int).to_multiset(),
            pictures_of(out@) == prioritized(pictures.take(it.index() as int)),
            all_wf(out@),
    {
        proof {
            let some = images@.take(it.index() as int);
            assert(pictures.take(it.index() + 1).drop_last() =~= pictures.take(it.index() as int));
            assert(images@.take(it.index() + 1) =~= some.push(image));
            to_multiset_build(some, image);
        }
        insert_image(&mut out, image);
    }
    assert(images@.take(images@.len() as int) =~= images@);
    assert(pictures.take(pictures.len() as int) =~= pictures);
    out
}

/// Pictures in order of priority are the same pictures.
pub proof fn law_prioritized_same(pictures: Seq<Picture>)
    ensures
        prioritized(pictures).to_multiset() == pictures.to_multiset(),
    decreases pictures.len(),
{
    if pictures.len() > 0 {
        let head = prioritized(pictures.drop_last());
        law_prioritized_same(pictures.drop_last());
        lemma_with_picture_same(head, pictures.last());
        assert(pictures =~= pictures.drop_last().push(pictures.last()));
        to_multiset_build(pictures.drop_last(), pictures.last());
    }
}

proof fn lemma_with_picture_same(pictures: Seq<Picture>, picture: Picture)
    ensures
        with_picture(pictures, picture).to_multiset() == pictures.to_multiset().insert(picture),
    decreases pictures.len(),
{
    to_multiset_build(pictures, picture);
    if pictures.len() > 0 && priority(pictures.last()) < priority(picture) {
        let head = pictures.drop_last();
        lemma_with_picture_same(head, picture);
        to_multiset_build(with_picture(head, picture), pictures.last());
        to_multiset_build(head, pictures.last());
        assert(pictures =~= head.push(pictures.last()));
        assert(with_picture(pictures, picture).to_multiset() =~= pictures.to_multiset().insert(picture));
    }
}

/// How promising a picture is: one point for every 10,000 of up to 5,000,000 pixels, at least
/// one, less a thousandth for each thousandth by which its shorter side falls short of the longer
/// one. A picture without pixels is the least promising.
pub proof fn law_priority(width: u32, height: u32)
    ensures
        size_priority(width, height) == size_priority(height, width),
        width == 0 || height == 0 ==> size_priority(width, height) == i64::MIN,
        ({
            let area = width * height;
            let points = if area >= 5_000_000 { 500 } else if area >= 10_000 { area / 10_000 } else { 1 };
            &&& 0 < height <= width ==> size_priority(width, height) + (width - height) * 1000 / (width as int) == points
            &&& 0 < height <= width ==> points - 1000 <= size_priority(width, height) <= points
            &&& 0 < height == width ==> size_priority(width, height) == points
        }),
{
    let area = width * height;
    assert(width * height == height * width) by (nonlinear_arith);
    assert(width == 0 || height == 0 ==> area == 0) by (nonlinear_arith)
        requires
            area == width * height,
    ;
    assert(width > 0 && height > 0 ==> area > 0) by (nonlinear_arith)
        requires
            area == width * height,
    ;
    if 0 < height <= width {
        let lost = (width - height) * 1000 / (width as int);
        assert(0 <= lost <= 1000) by (nonlinear_arith)
            requires
                lost == (width - height) * 1000 / (width as int),
                0 < height <= width,
        ;
    }
}

/// The size of a picture is that of its pixels, or that of the image in its file.
pub proof fn law_picture_size(gray: Gray, rgb: Rgb, file: Encoded, size: (u32, u32))
    ensures
        picture_size(Picture::Luma(gray)) == (gray.width, gray.height),
        picture_size(Picture::Color(rgb)) == (rgb.width, rgb.height),
        encoded_size(file) == Some(size) ==> picture_size(Picture::File(file)) == size,
{
}

/// The gray levels of a gray picture are its own, and its colors are each level three times; the
/// colors of a color picture are its own.
pub proof fn law_own_levels(gray: Gray, rgb: Rgb, levels: Gray, colors: Rgb)
    ensures
        luma_outcome(Picture::Luma(gray), levels) ==> levels == gray,
        rgb_outcome(Picture::Color(rgb), colors) ==> colors == rgb,
        rgb_outcome(Picture::Luma(gray), colors) ==> colors.width == gray.width && colors.height == gray.height
            && colors.pixels.len() == 3 * gray.pixels.len() && forall|k: int|
            #![trigger gray.pixels[k]]
            0 <= k < gray.pixels.len() ==> colors.pixels[3 * k] == gray.pixels[k] && colors.pixels[3 * k + 1]
                == gray.pixels[k] && colors.pixels[3 * k + 2] == gray.pixels[k],
{
    assert forall|k: int|
        #![trigger gray.pixels[k]]
        rgb_outcome(Picture::Luma(gray), colors) && 0 <= k < gray.pixels.len() implies colors.pixels[3 * k]
        == gray.pixels[k] && colors.pixels[3 * k + 1] == gray.pixels[k] && colors.pixels[3 * k + 2] == gray.pixels[k] by {
        assert((3 * k) / 3 == k && (3 * k + 1) / 3 == k && (3 * k + 2) / 3 == k);
    }
}

/// The pictures of some images are those of each of them, in order.
pub proof fn law_pictures_of(images: Seq<DynamicImage>)
    ensures
        pictures_of(images).len() == images.len(),
        forall|i: int| 0 <= i < images.len() ==> pictures_of(images)[i] == (#[trigger] images[i])@,
{
}

/// The size of the image in a file is that in the format given, or in the one that its bytes tell.
pub proof fn law_encoded_size(bytes: Seq<u8>, format: ImageFormat, width: u32, height: u32)
    requires
        fits(width, height),
    ensures
        guessed_size(bytes) == Some((width, height)) ==> encoded_size(Encoded { bytes, format: None }) == Some(
            (width, height),
        ),
        guessed_size(bytes) is None ==> encoded_size(Encoded { bytes, format: None }) is None,
        size_as(bytes, format) == Some((width, height)) ==> encoded_size(Encoded { bytes, format: Some(format) })
            == Some((width, height)),
        size_as(bytes, format) is None ==> encoded_size(Encoded { bytes, format: Some(format) }) is None,
{
}

} // verus!
