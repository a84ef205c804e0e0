//! Images in the streams of a document.

use vstd::prelude::*;
use vstd::utf8::encode_utf8_decode_utf8;
use crate::pdf::{integer_at, key, lookup, name_is, resolve_object, resolved, PdfDictionary, PdfDocument, PdfObject,
    PdfStream};
use crate::picture::{encoded_size, load_image, DynamicImage, Encoded, Picture};
use crate::predictor::{decode_png_predictor, unfiltered, PredictorParams};
use crate::raster::{fits, has_room, lemma_fits, lemma_index, Gray, GrayImage, Rgb, RgbImage};
use crate::samples::{bit_image, channel_count, decode_16bit_cmyk, decode_16bit_gray, decode_16bit_rgb,
    decode_1bit_gray_image, decode_cmyk_image, decode_indexed_to_gray, indexed_image, infer_channels, law_bit_image,
    law_indexed_image, law_sampled_cmyk, law_sampled_gray, law_sampled_rgb, sampled_gray, sampled_rgb};
use crate::streams::{decompressed, decompressed_content, integer_or, low32, low8, or_default, read_side, side_at};

verus! {

/// What the samples of an image stand for.
#[derive(Debug, Clone, Copy)]
pub enum ColorSpec {
    Gray,
    Rgb,
    Cmyk,
    Indexed { hival: u16 },
}

/// The meaning of that many samples for each pixel.
pub open spec fn by_count(n: int) -> Option<ColorSpec> {
    if n == 1 {
        Some(ColorSpec::Gray)
    } else if n == 3 {
        Some(ColorSpec::Rgb)
    } else if n == 4 {
        Some(ColorSpec::Cmyk)
    } else {
        None
    }
}

/// The meaning of samples in a color space with a name.
pub open spec fn named_space(name: Seq<u8>) -> Option<ColorSpec> {
    if name == key("DeviceGray"@) || name == key("CalGray"@) {
        Some(ColorSpec::Gray)
    } else if name == key("DeviceRGB"@) || name == key("CalRGB"@) || name == key("Lab"@) {
        Some(ColorSpec::Rgb)
    } else if name == key("DeviceCMYK"@) {
        Some(ColorSpec::Cmyk)
    } else {
        None
    }
}

/// The meaning of samples in a color space with a profile, which says how many there are.
pub open spec fn profile_space(document: PdfDocument, items: Seq<PdfObject>) -> Option<ColorSpec> {
    if items.len() < 2 {
        None
    } else {
        match resolved(document, items[1]) {
            Some(PdfObject::Stream(profile)) => match integer_at(profile.dict, "N"@) {
                Some(n) => by_count(n as int),
                None => None,
            },
            _ => None,
        }
    }
}

/// The meaning of samples in a color space with a palette: indices up to a largest one, of
/// which 16 bits are kept.
pub open spec fn palette_space(items: Seq<PdfObject>) -> Option<ColorSpec> {
    if items.len() < 3 {
        None
    } else {
        match items[2] {
            PdfObject::Integer(hival) if hival >= 0 => Some(
                ColorSpec::Indexed { hival: (hival % 0x1_0000) as u16 },
            ),
            _ => None,
        }
    }
}

/// The meaning of samples in a color space with several inks.
pub open spec fn ink_space(items: Seq<PdfObject>) -> Option<ColorSpec> {
    if items.len() < 2 {
        None
    } else {
        match items[1] {
            PdfObject::Array(names) => by_count(names@.len() as int),
            _ => None,
        }
    }
}

/// The meaning of samples in a color space.
pub open spec fn color_space(document: PdfDocument, object: PdfObject) -> Option<ColorSpec> {
    match resolved(document, object) {
        Some(PdfObject::Name(name)) => named_space(name@),
        Some(PdfObject::Array(items)) => if items@.len() == 0 {
            None
        } else {
            match resolved(document, items@[0]) {
                Some(PdfObject::Name(family)) => if family@ == key("ICCBased"@) {
                    profile_space(document, items@)
                } else if family@ == key("Indexed"@) {
                    palette_space(items@)
                } else if family@ == key("Separation"@) {
                    Some(ColorSpec::Gray)
                } else if family@ == key("DeviceN"@) {
                    ink_space(items@)
                } else {
                    None
                },
                _ => None,
            }
        },
        _ => None,
    }
}

fn space_by_count(n: i64) -> (r: Option<ColorSpec>)
    ensures
        r == by_count(n as int),
{
    if n == 1 {
        Some(ColorSpec::Gray)
    } else if n == 3 {
        Some(ColorSpec::Rgb)
    } else if n == 4 {
        Some(ColorSpec::Cmyk)
    } else {
        None
    }
}

fn space_by_name(name: &Vec<u8>) -> (r: Option<ColorSpec>)
    ensures
        r == named_space(name@),
{
    if name_is(name, "DeviceGray") || name_is(name, "CalGray") {
        Some(ColorSpec::Gray)
    } else if name_is(name, "DeviceRGB") || name_is(name, "CalRGB") || name_is(name, "Lab") {
        Some(ColorSpec::Rgb)
    } else if name_is(name, "DeviceCMYK") {
        Some(ColorSpec::Cmyk)
    } else {
        None
    }
}

fn space_by_profile(document: &PdfDocument, items: &Vec<PdfObject>) -> (r: Option<ColorSpec>)
    ensures
        r == profile_space(*document, items@),
{
    if items.len() < 2 {
        return None;
    }
    match resolve_object(document, &items[1]) {
        Ok(PdfObject::Stream(profile)) => match profile.dict.integer("N") {
            Some(n) => space_by_count(n),
            None => None,
        },
        _ => None,
    }
}

fn space_by_palette(items: &Vec<PdfObject>) -> (r: Option<ColorSpec>)
    ensures
        r == palette_space(items@),
{
    if items.len() < 3 {
        return None;
    }
    match &items[2] {
        PdfObject::Integer(hival) => if *hival >= 0 {
            Some(ColorSpec::Indexed { hival: (*hival as u64 % 0x1_0000) as u16 })
        } else {
            None
        },
        _ => None,
    }
}

fn space_by_inks(items: &Vec<PdfObject>) -> (r: Option<ColorSpec>)
    ensures
        r == ink_space(items@),
{
    if items.len() < 2 {
        return None;
    }
    match &items[1] {
        PdfObject::Array(names) => {
            let n: usize = names.len();
            if n == 1 {
                Some(ColorSpec::Gray)
            } else if n == 3 {
                Some(ColorSpec::Rgb)
            } else if n == 4 {
                Some(ColorSpec::Cmyk)
            } else {
                None
            }
        },
        _ => None,
    }
}

/// The meaning of samples in a color space.
pub fn parse_color_spec(document: &PdfDocument, object: &PdfObject) -> (r: Option<ColorSpec>)
    ensures
        r == color_space(*document, *object),
{
    match resolve_object(document, object) {
        Ok(PdfObject::Name(name)) => space_by_name(name),
        Ok(PdfObject::Array(items)) => {
            if items.len() == 0 {
                return None;
            }
            match resolve_object(document, &items[0]) {
                Ok(PdfObject::Name(family)) => {
                    if name_is(family, "ICCBased") {
                        space_by_profile(document, items)
                    } else if name_is(family, "Indexed") {
                        space_by_palette(items)
                    } else if name_is(family, "Separation") {
                        Some(ColorSpec::Gray)
                    } else if name_is(family, "DeviceN") {
                        space_by_inks(items)
                    } else {
                        None
                    }
                },
                _ => None,
            }
        },
        _ => None,
    }
}

/// Whether the samples of an image are inverted: its decode array goes from one to zero, both
/// written as real numbers.
pub open spec fn is_inverted(dict: PdfDictionary) -> bool {
    match lookup(dict, "Decode"@) {
        Some(PdfObject::Array(items)) => {
            &&& items@.len() >= 2
            &&& items@[0] matches PdfObject::Real(a) && a == 0x3f80_0000
            &&& items@[1] matches PdfObject::Real(b) && (b == 0 || b == 0x8000_0000)
        },
        _ => false,
    }
}

/// Whether the samples of an image are inverted.
pub fn should_invert_monochrome(stream: &PdfStream) -> (r: bool)
    ensures
        r == is_inverted(stream.dict),
{
    match stream.dict.get("Decode") {
        Some(PdfObject::Array(items)) => {
            if items.len() < 2 {
                return false;
            }
            match (&items[0], &items[1]) {
                (PdfObject::Real(a), PdfObject::Real(b)) => *a == 0x3f80_0000 && (*b == 0 || *b == 0x8000_0000),
                _ => false,
            }
        },
        _ => false,
    }
}

/// The first dictionary that an item of an array is or refers to.
pub open spec fn first_dictionary(document: PdfDocument, items: Seq<PdfObject>) -> Option<PdfDictionary>
    decreases items.len(),
{
    if items.len() == 0 {
        None
    } else {
        match resolved(document, items[0]) {
            Some(PdfObject::Dictionary(dict)) => Some(dict),
            _ => first_dictionary(document, items.drop_first()),
        }
    }
}

/// The dictionary of the parameters of a stream.
pub open spec fn parms_dictionary(document: PdfDocument, stream: PdfStream) -> Option<PdfDictionary> {
    match lookup(stream.dict, "DecodeParms"@) {
        Some(object) => match resolved(document, object) {
            Some(PdfObject::Dictionary(dict)) => Some(dict),
            Some(PdfObject::Array(items)) => first_dictionary(document, items@),
            _ => None,
        },
        None => None,
    }
}

/// An integer of at least one, of which 32 bits are kept.
pub open spec fn count_of(value: i64) -> u32 {
    if value < 1 {
        1
    } else {
        low32(value)
    }
}

/// How the rows of a stream were filtered, where it says so.
pub open spec fn predictor_params(document: PdfDocument, stream: PdfStream, width: u32, default_bpc: u8) -> Option<
    PredictorParams,
> {
    match parms_dictionary(document, stream) {
        Some(dict) => {
            let bits = integer_or(integer_at(dict, "BitsPerComponent"@), default_bpc as i64);
            Some(
                PredictorParams {
                    predictor: count_of(integer_or(integer_at(dict, "Predictor"@), 1)),
                    colors: count_of(integer_or(integer_at(dict, "Colors"@), 1)),
                    columns: count_of(integer_or(integer_at(dict, "Columns"@), width as i64)),
                    bpc: (if bits < 1 { 1 } else if bits > 16 { 16 } else { bits as int }) as u8,
                },
            )
        },
        None => None,
    }
}

fn find_dictionary<'a>(document: &'a PdfDocument, items: &'a Vec<PdfObject>) -> (r: Option<&'a PdfDictionary>)
    ensures
        r is Some <==> first_dictionary(*document, items@) is Some,
        r matches Some(dict) ==> first_dictionary(*document, items@) == Some(*dict),
{
    let ghost all = items@;
    assert(all.subrange(0, all.len() as int) =~= all);
    for i in 0..items.len()
        invariant
            all == items@,
            first_dictionary(*document, all) == first_dictionary(
                *document,
                all.subrange(i as int, all.len() as int),
            ),
    {
        assert(all.subrange(i as int, all.len() as int).drop_first() =~= all.subrange(i + 1, all.len() as int));
        if let Ok(PdfObject::Dictionary(dict)) = resolve_object(document, &items[i]) {
            return Some(dict);
        }
    }
    None
}

fn find_parms<'a>(document: &'a PdfDocument, stream: &'a PdfStream) -> (r: Option<&'a PdfDictionary>)
    ensures
        r is Some <==> parms_dictionary(*document, *stream) is Some,
        r matches Some(dict) ==> parms_dictionary(*document, *stream) == Some(*dict),
{
    match stream.dict.get("DecodeParms") {
        Some(object) => match resolve_object(document, object) {
            Ok(PdfObject::Dictionary(dict)) => Some(dict),
            Ok(PdfObject::Array(items)) => find_dictionary(document, items),
            _ => None,
        },
        None => None,
    }
}

fn read_count(value: i64) -> (r: u32)
    ensures
        r == count_of(value),
{
    if value < 1 {
        1
    } else {
        (value as u64 % 0x1_0000_0000) as u32
    }
}

/// How the rows of a stream were filtered.
pub fn parse_predictor_params(document: &PdfDocument, stream: &PdfStream, width: u32, default_bpc: u8) -> (r: Option<
    PredictorParams,
>)
    ensures
        r == predictor_params(*document, *stream, width, default_bpc),
{
    match find_parms(document, stream) {
        Some(dict) => {
            let bits: i64 = or_default(dict.integer("BitsPerComponent"), default_bpc as i64);
            let bpc: u8 = if bits < 1 { 1 } else if bits > 16 { 16 } else { bits as u8 };
            Some(
                PredictorParams {
                    predictor: read_count(or_default(dict.integer("Predictor"), 1)),
                    colors: read_count(or_default(dict.integer("Colors"), 1)),
                    columns: read_count(or_default(dict.integer("Columns"), width as i64)),
                    bpc,
                },
            )
        },
        None => None,
    }
}

/// The bytes of a stream with the filters of its rows undone, where it has any that can be.
pub open spec fn without_predictor(
    document: PdfDocument,
    stream: PdfStream,
    bytes: Seq<u8>,
    width: u32,
    height: u32,
    default_bpc: u8,
) -> Seq<u8> {
    match predictor_params(document, stream, width, default_bpc) {
        Some(params) if 10 <= params.predictor <= 15 => match unfiltered(bytes, height, params) {
            Some(rows) => rows,
            None => bytes,
        },
        _ => bytes,
    }
}

/// The bytes of a stream with the filters of its rows undone.
pub fn apply_predictor_if_needed(
    document: &PdfDocument,
    stream: &PdfStream,
    decoded: Vec<u8>,
    width: u32,
    height: u32,
    default_bpc: u8,
) -> (r: Vec<u8>)
    ensures
        r@ == without_predictor(*document, *stream, decoded@, width, height, default_bpc),
{
    match parse_predictor_params(document, stream, width, default_bpc) {
        Some(params) => {
            if 10 <= params.predictor && params.predictor <= 15 {
                let copy: Vec<u8> = decoded.clone();
                assert(copy@ =~= decoded@);
                match decode_png_predictor(copy, height, params) {
                    Some(rows) => rows,
                    None => decoded,
                }
            } else {
                decoded
            }
        },
        None => decoded,
    }
}

/// A gray picture, where there is one.
pub open spec fn luma_picture(gray: Option<Gray>) -> Option<Picture> {
    match gray {
        Some(image) => Some(Picture::Luma(image)),
        None => None,
    }
}

/// A color picture, where there is one.
pub open spec fn color_picture(rgb: Option<Rgb>) -> Option<Picture> {
    match rgb {
        Some(image) => Some(Picture::Color(image)),
        None => None,
    }
}

/// The gray image of the first samples.
pub open spec fn raw_gray(width: u32, height: u32, data: Seq<u8>) -> Option<Gray> {
    if width * height <= data.len() {
        Some(Gray { width, height, pixels: data.take(width * height) })
    } else {
        None
    }
}

/// The color image of the first samples.
pub open spec fn raw_rgb(width: u32, height: u32, data: Seq<u8>) -> Option<Rgb> {
    if 3 * (width * height) <= data.len() {
        Some(Rgb { width, height, pixels: data.take(3 * (width * height)) })
    } else {
        None
    }
}

/// How many samples a pixel has: as the color space says, or else the length of the data.
pub open spec fn sample_count(color: Option<ColorSpec>, width: u32, height: u32, len: nat) -> Option<usize> {
    match color {
        Some(ColorSpec::Gray) => Some(1),
        Some(ColorSpec::Rgb) => Some(3),
        Some(ColorSpec::Cmyk) => Some(4),
        Some(ColorSpec::Indexed { hival }) => Some(1),
        None => channel_count(width, height, len as usize),
    }
}

/// The picture of samples of `bpc` bits in a color space.
pub open spec fn sampled_picture(
    width: u32,
    height: u32,
    data: Seq<u8>,
    bpc: i64,
    color: Option<ColorSpec>,
    invert: bool,
) -> Option<Picture> {
    let count = sample_count(color, width, height, data.len());
    match color {
        Some(ColorSpec::Indexed { hival }) => if bpc == 1 || bpc == 2 || bpc == 4 || bpc == 8 {
            luma_picture(indexed_image(width, height, data, bpc as u8, hival))
        } else {
            None
        },
        _ => if bpc == 1 {
            if color is None || color == Some(ColorSpec::Gray) {
                luma_picture(bit_image(width, height, data, invert))
            } else {
                None
            }
        } else if bpc == 16 {
            if count == Some(1usize) {
                luma_picture(sampled_gray(width, height, data))
            } else if count == Some(3usize) {
                color_picture(sampled_rgb(width, height, data, 2, false))
            } else if count == Some(4usize) {
                color_picture(sampled_rgb(width, height, data, 2, true))
            } else {
                None
            }
        } else if bpc == 8 {
            if count == Some(1usize) {
                luma_picture(raw_gray(width, height, data))
            } else if count == Some(3usize) {
                color_picture(raw_rgb(width, height, data))
            } else if count == Some(4usize) {
                color_picture(sampled_rgb(width, height, data, 1, true))
            } else {
                None
            }
        } else {
            None
        },
    }
}

/// An image file that needs no format.
pub open spec fn plain_file(bytes: Seq<u8>) -> Encoded {
    Encoded { bytes, format: None }
}

/// The picture of the unpacked bytes of a stream: an image file, or else samples as the
/// dictionary of the stream describes them. Images without a size, or too large to be
/// indexed, have none.
pub open spec fn described_picture(document: PdfDocument, stream: PdfStream, bytes: Seq<u8>) -> Option<Picture> {
    match (side_at(stream.dict, "Width"@), side_at(stream.dict, "Height"@)) {
        (Some(width), Some(height)) => {
            let bpc = integer_or(integer_at(stream.dict, "BitsPerComponent"@), 8);
            let data = without_predictor(document, stream, bytes, width, height, low8(bpc));
            let color = match lookup(stream.dict, "ColorSpace"@) {
                Some(object) => color_space(document, object),
                None => None,
            };
            if encoded_size(plain_file(data)) is Some {
                Some(Picture::File(plain_file(data)))
            } else if !fits(width, height) {
                None
            } else {
                sampled_picture(width, height, data, bpc, color, is_inverted(stream.dict))
            }
        },
        _ => None,
    }
}

/// The picture in a stream: its bytes are an image file as they stand, or unpack to a
/// picture.
pub open spec fn stream_picture(document: PdfDocument, stream: PdfStream) -> Option<Picture> {
    if encoded_size(plain_file(stream.content@)) is Some {
        Some(Picture::File(plain_file(stream.content@)))
    } else {
        match decompressed(stream) {
            Some(bytes) => described_picture(document, stream, bytes),
            None => None,
        }
    }
}

/// What an image is, where there is one.
pub open spec fn is_picture(image: Option<DynamicImage>, picture: Option<Picture>) -> bool {
    match image {
        Some(found) => found.wf() && picture == Some(found@),
        None => picture is None,
    }
}

fn gray_picture(gray: Option<GrayImage>, Ghost(wanted): Ghost<Option<Gray>>) -> (r: Option<DynamicImage>)
    requires
        gray is Some <==> wanted is Some,
        gray matches Some(image) ==> wanted == Some(image@) && image@.wf(),
    ensures
        is_picture(r, luma_picture(wanted)),
{
    match gray {
        Some(image) => Some(DynamicImage::ImageLuma8(image)),
        None => None,
    }
}

fn rgb_picture(rgb: Option<RgbImage>, Ghost(wanted): Ghost<Option<Rgb>>) -> (r: Option<DynamicImage>)
    requires
        rgb is Some <==> wanted is Some,
        rgb matches Some(image) ==> wanted == Some(image@) && image@.wf(),
    ensures
        is_picture(r, color_picture(wanted)),
{
    match rgb {
        Some(image) => Some(DynamicImage::ImageRgb8(image)),
        None => None,
    }
}

/// How many samples a pixel has.
fn count_samples(color: Option<ColorSpec>, width: u32, height: u32, len: usize) -> (r: Option<usize>)
    ensures
        r == sample_count(color, width, height, len as nat),
{
    match color {
        Some(ColorSpec::Gray) => Some(1),
        Some(ColorSpec::Rgb) => Some(3),
        Some(ColorSpec::Cmyk) => Some(4),
        Some(ColorSpec::Indexed { .. }) => Some(1),
        None => infer_channels(width, height, len),
    }
}

/// The picture of samples.
fn decode_samples(
    width: u32,
    height: u32,
    data: Vec<u8>,
    bpc: i64,
    color: Option<ColorSpec>,
    invert: bool,
) -> (r: Option<DynamicImage>)
    requires
        fits(width, height),
    ensures
        is_picture(r, sampled_picture(width, height, data@, bpc, color, invert)),
{
    if let Some(ColorSpec::Indexed { hival }) = color {
        if bpc == 1 || bpc == 2 || bpc == 4 || bpc == 8 {
            let bits: u8 = bpc as u8;
            let gray: Option<GrayImage> = decode_indexed_to_gray(width, height, &data, bits, hival);
            return gray_picture(gray, Ghost(indexed_image(width, height, data@, bits, hival)));
        }
        return None;
    }
    if bpc == 1 {
        let plain: bool = match color {
            None => true,
            Some(ColorSpec::Gray) => true,
            _ => false,
        };
        if plain {
            let gray: Option<GrayImage> = decode_1bit_gray_image(width, height, &data, invert);
            return gray_picture(gray, Ghost(bit_image(width, height, data@, invert)));
        }
        return None;
    }
    if bpc != 8 && bpc != 16 {
        return None;
    }
    let count: usize = match count_samples(color, width, height, data.len()) {
        Some(count) => count,
        None => {
            return None;
        },
    };
    if bpc == 16 {
        if count == 1 {
            let gray: Option<GrayImage> = decode_16bit_gray(width, height, &data);
            gray_picture(gray, Ghost(sampled_gray(width, height, data@)))
        } else if count == 3 {
            let rgb: Option<RgbImage> = decode_16bit_rgb(width, height, &data);
            rgb_picture(rgb, Ghost(sampled_rgb(width, height, data@, 2, false)))
        } else if count == 4 {
            let rgb: Option<RgbImage> = decode_16bit_cmyk(width, height, &data);
            rgb_picture(rgb, Ghost(sampled_rgb(width, height, data@, 2, true)))
        } else {
            None
        }
    } else if count == 1 {
        let ghost wanted = raw_gray(width, height, data@);
        let gray: Option<GrayImage> = GrayImage::from_raw(width, height, data);
        gray_picture(gray, Ghost(wanted))
    } else if count == 3 {
        let ghost wanted = raw_rgb(width, height, data@);
        let rgb: Option<RgbImage> = RgbImage::from_raw(width, height, data);
        rgb_picture(rgb, Ghost(wanted))
    } else if count == 4 {
        let rgb: Option<RgbImage> = decode_cmyk_image(width, height, &data);
        rgb_picture(rgb, Ghost(sampled_rgb(width, height, data@, 1, true)))
    } else {
        None
    }
}

/// The low 8 bits of an integer.
fn read_low8(value: i64) -> (r: u8)
    ensures
        r == low8(value),
{
    if value >= 0 {
        (value as u64 % 256) as u8
    } else {
        255 - ((-(value + 1)) as u64 % 256) as u8
    }
}

/// The picture of the unpacked bytes of a stream.
pub fn decode_unpacked_stream(document: &PdfDocument, stream: &PdfStream, bytes: Vec<u8>) -> (r: Option<DynamicImage>)
    ensures
        is_picture(r, described_picture(*document, *stream, bytes@)),
{
    let width: u32 = match read_side(&stream.dict, "Width") {
        Some(side) => side,
        None => {
            return None;
        },
    };
    let height: u32 = match read_side(&stream.dict, "Height") {
        Some(side) => side,
        None => {
            return None;
        },
    };
    let bpc: i64 = or_default(stream.dict.integer("BitsPerComponent"), 8);
    let data: Vec<u8> = apply_predictor_if_needed(document, stream, bytes, width, height, read_low8(bpc));
    if let Some(image) = load_image(data.as_slice()) {
        return Some(image);
    }
    if !has_room(width, height) {
        return None;
    }
    let color: Option<ColorSpec> = match stream.dict.get("ColorSpace") {
        Some(object) => parse_color_spec(document, object),
        None => None,
    };
    decode_samples(width, height, data, bpc, color, should_invert_monochrome(stream))
}

/// The picture in a stream.
pub fn decode_pdf_image_stream(document: &PdfDocument, stream: &PdfStream) -> (r: Option<DynamicImage>)
    ensures
        is_picture(r, stream_picture(*document, *stream)),
{
    if let Some(image) = load_image(stream.content.as_slice()) {
        return Some(image);
    }
    match decompressed_content(stream) {
        Some(bytes) => decode_unpacked_stream(document, stream, bytes),
        None => None,
    }
}

/// Different names have different bytes.
proof fn lemma_key(a: Seq<char>, b: Seq<char>)
    ensures
        key(a) == key(b) ==> a == b,
{
    encode_utf8_decode_utf8(a);
    encode_utf8_decode_utf8(b);
}

/// What the samples of an image stand for, by the name of its color space: gray; red, green and
/// blue; or four inks. Other names say nothing.
pub proof fn law_named_space(document: PdfDocument, object: PdfObject, name: Seq<char>)
    requires
        resolved(document, object) matches Some(PdfObject::Name(given)) && given@ == key(name),
    ensures
        color_space(document, object) == Some(ColorSpec::Gray) <==> name == "DeviceGray"@ || name == "CalGray"@,
        color_space(document, object) == Some(ColorSpec::Rgb) <==> name == "DeviceRGB"@ || name == "CalRGB"@ || name
            == "Lab"@,
        color_space(document, object) == Some(ColorSpec::Cmyk) <==> name == "DeviceCMYK"@,
        !(color_space(document, object) matches Some(ColorSpec::Indexed { .. })),
{
    reveal_strlit("DeviceGray");
    reveal_strlit("CalGray");
    reveal_strlit("DeviceRGB");
    reveal_strlit("CalRGB");
    reveal_strlit("Lab");
    reveal_strlit("DeviceCMYK");
    lemma_key(name, "DeviceGray"@);
    lemma_key(name, "CalGray"@);
    lemma_key(name, "DeviceRGB"@);
    lemma_key(name, "CalRGB"@);
    lemma_key(name, "Lab"@);
    lemma_key(name, "DeviceCMYK"@);
    assert("DeviceGray"@[6] != "DeviceCMYK"@[6]);
}

/// What the samples of an image stand for, by the family of its color space: as many as the
/// profile of the space has components, or as it has inks; gray for a single ink; and indices
/// up to the largest one, where the space has a palette.
pub proof fn law_family_space(document: PdfDocument, object: PdfObject, items: Seq<PdfObject>, family: Seq<char>)
    requires
        resolved(document, object) matches Some(PdfObject::Array(all)) && all@ == items,
        items.len() >= 1,
        resolved(document, items[0]) matches Some(PdfObject::Name(given)) && given@ == key(family),
    ensures
        family == "Separation"@ ==> color_space(document, object) == Some(ColorSpec::Gray),
        family == "Indexed"@ && items.len() >= 3 ==> (items[2] matches PdfObject::Integer(hival) ==> 0 <= hival <= 0xffff ==> color_space(
            document,
            object,
        ) == Some(ColorSpec::Indexed { hival: hival as u16 })),
        family == "ICCBased"@ && items.len() >= 2 ==> (resolved(document, items[1]) matches Some(PdfObject::Stream(profile)) ==> (lookup(
            profile.dict,
            "N"@,
        ) matches Some(PdfObject::Integer(n)) ==> is_count_of(color_space(document, object), n as int))),
        family == "DeviceN"@ && items.len() >= 2 ==> (items[1] matches PdfObject::Array(inks) ==> is_count_of(
            color_space(document, object),
            inks@.len() as int,
        )),
{
    reveal_strlit("Separation");
    reveal_strlit("Indexed");
    reveal_strlit("ICCBased");
    reveal_strlit("DeviceN");
    lemma_key(family, "Separation"@);
    lemma_key(family, "Indexed"@);
    lemma_key(family, "ICCBased"@);
    lemma_key(family, "DeviceN"@);
    assert("Indexed"@[0] != "DeviceN"@[0]);
}

/// One component is gray, three are red, green and blue, four are inks, and no other number says
/// anything.
pub open spec fn is_count_of(color: Option<ColorSpec>, n: int) -> bool {
    &&& color == Some(ColorSpec::Gray) <==> n == 1
    &&& color == Some(ColorSpec::Rgb) <==> n == 3
    &&& color == Some(ColorSpec::Cmyk) <==> n == 4
    &&& color is None <==> n != 1 && n != 3 && n != 4
}

/// A stream describes an image of this size, with samples of so many bits, and has no filters of
/// its rows; and its unpacked bytes are no image file.
pub open spec fn describes(stream: PdfStream, width: u32, height: u32, bits: i64, bytes: Seq<u8>) -> bool {
    &&& width > 0 && height > 0 && fits(width, height)
    &&& lookup(stream.dict, "Width"@) matches Some(PdfObject::Integer(w)) && w == width
    &&& lookup(stream.dict, "Height"@) matches Some(PdfObject::Integer(h)) && h == height
    &&& lookup(stream.dict, "BitsPerComponent"@) == Some(PdfObject::Integer(bits)) || (lookup(
        stream.dict,
        "BitsPerComponent"@,
    ) is None && bits == 8)
    &&& lookup(stream.dict, "DecodeParms"@) is None
    &&& encoded_size(Encoded { bytes, format: None }) is None
}

/// Whether the color space of a stream is the one given, or none.
pub open spec fn has_space(document: PdfDocument, stream: PdfStream, color: Option<ColorSpec>) -> bool {
    match lookup(stream.dict, "ColorSpace"@) {
        Some(object) => color_space(document, object) == color,
        None => color is None,
    }
}

proof fn lemma_described(
    document: PdfDocument,
    stream: PdfStream,
    width: u32,
    height: u32,
    bits: i64,
    bytes: Seq<u8>,
    color: Option<ColorSpec>,
)
    requires
        describes(stream, width, height, bits, bytes),
        has_space(document, stream, color),
    ensures
        described_picture(document, stream, bytes) == sampled_picture(
            width,
            height,
            bytes,
            bits,
            color,
            is_inverted(stream.dict),
        ),
{
    assert(side_at(stream.dict, "Width"@) == Some(width));
    assert(side_at(stream.dict, "Height"@) == Some(height));
    assert(without_predictor(document, stream, bytes, width, height, low8(bits)) == bytes);
}

/// A black and white image is shown: a stream of single bits, in a gray color space or in none,
/// with a bit for each pixel, has a picture of the size that it describes, white just where a
/// bit is set, or just where it is not if its decode array goes from one to zero.
#[verifier::spinoff_prover]
#[verifier::rlimit(50)]
pub proof fn law_black_and_white(document: PdfDocument, stream: PdfStream, width: u32, height: u32, bytes: Seq<u8>)
    requires
        describes(stream, width, height, 1, bytes),
        has_space(document, stream, None) || has_space(document, stream, Some(ColorSpec::Gray)),
        bytes.len() >= ((width + 7) / 8) * height,
    ensures
        described_picture(document, stream, bytes) is Some,
        described_picture(document, stream, bytes) matches Some(picture) ==> (picture matches Picture::Luma(image)
            && image.width == width && image.height == height && forall|x: int, y: int|
            0 <= x < width && 0 <= y < height ==> #[trigger] image.at(x, y) == if ((bytes[y * ((width + 7) / 8) + x / 8] >> (
            (7 - x % 8) as u8)) & 1u8 == 1u8) != is_inverted(stream.dict) {
                255u8
            } else {
                0u8
            }),
{
    let invert = is_inverted(stream.dict);
    let color = if has_space(document, stream, None) { None } else { Some(ColorSpec::Gray) };
    lemma_described(document, stream, width, height, 1, bytes, color);
    law_bit_image(width, height, bytes, invert);
    assert(sampled_picture(width, height, bytes, 1, color, invert) == luma_picture(
        bit_image(width, height, bytes, invert),
    ));
}

/// A decode array inverts just where it begins with the real numbers one and zero.
pub proof fn law_inverted(dict: PdfDictionary, items: Vec<PdfObject>, a: u32, b: u32)
    ensures
        lookup(dict, "Decode"@) is None ==> !is_inverted(dict),
        lookup(dict, "Decode"@) == Some(PdfObject::Array(items)) && items@.len() >= 2 && items@[0] == PdfObject::Real(
            a,
        ) && items@[1] == PdfObject::Real(b) ==> (is_inverted(dict) <==> a == 0x3f80_0000 && (b == 0 || b
            == 0x8000_0000)),
        lookup(dict, "Decode"@) == Some(PdfObject::Array(items)) && items@.len() < 2 ==> !is_inverted(dict),
{
}

/// A gray image of one or two bytes for each pixel is shown: the picture has the size that the
/// stream describes, and pixel (x, y) is the sample of its place, or its first byte.
#[verifier::spinoff_prover]
#[verifier::rlimit(50)]
pub proof fn law_gray_samples(document: PdfDocument, stream: PdfStream, width: u32, height: u32, bytes: Seq<u8>)
    requires
        has_space(document, stream, Some(ColorSpec::Gray)) || (has_space(document, stream, None) && bytes.len() == width
            * height),
    ensures
        describes(stream, width, height, 8, bytes) && bytes.len() >= width * height ==> shows_gray(
            described_picture(document, stream, bytes),
            width,
            height,
            bytes,
            1,
        ),
        describes(stream, width, height, 16, bytes) && bytes.len() == 2 * (width * height) && has_space(
            document,
            stream,
            Some(ColorSpec::Gray),
        ) ==> shows_gray(described_picture(document, stream, bytes), width, height, bytes, 2),
{
    law_sampled_gray(width, height, bytes);
    let color = if has_space(document, stream, None) { None } else { Some(ColorSpec::Gray) };
    if describes(stream, width, height, 8, bytes) {
        lemma_described(document, stream, width, height, 8, bytes, color);
    }
    if describes(stream, width, height, 16, bytes) && has_space(document, stream, Some(ColorSpec::Gray)) {
        lemma_described(document, stream, width, height, 16, bytes, Some(ColorSpec::Gray));
    }
    if describes(stream, width, height, 8, bytes) {
        assert(0 < width * height) by (nonlinear_arith)
            requires
                width > 0,
                height > 0,
        ;
        if has_space(document, stream, None) {
            assert(width * height <= usize::MAX) by {
                lemma_fits(width, height);
            }
        }
        if bytes.len() >= width * height {
            assert forall|x: int, y: int| 0 <= x < width && 0 <= y < height implies #[trigger] bytes.take(
                width * height,
            )[y * width + x] == bytes[y * width + x] by {
                lemma_index(width as int, height as int, x, y);
            }
            let image = Gray { width, height, pixels: bytes.take(width * height) };
            assert forall|x: int, y: int| 0 <= x < width && 0 <= y < height implies #[trigger] image.at(x, y)
                == bytes[1 * (y * width + x)] by {
                lemma_index(width as int, height as int, x, y);
            }
        }
    }
}

/// Whether a picture is the gray image of the samples that are `step` bytes apart.
pub open spec fn shows_gray(picture: Option<Picture>, width: u32, height: u32, bytes: Seq<u8>, step: int) -> bool {
    picture matches Some(Picture::Luma(image)) && image.width == width && image.height == height && forall|
        x: int,
        y: int,
    |
        0 <= x < width && 0 <= y < height ==> #[trigger] image.at(x, y) == bytes[step * (y * width + x)]
}

/// A color image of three samples for each pixel, of one or two bytes, is shown: the picture has
/// the size that the stream describes, and its levels are the samples, or their first bytes.
#[verifier::spinoff_prover]
#[verifier::rlimit(50)]
pub proof fn law_color_samples(document: PdfDocument, stream: PdfStream, width: u32, height: u32, bytes: Seq<u8>)
    requires
        has_space(document, stream, Some(ColorSpec::Rgb)),
    ensures
        describes(stream, width, height, 8, bytes) && bytes.len() >= 3 * (width * height) ==> (described_picture(
            document,
            stream,
            bytes,
        ) matches Some(Picture::Color(image)) && image.width == width && image.height == height && image.pixels
            == bytes.take(3 * (width * height))),
        describes(stream, width, height, 16, bytes) && bytes.len() == 6 * (width * height) ==> (described_picture(
            document,
            stream,
            bytes,
        ) matches Some(Picture::Color(image)) && image.width == width && image.height == height && forall|k: int|
            #![trigger image.pixels[3 * k]]
            0 <= k < width * height ==> image.pixels[3 * k] == bytes[6 * k] && image.pixels[3 * k + 1] == bytes[6 * k
                + 2] && image.pixels[3 * k + 2] == bytes[6 * k + 4]),
{
    law_sampled_rgb(width, height, bytes, 2);
    if describes(stream, width, height, 8, bytes) {
        lemma_described(document, stream, width, height, 8, bytes, Some(ColorSpec::Rgb));
    }
    if describes(stream, width, height, 16, bytes) {
        lemma_described(document, stream, width, height, 16, bytes, Some(ColorSpec::Rgb));
    }
    assert((width * height) * (3 * 2) == 6 * (width * height)) by (nonlinear_arith);
}

/// An image of four inks, of one or two bytes for each, is shown in color, and an image of indices
/// in gray: the picture has the size that the stream describes.
#[verifier::spinoff_prover]
#[verifier::rlimit(50)]
pub proof fn law_other_samples(
    document: PdfDocument,
    stream: PdfStream,
    width: u32,
    height: u32,
    bits: i64,
    bytes: Seq<u8>,
    hival: u16,
)
    requires
        describes(stream, width, height, bits, bytes),
    ensures
        has_space(document, stream, Some(ColorSpec::Cmyk)) && bits == 8 && bytes.len() == 4 * (width * height) ==> (
        described_picture(document, stream, bytes) matches Some(Picture::Color(image)) && image.width == width
            && image.height == height && Some(image) == sampled_rgb(width, height, bytes, 1, true)),
        has_space(document, stream, Some(ColorSpec::Cmyk)) && bits == 16 && bytes.len() == 8 * (width * height) ==> (
        described_picture(document, stream, bytes) matches Some(Picture::Color(image)) && image.width == width
            && image.height == height && Some(image) == sampled_rgb(width, height, bytes, 2, true)),
        has_space(document, stream, Some(ColorSpec::Indexed { hival })) && (bits == 1 || bits == 2 || bits == 4 || bits
            == 8) && bytes.len() * (8int / bits as int) >= width * height ==> (described_picture(document, stream, bytes) matches Some(
            Picture::Luma(image),
        ) && image.width == width && image.height == height && Some(image) == indexed_image(
            width,
            height,
            bytes,
            bits as u8,
            hival,
        )),
{
    if has_space(document, stream, Some(ColorSpec::Cmyk)) {
        lemma_described(document, stream, width, height, bits, bytes, Some(ColorSpec::Cmyk));
    }
    if has_space(document, stream, Some(ColorSpec::Indexed { hival })) {
        lemma_described(document, stream, width, height, bits, bytes, Some(ColorSpec::Indexed { hival }));
    }
    law_sampled_cmyk(width, height, bytes, 1);
    law_sampled_cmyk(width, height, bytes, 2);
    assert((width * height) * (4 * 1) == 4 * (width * height)) by (nonlinear_arith);
    assert((width * height) * (4 * 2) == 8 * (width * height)) by (nonlinear_arith);
    if bits == 1 || bits == 2 || bits == 4 || bits == 8 {
        law_indexed_image(width, height, bytes, bits as u8, hival);
    }
}

/// The picture of a stream is the image file that its bytes are, or else the one that they unpack
/// to, or else that of the samples that they unpack to; and a stream that cannot be unpacked has
/// none.
pub proof fn law_stream_picture(document: PdfDocument, stream: PdfStream, bytes: Seq<u8>)
    ensures
        encoded_size(Encoded { bytes: stream.content@, format: None }) is Some ==> stream_picture(document, stream)
            == Some(Picture::File(Encoded { bytes: stream.content@, format: None })),
        encoded_size(Encoded { bytes: stream.content@, format: None }) is None && decompressed(stream) == Some(bytes)
            ==> stream_picture(document, stream) == described_picture(document, stream, bytes),
        encoded_size(Encoded { bytes: stream.content@, format: None }) is None && decompressed(stream) is None
            ==> stream_picture(document, stream) is None,
        lookup(stream.dict, "DecodeParms"@) is None && encoded_size(Encoded { bytes, format: None }) is Some && (lookup(
            stream.dict,
            "Width"@,
        ) matches Some(PdfObject::Integer(w)) && w > 0) && (lookup(stream.dict, "Height"@) matches Some(
            PdfObject::Integer(h),
        ) && h > 0) ==> described_picture(document, stream, bytes) == Some(
            Picture::File(Encoded { bytes, format: None }),
        ),
        lookup(stream.dict, "Width"@) is None || lookup(stream.dict, "Height"@) is None ==> described_picture(
            document,
            stream,
            bytes,
        ) is None,
{
}

/// The filters of the rows of an image are those of its parameters: a dictionary, or the first
/// dictionary of a list. Predictors from 10 to 15 are undone where that succeeds, and bytes of any
/// other are as they are.
pub proof fn law_row_filters(
    document: PdfDocument,
    stream: PdfStream,
    dict: PdfDictionary,
    bytes: Seq<u8>,
    width: u32,
    height: u32,
    bits: u8,
)
    ensures
        lookup(stream.dict, "DecodeParms"@) is None ==> without_predictor(document, stream, bytes, width, height, bits)
            == bytes,
        (lookup(stream.dict, "DecodeParms"@) matches Some(object) && resolved(document, object) == Some(
            PdfObject::Dictionary(dict),
        )) && (lookup(dict, "Predictor"@) matches Some(PdfObject::Integer(n)) && (n < 10 || 15 < n <= 0xffff_ffff))
            ==> without_predictor(document, stream, bytes, width, height, bits) == bytes,
        (lookup(stream.dict, "DecodeParms"@) matches Some(object) && resolved(document, object) == Some(
            PdfObject::Dictionary(dict),
        )) && (lookup(dict, "Predictor"@) matches Some(PdfObject::Integer(n)) && 10 <= n <= 15) && lookup(
            dict,
            "Colors"@,
        ) is None && lookup(dict, "Columns"@) is None && lookup(dict, "BitsPerComponent"@) is None && 1 <= bits <= 16
            && width >= 1 ==> ({
            let params = PredictorParams {
                predictor: (lookup(dict, "Predictor"@)->0->Integer_0) as u32,
                colors: 1,
                columns: width,
                bpc: bits,
            };
            let rows = unfiltered(bytes, height, params);
            without_predictor(document, stream, bytes, width, height, bits) == if rows is Some {
                rows->0
            } else {
                bytes
            }
        }),
{
}

/// The parameters of the filters of rows are the integers of their dictionary, at least one each,
/// and up to 16 bits.
pub proof fn law_row_params(document: PdfDocument, stream: PdfStream, dict: PdfDictionary, width: u32, bits: u8, n: i64)
    requires
        lookup(stream.dict, "DecodeParms"@) is Some,
        resolved(document, lookup(stream.dict, "DecodeParms"@)->0) == Some(PdfObject::Dictionary(dict)),
        1 <= n <= 0xffff_ffff,
    ensures
        predictor_params(document, stream, width, bits) is Some,
        lookup(dict, "Colors"@) == Some(PdfObject::Integer(n)) ==> predictor_params(document, stream, width, bits)->0.colors
            == n,
        lookup(dict, "Columns"@) == Some(PdfObject::Integer(n)) ==> predictor_params(
            document,
            stream,
            width,
            bits,
        )->0.columns == n,
        lookup(dict, "Predictor"@) == Some(PdfObject::Integer(n)) ==> predictor_params(
            document,
            stream,
            width,
            bits,
        )->0.predictor == n,
        lookup(dict, "BitsPerComponent"@) == Some(PdfObject::Integer(n)) ==> predictor_params(
            document,
            stream,
            width,
            bits,
        )->0.bpc == if n > 16 {
            16
        } else {
            n
        },
        lookup(dict, "Colors"@) is None ==> predictor_params(document, stream, width, bits)->0.colors == 1,
        lookup(dict, "Columns"@) is None && width >= 1 ==> predictor_params(document, stream, width, bits)->0.columns
            == width,
{
}

/// The parameters of an image are a dictionary, or the first dictionary of a list, itself or by
/// reference; items before it that are none do not matter.
pub proof fn law_first_dictionary(document: PdfDocument, items: Seq<PdfObject>, i: int, dict: PdfDictionary)
    requires
        0 <= i < items.len(),
        resolved(document, items[i]) == Some(PdfObject::Dictionary(dict)),
        forall|j: int| 0 <= j < i ==> !(resolved(document, #[trigger] items[j]) matches Some(PdfObject::Dictionary(_))),
    ensures
        first_dictionary(document, items) == Some(dict),
    decreases i,
{
    if i > 0 {
        let rest = items.drop_first();
        assert(rest[i - 1] == items[i]);
        assert forall|j: int| 0 <= j < i - 1 implies !(resolved(document, #[trigger] rest[j]) matches Some(
            PdfObject::Dictionary(_),
        )) by {
            assert(rest[j] == items[j + 1]);
        }
        assert(!(resolved(document, items[0]) matches Some(PdfObject::Dictionary(_))));
        law_first_dictionary(document, rest, i - 1, dict);
    }
}

/// Where the parameters of an image come from.
pub proof fn law_parms_dictionary(document: PdfDocument, stream: PdfStream, object: PdfObject, dict: PdfDictionary)
    requires
        lookup(stream.dict, "DecodeParms"@) == Some(object),
    ensures
        resolved(document, object) == Some(PdfObject::Dictionary(dict)) ==> parms_dictionary(document, stream) == Some(
            dict,
        ),
        resolved(document, object) matches Some(PdfObject::Array(items)) ==> parms_dictionary(document, stream)
            == first_dictionary(document, items@),
        resolved(document, object) is None ==> parms_dictionary(document, stream) is None,
{
}

/// An image has no picture where its samples have a number of bits that there is not, where single
/// bits are in a color space that is not gray, or where its data is too short.
pub proof fn law_no_picture(
    document: PdfDocument,
    stream: PdfStream,
    width: u32,
    height: u32,
    bits: i64,
    bytes: Seq<u8>,
    color: Option<ColorSpec>,
)
    requires
        describes(stream, width, height, bits, bytes),
        has_space(document, stream, color),
    ensures
        bits != 1 && bits != 2 && bits != 4 && bits != 8 && bits != 16 ==> described_picture(document, stream, bytes)
            is None,
        (bits == 2 || bits == 4) && !(color matches Some(ColorSpec::Indexed { .. })) ==> described_picture(
            document,
            stream,
            bytes,
        ) is None,
        bits == 1 && (color == Some(ColorSpec::Rgb) || color == Some(ColorSpec::Cmyk)) ==> described_picture(
            document,
            stream,
            bytes,
        ) is None,
        bits == 1 && (color is None || color == Some(ColorSpec::Gray)) && bytes.len() < ((width + 7) / 8) * height
            ==> described_picture(document, stream, bytes) is None,
        bits == 8 && color == Some(ColorSpec::Gray) && bytes.len() < width * height ==> described_picture(
            document,
            stream,
            bytes,
        ) is None,
        bits == 8 && color == Some(ColorSpec::Rgb) && bytes.len() < 3 * (width * height) ==> described_picture(
            document,
            stream,
            bytes,
        ) is None,
{
    lemma_described(document, stream, width, height, bits, bytes, color);
    law_bit_image(width, height, bytes, is_inverted(stream.dict));
}

/// An image without a color space has as many samples for each pixel as its data has bytes: one is
/// gray, three are red, green and blue, four are inks.
pub proof fn law_by_length(document: PdfDocument, stream: PdfStream, width: u32, height: u32, bytes: Seq<u8>)
    requires
        describes(stream, width, height, 8, bytes),
        has_space(document, stream, None),
        4 * (width * height) <= usize::MAX,
    ensures
        bytes.len() == width * height ==> (described_picture(document, stream, bytes) matches Some(Picture::Luma(image))
            && image.width == width && image.height == height && image.pixels == bytes),
        bytes.len() == 3 * (width * height) ==> (described_picture(document, stream, bytes) matches Some(
            Picture::Color(image),
        ) && image.width == width && image.height == height && image.pixels == bytes),
        bytes.len() == 4 * (width * height) ==> (described_picture(document, stream, bytes) matches Some(
            Picture::Color(image),
        ) && Some(image) == sampled_rgb(width, height, bytes, 1, true)),
{
    lemma_described(document, stream, width, height, 8, bytes, None);
    law_sampled_cmyk(width, height, bytes, 1);
    assert(0 < width * height) by (nonlinear_arith)
        requires
            width > 0,
            height > 0,
    ;
    assert((width * height) * (4 * 1) == 4 * (width * height)) by (nonlinear_arith);
    assert(bytes.take(bytes.len() as int) =~= bytes);
}

} // verus!
