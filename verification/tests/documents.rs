use qr_scan::extraction::{collect_images_from_object, extract_images_from_resources};
use qr_scan::errors::ScanError;
use qr_scan::image_stream::{
    apply_predictor_if_needed, decode_pdf_image_stream, decode_unpacked_stream, parse_color_spec,
    parse_predictor_params, should_invert_monochrome, ColorSpec,
};
use qr_scan::pages::{
    collect_pdf_images, extract_annotation_images, extract_document_images, extract_page_images, page_resources,
};
use qr_scan::pdf::{
    bytes_equal, is_named, resolve_dictionary, resolve_object, PdfDictionary, PdfDocument, PdfError, PdfObject,
    PdfPage, PdfStream,
};
use qr_scan::pdf_text::{
    collect_page_payloads, collect_strings_from_object, extract_payloads_from_page_text,
    extract_payloads_from_raw_page_streams, page_content,
};
use qr_scan::picture::DynamicImage;
use qr_scan::streams::{
    decompressed_content, extract_filter_names, is_safe_filter_chain, should_decode_stream_image,
};

fn name(text: &str) -> PdfObject {
    PdfObject::Name(text.as_bytes().to_vec())
}

fn whole(value: i64) -> PdfObject {
    PdfObject::Integer(value)
}

fn link(number: u32) -> PdfObject {
    PdfObject::Reference((number, 0))
}

fn dict(entries: Vec<(&str, PdfObject)>) -> PdfDictionary {
    PdfDictionary { entries: entries.into_iter().map(|(k, v)| (k.as_bytes().to_vec(), v)).collect() }
}

fn stream(entries: Vec<(&str, PdfObject)>, content: &[u8]) -> PdfStream {
    PdfStream { dict: dict(entries), content: content.to_vec() }
}

fn document(objects: Vec<(u32, PdfObject)>, pages: Vec<PdfPage>) -> PdfDocument {
    PdfDocument { objects: objects.into_iter().map(|(n, object)| ((n, 0), object)).collect(), pages }
}

fn empty() -> PdfDocument {
    document(vec![], vec![])
}

fn page(number: u32, id: u32, contents: Vec<u32>) -> PdfPage {
    PdfPage { number, id: (id, 0), contents: contents.into_iter().map(|n| (n, 0)).collect() }
}

/// The object of a page with resources.
fn sheet(resources: PdfDictionary) -> PdfObject {
    PdfObject::Dictionary(dict(vec![("Resources", PdfObject::Dictionary(resources))]))
}

fn png(width: u32, height: u32) -> Vec<u8> {
    let image = image::GrayImage::new(width, height);
    let mut bytes = Vec::new();
    image.write_to(&mut std::io::Cursor::new(&mut bytes), image::ImageFormat::Png).unwrap();
    bytes
}

fn picture(width: u32, height: u32) -> PdfObject {
    let entries =
        vec![("Subtype", name("Image")), ("Width", whole(width.into())), ("Height", whole(height.into()))];
    PdfObject::Stream(stream(entries, &png(width, height)))
}

fn form(resources: PdfObject) -> PdfObject {
    PdfObject::Stream(stream(vec![("Subtype", name("Form")), ("Resources", resources)], b""))
}

fn drawn(entries: Vec<(&str, PdfObject)>) -> PdfDictionary {
    dict(vec![("XObject", PdfObject::Dictionary(dict(entries)))])
}

fn sizes(images: &[DynamicImage]) -> Vec<(u32, u32)> {
    images.iter().map(|image| image.size()).collect()
}

#[test]
fn keys_and_names() {
    let found = dict(vec![("A", whole(1)), ("B", name("x")), ("A", whole(2))]);
    assert_eq!(found.integer("A"), Some(1));
    assert_eq!(found.integer("B"), None);
    assert_eq!(found.integer("C"), None);
    assert!(is_named(&found, "B", "x"));
    assert!(!is_named(&found, "B", "y"));
    assert!(!is_named(&found, "A", "x"));
    assert!(bytes_equal(b"ab", b"ab") && !bytes_equal(b"ab", b"ac") && !bytes_equal(b"a", b"ab"));
}

#[test]
fn references_are_followed() {
    let doc = document(vec![(1, link(2)), (2, link(3)), (3, whole(7)), (4, link(9)), (5, link(5))], vec![]);
    assert!(matches!(doc.get_object((1, 0)), Ok(PdfObject::Integer(7))));
    assert!(matches!(resolve_object(&doc, &link(2)), Ok(PdfObject::Integer(7))));
    assert!(matches!(resolve_object(&doc, &whole(4)), Ok(PdfObject::Integer(4))));
    assert!(doc.get_object((4, 0)).err() == Some(PdfError::Unresolved));
    assert!(doc.get_object((5, 0)).err() == Some(PdfError::Unresolved));
    assert!(doc.get_object((1, 1)).err() == Some(PdfError::Unresolved));
    assert!(resolve_dictionary(&doc, &link(3)).err() == Some(PdfError::NotADictionary));
    assert!(resolve_dictionary(&doc, &link(8)).err() == Some(PdfError::Unresolved));
}

#[test]
fn references_are_followed_so_far() {
    let chain = |n: u32| -> PdfDocument {
        let mut objects: Vec<(u32, PdfObject)> = (1..=n).map(|i| (i, link(i + 1))).collect();
        objects.push((n + 1, whole(1)));
        document(objects, vec![])
    };
    assert!(chain(128).get_object((1, 0)).is_ok());
    assert!(chain(129).get_object((1, 0)).is_err());
}

#[test]
fn chains_are_followed_as_far_as_lopdf_follows_them() {
    for n in [126u32, 127, 128, 129, 130] {
        let mut outside = lopdf::Document::new();
        let mut objects = Vec::new();
        for i in 1..=n {
            outside.objects.insert((i, 0), lopdf::Object::Reference((i + 1, 0)));
            objects.push((i, link(i + 1)));
        }
        outside.objects.insert((n + 1, 0), lopdf::Object::Integer(1));
        objects.push((n + 1, whole(1)));
        let ours = document(objects, vec![]);
        assert_eq!(ours.get_object((1, 0)).is_ok(), outside.get_object((1, 0)).is_ok(), "{n}");
    }
}

fn spec(doc: &PdfDocument, object: PdfObject) -> String {
    match parse_color_spec(doc, &object) {
        Some(ColorSpec::Gray) => "gray".to_string(),
        Some(ColorSpec::Rgb) => "rgb".to_string(),
        Some(ColorSpec::Cmyk) => "cmyk".to_string(),
        Some(ColorSpec::Indexed { hival }) => format!("indexed {hival}"),
        None => "none".to_string(),
    }
}

#[test]
fn color_spaces() {
    let profile = |n: i64| PdfObject::Stream(stream(vec![("N", whole(n))], b""));
    let mut objects: Vec<(u32, PdfObject)> = [1, 3, 4, 5].map(|n| (n as u32, profile(n))).into();
    objects.push((6, name("DeviceGray")));
    let doc = document(objects, vec![]);
    for (space, wanted) in [
        ("DeviceGray", "gray"),
        ("CalGray", "gray"),
        ("DeviceRGB", "rgb"),
        ("CalRGB", "rgb"),
        ("Lab", "rgb"),
        ("DeviceCMYK", "cmyk"),
        ("Pattern", "none"),
    ] {
        assert_eq!(spec(&doc, name(space)), wanted);
    }
    assert_eq!(spec(&doc, link(6)), "gray");
    assert_eq!(spec(&doc, link(7)), "none");
    assert_eq!(spec(&doc, PdfObject::Null), "none");
    let family = |items: Vec<PdfObject>| spec(&doc, PdfObject::Array(items));
    assert_eq!(family(vec![]), "none");
    assert_eq!(family(vec![name("ICCBased")]), "none");
    assert_eq!(family(vec![name("ICCBased"), link(1)]), "gray");
    assert_eq!(family(vec![name("ICCBased"), link(3)]), "rgb");
    assert_eq!(family(vec![name("ICCBased"), link(4)]), "cmyk");
    assert_eq!(family(vec![name("ICCBased"), link(5)]), "none");
    assert_eq!(family(vec![name("ICCBased"), link(6)]), "none");
    assert_eq!(family(vec![name("Indexed"), name("DeviceRGB"), whole(255)]), "indexed 255");
    assert_eq!(family(vec![name("Indexed"), name("DeviceRGB"), whole(65_537)]), "indexed 1");
    assert_eq!(family(vec![name("Indexed"), name("DeviceRGB"), whole(-1)]), "none");
    assert_eq!(family(vec![name("Indexed"), name("DeviceRGB")]), "none");
    assert_eq!(family(vec![name("Separation")]), "gray");
    assert_eq!(family(vec![name("DeviceN"), PdfObject::Array(vec![whole(1), whole(2), whole(3)])]), "rgb");
    assert_eq!(family(vec![name("DeviceN"), PdfObject::Array(vec![whole(1), whole(2)])]), "none");
    assert_eq!(family(vec![name("DeviceN"), link(1)]), "none");
    assert_eq!(family(vec![name("Pattern")]), "none");
    assert_eq!(family(vec![whole(1)]), "none");
}

#[test]
fn inverted_images() {
    let real = |x: f32| PdfObject::Real(x.to_bits());
    let decode = |items: Vec<PdfObject>| {
        should_invert_monochrome(&stream(vec![("Decode", PdfObject::Array(items))], b""))
    };
    assert!(decode(vec![real(1.0), real(0.0)]));
    assert!(decode(vec![real(1.0), real(-0.0), whole(5)]));
    assert!(!decode(vec![whole(1), whole(0)]));
    assert!(!decode(vec![real(0.0), real(1.0)]));
    assert!(!decode(vec![real(1.0)]));
    assert!(!decode(vec![real(1.0), name("0")]));
    assert!(!decode(vec![real(f32::NAN), real(0.0)]));
    assert!(!should_invert_monochrome(&stream(vec![], b"")));
}

#[test]
fn predictors_are_described() {
    let doc = document(vec![(1, PdfObject::Dictionary(dict(vec![("Predictor", whole(12))])))], vec![]);
    let described = |object: PdfObject| parse_predictor_params(&doc, &stream(vec![("DecodeParms", object)], b""), 40, 8);
    assert!(parse_predictor_params(&doc, &stream(vec![], b""), 40, 8).is_none());
    assert!(described(PdfObject::Null).is_none());
    let p = described(link(1)).unwrap();
    assert_eq!((p.predictor, p.colors, p.columns, p.bpc), (12, 1, 40, 8));
    let parms = dict(vec![
        ("Predictor", whole(-3)),
        ("Colors", whole(3)),
        ("Columns", whole(0)),
        ("BitsPerComponent", whole(99)),
    ]);
    let p = described(PdfObject::Array(vec![PdfObject::Null, PdfObject::Dictionary(parms), link(1)])).unwrap();
    assert_eq!((p.predictor, p.colors, p.columns, p.bpc), (1, 3, 1, 16));
    assert!(described(PdfObject::Array(vec![whole(1)])).is_none());
}

#[test]
fn predictors_are_applied() {
    let parms = |predictor: i64| {
        stream(vec![("DecodeParms", PdfObject::Dictionary(dict(vec![("Predictor", whole(predictor))])))], b"")
    };
    let rows = vec![1, 5, 1, 2, 1, 1];
    let apply = |predictor: i64| apply_predictor_if_needed(&empty(), &parms(predictor), rows.clone(), 2, 2, 8);
    assert_eq!(apply(15), vec![5, 6, 6, 7]);
    assert_eq!(apply(1), rows);
    assert_eq!(apply(2), rows);
    assert_eq!(apply(16), rows);
    let short = apply_predictor_if_needed(&empty(), &parms(12), vec![1, 2, 3], 2, 2, 8);
    assert_eq!(short, vec![1, 2, 3]);
}

fn filtered(filters: PdfObject) -> PdfStream {
    stream(vec![("Filter", filters)], b"")
}

#[test]
fn filters_are_known() {
    let chain = PdfObject::Array(vec![name("FlateDecode"), whole(3), name("DCTDecode")]);
    assert_eq!(extract_filter_names(&filtered(chain)), vec!["FlateDecode", "DCTDecode"]);
    assert_eq!(extract_filter_names(&filtered(name("X"))), vec!["X"]);
    assert!(extract_filter_names(&filtered(whole(1))).is_empty());
    assert!(extract_filter_names(&stream(vec![], b"")).is_empty());
    for known in [
        "DCTDecode", "JPXDecode", "FlateDecode", "LZWDecode", "RunLengthDecode", "CCITTFaxDecode", "JBIG2Decode",
        "ASCII85Decode", "ASCIIHexDecode",
    ] {
        assert!(is_safe_filter_chain(&filtered(name(known))));
    }
    assert!(is_safe_filter_chain(&stream(vec![], b"")));
    assert!(!is_safe_filter_chain(&filtered(name("Crypt"))));
    assert!(!is_safe_filter_chain(&filtered(PdfObject::Array(vec![name("FlateDecode"), name("Crypt")]))));
}

#[test]
fn large_images_are_not_decoded() {
    let sized = |w: i64, h: i64, bpc: i64, filter: &str, len: usize| {
        let entries = vec![
            ("Width", whole(w)),
            ("Height", whole(h)),
            ("BitsPerComponent", whole(bpc)),
            ("Filter", name(filter)),
        ];
        should_decode_stream_image(&stream(entries, &vec![0; len]))
    };
    assert!(sized(9000, 1, 8, "DCTDecode", 0));
    assert!(!sized(9001, 1, 8, "DCTDecode", 0));
    assert!(!sized(1, 9001, 8, "DCTDecode", 0));
    assert!(sized(4000, 4000, 8, "DCTDecode", 0));
    assert!(!sized(4000, 4001, 8, "DCTDecode", 0));
    assert!(sized(8000, 5000, 1, "DCTDecode", 0));
    assert!(!sized(8000, 5001, 1, "DCTDecode", 0));
    assert!(sized(2800, 2800, 16, "DCTDecode", 0));
    assert!(!sized(2900, 2900, 99, "DCTDecode", 0));
    assert!(!sized(0, 10, 8, "DCTDecode", 0) && !sized(10, -1, 8, "DCTDecode", 0));
    assert!(sized(3000, 2000, 8, "FlateDecode", 600_000));
    assert!(!sized(3000, 2000, 8, "FlateDecode", 600_001));
    assert!(!sized(3000, 2001, 8, "FlateDecode", 0));
    assert!(sized(3000, 2001, 8, "DCTDecode", 700_000));
    assert!(!sized(10, 10, 8, "Crypt", 0));
    assert!(!should_decode_stream_image(&stream(vec![], b"")));
}

fn squeezed(bytes: &[u8]) -> Vec<u8> {
    let mut packed = lopdf::Stream::new(lopdf::Dictionary::new(), bytes.to_vec());
    packed.compress().unwrap();
    packed.content
}

#[test]
fn streams_are_unpacked() {
    let text = b"a text that is long enough to be worth packing: aaaaaaaaaaaaaaaaaaaaaaaaaaaaaaaaaaaaaaaaaa";
    let packed = squeezed(text);
    assert_ne!(packed, text);
    let entries = || vec![("Filter", name("FlateDecode"))];
    assert_eq!(decompressed_content(&stream(entries(), &packed)), Some(text.to_vec()));
    assert_eq!(decompressed_content(&stream(vec![("Filter", name("Crypt"))], &packed)).is_some(), false);
    let image = vec![("Filter", name("FlateDecode")), ("Subtype", name("Image"))];
    assert_eq!(decompressed_content(&stream(image, &packed)), Some(text.to_vec()));
    assert_eq!(decompressed_content(&stream(vec![], b"as it is")), Some(b"as it is".to_vec()));
    assert_eq!(decompressed_content(&stream(vec![("Filter", whole(3))], b"as it is")), Some(b"as it is".to_vec()));
    assert_eq!(decompressed_content(&stream(vec![("Filter", PdfObject::Array(vec![]))], b"x")), Some(vec![]));
    let rows = dict(vec![("Predictor", whole(12)), ("Columns", whole(i64::MAX))]);
    let wide = vec![("Filter", name("FlateDecode")), ("DecodeParms", PdfObject::Dictionary(rows))];
    assert_eq!(decompressed_content(&stream(wide, &packed)), None);
    let wide = |predictor: i64, columns: i64, content: &[u8]| {
        let rows = dict(vec![("Predictor", whole(predictor)), ("Columns", whole(columns))]);
        let entries = vec![("Filter", name("FlateDecode")), ("DecodeParms", PdfObject::Dictionary(rows))];
        decompressed_content(&stream(entries, content))
    };
    assert_eq!(wide(1, 1 << 40, &packed), Some(text.to_vec()));
    assert_eq!(wide(1, i64::MAX, &packed), None);
    assert_eq!(wide(12, 1 << 40, &packed), None);
    assert_eq!(wide(12, 1 << 40, b""), Some(vec![]));
    let sums: Vec<u8> = text.iter().scan(0u8, |sum, byte| Some({ *sum = sum.wrapping_add(*byte); *sum })).collect();
    assert_eq!(wide(2, 1 << 40, &packed), Some(sums));
}

#[test]
fn each_filter_has_parameters_of_its_own() {
    let text: Vec<u8> = [[0u8, 1, 2, 3], [2, 1, 1, 1], [1, 5, 1, 1]].concat();
    let hex: Vec<u8> = squeezed(&text.repeat(20)).iter().flat_map(|byte| format!("{byte:02x}").into_bytes()).collect();
    let rows = || PdfObject::Dictionary(dict(vec![("Predictor", whole(15)), ("Columns", whole(3))]));
    let unpacked = |parms: PdfObject| {
        let filters = PdfObject::Array(vec![name("ASCIIHexDecode"), name("FlateDecode")]);
        decompressed_content(&stream(vec![("Filter", filters), ("DecodeParms", parms)], &hex)).unwrap()
    };
    assert_eq!(unpacked(PdfObject::Null), text.repeat(20));
    assert_eq!(unpacked(PdfObject::Array(vec![rows()])), text.repeat(20));
    let wanted = [1u8, 2, 3, 2, 3, 4, 5, 6, 7];
    assert_eq!(unpacked(PdfObject::Array(vec![PdfObject::Null, rows()]))[..9], wanted);
    assert_eq!(unpacked(rows())[..9], wanted);
}

#[test]
fn streams_are_unpacked_as_lopdf_unpacks_them() {
    let text: Vec<u8> = (0..200u32).map(|i| (i * i % 5) as u8).collect();
    let packed = squeezed(&text);
    for predictor in [1i64, 2, 10, 12, 15] {
        for columns in [1i64, 3, 9] {
            let mut parms = lopdf::Dictionary::new();
            parms.set("Predictor", predictor);
            parms.set("Columns", columns);
            let mut outside = lopdf::Dictionary::new();
            outside.set("Filter", lopdf::Object::Name(b"FlateDecode".to_vec()));
            outside.set("DecodeParms", lopdf::Object::Dictionary(parms));
            let wanted = lopdf::Stream::new(outside, packed.clone()).decompressed_content().ok();
            let ours = dict(vec![("Predictor", whole(predictor)), ("Columns", whole(columns))]);
            let entries = vec![("Filter", name("FlateDecode")), ("DecodeParms", PdfObject::Dictionary(ours))];
            assert_eq!(decompressed_content(&stream(entries, &packed)), wanted);
        }
    }
}

fn samples(bpc: i64, space: Option<PdfObject>, w: i64, h: i64) -> PdfStream {
    let mut entries = vec![("Width", whole(w)), ("Height", whole(h)), ("BitsPerComponent", whole(bpc))];
    if let Some(space) = space {
        entries.push(("ColorSpace", space));
    }
    stream(entries, b"")
}

fn gray_of(image: Option<DynamicImage>) -> Vec<u8> {
    match image {
        Some(DynamicImage::ImageLuma8(gray)) => gray.pixels,
        _ => panic!("no gray image"),
    }
}

fn rgb_of(image: Option<DynamicImage>) -> Vec<u8> {
    match image {
        Some(DynamicImage::ImageRgb8(rgb)) => rgb.pixels,
        _ => panic!("no color image"),
    }
}

fn indexed(hival: i64) -> Option<PdfObject> {
    Some(PdfObject::Array(vec![name("Indexed"), name("DeviceRGB"), whole(hival)]))
}

#[test]
fn samples_become_images() {
    let doc = empty();
    let decode = |s: PdfStream, bytes: &[u8]| decode_unpacked_stream(&doc, &s, bytes.to_vec());
    assert_eq!(gray_of(decode(samples(8, Some(name("DeviceGray")), 2, 1), &[3, 4])), vec![3, 4]);
    assert_eq!(gray_of(decode(samples(8, None, 2, 1), &[3, 4])), vec![3, 4]);
    assert_eq!(rgb_of(decode(samples(8, None, 1, 1), &[3, 4, 5])), vec![3, 4, 5]);
    assert_eq!(rgb_of(decode(samples(8, Some(name("DeviceRGB")), 1, 1), &[3, 4, 5, 6])), vec![3, 4, 5]);
    assert_eq!(rgb_of(decode(samples(8, None, 1, 1), &[0, 255, 100, 0])), vec![255, 0, 155]);
    assert_eq!(gray_of(decode(samples(16, Some(name("DeviceGray")), 1, 1), &[9, 4])), vec![9]);
    assert_eq!(rgb_of(decode(samples(16, Some(name("DeviceRGB")), 1, 1), &[1, 0, 2, 0, 3, 0])), vec![1, 2, 3]);
    assert_eq!(rgb_of(decode(samples(16, Some(name("DeviceCMYK")), 1, 1), &[0; 8])), vec![255, 255, 255]);
    assert_eq!(gray_of(decode(samples(1, None, 3, 1), &[0b1010_0000])), vec![255, 0, 255]);
    assert_eq!(gray_of(decode(samples(1, indexed(1), 2, 1), &[0b0100_0000])), vec![0, 255]);
    assert_eq!(gray_of(decode(samples(4, indexed(15), 2, 1), &[0x0f])), vec![0, 255]);
    assert_eq!(gray_of(decode(samples(8, indexed(255), 2, 1), &[1, 200])), vec![1, 200]);
}

#[test]
fn samples_that_do_not_fit_become_no_image() {
    let doc = empty();
    let decode = |s: PdfStream, bytes: &[u8]| decode_unpacked_stream(&doc, &s, bytes.to_vec()).is_some();
    assert!(!decode(samples(8, Some(name("DeviceGray")), 2, 1), &[3]));
    assert!(!decode(samples(8, None, 2, 1), &[3, 4, 5]));
    assert!(!decode(samples(1, Some(name("DeviceRGB")), 2, 1), &[3, 4, 5]));
    assert!(!decode(samples(16, indexed(3), 1, 1), &[3, 4]));
    assert!(!decode(samples(5, Some(name("DeviceGray")), 1, 1), &[3, 4]));
    assert!(!decode(samples(8, None, 0, 1), &[]));
    assert!(!decode(samples(8, None, 1, -2), &[]));
    assert!(!decode(stream(vec![], b""), &[]));
}

#[test]
fn files_in_streams_become_images() {
    let PdfObject::Stream(stored) = picture(6, 5) else { unreachable!() };
    assert_eq!(decode_pdf_image_stream(&empty(), &stored).unwrap().size(), (6, 5));
    assert!(decode_unpacked_stream(&empty(), &samples(8, None, 9, 9), png(6, 5)).unwrap().size() == (6, 5));
    let raw = PdfStream { dict: samples(8, None, 2, 1).dict, content: vec![1, 2] };
    assert_eq!(gray_of(decode_pdf_image_stream(&empty(), &raw)), vec![1, 2]);
    let packed = squeezed(&[7; 200]);
    let mut entries = samples(8, None, 20, 10).dict;
    entries.entries.push((b"Filter".to_vec(), name("FlateDecode")));
    let unpacked = decode_pdf_image_stream(&empty(), &PdfStream { dict: entries, content: packed });
    assert_eq!(gray_of(unpacked), vec![7; 200]);
}

#[test]
fn images_of_a_page_are_found() {
    let resources = drawn(vec![("X", link(1)), ("Y", link(2)), ("Z", link(4)), ("W", whole(1))]);
    let doc = document(
        vec![
            (1, picture(5, 5)),
            (2, form(PdfObject::Dictionary(drawn(vec![("A", link(3)), ("B", link(1)), ("C", link(2))])))),
            (3, picture(7, 7)),
            (4, whole(3)),
            (5, sheet(resources)),
            (6, PdfObject::Dictionary(dict(vec![]))),
            (7, sheet(drawn(vec![("X", link(77))]))),
            (8, sheet(dict(vec![("XObject", whole(1))]))),
            (9, PdfObject::Dictionary(dict(vec![("Resources", link(10))]))),
            (10, PdfObject::Dictionary(drawn(vec![("X", link(1))]))),
        ],
        vec![],
    );
    let images = extract_page_images(&doc, &page(1, 5, vec![])).ok().unwrap();
    assert_eq!(sizes(&images), vec![(5, 5), (7, 7)]);
    assert!(extract_page_images(&doc, &page(1, 6, vec![])).ok().unwrap().is_empty());
    assert!(extract_page_images(&doc, &page(1, 7, vec![])).err() == Some(PdfError::Unresolved));
    assert!(extract_page_images(&doc, &page(1, 8, vec![])).err() == Some(PdfError::NotADictionary));
    assert!(extract_page_images(&doc, &page(1, 9, vec![])).ok().unwrap().is_empty());
    assert!(extract_page_images(&doc, &page(1, 99, vec![])).ok().unwrap().is_empty());
}

#[test]
fn resources_of_a_page_are_those_of_lopdf() {
    for inline in [true, false] {
        let mut outside = lopdf::Document::new();
        let mut resources = lopdf::Dictionary::new();
        resources.set("XObject", 7);
        let shared = outside.add_object(lopdf::Object::Dictionary(resources.clone()));
        let mut leaf = lopdf::Dictionary::new();
        leaf.set("Resources", if inline { lopdf::Object::Dictionary(resources) } else { lopdf::Object::Reference(shared) });
        let id = outside.add_object(lopdf::Object::Dictionary(leaf));
        let ours = if inline { PdfObject::Dictionary(dict(vec![("XObject", whole(7))])) } else { link(1) };
        let shown = PdfObject::Dictionary(dict(vec![("Resources", ours)]));
        let doc = document(vec![(1, PdfObject::Dictionary(dict(vec![("XObject", whole(7))]))), (2, shown)], vec![]);
        let found = page_resources(&doc, &page(1, 2, vec![]));
        assert_eq!(found.is_some(), outside.get_page_resources(id).unwrap().0.is_some());
        assert_eq!(found.is_some(), inline);
    }
}

#[test]
fn visited_objects_are_not_visited_again() {
    let doc = document(vec![(1, picture(5, 5)), (2, PdfObject::Array(vec![link(1), link(2)]))], vec![]);
    let mut visited = Vec::new();
    let mut out = Vec::new();
    assert!(collect_images_from_object(&doc, &link(2), &mut visited, &mut out).is_ok());
    assert_eq!(sizes(&out), vec![(5, 5)]);
    assert_eq!(visited, vec![(2, 0), (1, 0)]);
    assert!(extract_images_from_resources(&doc, &drawn(vec![("X", link(1))]), &mut visited, &mut out).is_ok());
    assert_eq!(out.len(), 1);
}

#[test]
fn a_broken_search_keeps_what_it_found() {
    let items = vec![link(1), link(7), link(3)];
    let doc = document(vec![(1, picture(5, 5)), (2, PdfObject::Array(items)), (3, picture(6, 6))], vec![]);
    let mut visited = vec![(9, 0)];
    let mut out = Vec::new();
    let result = collect_images_from_object(&doc, &link(2), &mut visited, &mut out);
    assert_eq!(result, Err(PdfError::Unresolved));
    assert_eq!(visited, vec![(9, 0), (2, 0), (1, 0), (7, 0)]);
    assert_eq!(sizes(&out), vec![(5, 5)]);
    let odd = dict(vec![("XObject", whole(4))]);
    let result = extract_images_from_resources(&doc, &odd, &mut visited, &mut out);
    assert_eq!(result, Err(PdfError::NotADictionary));
    assert_eq!(sizes(&out), vec![(5, 5)]);
    while out.len() < 96 {
        out.push(DynamicImage::ImageLuma8(qr_scan::raster::GrayImage::from_raw(1, 1, vec![0]).unwrap()));
    }
    assert!(collect_images_from_object(&doc, &link(3), &mut visited, &mut out).is_ok());
    assert_eq!((visited.len(), out.len()), (4, 96));
}

#[test]
fn images_of_annotations_are_found() {
    let look = dict(vec![("N", link(2)), ("D", PdfObject::Dictionary(drawn(vec![("Q", link(3))])))]);
    let note = dict(vec![("AP", PdfObject::Dictionary(look))]);
    let doc = document(
        vec![
            (1, PdfObject::Dictionary(note)),
            (2, form(PdfObject::Dictionary(drawn(vec![("P", link(4))])))),
            (3, picture(8, 8)),
            (4, picture(9, 9)),
            (5, PdfObject::Dictionary(dict(vec![("Annots", PdfObject::Array(vec![link(1)]))]))),
            (6, PdfObject::Dictionary(dict(vec![("Annots", link(99))]))),
            (7, PdfObject::Dictionary(dict(vec![]))),
            (8, whole(1)),
        ],
        vec![],
    );
    let found = |id: u32| extract_annotation_images(&doc, &page(1, id, vec![]));
    assert_eq!(sizes(&found(5).ok().unwrap()), vec![(9, 9), (8, 8)]);
    assert!(found(6).is_err());
    assert!(found(7).ok().unwrap().is_empty());
    assert!(found(8).ok().unwrap().is_empty());
    assert!(found(98).is_err());
}

#[test]
fn the_images_of_a_document_are_collected() {
    let blank = PdfObject::Dictionary(dict(vec![]));
    let shown = sheet(drawn(vec![("X", link(1)), ("Y", link(2))]));
    let doc = document(
        vec![(1, picture(10, 5)), (2, picture(6, 6)), (3, blank), (4, shown)],
        vec![page(1, 3, vec![]), page(2, 4, vec![])],
    );
    let images = collect_pdf_images(&doc).ok().unwrap();
    let found: Vec<(usize, (u32, u32))> = images.iter().map(|scan| (scan.page, scan.image.size())).collect();
    assert_eq!(found, vec![(2, (6, 6)), (2, (10, 5))]);
}

#[test]
fn documents_without_shown_images_give_all_they_hold() {
    let blank = PdfObject::Dictionary(dict(vec![]));
    let doc = document(
        vec![(1, picture(10, 5)), (2, picture(6, 6)), (3, blank), (4, form(whole(1)))],
        vec![page(1, 3, vec![])],
    );
    assert_eq!(sizes(&extract_document_images(&doc)), vec![(10, 5), (6, 6)]);
    let images = collect_pdf_images(&doc).ok().unwrap();
    let found: Vec<(usize, (u32, u32))> = images.iter().map(|scan| (scan.page, scan.image.size())).collect();
    assert_eq!(found, vec![(1, (6, 6)), (1, (10, 5))]);
}

#[test]
fn broken_pages_are_named() {
    let blank = || PdfObject::Dictionary(dict(vec![]));
    let broken = sheet(drawn(vec![("X", link(77))]));
    let doc = document(vec![(3, blank()), (4, broken)], vec![page(1, 3, vec![]), page(2, 4, vec![])]);
    assert!(collect_pdf_images(&doc).err() == Some(ScanError::PageImages { page: 2 }));
    let doc = document(vec![(3, blank())], vec![page(1, 3, vec![]), page(2, 8, vec![])]);
    assert!(collect_pdf_images(&doc).err() == Some(ScanError::AnnotationImages { page: 2 }));
}

#[test]
fn a_page_gives_fourteen_images_and_a_document_sixty_four() {
    let mut objects: Vec<(u32, PdfObject)> = (1..=120).map(|n| (n, picture(4, 4))).collect();
    let names: Vec<String> = (1..=40).map(|n| format!("I{n}")).collect();
    let shown = drawn(names.iter().zip(1..).map(|(text, n)| (text.as_str(), link(n))).collect());
    objects.push((200, sheet(shown)));
    let one = page(1, 200, vec![]);
    let pages: Vec<PdfPage> = (1..=6).map(|n| page(n, 200, vec![])).collect();
    let doc = document(objects, pages);
    assert_eq!(extract_page_images(&doc, &one).ok().unwrap().len(), 28);
    assert_eq!(extract_document_images(&doc).len(), 96);
    let pages: Vec<usize> = collect_pdf_images(&doc).ok().unwrap().iter().map(|scan| scan.page).collect();
    assert_eq!(pages.len(), 64);
    assert_eq!(pages[13..15], [1, 2]);
    assert_eq!(pages[63], 5);
}

const PAYLOAD: &str = "01,32,,24512000,88.50,20240315,12345678,9AF3";

#[test]
fn texts_of_objects_are_collected() {
    let text = |s: &str| PdfObject::Text(s.as_bytes().to_vec());
    let mut out = Vec::new();
    let nested = PdfObject::Array(vec![whole(3), PdfObject::Array(vec![text(PAYLOAD)]), text(PAYLOAD), text("x")]);
    collect_strings_from_object(&nested, &mut out);
    assert_eq!(out, vec![PAYLOAD.to_string()]);
    collect_strings_from_object(&name(PAYLOAD), &mut out);
    assert_eq!(out.len(), 1);
}

#[test]
fn contents_of_a_page_are_joined() {
    let text = b"BT (packed packed packed packed packed packed packed packed packed packed packed) Tj ET";
    let packed = stream(vec![("Filter", name("FlateDecode"))], &squeezed(text));
    let doc = document(
        vec![(2, PdfObject::Stream(packed)), (3, whole(1))],
        vec![],
    );
    let content = page_content(&doc, &page(1, 9, vec![2, 3, 7]));
    assert_eq!(content, [text.as_slice(), b"\n"].concat());
    let content = page_content(&doc, &page(1, 9, vec![2, 2]));
    assert_eq!(content, [text.as_slice(), b"\n", text.as_slice(), b"\n"].concat());
}

#[test]
fn payloads_are_read_from_operands_and_from_streams() {
    let split = format!("BT ({PAYLOAD}) Tj ET");
    let other = "% 01,32,,1,2,20240101,3,4 plain";
    let doc = document(
        vec![
            (1, PdfObject::Stream(stream(vec![], split.as_bytes()))),
            (2, PdfObject::Stream(stream(vec![], other.as_bytes()))),
        ],
        vec![],
    );
    let both = page(1, 9, vec![1, 2]);
    let found = extract_payloads_from_page_text(&doc, &both);
    assert!(found.contains(&PAYLOAD.to_string()));
    let mut raw = Vec::new();
    extract_payloads_from_raw_page_streams(&doc, &both, &mut raw);
    let operand = PdfObject::Text(b"01,32,1,2,3,4,5,6,7,8,9".to_vec());
    let listed = collect_page_payloads(&doc, &both, &vec![vec![], vec![whole(1), operand]]);
    assert!(listed.len() == raw.len() + 1);
    let broken = format!("BI /W 1 /H 1 ID % {PAYLOAD} ");
    let doc = document(vec![(1, PdfObject::Stream(stream(vec![], broken.as_bytes())))], vec![]);
    assert_eq!(extract_payloads_from_page_text(&doc, &page(1, 9, vec![1])), vec![PAYLOAD.to_string()]);
    assert!(raw.iter().all(|payload| listed.contains(payload)));
}
