use qr_scan::codes::{decode_rqrr_pass, decode_single_pass, known_contents, known_payloads, run_decoders};
use qr_scan::picture::{image_priority, load_image, load_image_as, prioritize_images, DynamicImage, ImageFormat};
use qr_scan::raster::{turn_image, GrayImage, RgbImage, Turn};
use qr_scan::scale::normalize_gray_input;
use qr_scan::search::{
    decode_qr_payloads, decode_qr_payloads_from_dynamic, decode_qr_payloads_from_rendered, decode_qr_payloads_with,
};

/// What the first reader finds.
fn read_bytes(gray: &GrayImage) -> Vec<Option<Vec<u8>>> {
    let mut decoder = quircs::Quirc::default();
    let codes = decoder.identify(gray.width as usize, gray.height as usize, &gray.pixels);
    codes.map(|code| code.ok().and_then(|code| code.decode().ok()).map(|data| data.payload)).collect()
}

/// What the second reader finds.
fn read_texts(gray: &GrayImage) -> Vec<Option<String>> {
    let source = image::GrayImage::from_raw(gray.width, gray.height, gray.pixels.clone()).unwrap();
    let mut prepared = rqrr::PreparedImage::prepare(source);
    let grids = prepared.detect_grids();
    grids.into_iter().map(|grid| grid.decode().ok().map(|found| found.1)).collect()
}

const CODE: [&str; 29] = [
    "#######..#..#..##..##.#######",
    "#.....#...###.###..#..#.....#",
    "#.###.#.###.#.#...#...#.###.#",
    "#.###.#..###...##.....#.###.#",
    "#.###.#...#....##..##.#.###.#",
    "#.....#..#....##.#.#..#.....#",
    "#######.#.#.#.#.#.#.#.#######",
    "........###.######.#.........",
    "###.#####.##.##..##..##...#..",
    ".#..##..#.##..#..##...##.#..#",
    "#######..#....#..##...#..#..#",
    "..####.....#.#...#.###.#.#.#.",
    "##.#..#.#...###..##...##.#.#.",
    "..####.....##....##...##.#.##",
    "#.#...#######...#...#.###...#",
    "##.#.#...#..##...#..##.#.#...",
    "###...##.###.##..####.##....#",
    ".###.#...###..#..##...##..#.#",
    "#.....###.#...#...#.#.###.#.#",
    ".##..#..#.##.###.#.#.#...#.#.",
    "#..######.#.#....########...#",
    "........#.####...##.#...#.#.#",
    "#######.##.##.#.#####.#.#.#.#",
    "#.....#.##..#########...##.#.",
    "#.###.#.#####..####.######.#.",
    "#.###.#..#.#.#...###.#..##.##",
    "#.###.#.#.#..#....#.....#...#",
    "#.....#.#.#..#.####.#.##.#.#.",
    "#######.#.#..##..##.#.####.##",
];

const PAYLOAD: &str = "01,32,,24512000,88.50,20240315,12345678,9AF3";

/// The code, eight pixels to a module, in a white border four modules wide.
fn picture() -> (u32, Vec<u8>) {
    let side = 37 * 8;
    let mut pixels = vec![255u8; (side * side) as usize];
    for (row, modules) in CODE.iter().enumerate() {
        for (column, module) in modules.bytes().enumerate() {
            if module == b'#' {
                for y in 0..8 {
                    for x in 0..8 {
                        pixels[((row + 4) * 8 + y) * side as usize + (column + 4) * 8 + x] = 0;
                    }
                }
            }
        }
    }
    (side, pixels)
}

fn png() -> Vec<u8> {
    let (side, pixels) = picture();
    let image = image::GrayImage::from_raw(side, side, pixels).unwrap();
    let mut bytes = Vec::new();
    image.write_to(&mut std::io::Cursor::new(&mut bytes), image::ImageFormat::Png).unwrap();
    bytes
}

fn code_image() -> GrayImage {
    let (side, pixels) = picture();
    GrayImage::from_raw(side, side, pixels).unwrap()
}

fn blank(width: u32, height: u32) -> GrayImage {
    GrayImage::from_raw(width, height, vec![255; (width * height) as usize]).unwrap()
}

#[test]
fn both_decoders_read_a_code() {
    assert_eq!(decode_single_pass(&code_image(), &read_bytes), vec![PAYLOAD.to_string()]);
    assert_eq!(decode_rqrr_pass(&code_image(), &read_texts), vec![PAYLOAD.to_string()]);
}

#[test]
fn decoders_agree_on_one_payload() {
    assert_eq!(run_decoders(&code_image(), false, &read_bytes, &read_texts), vec![PAYLOAD.to_string()]);
    assert_eq!(run_decoders(&code_image(), true, &read_bytes, &read_texts), vec![PAYLOAD.to_string()]);
    assert!(run_decoders(&blank(64, 64), true, &read_bytes, &read_texts).is_empty());
}

#[test]
fn codes_that_cannot_be_read_are_left_out() {
    let codes = vec![Some(b"one".to_vec()), None, Some(vec![b'a', 0xff]), Some(vec![])];
    assert_eq!(known_payloads(&codes), vec!["one".to_string(), "a\u{fffd}".to_string(), String::new()]);
    let contents = vec![Some("one".to_string()), None, Some(String::new()), Some("two".to_string())];
    assert_eq!(known_contents(&contents), vec!["one".to_string(), "two".to_string()]);
}

#[test]
fn codes_are_found() {
    assert_eq!(decode_qr_payloads_with(&code_image(), false, &read_bytes, &read_texts), vec![PAYLOAD.to_string()]);
    assert_eq!(decode_qr_payloads_with(&code_image(), true, &read_bytes, &read_texts), vec![PAYLOAD.to_string()]);
    assert_eq!(decode_qr_payloads(&code_image(), &read_bytes, &read_texts), vec![PAYLOAD.to_string()]);
}

#[test]
fn mirrored_codes_are_found() {
    let mirrored = turn_image(&code_image(), Turn::Mirror);
    assert_eq!(decode_qr_payloads(&mirrored, &read_bytes, &read_texts), vec![PAYLOAD.to_string()]);
}

#[test]
fn nothing_is_found_in_a_blank_image() {
    assert!(decode_qr_payloads(&blank(40, 30), &read_bytes, &read_texts).is_empty());
    assert!(decode_qr_payloads_from_dynamic(&DynamicImage::ImageLuma8(blank(30, 40)), &read_bytes, &read_texts).is_empty());
}

#[test]
fn nothing_is_found_in_an_empty_image() {
    assert!(decode_qr_payloads(&blank(0, 0), &read_bytes, &read_texts).is_empty());
    assert!(decode_qr_payloads(&blank(0, 9), &read_bytes, &read_texts).is_empty());
}

#[test]
fn codes_are_found_in_a_rendered_page() {
    let page = DynamicImage::ImageLuma8(code_image());
    assert_eq!(decode_qr_payloads_from_rendered(&page, &read_bytes, &read_texts), vec![PAYLOAD.to_string()]);
}

#[test]
fn codes_are_found_in_one_color() {
    let (side, pixels) = picture();
    let colored: Vec<u8> = pixels.iter().flat_map(|p| [*p, 60, 60]).collect();
    let image = DynamicImage::ImageRgb8(RgbImage::from_raw(side, side, colored).unwrap());
    assert_eq!(decode_qr_payloads_from_dynamic(&image, &read_bytes, &read_texts), vec![PAYLOAD.to_string()]);
}

#[test]
fn image_files_are_read() {
    let image = load_image(&png()).unwrap();
    assert_eq!(image.size(), (296, 296));
    assert_eq!(image.to_luma8().pixels, code_image().pixels);
    assert_eq!(image.to_rgb8().pixels.len(), 296 * 296 * 3);
    assert_eq!(decode_qr_payloads_from_dynamic(&image, &read_bytes, &read_texts), vec![PAYLOAD.to_string()]);
    assert!(load_image_as(&png(), ImageFormat::Png).is_some());
    assert!(load_image_as(&png(), ImageFormat::Jpeg).is_none());
    assert!(load_image(b"no image").is_none());
}

#[test]
fn every_image_format_is_read() {
    let gray = image::GrayImage::from_fn(5, 4, |x, y| image::Luma([(x * 40 + y * 10) as u8]));
    let image = image::DynamicImage::ImageRgb8(image::DynamicImage::ImageLuma8(gray).to_rgb8());
    let formats = [
        (image::ImageFormat::Png, ImageFormat::Png),
        (image::ImageFormat::Jpeg, ImageFormat::Jpeg),
        (image::ImageFormat::Bmp, ImageFormat::Bmp),
        (image::ImageFormat::WebP, ImageFormat::WebP),
        (image::ImageFormat::Tiff, ImageFormat::Tiff),
    ];
    for (outside, inside) in formats {
        let mut bytes = Vec::new();
        image.write_to(&mut std::io::Cursor::new(&mut bytes), outside).unwrap();
        let wanted = image::load_from_memory_with_format(&bytes, outside).unwrap();
        let loaded = load_image_as(&bytes, inside).unwrap();
        assert_eq!(loaded.size(), (5, 4));
        assert_eq!(loaded.to_luma8().pixels, wanted.to_luma8().into_raw());
        assert_eq!(loaded.to_rgb8().pixels, wanted.to_rgb8().into_raw());
        assert_eq!(load_image(&bytes).unwrap().to_rgb8().pixels, wanted.to_rgb8().into_raw());
    }
}

fn sized(width: u32, height: u32) -> DynamicImage {
    DynamicImage::ImageLuma8(blank(width, height))
}

#[test]
fn square_images_come_first() {
    assert_eq!(image_priority(&sized(100, 100)), 1);
    assert_eq!(image_priority(&sized(1000, 1000)), 100);
    assert_eq!(image_priority(&sized(2500, 2400)), 500 - 40);
    assert_eq!(image_priority(&sized(200, 100)), 2 - 500);
    assert_eq!(image_priority(&sized(0, 100)), i64::MIN);
    let images = vec![sized(200, 100), sized(0, 7), sized(100, 100), sized(110, 110), sized(400, 400)];
    let sizes: Vec<(u32, u32)> = prioritize_images(images).iter().map(|image| image.size()).collect();
    assert_eq!(sizes, vec![(400, 400), (100, 100), (110, 110), (200, 100), (0, 7)]);
}

#[test]
fn the_second_reader_is_asked_in_an_aggressive_search_only() {
    let asked = std::cell::Cell::new(0);
    let other = |_: &GrayImage| {
        asked.set(asked.get() + 1);
        vec![None, Some(String::new()), Some("second".to_string())]
    };
    assert_eq!(run_decoders(&code_image(), false, &read_bytes, &other), vec![PAYLOAD.to_string()]);
    assert_eq!(asked.get(), 0);
    assert_eq!(run_decoders(&code_image(), true, &read_bytes, &other), vec![PAYLOAD.to_string(), "second".to_string()]);
    assert_eq!(decode_rqrr_pass(&blank(3, 3), &other), vec!["second".to_string()]);
    assert_eq!(decode_qr_payloads(&blank(20, 20), &read_bytes, &other), vec!["second".to_string()]);
    assert_eq!(asked.get(), 3);
}

#[test]
fn the_image_as_it_is_is_read_first() {
    let tried = std::cell::RefCell::new(Vec::new());
    let first = |gray: &GrayImage| {
        tried.borrow_mut().push(gray.pixels.clone());
        vec![Some(b"b".to_vec()), None, Some(b"a".to_vec()), Some(b"b".to_vec())]
    };
    let none = |_: &GrayImage| Vec::new();
    let image = GrayImage::from_raw(2, 2, vec![10, 200, 30, 40]).unwrap();
    for aggressive in [false, true] {
        let found = decode_qr_payloads_with(&image, aggressive, &first, &none);
        assert_eq!(found, vec!["a".to_string(), "b".to_string()]);
        assert_eq!(found, run_decoders(&image, aggressive, &first, &none));
    }
    assert!(tried.borrow().iter().all(|pixels| *pixels == image.pixels));
    assert_eq!(tried.borrow().len(), 4);
    assert_eq!(decode_single_pass(&image, &first).len(), 3);
}

#[test]
fn a_search_makes_a_limited_number_of_attempts() {
    for (aggressive, limit) in [(false, 6), (true, 80)] {
        let tried = std::cell::Cell::new(0);
        let first = |_: &GrayImage| {
            tried.set(tried.get() + 1);
            Vec::new()
        };
        let none = |_: &GrayImage| Vec::new();
        assert!(decode_qr_payloads_with(&blank(300, 300), aggressive, &first, &none).is_empty());
        assert_eq!(tried.get(), limit);
    }
}

#[test]
fn long_images_are_searched_at_a_readable_size() {
    assert_eq!(normalize_gray_input(&blank(40_000, 2)).width, 8000);
    assert_eq!(normalize_gray_input(&blank(3, 32_768)).height, 6554);
    assert_eq!(normalize_gray_input(&blank(2400, 2)).width, 2400);
    assert!(decode_qr_payloads(&blank(40_000, 2), &read_bytes, &read_texts).is_empty());
}

#[test]
fn images_in_order_of_priority_are_the_same_images() {
    let images: Vec<DynamicImage> =
        [(3, 1), (30, 30), (9, 9)].into_iter().map(|(w, h)| DynamicImage::ImageLuma8(blank(w, h))).collect();
    let mut sizes: Vec<(u32, u32)> = prioritize_images(images).iter().map(|image| image.size()).collect();
    assert_eq!(sizes[0], (30, 30));
    sizes.sort();
    assert_eq!(sizes, vec![(3, 1), (9, 9), (30, 30)]);
}
