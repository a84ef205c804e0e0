use qr_scan::predictor::{decode_png_predictor, paeth_predictor, PredictorParams};
use qr_scan::samples::{
    decode_16bit_cmyk, decode_16bit_gray, decode_16bit_rgb, decode_1bit_gray_image, decode_cmyk_image,
    decode_indexed_to_gray, infer_channels,
};

#[test]
fn channels_follow_from_the_length() {
    assert_eq!(infer_channels(2, 3, 6), Some(1));
    assert_eq!(infer_channels(2, 3, 18), Some(3));
    assert_eq!(infer_channels(2, 3, 24), Some(4));
    assert_eq!(infer_channels(2, 3, 12), None);
    assert_eq!(infer_channels(0, 3, 0), None);
    assert_eq!(infer_channels(u32::MAX, u32::MAX, 7), None);
}

#[test]
fn bits_are_black_and_white() {
    let data = vec![0b1010_0000, 0b1000_0000, 0b0101_1111, 0];
    let image = decode_1bit_gray_image(9, 2, &data, false).unwrap();
    assert_eq!(image.pixels, vec![255, 0, 255, 0, 0, 0, 0, 0, 255, 0, 255, 0, 255, 255, 255, 255, 255, 0]);
    let inverted = decode_1bit_gray_image(9, 2, &data, true).unwrap();
    assert!(inverted.pixels.iter().zip(&image.pixels).all(|(a, b)| *a == 255 - *b));
    assert!(decode_1bit_gray_image(9, 2, &data[..3].to_vec(), false).is_none());
}

#[test]
fn indices_become_levels() {
    let image = decode_indexed_to_gray(4, 1, &vec![0b0001_1011], 2, 3).unwrap();
    assert_eq!(image.pixels, vec![0, 85, 170, 255]);
    let image = decode_indexed_to_gray(3, 1, &vec![0x0f, 0x50], 4, 15).unwrap();
    assert_eq!(image.pixels, vec![0, 255, 85]);
    let image = decode_indexed_to_gray(3, 1, &vec![0b1010_0000], 1, 1).unwrap();
    assert_eq!(image.pixels, vec![255, 0, 255]);
    let image = decode_indexed_to_gray(2, 1, &vec![0, 1, 2], 8, 0).unwrap();
    assert_eq!(image.pixels, vec![0, 255]);
    assert!(decode_indexed_to_gray(4, 1, &vec![0; 3], 8, 3).is_none());
    assert!(decode_indexed_to_gray(5, 1, &vec![0], 2, 3).is_none());
    assert!(decode_indexed_to_gray(1, 1, &vec![0], 3, 3).is_none());
    assert!(decode_indexed_to_gray(0, 1, &vec![0], 8, 3).is_none());
}

#[test]
fn levels_of_indices_are_those_of_single_precision() {
    let data: Vec<u8> = (0..=255).collect();
    for hival in 0..=400u16 {
        let scale = if hival == 0 { 255.0 } else { 255.0 / (hival as f32) };
        let wanted: Vec<u8> = data.iter().map(|i| (*i as f32 * scale).round().clamp(0.0, 255.0) as u8).collect();
        assert_eq!(decode_indexed_to_gray(256, 1, &data, 8, hival).unwrap().pixels, wanted, "{hival}");
    }
}

fn printed(ink: u8, key: u8) -> u8 {
    let c = ink as f32 / 255.0;
    let k = key as f32 / 255.0;
    ((1.0 - (c * (1.0 - k) + k)) * 255.0).round().clamp(0.0, 255.0) as u8
}

#[test]
fn inks_are_those_of_single_precision() {
    for key in 0..=255u8 {
        let data: Vec<u8> = (0..=255u8).flat_map(|ink| [ink, 255 - ink, 0, key]).collect();
        let image = decode_cmyk_image(256, 1, &data).unwrap();
        let wanted: Vec<u8> =
            (0..=255u8).flat_map(|ink| [printed(ink, key), printed(255 - ink, key), printed(0, key)]).collect();
        assert_eq!(image.pixels, wanted);
    }
    assert!(decode_cmyk_image(2, 1, &vec![0; 7]).is_none());
    assert!(decode_cmyk_image(2, 1, &vec![0; 9]).is_none());
}

#[test]
fn samples_of_two_bytes_keep_the_high_one() {
    assert_eq!(decode_16bit_gray(2, 1, &vec![1, 2, 3, 4]).unwrap().pixels, vec![1, 3]);
    assert_eq!(decode_16bit_rgb(1, 1, &vec![1, 2, 3, 4, 5, 6]).unwrap().pixels, vec![1, 3, 5]);
    assert_eq!(decode_16bit_cmyk(1, 1, &vec![0, 9, 255, 9, 100, 9, 0, 9]).unwrap().pixels, vec![255, 0, 155]);
    assert!(decode_16bit_gray(2, 1, &vec![1, 2, 3]).is_none());
    assert!(decode_16bit_rgb(1, 1, &vec![1; 5]).is_none());
    assert!(decode_16bit_cmyk(1, 1, &vec![1; 7]).is_none());
}

#[test]
fn paeth_picks_the_nearest_neighbour() {
    assert_eq!(paeth_predictor(10, 20, 10), 20);
    assert_eq!(paeth_predictor(10, 20, 20), 10);
    assert_eq!(paeth_predictor(10, 20, 15), 15);
    assert_eq!(paeth_predictor(0, 0, 0), 0);
    assert_eq!(paeth_predictor(255, 0, 255), 0);
    assert_eq!(paeth_predictor(7, 7, 0), 7);
}

fn params(colors: u32, columns: u32, bpc: u8) -> PredictorParams {
    PredictorParams { predictor: 15, colors, columns, bpc }
}

#[test]
fn every_filter_is_undone() {
    let data = vec![
        0, 1, 2, 3, //
        1, 10, 1, 1, //
        2, 1, 1, 1, //
        3, 4, 4, 4, //
        4, 1, 2, 3,
    ];
    let rows = decode_png_predictor(data, 5, params(1, 3, 8)).unwrap();
    assert_eq!(rows, vec![1, 2, 3, 10, 11, 12, 11, 12, 13, 9, 14, 17, 10, 16, 20]);
}

#[test]
fn samples_of_several_bytes_are_stepped_over() {
    let data = vec![1, 1, 2, 3, 1, 1, 1, 4, 1, 1, 1, 1, 1, 1];
    let rows = decode_png_predictor(data, 2, params(3, 2, 8)).unwrap();
    assert_eq!(rows, vec![1, 2, 3, 2, 3, 4, 2, 3, 4, 3, 4, 5]);
}

#[test]
fn data_that_cannot_be_filtered() {
    assert_eq!(decode_png_predictor(vec![1, 2, 3, 4], 2, params(1, 2, 8)), Some(vec![1, 2, 3, 4]));
    assert_eq!(decode_png_predictor(vec![1, 2, 3, 4, 5], 2, params(1, 2, 8)), None);
    assert_eq!(decode_png_predictor(vec![5, 1, 1], 1, params(1, 2, 8)), None);
    assert_eq!(decode_png_predictor(vec![0, 1, 1], 0, params(1, 2, 8)), None);
    assert_eq!(decode_png_predictor(vec![0, 1, 1], 1, params(0, 2, 8)), None);
    assert_eq!(decode_png_predictor(vec![0, 1, 1], 1, params(0x8000_0000, 2, 8)), None);
    assert_eq!(decode_png_predictor(vec![9], 1, params(1, 3, 4)), None);
    assert_eq!(decode_png_predictor(vec![0, 0xf0], 1, params(1, 3, 4)), Some(vec![0, 0xf0]));
    assert_eq!(decode_png_predictor(vec![0, 0xf0, 9, 77], 1, params(1, 3, 4)), Some(vec![0xf0, 9]));
}

#[test]
fn filtered_rows_are_given_back() {
    let (colors, columns, rows) = (3usize, 4usize, 10usize);
    let length = colors * columns;
    let plain: Vec<u8> = (0..length * rows).map(|i| (i * i * 7 % 251) as u8).collect();
    let mut data = Vec::new();
    for row in 0..rows {
        let filter = (row % 5) as u8;
        data.push(filter);
        for i in 0..length {
            let at = row * length + i;
            let left = if i >= colors { plain[at - colors] } else { 0 };
            let up = if row > 0 { plain[at - length] } else { 0 };
            let corner = if row > 0 && i >= colors { plain[at - length - colors] } else { 0 };
            let predicted = match filter {
                1 => left,
                2 => up,
                3 => ((left as u16 + up as u16) / 2) as u8,
                4 => paeth_predictor(left, up, corner),
                _ => 0,
            };
            data.push(plain[at].wrapping_sub(predicted));
        }
    }
    assert_eq!(decode_png_predictor(data, rows as u32, params(colors as u32, columns as u32, 8)), Some(plain));
}
