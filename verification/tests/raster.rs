use qr_scan::picture::DynamicImage;
use qr_scan::raster::{binarize, crop, stretch_contrast, turn_image, GrayImage, RgbImage, Turn};
use qr_scan::scale::{
    normalize_gray_input, resize_with_scale, scale_of_input, scale_one, scale_three, scale_three_halves, scale_two,
};
use qr_scan::threshold::{adaptive_binarize, build_integral, otsu_threshold, rect_sum};
use qr_scan::tone::gamma_correct;
use qr_scan::variants::{
    build_fast_gray_variants, build_gray_variants, build_rendered_variants, crop_variants, dynamic_gray_candidates,
    oriented_variants, sharpen, tile_variants,
};

fn noise(width: u32, height: u32, seed: u32) -> GrayImage {
    let mut state = seed;
    let pixels = (0..width * height)
        .map(|_| {
            state = state.wrapping_mul(1664525).wrapping_add(1013904223);
            (state >> 24) as u8
        })
        .collect();
    GrayImage::from_raw(width, height, pixels).unwrap()
}

fn outside(gray: &GrayImage) -> image::GrayImage {
    image::GrayImage::from_raw(gray.width, gray.height, gray.pixels.clone()).unwrap()
}

fn same(gray: &GrayImage, other: &image::GrayImage) {
    assert_eq!((gray.width, gray.height), other.dimensions());
    assert_eq!(&gray.pixels, other.as_raw());
}

#[test]
fn raw_pixels_must_suffice() {
    assert!(GrayImage::from_raw(2, 3, vec![0; 5]).is_none());
    assert_eq!(GrayImage::from_raw(2, 3, vec![1; 9]).unwrap().pixels, vec![1; 6]);
    assert!(GrayImage::from_raw(0, 3, vec![]).is_some());
    assert!(RgbImage::from_raw(2, 3, vec![0; 17]).is_none());
    assert_eq!(RgbImage::from_raw(2, 3, vec![1; 19]).unwrap().pixels, vec![1; 18]);
    assert!(GrayImage::from_raw(u32::MAX, 0, vec![]).is_some());
    assert!(GrayImage::from_raw(u32::MAX, u32::MAX, vec![]).is_none());
}

#[test]
fn turns_are_those_of_the_image_crate() {
    let gray = noise(7, 5, 1);
    let image = outside(&gray);
    same(&turn_image(&gray, Turn::Quarter), &image::imageops::rotate90(&image));
    same(&turn_image(&gray, Turn::Half), &image::imageops::rotate180(&image));
    same(&turn_image(&gray, Turn::ThreeQuarters), &image::imageops::rotate270(&image));
    same(&turn_image(&gray, Turn::Mirror), &image::imageops::flip_horizontal(&image));
}

#[test]
fn crops_are_those_of_the_image_crate() {
    let gray = noise(9, 6, 2);
    let image = outside(&gray);
    for (x, y, w, h) in [(0, 0, 9, 6), (2, 1, 4, 3), (7, 5, 4, 4), (9, 6, 3, 3), (20, 2, 1, 1), (3, 3, 0, 2)] {
        same(&crop(&gray, x, y, w, h), &image::imageops::crop_imm(&image, x, y, w, h).to_image());
    }
}

#[test]
fn contrast_fills_the_range() {
    let gray = GrayImage::from_raw(4, 1, vec![50, 60, 75, 100]).unwrap();
    assert_eq!(stretch_contrast(&gray).pixels, vec![0, 51, 127, 255]);
    let flat = GrayImage::from_raw(2, 1, vec![9, 9]).unwrap();
    assert_eq!(stretch_contrast(&flat).pixels, vec![9, 9]);
}

#[test]
fn binarizing_splits_at_the_threshold() {
    let gray = GrayImage::from_raw(3, 1, vec![99, 100, 101]).unwrap();
    assert_eq!(binarize(&gray, 100, false).pixels, vec![0, 255, 255]);
    assert_eq!(binarize(&gray, 100, true).pixels, vec![255, 0, 0]);
}

#[test]
fn tones_are_those_of_the_power_function() {
    let gray = GrayImage::from_raw(256, 1, (0..=255).collect()).unwrap();
    let wanted: Vec<u8> = (0..=255u32)
        .map(|v| ((v as f32 / 255.0).powf(1.0 / 0.85_f32) * 255.0).round().clamp(0.0, 255.0) as u8)
        .collect();
    assert_eq!(gamma_correct(&gray).pixels, wanted);
}

fn otsu_in_floats(gray: &GrayImage) -> u8 {
    let mut hist = [0u32; 256];
    for p in &gray.pixels {
        hist[*p as usize] += 1;
    }
    let total = (gray.width * gray.height) as f64;
    let mut sum = 0.0;
    for (i, count) in hist.iter().enumerate() {
        sum += (i as f64) * (*count as f64);
    }
    let (mut sum_bg, mut weight_bg, mut best, mut best_variance) = (0.0, 0.0, 127u8, -1.0f64);
    for (t, count) in hist.iter().enumerate() {
        weight_bg += *count as f64;
        if weight_bg == 0.0 {
            continue;
        }
        let weight_fg = total - weight_bg;
        if weight_fg == 0.0 {
            break;
        }
        sum_bg += (t as f64) * (*count as f64);
        let mean_bg = sum_bg / weight_bg;
        let mean_fg = (sum - sum_bg) / weight_fg;
        let variance = weight_bg * weight_fg * (mean_bg - mean_fg) * (mean_bg - mean_fg);
        let squared = weight_bg * weight_fg * (mean_bg - mean_fg).powi(2);
        assert!((variance - squared).abs() <= squared * 1e-12);
        if squared > best_variance {
            best_variance = squared;
            best = t as u8;
        }
    }
    best
}

#[test]
fn thresholds_are_those_of_double_precision() {
    for seed in 0..40 {
        let gray = noise(3 + seed, 17, seed * 77 + 5);
        assert_eq!(otsu_threshold(&gray), otsu_in_floats(&gray));
    }
    let two = GrayImage::from_raw(4, 1, vec![10, 10, 200, 200]).unwrap();
    assert_eq!(otsu_threshold(&two), 10);
    let flat = GrayImage::from_raw(2, 1, vec![9, 9]).unwrap();
    assert_eq!(otsu_threshold(&flat), 127);
    assert_eq!(otsu_threshold(&GrayImage::from_raw(0, 0, vec![]).unwrap()), 127);
}

#[test]
fn integral_sums_windows() {
    let gray = noise(6, 4, 9);
    let integral = build_integral(&gray);
    assert_eq!(integral.len(), 7 * 5);
    for x0 in 0..6u32 {
        for y0 in 0..4u32 {
            for x1 in x0..6 {
                for y1 in y0..4 {
                    let wanted: u32 = (y0..=y1)
                        .flat_map(|y| (x0..=x1).map(move |x| (x, y)))
                        .map(|(x, y)| gray.pixels[(y * 6 + x) as usize] as u32)
                        .sum();
                    assert_eq!(rect_sum(&integral, 7, x0, y0, x1, y1), wanted);
                }
            }
        }
    }
}

#[test]
fn window_sums_survive_a_wrapped_integral() {
    let integral = [u32::MAX - 3, 2, u32::MAX - 1, 8];
    assert_eq!(rect_sum(&integral, 2, 0, 0, 0, 0), 8u32.wrapping_add(u32::MAX - 3).wrapping_sub(2).wrapping_sub(u32::MAX - 1));
}

#[test]
fn neighbourhoods_are_binarized_by_their_mean() {
    let gray = GrayImage::from_raw(5, 1, vec![100, 100, 10, 100, 100]).unwrap();
    assert_eq!(adaptive_binarize(&gray, 1, 7).pixels, vec![255, 255, 0, 255, 255]);
    let even = GrayImage::from_raw(3, 1, vec![80, 87, 80]).unwrap();
    assert_eq!(adaptive_binarize(&even, u32::MAX, 2).pixels, adaptive_binarize(&even, 24, 2).pixels);
    assert_eq!(adaptive_binarize(&even, 24, 2).pixels, vec![255, 255, 255]);
    assert_eq!(adaptive_binarize(&even, 24, 1).pixels, vec![0, 255, 0]);
}

#[test]
fn sharpening_is_that_of_the_image_crate() {
    let gray = noise(12, 9, 4);
    let kernel = [0.0, -1.0, 0.0, -1.0, 5.2, -1.0, 0.0, -1.0, 0.0];
    same(&sharpen(&gray), &image::imageops::filter3x3(&outside(&gray), &kernel));
    let empty = GrayImage::from_raw(0, 4, vec![]).unwrap();
    assert_eq!(sharpen(&empty).pixels.len(), 0);
}

#[test]
fn scaling_is_that_of_the_image_crate() {
    let gray = noise(21, 10, 5);
    let image = outside(&gray);
    same(&resize_with_scale(&gray, scale_one()), &image);
    let larger = image::imageops::resize(&image, 32, 15, image::imageops::FilterType::Lanczos3);
    same(&resize_with_scale(&gray, scale_three_halves()), &larger);
    let double = image::imageops::resize(&image, 42, 20, image::imageops::FilterType::Lanczos3);
    same(&resize_with_scale(&gray, scale_two()), &double);
    let triple = resize_with_scale(&gray, scale_three());
    assert_eq!((triple.width, triple.height), (63, 30));
}

#[test]
fn small_images_keep_their_size() {
    let gray = noise(240, 100, 6);
    assert_eq!(normalize_gray_input(&gray).pixels, gray.pixels);
}

#[test]
fn large_images_are_brought_down() {
    for (w, h) in [(2401u32, 10u32), (2000, 1900), (9000, 40), (14000, 3), (2400, 1501)] {
        let gray = GrayImage::from_raw(w, h, vec![7; (w * h) as usize]).unwrap();
        let scale = (2400.0_f32 / w.max(h) as f32)
            .min((3_600_000.0_f32 / (u64::from(w) * u64::from(h)) as f32).sqrt())
            .clamp(0.2, 1.0);
        let found = scale_of_input(w, h);
        assert_eq!(found.mantissa as f64 * 2f64.powi(found.exponent), scale as f64);
        let small = normalize_gray_input(&gray);
        assert_eq!(small.width, ((w as f32 * scale).round() as u32).clamp(1, 8000));
        assert_eq!(small.height, ((h as f32 * scale).round() as u32).clamp(1, 8000));
    }
    let thin = GrayImage::from_raw(0, 5000, vec![]).unwrap();
    let small = normalize_gray_input(&thin);
    assert_eq!((small.width, small.height), (1, 2400));
}

#[test]
fn variants_are_listed_in_order() {
    let gray = noise(30, 20, 7);
    let fast = build_fast_gray_variants(&gray);
    assert_eq!(fast.len(), 3);
    let clear = stretch_contrast(&gray);
    let threshold = otsu_threshold(&clear);
    let all = build_gray_variants(&gray);
    assert_eq!(all.len(), 7);
    assert_eq!(all[0].pixels, gray.pixels);
    assert_eq!(all[1].pixels, clear.pixels);
    assert_eq!(all[2].pixels, gamma_correct(&clear).pixels);
    assert_eq!(all[3].pixels, binarize(&clear, threshold, false).pixels);
    assert_eq!(all[4].pixels, binarize(&clear, threshold, true).pixels);
    assert_eq!(all[5].pixels, adaptive_binarize(&clear, 24, 7).pixels);
    assert_eq!(all[6].pixels, sharpen(&clear).pixels);
    assert_eq!(fast[2].pixels, all[3].pixels);
    assert_eq!(oriented_variants(&gray, false).len(), 1);
    assert_eq!(oriented_variants(&gray, true).len(), 5);
}

#[test]
fn large_images_are_searched_in_parts() {
    let small = noise(199, 300, 8);
    assert_eq!(crop_variants(&small).len(), 1);
    let gray = noise(301, 250, 8);
    let sizes: Vec<(u32, u32)> = crop_variants(&gray).iter().map(|g| (g.width, g.height)).collect();
    assert_eq!(sizes, vec![(301, 250), (241, 200), (150, 125), (150, 125), (150, 125), (150, 125)]);
    let last = crop(&gray, 151, 125, 150, 125);
    assert_eq!(crop_variants(&gray)[5].pixels, last.pixels);
    let tiles = tile_variants(&gray);
    assert_eq!(tiles.len(), 5);
    assert_eq!((tiles[1].width, tiles[1].height), (200, 166));
    assert_eq!(tiles[2].pixels, crop(&gray, 0, 42, 200, 166).pixels);
    assert_eq!(tiles[3].pixels, crop(&gray, 0, 84, 200, 166).pixels);
    assert_eq!(tiles[4].pixels, crop(&gray, 50, 0, 200, 166).pixels);
    assert_eq!(tile_variants(&small).len(), 1);
}

#[test]
fn colors_are_split() {
    let rgb = RgbImage::from_raw(2, 1, vec![10, 20, 30, 90, 80, 70]).unwrap();
    let parts = dynamic_gray_candidates(&DynamicImage::ImageRgb8(rgb));
    assert_eq!(parts[0].pixels, vec![10, 90]);
    assert_eq!(parts[1].pixels, vec![20, 80]);
    assert_eq!(parts[2].pixels, vec![30, 90]);
}

#[test]
fn gray_levels_and_colors_are_those_of_the_image_crate() {
    let samples: Vec<u8> = noise(30, 8, 11).pixels.iter().cycle().take(720).copied().collect();
    let rgb = RgbImage::from_raw(30, 8, samples.clone()).unwrap();
    let other = image::DynamicImage::ImageRgb8(image::RgbImage::from_raw(30, 8, samples).unwrap());
    same(&DynamicImage::ImageRgb8(rgb).to_luma8(), &other.to_luma8());
    let levels = GrayImage::from_raw(256, 1, (0..=255).collect()).unwrap();
    let gray = image::DynamicImage::ImageLuma8(outside(&levels));
    assert_eq!(DynamicImage::ImageLuma8(levels).to_rgb8().pixels, gray.to_rgb8().into_raw());
}

#[test]
fn rendered_pages_are_searched_in_five_forms() {
    let gray = noise(40, 30, 12);
    let image = outside(&gray);
    let forms = build_rendered_variants(&gray);
    assert_eq!(forms.len(), 5);
    assert_eq!(forms[0].pixels, gray.pixels);
    same(&forms[1], &image::imageops::blur(&image, 0.7));
    assert_eq!(forms[2].pixels, sharpen(&gray).pixels);
    same(&forms[3], &image::imageops::resize(&image, 80, 60, image::imageops::FilterType::CatmullRom));
    same(&forms[4], &image::imageops::resize(&image, 120, 90, image::imageops::FilterType::CatmullRom));
    let wide = GrayImage::from_raw(3600, 1, vec![0; 3600]).unwrap();
    let forms = build_rendered_variants(&wide);
    assert_eq!((forms[3].width, forms[3].height), (7000, 2));
}

#[test]
fn turning_back_gives_the_image() {
    let gray = noise(7, 5, 21);
    let twice = |first: Turn, second: Turn| turn_image(&turn_image(&gray, first), second);
    assert_eq!(twice(Turn::Half, Turn::Half).pixels, gray.pixels);
    assert_eq!(twice(Turn::Mirror, Turn::Mirror).pixels, gray.pixels);
    assert_eq!(twice(Turn::Quarter, Turn::ThreeQuarters).pixels, gray.pixels);
    assert_eq!(twice(Turn::ThreeQuarters, Turn::Quarter).pixels, gray.pixels);
    assert_eq!(twice(Turn::Quarter, Turn::Quarter).pixels, turn_image(&gray, Turn::Half).pixels);
}

#[test]
fn stretching_again_changes_nothing() {
    let gray = GrayImage::from_raw(5, 1, vec![30, 31, 90, 99, 120]).unwrap();
    let once = stretch_contrast(&gray);
    assert_eq!((once.pixels[0], once.pixels[4]), (0, 255));
    assert_eq!(stretch_contrast(&once).pixels, once.pixels);
}
