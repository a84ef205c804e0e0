use qr_scan::float::{divide, is_less, multiply, round_ratio, round_to_integer, square_root, subtract, Float, DOUBLE, SINGLE};

fn value(f: Float) -> f64 {
    f.mantissa as f64 * 2f64.powi(f.exponent)
}

fn single(x: u64) -> Float {
    round_ratio(SINGLE, x as u128, 1)
}

fn double(x: u64) -> Float {
    round_ratio(DOUBLE, x as u128, 1)
}

const SAMPLES: [u64; 14] = [
    1, 2, 3, 7, 255, 2400, 3_600_000, 16_777_215, 16_777_217, 16_777_219, 123_456_789, 4_294_967_295, 9_007_199_254_740_993,
    u64::MAX / 3,
];

#[test]
fn integers_are_rounded_like_ieee() {
    for x in SAMPLES {
        assert_eq!(value(single(x)), (x as f32) as f64, "{x}");
        assert_eq!(value(double(x)), x as f64, "{x}");
    }
    assert_eq!(single(0).mantissa, 0);
}

#[test]
fn quotients_and_products_are_rounded_like_ieee() {
    for a in SAMPLES {
        for b in SAMPLES {
            assert_eq!(value(divide(SINGLE, single(a), single(b))), (a as f32 / b as f32) as f64);
            assert_eq!(value(multiply(SINGLE, single(a), single(b))), (a as f32 * b as f32) as f64);
            assert_eq!(value(divide(DOUBLE, double(a), double(b))), a as f64 / b as f64);
            assert_eq!(value(multiply(DOUBLE, double(a), double(b))), a as f64 * b as f64);
            assert_eq!(is_less(single(a), single(b)), (a as f32) < b as f32);
        }
    }
}

#[test]
fn distances_are_rounded_like_ieee() {
    for a in 1..60u64 {
        for b in 1..60u64 {
            let x = divide(DOUBLE, double(a * 1009), double(b * 13));
            let y = divide(DOUBLE, double(b * 77), double(a * 5));
            let wanted = ((a * 1009) as f64 / (b * 13) as f64 - (b * 77) as f64 / (a * 5) as f64).abs();
            assert_eq!(value(subtract(DOUBLE, x, y)), wanted);
        }
    }
    assert_eq!(value(subtract(DOUBLE, double(0), double(9))), 9.0);
}

#[test]
fn roots_are_rounded_like_ieee() {
    for a in SAMPLES {
        for b in SAMPLES {
            let q = divide(SINGLE, single(a), single(b));
            assert_eq!(value(square_root(q)), ((a as f32 / b as f32).sqrt()) as f64);
        }
    }
}

#[test]
fn halves_are_rounded_upward() {
    for n in 0..2000u64 {
        let half = divide(SINGLE, single(n), single(2));
        assert_eq!(round_to_integer(half, 900), ((n as f32 / 2.0).round() as u32).min(900));
    }
    assert_eq!(round_to_integer(single(u64::MAX), u32::MAX), u32::MAX);
}
