use nobg::calibrate::{bilinear, calibrate_to_global};
use nobg::enhance::{enhance_alpha, AlphaCurve};
use nobg::raster::{GrayImage, RgbaImage};

fn gray(width: u32, height: u32, data: Vec<u8>) -> GrayImage {
    GrayImage { width, height, data }
}

/// A mask of levels that look random.
fn noise(width: u32, height: u32, seed: u32) -> GrayImage {
    let mut state = seed;
    let mut data = Vec::new();
    for _ in 0..width * height {
        state = state.wrapping_mul(1_664_525).wrapping_add(1_013_904_223);
        data.push((state >> 24) as u8);
    }
    gray(width, height, data)
}

/// The calibration on single precision numbers.
fn calibrate_in_floats(tile: &GrayImage, global: &GrayImage, b: u32) -> Vec<u8> {
    let w = tile.width;
    let h = tile.height;
    let at = |m: &GrayImage, x: u32, y: u32| m.data[(y * m.width + x) as usize] as f32;
    let corner = |c: u32, r: u32| {
        let x = (c * b).min(w - 1);
        let y = (r * b).min(h - 1);
        at(global, x, y) - at(tile, x, y)
    };
    let mut out = Vec::new();
    for y in 0..h {
        for x in 0..w {
            let (c, r) = (x / b, y / b);
            let fx = (x % b) as f32 / b as f32;
            let fy = (y % b) as f32 / b as f32;
            let drift = corner(c, r) * ((1.0 - fx) * (1.0 - fy))
                + corner(c + 1, r) * (fx * (1.0 - fy))
                + corner(c, r + 1) * ((1.0 - fx) * fy)
                + corner(c + 1, r + 1) * (fx * fy);
            out.push((at(tile, x, y) + drift).clamp(0.0, 255.0) as u8);
        }
    }
    out
}

#[test]
fn bilinear_gives_the_corners_and_the_middle() {
    assert_eq!(bilinear(10, 20, 30, 40, 0, 0, 8), 10 * 64);
    assert_eq!(bilinear(10, 20, 30, 40, 4, 0, 8), 15 * 64);
    assert_eq!(bilinear(10, 20, 30, 40, 4, 4, 8), 25 * 64);
    assert_eq!(bilinear(-255, 0, 0, 0, 7, 7, 8), -255);
    assert_eq!(bilinear(1, 2, 3, 4, 0, 0, 1), 1);
}

#[test]
fn bilinear_meets_its_values_at_all_corners() {
    assert_eq!(bilinear(10, -20, 30, 255, 0, 0, 8), 10 * 64);
    assert_eq!(bilinear(10, -20, 30, 255, 8, 0, 8), -20 * 64);
    assert_eq!(bilinear(10, -20, 30, 255, 0, 8, 8), 30 * 64);
    assert_eq!(bilinear(10, -20, 30, 255, 8, 8, 8), 255 * 64);
    assert_eq!(bilinear(1, 2, 3, 4, 1, 1, 1), 4);
}

#[test]
fn bilinear_lies_between_its_values() {
    for fy in 0..=8 {
        for fx in 0..=8 {
            let value = bilinear(-255, 17, 40, 255, fx, fy, 8);
            assert!(-255 * 64 <= value && value <= 255 * 64);
            assert_eq!(bilinear(-7, -7, -7, -7, fx, fy, 8), -7 * 64);
        }
    }
}

#[test]
fn calibration_meets_the_global_mask_at_block_corners() {
    let tile = noise(20, 17, 1);
    let global = noise(20, 17, 2);
    let result = calibrate_to_global(&tile, &global, 8);
    assert_eq!((result.width, result.height), (20, 17));
    for y in [0u32, 8, 16] {
        for x in [0u32, 8, 16] {
            let i = (y * 20 + x) as usize;
            assert_eq!(result.data[i], global.data[i]);
        }
    }
}

#[test]
fn calibration_removes_a_uniform_drift() {
    let tile = gray(9, 9, vec![100; 81]);
    let global = gray(9, 9, vec![137; 81]);
    assert_eq!(calibrate_to_global(&tile, &global, 8).data, vec![137; 81]);
    assert_eq!(calibrate_to_global(&tile, &tile, 8).data, vec![100; 81]);
}

#[test]
fn calibration_interpolates_and_rounds_down() {
    let tile = gray(9, 1, vec![0; 9]);
    let mut levels = vec![0; 9];
    levels[8] = 100;
    let global = gray(9, 1, levels);
    let result = calibrate_to_global(&tile, &global, 8);
    assert_eq!(result.data, vec![0, 12, 25, 37, 50, 62, 75, 87, 100]);
}

#[test]
fn calibration_limits_levels() {
    let mut low = vec![0; 9];
    low[1] = 250;
    let tile = gray(9, 1, low);
    let global = gray(9, 1, vec![100; 9]);
    assert_eq!(calibrate_to_global(&tile, &global, 8).data[1], 255);
    let mut high = vec![200; 9];
    high[1] = 20;
    let tile = gray(9, 1, high);
    assert_eq!(calibrate_to_global(&tile, &global, 8).data[1], 0);
}

#[test]
fn calibration_agrees_with_single_precision() {
    for b in [1u32, 2, 4, 8, 16, 32, 64, 128] {
        for (w, h) in [(1, 1), (7, 9), (8, 8), (33, 21), (130, 5)] {
            let tile = noise(w, h, b + w);
            let global = noise(w, h, b + h + 77);
            let result = calibrate_to_global(&tile, &global, b);
            assert_eq!(result.data, calibrate_in_floats(&tile, &global, b));
        }
    }
}

#[test]
fn calibration_looks_at_grid_points_only() {
    let tile = noise(19, 13, 5);
    let first = noise(19, 13, 6);
    let mut second = noise(19, 13, 7);
    for y in [0usize, 8, 12] {
        for x in [0usize, 8, 16, 18] {
            second.data[y * 19 + x] = first.data[y * 19 + x];
        }
    }
    assert_ne!(first, second);
    let expected = calibrate_to_global(&tile, &first, 8);
    assert_eq!(calibrate_to_global(&tile, &second, 8), expected);
}

#[test]
fn higher_mask_never_lowers_a_level() {
    let tile = noise(21, 18, 8);
    let lower = noise(21, 18, 9);
    let steps = noise(21, 18, 10);
    let levels = lower.data.iter().zip(&steps.data).map(|(a, b)| a.saturating_add(*b)).collect();
    let higher = gray(21, 18, levels);
    let first = calibrate_to_global(&tile, &lower, 8);
    let second = calibrate_to_global(&tile, &higher, 8);
    assert!(first.data.iter().zip(&second.data).all(|(a, b)| a <= b));
}

#[test]
fn calibration_reads_a_wider_global_mask_by_its_own_rows() {
    let tile = gray(2, 2, vec![0, 0, 0, 0]);
    let global = gray(3, 2, vec![1, 2, 3, 4, 5, 6]);
    let result = calibrate_to_global(&tile, &global, 1);
    assert_eq!(result.data, vec![1, 2, 4, 5]);
}

/// The table that stretches the levels above a floor, in single precision.
fn tone_table(floor: f32) -> Vec<u8> {
    let cutoff = floor.clamp(0.0, 1.0);
    let scale = 1.0 / (1.0 - cutoff);
    let level = |v: u8| {
        let a = v as f32 / 255.0;
        (((a - cutoff) * scale).clamp(0.0, 1.0) * 255.0) as u8
    };
    (0..=255).map(level).collect()
}

#[test]
fn enhancing_looks_every_level_up() {
    let levels: Vec<u8> = (0..256).map(|v: u32| (v * v / 256) as u8).collect();
    let curve = AlphaCurve::new(levels).unwrap();
    let mut mask = gray(4, 1, vec![0, 100, 128, 255]);
    enhance_alpha(&mut mask, &curve);
    assert_eq!(mask, gray(4, 1, vec![0, 39, 64, 254]));
}

#[test]
fn enhancing_keeps_masks_in_order() {
    let curve = AlphaCurve::new(tone_table(0.5)).unwrap();
    let mut lower = noise(16, 16, 3);
    let levels = lower.data.iter().map(|v| v.saturating_add(9)).collect();
    let mut higher = gray(16, 16, levels);
    enhance_alpha(&mut lower, &curve);
    enhance_alpha(&mut higher, &curve);
    assert!(lower.data.iter().zip(&higher.data).all(|(a, b)| a <= b));
}

#[test]
fn enhancing_lifts_no_level() {
    let curve = AlphaCurve::new(tone_table(0.2)).unwrap();
    let before = noise(16, 16, 4);
    let mut after = noise(16, 16, 4);
    enhance_alpha(&mut after, &curve);
    assert!(after.data.iter().zip(&before.data).all(|(a, b)| a <= b));
    assert_ne!(after, before);
}

#[test]
fn every_floor_gives_a_curve() {
    for step in 0..=20_000u32 {
        assert!(AlphaCurve::new(tone_table(step as f32 / 20_000.0)).is_some());
    }
    for floor in [-1.0, 0.0, 1.0e-45, 1.0e-7, 0.99999994, 1.0, 2.0, f32::INFINITY, f32::NAN] {
        assert!(AlphaCurve::new(tone_table(floor)).is_some());
    }
    let half = tone_table(0.5);
    assert_eq!((half[127], half[128], half[191], half[255]), (0, 1, 127, 255));
}

#[test]
fn other_tables_are_no_curves() {
    assert!(AlphaCurve::new(vec![0; 255]).is_none());
    assert!(AlphaCurve::new(vec![0; 257]).is_none());
    assert!(AlphaCurve::new(vec![0; 256]).is_some());
    let identity: Vec<u8> = (0..=255).collect();
    let mut lifting = identity.clone();
    lifting[7] = 8;
    assert!(AlphaCurve::new(lifting).is_none());
    let mut falling = identity.clone();
    falling[255] = 253;
    assert!(AlphaCurve::new(falling).is_none());
    assert!(AlphaCurve::new(identity).is_some());
}

#[test]
fn crops_copy_the_window() {
    let mask = gray(4, 3, (0..12).collect());
    let part = mask.crop(1, 1, 2, 2);
    assert_eq!(part, gray(2, 2, vec![5, 6, 9, 10]));
    assert_eq!(mask.crop(4, 3, 0, 0), gray(0, 0, vec![]));
    assert_eq!(mask.get(3, 2), 11);
    let picture = RgbaImage { width: 2, height: 2, data: (0..16).collect() };
    let column = picture.crop(1, 0, 1, 2);
    assert_eq!(column.data, vec![4, 5, 6, 7, 12, 13, 14, 15]);
    assert_eq!((column.width, column.height), (1, 2));
}

#[test]
fn replacing_alpha_keeps_the_colours() {
    let mut picture = RgbaImage { width: 2, height: 1, data: vec![1, 2, 3, 4, 5, 6, 7, 8] };
    picture.set_alpha(&vec![90, 91]);
    assert_eq!(picture.data, vec![1, 2, 3, 90, 5, 6, 7, 91]);
    assert_eq!(picture.duplicate(), picture);
}
