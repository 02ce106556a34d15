use nobg::calibrate::calibrate_to_global;
use nobg::enhance::{enhance_alpha, AlphaCurve};
use nobg::raster::{GrayImage, RgbaImage};
use nobg::removal::{
    apply_mask, can_remove, can_tile, process_dynamic_image, process_single, process_tiled, Removal, Stage,
};
use nobg::resample::{can_resize, MAX_SHORTER_SIDE};
use nobg::tensor::{can_prepare, prepare_input};
use nobg::tiling::{overlap_dist, tile_contributions, tile_positions, Contribution};

fn identity_curve() -> AlphaCurve {
    AlphaCurve::new((0..256).map(|v: u32| v as u8).collect()).unwrap()
}

fn steep_curve() -> AlphaCurve {
    AlphaCurve::new((0..256).map(|v: u32| (v * v / 256) as u8).collect()).unwrap()
}

fn picture(width: u32, height: u32) -> RgbaImage {
    let data = (0..width * height * 4).map(|i| (i * 7 % 251) as u8).collect();
    RgbaImage { width, height, data }
}

fn colours(picture: &RgbaImage) -> Vec<u8> {
    picture.data.chunks(4).flat_map(|p| [p[0], p[1], p[2]]).collect()
}

fn alpha(picture: &RgbaImage) -> Vec<u8> {
    picture.data.chunks(4).map(|p| p[3]).collect()
}

/// A mask of the model's size that depends on the region.
fn fake_inference(region: &RgbaImage, w: u32, h: u32) -> GrayImage {
    let seed: u32 = region.data.iter().map(|&b| b as u32).sum();
    let data = (0..w * h).map(|i| ((i * 31 + seed) % 256) as u8).collect();
    GrayImage { width: w, height: h, data }
}

/// Blends contributions in single precision.
fn blend(lists: &[Vec<Contribution>], pixels: usize, overlap: u32) -> Vec<u8> {
    let mut sums = vec![0.0f32; pixels];
    let mut weights = vec![0.0f32; pixels];
    for list in lists {
        for c in list {
            let weight = (c.weight as f32 / overlap as f32).clamp(0.0, 1.0);
            sums[c.index] += c.level as f32 / 255.0 * weight;
            weights[c.index] += weight;
        }
    }
    let level = |i: usize| {
        if weights[i] > 0.0 {
            (sums[i] / weights[i] * 255.0) as u8
        } else {
            0
        }
    };
    (0..pixels).map(level).collect()
}

#[test]
fn tile_positions_end_at_the_edge() {
    assert_eq!(tile_positions(10, 4, 3), vec![0, 3, 6]);
    assert_eq!(tile_positions(11, 4, 3), vec![0, 3, 6, 7]);
    assert_eq!(tile_positions(4, 4, 3), vec![0]);
    assert_eq!(tile_positions(3, 4, 3), vec![0]);
    assert_eq!(tile_positions(0, 4, 3), Vec::<u32>::new());
    assert_eq!(tile_positions(0, 0, 0), Vec::<u32>::new());
    assert_eq!(tile_positions(1024, 1024, 768), vec![0]);
    assert_eq!(tile_positions(1025, 1024, 768), vec![0, 1]);
    assert_eq!(tile_positions(3000, 1024, 768), vec![0, 768, 1536, 1976]);
}

#[test]
fn tiles_shorter_than_their_distance_leave_gaps() {
    assert_eq!(tile_positions(9, 2, 6), vec![0, 6]);
    assert_eq!(tile_positions(12, 2, 6), vec![0, 6]);
    assert_eq!(tile_positions(13, 2, 6), vec![0, 6, 11]);
}

#[test]
fn tile_positions_follow_the_walk() {
    for len in 1..60u32 {
        for tile in 1..=len {
            for step in 1..20u32 {
                let mut walk: Vec<u32> = Vec::new();
                let mut at = 0;
                while at < len {
                    let position = at.min(len.saturating_sub(tile));
                    if walk.is_empty() || position != *walk.last().unwrap() {
                        walk.push(position);
                    }
                    at += step;
                }
                let positions = tile_positions(len, tile, step);
                assert_eq!(positions, walk);
                assert!(positions.iter().all(|p| p + tile <= len));
                assert!(positions.windows(2).all(|p| p[0] < p[1]));
                assert_eq!(positions[0], 0);
                if step <= tile {
                    assert_eq!(positions.last().unwrap() + tile, len);
                    for x in 0..len {
                        assert!(positions.iter().any(|p| *p <= x && x < p + tile));
                    }
                }
            }
        }
    }
}

#[test]
fn weights_rise_from_both_ends() {
    let weights: Vec<u32> = (0..12).map(|p| overlap_dist(p, 12, 3)).collect();
    assert_eq!(weights, vec![1, 1, 2, 3, 3, 3, 3, 3, 3, 2, 1, 1]);
    assert_eq!(overlap_dist(0, 1, 0), 1);
    assert_eq!(overlap_dist(2, 3, 0), 1);
    for p in 0..12 {
        assert_eq!(overlap_dist(p, 12, 3), overlap_dist(11 - p, 12, 3));
    }
}

#[test]
fn weights_are_the_parts_of_the_overlap() {
    for dim in 1..40u32 {
        let overlap = dim / 4;
        for p in 0..dim {
            let left = p.min(overlap).max(1);
            let right = (dim - p - 1).min(overlap).max(1);
            let wanted = (left.min(right) as f32 / overlap as f32).clamp(0.0, 1.0);
            let parts = overlap_dist(p, dim, overlap) as f32 / overlap as f32;
            assert_eq!(parts.clamp(0.0, 1.0), wanted);
        }
    }
}

#[test]
fn contributions_name_the_pixels_of_the_image() {
    let mask = GrayImage { width: 2, height: 2, data: vec![5, 6, 7, 8] };
    let list = tile_contributions(&mask, 1, 2, 4, 4, 1);
    assert_eq!(
        list,
        vec![
            Contribution { index: 9, level: 5, weight: 1 },
            Contribution { index: 10, level: 6, weight: 1 },
            Contribution { index: 13, level: 7, weight: 1 },
            Contribution { index: 14, level: 8, weight: 1 },
        ]
    );
}

#[test]
fn contributions_take_the_smaller_weight() {
    let mask = GrayImage { width: 5, height: 3, data: vec![0; 15] };
    let list = tile_contributions(&mask, 0, 0, 5, 3, 2);
    let weights: Vec<u32> = list.iter().map(|c| c.weight).collect();
    assert_eq!(weights, vec![1; 15]);
    let mask = GrayImage { width: 7, height: 7, data: vec![0; 49] };
    let list = tile_contributions(&mask, 0, 0, 7, 7, 2);
    assert_eq!(list[3 * 7 + 3].weight, 2);
    assert_eq!(list[7 + 3].weight, 1);
    assert_eq!(list[3 * 7].weight, 1);
}

#[test]
fn mask_of_the_pictures_size_becomes_the_alpha_channel() {
    let input = picture(3, 2);
    let mask = GrayImage { width: 3, height: 2, data: vec![0, 50, 100, 150, 200, 250] };
    let output = process_single(&input, &mask, &steep_curve());
    assert_eq!(alpha(&output), vec![0, 9, 39, 87, 156, 244]);
    assert_eq!(colours(&output), colours(&input));
    let same = apply_mask(&input, mask, &steep_curve());
    assert_eq!(same, output);
}

#[test]
fn smaller_mask_is_scaled_by_lanczos() {
    let input = picture(9, 7);
    let mask = GrayImage { width: 4, height: 3, data: (0..12).map(|v| v * 20).collect() };
    let output = process_single(&input, &mask, &identity_curve());
    let source = image::GrayImage::from_raw(4, 3, mask.data.clone()).unwrap();
    let filter = image::imageops::FilterType::Lanczos3;
    let scaled = image::imageops::resize(&source, 9, 7, filter);
    assert_eq!(alpha(&output), scaled.into_raw());
    assert_eq!(colours(&output), colours(&input));
}

#[test]
fn empty_mask_hides_everything() {
    let input = picture(2, 2);
    let mask = GrayImage { width: 0, height: 5, data: vec![] };
    let output = process_single(&input, &mask, &identity_curve());
    assert_eq!(alpha(&output), vec![0; 4]);
}

#[test]
fn picture_without_tiles_needs_one_mask() {
    let input = picture(6, 5);
    let mut removal = process_dynamic_image(input.duplicate(), false, (4, 4), identity_curve());
    assert_eq!(removal.stage, Stage::Whole);
    let region = removal.region().unwrap();
    assert_eq!(region, input);
    let mask = fake_inference(&region, 4, 4);
    let wanted = process_single(&input, &mask, &identity_curve());
    assert!(removal.accept_mask(mask).is_empty());
    assert_eq!(removal.stage, Stage::Done);
    assert!(removal.region().is_none());
    assert_eq!(removal.picture, wanted);
}

#[test]
fn small_picture_is_not_tiled() {
    let removal = process_tiled(picture(3, 9), (4, 4), identity_curve());
    assert_eq!(removal.stage, Stage::Whole);
    let removal = process_dynamic_image(picture(9, 3), true, (4, 4), identity_curve());
    assert_eq!(removal.stage, Stage::Whole);
    let removal = process_dynamic_image(picture(4, 4), true, (4, 4), identity_curve());
    assert_eq!(removal.stage, Stage::Global);
}

/// Runs a removal to its end and returns the regions that it asked for.
fn run(removal: &mut Removal, overlap: u32) -> (Vec<RgbaImage>, Vec<Vec<Contribution>>) {
    let mut regions = Vec::new();
    let mut lists = Vec::new();
    while let Some(region) = removal.region() {
        let mask = fake_inference(&region, removal.model_w, removal.model_h);
        lists.push(removal.accept_mask(mask));
        regions.push(region);
    }
    if removal.stage == Stage::Blend {
        let pixels = (removal.picture.width * removal.picture.height) as usize;
        removal.accept_alpha(blend(&lists, pixels, overlap));
    }
    (regions, lists)
}

#[test]
fn tiled_removal_asks_for_the_whole_and_then_for_each_tile() {
    let input = picture(20, 17);
    let mut removal = process_tiled(input.duplicate(), (8, 8), identity_curve());
    assert_eq!(removal.columns, vec![0, 6, 12]);
    assert_eq!(removal.rows, vec![0, 6, 9]);
    assert_eq!(removal.overlap(), 2);
    let (regions, lists) = run(&mut removal, 2);
    assert_eq!(regions.len(), 10);
    assert_eq!(regions[0], input);
    let mut k = 1;
    for y in [0, 6, 9] {
        for x in [0, 6, 12] {
            assert_eq!(regions[k], input.crop(x, y, 8, 8));
            assert_eq!(lists[k].len(), 64);
            k += 1;
        }
    }
    assert!(lists[0].is_empty());
    let mut hits = vec![0; 20 * 17];
    for c in lists.iter().flatten() {
        hits[c.index] += 1;
        assert!(c.weight >= 1);
    }
    assert!(hits.iter().all(|&n| n > 0));
    assert_eq!(removal.stage, Stage::Done);
    assert_eq!(colours(&removal.picture), colours(&input));
}

#[test]
fn tiled_removal_blends_calibrated_tiles() {
    let (w, h, mw, mh) = (21u32, 18u32, 8u32, 8u32);
    let input = picture(w, h);
    let curve = steep_curve();
    let mut removal = process_dynamic_image(input.duplicate(), true, (mw, mh), steep_curve());
    run(&mut removal, mw / 4);

    let whole = fake_inference(&input, mw, mh);
    let source = image::GrayImage::from_raw(mw, mh, whole.data).unwrap();
    let filter = image::imageops::FilterType::Lanczos3;
    let scaled = image::imageops::resize(&source, w, h, filter);
    let global = GrayImage { width: w, height: h, data: scaled.into_raw() };
    let overlap = mw / 4;
    let mut sums = vec![0.0f32; (w * h) as usize];
    let mut weights = vec![0.0f32; (w * h) as usize];
    for &ty in &[0u32, 6, 10] {
        for &tx in &[0u32, 6, 12, 13] {
            let mask = fake_inference(&input.crop(tx, ty, mw, mh), mw, mh);
            let mut tile = calibrate_to_global(&mask, &global.crop(tx, ty, mw, mh), 8);
            enhance_alpha(&mut tile, &curve);
            for py in 0..mh {
                for px in 0..mw {
                    let level = tile.get(px, py) as f32 / 255.0;
                    let part = |p: u32, dim: u32| {
                        let left = p.min(overlap).max(1);
                        let right = (dim - p - 1).min(overlap).max(1);
                        (left.min(right) as f32 / overlap as f32).clamp(0.0, 1.0)
                    };
                    let weight = part(px, mw).min(part(py, mh));
                    let i = ((ty + py) * w + tx + px) as usize;
                    sums[i] += level * weight;
                    weights[i] += weight;
                }
            }
        }
    }
    let wanted: Vec<u8> = (0..sums.len())
        .map(|i| if weights[i] > 0.0 { (sums[i] / weights[i] * 255.0) as u8 } else { 0 })
        .collect();
    assert_eq!(alpha(&removal.picture), wanted);
}

#[test]
fn flat_model_leaves_rows_without_a_tile() {
    let mut removal = process_tiled(picture(8, 8), (8, 2), identity_curve());
    assert_eq!(removal.rows, vec![0, 6]);
    run(&mut removal, 2);
    let levels = alpha(&removal.picture);
    assert!(levels[2 * 8..6 * 8].iter().all(|&a| a == 0));
}

#[test]
fn sizes_that_cannot_be_worked_on_are_told_apart() {
    assert!(can_resize(10, 10, 20, 30));
    assert!(can_resize(3_000_000, 1, 4, 1));
    assert!(can_resize(4, 1, 3_000_000, 1));
    assert!(can_resize(u32::MAX, 1, MAX_SHORTER_SIDE, 1));
    assert!(can_resize(MAX_SHORTER_SIDE, 1, u32::MAX, 1));
    assert!(!can_resize(MAX_SHORTER_SIDE + 1, 1, MAX_SHORTER_SIDE + 2, 1));
    assert!(!can_resize(1, MAX_SHORTER_SIDE + 1, 1, MAX_SHORTER_SIDE + 2));
    assert!(can_resize(MAX_SHORTER_SIDE + 1, 1, MAX_SHORTER_SIDE + 1, 1));
    assert!(can_resize(0, u32::MAX, 4, MAX_SHORTER_SIDE + 1));
    assert!(!can_resize(1, 1, u32::MAX, u32::MAX));
    assert!(can_tile(4000, 3000, 1024, 1024));
    assert!(!can_tile(65536, 65536, 1024, 1024));
    assert!(!can_tile(4, 4, 0, 4));
    assert!(!can_tile(4, 4, 4, 0));
    assert!(can_tile(0, 0, 0, 0));
    assert!(!can_tile(u32::MAX, 1, 1024, 1));
    assert!(can_tile(u32::MAX, 1, 1, 1));
    assert!(can_remove(4000, 3000, true, (1024, 1024)));
    assert!(can_remove(3_000_000, 1, true, (4, 1)));
    assert!(!can_remove(6_000_000, 1, false, (5_000_000, 1)));
    assert!(!can_tile(u32::MAX, 1, u32::MAX, 1));
    assert!(!can_remove(1_000_000, 5000, true, (1024, 1024)));
    assert!(can_remove(1_000_000, 5000, false, (1024, 1024)));
    assert!(can_remove(1_000_000, 1000, true, (1024, 1024)));
    assert!(!can_remove(4, 4, true, (4, 0)));
}

#[test]
fn long_pictures_are_resampled() {
    let input = picture(3_000_000, 1);
    let shape = vec![1, 3, 1, 4];
    assert!(can_prepare(&shape, 3_000_000, 1));
    assert_eq!(prepare_input(&shape, &input).samples.len(), 12);
    let mask = GrayImage { width: 4, height: 1, data: vec![200; 4] };
    let output = process_single(&input, &mask, &identity_curve());
    assert_eq!(alpha(&output), vec![200; 3_000_000]);
    let removal = process_tiled(input, (4, 1), identity_curve());
    assert_eq!(removal.stage, Stage::Global);
    assert_eq!(removal.columns.len(), 1_000_000);
}

#[test]
fn asking_for_tiles_makes_no_difference_for_small_pictures() {
    let input = picture(9, 3);
    let mut with = process_dynamic_image(input.duplicate(), true, (4, 4), steep_curve());
    let mut without = process_dynamic_image(input.duplicate(), false, (4, 4), steep_curve());
    let mut tiled = process_tiled(input.duplicate(), (4, 4), steep_curve());
    assert_eq!(run(&mut with, 1).0.len(), 1);
    run(&mut without, 1);
    run(&mut tiled, 1);
    assert_eq!(with.picture, without.picture);
    assert_eq!(tiled.picture, without.picture);
    let mask = fake_inference(&input, 4, 4);
    assert_eq!(process_single(&input, &mask, &steep_curve()), without.picture);
}

/// Runs a removal with a model that sees the colours of a region only.
fn run_on_colours(input: &RgbaImage, tile: bool) -> RgbaImage {
    let shape = vec![1, 3, 8, 8];
    let mut removal = process_dynamic_image(input.duplicate(), tile, (8, 8), steep_curve());
    let mut lists = Vec::new();
    while let Some(region) = removal.region() {
        assert!(can_prepare(&shape, region.width, region.height));
        let samples = prepare_input(&shape, &region).samples;
        let data = (0..64).map(|i| (samples[i] + samples[64 + i] + samples[128 + i]) as u8).collect();
        lists.push(removal.accept_mask(GrayImage { width: 8, height: 8, data }));
    }
    if removal.stage == Stage::Blend {
        let pixels = (input.width * input.height) as usize;
        removal.accept_alpha(blend(&lists, pixels, 2));
    }
    removal.picture
}

#[test]
fn input_alpha_has_no_influence() {
    let input = picture(20, 17);
    let mut other = input.duplicate();
    other.set_alpha(&(0..20 * 17).map(|i: u32| (i * 3 % 256) as u8).collect());
    assert_ne!(input, other);
    for tile in [false, true] {
        assert_eq!(run_on_colours(&input, tile), run_on_colours(&other, tile));
    }
}

#[test]
fn second_pass_changes_nothing() {
    let input = picture(21, 18);
    for tile in [false, true] {
        let first = run_on_colours(&input, tile);
        assert_ne!(first, input);
        assert_eq!(run_on_colours(&first, tile), first);
    }
}
