use nobg::raster::RgbaImage;
use nobg::tensor::{
    can_prepare, can_read, element_count, get_model_dims, input_samples, prepare_input, read_mask,
    MaskError,
};

fn picture(width: u32, height: u32) -> RgbaImage {
    let data = (0..width * height * 4).map(|i| (i * 13 % 256) as u8).collect();
    RgbaImage { width, height, data }
}

#[test]
fn model_dims_are_width_and_height() {
    assert_eq!(get_model_dims(&vec![1, 3, 512, 1024]), (1024, 512));
    assert_eq!(get_model_dims(&vec![1, 3, -1, 4_294_967_297]), (1, u32::MAX));
}

#[test]
fn samples_are_planes_of_channels() {
    let source = picture(3, 2);
    let samples = input_samples(&vec![1, 3, 2, 3], &source);
    assert_eq!(samples.len(), 18);
    for c in 0..3usize {
        for y in 0..2usize {
            for x in 0..3usize {
                let byte = source.data[(y * 3 + x) * 4 + c];
                assert_eq!(samples[(c * 2 + y) * 3 + x], byte as i16 - 128);
            }
        }
    }
}

#[test]
fn samples_stand_for_normalised_values() {
    let source = RgbaImage { width: 1, height: 1, data: vec![0, 128, 255, 64] };
    let samples = input_samples(&vec![1, 4, 1, 1], &source);
    assert_eq!(samples, vec![-128, 0, 127, -64]);
    for (sample, byte) in samples.iter().zip(&source.data) {
        assert_eq!(*sample as f32 / 256.0, (*byte as f32 - 128.) / 256.);
    }
}

#[test]
fn input_is_scaled_to_the_model() {
    let source = picture(7, 5);
    let input = prepare_input(&vec![1, 3, 4, 6], &source);
    assert_eq!(input.dims, vec![1, 3, 4, 6]);
    let buffer = image::RgbaImage::from_raw(7, 5, source.data.clone()).unwrap();
    let filter = image::imageops::FilterType::Triangle;
    let scaled = image::imageops::resize(&buffer, 6, 4, filter);
    for c in 0..3usize {
        for y in 0..4u32 {
            for x in 0..6u32 {
                let wanted = scaled.get_pixel(x, y)[c] as i16 - 128;
                let at = (c * 4 + y as usize) * 6 + x as usize;
                assert_eq!(input.samples[at], wanted);
            }
        }
    }
}

#[test]
fn input_of_the_models_size_is_not_scaled() {
    let source = picture(4, 3);
    let input = prepare_input(&vec![1, 3, 3, 4], &source);
    assert_eq!(input.samples, input_samples(&vec![1, 3, 3, 4], &source));
}

#[test]
fn empty_picture_gives_zeros() {
    let source = RgbaImage { width: 0, height: 4, data: vec![] };
    let input = prepare_input(&vec![1, 3, 2, 2], &source);
    assert_eq!(input.samples, vec![-128; 12]);
}

#[test]
fn empty_input_has_no_samples() {
    let input = prepare_input(&vec![0, 9, 2, 2], &picture(2, 2));
    assert!(input.samples.is_empty());
}

#[test]
fn shapes_that_no_input_can_have_are_told_apart() {
    assert!(can_prepare(&vec![1, 3, 1024, 1024], 4000, 3000));
    assert!(!can_prepare(&vec![3, 1024, 1024], 10, 10));
    assert!(!can_prepare(&vec![1, 3, -1, -1], 10, 10));
    assert!(!can_prepare(&vec![1, 5, 8, 8], 10, 10));
    assert!(can_prepare(&vec![0, 5, 8, 8], 10, 10));
    assert!(can_prepare(&vec![1, 3, 8, 3_000_000], 10, 10));
    assert!(!can_prepare(&vec![1, 3, 1, 5_000_000], 6_000_000, 1));
    assert!(can_prepare(&vec![0, 3, 8, 4_294_967_296], 10, 10));
    assert!(!can_prepare(&vec![1, 3, 8, 4_294_967_296], 10, 10));
    assert!(!can_prepare(&vec![i64::MAX, 3, 8, 8], 10, 10));
}

#[test]
fn elements_are_counted() {
    assert_eq!(element_count(&vec![]), Some(1));
    assert_eq!(element_count(&vec![2, 3, 4]), Some(24));
    assert_eq!(element_count(&vec![2, 0, 4]), Some(0));
    assert_eq!(element_count(&vec![usize::MAX]), None);
    assert_eq!(element_count(&vec![0, usize::MAX]), None);
    assert_eq!(element_count(&vec![isize::MAX as usize, 1, 0]), Some(0));
}

#[test]
fn single_channel_output_is_the_mask() {
    let levels: Vec<u8> = (0..12).map(|v| v * 20).collect();
    let mask = read_mask(&vec![1, 1, 3, 4], &levels, 4, 3).unwrap();
    assert_eq!((mask.width, mask.height), (4, 3));
    assert_eq!(mask.data, levels);
}

#[test]
fn last_value_of_a_pixel_wins() {
    let levels: Vec<u8> = (1..9).collect();
    let mask = read_mask(&vec![1, 2, 2, 2], &levels, 2, 2).unwrap();
    assert_eq!(mask.data, vec![5, 6, 7, 8]);
    let mask = read_mask(&vec![1, 1, 1, 2, 4], &levels, 2, 1).unwrap();
    assert_eq!(mask.data, vec![4, 8]);
}

#[test]
fn pixels_without_a_value_stay_zero() {
    let mask = read_mask(&vec![1, 1, 1, 2], &vec![7, 8], 3, 2).unwrap();
    assert_eq!(mask.data, vec![7, 8, 0, 0, 0, 0]);
    let mask = read_mask(&vec![0, 1, 2, 2], &vec![], 2, 2).unwrap();
    assert_eq!(mask.data, vec![0; 4]);
}

#[test]
fn surplus_values_are_left_out() {
    let mask = read_mask(&vec![1, 1, 1, 2], &vec![7, 8, 9], 2, 1).unwrap();
    assert_eq!(mask.data, vec![7, 8]);
}

#[test]
fn values_that_do_not_fit_the_shape_are_an_error() {
    let mask = read_mask(&vec![1, 1, 2, 2], &vec![1, 2, 3], 2, 2);
    assert_eq!(mask, Err(MaskError::Shape));
    let mask = read_mask(&vec![usize::MAX, 2], &vec![1, 2, 3], 2, 2);
    assert_eq!(mask, Err(MaskError::Shape));
}

#[test]
fn outputs_that_lead_out_of_the_mask_are_told_apart() {
    assert!(can_read(&vec![1, 1, 2, 2], 4, 2, 2));
    assert!(can_read(&vec![1, 1, 2, 2], 3, 1, 1));
    assert!(!can_read(&vec![1, 1, 2, 2], 4, 1, 2));
    assert!(!can_read(&vec![1, 1, 2, 2], 4, 2, 1));
    assert!(!can_read(&vec![2, 2], 4, 2, 2));
    assert!(can_read(&vec![0, 2], 4, 2, 2));
}
