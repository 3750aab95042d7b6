use fusion_ocr::ocr::layout::predictor::{box_count, fraction_planes, LayoutPredictor, LABELS};
use fusion_ocr::raster::{can_resize, RgbImage};
use fusion_ocr::single::Single;
use image::imageops::FilterType;

fn s(v: f32) -> Single {
    Single::from_bits(v.to_bits())
}

fn f(v: Single) -> f32 {
    f32::from_bits(v.to_bits())
}

fn rows(list: &[[f32; 6]]) -> Vec<Single> {
    list.iter().flatten().map(|v| s(*v)).collect()
}

#[test]
fn there_are_twenty_classes() {
    assert_eq!(LABELS.len(), 20);
    assert_eq!(LABELS[0], "paragraph_title");
    assert_eq!(LABELS[7], "formula");
    assert_eq!(LABELS[19], "reference_content");
}

#[test]
fn thresholds_of_predictors() {
    assert_eq!(f(LayoutPredictor::new().threshold), 0.5);
    assert_eq!(f(LayoutPredictor::with_threshold(s(0.3)).threshold), 0.3);
}

#[test]
fn pages_are_fed_at_one_size() {
    let data: Vec<u8> = (0..3 * 50 * 30u32).map(|i| (i * 11 % 256) as u8).collect();
    let page = RgbImage { width: 50, height: 30, data: data.clone() };
    assert!(can_resize(50, 30, 800, 800));
    let input = LayoutPredictor::new().input(&page);
    let source = image::RgbImage::from_raw(50, 30, data).unwrap();
    let resized = image::imageops::resize(&source, 800, 800, FilterType::Triangle);
    assert_eq!(input.image.len(), 3 * 640_000);
    for (i, px) in resized.as_raw().chunks_exact(3).enumerate() {
        for c in 0..3 {
            assert_eq!(f(input.image[c * 640_000 + i]), px[2 - c] as f32 / 255.0);
        }
    }
    assert_eq!(input.im_shape.map(f), [800.0, 800.0]);
    assert_eq!(input.scale_factor.map(f), [800.0 / 30.0, 800.0 / 50.0]);
}

#[test]
fn a_page_without_pixels_is_fed_as_black() {
    let page = RgbImage { width: 0, height: 5, data: vec![] };
    let input = LayoutPredictor::new().input(&page);
    assert!(input.image.iter().all(|v| v.to_bits() == 0));
    assert_eq!(f(input.scale_factor[1]), f32::INFINITY);
}

#[test]
fn planes_hold_fractions() {
    let mut data = vec![0u8; 3 * 640_000];
    data[0] = 255;
    data[4] = 51;
    let page = RgbImage { width: 800, height: 800, data };
    let got = fraction_planes(&page);
    assert_eq!(f(got[2 * 640_000]), 1.0);
    assert_eq!(f(got[640_000 + 1]), 0.2);
    assert_eq!(f(got[0]), 0.0);
}

#[test]
fn counts_are_limited_by_the_rows() {
    assert_eq!(box_count(Some(3), 10), 3);
    assert_eq!(box_count(Some(30), 10), 10);
    assert_eq!(box_count(Some(0), 10), 0);
    assert_eq!(box_count(Some(-1), 10), 10);
    assert_eq!(box_count(None, 10), 10);
}

#[test]
fn rows_become_clipped_regions() {
    let data = rows(&[
        [2.0, 0.9, -5.0, 10.0, 120.0, 40.0],
        [2.0, 0.49, 0.0, 0.0, 10.0, 10.0],   // unsure
        [20.0, 0.9, 0.0, 0.0, 10.0, 10.0],   // no such class
        [7.9, 0.5, 1.0, 2.0, 3.0, 4.0],      // class 7
        [1.0, 0.9, 100.0, 0.0, 130.0, 10.0], // right of the page
        [1.0, 0.9, 10.0, 20.0, 30.0, 20.0],  // flat
        [-3.0, f32::NAN, 0.5, 0.5, 1.5, 1.5],
        [f32::NAN, 0.9, f32::NAN, 0.0, 5.0, 5.0],
        [0.0, 0.9, 0.0, 0.0, 5.0, 5.0], // not counted
    ]);
    let got = LayoutPredictor::new().boxes(100, 80, &data, 8);
    let view: Vec<(usize, &str, [f32; 4])> =
        got.iter().map(|r| (r.label_id, r.label, r.bbox.map(f))).collect();
    assert_eq!(view.len(), 4);
    assert_eq!(view[0], (2, "text", [0.0, 10.0, 100.0, 40.0]));
    assert_eq!(view[1], (7, "formula", [1.0, 2.0, 3.0, 4.0]));
    assert_eq!(view[2], (0, "paragraph_title", [0.5, 0.5, 1.5, 1.5]));
    assert!(view[3].2[0].is_nan());
    assert_eq!(f(got[0].score), 0.9);
    assert!(LayoutPredictor::new().boxes(100, 80, &vec![], 0).is_empty());
}

#[test]
fn sizes_that_cannot_be_resampled_are_told() {
    assert!(can_resize(0, 0, 1, 1));
    assert!(can_resize(2_097_152, 10, 800, 800));
    assert!(can_resize(10, 10, 2_000_000, 800));
    // longer sides have to shrink by half at least, to few enough pixels
    assert!(can_resize(2_097_153, u32::MAX, 800, 800));
    assert!(!can_resize(2_097_153, 10, 1_048_577, 800));
    assert!(!can_resize(u32::MAX, 10, 65_537, 800));
    assert!(!can_resize(10, 10, 800, 3_000_000));
    // there is nothing to resample of a picture without pixels
    assert!(can_resize(0, 3_000_000, 800, 3_000));
}

#[test]
fn very_long_pages_are_resampled() {
    let height = 3_000_000;
    let mut data = vec![51u8; 3 * height / 2];
    data.resize(3 * height, 204);
    let page = RgbImage { width: 1, height: height as u32, data };
    let input = LayoutPredictor::new().input(&page);
    assert!((f(input.image[0]) - 0.2).abs() < 0.01);
    assert!((f(input.image[800 * 800 - 1]) - 0.8).abs() < 0.01);
}
