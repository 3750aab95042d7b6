use fusion_ocr::ocr::formula::bytes::{byte_level_decode_char, decode, spell, to_bytes};
use fusion_ocr::ocr::formula::picture::{centre, crop_margin, fit};
use fusion_ocr::ocr::formula::recognition::FormulaRecognizer;
use fusion_ocr::raster::{GrayImage, RgbImage};
use fusion_ocr::single::Single;
use image::imageops::FilterType;

fn s(v: f32) -> Single {
    Single::from_bits(v.to_bits())
}

fn f(v: Single) -> f32 {
    f32::from_bits(v.to_bits())
}

/// How a byte is written.
fn written(b: u8) -> char {
    let shown = |b: u8| matches!(b, 33..=126 | 161..=172 | 174..=255);
    if shown(b) {
        b as char
    } else {
        let below = (0..b).filter(|c| !shown(*c)).count() as u32;
        char::from_u32(256 + below).unwrap()
    }
}

/// A vocabulary with 23 marks before the given tokens.
fn vocabulary(tokens: &[&str]) -> Vec<String> {
    let mut all: Vec<String> = (0..23).map(|i| format!("<mark{i}>")).collect();
    all.extend(tokens.iter().map(|t| t.to_string()));
    all
}

#[test]
fn every_byte_comes_back() {
    for b in 0..=255u8 {
        assert_eq!(byte_level_decode_char(written(b)), b);
    }
    assert_eq!(byte_level_decode_char('A'), b'A');
    assert_eq!(byte_level_decode_char('\u{120}'), b' ');
    assert_eq!(byte_level_decode_char('\u{10a}'), b'\n');
    assert_eq!(byte_level_decode_char('\u{143}'), 173);
    assert_eq!(byte_level_decode_char('\u{144}'), 0);
    assert_eq!(byte_level_decode_char('\u{1F600}'), 0);
    // characters below 256 stand for themselves even where no byte is written so
    assert_eq!(byte_level_decode_char(' '), b' ');
}

#[test]
fn written_text_comes_back() {
    let text = "\\frac{α}{β} → 漢字 \u{1F600}\n";
    let token: String = text.bytes().map(written).collect();
    assert_eq!(to_bytes(&token), text.as_bytes());
    let tokens = vocabulary(&[&token]);
    assert_eq!(decode(&tokens, &[23, 2]), text);
}

#[test]
fn tokens_are_spelled_up_to_the_end_mark() {
    let tokens = vocabulary(&["x", "^", "2"]);
    assert_eq!(spell(&tokens, &[0, 23, 1, 24, 25, 2, 23]), "x^2");
    assert_eq!(spell(&tokens, &[22, 26, -7, 25, i64::MAX]), "2");
    assert_eq!(spell(&tokens, &[2]), "");
    assert_eq!(spell(&tokens, &[]), "");
}

#[test]
fn invalid_bytes_are_replaced() {
    let broken: String = [b'a', 0xff, b'b'].iter().map(|b| written(*b)).collect();
    let tokens = vocabulary(&[&broken]);
    assert_eq!(decode(&tokens, &[23]), "a\u{fffd}b");
}

fn gray(width: u32, height: u32, data: Vec<u8>) -> GrayImage {
    GrayImage { width, height, data }
}

#[test]
fn margins_are_cut_off() {
    let mut data = vec![250u8; 6 * 5];
    data[6 + 2] = 10;
    data[3 * 6 + 4] = 60;
    data[2 * 6 + 1] = 249; // too light to count
    let cut = crop_margin(&gray(6, 5, data.clone()));
    assert_eq!((cut.width, cut.height), (3, 3));
    assert_eq!(cut.data, [10, 250, 250, 250, 250, 250, 250, 250, 60]);
}

#[test]
fn contrast_is_stretched_before_ink_is_told() {
    // stretched from 100..150 to 0..255: 139 becomes 198.9, 140 becomes 204
    let cut = crop_margin(&gray(4, 1, vec![150, 139, 100, 140]));
    assert_eq!(cut.data, [139, 100]);
}

#[test]
fn flat_pictures_stay() {
    let flat = gray(3, 2, vec![77; 6]);
    let cut = crop_margin(&flat);
    assert_eq!((cut.width, cut.height, cut.data), (3, 2, vec![77; 6]));
    let none = crop_margin(&gray(0, 4, vec![]));
    assert_eq!((none.width, none.height), (0, 4));
}

#[test]
fn pictures_are_fitted() {
    assert_eq!(fit(384, 384), (384, 384));
    assert_eq!(fit(768, 384), (384, 192));
    assert_eq!(fit(10, 20), (192, 384));
    assert_eq!(fit(100_000, 1), (384, 1));
    assert_eq!(fit(0, 7), (1, 384));
    for (w, h) in [(123u32, 77u32), (55, 501), (383, 385)] {
        let scale = (384.0 / w as f32).min(384.0 / h as f32);
        let side = |v: u32| ((v as f32 * scale).round() as u32).clamp(1, 384);
        assert_eq!(fit(w, h), (side(w), side(h)));
    }
}

#[test]
fn pictures_are_centred_on_white() {
    let got = centre(&gray(2, 1, vec![0, 51]), s(0.5), s(0.25));
    assert_eq!(got.len(), 384 * 384);
    let at = |x: usize, y: usize| f(got[y * 384 + x]);
    assert_eq!(at(191, 191), (0.0 - 0.5) / 0.25);
    assert_eq!(at(192, 191), (0.2f32 - 0.5) / 0.25);
    assert_eq!(at(190, 191), 2.0);
    assert_eq!(at(193, 191), 2.0);
    assert_eq!(at(191, 190), 2.0);
    assert_eq!(at(191, 192), 2.0);
}

#[test]
fn formulas_are_prepared_step_by_step() {
    let (width, height) = (60u32, 40u32);
    let mut data = vec![255u8; (3 * width * height) as usize];
    for y in 10..25usize {
        for x in 20..50usize {
            let at = 3 * (y * width as usize + x);
            data[at] = (x * 3) as u8;
            data[at + 1] = (y * 5) as u8;
            data[at + 2] = (x + y) as u8;
        }
    }
    let reader = FormulaRecognizer::new("t");
    assert_eq!((f(reader.mean), f(reader.std)), (0.7931, 0.1738));
    let got = reader.preprocess(&RgbImage { width, height, data: data.clone() });

    let source = image::RgbImage::from_raw(width, height, data).unwrap();
    let gray = image::imageops::grayscale(&source);
    let cut = image::imageops::crop_imm(&gray, 20, 10, 30, 15).to_image();
    let small = image::imageops::resize(&cut, 384, 192, FilterType::Triangle);
    for y in 0..384u32 {
        for x in 0..384u32 {
            let v = if (96..288).contains(&y) { small.get_pixel(x, y - 96)[0] } else { 255 };
            let want = (v as f32 / 255.0 - 0.7931) / 0.1738;
            assert_eq!(f(got[(y * 384 + x) as usize]), want);
        }
    }
}

#[test]
fn brightness_is_weighted() {
    // a picture of one colour is not cut, so its brightness shows in the middle
    let reader = FormulaRecognizer::new("").with_normalization(s(0.0), s(1.0));
    for (colour, want) in [
        ([255u8, 0, 0], 54u8),
        ([0, 255, 0], 182),
        ([0, 0, 255], 18),
        ([10, 20, 30], 18),
        ([255, 255, 255], 255),
    ] {
        let got = reader.preprocess(&RgbImage { width: 1, height: 1, data: colour.to_vec() });
        assert_eq!(f(got[192 * 384 + 192]), want as f32 / 255.0);
    }
}

#[test]
fn formulas_are_fed_in_groups() {
    assert_eq!(FormulaRecognizer::plan(5, 2), [(0, 2), (2, 4), (4, 5)]);
    assert_eq!(FormulaRecognizer::plan(3, 0), [(0, 1), (1, 2), (2, 3)]);
    assert_eq!(FormulaRecognizer::plan(2, 9), [(0, 2)]);
    assert!(FormulaRecognizer::plan(0, 1).is_empty());
    let reader = FormulaRecognizer::new("").with_normalization(s(0.0), s(1.0));
    let dot = |v: u8| RgbImage { width: 1, height: 1, data: vec![v; 3] };
    let images = vec![dot(0), dot(51), dot(255)];
    let data = reader.input(&images, 0, 2);
    assert_eq!(data.len(), 2 * 384 * 384);
    let middle = 192 * 384 + 192;
    assert_eq!(f(data[middle]), 0.0);
    assert_eq!(f(data[384 * 384 + middle]), 0.2);
    assert!(reader.input(&images, 1, 1).is_empty());
}

#[test]
fn answers_are_read_row_by_row() {
    let tokens: String = (0..23).map(|i| format!("<{i}>\n")).collect::<String>() + "x\r\ny\n";
    let reader = FormulaRecognizer::new(&tokens);
    assert_eq!(reader.tokens.len(), 25);
    let got = reader.read(&vec![2, 3], &vec![23, 24, 2, 24, 2, 23], 2).unwrap();
    assert_eq!(got, ["xy", "y"]);
    // what does not fill a row is left out
    let got = reader.read(&vec![1, 2], &vec![23, 23, 24], 1).unwrap();
    assert_eq!(got, ["xx"]);
    assert!(reader.read(&vec![1, -1], &vec![23], 1).unwrap().is_empty());
}

#[test]
fn unexpected_answers_are_refused() {
    let reader = FormulaRecognizer::new("");
    for shape in [vec![2, 3], vec![1, 3, 1], vec![1], vec![], vec![-1, 3]] {
        let error = reader.read(&shape, &vec![0, 0, 0], 1).unwrap_err();
        assert_eq!(error.shape, shape);
    }
}
