use fusion_ocr::ocr::text::batch::plan_batches;
use fusion_ocr::ocr::text::line::{
    ctc_decode, ctc_decode_compact, normalise_line, prepare, resize_norm, scaled_width,
};
use fusion_ocr::ocr::text::recognition::{LineOutput, TextRecognizer};
use fusion_ocr::raster::RgbImage;
use fusion_ocr::single::Single;
use fusion_ocr::strings::split_lines;
use image::imageops::FilterType;

fn s(v: f32) -> Single {
    Single::from_bits(v.to_bits())
}

fn f(v: Single) -> f32 {
    f32::from_bits(v.to_bits())
}

fn dict() -> Vec<String> {
    ["a", "b", "c", "dd"].iter().map(|t| t.to_string()).collect()
}

fn singles(list: &[f32]) -> Vec<Single> {
    list.iter().map(|v| s(*v)).collect()
}

fn picture(width: u32, height: u32, seed: u32) -> RgbImage {
    let data = (0..3 * width * height).map(|i| ((i * 37 + seed * 101) % 251) as u8).collect();
    RgbImage { width, height, data }
}

#[test]
fn repeats_collapse_and_blanks_separate() {
    let ids = [0, 1, 1, 0, 1, 2, 2, 3, 0, 0, 4];
    let probs = [0.1, 0.5, 0.9, 0.2, 0.25, 1.0, 0.3, 0.75, 0.1, 0.1, 0.5];
    let (text, conf) = ctc_decode_compact(&dict(), &ids, &singles(&probs));
    assert_eq!(text, "aabcdd");
    // 0.5 + 0.25 + 1.0 + 0.75 + 0.5 over five characters
    assert_eq!(f(conf), 3.0f32 / 5.0);
}

#[test]
fn classes_outside_the_dictionary_are_skipped() {
    let (text, conf) = ctc_decode_compact(&dict(), &[5, -1, 2, i64::MIN], &singles(&[1.0; 4]));
    assert_eq!((text.as_str(), f(conf)), ("b", 1.0));
    let (text, conf) = ctc_decode_compact(&dict(), &[9, 9], &singles(&[1.0; 2]));
    assert_eq!((text.as_str(), f(conf)), ("", 0.0));
    // an unknown class still separates
    let (text, _) = ctc_decode_compact(&dict(), &[1, 9, 1], &singles(&[1.0; 3]));
    assert_eq!(text, "aa");
}

#[test]
fn the_shorter_of_classes_and_probabilities_counts() {
    let (text, _) = ctc_decode_compact(&dict(), &[1, 2, 3], &singles(&[1.0; 2]));
    assert_eq!(text, "ab");
    let (text, conf) = ctc_decode_compact(&dict(), &[], &singles(&[1.0; 2]));
    assert_eq!((text.as_str(), f(conf)), ("", 0.0));
}

#[test]
fn the_likeliest_class_counts() {
    let rows = [
        [0.1, 0.7, 0.2, 0.0, 0.0],
        [0.1, 0.7, 0.7, 0.0, 0.0], // the first of equals: again `a`
        [0.9, 0.0, 0.0, 0.0, 0.1],
        [0.0, f32::NAN, 0.0, 0.25, 0.0],
        [f32::NAN; 5], // nothing is likeliest: a blank
        [0.0, 0.0, 0.0, 0.5, 0.0],
    ];
    let logits: Vec<Single> = rows.iter().flatten().map(|v| s(*v)).collect();
    let (text, conf) = ctc_decode(&dict(), &logits, 6, 5);
    assert_eq!(text, "acc");
    assert_eq!(f(conf), (0.7f32 + 0.25 + 0.5) / 3.0);
    assert_eq!(ctc_decode(&dict(), &logits, 0, 5).0, "");
}

#[test]
fn both_decoders_agree() {
    let mut state = 9u64;
    let mut logits = Vec::new();
    for _ in 0..40 * 5 {
        state = state.wrapping_mul(6364136223846793005).wrapping_add(1442695040888963407);
        logits.push(((state >> 40) % 1000) as f32 / 1000.0);
    }
    let mut ids = Vec::new();
    let mut probs = Vec::new();
    for row in logits.chunks(5) {
        let mut best = 0;
        for (j, v) in row.iter().enumerate() {
            if *v > row[best] {
                best = j;
            }
        }
        ids.push(best as i64);
        probs.push(row[best]);
    }
    let full = ctc_decode(&dict(), &singles(&logits), 40, 5);
    let compact = ctc_decode_compact(&dict(), &ids, &singles(&probs));
    assert_eq!(full.0, compact.0);
    assert_eq!(full.1.to_bits(), compact.1.to_bits());
}

#[test]
fn widths_follow_the_aspect() {
    assert_eq!(scaled_width(96, 48), 96);
    assert_eq!(scaled_width(100, 30), 160);
    assert_eq!(scaled_width(1, 1000), 1);
    assert_eq!(scaled_width(100000, 10), 3200);
    for (w, h) in [(17u32, 23u32), (333, 31), (5, 48), (4000, 61)] {
        let want = ((48.0 * w as f32 / h as f32).round() as u32).clamp(1, 3200);
        assert_eq!(scaled_width(w, h), want);
    }
}

#[test]
fn lines_are_scaled_and_normalised() {
    let image = picture(40, 20, 1);
    let input = resize_norm(&image);
    assert_eq!(input.width, 96);
    let source = image::RgbImage::from_raw(40, 20, image.data.clone()).unwrap();
    let resized = image::imageops::resize(&source, 96, 48, FilterType::Triangle);
    let plane = 96 * 48;
    assert_eq!(input.data.len(), 3 * plane);
    for (i, px) in resized.as_raw().chunks_exact(3).enumerate() {
        for c in 0..3 {
            let want = (px[2 - c] as f32 / 255.0 - 0.5) / 0.5;
            assert_eq!(f(input.data[c * plane + i]), want);
        }
    }
}

#[test]
fn planes_are_blue_green_red() {
    let image = RgbImage { width: 2, height: 1, data: vec![255, 0, 51, 0, 255, 102] };
    let got: Vec<f32> = normalise_line(&image).iter().map(|v| f(*v)).collect();
    assert_eq!(got, [(0.2 - 0.5) / 0.5, (0.4 - 0.5) / 0.5, -1.0, 1.0, 1.0, -1.0]);
}

#[test]
fn batches_go_by_width() {
    let images = vec![
        picture(96, 48, 1),
        picture(0, 48, 2),
        picture(20, 40, 3), // 24 wide
        picture(24, 48, 4), // 24 wide
        picture(48, 48, 5),
        picture(10, 48, 6),
    ];
    let inputs = prepare(&images);
    assert!(inputs[1].is_none());
    let batches = plan_batches(&inputs, 2);
    let members: Vec<Vec<usize>> = batches.iter().map(|b| b.members.clone()).collect();
    assert_eq!(members, [vec![5, 2], vec![3, 4], vec![0]]);
    assert_eq!(batches.iter().map(|b| b.width).collect::<Vec<_>>(), [24, 48, 96]);
    for batch in &batches {
        assert_eq!(batch.data.len(), batch.members.len() * 144 * batch.width);
        for (k, &i) in batch.members.iter().enumerate() {
            let input = inputs[i].as_ref().unwrap();
            for row in 0..144 {
                for column in 0..batch.width {
                    let got = batch.data[(k * 144 + row) * batch.width + column];
                    let want = if column < input.width {
                        input.data[row * input.width + column].to_bits()
                    } else {
                        0
                    };
                    assert_eq!(got.to_bits(), want);
                }
            }
        }
    }
    assert!(plan_batches(&prepare(&vec![picture(0, 0, 0)]), 8).is_empty());
}

#[test]
fn readings_come_in_the_order_of_the_pictures() {
    let names = vec!["token_ids".to_string(), "token_probs".to_string()];
    let reader = TextRecognizer::new(&names, "a\nb\nc\n").with_batch_size(2);
    assert!(reader.compact_output);
    let images = vec![picture(96, 48, 1), picture(0, 1, 2), picture(24, 48, 3), picture(48, 48, 4)];
    let batches = plan_batches(&prepare(&images), reader.batch_size);
    assert_eq!(batches[0].members, [2, 3]);
    assert_eq!(batches[1].members, [0]);
    let outputs = vec![
        LineOutput::Compact {
            steps: 2,
            ids: vec![1, 0, 2, 3],
            probs: singles(&[0.5, 0.1, 0.25, 0.75]),
        },
        LineOutput::Compact { steps: 3, ids: vec![3, 3, 1], probs: singles(&[1.0, 0.1, 0.5]) },
    ];
    let read = reader.read_batches(images.len(), &batches, &outputs);
    let view: Vec<(&str, f32)> = read.iter().map(|r| (r.0.as_str(), f(r.1))).collect();
    assert_eq!(view, [("ca", 0.75), ("", 0.0), ("a", 0.5), ("bc", 0.5)]);
}

#[test]
fn full_answers_are_read_row_by_row() {
    let reader = TextRecognizer::new(&vec!["fetch_name_0".to_string()], "a\nb");
    assert!(!reader.compact_output);
    assert_eq!(reader.batch_size, 8);
    let images = vec![picture(30, 48, 1), picture(24, 48, 2)];
    let batches = plan_batches(&prepare(&images), 8);
    assert_eq!(batches[0].members, [1, 0]);
    let logits = singles(&[
        0.0, 0.9, 0.1, 0.8, 0.1, 0.1, // picture 1: `a`, blank
        0.0, 0.1, 0.5, 0.0, 0.25, 0.2, // picture 0: `b`, `a`
    ]);
    let outputs = vec![LineOutput::Full { steps: 2, classes: 3, logits }];
    let read = reader.read_batches(2, &batches, &outputs);
    assert_eq!((read[0].0.as_str(), f(read[0].1)), ("ba", 0.375));
    assert_eq!((read[1].0.as_str(), f(read[1].1)), ("a", 0.9));
}

#[test]
fn single_pictures_are_read_alone() {
    let reader = TextRecognizer::new(&vec![], "a\nb");
    assert!(reader.input(&picture(5, 0, 1)).is_none());
    assert_eq!(reader.input(&picture(48, 48, 1)).unwrap().width, 48);
    let output = LineOutput::Compact { steps: 9, ids: vec![1, 2], probs: singles(&[0.5, 1.0]) };
    let (text, conf) = reader.read_single(&output);
    assert_eq!((text.as_str(), f(conf)), ("ab", 0.75));
    let output =
        LineOutput::Full { steps: 1, classes: 3, logits: singles(&[0.0, 0.1, 0.2, 0.9, 0.9, 0.9]) };
    let (text, conf) = reader.read_single(&output);
    assert_eq!((text.as_str(), f(conf)), ("b", 0.2));
}

#[test]
fn batch_sizes_are_at_least_one() {
    let reader = TextRecognizer::new(&vec![], "");
    assert!(reader.dict.is_empty());
    assert_eq!(reader.with_batch_size(0).batch_size, 1);
}

#[test]
fn lines_are_split_like_the_standard_library() {
    let texts = [
        "", "\n", "a", "a\n", "a\nb", "a\r\nb\r\n", "\n\n", "\r", "a\r", "a\r\r\nb", "\r\n\r\n",
        "é\n\u{1F600}\r\n漢字", "a\n\nb\n\n",
    ];
    for text in texts {
        let want: Vec<String> = text.lines().map(str::to_owned).collect();
        assert_eq!(split_lines(text), want, "{text:?}");
    }
}

#[test]
fn answers_that_are_too_short_are_told() {
    let compact = |ids: usize, probs: usize| LineOutput::Compact {
        steps: 3,
        ids: vec![0; ids],
        probs: vec![s(0.0); probs],
    };
    assert!(compact(0, 0).is_complete());
    assert!(compact(6, 6).has_answers(2) && compact(7, 6).has_answers(2));
    assert!(!compact(5, 6).has_answers(2) && !compact(6, 5).has_answers(2));
    let full = |length: usize| LineOutput::Full {
        steps: 3,
        classes: 2,
        logits: vec![s(0.0); length],
    };
    assert!(full(6).is_complete() && !full(5).is_complete());
    assert!(full(12).has_answers(2) && !full(11).has_answers(2) && full(0).has_answers(0));
    let endless =
        LineOutput::Full { steps: usize::MAX, classes: usize::MAX, logits: vec![s(0.0)] };
    assert!(!endless.is_complete() && !endless.has_answers(1) && endless.has_answers(0));
}

#[test]
fn a_picture_alone_is_read_as_in_a_batch() {
    let names = vec!["token_ids".to_string()];
    let reader = TextRecognizer::new(&names, "a\nb\n");
    let image = picture(70, 30, 9);
    let alone = reader.input(&image).unwrap();
    let batches = plan_batches(&prepare(&vec![image]), reader.batch_size);
    assert_eq!(batches.len(), 1);
    assert_eq!(batches[0].members, [0]);
    assert_eq!(batches[0].width, alone.width);
    assert_eq!(batches[0].data, alone.data);
    let answer = || LineOutput::Compact {
        steps: 4,
        ids: vec![1, 1, 0, 2],
        probs: singles(&[0.5, 0.9, 0.1, 0.7]),
    };
    let read = reader.read_batches(1, &batches, &vec![answer()]);
    assert_eq!(read, [reader.read_single(&answer())]);
    assert_eq!(read[0].0, "ab");
    // what comes after its row shows nothing, or all classes are given
    let longer = || LineOutput::Compact {
        steps: 4,
        ids: vec![1, 1, 0, 2, 2, 0, 7],
        probs: singles(&[0.5, 0.9, 0.1, 0.7, 0.2, 0.3]),
    };
    assert_eq!(reader.read_single(&longer()), read[0]);
    assert_eq!(reader.read_batches(1, &batches, &vec![longer()]), read);
    let full = || LineOutput::Full {
        steps: 2,
        classes: 3,
        logits: singles(&[0.1, 0.8, 0.1, 0.2, 0.2, 0.6, 0.0, 1.0, 0.0]),
    };
    assert_eq!(reader.read_batches(1, &batches, &vec![full()]), [reader.read_single(&full())]);
    assert_eq!(reader.read_single(&full()).0, "ab");
    // without pixels it is not fed at all
    let none = RgbImage { width: 0, height: 5, data: vec![] };
    assert!(reader.input(&none).is_none());
    let batches = plan_batches(&prepare(&vec![none]), 8);
    assert!(batches.is_empty());
    assert_eq!(reader.read_batches(1, &batches, &vec![]), [(String::new(), s(0.0))]);
}
