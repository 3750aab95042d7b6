use fusion_ocr::ocr::text::detection::{
    can_read_map, can_score, masked_mean, normalise_page, quad_score, TextDetector, TextLine,
};
use fusion_ocr::ocr::text::sizes::resize_for_test;
use fusion_ocr::ocr::text::geometry::Quad;
use fusion_ocr::ocr::text::reading::sort_reading_order;
use fusion_ocr::raster::{GrayImage, RgbImage};
use fusion_ocr::single::Single;
use image::imageops::FilterType;

fn s(v: f32) -> Single {
    Single::from_bits(v.to_bits())
}

fn f(v: Single) -> f32 {
    f32::from_bits(v.to_bits())
}

fn quad(list: [(f32, f32); 4]) -> Quad {
    list.map(|p| (s(p.0), s(p.1)))
}

fn line(b: [f32; 4]) -> TextLine {
    TextLine { bbox: b.map(s), score: s(0.5) }
}

/// A map with the given rectangles `[x1, y1, x2, y2)` at a probability.
fn map(pw: usize, ph: usize, boxes: &[([usize; 4], f32)]) -> Vec<Single> {
    let mut pred = vec![s(0.05); pw * ph];
    for (b, v) in boxes {
        for y in b[1]..b[3] {
            for x in b[0]..b[2] {
                pred[y * pw + x] = s(*v);
            }
        }
    }
    pred
}

#[test]
fn settings_are_those_of_the_model() {
    let d = TextDetector::new();
    assert_eq!(f(d.thresh), 0.2);
    assert_eq!(f(d.box_thresh), 0.4);
    assert_eq!(f(d.unclip_ratio), 1.4);
    assert_eq!(d.max_candidates, 3000);
    assert_eq!(f(d.min_box_size), 3.0);
    assert_eq!(d.max_det_side, 1280);
    assert_eq!(d.with_max_det_side(10).max_det_side, 736);
    assert_eq!(d.with_max_det_side(100_000).max_det_side, 4000);
    assert_eq!(d.with_max_det_side(960).max_det_side, 960);
}

fn plain_size(w: u32, h: u32, most: u32) -> (u32, u32) {
    let mut ratio = if w.min(h) < 736 { 736.0 / w.min(h) as f32 } else { 1.0 };
    if w.max(h) as f32 * ratio > most as f32 {
        ratio = most as f32 / w.max(h) as f32;
    }
    let cap = (most / 32).max(1) * 32;
    let side = |v: u32| (((v as f32 * ratio) / 32.0).round().max(1.0) as u32 * 32).min(cap);
    let (mut rw, mut rh) = (side(w), side(h));
    if rw.max(rh) > 4000 {
        let scale = 4000.0 / rw.max(rh) as f32;
        rw = ((rw as f32 * scale) as u32 / 32).max(1) * 32;
        rh = ((rh as f32 * scale) as u32 / 32).max(1) * 32;
    }
    (rw, rh)
}

#[test]
fn pages_are_fed_at_multiples_of_32() {
    assert_eq!(resize_for_test(736, 736, 1280), (736, 736));
    assert_eq!(resize_for_test(1000, 800, 1280), (992, 800));
    assert_eq!(resize_for_test(2480, 3508, 1280), (896, 1280));
    assert_eq!(resize_for_test(100, 100, 1280), (736, 736));
    assert_eq!(resize_for_test(1, 1_000_000, 1280), (32, 1280));
    // no side exceeds the limit, though it would be rounded up below it
    assert_eq!(resize_for_test(784, 784, 1280), (800, 800));
    assert_eq!(resize_for_test(784, 784, 784), (768, 768));
    assert_eq!(resize_for_test(784, 784, 800), (800, 800));
    assert_eq!(resize_for_test(5000, 4000, 3999), (3968, 3200));
    let mut state = 5u64;
    for _ in 0..20_000 {
        state = state.wrapping_mul(6364136223846793005).wrapping_add(1442695040888963407);
        let (a, b) = ((state >> 20) as u32, (state >> 44) as u32);
        let (w, h) = (a % 9000 + 1, b % 9000 + 1);
        let most = 736 + a % 3265;
        let got = resize_for_test(w, h, most);
        assert_eq!(got, plain_size(w, h, most));
        assert!(got.0 % 32 == 0 && got.1 % 32 == 0);
        assert!(got.0 <= most && got.1 <= most && got.0 >= 32 && got.1 >= 32);
    }
}

#[test]
fn small_pages_are_enlarged() {
    for (w, h) in [(1, 1), (700, 1200), (735, 735), (100, 150), (333, 512), (736, 1280)] {
        let (rw, rh) = resize_for_test(w, h, 1280);
        assert!(rw >= 736 && rh >= 736 && rw <= 1280 && rh <= 1280);
    }
    assert_eq!(resize_for_test(735, 735, 1280), (736, 736));
    assert_eq!(resize_for_test(100, 149, 1280), (736, 1088));
    // unless the longer side would exceed the limit
    assert_eq!(resize_for_test(100, 400, 1280), (320, 1280));
}

#[test]
fn very_long_limits_shrink_to_4000() {
    let got = resize_for_test(5000, 3000, 6000);
    assert_eq!(got, plain_size(5000, 3000, 6000));
    assert_eq!(got.0, 4000);
}

#[test]
fn pages_are_scaled_and_normalised() {
    let data: Vec<u8> = (0..3 * 90 * 70u32).map(|i| (i * 7 % 256) as u8).collect();
    let page = RgbImage { width: 90, height: 70, data: data.clone() };
    let input = TextDetector::new().input(&page).unwrap();
    assert_eq!((input.width, input.height), resize_for_test(90, 70, 1280));
    let source = image::RgbImage::from_raw(90, 70, data).unwrap();
    let resized =
        image::imageops::resize(&source, input.width, input.height, FilterType::Triangle);
    let plane = (input.width * input.height) as usize;
    let (mean, std) = ([0.485f32, 0.456, 0.406], [0.229f32, 0.224, 0.225]);
    for (i, px) in resized.as_raw().chunks_exact(3).enumerate() {
        for c in 0..3 {
            let want = (px[2 - c] as f32 / 255.0 - mean[c]) / std[c];
            assert_eq!(f(input.data[c * plane + i]), want);
        }
    }
    let empty = RgbImage { width: 0, height: 3, data: vec![] };
    assert!(TextDetector::new().input(&empty).is_none());
}

#[test]
fn planes_are_normalised_one_by_one() {
    let page = RgbImage { width: 1, height: 1, data: vec![255, 102, 51] };
    let got: Vec<f32> = normalise_page(&page).iter().map(|v| f(*v)).collect();
    let want = [
        (51f32 / 255.0 - 0.485) / 0.229,
        (102f32 / 255.0 - 0.456) / 0.224,
        (255f32 / 255.0 - 0.406) / 0.225,
    ];
    assert_eq!(got, want);
}

#[test]
fn masks_pick_what_is_averaged() {
    let pred: Vec<Single> = (0..12).map(|i| s(i as f32)).collect();
    let mask = GrayImage { width: 2, height: 2, data: vec![1, 0, 0, 255] };
    // of a map four wide: columns 1 and 2 of rows 1 and 2
    assert_eq!(f(masked_mean(&pred, 4, 1, 1, &mask)), (5.0 + 10.0) / 2.0);
    let none = GrayImage { width: 2, height: 2, data: vec![0; 4] };
    assert_eq!(f(masked_mean(&pred, 4, 1, 1, &none)), 0.0);
}

#[test]
fn scores_are_means_within_rectangles() {
    let pred = map(20, 10, &[([3, 2, 12, 7], 0.75)]);
    let inner = quad([(3.0, 2.0), (11.0, 2.0), (11.0, 6.0), (3.0, 6.0)]);
    assert!(can_score(20, 10, &inner));
    assert_eq!(f(quad_score(&pred, 20, 10, &inner)), 0.75);
    // one column more: nine of ten columns are likely
    let wide = quad([(3.0, 2.0), (12.0, 2.0), (12.0, 6.0), (3.0, 6.0)]);
    let got = f(quad_score(&pred, 20, 10, &wide));
    assert!((got - (0.75 * 9.0 + 0.05) / 10.0).abs() < 1e-6);
    // outside of the map only the edge is left
    let out = quad([(18.0, 8.0), (30.0, 8.0), (30.0, 20.0), (18.0, 20.0)]);
    assert!((f(quad_score(&pred, 20, 10, &out)) - 0.05).abs() < 1e-6);
}

#[test]
fn rectangles_that_cannot_be_drawn_are_told() {
    let closed = quad([(3.0, 2.0), (9.0, 2.0), (9.0, 6.0), (3.0, 2.0)]);
    assert!(!can_score(20, 10, &closed));
    // the distance between two corners is no 32-bit number
    let tall = quad([(3.0, -1.6e9), (9.0, 1.6e9), (9.0, 6.0), (3.0, 6.0)]);
    assert!(!can_score(20, 10, &tall));
    let outermost = quad([(3.0, 2.0), (1e12, 2.0), (9.0, 6.0), (3.0, 6.0)]);
    assert!(!can_score(20, 10, &outermost));
    let none = quad([(f32::NAN, f32::NAN); 4]);
    assert!(!can_score(20, 10, &none) && !can_score(2, 2, &none));
}

#[test]
fn rectangles_beyond_the_map_score_nothing() {
    let pred = map(20, 10, &[]);
    let scores_nothing = |q: [(f32, f32); 4]| {
        let q = quad(q);
        can_score(20, 10, &q) && f(quad_score(&pred, 20, 10, &q)) == 0.0
    };
    let (x, w) = (1.5e9f32, 1024.0f32);
    assert!(scores_nothing([(x, 2.0), (x + w, 2.0), (x + w, 6.0), (x, 6.0)]));
    let far = f32::INFINITY;
    assert!(scores_nothing([(3.0, far), (9.0, far), (9.0, far), (4.0, far)]));
    assert!(scores_nothing([(far, 2.0), (far, 3.0), (far, 6.0), (far, 5.0)]));
    // no column of a map of two is spanned
    let (pred, n) = (map(2, 10, &[]), f32::NAN);
    let thin = quad([(n, 2.0), (n, 2.0), (n, 6.0), (n, 6.0)]);
    assert!(can_score(2, 10, &thin) && !can_score(3, 10, &thin));
    assert_eq!(f(quad_score(&pred, 2, 10, &thin)), 0.0);
    // no row of a map of two is spanned, and a corner must not be put there
    let (pred, flat) = (map(20, 2, &[]), [(-90.0, n), (-80.0, n), (-80.0, n), (-89.0, n)]);
    assert!(can_score(20, 2, &quad(flat)));
    assert_eq!(f(quad_score(&pred, 20, 2, &quad(flat))), 0.0);
    assert!(!can_score(20, 2, &quad([(3.0, n), (9.0, n), (9.0, n), (4.0, n)])));
}

#[test]
fn maps_that_cannot_be_read_are_told() {
    let pred = vec![s(0.0); 12];
    assert!(can_read_map(&pred, 4, 3) && can_read_map(&pred, 1, 1));
    assert!(!can_read_map(&pred, 4, 4) && !can_read_map(&pred, 0, 3) && !can_read_map(&pred, 3, 0));
    assert!(!can_read_map(&pred, usize::MAX, usize::MAX));
}

#[test]
fn lines_are_found_on_a_map() {
    let d = TextDetector::new();
    let pred = map(
        100,
        60,
        &[([10, 10, 60, 20], 0.9), ([10, 40, 90, 50], 0.6), ([70, 10, 95, 20], 0.9)],
    );
    let lines = d.lines(200, 120, 100, 60, &pred).unwrap();
    assert_eq!(lines.len(), 3);
    for l in &lines {
        let b = l.bbox.map(f);
        assert!(0.0 <= b[0] && b[0] < b[2] && b[2] <= 200.0);
        assert!(0.0 <= b[1] && b[1] < b[3] && b[3] <= 120.0);
    }
    // the rectangle 49 by 9 grows by 49 * 9 * 1.4 / 116 and doubles
    let grown = 49.0f32 * 9.0 * 1.4 / 116.0;
    let first = lines[0].bbox.map(f);
    assert!((first[0] - 2.0 * (10.0 - grown)).abs() < 1e-3);
    assert!((first[2] - 2.0 * (59.0 + grown)).abs() < 1e-3);
    assert!((f(lines[0].score) - 0.9).abs() < 1e-5);
    for l in &lines {
        let b = l.bbox.map(f);
        assert!(f(l.score) >= f(d.box_thresh) && b[2] - b[0] >= 1.0 && b[3] - b[1] >= 1.0);
    }
    // left to right on a baseline, then down
    assert!(f(lines[1].bbox[0]) > 100.0 && f(lines[2].bbox[1]) > 60.0);
}

#[test]
fn unlikely_and_small_regions_are_dropped() {
    let d = TextDetector::new();
    let boxes = [([10, 10, 40, 20], 0.35), ([60, 10, 62, 40], 0.9), ([80, 10, 81, 11], 0.9)];
    assert!(d.lines(100, 60, 100, 60, &map(100, 60, &boxes)).unwrap().is_empty());
    assert!(d.lines(100, 60, 0, 60, &vec![]).unwrap().is_empty());
    assert!(d.lines(100, 60, 100, 60, &map(100, 60, &[])).unwrap().is_empty());
    // a map without likely pixels shows no line, "not a number" is not likely
    let below = vec![s(0.2); 12];
    assert!(d.lines(40, 30, 4, 3, &below).unwrap().is_empty());
    assert!(d.lines(40, 30, 4, 3, &vec![s(f32::NAN); 12]).unwrap().is_empty());
    // at most so many borders are looked at
    let mut few = d;
    few.max_candidates = 1;
    let two = [([10, 10, 40, 20], 0.9), ([60, 10, 90, 20], 0.9)];
    assert_eq!(few.lines(100, 60, 100, 60, &map(100, 60, &two)).unwrap().len(), 1);
}

#[test]
fn borders_become_candidates() {
    let d = TextDetector::new();
    let pred = map(40, 30, &[([4, 4, 30, 14], 0.8)]);
    let border = vec![(5, 5), (30, 5), (30, 14), (5, 14)];
    let got = d.candidate(40, 30, 40, 30, &pred, &border).unwrap().unwrap();
    assert!((f(got.score) - 0.8).abs() < 1e-5);
    assert!(d.candidate(40, 30, 40, 30, &pred, &vec![(5, 5), (30, 5), (30, 14)]).unwrap().is_none());
    let lines = d.lines_from_borders(40, 30, 40, 30, &pred, &vec![border.clone(), border]).unwrap();
    assert_eq!(lines.len(), 2);
    assert_eq!(lines[0].bbox.map(f), got.bbox.map(f));
}

#[test]
fn maps_of_moderate_size_can_always_be_read() {
    let mut seed = 7u32;
    let mut next = || {
        seed = seed.wrapping_mul(1_664_525).wrapping_add(1_013_904_223);
        seed >> 16
    };
    let mut d = TextDetector::new();
    d.max_candidates = 20;
    for (pw, ph) in [(1, 1), (1, 40), (64, 3), (48, 48), (90, 70)] {
        for share in [2, 5, 9] {
            let pred: Vec<Single> = (0..pw * ph)
                .map(|_| if next() % 10 < share { s(0.9) } else { s(0.1) })
                .collect();
            let lines = d.lines(300, 200, pw, ph, &pred).unwrap();
            assert!(lines.len() <= 20);
            for l in &lines {
                let b = l.bbox.map(f);
                assert!(0.0 <= b[0] && b[0] < b[2] && b[2] <= 300.0);
                assert!(0.0 <= b[1] && b[1] < b[3] && b[3] <= 200.0);
            }
        }
    }
}

#[test]
fn tilted_lines_are_found() {
    // a band along y = 20 + x / 4
    let (pw, ph) = (120usize, 80usize);
    let mut pred = vec![s(0.0); pw * ph];
    for y in 0..ph {
        for x in 10..110 {
            let centre = 20.0 + x as f32 / 4.0;
            if (y as f32 - centre).abs() <= 5.0 {
                pred[y * pw + x] = s(0.5 + (x % 7) as f32 / 16.0);
            }
        }
    }
    let d = TextDetector::new();
    let lines = d.lines(360, 240, pw, ph, &pred).unwrap();
    assert_eq!(lines.len(), 1);
    let b = lines[0].bbox.map(f);
    assert!(b[0] < 30.0 && b[2] > 325.0 && b[1] < 60.0 && b[3] > 150.0);
    assert!(b[0] >= 0.0 && b[3] <= 240.0);
    assert!((0.5..0.9).contains(&f(lines[0].score)));
}

#[test]
fn reading_order_goes_down_and_then_right() {
    let mut lines = vec![
        line([50.0, 12.0, 90.0, 20.0]),
        line([5.0, 15.0, 40.0, 23.0]),
        line([5.0, 60.0, 40.0, 70.0]),
        line([100.0, 5.0, 140.0, 14.0]),
        line([0.0, 40.0, 40.0, 50.0]),
    ];
    sort_reading_order(&mut lines);
    let lefts: Vec<f32> = lines.iter().map(|l| f(l.bbox[0])).collect();
    // 50 passes 100, which lies seven pixels higher; 5 lies ten pixels lower and stays
    let mut want: Vec<(f32, f32)> =
        vec![(50.0, 12.0), (5.0, 15.0), (5.0, 60.0), (100.0, 5.0), (0.0, 40.0)];
    want.sort_by(|a, b| (a.1, a.0).partial_cmp(&(b.1, b.0)).unwrap());
    for i in 0..want.len() - 1 {
        for j in (0..=i).rev() {
            if (want[j + 1].1 - want[j].1).abs() < 10.0 && want[j + 1].0 < want[j].0 {
                want.swap(j, j + 1);
            } else {
                break;
            }
        }
    }
    assert_eq!(lefts, want.iter().map(|w| w.0).collect::<Vec<_>>());
    assert_eq!(lefts, [50.0, 100.0, 5.0, 0.0, 5.0]);
}

#[test]
fn reading_order_never_goes_up_beyond_a_baseline() {
    let mut seed = 3u32;
    let mut next = |n: u32| {
        seed = seed.wrapping_mul(1_664_525).wrapping_add(1_013_904_223);
        ((seed >> 16) % n) as f32
    };
    for round in 0..60 {
        let mut lines: Vec<TextLine> = (0..round)
            .map(|_| {
                let (x, y) = (next(300), next(90));
                line([x, y, x + 20.0, y + 8.0])
            })
            .collect();
        let mut before: Vec<[u32; 4]> = lines.iter().map(|l| l.bbox.map(|v| v.bits)).collect();
        sort_reading_order(&mut lines);
        let mut after: Vec<[u32; 4]> = lines.iter().map(|l| l.bbox.map(|v| v.bits)).collect();
        let corners: Vec<(f32, f32)> = lines.iter().map(|l| (f(l.bbox[0]), f(l.bbox[1]))).collect();
        for j in 0..corners.len() {
            for i in 0..j {
                assert!(corners[i].1 - corners[j].1 < 10.0);
            }
            if j > 0 && (corners[j].1 - corners[j - 1].1).abs() < 10.0 {
                assert!(corners[j - 1].0 <= corners[j].0);
            }
        }
        before.sort();
        after.sort();
        assert_eq!(before, after);
    }
}

#[test]
fn reading_order_of_few_lines() {
    let mut none: Vec<TextLine> = vec![];
    sort_reading_order(&mut none);
    assert!(none.is_empty());
    let mut one = vec![line([f32::NAN, 1.0, 2.0, 3.0])];
    sort_reading_order(&mut one);
    assert_eq!(one.len(), 1);
    let mut same = vec![line([1.0, 1.0, 7.0, 3.0]), line([1.0, 1.0, 5.0, 3.0])];
    sort_reading_order(&mut same);
    assert_eq!(f(same[0].bbox[2]), 7.0);
}
