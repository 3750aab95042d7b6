use fusion_ocr::ocr::layout::predictor::{LayoutBox, LABELS};
use fusion_ocr::ocr::text::detection::TextLine;
use fusion_ocr::pipeline::crops::{
    can_crop, crop, crop_formula, crop_with_padding, cut_all, fill_formula, fill_text, list_cuts, Cut,
};
use fusion_ocr::pipeline::engine::paragraphs;
use fusion_ocr::pipeline::labels::{
    is_multiline_text_label, is_single_line_label, is_text_label, markdown_text,
};
use fusion_ocr::pipeline::paths::ModelLoad;
use fusion_ocr::pipeline::regions::{area, can_compare, can_sort, inside, keep_enabled, sort_regions};
use fusion_ocr::raster::RgbImage;
use fusion_ocr::single::Single;
use fusion_ocr::{
    FusionOcr, FusionOcrConfig, FusionOcrModelPaths, LayoutClassConfig, StageTiming,
};
use std::path::PathBuf;

fn s(v: f32) -> Single {
    Single::from_bits(v.to_bits())
}

fn f(v: Single) -> f32 {
    f32::from_bits(v.to_bits())
}

fn bbox(b: [f32; 4]) -> [Single; 4] {
    [s(b[0]), s(b[1]), s(b[2]), s(b[3])]
}

fn region(id: usize, b: [f32; 4]) -> LayoutBox {
    LayoutBox { label_id: id, label: LABELS[id], score: s(0.9), bbox: bbox(b) }
}

fn line(b: [f32; 4]) -> TextLine {
    TextLine { bbox: bbox(b), score: s(0.8) }
}

fn id(label: &str) -> usize {
    LABELS.iter().position(|l| *l == label).unwrap()
}

/// A page whose pixel at `x`, `y` has the bytes `x`, `y` and `x + y`.
fn page(width: u32, height: u32) -> RgbImage {
    let mut data = Vec::new();
    for y in 0..height {
        for x in 0..width {
            data.push(x as u8);
            data.push(y as u8);
            data.push((x + y) as u8);
        }
    }
    RgbImage { width, height, data }
}

#[test]
fn basic_enables_core_labels() {
    let classes = LayoutClassConfig::basic();
    for label in LABELS {
        assert_eq!(
            classes.is_enabled(label),
            matches!(
                label,
                "paragraph_title" | "text" | "doc_title" | "abstract" | "figure_title"
            )
        );
    }
}

#[test]
fn default_thresholds_and_batch_size() {
    let config = FusionOcrConfig::default();
    assert_eq!(f(config.layout_confidence_threshold), 0.4);
    assert_eq!(f(config.rec_confidence_threshold), 0.0);
    assert_eq!(config.rec_batch_size, 8);
}

#[test]
fn markdown_formats_titles() {
    assert_eq!(markdown_text("doc_title", &vec!["Hello".into()]), "# Hello");
    assert_eq!(markdown_text("paragraph_title", &vec!["Hello".into()]), "## Hello");
    assert_eq!(markdown_text("text", &vec!["a".into(), "b".into()]), "a\nb");
}

#[test]
fn builders_clamp_invalid_values() {
    let config = FusionOcrConfig::basic()
        .with_layout_confidence_threshold(s(1.5))
        .with_rec_confidence_threshold(s(-0.5))
        .with_rec_batch_size(0);
    assert_eq!(f(config.layout_confidence_threshold), 1.0);
    assert_eq!(f(config.rec_confidence_threshold), 0.0);
    assert_eq!(config.rec_batch_size, 1);
}

#[test]
fn classes_can_be_changed_by_label() {
    let classes = LayoutClassConfig::basic()
        .with_enabled("text", false)
        .with_enabled("formula", true)
        .with_enabled("abstract", true);
    assert!(!classes.text);
    assert!(classes.formula);
    assert!(classes.abstract_);
}

#[test]
fn single_line_only_does_not_need_det() {
    let classes = LayoutClassConfig::none().with_enabled("paragraph_title", true);
    assert!(classes.needs_rec_model());
    assert!(!classes.needs_det_model());
}

#[test]
fn figure_title_is_recognized_when_enabled() {
    let classes = LayoutClassConfig::none().with_enabled("figure_title", true);
    assert!(classes.needs_rec_model());
    assert!(classes.needs_det_model());
}

#[test]
fn formula_does_not_enable_text_models() {
    let classes = LayoutClassConfig::none().with_enabled("formula", true);
    assert!(!classes.needs_rec_model());
    assert!(!classes.needs_det_model());
}

#[test]
fn setting_a_class_leaves_the_others() {
    for label in LABELS {
        for enabled in [false, true] {
            let before = if enabled { LayoutClassConfig::none() } else { LayoutClassConfig::all() };
            let mut after = before;
            assert!(after.set_enabled(label, enabled));
            for other in LABELS {
                let want = if other == label { enabled } else { before.is_enabled(other) };
                assert_eq!(after.is_enabled(other), want);
            }
        }
    }
}

#[test]
fn unknown_classes_are_refused() {
    let mut classes = LayoutClassConfig::all();
    assert!(!classes.set_enabled("unknown", false));
    assert_eq!(classes, LayoutClassConfig::all());
    assert!(!classes.is_enabled("unknown"));
    assert!(!classes.is_enabled("Text"));
    assert!(!classes.is_enabled(""));
    assert_eq!(LayoutClassConfig::default(), LayoutClassConfig::basic());
}

#[test]
fn labels_hold_text_or_not() {
    let single = [
        "paragraph_title", "number", "doc_title", "footnote", "header", "algorithm", "footer",
        "formula_number",
    ];
    let multi = [
        "text", "abstract", "content", "figure_title", "reference", "aside_text",
        "reference_content",
    ];
    for label in LABELS {
        assert_eq!(is_single_line_label(label), single.contains(&label));
        assert_eq!(is_multiline_text_label(label), multi.contains(&label));
        assert_eq!(is_text_label(label), single.contains(&label) || multi.contains(&label));
    }
    assert!(!is_text_label("formula"));
    assert!(!is_text_label(""));
}

#[test]
fn markdown_of_nothing_is_nothing() {
    assert_eq!(markdown_text("doc_title", &vec![]), "");
    assert_eq!(markdown_text("text", &vec![]), "");
    assert_eq!(markdown_text("doc_title", &vec!["a".into(), "b".into()]), "# a b");
    assert_eq!(markdown_text("paragraph_title", &vec!["a".into(), "b".into()]), "## a b");
    assert_eq!(markdown_text("seal", &vec!["x".into()]), "x");
}

#[test]
fn thresholds_within_range_stay() {
    let config = FusionOcrConfig::default().with_layout_confidence_threshold(s(0.25));
    assert_eq!(f(config.layout_confidence_threshold), 0.25);
    let nan = FusionOcrConfig::default().with_rec_confidence_threshold(s(f32::NAN));
    assert!(f(nan.rec_confidence_threshold).is_nan());
    assert_eq!(FusionOcrConfig::default().with_rec_batch_size(3).rec_batch_size, 3);
}

#[test]
fn paths_are_kept() {
    let paths = FusionOcrModelPaths::new("layout.onnx");
    assert_eq!(paths.layout_model, PathBuf::from("layout.onnx"));
    assert!(paths.text_det_model.is_none() && paths.formula_tokens.is_none());
    let paths = paths.with_text("det", "rec", "dict").with_formula("model", "tokens");
    assert_eq!(paths.text_det_model, Some(PathBuf::from("det")));
    assert_eq!(paths.text_rec_model, Some(PathBuf::from("rec")));
    assert_eq!(paths.text_rec_dict, Some(PathBuf::from("dict")));
    assert_eq!(paths.formula_model, Some(PathBuf::from("model")));
    assert_eq!(paths.formula_tokens, Some(PathBuf::from("tokens")));
    // in either order
    let other = FusionOcrModelPaths::new("layout.onnx")
        .with_formula("model", "tokens")
        .with_text("det", "rec", "dict");
    assert_eq!(format!("{other:?}"), format!("{paths:?}"));
    let copy = paths.clone();
    assert_eq!(copy.layout_model, paths.layout_model);
    assert_eq!(copy.formula_model, paths.formula_model);
    assert_eq!(copy.text_rec_dict, paths.text_rec_dict);
}

#[test]
fn models_are_loaded_as_needed() {
    let paths = FusionOcrModelPaths::new("layout")
        .with_text("det", "rec", "dict")
        .with_formula("model", "tokens");
    let mut config = FusionOcrConfig::basic().with_rec_batch_size(5);
    config.classes = LayoutClassConfig::all();
    let (ocr, plan) = FusionOcr::new(&paths, config);
    assert!(plan.missing.is_none());
    assert_eq!(plan.loads.len(), 4);
    assert!(matches!(&plan.loads[0], ModelLoad::Layout { model, threshold }
        if *model == PathBuf::from("layout") && f(*threshold) == 0.4));
    assert!(matches!(&plan.loads[1], ModelLoad::Detector { model }
        if *model == PathBuf::from("det")));
    assert!(matches!(&plan.loads[2], ModelLoad::Recognizer { model, dict, batch_size }
        if *model == PathBuf::from("rec") && *dict == PathBuf::from("dict") && *batch_size == 5));
    assert!(matches!(&plan.loads[3], ModelLoad::Formula { model, tokens }
        if *model == PathBuf::from("model") && *tokens == PathBuf::from("tokens")));
    assert_eq!(ocr.last_timing(), StageTiming::default());

    config.classes = LayoutClassConfig::none();
    let (_, plan) = FusionOcr::new(&FusionOcrModelPaths::new("layout"), config);
    assert!(plan.missing.is_none());
    assert_eq!(plan.loads.len(), 1);
}

#[test]
fn missing_paths_are_named() {
    let mut config = FusionOcrConfig::basic();
    let only = FusionOcrModelPaths::new("layout");
    let message = |paths: &FusionOcrModelPaths, config: FusionOcrConfig| {
        let (_, plan) = FusionOcr::new(paths, config);
        (plan.loads.len(), plan.missing.unwrap())
    };
    assert_eq!(
        message(&only, config),
        (1, "missing required model path: text_det_model".to_string())
    );
    config.classes = LayoutClassConfig::none().with_enabled("header", true);
    assert_eq!(
        message(&only, config),
        (1, "missing required model path: text_rec_model".to_string())
    );
    let mut paths = only.clone().with_text("det", "rec", "dict");
    paths.text_rec_dict = None;
    assert_eq!(
        message(&paths, config),
        (1, "missing required model path: text_rec_dict".to_string())
    );
    config.classes = LayoutClassConfig::none().with_enabled("formula", true);
    assert_eq!(
        message(&only, config),
        (1, "missing required model path: formula_model".to_string())
    );
    let mut paths = only.clone().with_formula("model", "tokens");
    paths.formula_tokens = None;
    assert_eq!(
        message(&paths, config),
        (1, "missing required model path: formula_tokens".to_string())
    );
}

#[test]
fn regions_are_kept_in_reading_order() {
    let (text, image, title) = (id("text"), id("image"), id("doc_title"));
    let boxes = vec![
        region(text, [50.0, 20.0, 90.0, 40.0]),
        region(image, [0.0, 0.0, 10.0, 10.0]),
        region(text, [5.0, 20.0, 40.0, 40.0]),
        region(title, [5.0, 3.0, 40.0, 10.0]),
        region(text, [5.0, 20.0, 60.0, 45.0]),
    ];
    let kept = keep_enabled(&boxes, &LayoutClassConfig::basic());
    assert_eq!(kept.len(), 4);
    assert!(can_sort(&kept));
    let sorted = sort_regions(&kept);
    let rights: Vec<f32> = sorted.iter().map(|r| f(r.bbox[2])).collect();
    // of the two boxes at the same place the first stays first
    assert_eq!(rights, [40.0, 40.0, 60.0, 90.0]);
    assert_eq!(sorted[0].label, "doc_title");

    let broken = vec![region(text, [0.0, f32::NAN, 1.0, 1.0]), region(text, [0.0, 0.0, 1.0, 1.0])];
    assert!(!can_sort(&broken));
    assert!(can_sort(&vec![broken[0]]));
    assert_eq!(sort_regions(&vec![broken[0]]).len(), 1);
    assert!(sort_regions(&vec![]).is_empty());
}

#[test]
fn boxes_contain_their_edges() {
    let b = bbox([1.0, 2.0, 5.0, 4.0]);
    assert!(inside(s(1.0), s(2.0), b));
    assert!(inside(s(5.0), s(4.0), b));
    assert!(!inside(s(0.99), s(3.0), b));
    assert!(!inside(s(3.0), s(4.01), b));
    assert!(!inside(s(f32::NAN), s(3.0), b));
    assert_eq!(f(area(b)), 8.0);
}

#[test]
fn lines_go_to_the_smallest_region_around_them() {
    let (text, title) = (id("text"), id("paragraph_title"));
    let regions = vec![
        region(text, [0.0, 0.0, 100.0, 100.0]),
        region(text, [0.0, 0.0, 50.0, 50.0]),
        region(title, [60.0, 60.0, 90.0, 70.0]),
        region(text, [200.0, 0.0, 300.0, 50.0]),
        region(id("image"), [0.0, 0.0, 20.0, 20.0]),
    ];
    let lines = vec![
        line([10.0, 10.0, 20.0, 20.0]),
        line([60.0, 80.0, 70.0, 84.0]),
        line([62.0, 62.0, 80.0, 68.0]),
        line([0.0, 20.0, 50.0, 30.0]),
        line([400.0, 400.0, 410.0, 410.0]),
    ];
    for l in &lines {
        assert!(can_compare(&regions, l));
    }
    let cuts = list_cuts(&regions, &lines);
    let list: Vec<(f32, f32, usize)> =
        cuts.iter().map(|c| (f(c.bbox[0]), f(c.bbox[1]), c.owner)).collect();
    assert_eq!(
        list,
        [
            (60.0, 80.0, 0),
            (10.0, 10.0, 1),
            (0.0, 20.0, 1),
            (60.0, 60.0, 2), // a title is read as a whole
            (200.0, 0.0, 3), // as is a region without lines
        ]
    );
}

#[test]
fn equal_regions_leave_a_line_to_the_first() {
    let text = id("text");
    let regions = vec![
        region(text, [0.0, 0.0, 40.0, 40.0]),
        region(text, [10.0, 10.0, 50.0, 50.0]),
    ];
    let cuts = list_cuts(&regions, &vec![line([15.0, 15.0, 25.0, 25.0])]);
    assert_eq!(cuts.len(), 2);
    assert_eq!((f(cuts[0].bbox[0]), cuts[0].owner), (15.0, 0));
    assert_eq!((f(cuts[1].bbox[0]), cuts[1].owner), (10.0, 1));
}

#[test]
fn areas_that_are_no_numbers_cannot_be_compared() {
    let text = id("text");
    let wide = f32::INFINITY;
    let regions = vec![
        region(text, [0.0, 5.0, wide, 5.0]),
        region(text, [0.0, 0.0, 50.0, 50.0]),
    ];
    let l = line([10.0, 5.0, 20.0, 5.0]);
    assert!(f(area(regions[0].bbox)).is_nan());
    assert!(!can_compare(&regions, &l));
    assert!(can_compare(&vec![regions[0]], &l));
}

#[test]
fn parts_are_cut_out_exactly() {
    let image = page(10, 8);
    let part = crop(&image, bbox([2.9, 3.2, 6.7, 5.0]));
    assert_eq!((part.width, part.height), (4, 2));
    let mut want = Vec::new();
    for y in 3..5u8 {
        for x in 2..6u8 {
            want.extend([x, y, x + y]);
        }
    }
    assert_eq!(part.data, want);

    let padded = crop_with_padding(&image, bbox([2.0, 3.0, 4.0, 5.0]), 8);
    assert_eq!((padded.width, padded.height), (10, 8));
    assert_eq!(padded.data, image.data);

    // a formula is read with eight pixels around it
    let wide = page(40, 30);
    let formula = crop_formula(&wide, bbox([12.0, 10.0, 20.0, 25.0]));
    assert_eq!((formula.width, formula.height), (24, 28));
    assert_eq!(formula.data[..3], [4, 2, 6]);

    // at least one pixel
    let thin = crop(&image, bbox([4.0, 4.0, 4.5, 4.5]));
    assert_eq!((thin.width, thin.height, thin.data), (1, 1, vec![4, 4, 8]));

    // nothing beyond the page
    let edge = crop(&image, bbox([10.0, 2.0, 10.0, 4.0]));
    assert_eq!((edge.width, edge.height), (0, 2));
    assert!(edge.data.is_empty());
}

#[test]
fn boxes_that_end_before_they_begin_cannot_be_cut() {
    assert!(can_crop(bbox([0.0, 0.0, 5.0, 5.0]), 10, 10, 0));
    assert!(!can_crop(bbox([6.0, 0.0, 5.0, 5.0]), 10, 10, 0));
    assert!(!can_crop(bbox([6.0, 0.0, f32::NAN, 5.0]), 10, 10, 0));
    assert!(!can_crop(bbox([11.0, 0.0, 12.0, 5.0]), 10, 10, 0));
    assert!(can_crop(bbox([6.0, 0.0, 5.0, 5.0]), 10, 10, 8));
    assert!(!can_crop(bbox([0.0, 0.0, 3e9, 5.0]), 10, 10, 8));
    assert!(!can_crop(bbox([-3e9, 0.0, 5.0, 5.0]), 10, 10, 8));
    assert!(can_crop(bbox([-5.0, -5.0, -1.0, 5.0]), 10, 10, 0));
}

#[test]
fn texts_fill_their_regions() {
    let regions = vec![
        region(id("doc_title"), [0.0, 0.0, 10.0, 1.0]),
        region(id("image"), [0.0, 1.0, 10.0, 2.0]),
        region(id("text"), [0.0, 2.0, 10.0, 3.0]),
        region(id("text"), [0.0, 3.0, 10.0, 4.0]),
    ];
    let cut = |owner| Cut { bbox: bbox([0.0, 0.0, 1.0, 1.0]), owner };
    let cuts = vec![cut(0), cut(2), cut(2), cut(2), cut(2), cut(3)];
    let read = vec![
        ("  Title\u{3000}".to_string(), s(0.9)),
        ("first\n".to_string(), s(0.5)),
        ("unsure".to_string(), s(0.49)),
        (" \u{a0}\t".to_string(), s(0.9)),
        ("second".to_string(), s(0.75)),
        ("lost".to_string(), s(f32::NAN)),
    ];
    let mut contents = FusionOcr::blank_contents(4);
    contents[1] = "kept".to_string();
    fill_text(&regions, &cuts, &read, s(0.5), &mut contents);
    assert_eq!(contents, ["# Title", "kept", "first\nsecond", ""]);
}

#[test]
fn formulas_fill_their_regions() {
    let mut contents = FusionOcr::blank_contents(2);
    fill_formula(1, " x^2\n", &mut contents);
    fill_formula(0, " \t", &mut contents);
    assert_eq!(contents, ["", "$$\nx^2\n$$"]);
}

#[test]
fn white_space_is_trimmed_as_documented() {
    for c in ('\0'..=char::MAX).filter(|c| c.is_whitespace() || (*c as u32) < 0x3100) {
        let text = format!("{c}x{c}");
        let mut contents = FusionOcr::blank_contents(1);
        fill_formula(0, &text, &mut contents);
        let want = if c.is_whitespace() { "x".to_string() } else { text };
        assert_eq!(contents[0], format!("$$\n{want}\n$$"));
    }
}

#[test]
fn a_page_goes_through_its_stages() {
    let mut config = FusionOcrConfig::basic();
    config.classes = LayoutClassConfig::all();
    let (mut ocr, _) = FusionOcr::new(&FusionOcrModelPaths::new("layout"), config);
    ocr.start_page();
    let boxes = vec![
        region(id("formula"), [0.0, 50.0, 20.0, 60.0]),
        region(id("text"), [0.0, 10.0, 20.0, 30.0]),
        region(id("table"), [0.0, 70.0, 20.0, 80.0]),
    ];
    let lines = vec![line([2.0, 12.0, 18.0, 16.0]), line([2.0, 20.0, 18.0, 24.0])];
    let result = ocr.take_page(Some(Ok(boxes)), Ok(lines), 7, 5).unwrap();
    assert_eq!(ocr.last_timing(), StageTiming { layout: 7, detect: 5, recognize: 0 });
    let mut contents = FusionOcr::blank_contents(result.regions.len());
    let cuts = list_cuts(&result.regions, &result.lines);
    let parts = cut_all(&page(100, 100), &cuts);
    assert_eq!(parts.len(), 2);
    assert_eq!((parts[0].width, parts[0].height), (16, 4));
    assert_eq!(parts[1].data[..3], [2, 20, 22]);
    let read = vec![("one".to_string(), s(0.9)), ("two".to_string(), s(0.9))];
    ocr.take_text(&result.regions, &cuts, &read, 11, &mut contents);
    assert_eq!(ocr.last_timing().recognize, 11);
    assert_eq!(ocr.formulas(&result.regions), [1]);
    fill_formula(1, "e", &mut contents);
    let all = paragraphs(&result.regions, &contents);
    let view: Vec<(&str, &str, f32)> = all
        .iter()
        .map(|p| (p.paragraph_type.as_str(), p.content.as_str(), f(p.bbox[1])))
        .collect();
    assert_eq!(
        view,
        [("text", "one\ntwo", 10.0), ("formula", "$$\ne\n$$", 50.0), ("table", "", 70.0)]
    );
    ocr.start_page();
    assert_eq!(ocr.last_timing(), StageTiming::default());
}

#[test]
fn a_stage_that_did_not_run_took_no_time() {
    let single = LayoutClassConfig::none().with_enabled("paragraph_title", true);
    let formulas = LayoutClassConfig::none().with_enabled("formula", true);
    for classes in [LayoutClassConfig::none(), single, formulas] {
        let mut config = FusionOcrConfig::basic();
        config.classes = classes;
        let (mut ocr, _) = FusionOcr::new(&FusionOcrModelPaths::new("layout"), config);
        ocr.start_page();
        ocr.take_page(Some(Ok(vec![])), Ok(vec![]), 7, 5).unwrap();
        assert_eq!(ocr.last_timing(), StageTiming { layout: 7, detect: 0, recognize: 0 });
    }
}

#[test]
fn failures_are_told_in_order() {
    let (mut ocr, _) = FusionOcr::new(&FusionOcrModelPaths::new("l"), FusionOcrConfig::basic());
    let fail = |m: &str| Err(m.to_string());
    assert_eq!(
        ocr.take_page(None, Err("lines".to_string()), 1, 2).unwrap_err(),
        "layout thread panicked"
    );
    assert_eq!(
        ocr.take_page(Some(fail("layout")), Err("lines".to_string()), 1, 2).unwrap_err(),
        "layout"
    );
    assert_eq!(
        ocr.take_page(Some(Ok(vec![])), Err("lines".to_string()), 1, 2).unwrap_err(),
        "lines"
    );
    assert_eq!(ocr.last_timing(), StageTiming::default());
    let page = ocr.take_page(Some(Ok(vec![])), Ok(vec![]), 1, 2).unwrap();
    assert!(page.regions.is_empty() && page.lines.is_empty());
}

#[test]
fn formulas_are_left_alone_unless_recognised() {
    let (ocr, _) = FusionOcr::new(&FusionOcrModelPaths::new("l"), FusionOcrConfig::basic());
    let regions = vec![region(id("formula"), [0.0, 0.0, 1.0, 1.0])];
    assert!(ocr.formulas(&regions).is_empty());
}
