//! What the settings of the pipeline choose, field by field.
use crate::ocr::decimals::nearest_to;
use crate::ocr::layout::predictor::LABELS;
use crate::pipeline::config::{known, unit_interval, FusionOcrConfig, LayoutClassConfig};
use crate::pipeline::parts::{lemma_names_apart, lemma_text_classes};
use crate::pipeline::paths::{load_plan, FusionOcrModelPaths, ModelLoad};
use crate::single::Single;
use std::path::PathBuf;
use vstd::prelude::*;

verus! {

/// Each class is chosen by the field of its name.
pub proof fn lemma_fields(classes: LayoutClassConfig)
    ensures
        classes.enables("paragraph_title"@) == classes.paragraph_title,
        classes.enables("image"@) == classes.image,
        classes.enables("text"@) == classes.text,
        classes.enables("number"@) == classes.number,
        classes.enables("abstract"@) == classes.abstract_,
        classes.enables("content"@) == classes.content,
        classes.enables("figure_title"@) == classes.figure_title,
        classes.enables("formula"@) == classes.formula,
        classes.enables("table"@) == classes.table,
        classes.enables("reference"@) == classes.reference,
        classes.enables("doc_title"@) == classes.doc_title,
        classes.enables("footnote"@) == classes.footnote,
        classes.enables("header"@) == classes.header,
        classes.enables("algorithm"@) == classes.algorithm,
        classes.enables("footer"@) == classes.footer,
        classes.enables("seal"@) == classes.seal,
        classes.enables("chart"@) == classes.chart,
        classes.enables("formula_number"@) == classes.formula_number,
        classes.enables("aside_text"@) == classes.aside_text,
        classes.enables("reference_content"@) == classes.reference_content,
{
    lemma_names_apart();
    lemma_labels();
}

/// The names of the twenty classes, in the order in which the model counts them.
pub proof fn lemma_labels()
    ensures
        LABELS@[0]@ == "paragraph_title"@,
        LABELS@[1]@ == "image"@,
        LABELS@[2]@ == "text"@,
        LABELS@[3]@ == "number"@,
        LABELS@[4]@ == "abstract"@,
        LABELS@[5]@ == "content"@,
        LABELS@[6]@ == "figure_title"@,
        LABELS@[7]@ == "formula"@,
        LABELS@[8]@ == "table"@,
        LABELS@[9]@ == "reference"@,
        LABELS@[10]@ == "doc_title"@,
        LABELS@[11]@ == "footnote"@,
        LABELS@[12]@ == "header"@,
        LABELS@[13]@ == "algorithm"@,
        LABELS@[14]@ == "footer"@,
        LABELS@[15]@ == "seal"@,
        LABELS@[16]@ == "chart"@,
        LABELS@[17]@ == "formula_number"@,
        LABELS@[18]@ == "aside_text"@,
        LABELS@[19]@ == "reference_content"@,
        LABELS@.len() == 20,
{
}

/// Setting a class sets the field of its name and no other.
pub proof fn lemma_set_fields(classes: LayoutClassConfig, enabled: bool)
    ensures
        classes.setting("paragraph_title"@, enabled) == (LayoutClassConfig { paragraph_title: enabled, ..classes }),
        classes.setting("image"@, enabled) == (LayoutClassConfig { image: enabled, ..classes }),
        classes.setting("text"@, enabled) == (LayoutClassConfig { text: enabled, ..classes }),
        classes.setting("number"@, enabled) == (LayoutClassConfig { number: enabled, ..classes }),
        classes.setting("abstract"@, enabled) == (LayoutClassConfig { abstract_: enabled, ..classes }),
        classes.setting("content"@, enabled) == (LayoutClassConfig { content: enabled, ..classes }),
        classes.setting("figure_title"@, enabled) == (LayoutClassConfig { figure_title: enabled, ..classes }),
        classes.setting("formula"@, enabled) == (LayoutClassConfig { formula: enabled, ..classes }),
        classes.setting("table"@, enabled) == (LayoutClassConfig { table: enabled, ..classes }),
        classes.setting("reference"@, enabled) == (LayoutClassConfig { reference: enabled, ..classes }),
        classes.setting("doc_title"@, enabled) == (LayoutClassConfig { doc_title: enabled, ..classes }),
        classes.setting("footnote"@, enabled) == (LayoutClassConfig { footnote: enabled, ..classes }),
        classes.setting("header"@, enabled) == (LayoutClassConfig { header: enabled, ..classes }),
        classes.setting("algorithm"@, enabled) == (LayoutClassConfig { algorithm: enabled, ..classes }),
        classes.setting("footer"@, enabled) == (LayoutClassConfig { footer: enabled, ..classes }),
        classes.setting("seal"@, enabled) == (LayoutClassConfig { seal: enabled, ..classes }),
        classes.setting("chart"@, enabled) == (LayoutClassConfig { chart: enabled, ..classes }),
        classes.setting("formula_number"@, enabled) == (LayoutClassConfig { formula_number: enabled, ..classes }),
        classes.setting("aside_text"@, enabled) == (LayoutClassConfig { aside_text: enabled, ..classes }),
        classes.setting("reference_content"@, enabled) == (LayoutClassConfig { reference_content: enabled, ..classes }),
{
    lemma_names_apart();
    lemma_labels();
}

/// Lines are found where a class is chosen whose text may run over several lines, and read
/// where one is chosen that holds text.
pub proof fn lemma_models_needed(classes: LayoutClassConfig)
    ensures
        classes.finds_lines() <==> {
            ||| classes.text
            ||| classes.abstract_
            ||| classes.content
            ||| classes.figure_title
            ||| classes.reference
            ||| classes.aside_text
            ||| classes.reference_content
        },
        classes.reads_text() <==> {
            ||| classes.text
            ||| classes.abstract_
            ||| classes.content
            ||| classes.figure_title
            ||| classes.reference
            ||| classes.aside_text
            ||| classes.reference_content
            ||| classes.paragraph_title
            ||| classes.number
            ||| classes.doc_title
            ||| classes.footnote
            ||| classes.header
            ||| classes.algorithm
            ||| classes.footer
            ||| classes.formula_number
        },
{
    lemma_fields(classes);
    lemma_labels();
    lemma_text_classes(2);
    lemma_text_classes(4);
    lemma_text_classes(5);
    lemma_text_classes(6);
    lemma_text_classes(9);
    lemma_text_classes(18);
    lemma_text_classes(19);
    lemma_text_classes(0);
    lemma_text_classes(3);
    lemma_text_classes(10);
    lemma_text_classes(11);
    lemma_text_classes(12);
    lemma_text_classes(13);
    lemma_text_classes(14);
    lemma_text_classes(17);
    if classes.reads_text() {
        let i: int = choose|i: int|
            0 <= i < 20 && classes.enables(#[trigger] LABELS@[i]@)
                && crate::pipeline::labels::holds_text(LABELS@[i]@);
        lemma_text_classes(i);
        lemma_place(i);
    }
    if classes.finds_lines() {
        let i: int = choose|i: int|
            0 <= i < 20 && classes.enables(#[trigger] LABELS@[i]@)
                && crate::pipeline::labels::multiline_text(LABELS@[i]@);
        lemma_text_classes(i);
        lemma_place(i);
    }
}

proof fn lemma_place(i: int)
    requires
        0 <= i < 20,
    ensures
        i == 0 || i == 1 || i == 2 || i == 3 || i == 4 || i == 5 || i == 6 || i == 7 || i == 8 || i == 9 || i == 10 || i == 11 || i == 12 || i == 13 || i == 14 || i == 15 || i == 16 || i == 17 || i == 18 || i == 19,
{
}

/// A threshold from 0 to 1 stays; one below becomes 0 and one above becomes 1.
pub proof fn lemma_threshold(v: Single)
    ensures
        0 <= v.units() <= crate::single::unit() ==> unit_interval(v) == v,
        !v.nan() && v.units() < 0 ==> unit_interval(v).units() == 0,
        !v.nan() && v.units() > crate::single::unit() ==> unit_interval(v).units()
            == crate::single::unit(),
{
    crate::bounds::lemma_one();
    assert((Single { bits: 0 }).units() == 0);
}

/// Unless set otherwise titles, running text, the abstract and captions are recognised where
/// the layout model is sure by 0.4, eight lines are read at once, and none is too unsure.
pub proof fn lemma_standard(label: Seq<char>)
    ensures
        ({
            let c = FusionOcrConfig::standard();
            &&& nearest_to(c.layout_confidence_threshold.bits, 4, 10)
            &&& c.rec_confidence_threshold.units() == 0
            &&& c.rec_batch_size == 8
            &&& c.classes.enables(label) <==> {
                ||| label == "paragraph_title"@
                ||| label == "text"@
                ||| label == "abstract"@
                ||| label == "figure_title"@
                ||| label == "doc_title"@
            }
        }),
{
    crate::ocr::decimals::lemma_constants();
    crate::pipeline::config::lemma_basic_classes(label);
}

/// Where no path is missing, the layout model is loaded, then the one that finds lines, the one
/// that reads them and the one that reads formulas, each where it is needed and from its own
/// paths.
pub proof fn lemma_loads(
    paths: FusionOcrModelPaths,
    config: FusionOcrConfig,
    det: PathBuf,
    rec: PathBuf,
    dict: PathBuf,
    formula: PathBuf,
    tokens: PathBuf,
)
    requires
        config.classes.finds_lines() ==> paths.text_det_model == Some(det),
        config.classes.reads_text() ==> paths.text_rec_model == Some(rec) && paths.text_rec_dict
            == Some(dict),
        config.classes.formula ==> paths.formula_model == Some(formula) && paths.formula_tokens
            == Some(tokens),
        config.rec_batch_size >= 1,
    ensures
        ({
            let layout = seq![ModelLoad::Layout {
                model: paths.layout_model,
                threshold: config.layout_confidence_threshold,
            }];
            let finder = if config.classes.finds_lines() {
                seq![ModelLoad::Detector { model: det }]
            } else {
                Seq::empty()
            };
            let reader = if config.classes.reads_text() {
                seq![ModelLoad::Recognizer { model: rec, dict, batch_size: config.rec_batch_size }]
            } else {
                Seq::empty()
            };
            let formulas = if config.classes.formula {
                seq![ModelLoad::Formula { model: formula, tokens }]
            } else {
                Seq::empty()
            };
            load_plan(paths, config) == (layout + finder + reader + formulas, None::<Seq<char>>)
        }),
{
    let layout: Seq<ModelLoad> = seq![ModelLoad::Layout {
        model: paths.layout_model,
        threshold: config.layout_confidence_threshold,
    }];
    let finder: Seq<ModelLoad> = if config.classes.finds_lines() {
        seq![ModelLoad::Detector { model: det }]
    } else {
        Seq::empty()
    };
    let reader: Seq<ModelLoad> = if config.classes.reads_text() {
        seq![ModelLoad::Recognizer { model: rec, dict, batch_size: config.rec_batch_size }]
    } else {
        Seq::empty()
    };
    let formulas: Seq<ModelLoad> = if config.classes.formula {
        seq![ModelLoad::Formula { model: formula, tokens }]
    } else {
        Seq::empty()
    };
    assert(load_plan(paths, config).0 =~= layout + finder + reader + formulas);
}

/// The first path that is missing is named.
pub proof fn lemma_missing(paths: FusionOcrModelPaths, config: FusionOcrConfig)
    ensures
        ({
            let c = config.classes;
            let said = load_plan(paths, config).1;
            let start = "missing required model path: "@;
            let no_det = c.finds_lines() && paths.text_det_model is None;
            let no_rec = c.reads_text() && paths.text_rec_model is None;
            let no_dict = c.reads_text() && paths.text_rec_dict is None;
            let no_model = c.formula && paths.formula_model is None;
            let no_tokens = c.formula && paths.formula_tokens is None;
            &&& no_det ==> said == Some(start + "text_det_model"@)
            &&& !no_det && no_rec ==> said == Some(start + "text_rec_model"@)
            &&& !no_det && !no_rec && no_dict ==> said == Some(start + "text_rec_dict"@)
            &&& !no_det && !no_rec && !no_dict && no_model ==> said == Some(
                start + "formula_model"@,
            )
            &&& !no_det && !no_rec && !no_dict && !no_model && no_tokens ==> said == Some(
                start + "formula_tokens"@,
            )
            &&& !no_det && !no_rec && !no_dict && !no_model && !no_tokens ==> said is None
        }),
{
}

/// Set alike, either every class is recognised or none.
pub proof fn lemma_all_alike(label: Seq<char>)
    ensures
        LayoutClassConfig::uniform(true).enables(label) == known(label),
        !LayoutClassConfig::uniform(false).enables(label),
{
}

/// Paths are set each to what is given for it, and no other changes.
pub proof fn lemma_paths_set(
    paths: FusionOcrModelPaths,
    first: PathBuf,
    second: PathBuf,
    third: PathBuf,
)
    ensures
        paths.text_set(first, second, third) == (FusionOcrModelPaths {
            text_det_model: Some(first),
            text_rec_model: Some(second),
            text_rec_dict: Some(third),
            ..paths
        }),
        paths.formula_set(first, second) == (FusionOcrModelPaths {
            formula_model: Some(first),
            formula_tokens: Some(second),
            ..paths
        }),
{
}

} // verus!
