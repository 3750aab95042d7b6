//! One page from start to end, between the calls of the models.
//!
//! A page goes through the layout model and, where a class needs it, the model that finds
//! lines. [`FusionOcr::take_page`] turns their answers into regions in reading order.
//! The parts of the page that hold text are listed and cut out, read, and written into the
//! contents of their regions; then the formulas. [`paragraphs`] puts the result together.
use crate::ocr::layout::predictor::LayoutBox;
use crate::ocr::text::detection::TextLine;
use crate::pipeline::config::FusionOcrConfig;
use crate::pipeline::crops::{fill_text, find_formulas, Cut};
use crate::pipeline::paths::{plan_loads, FusionOcrModelPaths, LoadPlan};
use crate::pipeline::regions::{keep_enabled, sort_regions};
use crate::single::Single;
use vstd::prelude::*;

verus! {

/// What is recognised of one region.
#[derive(Debug)]
pub struct FusionOcrParagraph {
    /// `[x1, y1, x2, y2]`, in pixels of the page.
    pub bbox: [Single; 4],
    /// The name of its class.
    pub paragraph_type: String,
    /// Its text as Markdown, empty where there is none.
    pub content: String,
}

impl Clone for FusionOcrParagraph {
    fn clone(&self) -> (r: FusionOcrParagraph)
        ensures
            r.bbox == self.bbox,
            r.paragraph_type@ == self.paragraph_type@,
            r.content@ == self.content@,
    {
        FusionOcrParagraph {
            bbox: self.bbox,
            paragraph_type: self.paragraph_type.clone(),
            content: self.content.clone(),
        }
    }
}

/// How long each stage took the last time, in nanoseconds; zero for a stage that did not run.
#[derive(Debug, Clone, Copy, PartialEq, Eq, Structural)]
pub struct StageTiming {
    pub layout: u128,
    pub detect: u128,
    pub recognize: u128,
}

impl Default for StageTiming {
    fn default() -> (r: StageTiming)
        ensures
            r == (StageTiming { layout: 0, detect: 0, recognize: 0 }),
    {
        StageTiming { layout: 0, detect: 0, recognize: 0 }
    }
}

/// The settings of the pipeline and how long the last page took.
#[derive(Debug)]
pub struct FusionOcr {
    pub config: FusionOcrConfig,
    pub timing: StageTiming,
}

/// What the layout model answered, if its thread came to an end.
pub type LayoutAnswer = Option<Result<Vec<LayoutBox>, String>>;

/// What the model that finds lines answered; no lines where it is not loaded.
pub type LineAnswer = Result<Vec<TextLine>, String>;

/// The regions of a page in reading order, and its lines.
#[derive(Debug)]
pub struct Page {
    pub regions: Vec<LayoutBox>,
    pub lines: Vec<TextLine>,
}

/// What is said where the page cannot be read: that the layout thread failed, what the
/// layout model said, or what the model that finds lines said, in this order.
pub open spec fn failure(layout: LayoutAnswer, lines: LineAnswer) -> Option<Seq<char>> {
    match layout {
        None => Some("layout thread panicked"@),
        Some(Err(message)) => Some(message@),
        Some(Ok(_)) => match lines {
            Err(message) => Some(message@),
            Ok(_) => None,
        },
    }
}

/// The regions that the layout model found.
pub open spec fn found(layout: LayoutAnswer) -> Seq<LayoutBox> {
    layout->Some_0->Ok_0@
}

impl FusionOcr {
    /// A pipeline, and the models that it needs.
    pub fn new(paths: &FusionOcrModelPaths, config: FusionOcrConfig) -> (r: (FusionOcr, LoadPlan))
        ensures
            r.0.config == config,
            r.0.timing == (StageTiming { layout: 0, detect: 0, recognize: 0 }),
            crate::pipeline::paths::plan_view(r.1) == crate::pipeline::paths::load_plan(
                *paths,
                config,
            ),
    {
        let plan: LoadPlan = plan_loads(paths, &config);
        (FusionOcr { config, timing: StageTiming::default() }, plan)
    }

    /// How long each stage took the last time.
    pub fn last_timing(&self) -> (r: StageTiming)
        ensures
            r == self.timing,
    {
        self.timing
    }

    /// Starts a page: no stage has run yet.
    pub fn start_page(&mut self)
        ensures
            final(self).config == old(self).config,
            final(self).timing == (StageTiming { layout: 0, detect: 0, recognize: 0 }),
    {
        self.timing = StageTiming::default();
    }

    /// Takes the answers of the two models that look at the whole page, and how long they
    /// took. Keeps the regions whose class is recognised, in reading order. The model that
    /// finds lines has run, and so taken time, only where a class needs it.
    pub fn take_page(
        &mut self,
        layout: LayoutAnswer,
        lines: LineAnswer,
        layout_time: u128,
        detect_time: u128,
    ) -> (r: Result<Page, String>)
        requires
            failure(layout, lines) is None ==> crate::pipeline::regions::sortable(
                crate::pipeline::regions::enabled_regions(
                    found(layout),
                    old(self).config.classes,
                ),
            ),
        ensures
            final(self).config == old(self).config,
            match failure(layout, lines) {
                Some(message) => {
                    &&& r matches Err(m) && m@ == message
                    &&& final(self).timing == old(self).timing
                },
                None => {
                    &&& r matches Ok(page) && page.regions@ == crate::pipeline::regions::selected(
                        found(layout),
                        old(self).config.classes,
                    ) && page.lines@ == lines->Ok_0@
                    &&& final(self).timing == (StageTiming {
                        layout: layout_time,
                        detect: if old(self).config.classes.finds_lines() {
                            detect_time
                        } else {
                            0
                        },
                        ..old(self).timing
                    })
                },
            },
    {
        match layout {
            None => Err("layout thread panicked".to_owned()),
            Some(Err(message)) => Err(message),
            Some(Ok(boxes)) => match lines {
                Err(message) => Err(message),
                Ok(lines) => {
                    let detect: u128 = if self.config.classes.needs_det_model() {
                        detect_time
                    } else {
                        0
                    };
                    self.timing = StageTiming { layout: layout_time, detect, ..self.timing };
                    let kept: Vec<LayoutBox> = keep_enabled(&boxes, &self.config.classes);
                    let regions: Vec<LayoutBox> = sort_regions(&kept);
                    Ok(Page { regions, lines })
                },
            },
        }
    }

    /// The contents of the regions before anything is read.
    pub fn blank_contents(count: usize) -> (r: Vec<String>)
        ensures
            r@.len() == count,
            forall|i: int| 0 <= i < count ==> (#[trigger] r@[i])@ == Seq::<char>::empty(),
    {
        let mut r: Vec<String> = Vec::new();
        let mut i: usize = 0;
        while i < count
            invariant
                i <= count,
                r@.len() == i,
                forall|k: int| 0 <= k < i ==> (#[trigger] r@[k])@ == Seq::<char>::empty(),
            decreases count - i,
        {
            r.push(String::new());
            i = i + 1;
        }
        r
    }

    /// Takes the readings of the listed parts and how long reading them took.
    pub fn take_text(
        &mut self,
        regions: &Vec<LayoutBox>,
        cuts: &Vec<Cut>,
        recognized: &Vec<(String, Single)>,
        elapsed: u128,
        contents: &mut Vec<String>,
    )
        requires
            old(contents)@.len() == regions@.len(),
            forall|k: int| 0 <= k < cuts@.len() ==> (#[trigger] cuts@[k]).owner < regions@.len(),
        ensures
            final(self).config == old(self).config,
            final(self).timing == (StageTiming { recognize: elapsed, ..old(self).timing }),
            final(contents)@.len() == regions@.len(),
            forall|i: int|
                0 <= i < regions@.len() ==> (#[trigger] final(contents)@[i])@ == (
                if crate::pipeline::labels::holds_text(regions@[i].label@) {
                    crate::pipeline::crops::text_content(
                        regions@,
                        cuts@,
                        crate::ocr::text::recognition::readings(recognized@),
                        old(self).config.rec_confidence_threshold,
                        i as usize,
                    )
                } else {
                    old(contents)@[i]@
                }),
    {
        self.timing = StageTiming { recognize: elapsed, ..self.timing };
        fill_text(regions, cuts, recognized, self.config.rec_confidence_threshold, contents);
    }

    /// The places of the formulas to read: none where formulas are not recognised.
    pub fn formulas(&self, regions: &Vec<LayoutBox>) -> (r: Vec<usize>)
        ensures
            r@ == (if self.config.classes.formula {
                crate::pipeline::crops::formula_places(regions@, regions@.len())
            } else {
                Seq::empty()
            }),
            forall|k: int| 0 <= k < r@.len() ==> (#[trigger] r@[k]) < regions@.len(),
    {
        if self.config.classes.formula {
            find_formulas(regions)
        } else {
            Vec::new()
        }
    }
}

/// The paragraphs of a page: one for each region, in order.
pub fn paragraphs(regions: &Vec<LayoutBox>, contents: &Vec<String>) -> (r: Vec<FusionOcrParagraph>)
    requires
        contents@.len() == regions@.len(),
    ensures
        r@.len() == regions@.len(),
        forall|i: int|
            0 <= i < r@.len() ==> {
                &&& (#[trigger] r@[i]).bbox == regions@[i].bbox
                &&& r@[i].paragraph_type@ == regions@[i].label@
                &&& r@[i].content@ == contents@[i]@
            },
{
    let mut r: Vec<FusionOcrParagraph> = Vec::new();
    let mut i: usize = 0;
    while i < regions.len()
        invariant
            i <= regions.len(),
            contents@.len() == regions@.len(),
            r@.len() == i,
            forall|k: int|
                0 <= k < i ==> {
                    &&& (#[trigger] r@[k]).bbox == regions@[k].bbox
                    &&& r@[k].paragraph_type@ == regions@[k].label@
                    &&& r@[k].content@ == contents@[k]@
                },
        decreases regions.len() - i,
    {
        r.push(
            FusionOcrParagraph {
                bbox: regions[i].bbox,
                paragraph_type: regions[i].label.to_owned(),
                content: contents[i].clone(),
            },
        );
        i = i + 1;
    }
    r
}

/// The model that reads lines is needed where a region that is recognised holds text.
pub proof fn lemma_text_model_needed(
    boxes: Seq<LayoutBox>,
    config: FusionOcrConfig,
    place: int,
)
    requires
        boxes.len() <= usize::MAX,
        crate::pipeline::regions::sortable(
            crate::pipeline::regions::enabled_regions(boxes, config.classes),
        ),
        0 <= place < crate::pipeline::regions::selected(boxes, config.classes).len(),
        crate::pipeline::labels::holds_text(
            crate::pipeline::regions::selected(boxes, config.classes)[place].label@,
        ),
    ensures
        config.classes.reads_text(),
{
    let kept: Seq<LayoutBox> = crate::pipeline::regions::enabled_regions(boxes, config.classes);
    crate::pipeline::regions::lemma_enabled(boxes, config.classes);
    let keys: Seq<(i64, i64)> = crate::pipeline::regions::region_keys(kept);
    crate::order::lemma_stable_order(keys);
    let at: usize = crate::order::stable_order_of(keys)[place];
    let region: LayoutBox = kept[at as int];
    crate::pipeline::config::lemma_enabled_is_known(config.classes, region.label@);
    let k: int = choose|k: int|
        0 <= k < 20 && #[trigger] crate::ocr::layout::predictor::LABELS@[k]@ == region.label@;
    assert(config.classes.enables(crate::ocr::layout::predictor::LABELS@[k]@));
}

} // verus!
