//! What is recognised, and how sure the models have to be.
use crate::ocr::layout::predictor::LABELS;
use crate::pipeline::labels::{is_multiline_text_label, is_text_label};
use crate::single::Single;
use crate::strings::same_text;
use vstd::prelude::*;

verus! {

/// Which classes of regions are recognised.
#[derive(Debug, Clone, Copy, PartialEq, Eq, Structural)]
pub struct LayoutClassConfig {
    pub paragraph_title: bool,
    pub image: bool,
    pub text: bool,
    pub number: bool,
    pub abstract_: bool,
    pub content: bool,
    pub figure_title: bool,
    pub formula: bool,
    pub table: bool,
    pub reference: bool,
    pub doc_title: bool,
    pub footnote: bool,
    pub header: bool,
    pub algorithm: bool,
    pub footer: bool,
    pub seal: bool,
    pub chart: bool,
    pub formula_number: bool,
    pub aside_text: bool,
    pub reference_content: bool,
}

/// The label names a class.
pub open spec fn known(label: Seq<char>) -> bool {
    ||| label == "paragraph_title"@
    ||| label == "image"@
    ||| label == "text"@
    ||| label == "number"@
    ||| label == "abstract"@
    ||| label == "content"@
    ||| label == "figure_title"@
    ||| label == "formula"@
    ||| label == "table"@
    ||| label == "reference"@
    ||| label == "doc_title"@
    ||| label == "footnote"@
    ||| label == "header"@
    ||| label == "algorithm"@
    ||| label == "footer"@
    ||| label == "seal"@
    ||| label == "chart"@
    ||| label == "formula_number"@
    ||| label == "aside_text"@
    ||| label == "reference_content"@
}

/// Whether the label names a class.
fn is_known(label: &str) -> (r: bool)
    ensures
        r == known(label@),
{
    same_text(label, "paragraph_title")
        || same_text(label, "image")
        || same_text(label, "text")
        || same_text(label, "number")
        || same_text(label, "abstract")
        || same_text(label, "content")
        || same_text(label, "figure_title")
        || same_text(label, "formula")
        || same_text(label, "table")
        || same_text(label, "reference")
        || same_text(label, "doc_title")
        || same_text(label, "footnote")
        || same_text(label, "header")
        || same_text(label, "algorithm")
        || same_text(label, "footer")
        || same_text(label, "seal")
        || same_text(label, "chart")
        || same_text(label, "formula_number")
        || same_text(label, "aside_text")
        || same_text(label, "reference_content")
}

/// The new setting of a class where the label is its name, the old one otherwise.
fn set_if_named(old_setting: bool, label: &str, name: &str, enabled: bool) -> (r: bool)
    ensures
        r == (if label@ == name@ {
            enabled
        } else {
            old_setting
        }),
{
    if same_text(label, name) {
        enabled
    } else {
        old_setting
    }
}

impl LayoutClassConfig {
    /// Regions of the class with this name are recognised; none of an unknown class is.
    pub open spec fn enables(self, label: Seq<char>) -> bool {
        if label == "paragraph_title"@ {
            self.paragraph_title
        } else if label == "image"@ {
            self.image
        } else if label == "text"@ {
            self.text
        } else if label == "number"@ {
            self.number
        } else if label == "abstract"@ {
            self.abstract_
        } else if label == "content"@ {
            self.content
        } else if label == "figure_title"@ {
            self.figure_title
        } else if label == "formula"@ {
            self.formula
        } else if label == "table"@ {
            self.table
        } else if label == "reference"@ {
            self.reference
        } else if label == "doc_title"@ {
            self.doc_title
        } else if label == "footnote"@ {
            self.footnote
        } else if label == "header"@ {
            self.header
        } else if label == "algorithm"@ {
            self.algorithm
        } else if label == "footer"@ {
            self.footer
        } else if label == "seal"@ {
            self.seal
        } else if label == "chart"@ {
            self.chart
        } else if label == "formula_number"@ {
            self.formula_number
        } else if label == "aside_text"@ {
            self.aside_text
        } else if label == "reference_content"@ {
            self.reference_content
        } else {
            false
        }
    }

    /// The configuration with the class of this name set, unchanged for an unknown class.
    pub open spec fn setting(self, label: Seq<char>, enabled: bool) -> LayoutClassConfig {
        LayoutClassConfig {
            paragraph_title: if label == "paragraph_title"@ { enabled } else { self.paragraph_title },
            image: if label == "image"@ { enabled } else { self.image },
            text: if label == "text"@ { enabled } else { self.text },
            number: if label == "number"@ { enabled } else { self.number },
            abstract_: if label == "abstract"@ { enabled } else { self.abstract_ },
            content: if label == "content"@ { enabled } else { self.content },
            figure_title: if label == "figure_title"@ { enabled } else { self.figure_title },
            formula: if label == "formula"@ { enabled } else { self.formula },
            table: if label == "table"@ { enabled } else { self.table },
            reference: if label == "reference"@ { enabled } else { self.reference },
            doc_title: if label == "doc_title"@ { enabled } else { self.doc_title },
            footnote: if label == "footnote"@ { enabled } else { self.footnote },
            header: if label == "header"@ { enabled } else { self.header },
            algorithm: if label == "algorithm"@ { enabled } else { self.algorithm },
            footer: if label == "footer"@ { enabled } else { self.footer },
            seal: if label == "seal"@ { enabled } else { self.seal },
            chart: if label == "chart"@ { enabled } else { self.chart },
            formula_number: if label == "formula_number"@ { enabled } else { self.formula_number },
            aside_text: if label == "aside_text"@ { enabled } else { self.aside_text },
            reference_content: if label == "reference_content"@ { enabled } else { self.reference_content },
        }
    }

    /// The configuration with every class set alike.
    pub open spec fn uniform(enabled: bool) -> LayoutClassConfig {
        LayoutClassConfig {
            paragraph_title: enabled,
            image: enabled,
            text: enabled,
            number: enabled,
            abstract_: enabled,
            content: enabled,
            figure_title: enabled,
            formula: enabled,
            table: enabled,
            reference: enabled,
            doc_title: enabled,
            footnote: enabled,
            header: enabled,
            algorithm: enabled,
            footer: enabled,
            seal: enabled,
            chart: enabled,
            formula_number: enabled,
            aside_text: enabled,
            reference_content: enabled,
        }
    }

    /// The text of a page: titles, running text, the abstract and captions.
    pub open spec fn basic_classes() -> LayoutClassConfig {
        LayoutClassConfig {
            paragraph_title: true,
            text: true,
            doc_title: true,
            abstract_: true,
            figure_title: true,
            ..LayoutClassConfig::uniform(false)
        }
    }

    /// Some class that holds text is recognised.
    pub open spec fn reads_text(self) -> bool {
        exists|i: int|
            0 <= i < 20 && self.enables(#[trigger] LABELS@[i]@) && crate::pipeline::labels::holds_text(
                LABELS@[i]@,
            )
    }

    /// Some class that holds text over several lines is recognised.
    pub open spec fn finds_lines(self) -> bool {
        exists|i: int|
            0 <= i < 20 && self.enables(#[trigger] LABELS@[i]@)
                && crate::pipeline::labels::multiline_text(LABELS@[i]@)
    }

    /// The text of a page: titles, running text, the abstract and captions.
    pub fn basic() -> (r: LayoutClassConfig)
        ensures
            r == LayoutClassConfig::basic_classes(),
    {
        LayoutClassConfig {
            paragraph_title: true,
            text: true,
            doc_title: true,
            abstract_: true,
            figure_title: true,
            ..LayoutClassConfig::none()
        }
    }

    /// No class.
    pub fn none() -> (r: LayoutClassConfig)
        ensures
            r == LayoutClassConfig::uniform(false),
    {
        LayoutClassConfig {
            paragraph_title: false,
            image: false,
            text: false,
            number: false,
            abstract_: false,
            content: false,
            figure_title: false,
            formula: false,
            table: false,
            reference: false,
            doc_title: false,
            footnote: false,
            header: false,
            algorithm: false,
            footer: false,
            seal: false,
            chart: false,
            formula_number: false,
            aside_text: false,
            reference_content: false,
        }
    }

    /// Every class.
    pub fn all() -> (r: LayoutClassConfig)
        ensures
            r == LayoutClassConfig::uniform(true),
    {
        LayoutClassConfig {
            paragraph_title: true,
            image: true,
            text: true,
            number: true,
            abstract_: true,
            content: true,
            figure_title: true,
            formula: true,
            table: true,
            reference: true,
            doc_title: true,
            footnote: true,
            header: true,
            algorithm: true,
            footer: true,
            seal: true,
            chart: true,
            formula_number: true,
            aside_text: true,
            reference_content: true,
        }
    }

    /// Whether regions of the class with this name are recognised.
    pub fn is_enabled(&self, label: &str) -> (r: bool)
        ensures
            r == self.enables(label@),
    {
        if same_text(label, "paragraph_title") {
            self.paragraph_title
        } else if same_text(label, "image") {
            self.image
        } else if same_text(label, "text") {
            self.text
        } else if same_text(label, "number") {
            self.number
        } else if same_text(label, "abstract") {
            self.abstract_
        } else if same_text(label, "content") {
            self.content
        } else if same_text(label, "figure_title") {
            self.figure_title
        } else if same_text(label, "formula") {
            self.formula
        } else if same_text(label, "table") {
            self.table
        } else if same_text(label, "reference") {
            self.reference
        } else if same_text(label, "doc_title") {
            self.doc_title
        } else if same_text(label, "footnote") {
            self.footnote
        } else if same_text(label, "header") {
            self.header
        } else if same_text(label, "algorithm") {
            self.algorithm
        } else if same_text(label, "footer") {
            self.footer
        } else if same_text(label, "seal") {
            self.seal
        } else if same_text(label, "chart") {
            self.chart
        } else if same_text(label, "formula_number") {
            self.formula_number
        } else if same_text(label, "aside_text") {
            self.aside_text
        } else if same_text(label, "reference_content") {
            self.reference_content
        } else {
            false
        }
    }

    /// Sets whether regions of the class with this name are recognised. Returns whether there
    /// is such a class; nothing changes where there is none.
    pub fn set_enabled(&mut self, label: &str, enabled: bool) -> (r: bool)
        ensures
            *final(self) == old(self).setting(label@, enabled),
            r == known(label@),
    {
        *self =
        LayoutClassConfig {
            paragraph_title: set_if_named(self.paragraph_title, label, "paragraph_title", enabled),
            image: set_if_named(self.image, label, "image", enabled),
            text: set_if_named(self.text, label, "text", enabled),
            number: set_if_named(self.number, label, "number", enabled),
            abstract_: set_if_named(self.abstract_, label, "abstract", enabled),
            content: set_if_named(self.content, label, "content", enabled),
            figure_title: set_if_named(self.figure_title, label, "figure_title", enabled),
            formula: set_if_named(self.formula, label, "formula", enabled),
            table: set_if_named(self.table, label, "table", enabled),
            reference: set_if_named(self.reference, label, "reference", enabled),
            doc_title: set_if_named(self.doc_title, label, "doc_title", enabled),
            footnote: set_if_named(self.footnote, label, "footnote", enabled),
            header: set_if_named(self.header, label, "header", enabled),
            algorithm: set_if_named(self.algorithm, label, "algorithm", enabled),
            footer: set_if_named(self.footer, label, "footer", enabled),
            seal: set_if_named(self.seal, label, "seal", enabled),
            chart: set_if_named(self.chart, label, "chart", enabled),
            formula_number: set_if_named(self.formula_number, label, "formula_number", enabled),
            aside_text: set_if_named(self.aside_text, label, "aside_text", enabled),
            reference_content: set_if_named(self.reference_content, label, "reference_content", enabled),
        };
        is_known(label)
    }

    /// The configuration with the class of this name set.
    pub fn with_enabled(self, label: &str, enabled: bool) -> (r: LayoutClassConfig)
        ensures
            r == self.setting(label@, enabled),
    {
        let mut r: LayoutClassConfig = self;
        r.set_enabled(label, enabled);
        r
    }

    /// Whether the model that reads lines is needed.
    pub fn needs_rec_model(&self) -> (r: bool)
        ensures
            r == self.reads_text(),
    {
        let mut i: usize = 0;
        while i < 20
            invariant
                i <= 20,
                forall|k: int|
                    0 <= k < i ==> !(self.enables(#[trigger] LABELS@[k]@)
                        && crate::pipeline::labels::holds_text(LABELS@[k]@)),
            decreases 20 - i,
        {
            let label: &'static str = LABELS[i];
            if self.is_enabled(label) && is_text_label(label) {
                assert(self.enables(LABELS@[i as int]@));
                return true;
            }
            i = i + 1;
        }
        false
    }

    /// Whether the model that finds lines is needed.
    pub fn needs_det_model(&self) -> (r: bool)
        ensures
            r == self.finds_lines(),
    {
        let mut i: usize = 0;
        while i < 20
            invariant
                i <= 20,
                forall|k: int|
                    0 <= k < i ==> !(self.enables(#[trigger] LABELS@[k]@)
                        && crate::pipeline::labels::multiline_text(LABELS@[k]@)),
            decreases 20 - i,
        {
            let label: &'static str = LABELS[i];
            if self.is_enabled(label) && is_multiline_text_label(label) {
                assert(self.enables(LABELS@[i as int]@));
                return true;
            }
            i = i + 1;
        }
        false
    }
}

/// What is set is read back, setting one class leaves the others alone, and there is nothing
/// to set or to read for an unknown class.
pub proof fn lemma_set_then_get(
    classes: LayoutClassConfig,
    label: Seq<char>,
    other: Seq<char>,
    enabled: bool,
)
    ensures
        known(label) ==> classes.setting(label, enabled).enables(label) == enabled,
        other != label ==> classes.setting(label, enabled).enables(other) == classes.enables(other),
        !known(label) ==> classes.setting(label, enabled) == classes && !classes.enables(label),
{
}

/// The classes with a name are those in [`LABELS`].
pub proof fn lemma_known(label: Seq<char>)
    ensures
        known(label) <==> exists|k: int| 0 <= k < 20 && #[trigger] LABELS@[k]@ == label,
{
    assert(LABELS@[0]@ == "paragraph_title"@);
    assert(LABELS@[1]@ == "image"@);
    assert(LABELS@[2]@ == "text"@);
    assert(LABELS@[3]@ == "number"@);
    assert(LABELS@[4]@ == "abstract"@);
    assert(LABELS@[5]@ == "content"@);
    assert(LABELS@[6]@ == "figure_title"@);
    assert(LABELS@[7]@ == "formula"@);
    assert(LABELS@[8]@ == "table"@);
    assert(LABELS@[9]@ == "reference"@);
    assert(LABELS@[10]@ == "doc_title"@);
    assert(LABELS@[11]@ == "footnote"@);
    assert(LABELS@[12]@ == "header"@);
    assert(LABELS@[13]@ == "algorithm"@);
    assert(LABELS@[14]@ == "footer"@);
    assert(LABELS@[15]@ == "seal"@);
    assert(LABELS@[16]@ == "chart"@);
    assert(LABELS@[17]@ == "formula_number"@);
    assert(LABELS@[18]@ == "aside_text"@);
    assert(LABELS@[19]@ == "reference_content"@);
}

/// A class that is recognised has a name in [`LABELS`].
pub proof fn lemma_enabled_is_known(classes: LayoutClassConfig, label: Seq<char>)
    requires
        classes.enables(label),
    ensures
        exists|k: int| 0 <= k < 20 && #[trigger] LABELS@[k]@ == label,
{
    lemma_known(label);
}

/// The basic classes are the titles, running text, the abstract and captions.
pub proof fn lemma_basic_classes(label: Seq<char>)
    ensures
        LayoutClassConfig::basic_classes().enables(label) <==> {
            ||| label == "paragraph_title"@
            ||| label == "text"@
            ||| label == "abstract"@
            ||| label == "figure_title"@
            ||| label == "doc_title"@
        },
{
    reveal_strlit("paragraph_title");
    reveal_strlit("image");
    reveal_strlit("text");
    reveal_strlit("number");
    reveal_strlit("abstract");
    reveal_strlit("content");
    reveal_strlit("figure_title");
    reveal_strlit("formula");
    reveal_strlit("table");
    reveal_strlit("reference");
    reveal_strlit("doc_title");
    assert("paragraph_title"@.len() == 15);
    assert("image"@.len() == 5);
    assert("text"@.len() == 4);
    assert("number"@.len() == 6);
    assert("abstract"@.len() == 8);
    assert("content"@.len() == 7);
    assert("figure_title"@.len() == 12);
    assert("formula"@.len() == 7);
    assert("table"@.len() == 5);
    assert("reference"@.len() == 9);
    assert("doc_title"@.len() == 9);
    assert("reference"@[0] != "doc_title"@[0]);
}

/// Where lines have to be found, they have to be read.
pub proof fn lemma_lines_are_read(classes: LayoutClassConfig)
    ensures
        classes.finds_lines() ==> classes.reads_text(),
{
    if classes.finds_lines() {
        let i: int = choose|i: int|
            0 <= i < 20 && classes.enables(#[trigger] LABELS@[i]@)
                && crate::pipeline::labels::multiline_text(LABELS@[i]@);
        assert(classes.enables(LABELS@[i]@));
    }
}

impl Default for LayoutClassConfig {
    fn default() -> (r: LayoutClassConfig)
        ensures
            r == LayoutClassConfig::basic_classes(),
    {
        LayoutClassConfig::basic()
    }
}

/// The bit pattern of 0.4.
pub const LAYOUT_THRESHOLD: u32 = 0x3ecc_cccd;

/// What is recognised, and how sure the models have to be.
#[derive(Debug, Clone, Copy)]
pub struct FusionOcrConfig {
    pub classes: LayoutClassConfig,
    /// Regions with a lower score are left out.
    pub layout_confidence_threshold: Single,
    /// Lines with a lower confidence are left out.
    pub rec_confidence_threshold: Single,
    /// How many lines are read at once.
    pub rec_batch_size: usize,
}

/// A threshold moved into `[0, 1]`; "not a number" stays.
pub open spec fn unit_interval(v: Single) -> Single {
    v.clamped(Single { bits: 0 }, Single { bits: crate::single::ONE })
}

/// A threshold moved into `[0, 1]`.
fn to_unit_interval(v: Single) -> (r: Single)
    ensures
        r == unit_interval(v),
{
    proof {
        lemma_unit_interval(v);
    }
    v.clamp(Single::from_bits(0), Single::from_bits(crate::single::ONE))
}

/// A threshold that was moved lies between 0 and 1 unless it is "not a number".
pub proof fn lemma_unit_interval(v: Single)
    ensures
        (Single { bits: 0 }).at_most(Single { bits: crate::single::ONE }),
        v.nan() ==> unit_interval(v) == v,
        !v.nan() ==> 0 <= unit_interval(v).units() <= crate::single::unit(),
{
    crate::bounds::lemma_one();
    vstd::arithmetic::power2::lemma_pow2_pos(149);
    assert((Single { bits: 0 }).units() == 0);
}

impl FusionOcrConfig {
    /// The classes, thresholds and batch size that serve most pages.
    pub open spec fn standard() -> FusionOcrConfig {
        FusionOcrConfig {
            classes: LayoutClassConfig::basic_classes(),
            layout_confidence_threshold: Single { bits: LAYOUT_THRESHOLD },
            rec_confidence_threshold: Single { bits: 0 },
            rec_batch_size: 8,
        }
    }

    /// The classes, thresholds and batch size that serve most pages.
    pub fn basic() -> (r: FusionOcrConfig)
        ensures
            r == FusionOcrConfig::standard(),
    {
        FusionOcrConfig {
            classes: LayoutClassConfig::basic(),
            layout_confidence_threshold: Single::from_bits(LAYOUT_THRESHOLD),
            rec_confidence_threshold: Single::from_bits(0),
            rec_batch_size: 8,
        }
    }

    /// Sets the threshold for regions, moved into `[0, 1]`.
    pub fn with_layout_confidence_threshold(self, threshold: Single) -> (r: FusionOcrConfig)
        ensures
            r == (FusionOcrConfig { layout_confidence_threshold: unit_interval(threshold), ..self }),
    {
        FusionOcrConfig { layout_confidence_threshold: to_unit_interval(threshold), ..self }
    }

    /// Sets the threshold for lines, moved into `[0, 1]`.
    pub fn with_rec_confidence_threshold(self, threshold: Single) -> (r: FusionOcrConfig)
        ensures
            r == (FusionOcrConfig { rec_confidence_threshold: unit_interval(threshold), ..self }),
    {
        FusionOcrConfig { rec_confidence_threshold: to_unit_interval(threshold), ..self }
    }

    /// Sets how many lines are read at once, at least one.
    pub fn with_rec_batch_size(self, batch_size: usize) -> (r: FusionOcrConfig)
        ensures
            r == (FusionOcrConfig {
                rec_batch_size: if batch_size < 1 {
                    1
                } else {
                    batch_size
                },
                ..self
            }),
    {
        let size: usize = if batch_size < 1 {
            1
        } else {
            batch_size
        };
        FusionOcrConfig { rec_batch_size: size, ..self }
    }
}

impl Default for FusionOcrConfig {
    fn default() -> (r: FusionOcrConfig)
        ensures
            r == FusionOcrConfig::standard(),
    {
        FusionOcrConfig::basic()
    }
}

} // verus!
