//! Document OCR: layout regions, text lines and formulas turned into paragraphs.
//!
//! The models themselves are run elsewhere. This library holds what stands around them:
//! what they are fed for a page, how their answers are read, and how the readings become
//! Markdown paragraphs in reading order. All arithmetic on fractions is IEEE 754 binary32,
//! carried out on bit patterns by [`single::Single`].
pub mod arith;
pub mod bounds;
pub mod breaks;
pub mod close;
pub mod nearness;
pub mod ocr;
pub mod order;
pub mod pipeline;
pub mod raster;
mod root;
mod rounding;
pub mod single;
pub mod strings;

pub use pipeline::{
    FusionOcr, FusionOcrConfig, FusionOcrModelPaths, FusionOcrParagraph, LayoutClassConfig,
    StageTiming,
};
