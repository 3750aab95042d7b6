//! From a page to its paragraphs.
pub mod choices;
pub mod config;
pub mod crops;
pub mod engine;
pub mod homes;
pub mod labels;
pub mod pages;
pub mod parts;
pub mod paths;
pub mod regions;

pub use config::{FusionOcrConfig, LayoutClassConfig};
pub use engine::{FusionOcr, FusionOcrParagraph, StageTiming};
pub use paths::FusionOcrModelPaths;
