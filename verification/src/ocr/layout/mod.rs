//! The layout of a page.
pub mod predictor;
pub mod rows;
