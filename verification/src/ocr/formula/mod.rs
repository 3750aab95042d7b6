//! Formulas.
pub mod blocks;
pub mod bytes;
pub mod picture;
pub mod recognition;
pub mod spelled;
