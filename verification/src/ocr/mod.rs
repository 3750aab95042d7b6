//! The models of the pipeline: what each is fed and how its output is read.
pub mod accepted;
pub mod decimals;
pub mod fitting;
pub mod formula;
pub mod layout;
pub mod planes;
pub mod tensor;
pub mod text;
