//! Text lines: finding them on a page and reading them.
pub mod alone;
pub mod batch;
pub mod block;
pub mod calipers;
pub mod cells;
pub mod detection;
pub mod drawing;
pub mod expanded;
pub mod found;
pub mod geometry;
pub mod hull;
pub mod kept;
pub mod line;
pub mod mean;
pub mod ordering;
pub mod padding;
pub mod reading;
pub mod recognition;
pub mod rectangle;
pub mod scored;
pub mod shown;
pub mod sizes;
pub mod smallest;
pub mod upright;
