//! Counting red pixels in multi-frame images and arranging the per-file
//! totals into a time-ordered summary.

pub mod color;
pub mod error;
pub mod file;
pub mod frame;
pub mod name;
pub mod order;
pub mod summary;
pub mod timestamp;
