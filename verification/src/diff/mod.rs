//! Comparison of two versions of a plugin.
pub mod align;
pub mod array_diff;
pub mod calibrate;
pub mod databases;
pub mod edits;
pub mod kept;
pub mod keys;
pub mod laws;
pub mod lists;
pub mod noise;
pub mod quiet;
pub mod reach;
pub mod report;
pub mod restamp;
pub mod told;
