//! Fast trimming, searching and integer parsing on UTF-8 text, with the same
//! results as the standard library's `trim_start_matches`, `find` and `parse`.
//! The scans walk the text in blocks of sixteen bytes, one lane mask per block.
pub mod from;
pub mod int_laws;
pub mod laws;
pub mod lemmas;
pub mod model;
pub mod pattern;
pub mod simd_string;
pub mod string;

pub use crate::from::FromSimdString;
pub use crate::model::ParseIntError;
pub use crate::simd_string::ToSimdString;
pub use crate::string::SimdString;
