//! Validation and repair of a line-oriented dictionary source format: a
//! header, then entries made of a headword line and indented body lines that
//! carry a small bracketed tag language.
//!
//! - [`tags`]: the tag vocabulary and its classifier.
//! - [`lines`]: line roles and the table of legal role transitions.
//! - [`scanner`]: the per-line check of bracketed tags.
//! - [`repair`]: the pass that escapes unknown tags.
//! - [`document`]: decoding, line splitting, and the whole-document passes.
//! - [`sort`]: reordering entry blocks by headword.

pub mod document;
pub mod lines;
pub mod repair;
pub mod scanner;
pub mod sort;
pub mod tags;
pub mod text;
