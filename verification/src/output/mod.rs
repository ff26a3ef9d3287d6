//! Metadata as text: single values, rows and records.

pub mod fields;
pub mod get;
pub mod human;
pub mod json;
pub mod laws;
pub mod rows;
