//! Detection of telltale machine-writing patterns in prose.
//!
//! The library works on the UTF-8 bytes of a text, as `str::as_bytes`
//! gives them. Positions are reported as 1-based line numbers and 1-based
//! columns counted in characters.
pub mod text;
pub mod chars;
pub mod bytescan;
pub mod matcher;
pub mod prose;
pub mod patterns;
pub mod rhetoric;
pub mod cadence;
pub mod config;
pub mod metrics;
pub mod frequency;
pub mod check;
pub mod report;
