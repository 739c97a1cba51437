//! A small static scanner for PHP sources.
//!
//! The library walks no directories and prints nothing itself: it holds the
//! decision logic of the scanner, verified. Callers hand it paths and file
//! contents as plain bytes and get back the diagnostics the rules produce.
//!
//! - [`rules`] defines the four line-level rules and decides each one.
//! - [`lines`] splits file content into lines and trims them for display.
//! - [`scan`] runs every rule over every line and yields [`scan::Diagnostic`]s.
//! - [`walk`] decides which discovered file paths are scanned at all.

pub mod lines;
pub mod rules;
pub mod scan;
pub mod walk;
