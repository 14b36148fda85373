//! Memory inspection data model and parsers.

pub mod cli;
pub mod format;
pub mod parsers;
pub mod report;
pub mod text;
pub mod tui;
pub mod types;
