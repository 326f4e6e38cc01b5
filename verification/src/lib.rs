//! Fossil: a library that unearths technical-debt annotations (TODO, FIXME,
//! HACK and the like) from source trees, captures the surrounding context
//! lines, and attaches authorship and age metadata computed from repository
//! history.

pub mod cli;
pub mod clock;
pub mod filters;
pub mod git;
pub mod models;
pub mod pattern;
pub mod scanner;
pub mod text;

pub use models::{Config, DebtMarker, DebtReport, GitBlameInfo};
