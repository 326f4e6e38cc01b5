//! Command-line data model: what one invocation asks the library to do.
//! Argument parsing itself is left to the surrounding program; these types
//! carry the parsed request.

use vstd::prelude::*;

verus! {

/// The report formats a scan can be rendered in.
#[derive(Debug, Clone, Copy, PartialEq, Eq, Structural)]
pub enum OutputFormat {
    /// Formatted table output for a terminal.
    Terminal,
    /// Markdown.
    Markdown,
    /// JSON.
    Json,
}

/// Arguments of a scan: where to look, what to report, and which filters
/// to apply.
#[derive(Debug, Clone)]
pub struct ScanArgs {
    /// Directory to scan.
    pub path: String,
    /// Output format.
    pub format: OutputFormat,
    /// Output file; absent means standard output.
    pub output: Option<String>,
    /// Keep only markers older than this age (for example `30d`, `6m`).
    pub older_than: Option<String>,
    /// Keep only markers by this author.
    pub author: Option<String>,
    /// Keep only markers of this type.
    pub marker_type: Option<String>,
    /// Path to a custom configuration file.
    pub config: Option<String>,
    /// Show only the top N oldest markers.
    pub top: usize,
    /// Verbose output.
    pub verbose: bool,
}

/// The commands the tool offers.
#[derive(Debug, Clone)]
pub enum Commands {
    /// Scan a directory for technical-debt markers.
    Scan(ScanArgs),
}

/// A whole parsed command line.
#[derive(Debug, Clone)]
pub struct Cli {
    /// The command to run.
    pub command: Commands,
}

} // verus!
