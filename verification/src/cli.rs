//! The arguments of the command line, once parsed.

use vstd::prelude::*;

verus! {

/// What the user asked for on the command line.
#[derive(Debug, Clone)]
pub struct Cli {
    /// Globs that say which files are candidates. Where the first names a
    /// directory, that directory is the root of the scan.
    pub patterns: Vec<String>,
    /// Take every candidate file, without the interactive selection.
    pub all: bool,
    /// File extensions, without dots, that a file must have one of.
    pub type_filter: Vec<String>,
    /// Globs whose matches start out selected in the interactive selection.
    pub select_globs: Vec<String>,
    /// Scan ignored files too.
    pub include_ignored: bool,
    /// Print what would be copied, and leave the clipboard alone.
    pub dry_run: bool,
}

impl Cli {
    /// Whether the interactive selection is asked to start with some files
    /// selected.
    pub fn wants_preselection(&self) -> (wants: bool)
        ensures
            wants == (self.select_globs@.len() > 0),
    {
        self.select_globs.len() > 0
    }

    /// Whether files are restricted to certain extensions.
    pub fn restricts_types(&self) -> (restricts: bool)
        ensures
            restricts == (self.type_filter@.len() > 0),
    {
        self.type_filter.len() > 0
    }
}

} // verus!
