//! The command surface as plain data. Argument parsing lives in the
//! surrounding binary, which hands over one of these values.

use vstd::prelude::*;

verus! {

/// A parsed invocation.
#[derive(Clone, Debug)]
pub struct Cli {
    pub command: Commands,
}

/// The commands the tool answers to.
#[derive(Clone, Debug)]
pub enum Commands {
    /// Scan the inbox for stale files.
    Scan,
    /// Interactively review and archive files.
    Review,
    /// Archive files to the graveyard.
    Archive { item: Option<String>, all: bool, note: Option<String> },
    /// Copy files from the graveyard back to the inbox.
    Resurrect { pattern: String },
    /// Search for files in the graveyard.
    Search { pattern: String },
    /// Show the configuration.
    Config,
}

} // verus!
