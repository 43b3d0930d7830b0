//! The commands the diary tool accepts.
use vstd::prelude::*;

verus! {

/// A parsed command line: one command to run.
pub struct Cli {
    pub command: Command,
}

/// What to do with a diary.
#[derive(Clone)]
pub enum Command {
    /// Create a new diary directory called `name`.
    New { name: String },
    /// Unseal the container `name.diary` into the directory `name`.
    Open { name: String },
    /// Seal the directory `name` into `name.diary`, compressing at `level` (1 to 9).
    Close { name: String, level: u32 },
    /// Work on the entries of the diary in the current directory.
    Entry { entry_command: EntryCommand },
}

/// What to do with the entries of an open diary.
#[derive(Clone)]
pub enum EntryCommand {
    /// Add an entry called `name`.
    Add { name: String },
    /// Remove the entry called `name`.
    Remove { name: String },
    /// List every entry.
    List,
    /// List the entries whose name contains `query`.
    Search { query: String },
}

} // verus!
