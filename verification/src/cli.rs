//! The commands of the tool and their arguments, as plain data.
use vstd::prelude::*;

verus! {

/// How duplicates are found.
#[derive(PartialEq, Eq, Structural, Debug, Clone, Copy)]
pub enum DupMode {
    /// Files with the same full hash: equal contents.
    Full,
    /// Files with the same size and fast hash: probably equal contents.
    Fast,
}

impl DupMode {
    /// Whether files are grouped by size as well as by hash.
    pub fn groups_by_size(&self) -> (r: bool)
        ensures
            r == (*self == DupMode::Fast),
    {
        match self {
            DupMode::Full => false,
            DupMode::Fast => true,
        }
    }
}

/// Arguments of `index`: build the index of some folders.
pub struct IndexArgs {
    /// Folders to index; none means: ask in a dialog.
    pub path: Vec<String>,
    /// Database file.
    pub db: String,
    /// Compute the fast hash of each file.
    pub fast_hash: bool,
    /// Compute the full hash of each file.
    pub full_hash: bool,
    /// Number of worker threads.
    pub workers: usize,
}

/// Arguments of `update`: index again what changed in some folders.
pub struct UpdateArgs {
    /// Folders to update; none means: ask in a dialog.
    pub path: Vec<String>,
    /// Database file.
    pub db: String,
    /// Compute the fast hash of each changed file.
    pub fast_hash: bool,
    /// Compute the full hash of each changed file.
    pub full_hash: bool,
    /// Number of worker threads.
    pub workers: usize,
}

/// Arguments of `dup`: show the duplicates.
pub struct DupArgs {
    /// Database file.
    pub db: String,
    /// How duplicates are found.
    pub by: DupMode,
    /// Smallest file size to report, such as `10MB`.
    pub min_size: Option<String>,
}

/// Arguments of `export`: write the duplicates to files.
pub struct ExportArgs {
    /// Database file.
    pub db: String,
    /// How duplicates are found.
    pub by: DupMode,
    /// CSV file to write.
    pub csv: Option<String>,
    /// JSON file to write.
    pub json: Option<String>,
    /// Smallest file size to report, such as `10MB`.
    pub min_size: Option<String>,
}

/// Arguments of `stats`: show statistics of the index.
pub struct StatsArgs {
    /// Database file.
    pub db: String,
}

/// A command of the tool.
pub enum Commands {
    Index(IndexArgs),
    Update(UpdateArgs),
    Dup(DupArgs),
    Export(ExportArgs),
    Stats(StatsArgs),
}

/// The command line of the tool.
pub struct Cli {
    pub command: Commands,
}

} // verus!
