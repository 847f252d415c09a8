//! The options of the command-line tool.
use vstd::prelude::*;

verus! {

/// Swap UUIDs in a world save.
#[derive(Debug, Clone)]
pub struct Args {
    /// The world (or server) directory.
    pub world: String,
    /// The JSON / JSONC file of UUID pairs.
    pub map: String,
    /// Do not ask before changing files.
    pub no_backup_warning: bool,
}

/// Why a run started from the graphical front end failed.
#[derive(Debug, Clone)]
pub enum ProcessError {
    Other(String),
    PoisonedLock,
}

} // verus!
