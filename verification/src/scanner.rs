//! Files found by a scan, and the scanner's settings. Walking the directory
//! tree and reading metadata is left to the caller.
use vstd::prelude::*;
use crate::identity::FileIdentity;

verus! {

/// A file found by a scan.
#[derive(Debug, Clone)]
pub struct FileEntry {
    /// Full path of the file.
    pub path: String,
    /// File name, the last component of the path.
    pub name: String,
    /// Size in bytes.
    pub size: u64,
    /// Last modification, in seconds since the Unix epoch.
    pub mtime: i64,
    /// Identity of the file.
    pub identity: FileIdentity,
}

/// Settings of a directory scan.
pub struct Scanner {
    workers: usize,
}

impl Scanner {
    /// A scanner that works with `workers` threads.
    pub fn new(workers: usize) -> (r: Self)
        ensures
            r.workers() == workers,
    {
        Scanner { workers }
    }

    /// Number of threads the scan works with.
    #[verifier::when_used_as_spec(spec_workers)]
    pub fn workers(&self) -> (r: usize)
        ensures
            r == self.spec_workers(),
    {
        self.workers
    }

    /// Number of threads the scan works with.
    pub closed spec fn spec_workers(&self) -> usize {
        self.workers
    }
}

/// The modification time stored for a file: whole seconds since the Unix
/// epoch, as a signed number, or 0 when the time lies before the epoch.
pub open spec fn mtime_of(since_epoch: Option<u64>) -> i64 {
    match since_epoch {
        Some(secs) => secs as i64,
        None => 0,
    }
}

/// The modification time to store, from the whole seconds since the epoch
/// (`None` when the modification time lies before the epoch).
pub fn mtime_seconds(since_epoch: Option<u64>) -> (r: i64)
    ensures
        r == mtime_of(since_epoch),
{
    match since_epoch {
        Some(secs) => secs as i64,
        None => 0,
    }
}

} // verus!
