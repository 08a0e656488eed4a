//! The result of a scan.

use vstd::prelude::*;
use std::path::PathBuf;
use std::time::Duration;

verus! {

/// `Clone` of `std::time::Duration`, a `Copy` type: std documents the clone
/// of a `Copy` value as a copy of it, which is what this states.
pub assume_specification[<Duration as Clone>::clone](d: &Duration) -> (res: Duration)
    ensures
        res == *d,
;

/// Totals and largest files of a finished scan.
#[derive(Debug, Clone)]
pub struct ScanSummary {
    pub total_size: u64,
    pub total_files: u64,
    pub total_dirs: u64,
    pub duration: Duration,
    /// The largest files, largest first.
    pub top_files: Vec<(u64, PathBuf)>,
}

impl ScanSummary {
    /// The number of entries seen: files plus directories.
    pub fn total_entries(&self) -> (n: u64)
        requires
            self.total_files + self.total_dirs <= u64::MAX,
        ensures
            n == self.total_files + self.total_dirs,
    {
        self.total_files + self.total_dirs
    }
}

} // verus!
