//! The options of a scan.

use vstd::prelude::*;
use std::path::PathBuf;

verus! {

/// Filesystem paths are carried through the library without being inspected.
#[verifier::external_type_specification]
#[verifier::external_body]
pub struct ExPathBuf(PathBuf);

/// The options of a scan, as given on the command line.
#[derive(Debug)]
pub struct Args {
    /// Path(s) to check size for. If omitted, checks the current directory.
    pub paths: Vec<PathBuf>,
    /// Follow symbolic links
    pub follow_links: bool,
    /// Respect .gitignore files
    pub git_ignore: bool,
    /// Respect .ignore files
    pub ignore_files: bool,
    /// Ignore hidden files
    pub ignore_hidden: bool,
    /// Maximum depth to recurse
    pub max_depth: Option<usize>,
    /// Use the provided number of threads
    pub threads: Option<usize>,
    /// Show size in raw bytes
    pub bytes: bool,
    /// Use SI units (1000 bytes = 1 KB) instead of 1024
    pub si: bool,
    /// Don't cross filesystem boundaries
    pub one_file_system: bool,
    /// Show top N largest files
    pub top: Option<usize>,
    /// Suppress headers and footer
    pub silent: bool,
}

impl Args {
    /// The options of a benchmark run over one directory: sizes in raw
    /// bytes, silent, no filtering, no top list, and the given thread count.
    pub fn benchmark_defaults(path: PathBuf, threads: Option<usize>) -> (args: Args)
        ensures
            args.paths@ == seq![path],
            !args.follow_links,
            !args.git_ignore,
            !args.ignore_files,
            !args.ignore_hidden,
            args.max_depth == None::<usize>,
            args.threads == threads,
            args.bytes,
            !args.si,
            !args.one_file_system,
            args.top == None::<usize>,
            args.silent,
    {
        let mut paths = Vec::new();
        paths.push(path);
        Args {
            paths,
            follow_links: false,
            git_ignore: false,
            ignore_files: false,
            ignore_hidden: false,
            max_depth: None,
            threads,
            bytes: true,
            si: false,
            one_file_system: false,
            top: None,
            silent: true,
        }
    }
}

} // verus!
