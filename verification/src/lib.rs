//! Verified core of a parallel disk-usage analyzer: human-readable sizes,
//! gradient rendering, top-N largest-file selection, scan accumulation,
//! traversal-mode decisions and benchmark fixture planning.

pub mod text;
pub mod render;
pub mod top;
pub mod cli;
pub mod scan;
pub mod walker;
pub mod benchmark;
pub mod fixture;
pub mod reference_args;
pub mod binary64;
pub mod binary32;
