//! Semantic diff for tables: rows are matched by key, or by content where
//! there is none, and values are compared rather than bytes.

pub mod column_laws;
pub mod content_laws;
pub mod diff_laws;
pub mod error;
pub mod error_laws;
pub mod filter;
pub mod filter_laws;
pub mod float;
pub mod hash;
pub mod infer;
pub mod infer_laws;
pub mod input;
pub mod key;
pub mod keyed_laws;
pub mod keyless;
pub mod keyless_laws;
pub mod merge;
pub mod order_laws;
pub mod plan;
pub mod plan_laws;
pub mod print_laws;
pub mod refusal_laws;
pub mod rename;
pub mod rename_laws;
pub mod report;
pub mod report_laws;
pub mod row_diff;
pub mod row_laws;
pub mod schema;
pub mod schema_diff;
pub mod sort;
pub mod text;
pub mod value;
pub mod value_laws;

use input::FileFormat;
pub use plan::run_diff;
use std::path::PathBuf;
use vstd::prelude::*;

verus! {

#[derive(Debug)]
pub struct DiffConfig {
    /// The two tables, as they are named in messages.
    pub left: String,
    pub right: String,
    /// Key column(s) used to match rows; inferred when None.
    pub key: Option<Vec<String>>,
    /// Tolerances for comparing floats, as bit patterns of doubles.
    pub tol_abs: Option<u64>,
    pub tol_rel: Option<u64>,
    /// Stop scanning after this many row differences.
    pub fail_fast: Option<usize>,
    /// Max example rows kept per category in the report.
    pub max_samples: usize,
    /// Sort-buffer budget before spilling to disk.
    pub memory_mb: usize,
    /// Match rows by whole-row content hash instead of a key.
    pub keyless: bool,
    /// Inputs are already sorted by the key: stream directly, skipping the
    /// sort phase entirely; order is verified on the fly.
    pub assume_sorted: bool,
    /// Where spill files go (defaults to the system temp dir).
    pub spill_dir: Option<PathBuf>,
    /// Force the input format for both sides instead of using file
    /// extensions (needed for extension-less temp files, e.g. from git).
    pub input_format: Option<FileFormat>,
}

/// The sort-buffer budget in bytes.
pub open spec fn budget_bytes(memory_mb: usize) -> nat {
    if memory_mb * 1048576 <= usize::MAX {
        (memory_mb * 1048576) as nat
    } else {
        usize::MAX as nat
    }
}

impl DiffConfig {
    /// The sort-buffer budget in bytes, or as many as can be counted.
    pub fn budget(&self) -> (r: usize)
        ensures
            r as nat == budget_bytes(self.memory_mb),
    {
        match self.memory_mb.checked_mul(1048576) {
            Some(bytes) => bytes,
            None => usize::MAX,
        }
    }
}

} // verus!
