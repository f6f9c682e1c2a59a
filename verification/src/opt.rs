//! The tool's command surface: one variant per subcommand.
//!
//! This is plain data; the command-line front end parses its arguments into
//! this shape (file paths carried as strings) and dispatches on it.

use vstd::prelude::*;

verus! {

#[derive(Debug, PartialEq, Eq)]
pub enum Opt {
    /// Parse a test-runner report into timing records.
    Parse { rspec_file: String, output_file: String },
    /// Print one bucket of an already-partitioned timing file.
    SplitPreBucketed { total_splits: u32, current_split: u32, pre_bucketed_file: String },
    /// Balance the timing records and print one bucket.
    Split { total_splits: u32, current_split: u32, timing_file: String },
    /// Print every bucket with its total, optionally dumping the partition.
    Analyze { total_splits: u32, output_file: Option<String>, timing_file: String },
    /// List the spec files that have no timing record.
    OutputMissing { timing_file: String },
}

} // verus!
