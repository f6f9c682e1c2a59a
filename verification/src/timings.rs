//! The domain model: per-file timing records, and the errors the timing
//! pipeline can report.

use vstd::prelude::*;

pub mod parse;
pub mod split;

pub use self::parse::parse_rspec_output;
pub use self::split::select_pre_bucketed_split;
pub use self::split::select_split;
pub use self::split::split_timings;

verus! {

/// Accumulated execution time of one test file.
///
/// `total_time` is a fixed-point duration in whole microseconds: one unit is
/// one microsecond, so `584_580` stands for 0.584580 seconds. Durations are
/// never negative, and accumulation saturates at `u64::MAX` microseconds
/// instead of wrapping.
#[derive(Debug, PartialEq, Eq)]
pub struct FileTiming {
    pub file_path: String,
    pub total_time: u64,
}

impl Clone for FileTiming {
    fn clone(&self) -> (r: Self)
        ensures
            r == *self,
    {
        FileTiming { file_path: self.file_path.clone(), total_time: self.total_time }
    }
}

/// Extraction failed: a `time` attribute value was present but was not a
/// valid decimal number of seconds. `value` is the first offending text.
#[derive(Debug, PartialEq, Eq)]
pub struct ParseError {
    pub value: String,
}

/// A requested split index was not within `[0, total_splits)`.
#[derive(Debug, PartialEq, Eq, Clone, Copy)]
pub struct InputRangeError {
    pub total_splits: u32,
    pub current_split: u32,
}

} // verus!
