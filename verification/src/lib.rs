//! Line deduplication with encoding-aware decoding.
//!
//! The pipeline decodes a file's raw bytes to canonical UTF-8 text,
//! splits the text into terminator-normalized lines, writes the first
//! occurrence of each distinct line followed by a single newline, and
//! reports counters for total, duplicate and written lines.

pub mod decode;
pub mod dedup;
pub mod lines;
pub mod pipeline;

use vstd::prelude::*;

verus! {

/// Counters for one deduplication run.
#[derive(Clone, Copy, Debug, PartialEq, Eq, Structural)]
pub struct Stats {
    pub total_lines: u64,
    pub duplicate_lines: u64,
    pub lines_written: u64,
}

impl Stats {
    /// The accounting invariant: every line read is either written or a duplicate.
    pub open spec fn consistent(self) -> bool {
        self.total_lines == self.duplicate_lines + self.lines_written
    }

    /// Sum two runs' counters into an aggregate total.
    pub fn merge(self, other: Stats) -> (r: Stats)
        requires
            self.total_lines + other.total_lines <= u64::MAX,
            self.duplicate_lines + other.duplicate_lines <= u64::MAX,
            self.lines_written + other.lines_written <= u64::MAX,
        ensures
            r.total_lines == self.total_lines + other.total_lines,
            r.duplicate_lines == self.duplicate_lines + other.duplicate_lines,
            r.lines_written == self.lines_written + other.lines_written,
            self.consistent() && other.consistent() ==> r.consistent(),
    {
        Stats {
            total_lines: self.total_lines + other.total_lines,
            duplicate_lines: self.duplicate_lines + other.duplicate_lines,
            lines_written: self.lines_written + other.lines_written,
        }
    }
}

impl Default for Stats {
    fn default() -> (r: Stats)
        ensures
            r.total_lines == 0,
            r.duplicate_lines == 0,
            r.lines_written == 0,
    {
        Stats { total_lines: 0, duplicate_lines: 0, lines_written: 0 }
    }
}

} // verus!
