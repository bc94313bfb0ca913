//! Core data structures.
use vstd::prelude::*;

verus! {

/// A file's content as a sequence of per-line hashes, with its lines.
pub struct FileDescription {
    /// Path to the source file.
    pub filename: String,
    /// Hash of each line (after normalization).
    pub hashes: Vec<u64>,
    /// The lines as written, indentation kept.
    pub lines: Vec<String>,
}

impl FileDescription {
    /// Returns the number of lines in the file.
    pub fn len(&self) -> (n: usize)
        ensures
            n == self.hashes@.len(),
    {
        self.hashes.len()
    }

    /// Returns true if the file has no lines.
    pub fn is_empty(&self) -> (b: bool)
        ensures
            b == (self.hashes@.len() == 0),
    {
        self.hashes.len() == 0
    }
}

/// A half-open range of line indices `start..end` (0-based).
#[derive(Debug, Clone, Copy, PartialEq, Eq, Structural)]
pub struct Range {
    /// First line of the range.
    pub start: usize,
    /// One past the last line of the range.
    pub end: usize,
}

impl Range {
    /// Creates the range `start..end`.
    pub fn new(start: usize, end: usize) -> (r: Range)
        ensures
            r.start == start,
            r.end == end,
    {
        Range { start, end }
    }

    /// Number of lines in the range.
    pub fn len(&self) -> (n: usize)
        requires
            self.start <= self.end,
        ensures
            n == self.end - self.start,
    {
        self.end - self.start
    }
}

/// One run of an alignment between two files: a pair of ranges that hold
/// the same lines, or a pair that differ.
#[derive(Debug, Clone, Copy, PartialEq, Eq, Structural)]
pub enum LineRange {
    /// `r1` in the first file and `r2` in the second hold identical lines.
    Same { r1: Range, r2: Range },
    /// `r1` in the first file and `r2` in the second differ.
    Diff { r1: Range, r2: Range },
}

/// The alignment of two files as a sequence of runs.
pub struct ComparisonResult<'a> {
    /// The first file of the pair.
    pub f1: &'a FileDescription,
    /// The second file of the pair.
    pub f2: &'a FileDescription,
    /// The runs, in file order.
    pub runs: Vec<LineRange>,
}

} // verus!
