use vstd::prelude::*;

verus! {

/// One captured line of a script's output, tagged with the stream it came from.
#[derive(Clone, Debug, PartialEq)]
pub enum IO {
    Stdout(String),
    Stderr(String),
}

/// Which of a script's two activity indicators a chunk of output lights up.
#[derive(Clone, Copy, Debug, PartialEq, Eq)]
pub enum ActivityLight {
    Stdout,
    Stderr,
}

/// A log line: its capture time (nanoseconds since the Unix epoch) and its text.
pub type LogEntry = (u64, IO);

/// Strict order of log entries in the merged feed: by time, then by source id,
/// then by position within the source.
pub open spec fn key_lt(ta: u64, sa: int, pa: int, tb: u64, sb: int, pb: int) -> bool {
    ta < tb || (ta == tb && (sa < sb || (sa == sb && pa < pb)))
}

/// Executable form of `key_lt`.
pub fn entry_before(ta: u64, sa: usize, pa: usize, tb: u64, sb: usize, pb: usize) -> (r: bool)
    ensures
        r == key_lt(ta, sa as int, pa as int, tb, sb as int, pb as int),
{
    ta < tb || (ta == tb && (sa < sb || (sa == sb && pa < pb)))
}

} // verus!
