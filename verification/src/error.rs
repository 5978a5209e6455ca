use vstd::prelude::*;

verus! {

/// Everything an engine operation can fail with. Every operation reports
/// failure through its result; none terminates the hosting process.
#[derive(Clone, Copy, Debug, PartialEq, Eq, Structural)]
pub enum Error {
    /// The log or snapshot file could not be created or opened.
    OpenFailure,
    /// The index snapshot is unreadable or malformed.
    CorruptIndex,
    /// A log read failed: the pointer reaches outside the stored bytes.
    ReadFailure,
    /// `remove` targeted a key that is not live.
    KeyNotFound,
    /// An I/O error interrupted the log rewrite; the store is unchanged.
    CompactionFailure,
}

} // verus!
