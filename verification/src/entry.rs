use vstd::prelude::*;

verus! {

/// A pointer into the log: the byte range `[position, position + offset)`
/// holding one value's payload. Immutable once created; a key's pointer is
/// replaced wholesale on overwrite, never mutated in place.
#[derive(Clone, Copy, Debug, PartialEq, Eq, Structural)]
pub struct Entry {
    /// Byte offset of the value's first byte inside the log.
    pub position: u64,
    /// Number of bytes the value occupies.
    pub offset: usize,
}

impl Entry {
    pub fn new(position: u64, offset: usize) -> (e: Entry)
        ensures
            e.position == position,
            e.offset == offset,
    {
        Entry { position, offset }
    }

    /// The first byte past this entry's range.
    pub open spec fn end(self) -> int {
        self.position + self.offset
    }

    /// The byte range lies inside a log of `len` bytes.
    pub open spec fn in_bounds(self, len: int) -> bool {
        self.position + self.offset <= len
    }
}

} // verus!
