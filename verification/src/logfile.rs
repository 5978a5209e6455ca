use vstd::prelude::*;

use crate::entry::Entry;
use crate::error::Error;

verus! {

/// The append-only log: a raw concatenation of value payloads with no
/// header, no delimiters and no key markers. Only the index knows record
/// boundaries. It grows monotonically between compactions.
pub struct LogFile {
    /// The raw bytes, in append order.
    pub data: Vec<u8>,
}

impl View for LogFile {
    type V = Seq<u8>;

    open spec fn view(&self) -> Seq<u8> {
        self.data@
    }
}

impl LogFile {
    /// A fresh, empty log.
    pub fn empty() -> (l: LogFile)
        ensures
            l@ == Seq::<u8>::empty(),
    {
        LogFile { data: Vec::new() }
    }

    /// Adopt `bytes`, as read back from the log file, as the full contents.
    pub fn from_bytes(bytes: Vec<u8>) -> (l: LogFile)
        ensures
            l@ == bytes@,
    {
        LogFile { data: bytes }
    }

    /// Give up the full contents, to be written out to the log file.
    pub fn into_bytes(self) -> (bytes: Vec<u8>)
        ensures
            bytes@ == self@,
    {
        self.data
    }

    /// A borrowed view of the full contents.
    pub fn bytes(&self) -> (bytes: &Vec<u8>)
        ensures
            bytes@ == self@,
    {
        &self.data
    }

    /// Number of bytes in the log; what the compaction trigger looks at.
    pub fn size(&self) -> (n: usize)
        ensures
            n == self@.len(),
    {
        self.data.len()
    }

    /// Write `bytes` at the current end of the log and return a pointer to
    /// where they landed. Always grows the log; never overwrites.
    pub fn append(&mut self, bytes: &[u8]) -> (e: Entry)
        requires
            old(self)@.len() + bytes@.len() <= usize::MAX,
        ensures
            final(self)@ == old(self)@ + bytes@,
            e.position == old(self)@.len(),
            e.offset == bytes@.len(),
            e.in_bounds(final(self)@.len() as int),
    {
        let position = self.data.len() as u64;
        let offset = bytes.len();
        self.data.extend_from_slice(bytes);
        Entry::new(position, offset)
    }

    /// Read back exactly the byte range `e` points at. Fails with
    /// [`Error::ReadFailure`] exactly when the log is shorter than the
    /// range requires (truncation or corruption).
    pub fn read(&self, e: &Entry) -> (r: Result<Vec<u8>, Error>)
        ensures
            e.in_bounds(self@.len() as int) ==> (r matches Ok(v)
                && v@ == self@.subrange(e.position as int, e.end())),
            !e.in_bounds(self@.len() as int) ==> r == Err::<Vec<u8>, Error>(Error::ReadFailure),
    {
        let len = self.data.len();
        if e.position > len as u64 || e.offset as u64 > len as u64 - e.position {
            return Err(Error::ReadFailure);
        }
        let start = e.position as usize;
        let end = start + e.offset;
        let mut v: Vec<u8> = Vec::new();
        let mut j: usize = start;
        while j < end
            invariant
                start <= j <= end,
                start == e.position,
                end == start + e.offset,
                end <= self.data@.len(),
                v@ == self@.subrange(start as int, j as int),
            decreases end - j,
        {
            v.push(self.data[j]);
            j += 1;
            proof {
                assert(v@ =~= self@.subrange(start as int, j as int));
            }
        }
        Ok(v)
    }
}

} // verus!
