//! The bookkeeping of a ring of records that is kept in a file: where the
//! next record is read or written, and where it lies in the file.

use vstd::prelude::*;

verus! {

/// The number of record slots that a file holds.
pub const SLOTS: usize = 10;

/// The head of the file: the positions to read and to write at, and the
/// number of positions that the ring goes round.
#[derive(Clone, Copy, Debug, PartialEq, Eq, Structural)]
pub struct Header {
    pub read_idx: usize,
    pub write_idx: usize,
    pub n: usize,
}

impl Header {
    /// The header of an empty ring of `n` positions.
    pub fn new(n: usize) -> (header: Header)
        ensures
            header == (Header { read_idx: 0, write_idx: 0, n }),
    {
        Header { read_idx: 0, write_idx: 0, n }
    }

    /// Nothing is waiting to be read.
    pub open spec fn is_empty(self) -> bool {
        self.read_idx == self.write_idx
    }

    /// No further record can be written.
    pub open spec fn is_full(self) -> bool {
        (self.write_idx + 1) % (self.n as int) == self.read_idx
    }

    /// What a read does: the slot to read and the header to write back, or
    /// `None` if the ring is empty or the read position names no slot.
    pub fn get(&self) -> (r: Option<(usize, Header)>)
        requires
            !self.is_empty() && self.read_idx < SLOTS ==> self.n > 0,
        ensures
            r == if self.is_empty() || self.read_idx >= SLOTS {
                None
            } else {
                Some(
                    (
                        self.read_idx,
                        Header {
                            read_idx: ((self.read_idx + 1) % (self.n as int)) as usize,
                            ..*self
                        },
                    ),
                )
            },
    {
        if self.read_idx == self.write_idx {
            return None;
        }
        if self.read_idx >= SLOTS {
            return None;
        }
        let next = (self.read_idx + 1) % self.n;
        Some((self.read_idx, Header { read_idx: next, write_idx: self.write_idx, n: self.n }))
    }

    /// What a write does: the slot to write and the header to write back, or
    /// `None` if the ring is full.
    pub fn put(&self) -> (r: Option<(usize, Header)>)
        requires
            self.n > 0,
            self.write_idx < usize::MAX,
        ensures
            r == if self.is_full() {
                None
            } else {
                Some(
                    (
                        self.write_idx,
                        Header {
                            write_idx: ((self.write_idx + 1) % (self.n as int)) as usize,
                            ..*self
                        },
                    ),
                )
            },
    {
        let next = (self.write_idx + 1) % self.n;
        if next == self.read_idx {
            None
        } else {
            Some((self.write_idx, Header { read_idx: self.read_idx, write_idx: next, n: self.n }))
        }
    }
}

/// The place in the file of the record in slot `index`, after a header of
/// `header_size` bytes and records of `payload_size` bytes each.
pub fn payload_offset(header_size: usize, payload_size: usize, index: usize) -> (r: u64)
    requires
        header_size + index * payload_size <= usize::MAX,
    ensures
        r == header_size + index * payload_size,
{
    (header_size + index * payload_size) as u64
}

} // verus!
