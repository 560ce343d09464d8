//! A container entry payload: a slice borrowed from the input buffer for
//! pass-through entries, or an owned buffer for transcoded ones.
use vstd::prelude::*;

verus! {

/// Bytes of one output entry, borrowed or owned.
pub enum EntryData<'a> {
    /// A pass-through payload borrowed from the source container.
    Borrowed(&'a [u8]),
    /// A transcoded payload owned by the caller.
    Owned(Vec<u8>),
}

impl<'a> EntryData<'a> {
    /// The payload bytes, whichever form holds them.
    pub open spec fn bytes(&self) -> Seq<u8> {
        match self {
            EntryData::Borrowed(b) => b@,
            EntryData::Owned(v) => v@,
        }
    }

    /// Borrows the payload bytes.
    pub fn as_slice(&self) -> (r: &[u8])
        ensures
            r@ == self.bytes(),
    {
        match self {
            EntryData::Borrowed(b) => b,
            EntryData::Owned(v) => v.as_slice(),
        }
    }

    /// The payload length in bytes.
    pub fn len(&self) -> (r: usize)
        ensures
            r == self.bytes().len(),
    {
        self.as_slice().len()
    }
}

} // verus!
