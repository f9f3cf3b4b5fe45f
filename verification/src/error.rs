//! What can go wrong between a message and its stored entry.

use vstd::prelude::*;

verus! {

/// The ways in which encoding, decoding and fetching fail. None of them is
/// retried here: the caller knows whether a failure is worth another try.
#[derive(Debug, Clone, PartialEq, Eq)]
pub enum StoreError {
    /// A text does not hold a payload. Writing a payload as text never
    /// fails, so only reading gives this error.
    Serialization,
    /// A text is not the text of any key.
    MalformedKey,
    /// A stored entry has a key or a payload that cannot be read; `key` is
    /// the entry's key as it is stored.
    CorruptEntry { key: Vec<u8> },
}

impl StoreError {
    /// This error reports a corrupt entry stored under `key`.
    pub open spec fn is_corrupt_entry(self, key: Seq<u8>) -> bool {
        self matches StoreError::CorruptEntry { key: k } && k@ == key
    }
}

} // verus!
