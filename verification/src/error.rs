//! The error vocabulary of the engine: duplicate index keys, malformed
//! records, and violated invariants.

use vstd::prelude::*;

verus! {

/// An insert found its key already present in the index.
#[derive(Debug, PartialEq, Eq, Structural, Clone, Copy)]
pub struct EntryConflict {}

/// A record of the binary index format could not be encoded or decoded.
#[derive(Debug, PartialEq, Eq, Structural, Clone, Copy)]
pub enum CodecError {
    /// A record's payload is too short to hold its fixed fields, its length
    /// field runs past the end of the input, or a record header is cut off.
    Truncated,
    /// The path prefix of a payload is not a well-formed '/'-joined list of
    /// nonempty, valid-UTF-8 components.
    InvalidPath,
    /// A record's length does not fit in the format's 32-bit length field.
    RecordTooLong,
}

/// An internal invariant was violated; carries a description of the failure.
#[derive(Debug)]
pub struct IllegalState {
    message: String,
}

impl IllegalState {
    /// Wraps a description of the violated invariant.
    pub fn new(message: String) -> (r: Self)
        ensures
            r@ == message@,
    {
        IllegalState { message }
    }

    /// The description this error was built with.
    pub fn message(&self) -> (r: &String)
        ensures
            r@ == self@,
    {
        &self.message
    }
}

impl View for IllegalState {
    type V = Seq<char>;

    closed spec fn view(&self) -> Seq<char> {
        self.message@
    }
}

} // verus!
