//! The event/command vocabulary crossing the controller boundary.  Messages
//! are the sole unit exchanged between the controller, the watch adapter, and
//! the transport around them; paths travel as lists of components.

use vstd::prelude::*;

verus! {

/// One event or command for the change controller.
#[derive(Debug, Clone, PartialEq, Eq)]
pub enum Message {
    /// A file appeared at the given absolute path.
    FileCreated { path: Vec<String> },
    /// The file at the given absolute path is gone.
    FileRemoved { path: Vec<String> },
    /// A peer asks for the content of the file keyed by this path hash.
    /// Reserved: the controller does not serve it yet.
    FileRequest { relative_path_hash: [u8; 32] },
    /// A peer announces a change to apply locally.  Reserved placeholder with
    /// no payload.
    ExternalChange {},
}

} // verus!
