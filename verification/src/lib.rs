//! An implementation of the Ogg container bitstream format.
//!
//! The format multiplexes one or more logical packet streams onto a single
//! physical byte stream.  Three layers are covered here:
//!
//! * raw bytes are framed into pages (`SyncState`),
//! * pages belonging to one logical stream are reassembled into packets,
//!   and packets are segmented back into pages (`Stream`),
//! * the binary page layout, its custom CRC-32 checksum and the structural
//!   validation rules (`page`, `crc`).
//!
//! Decoding the packet payloads themselves is out of scope: once packets
//! come out, a codec library takes over.

use vstd::prelude::*;

pub mod crc;
pub mod laws;
pub mod packet;
pub mod page;
pub mod stream_state;
pub mod sync_state;

verus! {

/// An internal invariant violation, carrying the name of the operation in
/// which it was detected.
#[derive(Clone, Debug, PartialEq, Eq)]
pub struct InternalError(pub String);

impl InternalError {
    /// Render the message text for an internal error that occurred while
    /// running the named operation.
    pub fn fmt_str(function: &str) -> (r: String)
        ensures
            r@ == "an internal error occurred while running "@ + function@,
    {
        let msg = String::from_str("an internal error occurred while running ");
        msg.concat(function)
    }

    /// The message text for this error.
    pub fn message(&self) -> (r: String)
        ensures
            r@ == "an internal error occurred while running "@ + self.0@,
    {
        Self::fmt_str(self.0.as_str())
    }
}

} // verus!
