//! What can go wrong when building packets.
use vstd::prelude::*;

verus! {

/// Why a packet could not be built or written.
#[derive(Debug, Clone, Copy, PartialEq, Eq, Structural)]
pub enum JapError {
    /// A packet that carries no data does not fit the MTU, so it cannot be fragmented.
    NonDataExceedsMtu,
    /// The packet's bytes do not fit the MTU.
    ExceedsMtu,
    /// The MTU leaves no room for data in a fragment.
    NoRoomForData,
    /// Every packet of the batch is already acknowledged: there is nothing to send.
    NothingToSend,
}

} // verus!
