//! Jeremy's Awesome Protocol: packets, their wire format, acknowledgements
//! and the sliding-window decisions of its sender and receiver.
use vstd::prelude::*;

pub mod acker;
pub mod codec;
pub mod error;
pub mod orchestrator;
pub mod order;
pub mod packet;
pub mod receiver;
pub mod sender;
pub mod value;
pub mod wire;

pub use acker::Acker;
pub use error::JapError;
pub use packet::Packet;
pub use value::{Ack, FileData, PacketValue};

verus! {

/// Sequence number of a packet.
pub type SeqNum = u32;

/// Largest datagram the protocol sends, in bytes.
pub const MTU: usize = 1500;

} // verus!
