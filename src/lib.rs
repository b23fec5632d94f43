//! A reliable, ordered message transport over an unreliable datagram service:
//! a checksummed wire format, a three-way handshake, a sliding-window sender
//! and a reassembling receiver, each stated and proved with Verus.

pub mod error;
pub mod handshake;
pub mod packet;
mod random;
pub mod receiver;
pub mod sender;
