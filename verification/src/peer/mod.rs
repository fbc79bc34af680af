//! The peer wire protocol.

pub mod connection;
pub mod handshake;
pub mod identity;
pub mod laws;
pub mod message;

pub use connection::{CmdMsg, PeerId, PeerMsg};
