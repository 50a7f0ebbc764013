//! The server's side of the protocol.

pub mod address;
pub mod clients;
pub mod connections;
pub mod events;
pub mod framing;
pub mod id;
pub mod network;
pub mod receiver;
pub mod sender;
