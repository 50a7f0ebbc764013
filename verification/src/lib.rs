//! A small synchronisation protocol for a real-time multiplayer simulation,
//! built on unreliable datagrams.
//!
//! - `protocol`: the wire format, lines of text, and the messages that
//!   travel in it: actions from the client, perceptions from the server.
//! - `client`: the action assembler, which sends every step again until the
//!   server confirms it; what the client makes of perceptions; the line
//!   editor, the commands, and the frame on the player's screen.
//! - `server`: the session registry, the perception packetizer, one tick of
//!   the service over datagrams, and the decisions of the loop over
//!   connections.
//! - `clock` and `strings`: what the others share.
//!
//! Nothing here reads a socket, a terminal or a file: the programs around
//! the library do, and hand it plain values.

pub mod client;
pub mod clock;
pub mod protocol;
pub mod server;
pub mod strings;
