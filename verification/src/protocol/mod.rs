//! The wire format and the messages that travel in it.

pub mod action;
pub mod bytes;
pub mod decode;
pub mod encode;
pub mod number;
pub mod part;
pub mod percept;
pub mod perception;
pub mod step;
pub mod text;
