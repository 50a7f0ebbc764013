//! What the user types: characters in, commands out.

pub mod command;
pub mod reader;
