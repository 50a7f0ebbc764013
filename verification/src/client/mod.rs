//! The client's side of the protocol.

pub mod action_assembler;
pub mod input;
pub mod input_sender;
pub mod network;
pub mod output;
pub mod platform;
pub mod player_output;
pub mod run;
pub mod screen;
pub mod ui;
