//! The USI protocol: what a GUI sends, what the engine makes of it, and what it
//! says.

pub mod command;
pub mod engine;
pub mod options;
pub mod output;
