//! The referee: a game, its history, and the rules that every move is held to.

pub mod declaration;
pub mod game;
pub mod inventory;
pub mod moves;
pub mod repetition;
pub mod types;
