//! A shogi engine and its referee, verified.

pub mod bench;
pub mod board;
pub mod diagram;
pub mod position;
pub mod referee;
pub mod search;
pub mod shogi;
pub mod text;
pub mod usi;
