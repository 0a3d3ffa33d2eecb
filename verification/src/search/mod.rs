//! Search and evaluation.

pub mod budget;
pub mod clock;
pub mod declaration;
pub mod eval;
pub mod extension;
pub mod game;
pub mod info;
pub mod job;
pub mod model;
pub mod moves;
pub mod negamax;
pub mod ordering;
pub mod placeholder;
pub mod reduction;
pub mod repetition;
pub mod score;
pub mod soundness;
pub mod tt;
