//! The calculator skill.

pub mod grammar;
pub mod eval;
pub mod skill;
