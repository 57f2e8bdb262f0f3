//! Verified logic of a set of assistant skills: an arithmetic calculator,
//! a Bech32 decoder, compression and unit-conversion front ends, a clock,
//! and the data layout used when training the skill models.

pub mod text;
pub mod decimal;
pub mod calc;
pub mod token;
pub mod media;
pub mod bech32_skill;
pub mod shell;
pub mod compression;
pub mod unit;
pub mod time;
pub mod modelgen;
