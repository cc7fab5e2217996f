//! A digits-and-operators puzzle game: the configuration record, the
//! arithmetic-expression engine and the puzzle generator, all verified.

pub mod config;
pub mod you_know_the_rules;

pub use config::ConfigData;
