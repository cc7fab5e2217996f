//! The rules of the game: how an expression is read and evaluated, how
//! parentheses are resolved, and how a puzzle is made.

pub mod arithmetic;
pub mod evaluator;
pub mod generator;
pub mod prompt;
pub mod resolver;
pub mod round;
pub mod sums;
pub mod text;

pub use arithmetic::{EvalError, Operator};
pub use evaluator::{calculate, simexer};
pub use generator::{generate_puzzle, Puzzle};
pub use resolver::{deparenthesizer, ResolveError};
pub use round::{judge, Verdict};
