//! Normalisation of linear equations given as text.
//!
//! An equation such as `3*(x + 2y - 5) = -4*(-8y + 10x + 2)` is scanned into
//! tokens, parsed into two expression trees, reduced to algebraic values and
//! folded into one coefficient per variable plus a constant.
//!
//! The library never rounds. Every coefficient is an exact [`Number`]: a
//! record of the arithmetic that produces it, which the caller folds in the
//! arithmetic of its choice. No decision the library takes depends on the
//! numeric value of a coefficient, so the record is complete.
pub mod algebra;
pub mod evaluator;
pub mod expression;
pub mod lexer;
pub mod number;
pub mod simplifier;
pub mod text;
pub mod tokenizer;
pub mod variables;

pub use number::Number;
pub use simplifier::{CanonicalEquation, Simplifier, SimplifierError};
