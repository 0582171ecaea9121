//! A verified evaluator for space-separated fraction arithmetic.
//!
//! An expression such as `1/3 + 2/6 × 3/5` is tokenized into an alternating
//! sequence of fractions and operators, validated, and evaluated in two
//! left-to-right passes (multiplication and division first, then addition and
//! subtraction); the final fraction is reduced to lowest terms.

pub mod calc;
pub mod eval;
pub mod fraction;
pub mod num;
pub mod parse;
pub mod render;
