//! An exact-fraction expression calculator.
//!
//! The crate evaluates arithmetic expressions over exact rational numbers,
//! supplied as one line of space-delimited tokens.  An input line is
//! tokenized, converted from infix to postfix order with the shunting-yard
//! algorithm, and evaluated with a value stack; every step carries a
//! contract that pins its result down exactly.

pub mod equation;
pub mod fraction;
pub mod gcd;
pub mod parse;
pub mod render;
