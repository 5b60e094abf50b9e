//! A brute-force solver for the train game: combine the four digits of a
//! carriage number with one operator per gap, and factorials where they
//! help, so that the expression `((d1 op1 d2) op2 d3) op3 d4` reaches a
//! target.
//!
//! Every operator is guarded: an operand outside its domain, or a result
//! outside `i128`, is reported as an [`error::ArithmeticError`] and never
//! wraps or panics. A search passes over the candidates that fail and keeps
//! those that reach the target, in the order in which it tries them.

pub mod enumerate;
pub mod error;
pub mod evaluate;
pub mod input;
pub mod math;
pub mod operator;
pub mod render;
pub mod search;
