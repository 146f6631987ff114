//! A small symbolic arithmetic expression algebra.
//!
//! Expression trees are built from exact integer literals, negations, sums,
//! products, fractions and named constants.  The simplifier reduces a tree to
//! a canonical form by order-independent, multiplicity-based cancellation of
//! structurally equal terms followed by exact literal folding.  Keeping the
//! arithmetic symbolic until the very end lets cancellations such as
//! `pi + 1 - pi` come out exact, where floating-point evaluation would not.

pub mod canonical;
pub mod consts;
pub mod expr;
pub mod laws;
pub mod render;
pub mod simplify;
