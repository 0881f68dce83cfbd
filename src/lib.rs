//! Multivariate polynomials over wrap-around 64-bit integers, monomial
//! orderings, multivariate division and Buchberger completion.
//!
//! - `variable`, `term`: variables and power products, with product,
//!   quotient, least common multiple and degree.
//! - `order`: monomial orderings (lexicographic and graded lexicographic).
//! - `polynomial`: canonical polynomials and their ring operations;
//!   coefficients are `i64` taken modulo 2^64.
//! - `division`: division by a single divisor.
//! - `groebner`: S-polynomials and Buchberger's completion.
//! - `monomial`, `ring`: monomial products and the integers modulo `n`.
//! - `notation`, `display`: the textual notation, read and written.
pub mod variable;
pub mod term;
pub mod join;
pub mod order;
pub mod polynomial;
pub mod division;
pub mod groebner;
pub mod monomial;
pub mod ring;
pub mod notation;
pub mod display;
