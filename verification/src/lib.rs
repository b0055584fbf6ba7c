//! The front end of a small language of functions and arithmetic.
//!
//! Source text is an input that can be written again and again. What is
//! derived from it is derived by queries that remember their last run: the
//! program that parsing gives ([`parser`]), the function that a name stands for
//! and what is wrong in each function ([`type_check`]), and the diagnostics of
//! the whole ([`compile`]). A query runs again only if what it read has changed
//! ([`db`]). Every span of a function counts from the function's own start, so
//! that an edit elsewhere in the text leaves the function, and all that is
//! derived from it, as it was ([`moving`], [`laws`]).
//!
//! The set of queries is fixed, and none calls itself: a cycle among them
//! cannot arise.

pub mod compile;
pub mod db;
pub mod grammar;
pub mod interner;
pub mod ir;
pub mod laws;
pub mod lexer;
pub mod moving;
pub mod parser;
pub mod type_check;
pub mod visit;
