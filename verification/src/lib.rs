//! A small language of data-flow set equations and its fixed-point solver.
//!
//! The pipeline has four stages, each a module of its own:
//!
//! - [`lexer`] turns the source text into a sequence of classified tokens;
//! - [`parser`] builds a syntax tree from the tokens with a
//!   recursive-descent grammar assisted by an explicit operand stack;
//! - [`node`] simplifies the tree, collapsing single-child wrapper nodes;
//! - [`analysis`] solves the equation system by fixed-point iteration over
//!   sets of definition identifiers.

pub mod analysis;
pub mod lexer;
pub mod node;
pub mod parser;
