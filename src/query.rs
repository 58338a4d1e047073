//! The filter language: tokens, expression tree, parser and planner.
pub mod filter;
pub mod lexer;
pub mod plan;
pub mod postings;
