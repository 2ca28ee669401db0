//! Grammar analysis for an EBNF front end: desugaring of rule trees into plain
//! productions, and the FIRST and FOLLOW sets of the resulting grammar.

pub mod symbol;
pub mod symset;
pub mod first;
pub mod follow;
pub mod lexer;
pub mod parser;
pub mod ebnf2gram;
