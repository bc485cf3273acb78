//! FIRST/FOLLOW analysis of grammars written in a small EBNF notation: a
//! tokenizer with bounded lookahead, an event-log parser, a builder from the
//! concrete tree to an abstract grammar, and the FIRST and FOLLOW sets.

pub mod analysis;
pub mod collections;
pub mod grammar;
pub mod lexer;
pub mod parser;
pub mod ring;
pub mod span;
pub mod token;
