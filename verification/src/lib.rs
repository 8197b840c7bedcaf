//! Parser for chemical molecular formulas such as `K4[ON(SO3)2]2`.
//!
//! A formula is turned into tokens ([`lexer`]), the tokens into a tree that
//! mirrors the bracket nesting ([`parser`]), and the tree into a list of
//! element totals in which every element occurs once ([`merge`]).
//! [`grammar`] says in mathematical terms what a formula denotes, and every
//! function carries a contract over it; [`laws`] proves what holds of the
//! pipeline as a whole.

pub mod error;
pub mod grammar;
pub mod laws;
pub mod lexer;
pub mod merge;
pub mod model;
pub mod parser;
