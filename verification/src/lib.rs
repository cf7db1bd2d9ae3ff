//! A small regular-expression engine with machine-checked contracts.
//!
//! A pattern is parsed into an expression tree, the tree is turned into a
//! nondeterministic automaton by Thompson's construction, the automaton is
//! determinized by the subset construction, and the deterministic automaton
//! is used to find every matching substring of a text.

pub mod app;
pub mod builtin;
pub mod custom_regex;
pub mod dfa;
pub mod engines;
pub mod flags;
pub mod language;
pub mod nfa;
pub mod parser;
pub mod size;
pub mod text;
pub mod unparse;
pub mod walks;
