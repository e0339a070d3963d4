//! A minimal regular-expression matcher built on Thompson's construction.
//!
//! A pattern made of literal bytes and the operators `( ) | * + ?` is first
//! rewritten into postfix form, then compiled into a small nondeterministic
//! automaton, and finally run over input strings with a linear-time,
//! backtracking-free simulation that tracks the set of live states per byte.

pub mod crosscheck;
pub mod laws;
pub mod matcher;
pub mod nfa;
pub mod parser;
