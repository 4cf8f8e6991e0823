//! Construction and minimization of deterministic finite automata.
//!
//! An automaton is built state by state from a grammar or a list of
//! literal tokens, determinized by subset construction, stripped of
//! unreachable and dead states, completed with an explicit error state,
//! and finally rendered as a transition table or a graph.

mod complete;
mod determinize;
mod dfa;
mod digits;
mod parser;
mod paths;
mod prune;
mod render;
mod seq_facts;

pub use dfa::Dfa;
pub use dfa::State;
pub use dfa::Transitable;
pub use dfa::Transition;
pub use parser::parse_grammar;
