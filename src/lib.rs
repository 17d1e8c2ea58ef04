//! Finite automata: a table-driven deterministic executor and a
//! Thompson-style nondeterministic builder with its simulator.
pub mod automaton;
pub mod model;
pub mod nfa;
pub mod text;
