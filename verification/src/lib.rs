//! Minimization of deterministic finite automata by partition refinement.

pub mod automaton;
pub mod error;
pub mod graph;
pub mod hopcroft;
pub mod model;
pub mod partition;
pub mod quotient;
pub mod reconstruct;
pub mod round_trip;
pub mod text;
pub mod theorems;

