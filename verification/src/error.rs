//! The ways in which building, reading or minimizing an automaton can fail.

use vstd::prelude::*;

verus! {

/// Why an automaton was refused.
#[derive(Debug, Clone, Copy, PartialEq, Eq, Structural)]
pub enum AutomatonError {
    /// The start state is no declared state, or a transition names a state
    /// that was not declared.
    MalformedAutomaton,
    /// A state name was declared twice.
    DuplicateState,
    /// A state already has a transition on the symbol.
    DuplicateTransition,
    /// A transition line holds fewer than three fields.
    IncompleteTransition,
    /// The graph has no room for one more state or transition.
    CapacityExceeded,
    /// The blocks handed to reconstruction do not partition the states, so
    /// that some state cannot be found in exactly one block.
    UnreachableBlock,
}

} // verus!
