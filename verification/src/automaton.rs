//! The automaton: named states, an alphabet, a start state, accepting states
//! and a graph of transitions.

use crate::error::AutomatonError;
use crate::graph::{
    graph_add_edge, graph_add_node, graph_edge_count, graph_edges, graph_edges_from, graph_new,
    graph_nodes, labelled, lemma_outgoing, outgoing, TransitionGraph,
};
use crate::model::{as_int, names, Dfa};
use vstd::prelude::*;

verus! {

/// A deterministic finite automaton. States are numbered in the order in
/// which they were added; the number of a state is the index of its node in
/// the graph.
pub struct Automaton {
    graph: TransitionGraph,
    states: Vec<String>,
    alphabet: Vec<String>,
    start_state: String,
    accepting_states: Vec<String>,
}

/// The transitions and the accepting states of an automaton, laid out for
/// lookup by state number and by the position of a symbol in the alphabet.
pub struct TransitionTable {
    pub moves: Vec<Vec<Option<usize>>>,
    pub accepting: Vec<bool>,
}

impl TransitionTable {
    /// The table holds the transition function and the accepting states of `dfa`.
    pub open spec fn represents(&self, dfa: Dfa) -> bool {
        &&& self.moves.len() == dfa.size()
        &&& self.accepting.len() == dfa.size()
        &&& forall|u: int| 0 <= u < dfa.size() ==> (#[trigger] self.moves[u]).len() == dfa.alphabet.len()
        &&& forall|u: int, k: int|
            0 <= u < dfa.size() && 0 <= k < dfa.alphabet.len() ==> as_int(#[trigger] self.moves[u][k])
                == dfa.step(u, dfa.alphabet[k])
        &&& forall|u: int| 0 <= u < dfa.size() ==> #[trigger] self.accepting[u] == dfa.is_accepting(u)
    }
}

/// The first position of `list` that holds `name`.
pub fn find_name(list: &Vec<String>, name: &String) -> (found: Option<usize>)
    ensures
        match found {
            Some(i) => i < list.len() && list[i as int]@ == name@ && forall|j: int|
                0 <= j < i ==> list[j]@ != name@,
            None => forall|j: int| 0 <= j < list.len() ==> list[j]@ != name@,
        },
{
    let mut i: usize = 0;
    while i < list.len()
        invariant
            i <= list.len(),
            forall|j: int| 0 <= j < i ==> list[j]@ != name@,
        decreases list.len() - i,
    {
        if list[i].eq(name) {
            return Some(i);
        }
        i += 1;
    }
    None
}

/// A copy of a list of strings.
pub fn clone_names(list: &Vec<String>) -> (copy: Vec<String>)
    ensures
        names(copy@) == names(list@),
{
    let mut copy: Vec<String> = Vec::new();
    let mut i: usize = 0;
    while i < list.len()
        invariant
            i <= list.len(),
            copy.len() == i,
            forall|j: int| 0 <= j < i ==> copy[j]@ == list[j]@,
        decreases list.len() - i,
    {
        copy.push(list[i].clone());
        i += 1;
    }
    assert(names(copy@) =~= names(list@));
    copy
}

impl View for Automaton {
    type V = Dfa;

    closed spec fn view(&self) -> Dfa {
        Dfa {
            alphabet: names(self.alphabet@),
            states: names(self.states@),
            start: self.start_state@,
            accepting: names(self.accepting_states@),
            transitions: graph_edges(self.graph),
        }
    }
}

impl Automaton {
    /// The nodes of the graph are the states, in their order.
    pub closed spec fn linked(&self) -> bool {
        graph_nodes(self.graph) == names(self.states@)
    }

    /// The automaton is consistent, and within the limits of its graph.
    pub open spec fn wf(&self) -> bool {
        &&& self.linked()
        &&& self@.wf()
        &&& self@.states.len() <= u32::MAX
        &&& self@.transitions.len() <= u32::MAX
    }

    /// An automaton without states, symbols and transitions.
    pub fn new() -> (automaton: Automaton)
        ensures
            automaton.wf(),
            automaton@ == Dfa::empty(),
    {
        let automaton = Automaton {
            graph: graph_new(),
            states: Vec::new(),
            alphabet: Vec::new(),
            start_state: String::new(),
            accepting_states: Vec::new(),
        };
        proof {
            assert(names(automaton.states@) =~= Seq::empty());
            assert(names(automaton.alphabet@) =~= Seq::empty());
            assert(names(automaton.accepting_states@) =~= Seq::empty());
        }
        automaton
    }

    /// The names of the states; the position of a name is the number of its state.
    pub fn states(&self) -> (list: &Vec<String>)
        ensures
            names(list@) == self@.states,
    {
        &self.states
    }

    /// The symbols of the alphabet.
    pub fn alphabet(&self) -> (list: &Vec<String>)
        ensures
            names(list@) == self@.alphabet,
    {
        &self.alphabet
    }

    /// The name of the start state.
    pub fn start_state(&self) -> (name: &String)
        ensures
            name@ == self@.start,
    {
        &self.start_state
    }

    /// The names of the accepting states.
    pub fn accepting_states(&self) -> (list: &Vec<String>)
        ensures
            names(list@) == self@.accepting,
    {
        &self.accepting_states
    }

    /// The number of states.
    pub fn num_states(&self) -> (n: usize)
        ensures
            n == self@.states.len(),
    {
        self.states.len()
    }

    /// Replaces the alphabet.
    pub fn set_alphabet(&mut self, alphabet: Vec<String>)
        requires
            old(self).wf(),
        ensures
            final(self).wf(),
            final(self)@ == old(self)@.with_alphabet(names(alphabet@)),
    {
        self.alphabet = alphabet;
    }

    /// Names the start state. The name need not be that of a state yet.
    pub fn set_start_state(&mut self, name: String)
        requires
            old(self).wf(),
        ensures
            final(self).wf(),
            final(self)@ == old(self)@.with_start(name@),
    {
        self.start_state = name;
    }

    /// Replaces the list of accepting state names. A name that no state
    /// bears marks no state.
    pub fn set_accepting_states(&mut self, accepting: Vec<String>)
        requires
            old(self).wf(),
        ensures
            final(self).wf(),
            final(self)@ == old(self)@.with_accepting(names(accepting@)),
    {
        self.accepting_states = accepting;
    }

    /// The number of the state that bears the name.
    pub fn state_index(&self, name: &String) -> (found: Option<usize>)
        requires
            self.wf(),
        ensures
            as_int(found) == self@.index_of(name@),
    {
        let found = find_name(&self.states, name);
        proof {
            let dfa = self@;
            match found {
                Some(i) => {
                    assert(dfa.states[i as int] == name@);
                    dfa.lemma_index_of(i as int);
                },
                None => {
                    assert(!dfa.states.contains(name@)) by {
                        if dfa.states.contains(name@) {
                            let j = choose|j: int| 0 <= j < dfa.states.len() && dfa.states[j] == name@;
                            assert(self.states[j]@ == name@);
                        }
                    }
                },
            }
        }
        found
    }

    /// Adds a state and returns its number. A name that is taken is refused.
    pub fn add_state(&mut self, name: String) -> (added: Result<usize, AutomatonError>)
        requires
            old(self).wf(),
        ensures
            final(self).wf(),
            match added {
                Ok(index) => {
                    &&& !old(self)@.states.contains(name@)
                    &&& index == old(self)@.states.len()
                    &&& final(self)@ == old(self)@.with_state(name@)
                },
                Err(e) => {
                    &&& final(self)@ == old(self)@
                    &&& if old(self)@.states.contains(name@) {
                        e == AutomatonError::DuplicateState
                    } else {
                        e == AutomatonError::CapacityExceeded && old(self)@.states.len() == u32::MAX
                    }
                },
            },
    {
        if self.state_index(&name).is_some() {
            return Err(AutomatonError::DuplicateState);
        }
        if self.states.len() >= u32::MAX as usize {
            return Err(AutomatonError::CapacityExceeded);
        }
        Ok(self.insert_state(name))
    }

    /// Adds a state whose name is known to be new, and returns its number.
    pub(crate) fn insert_state(&mut self, name: String) -> (index: usize)
        requires
            old(self).wf(),
            !old(self)@.states.contains(name@),
            old(self)@.states.len() < u32::MAX,
        ensures
            final(self).wf(),
            final(self)@ == old(self)@.with_state(name@),
            index == old(self)@.states.len(),
    {
        let ghost before = self@;
        let index = graph_add_node(&mut self.graph, name.clone());
        self.states.push(name);
        proof {
            assert(names(self.states@) =~= before.states.push(name@));
            assert(self@ == before.with_state(name@));
            assert(self@.states.no_duplicates());
        }
        index
    }

    /// Whether a transition may be added, and if not, why.
    pub open spec fn admits_transition(dfa: Dfa, from: int, symbol: Seq<char>, to: int) -> Result<
        (),
        AutomatonError,
    > {
        if !(0 <= from < dfa.size() && 0 <= to < dfa.size()) {
            Err(AutomatonError::MalformedAutomaton)
        } else if dfa.step(from, symbol) is Some {
            Err(AutomatonError::DuplicateTransition)
        } else if dfa.transitions.len() >= u32::MAX {
            Err(AutomatonError::CapacityExceeded)
        } else {
            Ok(())
        }
    }

    /// Adds a transition between two states, given by their numbers. A number
    /// that is no state's is refused, and so is a second transition from one
    /// state on one symbol.
    pub fn add_transition(&mut self, from: usize, symbol: String, to: usize) -> (added: Result<
        (),
        AutomatonError,
    >)
        requires
            old(self).wf(),
        ensures
            final(self).wf(),
            added == Self::admits_transition(old(self)@, from as int, symbol@, to as int),
            added is Ok ==> final(self)@ == old(self)@.with_transition(from as int, symbol@, to as int),
            added is Err ==> final(self)@ == old(self)@,
    {
        if from >= self.states.len() || to >= self.states.len() {
            return Err(AutomatonError::MalformedAutomaton);
        }
        if self.transition(from, &symbol).is_some() {
            return Err(AutomatonError::DuplicateTransition);
        }
        if graph_edge_count(&self.graph) >= u32::MAX as usize {
            return Err(AutomatonError::CapacityExceeded);
        }
        self.insert_transition(from, symbol, to);
        Ok(())
    }

    /// Adds a transition that is known to be admitted.
    pub(crate) fn insert_transition(&mut self, from: usize, symbol: String, to: usize)
        requires
            old(self).wf(),
            Self::admits_transition(old(self)@, from as int, symbol@, to as int) is Ok,
        ensures
            final(self).wf(),
            final(self)@ == old(self)@.with_transition(from as int, symbol@, to as int),
    {
        let ghost before = self@;
        graph_add_edge(&mut self.graph, from, to, symbol);
        proof {
            let after = self@;
            assert(after == before.with_transition(from as int, symbol@, to as int));
            let last = before.transitions.len() as int;
            assert forall|e1: int, e2: int|
                0 <= e1 < after.transitions.len() && 0 <= e2 < after.transitions.len()
                    && (#[trigger] after.transitions[e1]).0 == (#[trigger] after.transitions[e2]).0
                    && after.transitions[e1].1 == after.transitions[e2].1 implies e1 == e2 by {
                if e1 != e2 {
                    let e = if e1 == last { e2 } else { e1 };
                    assert(before.transitions[e] == (from as int, symbol@, before.transitions[e].2));
                    assert(before.has_edge(from as int, symbol@, before.transitions[e].2));
                }
            }
        }
    }

    /// The target of the transition on `symbol` among the transitions that leave `state`.
    fn find_move(&self, out: &Vec<(String, usize)>, state: usize, symbol: &String) -> (found: Option<usize>)
        requires
            self.wf(),
            labelled(out@) == outgoing(self@.transitions, state as int),
        ensures
            as_int(found) == self@.step(state as int, symbol@),
    {
        let ghost dfa = self@;
        let ghost list = outgoing(dfa.transitions, state as int);
        let mut i: usize = 0;
        while i < out.len()
            invariant
                i <= out.len(),
                self.wf(),
                dfa == self@,
                list == outgoing(dfa.transitions, state as int),
                labelled(out@) == list,
                forall|j: int| 0 <= j < i ==> out[j].0@ != symbol@,
            decreases out.len() - i,
        {
            if out[i].0.eq(symbol) {
                let to = out[i].1;
                proof {
                    assert(labelled(out@)[i as int] == (symbol@, to as int));
                    assert(list.contains((symbol@, to as int)));
                    lemma_outgoing(dfa.transitions, state as int, symbol@, to as int);
                    dfa.lemma_step_of_edge(state as int, symbol@, to as int);
                }
                return Some(to);
            }
            i += 1;
        }
        proof {
            if dfa.step(state as int, symbol@) is Some {
                let to = dfa.step(state as int, symbol@)->0;
                dfa.lemma_step_some(state as int, symbol@);
                lemma_outgoing(dfa.transitions, state as int, symbol@, to);
                let j = choose|j: int| 0 <= j < list.len() && list[j] == (symbol@, to);
                assert(labelled(out@)[j] == (symbol@, to));
                assert(out[j].0@ == symbol@);
            }
        }
        None
    }

    /// The transitions that leave a state, as (symbol, target), the one
    /// added last first.
    pub fn transitions_from(&self, state: usize) -> (out: Vec<(String, usize)>)
        requires
            self.wf(),
        ensures
            labelled(out@) == outgoing(self@.transitions, state as int),
    {
        if state >= self.states.len() {
            let out: Vec<(String, usize)> = Vec::new();
            proof {
                let list = outgoing(self@.transitions, state as int);
                if list.len() > 0 {
                    assert(list.contains(list[0]));
                    lemma_outgoing(self@.transitions, state as int, list[0].0, list[0].1);
                    self@.lemma_step_of_edge(state as int, list[0].0, list[0].1);
                }
                assert(labelled(out@) =~= list);
            }
            return out;
        }
        graph_edges_from(&self.graph, state)
    }

    /// The transition function: the state to which `symbol` leads from
    /// `state`, if there is a transition.
    pub fn transition(&self, state: usize, symbol: &String) -> (target: Option<usize>)
        requires
            self.wf(),
        ensures
            as_int(target) == self@.step(state as int, symbol@),
    {
        let out = self.transitions_from(state);
        self.find_move(&out, state, symbol)
    }

    /// Whether the state is accepting.
    pub fn is_accepting(&self, state: usize) -> (accepting: bool)
        ensures
            accepting == self@.is_accepting(state as int),
    {
        if state >= self.states.len() {
            return false;
        }
        let found = find_name(&self.accepting_states, &self.states[state]);
        proof {
            let dfa = self@;
            let name = dfa.states[state as int];
            match found {
                Some(i) => {
                    assert(dfa.accepting[i as int] == name);
                },
                None => {
                    if dfa.accepting.contains(name) {
                        let j = choose|j: int| 0 <= j < dfa.accepting.len() && dfa.accepting[j] == name;
                        assert(self.accepting_states[j]@ == name);
                    }
                },
            }
        }
        found.is_some()
    }

    /// Whether the names resolve: the start state and every state listed
    /// as accepting are declared states.
    pub fn names_declared(&self) -> (declared: bool)
        requires
            self.wf(),
        ensures
            declared == self@.closed(),
    {
        if self.state_index(&self.start_state).is_none() {
            return false;
        }
        let ghost dfa = self@;
        let mut i: usize = 0;
        while i < self.accepting_states.len()
            invariant
                dfa == self@,
                i <= self.accepting_states.len(),
                forall|j: int| 0 <= j < i ==> dfa.states.contains(#[trigger] dfa.accepting[j]),
            decreases self.accepting_states.len() - i,
        {
            let found = find_name(&self.states, &self.accepting_states[i]);
            proof {
                let name = dfa.accepting[i as int];
                assert(name == self.accepting_states[i as int]@);
                match found {
                    Some(at) => {
                        assert(dfa.states[at as int] == name);
                    },
                    None => {
                        if dfa.states.contains(name) {
                            let j = choose|j: int| 0 <= j < dfa.states.len() && dfa.states[j] == name;
                            assert(self.states[j]@ == name);
                        }
                    },
                }
            }
            if found.is_none() {
                return false;
            }
            i += 1;
        }
        true
    }

    /// The transition function and the accepting states as a table.
    pub fn table(&self) -> (table: TransitionTable)
        requires
            self.wf(),
        ensures
            table.represents(self@),
    {
        let mut moves: Vec<Vec<Option<usize>>> = Vec::new();
        let mut accepting: Vec<bool> = Vec::new();
        let n = self.states.len();
        let mut u: usize = 0;
        while u < n
            invariant
                self.wf(),
                n == self.states.len(),
                u <= n,
                moves.len() == u,
                accepting.len() == u,
                forall|v: int| 0 <= v < u ==> (#[trigger] moves[v]).len() == self@.alphabet.len(),
                forall|v: int, k: int|
                    0 <= v < u && 0 <= k < self@.alphabet.len() ==> as_int(#[trigger] moves[v][k])
                        == self@.step(v, self@.alphabet[k]),
                forall|v: int| 0 <= v < u ==> #[trigger] accepting[v] == self@.is_accepting(v),
            decreases n - u,
        {
            let out = self.transitions_from(u);
            let mut row: Vec<Option<usize>> = Vec::new();
            let mut k: usize = 0;
            while k < self.alphabet.len()
                invariant
                    self.wf(),
                    u < self.states.len(),
                    labelled(out@) == outgoing(self@.transitions, u as int),
                    k <= self.alphabet.len(),
                    row.len() == k,
                    forall|j: int|
                        0 <= j < k ==> as_int(#[trigger] row[j]) == self@.step(u as int, self@.alphabet[j]),
                decreases self.alphabet.len() - k,
            {
                let target = self.find_move(&out, u, &self.alphabet[k]);
                row.push(target);
                k += 1;
            }
            moves.push(row);
            accepting.push(self.is_accepting(u));
            u += 1;
        }
        TransitionTable { moves, accepting }
    }
}

} // verus!
