//! The mathematical model of an automaton, and what it means for it to run.

use vstd::prelude::*;

verus! {

/// An index as a mathematical integer, where there is one.
pub open spec fn as_int(index: Option<usize>) -> Option<int> {
    match index {
        None => None,
        Some(i) => Some(i as int),
    }
}

/// The texts of a list of strings.
pub open spec fn names(list: Seq<String>) -> Seq<Seq<char>> {
    Seq::new(list.len(), |i: int| list[i]@)
}

/// A deterministic finite automaton as plain mathematical data. States are
/// the positions of `states`; a transition is (source, symbol, target).
pub struct Dfa {
    pub alphabet: Seq<Seq<char>>,
    pub states: Seq<Seq<char>>,
    pub start: Seq<char>,
    pub accepting: Seq<Seq<char>>,
    pub transitions: Seq<(int, Seq<char>, int)>,
}

impl Dfa {
    /// The automaton without states, symbols and transitions.
    pub open spec fn empty() -> Dfa {
        Dfa {
            alphabet: Seq::empty(),
            states: Seq::empty(),
            start: Seq::empty(),
            accepting: Seq::empty(),
            transitions: Seq::empty(),
        }
    }

    /// The number of states.
    pub open spec fn size(self) -> int {
        self.states.len() as int
    }

    /// State names are unique, transitions join existing states, and no
    /// state has two transitions on one symbol.
    pub open spec fn wf(self) -> bool {
        &&& self.states.no_duplicates()
        &&& forall|e: int|
            0 <= e < self.transitions.len() ==> 0 <= (#[trigger] self.transitions[e]).0 < self.size()
                && 0 <= self.transitions[e].2 < self.size()
        &&& forall|e1: int, e2: int|
            0 <= e1 < self.transitions.len() && 0 <= e2 < self.transitions.len()
                && (#[trigger] self.transitions[e1]).0 == (#[trigger] self.transitions[e2]).0
                && self.transitions[e1].1 == self.transitions[e2].1 ==> e1 == e2
    }

    /// There is a transition from `from` on `symbol` to `to`.
    pub open spec fn has_edge(self, from: int, symbol: Seq<char>, to: int) -> bool {
        self.transitions.contains((from, symbol, to))
    }

    /// The transition function: where `symbol` leads from `from`, if anywhere.
    pub open spec fn step(self, from: int, symbol: Seq<char>) -> Option<int> {
        if exists|to: int| self.has_edge(from, symbol, to) {
            Some(choose|to: int| self.has_edge(from, symbol, to))
        } else {
            None
        }
    }

    /// The state is listed as accepting, by its name.
    pub open spec fn is_accepting(self, state: int) -> bool {
        0 <= state < self.size() && self.accepting.contains(self.states[state])
    }

    /// The state that bears the name, if there is one.
    pub open spec fn index_of(self, name: Seq<char>) -> Option<int> {
        if self.states.contains(name) {
            Some(self.states.index_of(name))
        } else {
            None
        }
    }

    /// The start state, if its name is that of a state.
    pub open spec fn start_index(self) -> Option<int> {
        self.index_of(self.start)
    }

    /// The names resolve: the start state is a declared state, and so is
    /// every state that is listed as accepting.
    pub open spec fn closed(self) -> bool {
        &&& self.start_index() is Some
        &&& forall|i: int| 0 <= i < self.accepting.len() ==> self.states.contains(#[trigger] self.accepting[i])
    }

    /// Every letter of the word is a symbol of the alphabet.
    pub open spec fn is_word(self, word: Seq<Seq<char>>) -> bool {
        forall|i: int| 0 <= i < word.len() ==> self.alphabet.contains(#[trigger] word[i])
    }

    /// The state reached from `from` by reading `word`, unless the run gets
    /// stuck on a missing transition.
    pub open spec fn run(self, from: int, word: Seq<Seq<char>>) -> Option<int>
        decreases word.len(),
    {
        if word.len() == 0 {
            Some(from)
        } else {
            match self.step(from, word[0]) {
                None => None,
                Some(next) => self.run(next, word.drop_first()),
            }
        }
    }

    /// What can be observed of a run: that it got stuck, or whether it ended
    /// in an accepting state.
    pub open spec fn outcome(self, from: int, word: Seq<Seq<char>>) -> Option<bool> {
        match self.run(from, word) {
            None => None,
            Some(end) => Some(self.is_accepting(end)),
        }
    }

    /// The automaton accepts the word: the run from the start state ends in
    /// an accepting state.
    pub open spec fn accepts(self, word: Seq<Seq<char>>) -> bool {
        match self.start_index() {
            None => false,
            Some(start) => self.outcome(start, word) == Some(true),
        }
    }

    /// No word over the alphabet tells the two states apart.
    pub open spec fn equivalent(self, u: int, v: int) -> bool {
        forall|word: Seq<Seq<char>>| #[trigger] self.is_word(word) ==> self.outcome(u, word) == self.outcome(v, word)
    }

    /// The automaton with one more state.
    pub open spec fn with_state(self, name: Seq<char>) -> Dfa {
        Dfa { states: self.states.push(name), ..self }
    }

    /// The automaton with one more transition.
    pub open spec fn with_transition(self, from: int, symbol: Seq<char>, to: int) -> Dfa {
        Dfa { transitions: self.transitions.push((from, symbol, to)), ..self }
    }

    /// The automaton with another alphabet.
    pub open spec fn with_alphabet(self, alphabet: Seq<Seq<char>>) -> Dfa {
        Dfa { alphabet, ..self }
    }

    /// The automaton with another start state name.
    pub open spec fn with_start(self, start: Seq<char>) -> Dfa {
        Dfa { start, ..self }
    }

    /// The automaton with another list of accepting state names.
    pub open spec fn with_accepting(self, accepting: Seq<Seq<char>>) -> Dfa {
        Dfa { accepting, ..self }
    }

    /// A transition that is there is the one that `step` takes.
    pub proof fn lemma_step_of_edge(self, from: int, symbol: Seq<char>, to: int)
        requires
            self.wf(),
            self.has_edge(from, symbol, to),
        ensures
            self.step(from, symbol) == Some(to),
            0 <= from < self.size(),
            0 <= to < self.size(),
    {
        let other = choose|t: int| self.has_edge(from, symbol, t);
        let e1 = choose|e: int| 0 <= e < self.transitions.len() && self.transitions[e] == (from, symbol, to);
        let e2 = choose|e: int| 0 <= e < self.transitions.len() && self.transitions[e] == (from, symbol, other);
        assert(self.transitions[e1].0 == self.transitions[e2].0);
        assert(e1 == e2);
    }

    /// Where `step` leads, a transition is there, and it ends in a state.
    pub proof fn lemma_step_some(self, from: int, symbol: Seq<char>)
        requires
            self.wf(),
            self.step(from, symbol) is Some,
        ensures
            self.has_edge(from, symbol, self.step(from, symbol)->0),
            0 <= from < self.size(),
            0 <= self.step(from, symbol)->0 < self.size(),
    {
        let to = self.step(from, symbol)->0;
        assert(self.has_edge(from, symbol, to));
        self.lemma_step_of_edge(from, symbol, to);
    }

    /// A name that stands at a position is found there.
    pub proof fn lemma_index_of(self, state: int)
        requires
            self.wf(),
            0 <= state < self.size(),
        ensures
            self.index_of(self.states[state]) == Some(state),
    {
        let name = self.states[state];
        assert(self.states.contains(name));
        let i = self.states.index_of(name);
        assert(0 <= i < self.states.len() && self.states[i] == name);
    }
}

} // verus!
