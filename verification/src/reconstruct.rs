//! Building the automaton whose states are the blocks of a partition.

use crate::automaton::{clone_names, find_name, Automaton, TransitionTable};
use crate::error::AutomatonError;
use crate::model::{as_int, names, Dfa};
use crate::partition::{
    block_of, blocks_view, index_blocks, is_partition, lemma_block_of_state, lemma_partition_len, target_block,
};
use crate::quotient::{
    block_accepting, decimal, digit, first_occurrence, lemma_edges_bound, lemma_partial_transitions,
    lemma_state_name_injective, partial_transitions, quotient, quotient_accepting, quotient_names, quotient_start,
    quotient_transitions, state_name,
};
use crate::theorems::lemma_quotient_closed;
use vstd::prelude::*;

verus! {

/// A decimal digit as text.
pub fn digit_text(d: usize) -> (text: &'static str)
    requires
        d < 10,
    ensures
        text@ == seq![digit(d as int)],
{
    proof {
        reveal_strlit("0");
        reveal_strlit("1");
        reveal_strlit("2");
        reveal_strlit("3");
        reveal_strlit("4");
        reveal_strlit("5");
        reveal_strlit("6");
        reveal_strlit("7");
        reveal_strlit("8");
        reveal_strlit("9");
    }
    let text = if d == 0 {
        "0"
    } else if d == 1 {
        "1"
    } else if d == 2 {
        "2"
    } else if d == 3 {
        "3"
    } else if d == 4 {
        "4"
    } else if d == 5 {
        "5"
    } else if d == 6 {
        "6"
    } else if d == 7 {
        "7"
    } else if d == 8 {
        "8"
    } else {
        "9"
    };
    assert(text@ =~= seq![digit(d as int)]);
    text
}

/// Appends a number in decimal notation.
pub fn push_decimal(text: &mut String, n: usize)
    ensures
        final(text)@ == old(text)@ + decimal(n as nat),
    decreases n,
{
    if n >= 10 {
        push_decimal(text, n / 10);
    }
    text.append(digit_text(n % 10));
    assert(text@ =~= old(text)@ + decimal(n as nat));
}

/// The name of the state that stands for the block at `position`.
pub fn state_label(position: usize) -> (name: String)
    ensures
        name@ == state_name(position as nat),
{
    let mut name = String::from_str("q");
    proof {
        reveal_strlit("q");
        assert("q"@ =~= seq!['q']);
    }
    push_decimal(&mut name, position);
    name
}

/// Whether a block holds an accepting state.
pub fn holds_accepting(set: &Vec<usize>, automaton: &Automaton, table: &TransitionTable) -> (found: bool)
    requires
        table.represents(automaton@),
        forall|j: int| 0 <= j < set.len() ==> set[j] < automaton@.size(),
    ensures
        found == exists|j: int| 0 <= j < set.len() && automaton@.is_accepting(#[trigger] set[j] as int),
{
    let mut j: usize = 0;
    while j < set.len()
        invariant
            j <= set.len(),
            table.represents(automaton@),
            forall|i: int| 0 <= i < set.len() ==> set[i] < automaton@.size(),
            forall|i: int| 0 <= i < j ==> !automaton@.is_accepting(#[trigger] set[i] as int),
        decreases set.len() - j,
    {
        assert(table.accepting[set[j as int] as int] == automaton@.is_accepting(set[j as int] as int));
        if table.accepting[set[j]] {
            return true;
        }
        j += 1;
    }
    false
}

/// Gives `minimized` one state for each block, named by the block's
/// position, and lists as accepting those whose block holds an accepting
/// state of `automaton`.
pub fn add_states_to_automaton(
    automaton: &Automaton,
    table: &TransitionTable,
    sets: &Vec<Vec<usize>>,
    minimized: &mut Automaton,
)
    requires
        automaton.wf(),
        table.represents(automaton@),
        is_partition(blocks_view(sets@), automaton@.size()),
        old(minimized).wf(),
        old(minimized)@.states.len() == 0,
        old(minimized)@.transitions.len() == 0,
    ensures
        final(minimized).wf(),
        final(minimized)@ == (Dfa {
            states: quotient_names(sets.len() as nat),
            accepting: quotient_accepting(automaton@, blocks_view(sets@), sets.len() as int),
            ..old(minimized)@
        }),
{
    let ghost dfa = automaton@;
    let ghost p = blocks_view(sets@);
    let ghost before = minimized@;
    let mut accepting: Vec<String> = Vec::new();
    let mut i: usize = 0;
    proof {
        lemma_partition_len(p, dfa.size());
        assert(minimized@.states =~= quotient_names(0));
        assert(names(accepting@) =~= quotient_accepting(dfa, p, 0));
    }
    while i < sets.len()
        invariant
            automaton.wf(),
            table.represents(automaton@),
            dfa == automaton@,
            p == blocks_view(sets@),
            is_partition(p, dfa.size()),
            sets.len() <= u32::MAX,
            i <= sets.len(),
            minimized.wf(),
            minimized@ == (Dfa { states: quotient_names(i as nat), ..before }),
            names(accepting@) == quotient_accepting(dfa, p, i as int),
        decreases sets.len() - i,
    {
        let name = state_label(i);
        proof {
            if minimized@.states.contains(name@) {
                let j = choose|j: int| 0 <= j < i && minimized@.states[j] == name@;
                lemma_state_name_injective(j as nat, i as nat);
            }
            assert forall|j: int| 0 <= j < sets[i as int].len() implies sets[i as int][j] < dfa.size() by {
                assert(p[i as int][j] == sets[i as int][j]);
            }
        }
        let marked = holds_accepting(&sets[i], automaton, table);
        proof {
            if marked {
                let j = choose|j: int| 0 <= j < sets[i as int].len() && dfa.is_accepting(#[trigger] sets[i as int][j] as int);
                assert(p[i as int][j] == sets[i as int][j]);
                assert(block_accepting(dfa, p[i as int]));
            } else if block_accepting(dfa, p[i as int]) {
                let j = choose|j: int| 0 <= j < p[i as int].len() && dfa.is_accepting(#[trigger] p[i as int][j]);
                assert(p[i as int][j] == sets[i as int][j]);
            }
        }
        let ghost listed = names(accepting@);
        if marked {
            accepting.push(name.clone());
            proof {
                assert(names(accepting@) =~= listed.push(name@));
            }
        }
        let _ = minimized.insert_state(name);
        proof {
            assert(quotient_names(i as nat).push(state_name(i as nat)) =~= quotient_names((i + 1) as nat));
        }
        i += 1;
    }
    minimized.set_accepting_states(accepting);
}

/// The position of the block that holds the start state of `automaton`;
/// nothing if the start state is none of its states.
pub fn find_start_state(automaton: &Automaton, classes: &Vec<usize>) -> (found: Option<usize>)
    requires
        automaton.wf(),
        classes.len() == automaton@.size(),
    ensures
        as_int(found) == match automaton@.start_index() {
            Some(start) => Some(classes[start] as int),
            None => None,
        },
{
    match automaton.state_index(automaton.start_state()) {
        Some(start) => Some(classes[start]),
        None => None,
    }
}

/// Gives `minimized` the transitions between the blocks: on each symbol of
/// the alphabet, a block moves into the block into which its first state
/// moves. A block whose first state has no transition on a symbol gets
/// none, and a symbol that occurs twice in the alphabet counts once.
pub fn reconstruct_transitions(
    automaton: &Automaton,
    table: &TransitionTable,
    sets: &Vec<Vec<usize>>,
    classes: &Vec<usize>,
    minimized: &mut Automaton,
)
    requires
        automaton.wf(),
        table.represents(automaton@),
        is_partition(blocks_view(sets@), automaton@.size()),
        classes.len() == automaton@.size(),
        forall|u: int| 0 <= u < automaton@.size() ==> classes[u] == block_of(blocks_view(sets@), u),
        old(minimized).wf(),
        old(minimized)@.states.len() == sets.len(),
        old(minimized)@.transitions.len() == 0,
    ensures
        final(minimized).wf(),
        final(minimized)@ == (Dfa {
            transitions: quotient_transitions(automaton@, blocks_view(sets@), sets.len() as int),
            ..old(minimized)@
        }),
{
    let ghost dfa = automaton@;
    let ghost p = blocks_view(sets@);
    let ghost before = minimized@;
    let symbols = automaton.alphabet().len();
    let mut i: usize = 0;
    proof {
        assert(minimized@.transitions =~= quotient_transitions(dfa, p, 0));
    }
    while i < sets.len()
        invariant
            automaton.wf(),
            table.represents(automaton@),
            dfa == automaton@,
            p == blocks_view(sets@),
            is_partition(p, dfa.size()),
            classes.len() == dfa.size(),
            forall|u: int| 0 <= u < dfa.size() ==> classes[u] == block_of(p, u),
            symbols == dfa.alphabet.len(),
            before.states.len() == sets.len(),
            i <= sets.len(),
            minimized.wf(),
            minimized@ == (Dfa { transitions: quotient_transitions(dfa, p, i as int), ..before }),
        decreases sets.len() - i,
    {
        let first = sets[i][0];
        proof {
            assert(p[i as int][0] == first);
            assert(minimized@.transitions =~= partial_transitions(dfa, p, i as int, 0));
        }
        let mut k: usize = 0;
        while k < symbols
            invariant
                automaton.wf(),
                table.represents(automaton@),
                dfa == automaton@,
                p == blocks_view(sets@),
                is_partition(p, dfa.size()),
                classes.len() == dfa.size(),
                forall|u: int| 0 <= u < dfa.size() ==> classes[u] == block_of(p, u),
                symbols == dfa.alphabet.len(),
                before.states.len() == sets.len(),
                i < sets.len(),
                first == p[i as int][0],
                0 <= first < dfa.size(),
                k <= symbols,
                minimized.wf(),
                minimized@ == (Dfa { transitions: partial_transitions(dfa, p, i as int, k as int), ..before }),
            decreases symbols - k,
        {
            let ghost symbol = dfa.alphabet[k as int];
            let ghost built = partial_transitions(dfa, p, i as int, k as int);
            let ghost next = partial_transitions(dfa, p, i as int, k + 1);
            proof {
                assert(as_int(table.moves[first as int][k as int]) == dfa.step(first as int, symbol));
                lemma_partial_transitions(dfa, p, i as int, k as int);
                lemma_partial_transitions(dfa, p, i as int, k + 1);
                lemma_edges_bound(dfa, p, next, i as int, k + 1);
            }
            match table.moves[first][k] {
                None => {
                    proof {
                        assert(next =~= built);
                    }
                },
                Some(to) => {
                    let list = automaton.alphabet();
                    let earliest = find_name(list, &list[k]);
                    proof {
                        dfa.lemma_step_some(first as int, symbol);
                        lemma_block_of_state(p, dfa.size(), to as int);
                        assert(target_block(dfa, p, first as int, symbol) == Some(classes[to as int] as int));
                        assert(list[k as int]@ == symbol);
                    }
                    if earliest == Some(k) {
                        proof {
                            assert(first_occurrence(dfa.alphabet, k as int)) by {
                                assert forall|c: int| 0 <= c < k implies #[trigger] dfa.alphabet[c] != dfa.alphabet[k as int] by {
                                    assert(list[c]@ == dfa.alphabet[c]);
                                }
                            }
                            assert(next =~= built.push((i as int, symbol, classes[to as int] as int)));
                            if minimized@.step(i as int, symbol) is Some {
                                minimized@.lemma_step_some(i as int, symbol);
                                let target = minimized@.step(i as int, symbol)->0;
                                let x = choose|x: int| 0 <= x < built.len() && built[x] == (i as int, symbol, target);
                                assert(built[x].0 == i);
                                assert(dfa.alphabet.take(k as int).contains(symbol));
                                let c = choose|c: int| 0 <= c < k && dfa.alphabet.take(k as int)[c] == symbol;
                                assert(dfa.alphabet[c] == dfa.alphabet[k as int]);
                            }
                        }
                        minimized.insert_transition(i, list[k].clone(), classes[to]);
                    } else {
                        proof {
                            let c = earliest->0 as int;
                            assert(list[c]@ == dfa.alphabet[c]);
                            assert(!first_occurrence(dfa.alphabet, k as int));
                            assert(next =~= built);
                        }
                    }
                },
            }
            k += 1;
        }
        proof {
            assert(partial_transitions(dfa, p, i as int, symbols as int) =~= quotient_transitions(dfa, p, i + 1));
        }
        i += 1;
    }
}

impl Automaton {
    /// The automaton whose states are the blocks of `sets`: the quotient of
    /// `automaton` by the partition. Blocks that do not partition the
    /// states are refused, and so is an automaton with states whose start
    /// state is none of them.
    pub fn create_from_sets(sets: &Vec<Vec<usize>>, automaton: &Automaton) -> (result: Result<
        Automaton,
        AutomatonError,
    >)
        requires
            automaton.wf(),
        ensures
            match result {
                Ok(minimized) => {
                    &&& is_partition(blocks_view(sets@), automaton@.size())
                    &&& automaton@.size() == 0 || automaton@.start_index() is Some
                    &&& minimized.wf()
                    &&& minimized@ == quotient(automaton@, blocks_view(sets@))
                    &&& automaton@.size() > 0 ==> minimized@.closed()
                },
                Err(e) => if !is_partition(blocks_view(sets@), automaton@.size()) {
                    e == AutomatonError::UnreachableBlock
                } else {
                    e == AutomatonError::MalformedAutomaton && automaton@.size() > 0
                        && automaton@.start_index() is None
                },
            },
    {
        let classes = match index_blocks(sets, automaton.num_states()) {
            Some(classes) => classes,
            None => {
                return Err(AutomatonError::UnreachableBlock);
            },
        };
        let start = find_start_state(automaton, &classes);
        if automaton.num_states() > 0 && start.is_none() {
            return Err(AutomatonError::MalformedAutomaton);
        }
        let ghost dfa = automaton@;
        let ghost p = blocks_view(sets@);
        let table = automaton.table();
        let mut minimized = Automaton::new();
        minimized.set_alphabet(clone_names(automaton.alphabet()));
        match start {
            Some(block) => {
                minimized.set_start_state(state_label(block));
            },
            None => {
                minimized.set_start_state(automaton.start_state().clone());
            },
        }
        add_states_to_automaton(automaton, &table, sets, &mut minimized);
        reconstruct_transitions(automaton, &table, sets, &classes, &mut minimized);
        proof {
            assert(minimized@.start == quotient_start(dfa, p));
            assert(minimized@ == quotient(dfa, p));
            if dfa.size() > 0 {
                lemma_quotient_closed(dfa, p);
            }
        }
        Ok(minimized)
    }
}

} // verus!
