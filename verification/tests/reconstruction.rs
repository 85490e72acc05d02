use dfa_minimizer::automaton::Automaton;
use dfa_minimizer::error::AutomatonError;
use dfa_minimizer::partition::{collect_blocks, index_blocks};
use dfa_minimizer::reconstruct::{find_start_state, state_label};

fn word(s: &str) -> String {
    s.to_string()
}

fn words(list: &[&str]) -> Vec<String> {
    list.iter().map(|s| s.to_string()).collect()
}

fn four_states() -> Automaton {
    let mut a = Automaton::new();
    a.set_alphabet(words(&["a", "b"]));
    for s in ["s0", "s1", "s2", "s3"] {
        a.add_state(word(s)).unwrap();
    }
    a.set_start_state(word("s0"));
    a.set_accepting_states(words(&["s3"]));
    for (from, symbol, to) in
        [(0, "a", 1), (0, "b", 2), (1, "a", 3), (1, "b", 2), (2, "a", 3), (2, "b", 2), (3, "a", 3), (3, "b", 3)]
    {
        a.add_transition(from, word(symbol), to).unwrap();
    }
    a
}

#[test]
fn blocks_become_states_in_their_order() {
    let a = four_states();
    let m = Automaton::create_from_sets(&vec![vec![3], vec![1, 2], vec![0]], &a).unwrap();
    assert_eq!(m.states(), &words(&["q0", "q1", "q2"]));
    assert_eq!(m.start_state(), "q2");
    assert_eq!(m.accepting_states(), &words(&["q0"]));
    assert_eq!(m.transition(2, &word("a")), Some(1));
    assert_eq!(m.transition(2, &word("b")), Some(1));
    assert_eq!(m.transition(1, &word("a")), Some(0));
    assert_eq!(m.transition(1, &word("b")), Some(1));
    assert_eq!(m.transition(0, &word("a")), Some(0));
    assert_eq!(m.transition(0, &word("b")), Some(0));
}

#[test]
fn transitions_are_added_block_by_block_and_symbol_by_symbol() {
    let a = four_states();
    let m = Automaton::create_from_sets(&vec![vec![0], vec![1, 2], vec![3]], &a).unwrap();
    assert_eq!(m.transitions_from(0), vec![(word("b"), 1), (word("a"), 1)]);
    assert_eq!(m.transitions_from(1), vec![(word("b"), 1), (word("a"), 2)]);
    assert_eq!(m.transitions_from(2), vec![(word("b"), 2), (word("a"), 2)]);
}

#[test]
fn first_state_of_a_block_decides_its_transitions() {
    let a = four_states();
    // s0 and s3 do not belong together; the block moves as s0 does.
    let m = Automaton::create_from_sets(&vec![vec![0, 3], vec![1], vec![2]], &a).unwrap();
    assert_eq!(m.transition(0, &word("a")), Some(1));
    assert_eq!(m.transition(0, &word("b")), Some(2));
    assert_eq!(m.accepting_states(), &words(&["q0"]));
}

#[test]
fn missing_transitions_are_left_out() {
    let mut a = Automaton::new();
    a.set_alphabet(words(&["a", "b"]));
    a.add_state(word("s0")).unwrap();
    a.add_state(word("s1")).unwrap();
    a.set_start_state(word("s0"));
    a.add_transition(0, word("a"), 1).unwrap();
    let m = Automaton::create_from_sets(&vec![vec![0], vec![1]], &a).unwrap();
    assert_eq!(m.transition(0, &word("a")), Some(1));
    assert_eq!(m.transition(0, &word("b")), None);
    assert_eq!(m.transition(1, &word("a")), None);
    assert!(m.transitions_from(1).is_empty());
}

#[test]
fn repeated_symbol_gives_one_transition() {
    let mut a = Automaton::new();
    a.set_alphabet(words(&["a", "a"]));
    a.add_state(word("s0")).unwrap();
    a.set_start_state(word("s0"));
    a.add_transition(0, word("a"), 0).unwrap();
    let m = Automaton::create_from_sets(&vec![vec![0]], &a).unwrap();
    assert_eq!(m.transitions_from(0), vec![(word("a"), 0)]);
}

#[test]
fn symbols_outside_the_alphabet_are_dropped() {
    let mut a = Automaton::new();
    a.set_alphabet(words(&["a"]));
    a.add_state(word("s0")).unwrap();
    a.set_start_state(word("s0"));
    a.add_transition(0, word("a"), 0).unwrap();
    a.add_transition(0, word("z"), 0).unwrap();
    let m = Automaton::create_from_sets(&vec![vec![0]], &a).unwrap();
    assert_eq!(m.transitions_from(0), vec![(word("a"), 0)]);
}

#[test]
fn blocks_that_miss_a_state_are_refused() {
    let a = four_states();
    let r = Automaton::create_from_sets(&vec![vec![0], vec![1, 2]], &a);
    assert!(matches!(r, Err(AutomatonError::UnreachableBlock)));
}

#[test]
fn blocks_that_overlap_are_refused() {
    let a = four_states();
    let r = Automaton::create_from_sets(&vec![vec![0, 1], vec![1, 2], vec![3]], &a);
    assert!(matches!(r, Err(AutomatonError::UnreachableBlock)));
    let r = Automaton::create_from_sets(&vec![vec![0, 0], vec![1, 2], vec![3]], &a);
    assert!(matches!(r, Err(AutomatonError::UnreachableBlock)));
}

#[test]
fn empty_block_is_refused() {
    let a = four_states();
    let r = Automaton::create_from_sets(&vec![vec![0, 1, 2, 3], vec![]], &a);
    assert!(matches!(r, Err(AutomatonError::UnreachableBlock)));
}

#[test]
fn state_out_of_range_is_refused() {
    let a = four_states();
    let r = Automaton::create_from_sets(&vec![vec![0, 1, 2, 3, 4]], &a);
    assert!(matches!(r, Err(AutomatonError::UnreachableBlock)));
}

#[test]
fn unknown_start_state_is_refused_in_reconstruction() {
    let mut a = four_states();
    a.set_start_state(word("nowhere"));
    let r = Automaton::create_from_sets(&vec![vec![0], vec![1, 2], vec![3]], &a);
    assert!(matches!(r, Err(AutomatonError::MalformedAutomaton)));
}

#[test]
fn invalid_blocks_are_reported_before_the_start_state() {
    let mut a = four_states();
    a.set_start_state(word("nowhere"));
    let r = Automaton::create_from_sets(&vec![vec![0]], &a);
    assert!(matches!(r, Err(AutomatonError::UnreachableBlock)));
}

#[test]
fn empty_automaton_has_an_empty_quotient() {
    let mut a = Automaton::new();
    a.set_alphabet(words(&["x"]));
    a.set_start_state(word("s"));
    let m = Automaton::create_from_sets(&vec![], &a).unwrap();
    assert_eq!(m.num_states(), 0);
    assert_eq!(m.alphabet(), &words(&["x"]));
    assert_eq!(m.start_state(), "s");
}

#[test]
fn index_blocks_gives_each_state_its_block() {
    assert_eq!(index_blocks(&vec![vec![2, 0], vec![1]], 3), Some(vec![0, 1, 0]));
    assert_eq!(index_blocks(&vec![], 0), Some(vec![]));
    assert_eq!(index_blocks(&vec![vec![0]], 2), None);
    assert_eq!(index_blocks(&vec![vec![0], vec![0]], 1), None);
    assert_eq!(index_blocks(&vec![vec![0], vec![]], 1), None);
    assert_eq!(index_blocks(&vec![vec![1]], 1), None);
}

#[test]
fn collect_blocks_orders_by_least_state() {
    assert_eq!(collect_blocks(&vec![5, 2, 5, 0, 2], 6), vec![vec![0, 2], vec![1, 4], vec![3]]);
    assert_eq!(collect_blocks(&vec![], 0), Vec::<Vec<usize>>::new());
}

#[test]
fn start_block_is_found_by_name() {
    let a = four_states();
    assert_eq!(find_start_state(&a, &vec![2, 1, 1, 0]), Some(2));
    let mut b = four_states();
    b.set_start_state(word("s2"));
    assert_eq!(find_start_state(&b, &vec![2, 1, 1, 0]), Some(1));
    b.set_start_state(word("none"));
    assert_eq!(find_start_state(&b, &vec![2, 1, 1, 0]), None);
}

#[test]
fn state_labels_are_decimal() {
    assert_eq!(state_label(0), "q0");
    assert_eq!(state_label(7), "q7");
    assert_eq!(state_label(10), "q10");
    assert_eq!(state_label(109), "q109");
    assert_eq!(state_label(4294967295), "q4294967295");
}
