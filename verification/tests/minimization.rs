use dfa_minimizer::automaton::Automaton;
use dfa_minimizer::error::AutomatonError;
use dfa_minimizer::hopcroft::{hopcroft_reduction, minimize};

fn text(s: &str) -> String {
    s.to_string()
}

fn texts(list: &[&str]) -> Vec<String> {
    list.iter().map(|s| s.to_string()).collect()
}

fn build(alphabet: &[&str], states: &[&str], start: &str, accepting: &[&str], moves: &[(usize, &str, usize)]) -> Automaton {
    let mut a = Automaton::new();
    a.set_alphabet(texts(alphabet));
    for s in states {
        a.add_state(text(s)).unwrap();
    }
    a.set_start_state(text(start));
    a.set_accepting_states(texts(accepting));
    for (from, symbol, to) in moves {
        a.add_transition(*from, text(symbol), *to).unwrap();
    }
    a
}

fn example() -> Automaton {
    build(
        &["a", "b"],
        &["s0", "s1", "s2", "s3"],
        "s0",
        &["s3"],
        &[(0, "a", 1), (0, "b", 2), (1, "a", 3), (1, "b", 2), (2, "a", 3), (2, "b", 2), (3, "a", 3), (3, "b", 3)],
    )
}

fn accepts(a: &Automaton, word: &[&str]) -> bool {
    let mut state = match a.state_index(a.start_state()) {
        Some(s) => s,
        None => return false,
    };
    for symbol in word {
        match a.transition(state, &text(symbol)) {
            Some(next) => state = next,
            None => return false,
        }
    }
    a.is_accepting(state)
}

#[test]
fn example_partition_merges_s1_and_s2() {
    let blocks = minimize(&example()).unwrap();
    assert_eq!(blocks, vec![vec![0], vec![1, 2], vec![3]]);
}

#[test]
fn example_minimal_automaton_has_three_states() {
    let m = hopcroft_reduction(&example()).unwrap();
    assert_eq!(m.num_states(), 3);
    assert_eq!(m.states(), &texts(&["q0", "q1", "q2"]));
    assert_eq!(m.alphabet(), &texts(&["a", "b"]));
    assert_eq!(m.start_state(), "q0");
    assert_eq!(m.accepting_states(), &texts(&["q2"]));
    assert_eq!(m.transition(0, &text("a")), Some(1));
    assert_eq!(m.transition(0, &text("b")), Some(1));
    assert_eq!(m.transition(1, &text("a")), Some(2));
    assert_eq!(m.transition(1, &text("b")), Some(1));
    assert_eq!(m.transition(2, &text("a")), Some(2));
    assert_eq!(m.transition(2, &text("b")), Some(2));
}

#[test]
fn example_language_is_preserved() {
    let a = example();
    let m = hopcroft_reduction(&a).unwrap();
    let words: Vec<Vec<&str>> = vec![
        vec![],
        vec!["a"],
        vec!["b"],
        vec!["a", "a"],
        vec!["a", "b"],
        vec!["b", "a"],
        vec!["b", "b"],
        vec!["a", "b", "a"],
        vec!["b", "b", "b"],
        vec!["b", "b", "a", "b"],
        vec!["a", "a", "b", "a", "b"],
    ];
    for w in &words {
        assert_eq!(accepts(&a, w), accepts(&m, w));
    }
    assert!(accepts(&m, &["a", "a"]));
    assert!(!accepts(&m, &["a", "b"]));
}

#[test]
fn indistinguishable_dead_states_collapse() {
    let a = build(
        &["a"],
        &["s", "d1", "d2", "f"],
        "s",
        &["f"],
        &[(0, "a", 3), (1, "a", 2), (2, "a", 1), (3, "a", 1)],
    );
    let blocks = minimize(&a).unwrap();
    assert_eq!(blocks, vec![vec![0], vec![1, 2], vec![3]]);
    let m = hopcroft_reduction(&a).unwrap();
    assert_eq!(m.num_states(), 3);
}

#[test]
fn minimizing_twice_changes_nothing() {
    let m = hopcroft_reduction(&example()).unwrap();
    let again = hopcroft_reduction(&m).unwrap();
    assert_eq!(again.num_states(), m.num_states());
    assert_eq!(again.states(), m.states());
    assert_eq!(again.start_state(), m.start_state());
    assert_eq!(again.accepting_states(), m.accepting_states());
    for state in 0..m.num_states() {
        assert_eq!(again.transitions_from(state), m.transitions_from(state));
    }
}

#[test]
fn later_split_unsettles_an_earlier_block() {
    // s1 leaves the block of s0 only after s3 has left it: the first look at
    // the block splits off s3 alone.
    let a = build(
        &["a"],
        &["s0", "s1", "s2", "s3", "s4", "s5"],
        "s0",
        &["s5"],
        &[(0, "a", 2), (1, "a", 3), (2, "a", 4), (3, "a", 5), (4, "a", 4), (5, "a", 5)],
    );
    let blocks = minimize(&a).unwrap();
    assert_eq!(blocks, vec![vec![0, 2, 4], vec![1], vec![3], vec![5]]);
}

#[test]
fn missing_transition_differs_from_any_move() {
    let a = build(&["a"], &["s0", "s1", "s2"], "s0", &[], &[(0, "a", 2), (2, "a", 2)]);
    let blocks = minimize(&a).unwrap();
    assert_eq!(blocks, vec![vec![0, 2], vec![1]]);
}

#[test]
fn empty_automaton_stays_empty() {
    let mut a = Automaton::new();
    a.set_alphabet(texts(&["a"]));
    assert_eq!(minimize(&a), Ok(vec![]));
    let m = hopcroft_reduction(&a).unwrap();
    assert_eq!(m.num_states(), 0);
    assert_eq!(m.alphabet(), &texts(&["a"]));
    assert_eq!(m.start_state(), "");
    assert!(m.accepting_states().is_empty());
}

#[test]
fn unknown_start_state_is_refused() {
    let a = build(&["a"], &["s0"], "t", &[], &[]);
    assert_eq!(minimize(&a), Err(AutomatonError::MalformedAutomaton));
    assert!(matches!(hopcroft_reduction(&a), Err(AutomatonError::MalformedAutomaton)));
}

#[test]
fn all_accepting_states_form_one_block() {
    let a = build(&["a"], &["s0", "s1"], "s0", &["s0", "s1"], &[(0, "a", 1), (1, "a", 0)]);
    assert_eq!(minimize(&a), Ok(vec![vec![0, 1]]));
    let m = hopcroft_reduction(&a).unwrap();
    assert_eq!(m.states(), &texts(&["q0"]));
    assert_eq!(m.accepting_states(), &texts(&["q0"]));
    assert_eq!(m.transition(0, &text("a")), Some(0));
}

#[test]
fn state_names_count_in_decimal() {
    let mut a = Automaton::new();
    a.set_alphabet(texts(&["a"]));
    for i in 0..12 {
        a.add_state(format!("s{}", i)).unwrap();
    }
    for i in 0..11 {
        a.add_transition(i, text("a"), i + 1).unwrap();
    }
    a.set_start_state(text("s0"));
    a.set_accepting_states(texts(&["s11"]));
    let m = hopcroft_reduction(&a).unwrap();
    assert_eq!(m.num_states(), 12);
    assert_eq!(m.states()[9], "q9");
    assert_eq!(m.states()[10], "q10");
    assert_eq!(m.states()[11], "q11");
    assert_eq!(m.accepting_states(), &texts(&["q11"]));
}
