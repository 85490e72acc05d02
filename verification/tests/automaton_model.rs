use dfa_minimizer::automaton::Automaton;
use dfa_minimizer::error::AutomatonError;

fn text(s: &str) -> String {
    s.to_string()
}

#[test]
fn states_are_numbered_in_order() {
    let mut a = Automaton::new();
    assert_eq!(a.add_state(text("s0")), Ok(0));
    assert_eq!(a.add_state(text("s1")), Ok(1));
    assert_eq!(a.num_states(), 2);
    assert_eq!(a.state_index(&text("s1")), Some(1));
    assert_eq!(a.state_index(&text("s2")), None);
}

#[test]
fn duplicate_state_is_refused() {
    let mut a = Automaton::new();
    assert_eq!(a.add_state(text("s0")), Ok(0));
    assert_eq!(a.add_state(text("s0")), Err(AutomatonError::DuplicateState));
    assert_eq!(a.num_states(), 1);
}

#[test]
fn transition_lookup_follows_the_graph() {
    let mut a = Automaton::new();
    a.add_state(text("s0")).unwrap();
    a.add_state(text("s1")).unwrap();
    assert_eq!(a.add_transition(0, text("a"), 1), Ok(()));
    assert_eq!(a.add_transition(0, text("b"), 0), Ok(()));
    assert_eq!(a.transition(0, &text("a")), Some(1));
    assert_eq!(a.transition(0, &text("b")), Some(0));
    assert_eq!(a.transition(1, &text("a")), None);
    assert_eq!(a.transition(7, &text("a")), None);
    assert_eq!(a.transitions_from(0), vec![(text("b"), 0), (text("a"), 1)]);
}

#[test]
fn second_transition_on_a_symbol_is_refused() {
    let mut a = Automaton::new();
    a.add_state(text("s0")).unwrap();
    a.add_state(text("s1")).unwrap();
    assert_eq!(a.add_transition(0, text("a"), 1), Ok(()));
    assert_eq!(a.add_transition(0, text("a"), 0), Err(AutomatonError::DuplicateTransition));
    assert_eq!(a.add_transition(0, text("b"), 2), Err(AutomatonError::MalformedAutomaton));
    assert_eq!(a.transition(0, &text("a")), Some(1));
}
