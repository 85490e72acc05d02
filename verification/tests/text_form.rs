use dfa_minimizer::automaton::Automaton;
use dfa_minimizer::error::AutomatonError;
use dfa_minimizer::hopcroft::hopcroft_reduction;
use dfa_minimizer::text::{chars_of, fields_of, lines_of, split_chars, trim_chars};

fn word(s: &str) -> String {
    s.to_string()
}

fn words(list: &[&str]) -> Vec<String> {
    list.iter().map(|s| s.to_string()).collect()
}

fn chars(s: &str) -> Vec<char> {
    s.chars().collect()
}

const EXAMPLE: &str = "a b\ns0 s1 s2 s3\ns0\ns3\ns0 a s1\ns0 b s2\ns1 a s3\ns1 b s2\ns2 a s3\ns2 b s2\ns3 a s3\ns3 b s3\n";

#[test]
fn characters_of_a_text() {
    assert_eq!(chars_of("a\u{e9}\n"), vec!['a', '\u{e9}', '\n']);
    assert_eq!(chars_of(""), Vec::<char>::new());
}

#[test]
fn trimming_removes_white_space_at_both_ends() {
    assert_eq!(trim_chars(&chars("  a b \r\n")), chars("a b"));
    assert_eq!(trim_chars(&chars("\t\u{a0}x\u{3000}")), chars("x"));
    assert_eq!(trim_chars(&chars("   ")), chars(""));
    assert_eq!(trim_chars(&chars("")), chars(""));
    assert_eq!(trim_chars(&chars("a")), chars("a"));
}

#[test]
fn splitting_keeps_empty_pieces() {
    assert_eq!(split_chars(&chars("a b"), ' '), vec![chars("a"), chars("b")]);
    assert_eq!(split_chars(&chars("a  b"), ' '), vec![chars("a"), chars(""), chars("b")]);
    assert_eq!(split_chars(&chars(""), ' '), vec![chars("")]);
    assert_eq!(split_chars(&chars(" "), ' '), vec![chars(""), chars("")]);
}

#[test]
fn final_line_feed_opens_no_line() {
    assert_eq!(lines_of(&chars("a\nb\n")), vec![chars("a"), chars("b")]);
    assert_eq!(lines_of(&chars("a\nb")), vec![chars("a"), chars("b")]);
    assert_eq!(lines_of(&chars("a\n\n")), vec![chars("a"), chars("")]);
    assert_eq!(lines_of(&chars("")), Vec::<Vec<char>>::new());
}

#[test]
fn fields_of_a_line() {
    assert_eq!(fields_of(&chars(" s0 a s1\r")), words(&["s0", "a", "s1"]));
    assert_eq!(fields_of(&chars("")), words(&[""]));
}

#[test]
fn example_text_is_read() {
    let a = Automaton::from_text(EXAMPLE).unwrap();
    assert_eq!(a.alphabet(), &words(&["a", "b"]));
    assert_eq!(a.states(), &words(&["s0", "s1", "s2", "s3"]));
    assert_eq!(a.start_state(), "s0");
    assert_eq!(a.accepting_states(), &words(&["s3"]));
    assert_eq!(a.transition(0, &word("a")), Some(1));
    assert_eq!(a.transition(0, &word("b")), Some(2));
    assert_eq!(a.transition(1, &word("a")), Some(3));
    assert_eq!(a.transition(3, &word("b")), Some(3));
    assert!(a.is_accepting(3));
    assert!(!a.is_accepting(0));
}

#[test]
fn example_text_is_minimized_and_written() {
    let a = Automaton::from_text(EXAMPLE).unwrap();
    let m = hopcroft_reduction(&a).unwrap();
    assert_eq!(
        m.to_text(),
        "a b\nq0 q1 q2\nq0\nq2\nq0 b q1\nq0 a q1\nq1 b q1\nq1 a q2\nq2 b q2\nq2 a q2\n"
    );
}

#[test]
fn written_text_is_read_back() {
    let a = Automaton::from_text(EXAMPLE).unwrap();
    let b = Automaton::from_text(&a.to_text()).unwrap();
    assert_eq!(b.states(), a.states());
    assert_eq!(b.alphabet(), a.alphabet());
    assert_eq!(b.start_state(), a.start_state());
    assert_eq!(b.accepting_states(), a.accepting_states());
    for state in 0..a.num_states() {
        for symbol in a.alphabet() {
            assert_eq!(b.transition(state, symbol), a.transition(state, symbol));
        }
    }
}

#[test]
fn transitions_of_a_state_are_written_latest_first() {
    let mut a = Automaton::new();
    a.set_alphabet(words(&["x", "y"]));
    a.add_state(word("p")).unwrap();
    a.add_state(word("r")).unwrap();
    a.set_start_state(word("p"));
    a.set_accepting_states(words(&["r", "p"]));
    a.add_transition(0, word("x"), 1).unwrap();
    a.add_transition(1, word("x"), 1).unwrap();
    a.add_transition(0, word("y"), 0).unwrap();
    assert_eq!(a.to_text(), "x y\np r\np\nr p\np y p\np x r\nr x r\n");
}

#[test]
fn empty_automaton_is_written_as_four_empty_lines() {
    assert_eq!(Automaton::new().to_text(), "\n\n\n\n");
}

#[test]
fn missing_lines_count_as_empty() {
    let a = Automaton::from_text("").unwrap();
    assert_eq!(a.alphabet(), &words(&[""]));
    assert_eq!(a.states(), &words(&[""]));
    assert_eq!(a.start_state(), "");
    assert!(a.accepting_states().is_empty());
    assert!(!a.is_accepting(0));
    let b = Automaton::from_text("a b\ns0 s1");
    assert!(matches!(b, Err(AutomatonError::MalformedAutomaton)));
}

#[test]
fn start_state_is_the_whole_trimmed_line() {
    let a = Automaton::from_text("a\ns0\n  s0 \r\ns0\n").unwrap();
    assert_eq!(a.start_state(), "s0");
    let b = Automaton::from_text("a\ns0\n  s0 x \ns0\n");
    assert!(matches!(b, Err(AutomatonError::MalformedAutomaton)));
}

#[test]
fn undeclared_start_state_is_refused() {
    let r = Automaton::from_text("a\nx y\nz\ny");
    assert!(matches!(r, Err(AutomatonError::MalformedAutomaton)));
    let r = Automaton::from_text("a\nx y\n\ny\n");
    assert!(matches!(r, Err(AutomatonError::MalformedAutomaton)));
}

#[test]
fn undeclared_accepting_state_is_refused() {
    let r = Automaton::from_text("a\nx y\nx\ny z\n");
    assert!(matches!(r, Err(AutomatonError::MalformedAutomaton)));
    let r = Automaton::from_text("a\nx y\nx\ny  x\n");
    assert!(matches!(r, Err(AutomatonError::MalformedAutomaton)));
}

#[test]
fn empty_accepting_line_names_no_state() {
    let a = Automaton::from_text("a\nx y\nx\n\nx a y\n").unwrap();
    assert!(a.accepting_states().is_empty());
    assert!(!a.is_accepting(0));
    assert!(!a.is_accepting(1));
    let b = Automaton::from_text("a\nx y\nx\n \t \nx a y\n").unwrap();
    assert!(b.accepting_states().is_empty());
    assert_eq!(b.transition(0, &word("a")), Some(1));
    let c = Automaton::from_text("a\nx y\nx").unwrap();
    assert!(c.accepting_states().is_empty());
}

#[test]
fn duplicate_state_is_reported_before_an_undeclared_name() {
    let r = Automaton::from_text("a\nx x\nz\ny\n");
    assert!(matches!(r, Err(AutomatonError::DuplicateState)));
}

#[test]
fn automaton_without_accepting_states_is_read_back() {
    let a = Automaton::from_text("a\nx y\nx\n\nx a y\n").unwrap();
    assert_eq!(a.to_text(), "a\nx y\nx\n\nx a y\n");
    let m = hopcroft_reduction(&a).unwrap();
    let again = Automaton::from_text(&m.to_text()).unwrap();
    assert_eq!(again.states(), m.states());
    assert!(again.accepting_states().is_empty());
}

#[test]
fn names_declared_tells_whether_the_names_resolve() {
    let mut a = Automaton::new();
    assert!(!a.names_declared());
    a.add_state(word("x")).unwrap();
    a.set_start_state(word("x"));
    assert!(a.names_declared());
    a.set_accepting_states(words(&["x"]));
    assert!(a.names_declared());
    a.set_accepting_states(words(&["x", "y"]));
    assert!(!a.names_declared());
    a.set_accepting_states(words(&[]));
    a.set_start_state(word("y"));
    assert!(!a.names_declared());
}

#[test]
fn further_fields_of_a_transition_are_ignored() {
    let a = Automaton::from_text("a\ns0 s1\ns0\ns1\ns0 a s1 and more\r\n").unwrap();
    assert_eq!(a.transition(0, &word("a")), Some(1));
}

#[test]
fn duplicate_state_name_is_refused() {
    let r = Automaton::from_text("a\ns0 s1 s0\ns0\ns1\n");
    assert!(matches!(r, Err(AutomatonError::DuplicateState)));
    let r = Automaton::from_text("a\ns0  s1  s2\ns0\ns1\n");
    assert!(matches!(r, Err(AutomatonError::DuplicateState)));
}

#[test]
fn short_transition_line_is_refused() {
    let r = Automaton::from_text("a\ns0 s1\ns0\ns1\ns0 a\n");
    assert!(matches!(r, Err(AutomatonError::IncompleteTransition)));
    let r = Automaton::from_text("a\ns0 s1\ns0\ns1\ns0 a s1\n\ns1 a s0\n");
    assert!(matches!(r, Err(AutomatonError::IncompleteTransition)));
}

#[test]
fn undeclared_state_in_a_transition_is_refused() {
    let r = Automaton::from_text("a\ns0 s1\ns0\ns1\ns0 a s2\n");
    assert!(matches!(r, Err(AutomatonError::MalformedAutomaton)));
    let r = Automaton::from_text("a\ns0 s1\ns0\ns1\ns9 a s1\n");
    assert!(matches!(r, Err(AutomatonError::MalformedAutomaton)));
}

#[test]
fn second_transition_on_a_symbol_is_refused_in_text() {
    let r = Automaton::from_text("a\ns0 s1\ns0\ns1\ns0 a s1\ns0 a s0\n");
    assert!(matches!(r, Err(AutomatonError::DuplicateTransition)));
}

#[test]
fn first_refused_line_decides_the_error() {
    let r = Automaton::from_text("a\ns0 s1\ns0\ns1\ns0 a s7\ns0\n");
    assert!(matches!(r, Err(AutomatonError::MalformedAutomaton)));
}

#[test]
fn reading_back_keeps_the_transition_function() {
    let mut a = Automaton::new();
    a.set_alphabet(words(&["0", "1"]));
    for s in ["even", "odd"] {
        a.add_state(word(s)).unwrap();
    }
    a.set_start_state(word("even"));
    a.set_accepting_states(words(&["even"]));
    a.add_transition(1, word("1"), 0).unwrap();
    a.add_transition(0, word("0"), 0).unwrap();
    a.add_transition(1, word("0"), 1).unwrap();
    a.add_transition(0, word("1"), 1).unwrap();
    let text = a.to_text();
    assert_eq!(text, "0 1\neven odd\neven\neven\neven 1 odd\neven 0 even\nodd 0 odd\nodd 1 even\n");
    let b = Automaton::from_text(&text).unwrap();
    assert_eq!(b.states(), a.states());
    assert_eq!(b.alphabet(), a.alphabet());
    assert_eq!(b.start_state(), a.start_state());
    assert_eq!(b.accepting_states(), a.accepting_states());
    for state in 0..2 {
        for symbol in ["0", "1", "2"] {
            assert_eq!(b.transition(state, &word(symbol)), a.transition(state, &word(symbol)));
        }
    }
    // The transitions were added in the order of the lines.
    assert_eq!(b.transitions_from(0), vec![(word("0"), 0), (word("1"), 1)]);
    assert_eq!(b.transitions_from(1), vec![(word("1"), 0), (word("0"), 1)]);
}
