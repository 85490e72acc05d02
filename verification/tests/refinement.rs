use dfa_minimizer::automaton::{clone_names, find_name, Automaton};
use dfa_minimizer::hopcroft::{all_blocks, differentiate_set, refine, same_target, split, Refinement};

fn word(s: &str) -> String {
    s.to_string()
}

fn words(list: &[&str]) -> Vec<String> {
    list.iter().map(|s| s.to_string()).collect()
}

fn four_states() -> Automaton {
    let mut a = Automaton::new();
    a.set_alphabet(words(&["a", "b"]));
    for s in ["s0", "s1", "s2", "s3"] {
        a.add_state(word(s)).unwrap();
    }
    a.set_start_state(word("s0"));
    a.set_accepting_states(words(&["s3"]));
    for (from, symbol, to) in
        [(0, "a", 1), (0, "b", 2), (1, "a", 3), (1, "b", 2), (2, "a", 3), (2, "b", 2), (3, "a", 3), (3, "b", 3)]
    {
        a.add_transition(from, word(symbol), to).unwrap();
    }
    a
}

#[test]
fn table_holds_moves_and_acceptance() {
    let a = four_states();
    let t = a.table();
    assert_eq!(
        t.moves,
        vec![
            vec![Some(1), Some(2)],
            vec![Some(3), Some(2)],
            vec![Some(3), Some(2)],
            vec![Some(3), Some(3)]
        ]
    );
    assert_eq!(t.accepting, vec![false, false, false, true]);
}

#[test]
fn table_marks_missing_moves() {
    let mut a = Automaton::new();
    a.set_alphabet(words(&["a", "b"]));
    a.add_state(word("s0")).unwrap();
    a.add_transition(0, word("b"), 0).unwrap();
    assert_eq!(a.table().moves, vec![vec![None, Some(0)]]);
}

#[test]
fn initial_partition_parts_accepting_from_the_rest() {
    let a = four_states();
    let t = a.table();
    let start = Refinement::initial(&a, &t);
    assert_eq!(start.blocks, vec![vec![0, 1, 2], vec![3]]);
    assert_eq!(start.classes, vec![0, 0, 0, 1]);
}

#[test]
fn initial_partition_leaves_out_an_empty_block() {
    let mut a = Automaton::new();
    a.add_state(word("s0")).unwrap();
    a.add_state(word("s1")).unwrap();
    let t = a.table();
    let start = Refinement::initial(&a, &t);
    assert_eq!(start.blocks, vec![vec![0, 1]]);
    assert_eq!(start.classes, vec![0, 0]);
    a.set_accepting_states(words(&["s0", "s1"]));
    let t = a.table();
    let start = Refinement::initial(&a, &t);
    assert_eq!(start.blocks, vec![vec![0, 1]]);
    assert_eq!(start.classes, vec![0, 0]);
    let e = Automaton::new();
    let start = Refinement::initial(&e, &e.table());
    assert!(start.blocks.is_empty());
    assert!(start.classes.is_empty());
}

#[test]
fn targets_are_resolved_against_the_classes() {
    let a = four_states();
    let t = a.table();
    let classes = vec![0, 0, 0, 1];
    assert_eq!(differentiate_set(&vec![0, 1, 2], &a, &t, &classes, 0), vec![Some(0), Some(1), Some(1)]);
    assert_eq!(differentiate_set(&vec![0, 1, 2], &a, &t, &classes, 1), vec![Some(0), Some(0), Some(0)]);
    assert_eq!(differentiate_set(&vec![3], &a, &t, &classes, 0), vec![Some(1)]);
}

#[test]
fn split_peels_off_the_states_that_move_unlike_the_first() {
    let a = four_states();
    let t = a.table();
    let classes = vec![0, 0, 0, 1];
    assert_eq!(split(&vec![0, 1, 2], &a, &t, &classes, 0), (vec![0], Some(vec![1, 2])));
    assert_eq!(split(&vec![0, 1, 2], &a, &t, &classes, 1), (vec![0, 1, 2], None));
    assert_eq!(split(&vec![2, 0, 1], &a, &t, &classes, 0), (vec![2, 1], Some(vec![0])));
}

#[test]
fn first_split_takes_the_first_symbol_that_splits() {
    let a = four_states();
    let t = a.table();
    let start = Refinement::initial(&a, &t);
    assert_eq!(start.first_split(0, &a, &t), Some((0, vec![0], vec![1, 2])));
    assert_eq!(start.first_split(1, &a, &t), None);
}

#[test]
fn applied_split_adds_a_block_at_the_end() {
    let a = four_states();
    let t = a.table();
    let mut r = Refinement::initial(&a, &t);
    r.apply_split(0, 0, vec![0], vec![1, 2], &a);
    assert_eq!(r.blocks, vec![vec![0], vec![3], vec![1, 2]]);
    assert_eq!(r.classes, vec![0, 2, 2, 1]);
}

#[test]
fn refinement_ends_with_stable_blocks() {
    let a = four_states();
    let t = a.table();
    let r = refine(&a, &t);
    assert_eq!(r.classes, vec![0, 2, 2, 1]);
    assert_eq!(r.blocks, vec![vec![0], vec![3], vec![1, 2]]);
}

#[test]
fn helpers_on_lists() {
    assert_eq!(all_blocks(3), vec![0, 1, 2]);
    assert_eq!(all_blocks(0), Vec::<usize>::new());
    assert!(same_target(None, None));
    assert!(same_target(Some(2), Some(2)));
    assert!(!same_target(Some(2), Some(3)));
    assert!(!same_target(None, Some(0)));
    assert!(!same_target(Some(0), None));
    let list = words(&["a", "b", "a"]);
    assert_eq!(find_name(&list, &word("a")), Some(0));
    assert_eq!(find_name(&list, &word("b")), Some(1));
    assert_eq!(find_name(&list, &word("c")), None);
    assert_eq!(clone_names(&list), list);
}

#[test]
fn accepting_is_by_name() {
    let mut a = four_states();
    a.set_accepting_states(words(&["s1", "ghost"]));
    assert!(a.is_accepting(1));
    assert!(!a.is_accepting(3));
    assert!(!a.is_accepting(9));
}
