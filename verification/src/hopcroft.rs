//! Partition refinement: the coarsest stable partition of the states of an
//! automaton, and the automaton that has its blocks for states.

use crate::automaton::{Automaton, TransitionTable};
use crate::error::AutomatonError;
use crate::model::{as_int, Dfa};
use crate::partition::{
    block_of, blocks_view, collect_blocks, groups_equivalent, is_minimal_partition, is_partition, is_stable,
    lemma_block_of, lemma_injection_bound, respects_accepting, target_block,
};
use crate::quotient::quotient;
use crate::theorems::{lemma_language_preserved, lemma_same_block_equivalent};
use vstd::prelude::*;

verus! {

/// The class into which `symbol` leads from `state`, if it leads anywhere,
/// where `classes` gives each state its class.
pub open spec fn target_class(dfa: Dfa, classes: Seq<usize>, state: int, symbol: Seq<char>) -> Option<int> {
    match dfa.step(state, symbol) {
        None => None,
        Some(next) => Some(classes[next] as int),
    }
}

/// The states that move on `symbol` as `first` does.
pub open spec fn moves_like(dfa: Dfa, classes: Seq<usize>, first: int, symbol: Seq<char>) -> spec_fn(
    usize,
) -> bool {
    |state: usize| target_class(dfa, classes, state as int, symbol) == target_class(dfa, classes, first, symbol)
}

/// The states that do not move on `symbol` as `first` does.
pub open spec fn moves_unlike(dfa: Dfa, classes: Seq<usize>, first: int, symbol: Seq<char>) -> spec_fn(
    usize,
) -> bool {
    |state: usize| target_class(dfa, classes, state as int, symbol) != target_class(dfa, classes, first, symbol)
}

/// No symbol of the alphabet tells two states of class `class` apart by the
/// classes they move into.
pub open spec fn class_stable(dfa: Dfa, classes: Seq<usize>, class: int) -> bool {
    forall|u: int, v: int, k: int|
        0 <= u < dfa.size() && 0 <= v < dfa.size() && 0 <= k < dfa.alphabet.len() && #[trigger] classes[u] == class
            && #[trigger] classes[v] == class ==> target_class(dfa, classes, u, #[trigger] dfa.alphabet[k])
            == target_class(dfa, classes, v, dfa.alphabet[k])
}

/// States of one class are all accepting or all not.
pub open spec fn classes_respect_accepting(dfa: Dfa, classes: Seq<usize>) -> bool {
    forall|u: int, v: int|
        0 <= u < dfa.size() && 0 <= v < dfa.size() && #[trigger] classes[u] == #[trigger] classes[v]
            ==> dfa.is_accepting(u) == dfa.is_accepting(v)
}

/// States of different classes are told apart by some word.
pub open spec fn classes_separate(dfa: Dfa, classes: Seq<usize>) -> bool {
    forall|u: int, v: int|
        0 <= u < dfa.size() && 0 <= v < dfa.size() && #[trigger] classes[u] != #[trigger] classes[v]
            ==> !dfa.equivalent(u, v)
}

/// Two states that a symbol sends into different classes, or of which only
/// one has a transition on it, are told apart by a word that begins with
/// that symbol.
pub proof fn lemma_split_separates(dfa: Dfa, classes: Seq<usize>, u: int, v: int, symbol: Seq<char>)
    requires
        dfa.wf(),
        classes.len() == dfa.size(),
        classes_separate(dfa, classes),
        0 <= u < dfa.size(),
        0 <= v < dfa.size(),
        dfa.alphabet.contains(symbol),
        target_class(dfa, classes, u, symbol) != target_class(dfa, classes, v, symbol),
    ensures
        !dfa.equivalent(u, v),
{
    let su = dfa.step(u, symbol);
    let sv = dfa.step(v, symbol);
    if su is None || sv is None {
        let word = seq![symbol];
        assert(dfa.is_word(word));
        assert(word[0] == symbol);
        assert(word.drop_first().len() == 0);
        if su is Some {
            assert(dfa.run(su->0, word.drop_first()) == Some(su->0));
        }
        if sv is Some {
            assert(dfa.run(sv->0, word.drop_first()) == Some(sv->0));
        }
        assert(dfa.outcome(u, word) != dfa.outcome(v, word));
    } else {
        let x = su->0;
        let y = sv->0;
        dfa.lemma_step_some(u, symbol);
        dfa.lemma_step_some(v, symbol);
        assert(classes[x] != classes[y]);
        assert(!dfa.equivalent(x, y));
        let tail = choose|tail: Seq<Seq<char>>| dfa.is_word(tail) && dfa.outcome(x, tail) != dfa.outcome(y, tail);
        let word = seq![symbol] + tail;
        assert(word[0] == symbol);
        assert(word.drop_first() =~= tail);
        assert(dfa.is_word(word)) by {
            assert forall|i: int| 0 <= i < word.len() implies dfa.alphabet.contains(#[trigger] word[i]) by {
                if i > 0 {
                    assert(word[i] == tail[i - 1]);
                }
            }
        }
        assert(dfa.run(u, word) == dfa.run(x, tail));
        assert(dfa.run(v, word) == dfa.run(y, tail));
        assert(dfa.outcome(u, word) != dfa.outcome(v, word));
    }
}

/// The target class, under `symbol`, of each state of `set`, in the order of `set`.
pub fn differentiate_set(
    set: &Vec<usize>,
    automaton: &Automaton,
    table: &TransitionTable,
    classes: &Vec<usize>,
    symbol: usize,
) -> (targets: Vec<Option<usize>>)
    requires
        automaton.wf(),
        table.represents(automaton@),
        classes.len() == automaton@.size(),
        symbol < automaton@.alphabet.len(),
        forall|j: int| 0 <= j < set.len() ==> set[j] < automaton@.size(),
    ensures
        targets.len() == set.len(),
        forall|j: int|
            0 <= j < set.len() ==> as_int(#[trigger] targets[j]) == target_class(
                automaton@,
                classes@,
                set[j] as int,
                automaton@.alphabet[symbol as int],
            ),
{
    let mut targets: Vec<Option<usize>> = Vec::new();
    let mut j: usize = 0;
    while j < set.len()
        invariant
            automaton.wf(),
            table.represents(automaton@),
            classes.len() == automaton@.size(),
            symbol < automaton@.alphabet.len(),
            forall|i: int| 0 <= i < set.len() ==> set[i] < automaton@.size(),
            j <= set.len(),
            targets.len() == j,
            forall|i: int|
                0 <= i < j ==> as_int(#[trigger] targets[i]) == target_class(
                    automaton@,
                    classes@,
                    set[i] as int,
                    automaton@.alphabet[symbol as int],
                ),
        decreases set.len() - j,
    {
        let state = set[j];
        assert(as_int(table.moves[state as int][symbol as int]) == automaton@.step(
            state as int,
            automaton@.alphabet[symbol as int],
        ));
        let target = match table.moves[state][symbol] {
            None => None,
            Some(next) => {
                proof {
                    automaton@.lemma_step_some(state as int, automaton@.alphabet[symbol as int]);
                }
                Some(classes[next])
            },
        };
        targets.push(target);
        j += 1;
    }
    targets
}

/// Whether two targets are the same.
pub fn same_target(a: Option<usize>, b: Option<usize>) -> (same: bool)
    ensures
        same == (a == b),
{
    match a {
        None => b.is_none(),
        Some(x) => match b {
            None => false,
            Some(y) => x == y,
        },
    }
}

/// Splits `set` by `symbol`: the states that move as the first state of
/// `set` does, and, if there are any, the others.
pub fn split(
    set: &Vec<usize>,
    automaton: &Automaton,
    table: &TransitionTable,
    classes: &Vec<usize>,
    symbol: usize,
) -> (parts: (Vec<usize>, Option<Vec<usize>>))
    requires
        automaton.wf(),
        table.represents(automaton@),
        classes.len() == automaton@.size(),
        symbol < automaton@.alphabet.len(),
        set.len() > 0,
        forall|j: int| 0 <= j < set.len() ==> set[j] < automaton@.size(),
    ensures
        parts.0@ == set@.filter(
            moves_like(automaton@, classes@, set[0] as int, automaton@.alphabet[symbol as int]),
        ),
        match parts.1 {
            Some(rest) => rest.len() > 0 && rest@ == set@.filter(
                moves_unlike(automaton@, classes@, set[0] as int, automaton@.alphabet[symbol as int]),
            ),
            None => set@.filter(
                moves_unlike(automaton@, classes@, set[0] as int, automaton@.alphabet[symbol as int]),
            ).len() == 0,
        },
{
    let targets = differentiate_set(set, automaton, table, classes, symbol);
    let first = targets[0];
    let ghost like = moves_like(automaton@, classes@, set[0] as int, automaton@.alphabet[symbol as int]);
    let ghost unlike = moves_unlike(automaton@, classes@, set[0] as int, automaton@.alphabet[symbol as int]);
    let mut same: Vec<usize> = Vec::new();
    let mut rest: Vec<usize> = Vec::new();
    let mut j: usize = 0;
    assert(set@.take(0) =~= Seq::empty());
    while j < set.len()
        invariant
            j <= set.len(),
            set.len() > 0,
            targets.len() == set.len(),
            first == targets[0],
            like == moves_like(automaton@, classes@, set[0] as int, automaton@.alphabet[symbol as int]),
            unlike == moves_unlike(automaton@, classes@, set[0] as int, automaton@.alphabet[symbol as int]),
            forall|i: int|
                0 <= i < set.len() ==> as_int(#[trigger] targets[i]) == target_class(
                    automaton@,
                    classes@,
                    set[i] as int,
                    automaton@.alphabet[symbol as int],
                ),
            same@ == set@.take(j as int).filter(like),
            rest@ == set@.take(j as int).filter(unlike),
        decreases set.len() - j,
    {
        proof {
            assert(set@.take(j + 1) =~= set@.take(j as int).push(set[j as int]));
            set@.take(j as int).lemma_filter_push(set[j as int], like);
            set@.take(j as int).lemma_filter_push(set[j as int], unlike);
            assert(as_int(targets[j as int]) == target_class(
                automaton@,
                classes@,
                set[j as int] as int,
                automaton@.alphabet[symbol as int],
            ));
            assert(as_int(targets[0]) == target_class(
                automaton@,
                classes@,
                set[0] as int,
                automaton@.alphabet[symbol as int],
            ));
        }
        if same_target(targets[j], first) {
            same.push(set[j]);
        } else {
            rest.push(set[j]);
        }
        j += 1;
    }
    assert(set@.take(set.len() as int) =~= set@);
    if rest.len() == 0 {
        (same, None)
    } else {
        (same, Some(rest))
    }
}

/// What a filtered list holds: the states of the list that meet the condition.
pub proof fn lemma_filter_members(set: Seq<usize>, pred: spec_fn(usize) -> bool)
    ensures
        forall|x: usize| #[trigger] set.filter(pred).contains(x) <==> set.contains(x) && pred(x),
{
    assert forall|x: usize| #[trigger] set.filter(pred).contains(x) <==> set.contains(x) && pred(x) by {
        if set.filter(pred).contains(x) {
            let i = choose|i: int| 0 <= i < set.filter(pred).len() && set.filter(pred)[i] == x;
            set.lemma_filter_pred(pred, i);
            set.lemma_filter_contains_rev(pred, x);
        }
        if set.contains(x) && pred(x) {
            let j = choose|j: int| 0 <= j < set.len() && set[j] == x;
            set.lemma_filter_contains(pred, j);
        }
    }
}

/// Moving the states of one class that a symbol tells apart from the rest of
/// the class into a fresh class keeps what refinement relies on: classes
/// respect acceptance, and states of different classes are told apart by
/// some word.
pub proof fn lemma_split_keeps_invariants(
    dfa: Dfa,
    before: Seq<usize>,
    after: Seq<usize>,
    class: int,
    fresh: int,
    first: int,
    symbol: Seq<char>,
)
    requires
        dfa.wf(),
        before.len() == dfa.size(),
        after.len() == dfa.size(),
        classes_respect_accepting(dfa, before),
        classes_separate(dfa, before),
        dfa.alphabet.contains(symbol),
        forall|u: int| 0 <= u < dfa.size() ==> #[trigger] before[u] != fresh,
        forall|u: int|
            0 <= u < dfa.size() && #[trigger] after[u] == fresh ==> before[u] == class && target_class(
                dfa,
                before,
                u,
                symbol,
            ) != target_class(dfa, before, first, symbol),
        forall|u: int|
            0 <= u < dfa.size() && #[trigger] after[u] != fresh ==> after[u] == before[u] && (before[u] == class
                ==> target_class(dfa, before, u, symbol) == target_class(dfa, before, first, symbol)),
    ensures
        classes_respect_accepting(dfa, after),
        classes_separate(dfa, after),
{
    assert forall|u: int, v: int|
        0 <= u < dfa.size() && 0 <= v < dfa.size() && #[trigger] after[u] == #[trigger] after[v] implies dfa.is_accepting(u)
        == dfa.is_accepting(v) by {
        assert(before[u] == before[v]);
    }
    assert forall|u: int, v: int|
        0 <= u < dfa.size() && 0 <= v < dfa.size() && #[trigger] after[u] != #[trigger] after[v] implies !dfa.equivalent(
        u,
        v,
    ) by {
        if before[u] == before[v] {
            lemma_split_separates(dfa, before, u, v, symbol);
        }
    }
}

/// The class in which a state starts: the accepting states stand apart
/// from the others, which come first if there are any.
pub open spec fn initial_class(dfa: Dfa, state: int) -> int {
    if dfa.is_accepting(state) && exists|other: int| 0 <= other < dfa.size() && !dfa.is_accepting(other) {
        1
    } else {
        0
    }
}

/// The block waits on the worklist.
pub open spec fn is_queued(worklist: Seq<usize>, block: int) -> bool {
    exists|j: int| 0 <= j < worklist.len() && worklist[j] == block
}

/// The numbers below `count`, in rising order.
pub fn all_blocks(count: usize) -> (list: Vec<usize>)
    ensures
        list.len() == count,
        forall|i: int| 0 <= i < count ==> list[i] == i,
{
    let mut list: Vec<usize> = Vec::new();
    let mut i: usize = 0;
    while i < count
        invariant
            i <= count,
            list.len() == i,
            forall|j: int| 0 <= j < i ==> list[j] == j,
        decreases count - i,
    {
        list.push(i);
        i += 1;
    }
    list
}

/// A partition under refinement: the blocks, and for each state the
/// position of the block that holds it.
pub struct Refinement {
    pub blocks: Vec<Vec<usize>>,
    pub classes: Vec<usize>,
}

impl Refinement {
    /// No block is empty, each state of a block has the block's position for
    /// its class, and each state is listed in the block of its class.
    pub open spec fn wf(&self) -> bool {
        &&& forall|i: int| 0 <= i < self.blocks.len() ==> (#[trigger] self.blocks[i]).len() > 0
        &&& forall|i: int, j: int|
            0 <= i < self.blocks.len() && 0 <= j < self.blocks[i].len() ==> (#[trigger] self.blocks[i][j])
                < self.classes.len() && self.classes[self.blocks[i][j] as int] == i
        &&& forall|u: int|
            0 <= u < self.classes.len() ==> (#[trigger] self.classes[u]) < self.blocks.len()
                && self.blocks[self.classes[u] as int]@.contains(u as usize)
    }

    /// There are no more blocks than states.
    pub proof fn lemma_block_count(&self)
        requires
            self.wf(),
        ensures
            self.blocks.len() <= self.classes.len(),
    {
        let firsts = Seq::new(self.blocks.len() as nat, |i: int| self.blocks[i][0] as int);
        assert forall|i1: int, i2: int|
            0 <= i1 < firsts.len() && 0 <= i2 < firsts.len() && i1 != i2 implies firsts[i1] != firsts[i2] by {
            assert(self.classes[self.blocks[i1][0] as int] == i1);
            assert(self.classes[self.blocks[i2][0] as int] == i2);
        }
        assert forall|i: int| 0 <= i < firsts.len() implies 0 <= #[trigger] firsts[i] < self.classes.len() by {
            assert(self.blocks[i][0] < self.classes.len());
        }
        lemma_injection_bound(firsts, self.classes.len() as int);
    }

    /// The partition from which refinement starts: the states that are not
    /// accepting, then the accepting states; an empty block is left out.
    pub fn initial(automaton: &Automaton, table: &TransitionTable) -> (start: Refinement)
        requires
            automaton.wf(),
            table.represents(automaton@),
        ensures
            start.wf(),
            start.classes.len() == automaton@.size(),
            forall|u: int| 0 <= u < automaton@.size() ==> start.classes[u] == initial_class(automaton@, u),
            forall|i: int, j1: int, j2: int|
                0 <= i < start.blocks.len() && 0 <= j1 < j2 < start.blocks[i].len() ==> start.blocks[i][j1]
                    < start.blocks[i][j2],
            classes_respect_accepting(automaton@, start.classes@),
            classes_separate(automaton@, start.classes@),
    {
        let n = table.accepting.len();
        let mut rejecting: Vec<usize> = Vec::new();
        let mut accepting: Vec<usize> = Vec::new();
        let mut u: usize = 0;
        while u < n
            invariant
                n == table.accepting.len(),
                u <= n,
                forall|j: int|
                    0 <= j < rejecting.len() ==> (#[trigger] rejecting[j]) < u && !table.accepting[rejecting[j] as int],
                forall|j: int|
                    0 <= j < accepting.len() ==> (#[trigger] accepting[j]) < u && table.accepting[accepting[j] as int],
                forall|j1: int, j2: int| 0 <= j1 < j2 < rejecting.len() ==> rejecting[j1] < rejecting[j2],
                forall|j1: int, j2: int| 0 <= j1 < j2 < accepting.len() ==> accepting[j1] < accepting[j2],
                forall|v: int|
                    0 <= v < u ==> if #[trigger] table.accepting[v] {
                        accepting@.contains(v as usize)
                    } else {
                        rejecting@.contains(v as usize)
                    },
            decreases n - u,
        {
            let ghost rejecting_before = rejecting@;
            let ghost accepting_before = accepting@;
            if table.accepting[u] {
                accepting.push(u);
            } else {
                rejecting.push(u);
            }
            proof {
                assert forall|v: int| 0 <= v < u + 1 implies if #[trigger] table.accepting[v] {
                    accepting@.contains(v as usize)
                } else {
                    rejecting@.contains(v as usize)
                } by {
                    if v < u {
                        if table.accepting[v] {
                            let j = choose|j: int| 0 <= j < accepting_before.len() && accepting_before[j] == v as usize;
                            assert(accepting@[j] == v as usize);
                        } else {
                            let j = choose|j: int| 0 <= j < rejecting_before.len() && rejecting_before[j] == v as usize;
                            assert(rejecting@[j] == v as usize);
                        }
                    } else {
                        if table.accepting[v] {
                            assert(accepting@[accepting_before.len() as int] == v as usize);
                        } else {
                            assert(rejecting@[rejecting_before.len() as int] == v as usize);
                        }
                    }
                }
            }
            u += 1;
        }
        let accepting_class: usize = if rejecting.len() > 0 {
            1
        } else {
            0
        };
        let mut classes: Vec<usize> = Vec::new();
        let mut u: usize = 0;
        while u < n
            invariant
                n == table.accepting.len(),
                u <= n,
                classes.len() == u,
                forall|v: int|
                    0 <= v < u ==> #[trigger] classes[v] == if table.accepting[v] {
                        accepting_class
                    } else {
                        0
                    },
            decreases n - u,
        {
            classes.push(
                if table.accepting[u] {
                    accepting_class
                } else {
                    0
                },
            );
            u += 1;
        }
        let ghost rejecting_list = rejecting@;
        let ghost accepting_list = accepting@;
        let mut blocks: Vec<Vec<usize>> = Vec::new();
        if rejecting.len() > 0 {
            blocks.push(rejecting);
        }
        if accepting.len() > 0 {
            blocks.push(accepting);
        }
        let start = Refinement { blocks, classes };
        proof {
            let dfa = automaton@;
            assert forall|u: int| 0 <= u < dfa.size() implies start.classes[u] == initial_class(dfa, u) by {
                assert(table.accepting[u] == dfa.is_accepting(u));
                if rejecting_list.len() > 0 {
                    let v = rejecting_list[0] as int;
                    assert(table.accepting[v] == dfa.is_accepting(v));
                } else if exists|v: int| 0 <= v < dfa.size() && !dfa.is_accepting(v) {
                    let v = choose|v: int| 0 <= v < dfa.size() && !dfa.is_accepting(v);
                    assert(table.accepting[v] == dfa.is_accepting(v));
                    assert(rejecting_list.contains(v as usize));
                }
            }
            assert forall|i: int, j1: int, j2: int|
                0 <= i < start.blocks.len() && 0 <= j1 < j2 < start.blocks[i].len() implies start.blocks[i][j1]
                < start.blocks[i][j2] by {
                if i == 0 && rejecting_list.len() > 0 {
                    assert(start.blocks[i]@ == rejecting_list);
                } else {
                    assert(start.blocks[i]@ == accepting_list);
                }
            }
            assert forall|v: int| 0 <= v < n implies (#[trigger] start.classes[v]) < start.blocks.len()
                && start.blocks[start.classes[v] as int]@.contains(v as usize) by {
                if table.accepting[v] {
                    assert(accepting_list.contains(v as usize));
                    assert(start.blocks[accepting_class as int]@ == accepting_list);
                } else {
                    assert(rejecting_list.contains(v as usize));
                    assert(start.blocks[0]@ == rejecting_list);
                }
            }
            assert forall|i: int, j: int|
                0 <= i < start.blocks.len() && 0 <= j < start.blocks[i].len() implies (#[trigger] start.blocks[i][j])
                < start.classes.len() && start.classes[start.blocks[i][j] as int] == i by {
                if i == 0 && rejecting_list.len() > 0 {
                    assert(start.blocks[i]@ == rejecting_list);
                    assert(rejecting_list[j] < n);
                } else {
                    assert(start.blocks[i]@ == accepting_list);
                    assert(accepting_list[j] < n);
                }
            }
            assert(classes_respect_accepting(dfa, start.classes@)) by {
                assert forall|x: int, y: int|
                    0 <= x < dfa.size() && 0 <= y < dfa.size() && #[trigger] start.classes@[x] == #[trigger] start.classes@[y] implies dfa.is_accepting(
                    x,
                ) == dfa.is_accepting(y) by {
                    assert(table.accepting[x] == dfa.is_accepting(x));
                    assert(table.accepting[y] == dfa.is_accepting(y));
                }
            }
            assert(classes_separate(dfa, start.classes@)) by {
                assert forall|x: int, y: int|
                    0 <= x < dfa.size() && 0 <= y < dfa.size() && #[trigger] start.classes@[x] != #[trigger] start.classes@[y] implies !dfa.equivalent(
                    x,
                    y,
                ) by {
                    assert(table.accepting[x] == dfa.is_accepting(x));
                    assert(table.accepting[y] == dfa.is_accepting(y));
                    let word = Seq::<Seq<char>>::empty();
                    assert(dfa.is_word(word));
                    assert(dfa.outcome(x, word) != dfa.outcome(y, word));
                }
            }
        }
        start
    }

    /// The first symbol of the alphabet that splits a block, with the two
    /// parts into which it splits the block; none if the block is stable.
    pub fn first_split(&self, block: usize, automaton: &Automaton, table: &TransitionTable) -> (found: Option<
        (usize, Vec<usize>, Vec<usize>),
    >)
        requires
            self.wf(),
            automaton.wf(),
            table.represents(automaton@),
            self.classes.len() == automaton@.size(),
            block < self.blocks.len(),
        ensures
            match found {
                None => class_stable(automaton@, self.classes@, block as int),
                Some((symbol, same, rest)) => {
                    &&& symbol < automaton@.alphabet.len()
                    &&& rest.len() > 0
                    &&& forall|j: int, c: int|
                        0 <= j < self.blocks[block as int].len() && 0 <= c < symbol ==> target_class(
                            automaton@,
                            self.classes@,
                            #[trigger] self.blocks[block as int][j] as int,
                            #[trigger] automaton@.alphabet[c],
                        ) == target_class(
                            automaton@,
                            self.classes@,
                            self.blocks[block as int][0] as int,
                            automaton@.alphabet[c],
                        )
                    &&& same@ == self.blocks[block as int]@.filter(
                        moves_like(
                            automaton@,
                            self.classes@,
                            self.blocks[block as int][0] as int,
                            automaton@.alphabet[symbol as int],
                        ),
                    )
                    &&& rest@ == self.blocks[block as int]@.filter(
                        moves_unlike(
                            automaton@,
                            self.classes@,
                            self.blocks[block as int][0] as int,
                            automaton@.alphabet[symbol as int],
                        ),
                    )
                },
            },
    {
        let symbols = automaton.alphabet().len();
        let ghost dfa = automaton@;
        let ghost set = self.blocks[block as int]@;
        let mut k: usize = 0;
        while k < symbols
            invariant
                self.wf(),
                automaton.wf(),
                table.represents(automaton@),
                self.classes.len() == automaton@.size(),
                block < self.blocks.len(),
                dfa == automaton@,
                set == self.blocks[block as int]@,
                symbols == dfa.alphabet.len(),
                k <= symbols,
                forall|j: int, c: int|
                    0 <= j < set.len() && 0 <= c < k ==> target_class(dfa, self.classes@, #[trigger] set[j] as int, #[trigger] dfa.alphabet[c])
                        == target_class(dfa, self.classes@, set[0] as int, dfa.alphabet[c]),
            decreases symbols - k,
        {
            assert(forall|j: int| 0 <= j < set.len() ==> (#[trigger] self.blocks[block as int][j]) < dfa.size());
            let (same, others) = split(&self.blocks[block], automaton, table, &self.classes, k);
            match others {
                Some(rest) => {
                    return Some((k, same, rest));
                },
                None => {
                    proof {
                        let unlike = moves_unlike(dfa, self.classes@, set[0] as int, dfa.alphabet[k as int]);
                        lemma_filter_members(set, unlike);
                        assert forall|j: int| 0 <= j < set.len() implies target_class(
                            dfa,
                            self.classes@,
                            #[trigger] set[j] as int,
                            dfa.alphabet[k as int],
                        ) == target_class(dfa, self.classes@, set[0] as int, dfa.alphabet[k as int]) by {
                            if unlike(set[j]) {
                                assert(set.contains(set[j]));
                                assert(set.filter(unlike).contains(set[j]));
                            }
                        }
                    }
                },
            }
            k += 1;
        }
        proof {
            assert forall|u: int, v: int, c: int|
                0 <= u < dfa.size() && 0 <= v < dfa.size() && 0 <= c < dfa.alphabet.len() && #[trigger] self.classes@[u]
                    == block && #[trigger] self.classes@[v] == block implies target_class(
                dfa,
                self.classes@,
                u,
                #[trigger] dfa.alphabet[c],
            ) == target_class(dfa, self.classes@, v, dfa.alphabet[c]) by {
                let ju = choose|j: int| 0 <= j < set.len() && set[j] == u as usize;
                let jv = choose|j: int| 0 <= j < set.len() && set[j] == v as usize;
                assert(set[ju] as int == u);
                assert(set[jv] as int == v);
            }
        }
        None
    }

    /// Moves the states of `rest` out of a block into a new block at the end.
    pub fn apply_split(
        &mut self,
        block: usize,
        symbol: usize,
        same: Vec<usize>,
        rest: Vec<usize>,
        automaton: &Automaton,
    )
        requires
            old(self).wf(),
            automaton.wf(),
            old(self).classes.len() == automaton@.size(),
            block < old(self).blocks.len(),
            symbol < automaton@.alphabet.len(),
            rest.len() > 0,
            same@ == old(self).blocks[block as int]@.filter(
                moves_like(
                    automaton@,
                    old(self).classes@,
                    old(self).blocks[block as int][0] as int,
                    automaton@.alphabet[symbol as int],
                ),
            ),
            rest@ == old(self).blocks[block as int]@.filter(
                moves_unlike(
                    automaton@,
                    old(self).classes@,
                    old(self).blocks[block as int][0] as int,
                    automaton@.alphabet[symbol as int],
                ),
            ),
            classes_respect_accepting(automaton@, old(self).classes@),
            classes_separate(automaton@, old(self).classes@),
        ensures
            final(self).wf(),
            final(self).classes.len() == old(self).classes.len(),
            final(self).blocks@ == old(self).blocks@.update(block as int, same).push(rest),
            forall|u: int|
                0 <= u < old(self).classes.len() ==> final(self).classes[u] == if rest@.contains(u as usize) {
                    old(self).blocks.len()
                } else {
                    old(self).classes[u]
                },
            classes_respect_accepting(automaton@, final(self).classes@),
            classes_separate(automaton@, final(self).classes@),
    {
        let fresh = self.blocks.len();
        let ghost dfa = automaton@;
        let ghost blocks_before = self.blocks@;
        let ghost classes_before = self.classes@;
        let ghost set = blocks_before[block as int]@;
        let ghost first = set[0] as int;
        let ghost letter = dfa.alphabet[symbol as int];
        let ghost like = moves_like(dfa, classes_before, first, letter);
        let ghost unlike = moves_unlike(dfa, classes_before, first, letter);
        proof {
            lemma_filter_members(set, like);
            lemma_filter_members(set, unlike);
            assert forall|i: int| 0 <= i < rest.len() implies (#[trigger] rest[i]) < classes_before.len()
                && classes_before[rest[i] as int] == block by {
                assert(rest@.contains(rest[i]));
                assert(set.contains(rest[i]));
                let j = choose|j: int| 0 <= j < set.len() && set[j] == rest[i];
                assert(self.blocks[block as int][j] == rest[i]);
            }
        }
        let mut j: usize = 0;
        while j < rest.len()
            invariant
                j <= rest.len(),
                self.blocks@ == blocks_before,
                self.classes.len() == classes_before.len(),
                fresh == blocks_before.len(),
                forall|i: int| 0 <= i < rest.len() ==> (#[trigger] rest[i]) < classes_before.len(),
                forall|u: int|
                    0 <= u < self.classes.len() && #[trigger] self.classes[u] == fresh ==> rest@.contains(u as usize),
                forall|u: int|
                    0 <= u < self.classes.len() && #[trigger] self.classes[u] != fresh ==> self.classes[u]
                        == classes_before[u],
                forall|i: int| 0 <= i < j ==> self.classes[(#[trigger] rest[i]) as int] == fresh,
            decreases rest.len() - j,
        {
            let state = rest[j];
            self.classes[state] = fresh;
            proof {
                assert(rest@.contains(state));
            }
            j += 1;
        }
        let ghost rest_list = rest@;
        let ghost same_list = same@;
        self.blocks[block] = same;
        self.blocks.push(rest);
        proof {
            let n = classes_before.len() as int;
            assert(self.blocks@ =~= blocks_before.update(block as int, same).push(rest));
            assert forall|u: int| 0 <= u < n implies self.classes[u] == if rest_list.contains(u as usize) {
                fresh
            } else {
                classes_before[u]
            } by {
                if rest_list.contains(u as usize) {
                    let i = choose|i: int| 0 <= i < rest_list.len() && rest_list[i] == u as usize;
                    assert(self.classes[rest_list[i] as int] == fresh);
                }
            }
            assert(like(set[0]));
            assert(set.contains(set[0]));
            assert(same_list.contains(set[0]));
            assert(forall|u: int| 0 <= u < n ==> (#[trigger] classes_before[u]) < fresh);
            assert forall|u: int| 0 <= u < n implies (#[trigger] self.classes[u]) < self.blocks.len()
                && self.blocks[self.classes[u] as int]@.contains(u as usize) by {
                if self.classes[u] == fresh {
                    assert(self.blocks[fresh as int]@ == rest_list);
                } else {
                    let b = classes_before[u];
                    assert(blocks_before[b as int]@.contains(u as usize));
                    if b == block {
                        if unlike(u as usize) {
                            assert(rest_list.contains(u as usize));
                            let i = choose|i: int| 0 <= i < rest_list.len() && rest_list[i] == u as usize;
                            assert(self.classes[rest[i] as int] == fresh);
                        }
                        assert(same_list.contains(u as usize));
                        assert(self.blocks[block as int]@ == same_list);
                    } else {
                        assert(self.blocks[b as int] == blocks_before[b as int]);
                    }
                }
            }
            assert forall|i: int, k: int|
                0 <= i < self.blocks.len() && 0 <= k < self.blocks[i].len() implies (#[trigger] self.blocks[i][k])
                < self.classes.len() && self.classes[self.blocks[i][k] as int] == i by {
                let x = self.blocks[i][k];
                if i == fresh {
                    assert(x == rest_list[k]);
                } else if i == block {
                    assert(x == same_list[k]);
                    assert(same_list.contains(x));
                    assert(set.contains(x) && like(x));
                    let j0 = choose|j0: int| 0 <= j0 < set.len() && set[j0] == x;
                    assert(blocks_before[block as int][j0] == x);
                    if self.classes[x as int] == fresh {
                        assert(rest_list.contains(x));
                    }
                } else {
                    assert(x == blocks_before[i][k]);
                    if self.classes[x as int] == fresh {
                        assert(rest_list.contains(x));
                        assert(set.contains(x));
                        let j0 = choose|j0: int| 0 <= j0 < set.len() && set[j0] == x;
                        assert(blocks_before[block as int][j0] == x);
                    }
                }
            }
            assert forall|i: int| 0 <= i < self.blocks.len() implies (#[trigger] self.blocks[i]).len() > 0 by {
                if i == fresh {
                } else if i == block {
                } else {
                    assert(self.blocks[i] == blocks_before[i]);
                }
            }
            assert(dfa.alphabet.contains(letter));
            assert forall|u: int| 0 <= u < dfa.size() && #[trigger] self.classes@[u] == fresh implies classes_before[u]
                == block && target_class(dfa, classes_before, u, letter) != target_class(
                dfa,
                classes_before,
                first,
                letter,
            ) by {
                assert(rest_list.contains(u as usize));
                assert(set.contains(u as usize) && unlike(u as usize));
                let j0 = choose|j0: int| 0 <= j0 < set.len() && set[j0] == u as usize;
                assert(blocks_before[block as int][j0] == u as usize);
            }
            assert forall|u: int| 0 <= u < dfa.size() && #[trigger] self.classes@[u] != fresh implies self.classes@[u]
                == classes_before[u] && (classes_before[u] == block ==> target_class(dfa, classes_before, u, letter)
                == target_class(dfa, classes_before, first, letter)) by {
                if classes_before[u] == block && unlike(u as usize) {
                    assert(blocks_before[block as int]@.contains(u as usize));
                    assert(rest_list.contains(u as usize));
                    let i = choose|i: int| 0 <= i < rest_list.len() && rest_list[i] == u as usize;
                    assert(self.classes[rest_list[i] as int] == fresh);
                }
            }
            lemma_split_keeps_invariants(dfa, classes_before, self.classes@, block as int, fresh as int, first, letter);
        }
    }
}

/// Refines the partition into accepting and other states until every block
/// is stable. A block waits on the worklist until it has been examined; when
/// a block is split, every block may have lost its stability, and all of
/// them are queued again.
pub fn refine(automaton: &Automaton, table: &TransitionTable) -> (done: Refinement)
    requires
        automaton.wf(),
        table.represents(automaton@),
    ensures
        done.wf(),
        done.classes.len() == automaton@.size(),
        forall|class: int| class_stable(automaton@, done.classes@, class),
        classes_respect_accepting(automaton@, done.classes@),
        classes_separate(automaton@, done.classes@),
{
    let mut current = Refinement::initial(automaton, table);
    let mut worklist = all_blocks(current.blocks.len());
    let ghost dfa = automaton@;
    proof {
        current.lemma_block_count();
        assert forall|b: int| 0 <= b < current.blocks.len() implies #[trigger] is_queued(worklist@, b) by {
            assert(worklist@[b] == b);
        }
    }
    while worklist.len() > 0
        invariant
            automaton.wf(),
            table.represents(automaton@),
            dfa == automaton@,
            current.wf(),
            current.classes.len() == dfa.size(),
            current.blocks.len() <= current.classes.len(),
            classes_respect_accepting(dfa, current.classes@),
            classes_separate(dfa, current.classes@),
            forall|j: int| 0 <= j < worklist.len() ==> (#[trigger] worklist[j]) < current.blocks.len(),
            forall|b: int|
                0 <= b < current.blocks.len() ==> class_stable(dfa, current.classes@, b) || #[trigger] is_queued(
                    worklist@,
                    b,
                ),
        decreases current.classes.len() - current.blocks.len(), worklist.len(),
    {
        let ghost queued = worklist@;
        let block = worklist.pop().unwrap();
        match current.first_split(block, automaton, table) {
            None => {
                proof {
                    assert forall|b: int| 0 <= b < current.blocks.len() implies class_stable(dfa, current.classes@, b)
                        || #[trigger] is_queued(worklist@, b) by {
                        if b != block && !class_stable(dfa, current.classes@, b) {
                            assert(is_queued(queued, b));
                            let j = choose|j: int| 0 <= j < queued.len() && queued[j] == b;
                            assert(worklist@[j] == b);
                        }
                    }
                }
            },
            Some((symbol, same, rest)) => {
                current.apply_split(block, symbol, same, rest, automaton);
                worklist = all_blocks(current.blocks.len());
                proof {
                    current.lemma_block_count();
                    assert forall|b: int| 0 <= b < current.blocks.len() implies #[trigger] is_queued(worklist@, b) by {
                        assert(worklist@[b] == b);
                    }
                }
            },
        }
    }
    proof {
        assert forall|class: int| class_stable(dfa, current.classes@, class) by {
            if 0 <= class < current.blocks.len() {
                assert(!is_queued(worklist@, class));
            }
        }
    }
    current
}

/// What refinement establishes of the classes carries over to the blocks
/// that gather them.
pub proof fn lemma_minimal_partition(dfa: Dfa, classes: Seq<usize>, p: Seq<Seq<int>>)
    requires
        dfa.wf(),
        classes.len() == dfa.size(),
        is_partition(p, dfa.size()),
        forall|u: int, v: int|
            0 <= u < dfa.size() && 0 <= v < dfa.size() ==> (block_of(p, u) == block_of(p, v) <==> classes[u]
                == classes[v]),
        forall|class: int| class_stable(dfa, classes, class),
        classes_respect_accepting(dfa, classes),
        classes_separate(dfa, classes),
    ensures
        is_stable(dfa, p),
        respects_accepting(dfa, p),
        groups_equivalent(dfa, p),
{
    let n = dfa.size();
    assert forall|i: int, j1: int, j2: int, k: int|
        0 <= i < p.len() && 0 <= j1 < p[i].len() && 0 <= j2 < p[i].len() && 0 <= k < dfa.alphabet.len() implies target_block(
        dfa,
        p,
        #[trigger] p[i][j1],
        #[trigger] dfa.alphabet[k],
    ) == target_block(dfa, p, #[trigger] p[i][j2], dfa.alphabet[k]) by {
        let u = p[i][j1];
        let v = p[i][j2];
        let symbol = dfa.alphabet[k];
        lemma_block_of(p, n, i, j1);
        lemma_block_of(p, n, i, j2);
        assert(classes[u] == classes[v]);
        assert(class_stable(dfa, classes, classes[u] as int));
        assert(target_class(dfa, classes, u, dfa.alphabet[k]) == target_class(dfa, classes, v, dfa.alphabet[k]));
        if dfa.step(u, symbol) is Some {
            dfa.lemma_step_some(u, symbol);
            dfa.lemma_step_some(v, symbol);
        }
    }
    assert forall|i: int, j1: int, j2: int|
        0 <= i < p.len() && 0 <= j1 < p[i].len() && 0 <= j2 < p[i].len() implies dfa.is_accepting(#[trigger] p[i][j1])
        == dfa.is_accepting(#[trigger] p[i][j2]) by {
        lemma_block_of(p, n, i, j1);
        lemma_block_of(p, n, i, j2);
        assert(classes[p[i][j1]] == classes[p[i][j2]]);
    }
    assert forall|u: int, v: int| 0 <= u < dfa.size() && 0 <= v < dfa.size() implies (#[trigger] block_of(p, u)
        == #[trigger] block_of(p, v) <==> dfa.equivalent(u, v)) by {
        if block_of(p, u) == block_of(p, v) {
            lemma_same_block_equivalent(dfa, p, u, v);
        }
    }
}

/// The coarsest stable partition of the states of an automaton that keeps
/// accepting states apart from the others. An automaton with states whose
/// start state is none of them is refused.
pub fn minimize(automaton: &Automaton) -> (result: Result<Vec<Vec<usize>>, AutomatonError>)
    requires
        automaton.wf(),
    ensures
        match result {
            Ok(blocks) => (automaton@.size() == 0 || automaton@.start_index() is Some) && is_minimal_partition(
                automaton@,
                blocks_view(blocks@),
            ),
            Err(e) => e == AutomatonError::MalformedAutomaton && automaton@.size() > 0
                && automaton@.start_index() is None,
        },
{
    if automaton.num_states() > 0 && automaton.state_index(automaton.start_state()).is_none() {
        return Err(AutomatonError::MalformedAutomaton);
    }
    let table = automaton.table();
    let done = refine(automaton, &table);
    let blocks = collect_blocks(&done.classes, done.blocks.len());
    proof {
        lemma_minimal_partition(automaton@, done.classes@, blocks_view(blocks@));
    }
    Ok(blocks)
}

/// The minimal automaton of `automaton`: the quotient by the coarsest
/// stable partition of its states, which accepts the words that
/// `automaton` accepts. An automaton with states whose start state is none
/// of them is refused; one without states is left as it is.
pub fn hopcroft_reduction(automaton: &Automaton) -> (result: Result<Automaton, AutomatonError>)
    requires
        automaton.wf(),
    ensures
        match result {
            Ok(minimized) => {
                &&& automaton@.size() == 0 || automaton@.start_index() is Some
                &&& minimized.wf()
                &&& automaton@.size() > 0 ==> minimized@.closed()
                &&& exists|p: Seq<Seq<int>>|
                    #[trigger] is_minimal_partition(automaton@, p) && minimized@ == quotient(automaton@, p)
                &&& forall|word: Seq<Seq<char>>| #[trigger]
                    automaton@.is_word(word) ==> minimized@.accepts(word) == automaton@.accepts(word)
            },
            Err(e) => e == AutomatonError::MalformedAutomaton && automaton@.size() > 0
                && automaton@.start_index() is None,
        },
{
    let sets = match minimize(automaton) {
        Ok(sets) => sets,
        Err(e) => {
            return Err(e);
        },
    };
    let result = Automaton::create_from_sets(&sets, automaton);
    proof {
        let p = blocks_view(sets@);
        assert(is_minimal_partition(automaton@, p));
        assert forall|word: Seq<Seq<char>>| #[trigger] automaton@.is_word(word) implies quotient(
            automaton@,
            p,
        ).accepts(word) == automaton@.accepts(word) by {
            lemma_language_preserved(automaton@, p, word);
        }
    }
    result
}

} // verus!
