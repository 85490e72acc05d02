//! What minimization guarantees: the quotient by a stable partition accepts
//! the same words, the partition that minimization computes is the coarsest
//! stable one, no total automaton for the same words has fewer states, and
//! minimizing a minimal automaton changes nothing.

use crate::model::Dfa;
use crate::partition::{
    block_of, is_minimal_partition, is_partition, is_stable, lemma_block_of, lemma_block_of_state,
    lemma_injection_bound, lemma_partition_len, respects_accepting, target_block,
};
use crate::quotient::{
    block_accepting, block_row, lemma_quotient_step, lemma_quotient_wf, lemma_state_name_injective, quotient,
    quotient_accepting, quotient_transitions, state_name,
};
use vstd::prelude::*;

verus! {

/// A name is listed as accepting in the quotient exactly if it is the name
/// of a block that holds an accepting state.
pub proof fn lemma_quotient_accepting(dfa: Dfa, p: Seq<Seq<int>>, upto: int, i: nat)
    requires
        0 <= upto <= p.len(),
    ensures
        quotient_accepting(dfa, p, upto).contains(state_name(i)) <==> (i < upto && block_accepting(
            dfa,
            p[i as int],
        )),
    decreases upto,
{
    let all = quotient_accepting(dfa, p, upto);
    let name = state_name(i);
    if upto > 0 {
        lemma_quotient_accepting(dfa, p, upto - 1, i);
        let rest = quotient_accepting(dfa, p, upto - 1);
        if block_accepting(dfa, p[upto - 1]) {
            assert(all == rest.push(state_name((upto - 1) as nat)));
            if all.contains(name) {
                let x = choose|x: int| 0 <= x < all.len() && all[x] == name;
                if x == rest.len() {
                    lemma_state_name_injective(i, (upto - 1) as nat);
                } else {
                    assert(rest[x] == name);
                }
            }
            if i < upto && block_accepting(dfa, p[i as int]) {
                if i == upto - 1 {
                    assert(all[rest.len() as int] == name);
                } else {
                    let x = choose|x: int| 0 <= x < rest.len() && rest[x] == name;
                    assert(all[x] == name);
                }
            }
        }
    }
}

/// Where the partition respects acceptance, a state of the quotient is
/// accepting exactly if the states of its block are.
pub proof fn lemma_quotient_is_accepting(dfa: Dfa, p: Seq<Seq<int>>, i: int, j: int)
    requires
        dfa.wf(),
        is_partition(p, dfa.size()),
        respects_accepting(dfa, p),
        0 <= i < p.len(),
        0 <= j < p[i].len(),
    ensures
        quotient(dfa, p).is_accepting(i) == dfa.is_accepting(p[i][j]),
{
    let q = quotient(dfa, p);
    lemma_quotient_accepting(dfa, p, p.len() as int, i as nat);
    assert(q.states[i] == state_name(i as nat));
    if block_accepting(dfa, p[i]) {
        let at = choose|at: int| 0 <= at < p[i].len() && dfa.is_accepting(#[trigger] p[i][at]);
        assert(dfa.is_accepting(p[i][at]) == dfa.is_accepting(p[i][j]));
    }
}

/// The quotient by a stable partition that respects acceptance follows the
/// automaton: from the block of a state, a word has the outcome that it has
/// from the state.
pub proof fn lemma_simulation(dfa: Dfa, p: Seq<Seq<int>>, state: int, word: Seq<Seq<char>>)
    requires
        dfa.wf(),
        is_partition(p, dfa.size()),
        is_stable(dfa, p),
        respects_accepting(dfa, p),
        0 <= state < dfa.size(),
        dfa.is_word(word),
    ensures
        quotient(dfa, p).outcome(block_of(p, state), word) == dfa.outcome(state, word),
    decreases word.len(),
{
    let q = quotient(dfa, p);
    let i = block_of(p, state);
    lemma_block_of_state(p, dfa.size(), state);
    let j = choose|j: int| 0 <= j < p[i].len() && p[i][j] == state;
    if word.len() == 0 {
        lemma_quotient_is_accepting(dfa, p, i, j);
    } else {
        let symbol = word[0];
        assert(dfa.alphabet.contains(symbol));
        let k = choose|k: int| 0 <= k < dfa.alphabet.len() && dfa.alphabet[k] == symbol;
        lemma_quotient_step(dfa, p, i, symbol);
        assert(target_block(dfa, p, p[i][0], dfa.alphabet[k]) == target_block(dfa, p, p[i][j], dfa.alphabet[k]));
        if dfa.step(state, symbol) is Some {
            let next = dfa.step(state, symbol)->0;
            dfa.lemma_step_some(state, symbol);
            let tail = word.drop_first();
            assert(dfa.is_word(tail)) by {
                assert forall|x: int| 0 <= x < tail.len() implies dfa.alphabet.contains(#[trigger] tail[x]) by {
                    assert(tail[x] == word[x + 1]);
                }
            }
            lemma_simulation(dfa, p, next, tail);
        }
    }
}

/// The start state of the quotient is the block of the start state.
pub proof fn lemma_quotient_start(dfa: Dfa, p: Seq<Seq<int>>)
    requires
        dfa.wf(),
        is_partition(p, dfa.size()),
        dfa.start_index() is Some,
    ensures
        0 <= dfa.start_index()->0 < dfa.size(),
        quotient(dfa, p).start_index() == Some(block_of(p, dfa.start_index()->0)),
{
    let q = quotient(dfa, p);
    let start = dfa.start_index()->0;
    lemma_block_of_state(p, dfa.size(), start);
    let b = block_of(p, start);
    lemma_quotient_wf(dfa, p);
    assert(q.states[b] == state_name(b as nat));
    q.lemma_index_of(b);
}

/// Every name that the quotient lists as accepting is the name of one of
/// its states.
pub proof fn lemma_accepting_are_states(dfa: Dfa, p: Seq<Seq<int>>, upto: int, x: int)
    requires
        0 <= upto <= p.len(),
        0 <= x < quotient_accepting(dfa, p, upto).len(),
    ensures
        quotient(dfa, p).states.contains(quotient_accepting(dfa, p, upto)[x]),
    decreases upto,
{
    if upto > 0 {
        let rest = quotient_accepting(dfa, p, upto - 1);
        if x < rest.len() {
            lemma_accepting_are_states(dfa, p, upto - 1, x);
        } else {
            assert(quotient(dfa, p).states[upto - 1] == state_name((upto - 1) as nat));
        }
    }
}

/// In the quotient of an automaton whose start state is declared, the
/// names resolve: the start state and the accepting states are states.
pub proof fn lemma_quotient_closed(dfa: Dfa, p: Seq<Seq<int>>)
    requires
        dfa.wf(),
        is_partition(p, dfa.size()),
        dfa.start_index() is Some,
    ensures
        quotient(dfa, p).closed(),
{
    let q = quotient(dfa, p);
    lemma_quotient_start(dfa, p);
    assert forall|x: int| 0 <= x < q.accepting.len() implies q.states.contains(#[trigger] q.accepting[x]) by {
        lemma_accepting_are_states(dfa, p, p.len() as int, x);
    }
}

/// Language preservation: the quotient of an automaton by a stable
/// partition that respects acceptance accepts exactly the words over the
/// alphabet that the automaton accepts.
pub proof fn lemma_language_preserved(dfa: Dfa, p: Seq<Seq<int>>, word: Seq<Seq<char>>)
    requires
        dfa.wf(),
        dfa.size() == 0 || dfa.start_index() is Some,
        is_partition(p, dfa.size()),
        is_stable(dfa, p),
        respects_accepting(dfa, p),
        dfa.is_word(word),
    ensures
        quotient(dfa, p).accepts(word) == dfa.accepts(word),
{
    let q = quotient(dfa, p);
    if dfa.start_index() is Some {
        lemma_quotient_start(dfa, p);
        lemma_simulation(dfa, p, dfa.start_index()->0, word);
    } else {
        lemma_partition_len(p, dfa.size());
        assert(q.states.len() == 0);
    }
}

/// Two states that a stable partition which respects acceptance puts into
/// one block are told apart by no word.
pub proof fn lemma_same_block_equivalent(dfa: Dfa, p: Seq<Seq<int>>, u: int, v: int)
    requires
        dfa.wf(),
        is_partition(p, dfa.size()),
        is_stable(dfa, p),
        respects_accepting(dfa, p),
        0 <= u < dfa.size(),
        0 <= v < dfa.size(),
        block_of(p, u) == block_of(p, v),
    ensures
        dfa.equivalent(u, v),
{
    assert forall|word: Seq<Seq<char>>| #[trigger] dfa.is_word(word) implies dfa.outcome(u, word) == dfa.outcome(
        v,
        word,
    ) by {
        lemma_simulation(dfa, p, u, word);
        lemma_simulation(dfa, p, v, word);
    }
}

/// Minimality: the partition that minimization computes is the coarsest of
/// the stable partitions that respect acceptance. Every such partition
/// keeps apart what it keeps apart, and has at least as many blocks.
pub proof fn lemma_coarsest(dfa: Dfa, p: Seq<Seq<int>>, other: Seq<Seq<int>>)
    requires
        dfa.wf(),
        is_minimal_partition(dfa, p),
        is_partition(other, dfa.size()),
        is_stable(dfa, other),
        respects_accepting(dfa, other),
    ensures
        forall|u: int, v: int|
            0 <= u < dfa.size() && 0 <= v < dfa.size() && #[trigger] block_of(other, u) == #[trigger] block_of(
                other,
                v,
            ) ==> block_of(p, u) == block_of(p, v),
        p.len() <= other.len(),
{
    let n = dfa.size();
    assert forall|u: int, v: int|
        0 <= u < n && 0 <= v < n && #[trigger] block_of(other, u) == #[trigger] block_of(other, v) implies block_of(
        p,
        u,
    ) == block_of(p, v) by {
        lemma_same_block_equivalent(dfa, other, u, v);
    }
    let image = Seq::new(p.len(), |i: int| block_of(other, p[i][0]));
    assert forall|i: int| 0 <= i < image.len() implies 0 <= #[trigger] image[i] < other.len() by {
        lemma_block_of_state(other, n, p[i][0]);
    }
    assert forall|i1: int, i2: int| 0 <= i1 < image.len() && 0 <= i2 < image.len() && i1 != i2 implies image[i1]
        != image[i2] by {
        lemma_block_of(p, n, i1, 0);
        lemma_block_of(p, n, i2, 0);
        if image[i1] == image[i2] {
            assert(block_of(other, p[i1][0]) == block_of(other, p[i2][0]));
        }
    }
    lemma_injection_bound(image, other.len() as int);
}

/// Every state has a transition on every symbol of the alphabet.
pub open spec fn is_total(dfa: Dfa) -> bool {
    forall|state: int, k: int|
        0 <= state < dfa.size() && 0 <= k < dfa.alphabet.len() ==> (#[trigger] dfa.step(state, dfa.alphabet[k]))
            is Some
}

/// Some word over the alphabet leads from the start state to the state.
pub open spec fn reaches(dfa: Dfa, state: int) -> bool {
    exists|word: Seq<Seq<char>>|
        #[trigger] dfa.is_word(word) && dfa.start_index() is Some && dfa.run(dfa.start_index()->0, word) == Some(
            state,
        )
}

/// Every state can be reached from the start state.
pub open spec fn all_reachable(dfa: Dfa) -> bool {
    forall|state: int| 0 <= state < dfa.size() ==> #[trigger] reaches(dfa, state)
}

/// In a total automaton no run gets stuck.
pub proof fn lemma_run_total(dfa: Dfa, from: int, word: Seq<Seq<char>>)
    requires
        dfa.wf(),
        is_total(dfa),
        0 <= from < dfa.size(),
        dfa.is_word(word),
    ensures
        dfa.run(from, word) is Some,
        0 <= dfa.run(from, word)->0 < dfa.size(),
    decreases word.len(),
{
    if word.len() > 0 {
        let symbol = word[0];
        assert(dfa.alphabet.contains(symbol));
        let k = choose|k: int| 0 <= k < dfa.alphabet.len() && dfa.alphabet[k] == symbol;
        assert(dfa.step(from, dfa.alphabet[k]) is Some);
        dfa.lemma_step_some(from, symbol);
        let tail = word.drop_first();
        assert(dfa.is_word(tail)) by {
            assert forall|x: int| 0 <= x < tail.len() implies dfa.alphabet.contains(#[trigger] tail[x]) by {
                assert(tail[x] == word[x + 1]);
            }
        }
        lemma_run_total(dfa, dfa.step(from, symbol)->0, tail);
    }
}

/// Reading one word after another is reading the second from where the
/// first has led.
pub proof fn lemma_run_concat(dfa: Dfa, from: int, first: Seq<Seq<char>>, second: Seq<Seq<char>>)
    ensures
        dfa.run(from, first + second) == match dfa.run(from, first) {
            Some(between) => dfa.run(between, second),
            None => None,
        },
        dfa.is_word(first) && dfa.is_word(second) ==> dfa.is_word(first + second),
    decreases first.len(),
{
    let whole = first + second;
    if first.len() == 0 {
        assert(whole =~= second);
    } else {
        assert(whole[0] == first[0]);
        assert(whole.drop_first() =~= first.drop_first() + second);
        if dfa.step(from, first[0]) is Some {
            lemma_run_concat(dfa, dfa.step(from, first[0])->0, first.drop_first(), second);
        }
    }
    if dfa.is_word(first) && dfa.is_word(second) {
        assert forall|x: int| 0 <= x < whole.len() implies dfa.alphabet.contains(#[trigger] whole[x]) by {
            if x < first.len() {
                assert(whole[x] == first[x]);
            } else {
                assert(whole[x] == second[x - first.len()]);
            }
        }
    }
}

/// Minimality among automata: where every state of a total automaton can be
/// reached, no total automaton over the same alphabet that accepts the same
/// words has fewer states than its minimal automaton.
pub proof fn lemma_fewest_states(dfa: Dfa, p: Seq<Seq<int>>, other: Dfa)
    requires
        dfa.wf(),
        is_minimal_partition(dfa, p),
        dfa.start_index() is Some,
        is_total(dfa),
        all_reachable(dfa),
        other.wf(),
        other.alphabet == dfa.alphabet,
        other.start_index() is Some,
        is_total(other),
        forall|word: Seq<Seq<char>>| #[trigger] dfa.is_word(word) ==> other.accepts(word) == dfa.accepts(word),
    ensures
        quotient(dfa, p).size() <= other.size(),
{
    let n = dfa.size();
    let start = dfa.start_index()->0;
    let entry = other.start_index()->0;
    assert(other.states.contains(other.start));
    assert(0 <= entry < other.size());
    let word_of = |i: int|
        choose|word: Seq<Seq<char>>| #[trigger] dfa.is_word(word) && dfa.run(start, word) == Some(p[i][0]);
    let image = Seq::new(p.len(), |i: int| other.run(entry, word_of(i))->0);
    assert forall|i: int| 0 <= i < p.len() implies dfa.is_word(#[trigger] word_of(i)) && dfa.run(start, word_of(i))
        == Some(p[i][0]) by {
        assert(0 <= p[i][0] < n);
        assert(reaches(dfa, p[i][0]));
    }
    assert forall|i: int| 0 <= i < image.len() implies 0 <= #[trigger] image[i] < other.size() by {
        assert(dfa.is_word(word_of(i)));
        lemma_run_total(other, entry, word_of(i));
    }
    assert forall|i: int, j: int| 0 <= i < image.len() && 0 <= j < image.len() && i != j implies image[i]
        != image[j] by {
        if image[i] == image[j] {
            let u = p[i][0];
            let v = p[j][0];
            lemma_block_of(p, n, i, 0);
            lemma_block_of(p, n, j, 0);
            assert(block_of(p, u) != block_of(p, v));
            assert(!dfa.equivalent(u, v));
            let tail = choose|tail: Seq<Seq<char>>|
                dfa.is_word(tail) && dfa.outcome(u, tail) != dfa.outcome(v, tail);
            let wi = word_of(i);
            let wj = word_of(j);
            assert(dfa.is_word(wi) && dfa.is_word(wj));
            lemma_run_concat(dfa, start, wi, tail);
            lemma_run_concat(dfa, start, wj, tail);
            lemma_run_concat(other, entry, wi, tail);
            lemma_run_concat(other, entry, wj, tail);
            lemma_run_total(dfa, u, tail);
            lemma_run_total(dfa, v, tail);
            lemma_run_total(other, entry, wi);
            lemma_run_total(other, entry, wj);
            assert(dfa.is_word(wi + tail) && dfa.is_word(wj + tail));
            assert(dfa.accepts(wi + tail) != dfa.accepts(wj + tail));
            assert(other.accepts(wi + tail) == other.accepts(wj + tail));
        }
    }
    lemma_injection_bound(image, other.size());
}

/// The states of the minimal automaton are told apart by words, each from
/// each.
pub proof fn lemma_quotient_is_minimal(dfa: Dfa, p: Seq<Seq<int>>, i: int, j: int)
    requires
        dfa.wf(),
        is_minimal_partition(dfa, p),
        0 <= i < p.len(),
        0 <= j < p.len(),
        i != j,
    ensures
        !quotient(dfa, p).equivalent(i, j),
{
    let q = quotient(dfa, p);
    let u = p[i][0];
    let v = p[j][0];
    lemma_block_of(p, dfa.size(), i, 0);
    lemma_block_of(p, dfa.size(), j, 0);
    assert(block_of(p, u) != block_of(p, v));
    assert(!dfa.equivalent(u, v));
    let word = choose|word: Seq<Seq<char>>| dfa.is_word(word) && dfa.outcome(u, word) != dfa.outcome(v, word);
    lemma_simulation(dfa, p, u, word);
    lemma_simulation(dfa, p, v, word);
    assert(q.is_word(word));
}

/// A rising list of `n` numbers below `n` holds each position's own number.
pub proof fn lemma_rising_identity(list: Seq<int>, i: int)
    requires
        forall|x: int| 0 <= x < list.len() ==> 0 <= #[trigger] list[x] < list.len(),
        forall|x: int, y: int| 0 <= x < y < list.len() ==> #[trigger] list[x] < #[trigger] list[y],
        0 <= i < list.len(),
    ensures
        list[i] == i,
{
    lemma_rising_lower(list, i);
    lemma_rising_upper(list, i);
}

/// A rising list of numbers from zero on holds at each position at least
/// the position.
pub proof fn lemma_rising_lower(list: Seq<int>, i: int)
    requires
        forall|x: int| 0 <= x < list.len() ==> 0 <= #[trigger] list[x] < list.len(),
        forall|x: int, y: int| 0 <= x < y < list.len() ==> #[trigger] list[x] < #[trigger] list[y],
        0 <= i < list.len(),
    ensures
        list[i] >= i,
    decreases i,
{
    if i > 0 {
        lemma_rising_lower(list, i - 1);
        assert(list[i - 1] < list[i]);
    }
}

/// A rising list of numbers below its length holds at each position at
/// most the position.
pub proof fn lemma_rising_upper(list: Seq<int>, i: int)
    requires
        forall|x: int| 0 <= x < list.len() ==> 0 <= #[trigger] list[x] < list.len(),
        forall|x: int, y: int| 0 <= x < y < list.len() ==> #[trigger] list[x] < #[trigger] list[y],
        0 <= i < list.len(),
    ensures
        list[i] <= i,
    decreases list.len() - i,
{
    if i < list.len() - 1 {
        lemma_rising_upper(list, i + 1);
        assert(list[i] < list[i + 1]);
    }
}

/// An automaton no two states of which are equivalent is its own minimal
/// automaton: minimization puts each state into a block of its own, in the
/// order of the states.
pub proof fn lemma_minimal_is_fixed(dfa: Dfa, p: Seq<Seq<int>>)
    requires
        dfa.wf(),
        forall|u: int, v: int| 0 <= u < dfa.size() && 0 <= v < dfa.size() && u != v ==> !dfa.equivalent(u, v),
        is_minimal_partition(dfa, p),
    ensures
        p.len() == dfa.size(),
        forall|i: int| 0 <= i < p.len() ==> #[trigger] p[i] == seq![i],
{
    let n = dfa.size();
    assert forall|i: int| 0 <= i < p.len() implies (#[trigger] p[i]).len() == 1 by {
        if p[i].len() > 1 {
            lemma_block_of(p, n, i, 0);
            lemma_block_of(p, n, i, 1);
            assert(block_of(p, p[i][0]) == block_of(p, p[i][1]));
            assert(dfa.equivalent(p[i][0], p[i][1]));
            assert(p[i][0] != p[i][1]);
        }
    }
    let classes = Seq::new(n as nat, |u: int| block_of(p, u));
    assert forall|u: int| 0 <= u < classes.len() implies 0 <= #[trigger] classes[u] < p.len() by {
        lemma_block_of_state(p, n, u);
    }
    assert forall|u: int, v: int| 0 <= u < classes.len() && 0 <= v < classes.len() && u != v implies classes[u]
        != classes[v] by {
        if classes[u] == classes[v] {
            assert(block_of(p, u) == block_of(p, v));
            assert(dfa.equivalent(u, v));
        }
    }
    lemma_injection_bound(classes, p.len() as int);
    lemma_partition_len(p, n);
    let firsts = Seq::new(p.len(), |i: int| p[i][0]);
    assert forall|i: int| 0 <= i < p.len() implies #[trigger] p[i] == seq![i] by {
        assert forall|x: int| 0 <= x < firsts.len() implies 0 <= #[trigger] firsts[x] < firsts.len() by {
            assert(0 <= p[x][0] < n);
        }
        assert forall|x: int, y: int| 0 <= x < y < firsts.len() implies #[trigger] firsts[x] < #[trigger] firsts[y] by {
            assert(p[x][0] < p[y][0]);
        }
        lemma_rising_identity(firsts, i);
        assert(p[i].len() == 1);
        assert(p[i] =~= seq![i]);
    }
}

/// Over blocks of one state each, the accepting list of the quotient of a
/// quotient is that of the quotient.
proof fn lemma_fixed_accepting(dfa: Dfa, p: Seq<Seq<int>>, single: Seq<Seq<int>>, upto: int)
    requires
        dfa.wf(),
        is_partition(p, dfa.size()),
        single.len() == p.len(),
        forall|i: int| 0 <= i < single.len() ==> #[trigger] single[i] == seq![i],
        0 <= upto <= p.len(),
    ensures
        quotient_accepting(quotient(dfa, p), single, upto) == quotient_accepting(dfa, p, upto),
    decreases upto,
{
    if upto > 0 {
        lemma_fixed_accepting(dfa, p, single, upto - 1);
        let q = quotient(dfa, p);
        let i = upto - 1;
        lemma_quotient_accepting(dfa, p, p.len() as int, i as nat);
        assert(q.states[i] == state_name(i as nat));
        assert(single[i][0] == i);
        if block_accepting(q, single[i]) {
            let at = choose|at: int| 0 <= at < single[i].len() && q.is_accepting(#[trigger] single[i][at]);
            assert(single[i][at] == i);
        }
    }
}

/// Over blocks of one state each, the transitions of the quotient of a
/// quotient are those of the quotient.
proof fn lemma_fixed_transitions(dfa: Dfa, p: Seq<Seq<int>>, single: Seq<Seq<int>>, i: int, k: int)
    requires
        dfa.wf(),
        is_partition(p, dfa.size()),
        single.len() == p.len(),
        is_partition(single, p.len() as int),
        forall|x: int| 0 <= x < single.len() ==> #[trigger] single[x] == seq![x],
        0 <= i < p.len(),
        0 <= k <= dfa.alphabet.len(),
    ensures
        quotient_transitions(quotient(dfa, p), single, i) == quotient_transitions(dfa, p, i),
        block_row(quotient(dfa, p), single, i, k) == block_row(dfa, p, i, k),
    decreases i, k,
{
    let q = quotient(dfa, p);
    if k > 0 {
        lemma_fixed_transitions(dfa, p, single, i, k - 1);
        let symbol = dfa.alphabet[k - 1];
        assert(dfa.alphabet.contains(symbol));
        assert(single[i][0] == i);
        lemma_quotient_step(dfa, p, i, symbol);
        lemma_quotient_wf(dfa, p);
        if q.step(i, symbol) is Some {
            q.lemma_step_some(i, symbol);
            let to = q.step(i, symbol)->0;
            assert(single[to][0] == to);
            lemma_block_of(single, p.len() as int, to, 0);
        }
        assert(target_block(q, single, single[i][0], symbol) == target_block(dfa, p, p[i][0], symbol));
    } else if i > 0 {
        lemma_fixed_transitions(dfa, p, single, i - 1, dfa.alphabet.len() as int);
    }
}

/// Idempotence: the minimal automaton of a minimal automaton is that
/// automaton itself, with the same names, the same start state, the same
/// accepting states and the same transitions.
pub proof fn lemma_idempotent(dfa: Dfa, p: Seq<Seq<int>>, again: Seq<Seq<int>>)
    requires
        dfa.wf(),
        is_minimal_partition(dfa, p),
        is_minimal_partition(quotient(dfa, p), again),
    ensures
        again.len() == p.len(),
        forall|i: int| 0 <= i < again.len() ==> #[trigger] again[i] == seq![i],
        quotient(quotient(dfa, p), again) == quotient(dfa, p),
{
    let q = quotient(dfa, p);
    let twice = quotient(q, again);
    lemma_quotient_wf(dfa, p);
    assert forall|u: int, v: int| 0 <= u < q.size() && 0 <= v < q.size() && u != v implies !q.equivalent(u, v) by {
        lemma_quotient_is_minimal(dfa, p, u, v);
    }
    lemma_minimal_is_fixed(q, again);
    let count = p.len() as int;
    lemma_fixed_accepting(dfa, p, again, count);
    if count > 0 {
        lemma_fixed_transitions(dfa, p, again, count - 1, dfa.alphabet.len() as int);
    }
    assert(twice.transitions == q.transitions);
    assert(twice.start == q.start) by {
        if q.start_index() is Some {
            let s = q.start_index()->0;
            assert(q.states.contains(q.start));
            assert(0 <= s < q.states.len() && q.states[s] == q.start);
            assert(again[s][0] == s);
            lemma_block_of(again, q.size(), s, 0);
        }
    }
    assert(twice.states =~= q.states);
}

} // verus!
