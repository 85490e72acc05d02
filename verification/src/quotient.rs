//! The automaton that has the blocks of a partition for its states.

use crate::model::Dfa;
use crate::partition::{
    block_of, is_partition, lemma_block_of_state, lemma_injection_bound, target_block,
};
use vstd::prelude::*;

verus! {

/// The character of a decimal digit.
pub open spec fn digit(d: int) -> char {
    if d == 0 {
        '0'
    } else if d == 1 {
        '1'
    } else if d == 2 {
        '2'
    } else if d == 3 {
        '3'
    } else if d == 4 {
        '4'
    } else if d == 5 {
        '5'
    } else if d == 6 {
        '6'
    } else if d == 7 {
        '7'
    } else if d == 8 {
        '8'
    } else {
        '9'
    }
}

/// A number in decimal notation, without leading zeros.
pub open spec fn decimal(n: nat) -> Seq<char>
    decreases n,
{
    if n < 10 {
        seq![digit(n as int)]
    } else {
        decimal(n / 10).push(digit((n % 10) as int))
    }
}

/// The name of the state that stands for the block at `position`: the
/// letter q and the position in decimal.
pub open spec fn state_name(position: nat) -> Seq<char> {
    seq!['q'] + decimal(position)
}

/// The value of a digit character.
pub open spec fn digit_value(c: char) -> nat {
    if c == '1' {
        1
    } else if c == '2' {
        2
    } else if c == '3' {
        3
    } else if c == '4' {
        4
    } else if c == '5' {
        5
    } else if c == '6' {
        6
    } else if c == '7' {
        7
    } else if c == '8' {
        8
    } else if c == '9' {
        9
    } else {
        0
    }
}

/// The number that a sequence of digits denotes.
pub open spec fn decimal_value(digits: Seq<char>) -> nat
    decreases digits.len(),
{
    if digits.len() == 0 {
        0
    } else {
        decimal_value(digits.drop_last()) * 10 + digit_value(digits.last())
    }
}

/// Reading a number's decimal notation gives the number back.
pub proof fn lemma_decimal_value(n: nat)
    ensures
        decimal_value(decimal(n)) == n,
    decreases n,
{
    if n < 10 {
        assert(decimal(n).drop_last() =~= Seq::<char>::empty());
        assert(decimal_value(decimal(n).drop_last()) == 0);
        assert(decimal(n).last() == digit(n as int));
    } else {
        lemma_decimal_value(n / 10);
        assert(decimal(n).drop_last() =~= decimal(n / 10));
        assert(decimal(n).last() == digit((n % 10) as int));
    }
}

/// Different positions have different names.
pub proof fn lemma_state_name_injective(i: nat, j: nat)
    requires
        state_name(i) == state_name(j),
    ensures
        i == j,
{
    assert(state_name(i).subrange(1, state_name(i).len() as int) =~= decimal(i));
    assert(state_name(j).subrange(1, state_name(j).len() as int) =~= decimal(j));
    lemma_decimal_value(i);
    lemma_decimal_value(j);
}

/// The names of the states of the quotient.
pub open spec fn quotient_names(count: nat) -> Seq<Seq<char>> {
    Seq::new(count, |i: int| state_name(i as nat))
}

/// Some state of the block is accepting.
pub open spec fn block_accepting(dfa: Dfa, block: Seq<int>) -> bool {
    exists|j: int| 0 <= j < block.len() && dfa.is_accepting(#[trigger] block[j])
}

/// The names of the first `upto` blocks that hold an accepting state, in
/// the order of the blocks.
pub open spec fn quotient_accepting(dfa: Dfa, p: Seq<Seq<int>>, upto: int) -> Seq<Seq<char>>
    decreases upto,
{
    if upto <= 0 {
        Seq::empty()
    } else {
        let rest = quotient_accepting(dfa, p, upto - 1);
        if block_accepting(dfa, p[upto - 1]) {
            rest.push(state_name((upto - 1) as nat))
        } else {
            rest
        }
    }
}

/// The symbol at `k` does not occur earlier in the alphabet.
pub open spec fn first_occurrence(alphabet: Seq<Seq<char>>, k: int) -> bool {
    forall|c: int| 0 <= c < k ==> #[trigger] alphabet[c] != alphabet[k]
}

/// The transitions that leave the block at `i` on the first `k` symbols of
/// the alphabet, in the order of the symbols. The first state of the block
/// decides where a symbol leads; a symbol counts where it occurs first.
pub open spec fn block_row(dfa: Dfa, p: Seq<Seq<int>>, i: int, k: int) -> Seq<(int, Seq<char>, int)>
    decreases k,
{
    if k <= 0 {
        Seq::empty()
    } else {
        let rest = block_row(dfa, p, i, k - 1);
        let symbol = dfa.alphabet[k - 1];
        match target_block(dfa, p, p[i][0], symbol) {
            Some(target) => if first_occurrence(dfa.alphabet, k - 1) {
                rest.push((i, symbol, target))
            } else {
                rest
            },
            None => rest,
        }
    }
}

/// The transitions that leave the first `upto` blocks, block after block.
pub open spec fn quotient_transitions(dfa: Dfa, p: Seq<Seq<int>>, upto: int) -> Seq<(int, Seq<char>, int)>
    decreases upto,
{
    if upto <= 0 {
        Seq::empty()
    } else {
        quotient_transitions(dfa, p, upto - 1) + block_row(dfa, p, upto - 1, dfa.alphabet.len() as int)
    }
}

/// The name of the start state of the quotient: that of the block that
/// holds the start state. Where the automaton has no start state among its
/// states, the name it gives stays.
pub open spec fn quotient_start(dfa: Dfa, p: Seq<Seq<int>>) -> Seq<char> {
    match dfa.start_index() {
        Some(start) => state_name(block_of(p, start) as nat),
        None => dfa.start,
    }
}

/// The quotient of an automaton by a partition of its states: one state
/// for each block, accepting if the block holds an accepting state, with
/// the transitions of the first state of each block.
pub open spec fn quotient(dfa: Dfa, p: Seq<Seq<int>>) -> Dfa {
    Dfa {
        alphabet: dfa.alphabet,
        states: quotient_names(p.len()),
        start: quotient_start(dfa, p),
        accepting: quotient_accepting(dfa, p, p.len() as int),
        transitions: quotient_transitions(dfa, p, p.len() as int),
    }
}

/// Where `symbol` leads from the block at `i` in the quotient.
pub open spec fn quotient_step(dfa: Dfa, p: Seq<Seq<int>>, i: int, symbol: Seq<char>) -> Option<int> {
    if 0 <= i < p.len() && dfa.alphabet.contains(symbol) {
        target_block(dfa, p, p[i][0], symbol)
    } else {
        None
    }
}

/// Each transition leaves a block below `blocks`, bears a symbol of the
/// alphabet, and leads where the first state of its block leads; a
/// transition that leaves the block at `blocks` bears one of the first
/// `symbols` symbols.
pub open spec fn sound_edges(
    dfa: Dfa,
    p: Seq<Seq<int>>,
    edges: Seq<(int, Seq<char>, int)>,
    blocks: int,
    symbols: int,
) -> bool {
    forall|x: int|
        0 <= x < edges.len() ==> {
            let from = (#[trigger] edges[x]).0;
            &&& 0 <= from <= blocks
            &&& from < p.len()
            &&& dfa.alphabet.contains(edges[x].1)
            &&& from == blocks ==> dfa.alphabet.take(symbols).contains(edges[x].1)
            &&& target_block(dfa, p, p[from][0], edges[x].1) == Some(edges[x].2)
        }
}

/// No two transitions leave one block on one symbol.
pub open spec fn deterministic(edges: Seq<(int, Seq<char>, int)>) -> bool {
    forall|x: int, y: int|
        0 <= x < edges.len() && 0 <= y < edges.len() && (#[trigger] edges[x]).0 == (#[trigger] edges[y]).0
            && edges[x].1 == edges[y].1 ==> x == y
}

/// Where the symbol at `c` leads from the first state of the block at `i`.
pub open spec fn block_move(dfa: Dfa, p: Seq<Seq<int>>, i: int, c: int) -> Option<int> {
    target_block(dfa, p, p[i][0], dfa.alphabet[c])
}

/// Each move of a first state, from a block below `blocks` on any symbol or
/// from the block at `blocks` on one of the first `symbols` symbols, is
/// among the transitions.
pub open spec fn complete_edges(
    dfa: Dfa,
    p: Seq<Seq<int>>,
    edges: Seq<(int, Seq<char>, int)>,
    blocks: int,
    symbols: int,
) -> bool {
    forall|i: int, c: int|
        0 <= i <= blocks && i < p.len() && 0 <= c < dfa.alphabet.len() && (i == blocks ==> c < symbols) && (
        #[trigger] block_move(dfa, p, i, c)) is Some ==> edges.contains(
            (i, dfa.alphabet[c], block_move(dfa, p, i, c)->0),
        )
}

/// The transitions of the first `i` blocks, followed by those of the block
/// at `i` on the first `k` symbols.
pub open spec fn partial_transitions(dfa: Dfa, p: Seq<Seq<int>>, i: int, k: int) -> Seq<(int, Seq<char>, int)> {
    quotient_transitions(dfa, p, i) + block_row(dfa, p, i, k)
}

/// What the transitions built so far hold.
pub proof fn lemma_partial_transitions(dfa: Dfa, p: Seq<Seq<int>>, i: int, k: int)
    requires
        0 <= i < p.len(),
        0 <= k <= dfa.alphabet.len(),
    ensures
        sound_edges(dfa, p, partial_transitions(dfa, p, i, k), i, k),
        deterministic(partial_transitions(dfa, p, i, k)),
        complete_edges(dfa, p, partial_transitions(dfa, p, i, k), i, k),
    decreases i, k,
{
    let edges = partial_transitions(dfa, p, i, k);
    let symbols = dfa.alphabet.len() as int;
    if k == 0 {
        assert(edges =~= quotient_transitions(dfa, p, i));
        if i == 0 {
        } else {
            lemma_partial_transitions(dfa, p, i - 1, symbols);
            let before = partial_transitions(dfa, p, i - 1, symbols);
            assert(edges =~= before);
            assert(dfa.alphabet.take(symbols) =~= dfa.alphabet);
            assert forall|j: int, c: int|
                0 <= j <= i && j < p.len() && 0 <= c < dfa.alphabet.len() && (j == i ==> c < k) && (
                #[trigger] block_move(dfa, p, j, c)) is Some implies edges.contains(
                (j, dfa.alphabet[c], block_move(dfa, p, j, c)->0),
            ) by {
                assert(j <= i - 1);
            }
        }
    } else {
        lemma_partial_transitions(dfa, p, i, k - 1);
        let before = partial_transitions(dfa, p, i, k - 1);
        let symbol = dfa.alphabet[k - 1];
        let target = target_block(dfa, p, p[i][0], symbol);
        let prefix = dfa.alphabet.take(k - 1);
        assert(dfa.alphabet.take(k) =~= prefix.push(symbol));
        assert(dfa.alphabet.take(k)[k - 1] == symbol);
        assert(dfa.alphabet.contains(symbol));
        assert forall|s: Seq<char>| prefix.contains(s) implies dfa.alphabet.take(k).contains(s) by {
            let c = choose|c: int| 0 <= c < prefix.len() && prefix[c] == s;
            assert(dfa.alphabet.take(k)[c] == s);
        }
        if target is Some && first_occurrence(dfa.alphabet, k - 1) {
            let edge = (i, symbol, target->0);
            assert(edges =~= before.push(edge));
            assert forall|x: int, y: int|
                0 <= x < edges.len() && 0 <= y < edges.len() && (#[trigger] edges[x]).0 == (#[trigger] edges[y]).0
                    && edges[x].1 == edges[y].1 implies x == y by {
                if x != y {
                    let old = if x == before.len() { y } else { x };
                    assert(before[old].0 == i && before[old].1 == symbol);
                    assert(prefix.contains(symbol));
                    let c = choose|c: int| 0 <= c < prefix.len() && prefix[c] == symbol;
                    assert(dfa.alphabet[c] == dfa.alphabet[k - 1]);
                }
            }
            assert forall|j: int, c: int|
                0 <= j <= i && j < p.len() && 0 <= c < dfa.alphabet.len() && (j == i ==> c < k) && (
                #[trigger] block_move(dfa, p, j, c)) is Some implies edges.contains(
                (j, dfa.alphabet[c], block_move(dfa, p, j, c)->0),
            ) by {
                let wanted = (j, dfa.alphabet[c], block_move(dfa, p, j, c)->0);
                if j == i && c == k - 1 {
                    assert(edges[before.len() as int] == wanted);
                } else {
                    assert(before.contains(wanted));
                    let x = choose|x: int| 0 <= x < before.len() && before[x] == wanted;
                    assert(edges[x] == wanted);
                }
            }
        } else {
            assert(edges =~= before);
            assert forall|j: int, c: int|
                0 <= j <= i && j < p.len() && 0 <= c < dfa.alphabet.len() && (j == i ==> c < k) && (
                #[trigger] block_move(dfa, p, j, c)) is Some implies edges.contains(
                (j, dfa.alphabet[c], block_move(dfa, p, j, c)->0),
            ) by {
                if j == i && c == k - 1 {
                    let first = choose|first: int| 0 <= first < k - 1 && #[trigger] dfa.alphabet[first] == symbol;
                    assert(block_move(dfa, p, j, first) is Some);
                    assert(before.contains((j, dfa.alphabet[first], block_move(dfa, p, j, first)->0)));
                }
            }
        }
    }
}

/// Transitions that follow the first states of their blocks are no more
/// than the transitions of the automaton.
pub proof fn lemma_edges_bound(dfa: Dfa, p: Seq<Seq<int>>, edges: Seq<(int, Seq<char>, int)>, blocks: int, symbols: int)
    requires
        dfa.wf(),
        is_partition(p, dfa.size()),
        sound_edges(dfa, p, edges, blocks, symbols),
        deterministic(edges),
    ensures
        edges.len() <= dfa.transitions.len(),
{
    let origin = |x: int|
        choose|e: int|
            0 <= e < dfa.transitions.len() && dfa.transitions[e].0 == p[edges[x].0][0] && dfa.transitions[e].1
                == edges[x].1;
    let origins = Seq::new(edges.len(), origin);
    assert forall|x: int| 0 <= x < edges.len() implies 0 <= #[trigger] origins[x] < dfa.transitions.len()
        && dfa.transitions[origins[x]].0 == p[edges[x].0][0] && dfa.transitions[origins[x]].1 == edges[x].1 by {
        let from = p[edges[x].0][0];
        assert(dfa.step(from, edges[x].1) is Some);
        dfa.lemma_step_some(from, edges[x].1);
        let to = dfa.step(from, edges[x].1)->0;
        let e = choose|e: int| 0 <= e < dfa.transitions.len() && dfa.transitions[e] == (from, edges[x].1, to);
        assert(dfa.transitions[e].0 == from && dfa.transitions[e].1 == edges[x].1);
    }
    assert forall|x: int, y: int| 0 <= x < origins.len() && 0 <= y < origins.len() && x != y implies origins[x]
        != origins[y] by {
        if origins[x] == origins[y] {
            assert(p[edges[x].0][0] == p[edges[y].0][0]);
            assert(edges[x].0 == edges[y].0);
        }
    }
    lemma_injection_bound(origins, dfa.transitions.len() as int);
}

/// The quotient by a partition is a well-formed automaton, no larger than
/// the automaton it was made from.
pub proof fn lemma_quotient_wf(dfa: Dfa, p: Seq<Seq<int>>)
    requires
        dfa.wf(),
        is_partition(p, dfa.size()),
    ensures
        quotient(dfa, p).wf(),
        quotient(dfa, p).transitions.len() <= dfa.transitions.len(),
{
    let q = quotient(dfa, p);
    assert forall|i: int, j: int| 0 <= i < q.states.len() && 0 <= j < q.states.len() && i != j implies q.states[i]
        != q.states[j] by {
        if q.states[i] == q.states[j] {
            lemma_state_name_injective(i as nat, j as nat);
        }
    }
    lemma_quotient_edges(dfa, p);
    let last = p.len() as int - 1;
    let symbols = dfa.alphabet.len() as int;
    if p.len() > 0 {
        lemma_edges_bound(dfa, p, q.transitions, last, symbols);
        assert forall|e: int| 0 <= e < q.transitions.len() implies 0 <= (#[trigger] q.transitions[e]).0 < q.size()
            && 0 <= q.transitions[e].2 < q.size() by {
            let from = p[q.transitions[e].0][0];
            dfa.lemma_step_some(from, q.transitions[e].1);
            lemma_block_of_state(p, dfa.size(), dfa.step(from, q.transitions[e].1)->0);
        }
    }
}

/// The transitions of the quotient are those of the first states of the
/// blocks, one for each block and symbol at most.
pub proof fn lemma_quotient_edges(dfa: Dfa, p: Seq<Seq<int>>)
    ensures
        p.len() == 0 ==> quotient(dfa, p).transitions.len() == 0,
        p.len() > 0 ==> sound_edges(
            dfa,
            p,
            quotient(dfa, p).transitions,
            p.len() as int - 1,
            dfa.alphabet.len() as int,
        ),
        p.len() > 0 ==> complete_edges(
            dfa,
            p,
            quotient(dfa, p).transitions,
            p.len() as int - 1,
            dfa.alphabet.len() as int,
        ),
        deterministic(quotient(dfa, p).transitions),
{
    if p.len() > 0 {
        let last = p.len() as int - 1;
        lemma_partial_transitions(dfa, p, last, dfa.alphabet.len() as int);
        assert(quotient(dfa, p).transitions == partial_transitions(dfa, p, last, dfa.alphabet.len() as int));
    }
}

/// The transition function of the quotient: a block moves, on a symbol of
/// the alphabet, as its first state does.
pub proof fn lemma_quotient_step(dfa: Dfa, p: Seq<Seq<int>>, i: int, symbol: Seq<char>)
    requires
        dfa.wf(),
        is_partition(p, dfa.size()),
    ensures
        quotient(dfa, p).step(i, symbol) == quotient_step(dfa, p, i, symbol),
{
    let q = quotient(dfa, p);
    lemma_quotient_wf(dfa, p);
    lemma_quotient_edges(dfa, p);
    if q.step(i, symbol) is Some {
        q.lemma_step_some(i, symbol);
        let to = q.step(i, symbol)->0;
        let x = choose|x: int| 0 <= x < q.transitions.len() && q.transitions[x] == (i, symbol, to);
        assert(q.transitions[x].0 == i);
    }
    if quotient_step(dfa, p, i, symbol) is Some {
        let c = choose|c: int| 0 <= c < dfa.alphabet.len() && dfa.alphabet[c] == symbol;
        let to = block_move(dfa, p, i, c)->0;
        assert(q.transitions.contains((i, dfa.alphabet[c], to)));
        assert(q.has_edge(i, symbol, to));
        q.lemma_step_of_edge(i, symbol, to);
    }
}

} // verus!
