//! Reading back what was written: the textual form of an automaton whose
//! names are plain words describes that automaton again.

use crate::error::AutomatonError;
use crate::graph::{lemma_outgoing, outgoing};
use crate::model::Dfa;
use crate::partition::lemma_injection_bound;
use crate::quotient::deterministic;
use crate::text::{
    accepting_fields, all_lines, declare_states, declare_transition, declare_transitions, is_space, join, lemma_split_len,
    line_at, line_fields, parse, parse_definition, render, split, state_lines, text_lines, transition_line,
    transition_lines, trim, trim_end, trim_start,
};
use vstd::prelude::*;

verus! {

/// A plain word: not empty, and without white space.
pub open spec fn is_token(s: Seq<char>) -> bool {
    s.len() > 0 && forall|i: int| 0 <= i < s.len() ==> !is_space(#[trigger] s[i])
}

/// A list of plain words.
pub open spec fn all_tokens(list: Seq<Seq<char>>) -> bool {
    forall|i: int| 0 <= i < list.len() ==> is_token(#[trigger] list[i])
}

/// The text holds no line feed.
pub open spec fn no_line_feed(line: Seq<char>) -> bool {
    forall|i: int| 0 <= i < line.len() ==> #[trigger] line[i] != '\n'
}

/// The text of a list of lines: each line with a line feed after it.
pub open spec fn unlines(lines: Seq<Seq<char>>) -> Seq<char>
    decreases lines.len(),
{
    if lines.len() == 0 {
        Seq::empty()
    } else {
        unlines(lines.drop_last()) + lines.last() + seq!['\n']
    }
}

/// The transitions that leave `from`, with their source.
pub open spec fn edge_triples(from: int, out: Seq<(Seq<char>, int)>) -> Seq<(int, Seq<char>, int)> {
    Seq::new(out.len(), |i: int| (from, out[i].0, out[i].1))
}

/// The transitions in the order in which they are written: those of the
/// first `upto` states, state after state, and for each state the one added
/// last first.
pub open spec fn regrouped(dfa: Dfa, upto: int) -> Seq<(int, Seq<char>, int)>
    decreases upto,
{
    if upto <= 0 {
        Seq::empty()
    } else {
        regrouped(dfa, upto - 1) + edge_triples(upto - 1, outgoing(dfa.transitions, upto - 1))
    }
}

/// The line of a transition, without its line feed.
pub open spec fn edge_line(dfa: Dfa, edge: (int, Seq<char>, int)) -> Seq<char> {
    dfa.states[edge.0] + seq![' '] + edge.1 + seq![' '] + dfa.states[edge.2]
}

/// The lines of a list of transitions.
pub open spec fn edge_lines(dfa: Dfa, edges: Seq<(int, Seq<char>, int)>) -> Seq<Seq<char>> {
    Seq::new(edges.len(), |i: int| edge_line(dfa, edges[i]))
}

/// Characters that are no separator lengthen the last piece.
pub proof fn lemma_split_append(s: Seq<char>, t: Seq<char>, separator: char)
    requires
        forall|i: int| 0 <= i < t.len() ==> t[i] != separator,
    ensures
        split(s + t, separator) == split(s, separator).drop_last().push(split(s, separator).last() + t),
    decreases t.len(),
{
    lemma_split_len(s, separator);
    let base = split(s, separator);
    if t.len() == 0 {
        assert(s + t =~= s);
        assert(base.last() + t =~= base.last());
        assert(base.drop_last().push(base.last()) =~= base);
    } else {
        let shorter = t.drop_last();
        lemma_split_append(s, shorter, separator);
        assert((s + t).drop_last() =~= s + shorter);
        assert((s + t).last() == t.last());
        let before = split(s + shorter, separator);
        assert(before.last() == base.last() + shorter);
        assert((base.last() + shorter).push(t.last()) =~= base.last() + t);
        assert(before.update(before.len() - 1, before.last().push(t.last())) =~= base.drop_last().push(
            base.last() + t,
        ));
    }
}

/// A separator opens a new, empty piece.
pub proof fn lemma_split_separator(s: Seq<char>, separator: char)
    ensures
        split(s + seq![separator], separator) == split(s, separator).push(Seq::empty()),
{
    assert((s + seq![separator]).drop_last() =~= s);
}

/// Plain words joined by single spaces make a line that has the words for
/// its fields.
pub proof fn lemma_join(list: Seq<Seq<char>>)
    requires
        list.len() > 0,
        all_tokens(list),
    ensures
        join(list, seq![' ']).len() > 0,
        !is_space(join(list, seq![' '])[0]),
        !is_space(join(list, seq![' ']).last()),
        no_line_feed(join(list, seq![' '])),
        split(join(list, seq![' ']), ' ') == list,
        trim(join(list, seq![' '])) == join(list, seq![' ']),
        line_fields(join(list, seq![' '])) == list,
    decreases list.len(),
{
    let joined = join(list, seq![' ']);
    let last = list.last();
    assert(is_token(last));
    assert(is_space(' ') && is_space('\n'));
    if list.len() == 1 {
        assert(is_token(list[0]));
        lemma_split_append(Seq::empty(), last, ' ');
        assert(Seq::<char>::empty() + last =~= last);
        assert(split(Seq::<char>::empty(), ' ') =~= seq![Seq::<char>::empty()]);
        assert(split(joined, ' ') =~= list);
    } else {
        let shorter = list.drop_last();
        assert(all_tokens(shorter)) by {
            assert forall|i: int| 0 <= i < shorter.len() implies is_token(#[trigger] shorter[i]) by {
                assert(shorter[i] == list[i]);
            }
        }
        lemma_join(shorter);
        let head = join(shorter, seq![' ']);
        assert(joined == head + seq![' '] + last);
        lemma_split_separator(head, ' ');
        lemma_split_append(head + seq![' '], last, ' ');
        assert(Seq::<char>::empty() + last =~= last);
        assert(shorter.push(Seq::<char>::empty()).drop_last().push(last) =~= list);
        assert(split(joined, ' ') =~= list);
        assert(joined[0] == head[0]);
        assert(joined.last() == last.last());
        assert forall|i: int| 0 <= i < joined.len() implies #[trigger] joined[i] != '\n' by {
            if i < head.len() {
                assert(joined[i] == head[i]);
            } else if i > head.len() {
                assert(joined[i] == last[i - head.len() - 1]);
            }
        }
    }
    assert(trim_start(joined) == joined);
    assert(trim_end(joined) == joined);
}

/// The lines of a text made of lines are those lines.
pub proof fn lemma_lines_of_unlines(lines: Seq<Seq<char>>)
    requires
        forall|i: int| 0 <= i < lines.len() ==> no_line_feed(#[trigger] lines[i]),
    ensures
        split(unlines(lines), '\n') == lines.push(Seq::empty()),
        text_lines(unlines(lines)) == lines,
    decreases lines.len(),
{
    if lines.len() == 0 {
        assert(split(unlines(lines), '\n') =~= lines.push(Seq::empty()));
    } else {
        let shorter = lines.drop_last();
        let last = lines.last();
        assert(no_line_feed(last));
        assert forall|i: int| 0 <= i < shorter.len() implies no_line_feed(#[trigger] shorter[i]) by {
            assert(shorter[i] == lines[i]);
        }
        lemma_lines_of_unlines(shorter);
        lemma_split_append(unlines(shorter), last, '\n');
        lemma_split_separator(unlines(shorter) + last, '\n');
        assert(Seq::<char>::empty() + last =~= last);
        assert(shorter.push(Seq::<char>::empty()).drop_last().push(last) =~= lines);
    }
    assert(lines.push(Seq::<char>::empty()).drop_last() =~= lines);
}

/// The text of two lists of lines, one after the other.
pub proof fn lemma_unlines_add(a: Seq<Seq<char>>, b: Seq<Seq<char>>)
    ensures
        unlines(a + b) == unlines(a) + unlines(b),
    decreases b.len(),
{
    if b.len() == 0 {
        assert(a + b =~= a);
        assert(unlines(a) + unlines(b) =~= unlines(a));
    } else {
        lemma_unlines_add(a, b.drop_last());
        assert((a + b).drop_last() =~= a + b.drop_last());
        assert((a + b).last() == b.last());
        assert(unlines(a + b) =~= unlines(a) + unlines(b));
    }
}

/// What is written for the transitions that leave a state is the text of
/// their lines.
pub proof fn lemma_state_lines(dfa: Dfa, from: int, out: Seq<(Seq<char>, int)>)
    ensures
        state_lines(dfa, from, out) == unlines(edge_lines(dfa, edge_triples(from, out))),
    decreases out.len(),
{
    let lines = edge_lines(dfa, edge_triples(from, out));
    if out.len() > 0 {
        lemma_state_lines(dfa, from, out.drop_last());
        assert(lines.drop_last() =~= edge_lines(dfa, edge_triples(from, out.drop_last())));
        assert(transition_line(dfa, from, out.last()) =~= lines.last() + seq!['\n']);
        assert(state_lines(dfa, from, out) =~= unlines(lines));
    }
}

/// What is written for the transitions is the text of their lines.
pub proof fn lemma_all_lines(dfa: Dfa, upto: int)
    ensures
        all_lines(dfa, upto) == unlines(edge_lines(dfa, regrouped(dfa, upto))),
    decreases upto,
{
    if upto > 0 {
        lemma_all_lines(dfa, upto - 1);
        let earlier = regrouped(dfa, upto - 1);
        let own = edge_triples(upto - 1, outgoing(dfa.transitions, upto - 1));
        lemma_state_lines(dfa, upto - 1, outgoing(dfa.transitions, upto - 1));
        assert(edge_lines(dfa, earlier + own) =~= edge_lines(dfa, earlier) + edge_lines(dfa, own));
        lemma_unlines_add(edge_lines(dfa, earlier), edge_lines(dfa, own));
    }
}

/// Among the transitions that leave a state none occurs twice.
pub proof fn lemma_outgoing_distinct(edges: Seq<(int, Seq<char>, int)>, from: int)
    requires
        deterministic(edges),
    ensures
        outgoing(edges, from).no_duplicates(),
    decreases edges.len(),
{
    if edges.len() > 0 {
        let rest = edges.drop_last();
        let last = edges.last();
        assert(deterministic(rest)) by {
            assert forall|x: int, y: int|
                0 <= x < rest.len() && 0 <= y < rest.len() && (#[trigger] rest[x]).0 == (#[trigger] rest[y]).0
                    && rest[x].1 == rest[y].1 implies x == y by {
                assert(edges[x].0 == edges[y].0 && edges[x].1 == edges[y].1);
            }
        }
        lemma_outgoing_distinct(rest, from);
        let out = outgoing(edges, from);
        let out_rest = outgoing(rest, from);
        if last.0 == from {
            assert forall|i: int, j: int| 0 <= i < out.len() && 0 <= j < out.len() && i != j implies out[i]
                != out[j] by {
                if i == 0 || j == 0 {
                    let other = if i == 0 { j } else { i };
                    if out[other] == out[0] {
                        assert(out_rest[other - 1] == (last.1, last.2));
                        assert(out_rest.contains((last.1, last.2)));
                        lemma_outgoing(rest, from, last.1, last.2);
                        let e = choose|e: int| 0 <= e < rest.len() && rest[e] == (from, last.1, last.2);
                        assert(edges[e].0 == edges[edges.len() - 1].0 && edges[e].1 == edges[edges.len() - 1].1);
                    }
                } else {
                    assert(out[i] == out_rest[i - 1] && out[j] == out_rest[j - 1]);
                }
            }
        }
    }
}

/// The transitions in the order of writing are the transitions of the
/// automaton, each once.
pub proof fn lemma_regrouped(dfa: Dfa, upto: int)
    requires
        dfa.wf(),
        0 <= upto <= dfa.size(),
    ensures
        forall|x: int|
            0 <= x < regrouped(dfa, upto).len() ==> dfa.transitions.contains(#[trigger] regrouped(dfa, upto)[x])
                && regrouped(dfa, upto)[x].0 < upto,
        regrouped(dfa, upto).no_duplicates(),
        forall|e: int|
            0 <= e < dfa.transitions.len() && (#[trigger] dfa.transitions[e]).0 < upto ==> regrouped(
                dfa,
                upto,
            ).contains(dfa.transitions[e]),
    decreases upto,
{
    let all = regrouped(dfa, upto);
    if upto > 0 {
        let from = upto - 1;
        lemma_regrouped(dfa, from);
        let earlier = regrouped(dfa, from);
        let out = outgoing(dfa.transitions, from);
        let own = edge_triples(from, out);
        assert(deterministic(dfa.transitions));
        lemma_outgoing_distinct(dfa.transitions, from);
        assert forall|x: int| 0 <= x < all.len() implies dfa.transitions.contains(#[trigger] all[x]) && all[x].0
            < upto by {
            if x >= earlier.len() {
                let y = x - earlier.len();
                assert(all[x] == own[y]);
                assert(out.contains(out[y]));
                lemma_outgoing(dfa.transitions, from, out[y].0, out[y].1);
            } else {
                assert(all[x] == earlier[x]);
            }
        }
        assert forall|x: int, y: int| 0 <= x < all.len() && 0 <= y < all.len() && x != y implies all[x]
            != all[y] by {
            if x >= earlier.len() && y >= earlier.len() {
                assert(all[x] == own[x - earlier.len()] && all[y] == own[y - earlier.len()]);
                if all[x] == all[y] {
                    assert(out[x - earlier.len()] == out[y - earlier.len()]);
                }
            } else if x < earlier.len() && y < earlier.len() {
                assert(all[x] == earlier[x] && all[y] == earlier[y]);
            } else {
                let low = if x < earlier.len() { x } else { y };
                let high = if x < earlier.len() { y } else { x };
                assert(all[low] == earlier[low]);
                assert(all[high] == own[high - earlier.len()]);
            }
        }
        assert forall|e: int| 0 <= e < dfa.transitions.len() && (#[trigger] dfa.transitions[e]).0 < upto implies all.contains(
            dfa.transitions[e],
        ) by {
            let edge = dfa.transitions[e];
            if edge.0 < from {
                let x = choose|x: int| 0 <= x < earlier.len() && earlier[x] == edge;
                assert(all[x] == edge);
            } else {
                assert(dfa.transitions.contains((from, edge.1, edge.2)));
                lemma_outgoing(dfa.transitions, from, edge.1, edge.2);
                let y = choose|y: int| 0 <= y < out.len() && out[y] == (edge.1, edge.2);
                assert(all[earlier.len() + y] == own[y]);
                assert(own[y] == edge);
            }
        }
    }
}

/// A list without repetition, each item of which occurs in another list, is
/// no longer than that list.
pub proof fn lemma_contained_bound(list: Seq<(int, Seq<char>, int)>, within: Seq<(int, Seq<char>, int)>)
    requires
        list.no_duplicates(),
        forall|x: int| 0 <= x < list.len() ==> within.contains(#[trigger] list[x]),
    ensures
        list.len() <= within.len(),
{
    let origins = Seq::new(list.len(), |x: int| within.index_of(list[x]));
    assert forall|x: int| 0 <= x < origins.len() implies 0 <= #[trigger] origins[x] < within.len() && within[origins[x]]
        == list[x] by {
        assert(within.contains(list[x]));
    }
    assert forall|x: int, y: int| 0 <= x < origins.len() && 0 <= y < origins.len() && x != y implies origins[x]
        != origins[y] by {
        assert(within[origins[x]] == list[x]);
        assert(within[origins[y]] == list[y]);
    }
    lemma_injection_bound(origins, within.len() as int);
}

/// The line of a transition between states with plain names, on a plain
/// symbol, has the two names and the symbol for its fields.
pub proof fn lemma_edge_line(dfa: Dfa, edge: (int, Seq<char>, int))
    requires
        all_tokens(dfa.states),
        0 <= edge.0 < dfa.size(),
        0 <= edge.2 < dfa.size(),
        is_token(edge.1),
    ensures
        line_fields(edge_line(dfa, edge)) == seq![dfa.states[edge.0], edge.1, dfa.states[edge.2]],
        no_line_feed(edge_line(dfa, edge)),
{
    let three = seq![dfa.states[edge.0], edge.1, dfa.states[edge.2]];
    let two = three.drop_last();
    let one = two.drop_last();
    assert(is_token(dfa.states[edge.0]) && is_token(dfa.states[edge.2]));
    assert(join(one, seq![' ']) == dfa.states[edge.0]);
    assert(join(two, seq![' ']) == dfa.states[edge.0] + seq![' '] + edge.1);
    assert(join(three, seq![' ']) =~= edge_line(dfa, edge));
    lemma_join(three);
}

/// Adding states with new names one after the other succeeds.
pub proof fn lemma_declare_states(dfa: Dfa, list: Seq<Seq<char>>)
    requires
        (dfa.states + list).no_duplicates(),
        dfa.states.len() + list.len() <= u32::MAX,
    ensures
        declare_states(dfa, list) == Ok::<Dfa, AutomatonError>(
            Dfa { states: dfa.states + list, ..dfa },
        ),
    decreases list.len(),
{
    let all = dfa.states + list;
    if list.len() == 0 {
        assert(all =~= dfa.states);
    } else {
        if dfa.states.contains(list[0]) {
            let i = choose|i: int| 0 <= i < dfa.states.len() && dfa.states[i] == list[0];
            assert(all[i] == all[dfa.states.len() as int]);
        }
        let next = dfa.with_state(list[0]);
        assert(next.states + list.drop_first() =~= all);
        lemma_declare_states(next, list.drop_first());
    }
}

/// Reading the lines of transitions that are in range, on plain symbols and
/// no two from one state on one symbol, adds those transitions in order.
pub proof fn lemma_declare_transitions(dfa: Dfa, edges: Seq<(int, Seq<char>, int)>, done: int)
    requires
        dfa.wf(),
        all_tokens(dfa.states),
        0 <= done <= edges.len(),
        edges.len() <= u32::MAX,
        dfa.transitions == edges.take(done),
        deterministic(edges),
        forall|y: int|
            0 <= y < edges.len() ==> 0 <= (#[trigger] edges[y]).0 < dfa.size() && 0 <= edges[y].2 < dfa.size()
                && is_token(edges[y].1),
    ensures
        declare_transitions(dfa, edge_lines(dfa, edges).skip(done)) == Ok::<Dfa, AutomatonError>(
            Dfa { transitions: edges, ..dfa },
        ),
    decreases edges.len() - done,
{
    let lines = edge_lines(dfa, edges);
    let rest = lines.skip(done);
    if done == edges.len() {
        assert(edges.take(done) =~= edges);
    } else {
        let edge = edges[done];
        let from = edge.0;
        let to = edge.2;
        assert(rest[0] == edge_line(dfa, edge));
        lemma_edge_line(dfa, edge);
        let fields = line_fields(rest[0]);
        assert(fields[0] == dfa.states[from] && fields[1] == edge.1 && fields[2] == dfa.states[to]);
        dfa.lemma_index_of(from);
        dfa.lemma_index_of(to);
        if dfa.step(from, edge.1) is Some {
            dfa.lemma_step_some(from, edge.1);
            let target = dfa.step(from, edge.1)->0;
            let y = choose|y: int| 0 <= y < dfa.transitions.len() && dfa.transitions[y] == (from, edge.1, target);
            assert(edges[y].0 == edges[done].0 && edges[y].1 == edges[done].1);
        }
        let next = dfa.with_transition(from, edge.1, to);
        assert(declare_transition(dfa, rest[0]) == Ok::<Dfa, AutomatonError>(next));
        assert(next.transitions =~= edges.take(done + 1));
        assert(next.wf()) by {
            assert forall|e1: int, e2: int|
                0 <= e1 < next.transitions.len() && 0 <= e2 < next.transitions.len()
                    && (#[trigger] next.transitions[e1]).0 == (#[trigger] next.transitions[e2]).0
                    && next.transitions[e1].1 == next.transitions[e2].1 implies e1 == e2 by {
                assert(edges[e1].0 == edges[e2].0 && edges[e1].1 == edges[e2].1);
            }
            assert forall|e: int| 0 <= e < next.transitions.len() implies 0 <= (#[trigger] next.transitions[e]).0
                < next.size() && 0 <= next.transitions[e].2 < next.size() by {
                assert(next.transitions[e] == edges[e]);
            }
        }
        lemma_declare_transitions(next, edges, done + 1);
        assert(edge_lines(next, edges) =~= lines);
        assert(rest.drop_first() =~= lines.skip(done + 1));
    }
}

/// Reading back: the textual form of an automaton whose symbols and names
/// are plain words, and whose names resolve, describes an automaton with
/// the same alphabet, states, start state and accepting states, and with
/// the same transitions in the order in which they were written. Its
/// transition function is that of the automaton.
pub proof fn lemma_read_back(dfa: Dfa)
    requires
        dfa.wf(),
        dfa.closed(),
        dfa.states.len() <= u32::MAX,
        dfa.transitions.len() <= u32::MAX,
        dfa.alphabet.len() > 0,
        all_tokens(dfa.alphabet),
        all_tokens(dfa.states),
        forall|e: int| 0 <= e < dfa.transitions.len() ==> is_token((#[trigger] dfa.transitions[e]).1),
    ensures
        parse(render(dfa)) == Ok::<Dfa, AutomatonError>(
            Dfa { transitions: regrouped(dfa, dfa.size()), ..dfa },
        ),
        (Dfa { transitions: regrouped(dfa, dfa.size()), ..dfa }).wf(),
        regrouped(dfa, dfa.size()).len() == dfa.transitions.len(),
        text_lines(render(dfa)).len() == 4 + dfa.transitions.len(),
        forall|from: int, symbol: Seq<char>|
            (#[trigger] (Dfa { transitions: regrouped(dfa, dfa.size()), ..dfa }).step(from, symbol)) == dfa.step(
                from,
                symbol,
            ),
{
    let n = dfa.size();
    let edges = regrouped(dfa, n);
    let read = Dfa { transitions: edges, ..dfa };
    let space = seq![' '];
    let header = seq![join(dfa.alphabet, space), join(dfa.states, space), dfa.start, join(dfa.accepting, space)];
    let body = edge_lines(dfa, edges);
    let lines = header + body;
    // The names are plain words.
    assert(dfa.states.contains(dfa.start));
    let s = choose|s: int| 0 <= s < dfa.states.len() && dfa.states[s] == dfa.start;
    assert(is_token(dfa.states[s]));
    assert(is_space('\n'));
    assert(all_tokens(dfa.accepting)) by {
        assert forall|i: int| 0 <= i < dfa.accepting.len() implies is_token(#[trigger] dfa.accepting[i]) by {
            assert(dfa.states.contains(dfa.accepting[i]));
            let j = choose|j: int| 0 <= j < dfa.states.len() && dfa.states[j] == dfa.accepting[i];
            assert(is_token(dfa.states[j]));
        }
    }
    lemma_join(dfa.alphabet);
    lemma_join(dfa.states);
    if dfa.accepting.len() > 0 {
        lemma_join(dfa.accepting);
    }
    assert(trim(dfa.start) == dfa.start) by {
        assert(trim_start(dfa.start) == dfa.start);
        assert(trim_end(dfa.start) == dfa.start);
    }
    assert(accepting_fields(header[3]) == dfa.accepting) by {
        if dfa.accepting.len() == 0 {
            assert(trim_start(header[3]) == header[3]);
            assert(dfa.accepting =~= Seq::empty());
        }
    }
    // The transitions as they are written.
    lemma_regrouped(dfa, n);
    lemma_contained_bound(edges, dfa.transitions);
    assert(dfa.transitions.no_duplicates()) by {
        assert forall|e1: int, e2: int|
            0 <= e1 < dfa.transitions.len() && 0 <= e2 < dfa.transitions.len() && e1 != e2 implies dfa.transitions[e1]
            != dfa.transitions[e2] by {
            if dfa.transitions[e1] == dfa.transitions[e2] {
                assert(dfa.transitions[e1].0 == dfa.transitions[e2].0);
            }
        }
    }
    assert forall|e: int| 0 <= e < dfa.transitions.len() implies edges.contains(#[trigger] dfa.transitions[e]) by {
        assert(dfa.transitions[e].0 < n);
    }
    lemma_contained_bound(dfa.transitions, edges);
    assert(deterministic(edges)) by {
        assert forall|x: int, y: int|
            0 <= x < edges.len() && 0 <= y < edges.len() && (#[trigger] edges[x]).0 == (#[trigger] edges[y]).0
                && edges[x].1 == edges[y].1 implies x == y by {
            let e1 = choose|e: int| 0 <= e < dfa.transitions.len() && dfa.transitions[e] == edges[x];
            let e2 = choose|e: int| 0 <= e < dfa.transitions.len() && dfa.transitions[e] == edges[y];
            assert(dfa.transitions[e1].0 == dfa.transitions[e2].0 && dfa.transitions[e1].1 == dfa.transitions[e2].1);
        }
    }
    assert forall|y: int| 0 <= y < edges.len() implies 0 <= (#[trigger] edges[y]).0 < n && 0 <= edges[y].2 < n
        && is_token(edges[y].1) by {
        let e = choose|e: int| 0 <= e < dfa.transitions.len() && dfa.transitions[e] == edges[y];
        assert(is_token(dfa.transitions[e].1));
        assert(0 <= dfa.transitions[e].0 < n);
    }
    // The text is the text of its lines.
    lemma_all_lines(dfa, n);
    lemma_unlines_add(header, body);
    assert(unlines(header) =~= header[0] + seq!['\n'] + header[1] + seq!['\n'] + header[2] + seq!['\n'] + header[3]
        + seq!['\n']) by {
        let three = header.drop_last();
        let two = three.drop_last();
        let one = two.drop_last();
        assert(one.drop_last().len() == 0);
        assert(unlines(one.drop_last()) =~= Seq::<char>::empty());
        assert(one.last() == header[0] && two.last() == header[1] && three.last() == header[2]);
        assert(unlines(one) =~= header[0] + seq!['\n']);
        assert(unlines(two) =~= unlines(one) + header[1] + seq!['\n']);
        assert(unlines(three) =~= unlines(two) + header[2] + seq!['\n']);
    }
    assert(render(dfa) =~= unlines(lines));
    assert forall|i: int| 0 <= i < lines.len() implies no_line_feed(#[trigger] lines[i]) by {
        if i >= 4 {
            assert(lines[i] == edge_line(dfa, edges[i - 4]));
            lemma_edge_line(dfa, edges[i - 4]);
        } else if i == 2 {
            assert(lines[i] == dfa.start);
        } else if i == 3 {
            assert(lines[i] == header[3]);
        } else {
            assert(lines[i] == header[i]);
        }
    }
    lemma_lines_of_unlines(lines);
    assert(text_lines(render(dfa)) == lines);
    // The definition.
    assert(line_at(lines, 0) == header[0] && line_at(lines, 1) == header[1] && line_at(lines, 2) == header[2]
        && line_at(lines, 3) == header[3]);
    let initial = Dfa {
        alphabet: dfa.alphabet,
        states: Seq::empty(),
        start: dfa.start,
        accepting: dfa.accepting,
        transitions: Seq::empty(),
    };
    assert(initial.states + dfa.states =~= dfa.states);
    lemma_declare_states(initial, dfa.states);
    let defined = Dfa { states: dfa.states, ..initial };
    assert(defined.closed());
    assert(parse_definition(lines) == Ok::<Dfa, AutomatonError>(defined));
    // The transitions.
    assert(transition_lines(lines) =~= body);
    assert(defined.transitions =~= edges.take(0));
    assert(defined.wf());
    lemma_declare_transitions(defined, edges, 0);
    assert(edge_lines(defined, edges) =~= body);
    assert(edge_lines(defined, edges).skip(0) =~= body);
    assert(Dfa { transitions: edges, ..defined } == read);
    // The transition function.
    assert(read.wf());
    assert forall|from: int, symbol: Seq<char>| #[trigger] read.step(from, symbol) == dfa.step(from, symbol) by {
        if read.step(from, symbol) is Some {
            read.lemma_step_some(from, symbol);
            let to = read.step(from, symbol)->0;
            let x = choose|x: int| 0 <= x < edges.len() && edges[x] == (from, symbol, to);
            assert(dfa.transitions.contains(edges[x]));
            dfa.lemma_step_of_edge(from, symbol, to);
        }
        if dfa.step(from, symbol) is Some {
            dfa.lemma_step_some(from, symbol);
            let to = dfa.step(from, symbol)->0;
            let e = choose|e: int| 0 <= e < dfa.transitions.len() && dfa.transitions[e] == (from, symbol, to);
            assert(dfa.transitions[e].0 < n);
            assert(edges.contains(dfa.transitions[e]));
            read.lemma_step_of_edge(from, symbol, to);
        }
    }
}

} // verus!
