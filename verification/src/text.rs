//! The textual form of an automaton: a line of symbols, a line of state
//! names, the name of the start state, a line of accepting state names, and
//! then one line for each transition, all with single spaces between fields.

use crate::automaton::Automaton;
use crate::error::AutomatonError;
use crate::graph::{labelled, lemma_outgoing, outgoing};
use crate::model::{names, Dfa};
use vstd::prelude::*;

verus! {

/// The characters that count as white space at the ends of a line.
pub open spec fn is_space(c: char) -> bool {
    let code = c as u32;
    ||| 0x09 <= code <= 0x0d
    ||| code == 0x20
    ||| code == 0x85
    ||| code == 0xa0
    ||| code == 0x1680
    ||| 0x2000 <= code <= 0x200a
    ||| code == 0x2028
    ||| code == 0x2029
    ||| code == 0x202f
    ||| code == 0x205f
    ||| code == 0x3000
}

/// The text without the white space at its start.
pub open spec fn trim_start(s: Seq<char>) -> Seq<char>
    decreases s.len(),
{
    if s.len() > 0 && is_space(s[0]) {
        trim_start(s.drop_first())
    } else {
        s
    }
}

/// The text without the white space at its end.
pub open spec fn trim_end(s: Seq<char>) -> Seq<char>
    decreases s.len(),
{
    if s.len() > 0 && is_space(s.last()) {
        trim_end(s.drop_last())
    } else {
        s
    }
}

/// The text without the white space at its ends.
pub open spec fn trim(s: Seq<char>) -> Seq<char> {
    trim_end(trim_start(s))
}

/// The pieces of a text between the occurrences of a separator. A text
/// with `n` separators has `n + 1` pieces, some of them empty perhaps.
pub open spec fn split(s: Seq<char>, separator: char) -> Seq<Seq<char>>
    decreases s.len(),
{
    if s.len() == 0 {
        seq![Seq::empty()]
    } else {
        let before = split(s.drop_last(), separator);
        if s.last() == separator {
            before.push(Seq::empty())
        } else {
            before.update(before.len() - 1, before.last().push(s.last()))
        }
    }
}

/// The lines of a text. A line feed at the very end opens no further line.
pub open spec fn text_lines(text: Seq<char>) -> Seq<Seq<char>> {
    let pieces = split(text, '\n');
    if pieces.last().len() == 0 {
        pieces.drop_last()
    } else {
        pieces
    }
}

/// The fields of a line: what stands between the single spaces of the line
/// without the white space at its ends.
pub open spec fn line_fields(line: Seq<char>) -> Seq<Seq<char>> {
    split(trim(line), ' ')
}

/// The line at `i`, or an empty line where the text has none.
pub open spec fn line_at(lines: Seq<Seq<char>>, i: int) -> Seq<char> {
    if 0 <= i < lines.len() {
        lines[i]
    } else {
        Seq::empty()
    }
}

/// The automaton after the states of `list` have been added in order, or
/// why one could not be added.
pub open spec fn declare_states(dfa: Dfa, list: Seq<Seq<char>>) -> Result<Dfa, AutomatonError>
    decreases list.len(),
{
    if list.len() == 0 {
        Ok(dfa)
    } else if dfa.states.contains(list[0]) {
        Err(AutomatonError::DuplicateState)
    } else if dfa.states.len() >= u32::MAX {
        Err(AutomatonError::CapacityExceeded)
    } else {
        declare_states(dfa.with_state(list[0]), list.drop_first())
    }
}

/// The names on the line of accepting states. A line that holds nothing
/// but white space names no state.
pub open spec fn accepting_fields(line: Seq<char>) -> Seq<Seq<char>> {
    if trim(line).len() == 0 {
        Seq::empty()
    } else {
        line_fields(line)
    }
}

/// The automaton that the first four lines describe, still without
/// transitions. The start state and every accepting state must be among the
/// states that the second line declares.
pub open spec fn parse_definition(lines: Seq<Seq<char>>) -> Result<Dfa, AutomatonError> {
    match declare_states(
        Dfa {
            alphabet: line_fields(line_at(lines, 0)),
            states: Seq::empty(),
            start: trim(line_at(lines, 2)),
            accepting: accepting_fields(line_at(lines, 3)),
            transitions: Seq::empty(),
        },
        line_fields(line_at(lines, 1)),
    ) {
        Ok(dfa) => if dfa.closed() {
            Ok(dfa)
        } else {
            Err(AutomatonError::MalformedAutomaton)
        },
        Err(e) => Err(e),
    }
}

/// The automaton with the transition that a line describes, or why the line
/// is refused. The first three fields of the line are the source, the symbol
/// and the target; further fields are ignored.
pub open spec fn declare_transition(dfa: Dfa, line: Seq<char>) -> Result<Dfa, AutomatonError> {
    let fields = line_fields(line);
    if fields.len() < 3 {
        Err(AutomatonError::IncompleteTransition)
    } else if dfa.index_of(fields[0]) is None || dfa.index_of(fields[2]) is None {
        Err(AutomatonError::MalformedAutomaton)
    } else {
        let from = dfa.index_of(fields[0])->0;
        let to = dfa.index_of(fields[2])->0;
        match Automaton::admits_transition(dfa, from, fields[1], to) {
            Ok(_) => Ok(dfa.with_transition(from, fields[1], to)),
            Err(e) => Err(e),
        }
    }
}

/// The automaton with the transitions that the lines describe, or why the
/// first line that is refused is refused.
pub open spec fn declare_transitions(dfa: Dfa, lines: Seq<Seq<char>>) -> Result<Dfa, AutomatonError>
    decreases lines.len(),
{
    if lines.len() == 0 {
        Ok(dfa)
    } else {
        match declare_transition(dfa, lines[0]) {
            Ok(next) => declare_transitions(next, lines.drop_first()),
            Err(e) => Err(e),
        }
    }
}

/// The lines after the four lines of the definition.
pub open spec fn transition_lines(lines: Seq<Seq<char>>) -> Seq<Seq<char>> {
    if lines.len() > 4 {
        lines.skip(4)
    } else {
        Seq::empty()
    }
}

/// The automaton that a text describes, or why the text is refused.
pub open spec fn parse(text: Seq<char>) -> Result<Dfa, AutomatonError> {
    let lines = text_lines(text);
    match parse_definition(lines) {
        Ok(dfa) => declare_transitions(dfa, transition_lines(lines)),
        Err(e) => Err(e),
    }
}

/// What a list of character vectors holds.
pub open spec fn rows(list: Seq<Vec<char>>) -> Seq<Seq<char>> {
    Seq::new(list.len(), |i: int| list[i]@)
}

/// `String::from_iter` on characters: the string that holds the characters
/// in their order.
#[verifier::external_body]
pub(crate) fn string_from_chars(chars: &Vec<char>) -> (text: String)
    ensures
        text@ == chars@,
{
    String::from_iter(chars.iter())
}

/// The characters of a text.
pub fn chars_of(text: &str) -> (chars: Vec<char>)
    ensures
        chars@ == text@,
{
    let mut chars: Vec<char> = Vec::new();
    for c in it: text.chars()
        invariant
            chars@ == it.seq().take(it.index() as int),
            it.seq() == text@,
    {
        chars.push(c);
    }
    chars
}

/// Whether a character counts as white space at the ends of a line.
pub fn is_space_char(c: char) -> (space: bool)
    ensures
        space == is_space(c),
{
    let code = c as u32;
    (0x09 <= code && code <= 0x0d) || code == 0x20 || code == 0x85 || code == 0xa0 || code == 0x1680 || (0x2000
        <= code && code <= 0x200a) || code == 0x2028 || code == 0x2029 || code == 0x202f || code == 0x205f || code
        == 0x3000
}

/// A line without the white space at its ends.
pub fn trim_chars(line: &Vec<char>) -> (trimmed: Vec<char>)
    ensures
        trimmed@ == trim(line@),
{
    let len = line.len();
    let mut start: usize = 0;
    assert(line@.subrange(0, len as int) =~= line@);
    while start < len && is_space_char(line[start])
        invariant
            len == line.len(),
            start <= len,
            trim_start(line@) == trim_start(line@.subrange(start as int, len as int)),
        decreases len - start,
    {
        assert(line@.subrange(start as int, len as int).drop_first() =~= line@.subrange(start + 1, len as int));
        start += 1;
    }
    let ghost kept = line@.subrange(start as int, len as int);
    assert(trim_start(line@) == kept);
    let mut end: usize = len;
    while end > start && is_space_char(line[end - 1])
        invariant
            len == line.len(),
            start <= end <= len,
            kept == line@.subrange(start as int, len as int),
            trim_end(kept) == trim_end(line@.subrange(start as int, end as int)),
        decreases end - start,
    {
        assert(line@.subrange(start as int, end as int).drop_last() =~= line@.subrange(start as int, end - 1));
        end -= 1;
    }
    assert(trim_end(kept) == line@.subrange(start as int, end as int));
    let mut trimmed: Vec<char> = Vec::new();
    let mut i: usize = start;
    while i < end
        invariant
            start <= i <= end,
            end <= line.len(),
            trimmed@ == line@.subrange(start as int, i as int),
        decreases end - i,
    {
        trimmed.push(line[i]);
        assert(line@.subrange(start as int, i + 1) =~= line@.subrange(start as int, i as int).push(line@[i as int]));
        i += 1;
    }
    trimmed
}

/// The pieces of a text between the occurrences of a separator.
pub fn split_chars(text: &Vec<char>, separator: char) -> (pieces: Vec<Vec<char>>)
    ensures
        rows(pieces@) == split(text@, separator),
{
    let mut pieces: Vec<Vec<char>> = Vec::new();
    let mut current: Vec<char> = Vec::new();
    let mut i: usize = 0;
    assert(text@.take(0) =~= Seq::empty());
    assert(rows(pieces@).push(current@) =~= split(text@.take(0), separator));
    while i < text.len()
        invariant
            i <= text.len(),
            rows(pieces@).push(current@) == split(text@.take(i as int), separator),
        decreases text.len() - i,
    {
        let c = text[i];
        let ghost before = split(text@.take(i as int), separator);
        let ghost done = rows(pieces@);
        let ghost piece = current@;
        assert(text@.take(i + 1).drop_last() =~= text@.take(i as int));
        assert(text@.take(i + 1).last() == c);
        if c == separator {
            pieces.push(current);
            current = Vec::new();
            assert(rows(pieces@) =~= done.push(piece));
            assert(rows(pieces@).push(current@) =~= before.push(Seq::empty()));
        } else {
            current.push(c);
            assert(rows(pieces@).push(current@) =~= before.update(before.len() - 1, before.last().push(c)));
        }
        i += 1;
    }
    assert(text@.take(text.len() as int) =~= text@);
    let ghost done = rows(pieces@);
    let ghost piece = current@;
    pieces.push(current);
    assert(rows(pieces@) =~= done.push(piece));
    pieces
}

/// The lines of a text.
pub fn lines_of(text: &Vec<char>) -> (lines: Vec<Vec<char>>)
    ensures
        rows(lines@) == text_lines(text@),
{
    let mut lines = split_chars(text, '\n');
    let ghost pieces = rows(lines@);
    proof {
        lemma_split_len(text@, '\n');
    }
    if lines[lines.len() - 1].len() == 0 {
        let _ = lines.pop();
        assert(rows(lines@) =~= pieces.drop_last());
    }
    lines
}

/// A split text has at least one piece.
pub proof fn lemma_split_len(s: Seq<char>, separator: char)
    ensures
        split(s, separator).len() > 0,
    decreases s.len(),
{
    if s.len() > 0 {
        lemma_split_len(s.drop_last(), separator);
    }
}

/// The fields of a line, as strings.
pub fn fields_of(line: &Vec<char>) -> (fields: Vec<String>)
    ensures
        names(fields@) == line_fields(line@),
{
    let trimmed = trim_chars(line);
    let pieces = split_chars(&trimmed, ' ');
    let mut fields: Vec<String> = Vec::new();
    let mut i: usize = 0;
    while i < pieces.len()
        invariant
            i <= pieces.len(),
            fields.len() == i,
            forall|j: int| 0 <= j < i ==> fields[j]@ == pieces[j]@,
        decreases pieces.len() - i,
    {
        fields.push(string_from_chars(&pieces[i]));
        i += 1;
    }
    assert(names(fields@) =~= rows(pieces@));
    fields
}

/// A copy of the line at `i`, or an empty line where there is none.
pub fn line_copy(lines: &Vec<Vec<char>>, i: usize) -> (line: Vec<char>)
    ensures
        line@ == line_at(rows(lines@), i as int),
{
    let mut line: Vec<char> = Vec::new();
    if i < lines.len() {
        let source = &lines[i];
        let mut j: usize = 0;
        while j < source.len()
            invariant
                j <= source.len(),
                line@ == source@.take(j as int),
            decreases source.len() - j,
        {
            line.push(source[j]);
            assert(source@.take(j + 1) =~= source@.take(j as int).push(source@[j as int]));
            j += 1;
        }
        assert(source@.take(source.len() as int) =~= source@);
    }
    line
}

/// The names on the line of accepting states, as strings.
pub fn accepting_of(line: &Vec<char>) -> (fields: Vec<String>)
    ensures
        names(fields@) == accepting_fields(line@),
{
    if trim_chars(line).len() == 0 {
        let fields: Vec<String> = Vec::new();
        assert(names(fields@) =~= Seq::<Seq<char>>::empty());
        fields
    } else {
        fields_of(line)
    }
}

/// Builds the automaton that the four lines of a definition describe: the
/// alphabet, the states, the start state and the accepting states. A line
/// that is missing counts as empty. A state declared twice is refused, and
/// so is a start state or an accepting state that is not declared.
#[verifier::loop_isolation(false)]
pub fn read_definition(lines: &Vec<Vec<char>>) -> (result: Result<Automaton, AutomatonError>)
    ensures
        match result {
            Ok(automaton) => {
                &&& automaton.wf()
                &&& parse_definition(rows(lines@)) == Ok::<Dfa, AutomatonError>(automaton@)
                &&& automaton@.start_index() is Some
                &&& forall|i: int|
                    0 <= i < automaton@.accepting.len() ==> automaton@.states.contains(
                        #[trigger] automaton@.accepting[i],
                    )
                &&& automaton@.states == line_fields(line_at(rows(lines@), 1))
                &&& automaton@.transitions.len() == 0
            },
            Err(e) => parse_definition(rows(lines@)) == Err::<Dfa, AutomatonError>(e),
        },
{
    let alphabet = fields_of(&line_copy(lines, 0));
    let states = fields_of(&line_copy(lines, 1));
    let start = string_from_chars(&trim_chars(&line_copy(lines, 2)));
    let accepting = accepting_of(&line_copy(lines, 3));
    let mut automaton = Automaton::new();
    automaton.set_alphabet(alphabet);
    automaton.set_start_state(start);
    automaton.set_accepting_states(accepting);
    let ghost initial = automaton@;
    let ghost list = names(states@);
    let mut i: usize = 0;
    assert(list.skip(0) =~= list);
    assert(automaton@.states =~= list.take(0));
    while i < states.len()
        invariant
            i <= states.len(),
            list == names(states@),
            automaton.wf(),
            automaton@.states == list.take(i as int),
            automaton@.transitions.len() == 0,
            declare_states(initial, list) == declare_states(automaton@, list.skip(i as int)),
        decreases states.len() - i,
    {
        let ghost before = automaton@;
        let ghost rest = list.skip(i as int);
        assert(rest.drop_first() =~= list.skip(i + 1));
        assert(rest[0] == states[i as int]@);
        match automaton.add_state(states[i].clone()) {
            Ok(_) => {
                assert(declare_states(before, rest) == declare_states(automaton@, rest.drop_first()));
                assert(automaton@.states =~= list.take(i + 1));
            },
            Err(e) => {
                assert(declare_states(before, rest) == Err::<Dfa, AutomatonError>(e));
                return Err(e);
            },
        }
        i += 1;
    }
    assert(list.take(states.len() as int) =~= list);
    if !automaton.names_declared() {
        return Err(AutomatonError::MalformedAutomaton);
    }
    Ok(automaton)
}

/// Adds the transitions that the lines after the definition describe, each
/// as source, symbol and target. A line with fewer than three fields is
/// refused, and so is one that names an undeclared state or gives a state a
/// second transition on a symbol.
#[verifier::loop_isolation(false)]
pub fn read_nodes(automaton: Automaton, lines: &Vec<Vec<char>>) -> (result: Result<Automaton, AutomatonError>)
    requires
        automaton.wf(),
    ensures
        match result {
            Ok(read) => {
                &&& read.wf()
                &&& declare_transitions(automaton@, transition_lines(rows(lines@))) == Ok::<Dfa, AutomatonError>(
                    read@,
                )
                &&& read@.alphabet == automaton@.alphabet
                &&& read@.states == automaton@.states
                &&& read@.start == automaton@.start
                &&& read@.accepting == automaton@.accepting
                &&& read@.transitions.len() == automaton@.transitions.len() + transition_lines(rows(lines@)).len()
            },
            Err(e) => declare_transitions(automaton@, transition_lines(rows(lines@))) == Err::<Dfa, AutomatonError>(e),
        },
{
    let ghost initial = automaton@;
    let ghost list = transition_lines(rows(lines@));
    let mut read = automaton;
    if lines.len() <= 4 {
        return Ok(read);
    }
    let mut i: usize = 4;
    assert(list.skip(0) =~= list);
    while i < lines.len()
        invariant
            4 <= i <= lines.len(),
            list == transition_lines(rows(lines@)),
            list.len() == lines.len() - 4,
            read.wf(),
            read@.alphabet == initial.alphabet,
            read@.states == initial.states,
            read@.start == initial.start,
            read@.accepting == initial.accepting,
            read@.transitions.len() == initial.transitions.len() + i - 4,
            declare_transitions(initial, list) == declare_transitions(read@, list.skip(i - 4)),
        decreases lines.len() - i,
    {
        let ghost before = read@;
        let ghost rest = list.skip(i - 4);
        assert(rest.drop_first() =~= list.skip(i - 3));
        assert(rest[0] == lines[i as int]@);
        let fields = fields_of(&lines[i]);
        assert(names(fields@) == line_fields(rest[0]));
        if fields.len() < 3 {
            assert(declare_transition(before, rest[0]) == Err::<Dfa, AutomatonError>(
                AutomatonError::IncompleteTransition,
            ));
            return Err(AutomatonError::IncompleteTransition);
        }
        let from = read.state_index(&fields[0]);
        let to = read.state_index(&fields[2]);
        assert(names(fields@)[0] == fields[0]@ && names(fields@)[1] == fields[1]@ && names(fields@)[2] == fields[2]@);
        match (from, to) {
            (Some(from), Some(to)) => {
                match read.add_transition(from, fields[1].clone(), to) {
                    Ok(_) => {
                        assert(declare_transition(before, rest[0]) == Ok::<Dfa, AutomatonError>(read@));
                    },
                    Err(e) => {
                        assert(declare_transition(before, rest[0]) == Err::<Dfa, AutomatonError>(e));
                        return Err(e);
                    },
                }
            },
            _ => {
                assert(declare_transition(before, rest[0]) == Err::<Dfa, AutomatonError>(
                    AutomatonError::MalformedAutomaton,
                ));
                return Err(AutomatonError::MalformedAutomaton);
            },
        }
        i += 1;
    }
    Ok(read)
}

/// The names of a list with a separator between them.
pub open spec fn join(list: Seq<Seq<char>>, separator: Seq<char>) -> Seq<char>
    decreases list.len(),
{
    if list.len() == 0 {
        Seq::empty()
    } else if list.len() == 1 {
        list[0]
    } else {
        join(list.drop_last(), separator) + separator + list.last()
    }
}

/// The line of a transition: source, symbol and target, and a line feed.
pub open spec fn transition_line(dfa: Dfa, from: int, edge: (Seq<char>, int)) -> Seq<char> {
    dfa.states[from] + seq![' '] + edge.0 + seq![' '] + dfa.states[edge.1] + seq!['\n']
}

/// The lines of the transitions `out` that leave a state.
pub open spec fn state_lines(dfa: Dfa, from: int, out: Seq<(Seq<char>, int)>) -> Seq<char>
    decreases out.len(),
{
    if out.len() == 0 {
        Seq::empty()
    } else {
        state_lines(dfa, from, out.drop_last()) + transition_line(dfa, from, out.last())
    }
}

/// The lines of the transitions that leave the first `upto` states: state
/// after state, and for each state the transition added last first.
pub open spec fn all_lines(dfa: Dfa, upto: int) -> Seq<char>
    decreases upto,
{
    if upto <= 0 {
        Seq::empty()
    } else {
        all_lines(dfa, upto - 1) + state_lines(dfa, upto - 1, outgoing(dfa.transitions, upto - 1))
    }
}

/// The textual form of an automaton.
pub open spec fn render(dfa: Dfa) -> Seq<char> {
    join(dfa.alphabet, seq![' ']) + seq!['\n'] + join(dfa.states, seq![' ']) + seq!['\n'] + dfa.start + seq!['\n']
        + join(dfa.accepting, seq![' ']) + seq!['\n'] + all_lines(dfa, dfa.size())
}

/// Appends the names of a list with single spaces between them.
pub fn push_joined(text: &mut String, list: &Vec<String>)
    ensures
        final(text)@ == old(text)@ + join(names(list@), seq![' ']),
{
    let ghost all = names(list@);
    let mut i: usize = 0;
    proof {
        reveal_strlit(" ");
        assert(" "@ =~= seq![' ']);
        assert(all.take(0) =~= Seq::empty());
        assert(text@ =~= old(text)@ + join(all.take(0), seq![' ']));
    }
    while i < list.len()
        invariant
            i <= list.len(),
            all == names(list@),
            " "@ == seq![' '],
            text@ == old(text)@ + join(all.take(i as int), seq![' ']),
        decreases list.len() - i,
    {
        proof {
            assert(all.take(i + 1).drop_last() =~= all.take(i as int));
            assert(all.take(i + 1).last() == list[i as int]@);
        }
        if i > 0 {
            text.append(" ");
        }
        text.append(list[i].as_str());
        proof {
            assert(text@ =~= old(text)@ + join(all.take(i + 1), seq![' ']));
        }
        i += 1;
    }
    assert(all.take(list.len() as int) =~= all);
}

impl Automaton {
    /// Reads an automaton from its textual form. The text is refused
    /// unless every name it uses, for the start state, for an accepting
    /// state or in a transition, is that of a declared state.
    pub fn from_text(text: &str) -> (result: Result<Automaton, AutomatonError>)
        ensures
            match result {
                Ok(automaton) => {
                    &&& automaton.wf()
                    &&& parse(text@) == Ok::<Dfa, AutomatonError>(automaton@)
                    &&& automaton@.start_index() is Some
                    &&& forall|i: int|
                        0 <= i < automaton@.accepting.len() ==> automaton@.states.contains(
                            #[trigger] automaton@.accepting[i],
                        )
                    &&& automaton@.states == line_fields(line_at(text_lines(text@), 1))
                    &&& automaton@.transitions.len() == transition_lines(text_lines(text@)).len()
                },
                Err(e) => parse(text@) == Err::<Dfa, AutomatonError>(e),
            },
    {
        let chars = chars_of(text);
        let lines = lines_of(&chars);
        match read_definition(&lines) {
            Ok(automaton) => read_nodes(automaton, &lines),
            Err(e) => Err(e),
        }
    }

    /// The textual form of the automaton.
    pub fn to_text(&self) -> (text: String)
        requires
            self.wf(),
        ensures
            text@ == render(self@),
    {
        let ghost dfa = self@;
        let mut text = String::new();
        proof {
            reveal_strlit(" ");
            reveal_strlit("\n");
            assert(" "@ =~= seq![' ']);
            assert("\n"@ =~= seq!['\n']);
        }
        push_joined(&mut text, self.alphabet());
        text.append("\n");
        push_joined(&mut text, self.states());
        text.append("\n");
        text.append(self.start_state().as_str());
        text.append("\n");
        push_joined(&mut text, self.accepting_states());
        text.append("\n");
        let ghost head = text@;
        proof {
            assert(head =~= join(dfa.alphabet, seq![' ']) + seq!['\n'] + join(dfa.states, seq![' ']) + seq!['\n']
                + dfa.start + seq!['\n'] + join(dfa.accepting, seq![' ']) + seq!['\n']);
            assert(text@ =~= head + all_lines(dfa, 0));
        }
        let list = self.states();
        let mut state: usize = 0;
        while state < list.len()
            invariant
                self.wf(),
                dfa == self@,
                names(list@) == dfa.states,
                " "@ == seq![' '],
                "\n"@ == seq!['\n'],
                state <= list.len(),
                text@ == head + all_lines(dfa, state as int),
            decreases list.len() - state,
        {
            let out = self.transitions_from(state);
            let ghost edges = labelled(out@);
            let ghost before = text@;
            let mut i: usize = 0;
            proof {
                assert(edges.take(0) =~= Seq::empty());
                assert(text@ =~= before + state_lines(dfa, state as int, edges.take(0)));
            }
            while i < out.len()
                invariant
                    self.wf(),
                    dfa == self@,
                    names(list@) == dfa.states,
                    " "@ == seq![' '],
                    "\n"@ == seq!['\n'],
                    state < list.len(),
                    edges == labelled(out@),
                    edges == outgoing(dfa.transitions, state as int),
                    i <= out.len(),
                    text@ == before + state_lines(dfa, state as int, edges.take(i as int)),
                decreases out.len() - i,
            {
                let symbol = &out[i].0;
                let to = out[i].1;
                proof {
                    assert(edges[i as int] == (symbol@, to as int));
                    assert(edges.contains((symbol@, to as int)));
                    lemma_outgoing(dfa.transitions, state as int, symbol@, to as int);
                    dfa.lemma_step_of_edge(state as int, symbol@, to as int);
                    assert(edges.take(i + 1).drop_last() =~= edges.take(i as int));
                    assert(edges.take(i + 1).last() == edges[i as int]);
                    assert(dfa.states[state as int] == list[state as int]@);
                    assert(dfa.states[to as int] == list[to as int]@);
                }
                text.append(list[state].as_str());
                text.append(" ");
                text.append(symbol.as_str());
                text.append(" ");
                text.append(list[to].as_str());
                text.append("\n");
                proof {
                    assert(text@ =~= before + state_lines(dfa, state as int, edges.take(i + 1)));
                }
                i += 1;
            }
            proof {
                assert(edges.take(out.len() as int) =~= edges);
                assert(text@ =~= head + all_lines(dfa, state + 1));
            }
            state += 1;
        }
        text
    }
}

} // verus!
