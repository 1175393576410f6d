//! Reading a netlist: one component placement on each line.
//!
//! A line names a component kind, then optionally the component's own name
//! in double quotes, then one node for each terminal, then parameters as
//! `key=value`. Blank lines and lines that begin with `--` say nothing.

use crate::component::ComponentLibrary;
use crate::expression::{
    expression, expression_at, is_rest_of, other_than, parsed_at, position_in, Expression,
    ExpressionError, Parsed, Term,
};
use crate::si::{prefix_exponent, si_word, si_word_at};
use crate::text::{is_space, is_whitespace};
use crate::text::{
    chars_of, lemma_run_length_is, run_length, skip_spaces, str_equal, text_of, texts,
    trimmed_start,
};
use vstd::prelude::*;
use vstd::string::StrSliceExecFns;

verus! {

/// An ASCII punctuation character.
pub open spec fn is_punctuation(c: char) -> bool {
    let u = c as u32;
    ||| 0x21 <= u <= 0x2f
    ||| 0x3a <= u <= 0x40
    ||| 0x5b <= u <= 0x60
    ||| 0x7b <= u <= 0x7e
}

/// A character that can begin an identifier: an ASCII letter, an
/// underscore or ASCII punctuation.
pub open spec fn is_identifier_start(c: char) -> bool {
    let u = c as u32;
    ||| 0x41 <= u <= 0x5a
    ||| 0x61 <= u <= 0x7a
    ||| is_punctuation(c)
}

/// A character that can continue an identifier: one that can begin it, or an ASCII digit.
pub open spec fn is_identifier_char(c: char) -> bool {
    is_identifier_start(c) || 0x30 <= c as u32 <= 0x39
}

/// The predicate of identifier characters.
pub open spec fn identifier_char() -> spec_fn(char) -> bool {
    |c: char| is_identifier_char(c)
}

/// The identifier at the start of the text, after white space, and the
/// text after it; `None` where no identifier begins there.
pub open spec fn identifier(s: Seq<char>) -> Option<(Seq<char>, Seq<char>)> {
    let t = trimmed_start(s);
    if t.len() == 0 || !is_identifier_start(t[0]) {
        None
    } else {
        let n = 1 + run_length(t.skip(1), identifier_char());
        Some((t.take(n as int), t.skip(n as int)))
    }
}

/// The name in double quotes at the start of the text, after white space,
/// and the text after the closing quote. Where no quote opens, or the one
/// that opens is not closed, there is no name and the text is left as it
/// is but for the white space.
pub open spec fn quoted(s: Seq<char>) -> (Option<Seq<char>>, Seq<char>) {
    let t = trimmed_start(s);
    if t.len() == 0 || t[0] != '"' {
        (None, t)
    } else {
        let n = run_length(t.skip(1), other_than('"'));
        if n + 1 >= t.len() {
            (None, t)
        } else {
            (Some(t.subrange(1, 1 + n as int)), t.skip(n as int + 2))
        }
    }
}

/// The predicate of characters that are no white space.
pub open spec fn no_space() -> spec_fn(char) -> bool {
    |c: char| !is_space(c)
}

/// The value at the start of a text. Where the first word, up to the next
/// white space, is a decimal number with or without an SI prefix, the word
/// is the value: a real number without a prefix, and with one a variable
/// of that name, which is how `1k` is written as an expression. Any other
/// text is read as an expression.
pub open spec fn value(s: Seq<char>) -> Parsed {
    let t = trimmed_start(s);
    let n = run_length(t, no_space());
    let word = t.take(n as int);
    if si_word(word) is Some {
        Ok(
            (
                if prefix_exponent(word.last()) is Some {
                    Term::Variable { name: word, subscript: None }
                } else {
                    Term::Real(word)
                },
                t.skip(n as int),
            ),
        )
    } else {
        expression(s)
    }
}

/// The parameters at the start of the text: as long as the text holds an
/// equals sign and a value follows it, what stands before the sign is a
/// key and what follows it the value.
pub open spec fn assignments(s: Seq<char>) -> Seq<(Seq<char>, Term)>
    decreases s.len(),
{
    let n = run_length(s, other_than('='));
    if n >= s.len() {
        Seq::empty()
    } else {
        match value(s.skip(n as int + 1)) {
            Err(_) => Seq::empty(),
            Ok((term, rest)) => {
                let rest = trimmed_start(rest);
                if rest.len() >= s.len() {
                    seq![(s.take(n as int), term)]
                } else {
                    seq![(s.take(n as int), term)] + assignments(rest)
                }
            },
        }
    }
}

/// Whether `c` can begin an identifier.
fn identifier_start_is(c: char) -> (r: bool)
    ensures
        r == is_identifier_start(c),
{
    let u = c as u32;
    (0x41 <= u && u <= 0x5a) || (0x61 <= u && u <= 0x7a) || (0x21 <= u && u <= 0x2f) || (0x3a <= u
        && u <= 0x40) || (0x5b <= u && u <= 0x60) || (0x7b <= u && u <= 0x7e)
}

/// Whether `c` can continue an identifier.
fn identifier_char_is(c: char) -> (r: bool)
    ensures
        r == is_identifier_char(c),
{
    let u = c as u32;
    identifier_start_is(c) || (0x30 <= u && u <= 0x39)
}

/// The bounds of the identifier at `from`, after white space.
fn identifier_at(chars: &Vec<char>, from: usize, to: usize) -> (r: Option<(usize, usize)>)
    requires
        from <= to <= chars.len(),
    ensures
        match r {
            Some((start, end)) => from <= start < end <= to && identifier(
                chars@.subrange(from as int, to as int),
            ) == Some(
                (
                    chars@.subrange(start as int, end as int),
                    chars@.subrange(end as int, to as int),
                ),
            ),
            None => identifier(chars@.subrange(from as int, to as int)) is None,
        },
{
    let start = skip_spaces(chars, from, to);
    let ghost t = chars@.subrange(start as int, to as int);
    if start == to {
        return None;
    }
    proof {
        assert(t[0] == chars[start as int]);
    }
    if !identifier_start_is(chars[start]) {
        return None;
    }
    let mut end = start + 1;
    while end < to && identifier_char_is(chars[end])
        invariant
            start < end <= to <= chars.len(),
            forall|i: int| start + 1 <= i < end ==> is_identifier_char(#[trigger] chars[i]),
        decreases to - end,
    {
        end += 1;
    }
    proof {
        let tail = t.skip(1);
        assert(tail =~= chars@.subrange(start + 1, to as int));
        assert forall|i: int| 0 <= i < end - start - 1 implies identifier_char()(
            #[trigger] tail[i],
        ) by {
            assert(tail[i] == chars[start + 1 + i]);
        }
        lemma_run_length_is(tail, identifier_char(), end - start - 1);
        assert(t.take(end - start) =~= chars@.subrange(start as int, end as int));
        assert(t.skip(end - start) =~= chars@.subrange(end as int, to as int));
    }
    Some((start, end))
}

/// Reads an identifier off the start of the text, after white space. An
/// identifier begins with an ASCII letter, an underscore or ASCII
/// punctuation and goes on with these and ASCII digits.
pub fn parse_identifier(input: &str) -> (r: Option<(&str, &str)>)
    ensures
        match r {
            Some((name, rest)) => identifier(input@) == Some((name@, rest@)) && is_rest_of(
                rest@,
                input@,
            ),
            None => identifier(input@) is None,
        },
{
    let chars = chars_of(input);
    proof {
        assert(chars@.subrange(0, chars.len() as int) =~= input@);
    }
    match identifier_at(&chars, 0, chars.len()) {
        Some((start, end)) => {
            proof {
                assert(input@.subrange(end as int, chars.len() as int) =~= input@.skip(end as int));
            }
            Some((input.substring_char(start, end), input.substring_char(end, chars.len())))
        },
        None => None,
    }
}

/// The bounds of the quoted name at `from`, after white space, and the
/// position where the rest begins.
fn quoted_at(chars: &Vec<char>, from: usize, to: usize) -> (r: (Option<(usize, usize)>, usize))
    requires
        from <= to <= chars.len(),
    ensures
        from <= r.1 <= to,
        quoted(chars@.subrange(from as int, to as int)).1 == chars@.subrange(r.1 as int, to as int),
        match r.0 {
            Some((start, end)) => from <= start <= end <= to && quoted(
                chars@.subrange(from as int, to as int),
            ).0 == Some(chars@.subrange(start as int, end as int)),
            None => quoted(chars@.subrange(from as int, to as int)).0 is None,
        },
{
    let start = skip_spaces(chars, from, to);
    let ghost t = chars@.subrange(start as int, to as int);
    if start == to {
        return (None, start);
    }
    proof {
        assert(t[0] == chars[start as int]);
    }
    if chars[start] != '"' {
        return (None, start);
    }
    let mut end = start + 1;
    while end < to && chars[end] != '"'
        invariant
            start < end <= to <= chars.len(),
            forall|i: int| start + 1 <= i < end ==> (#[trigger] chars[i]) != '"',
        decreases to - end,
    {
        end += 1;
    }
    proof {
        let tail = t.skip(1);
        assert(tail =~= chars@.subrange(start + 1, to as int));
        assert forall|i: int| 0 <= i < end - start - 1 implies other_than('"')(
            #[trigger] tail[i],
        ) by {
            assert(tail[i] == chars[start + 1 + i]);
        }
        if end < to {
            assert(tail[end - start - 1] == chars[end as int]);
        }
        lemma_run_length_is(tail, other_than('"'), end - start - 1);
        assert(t.subrange(1, end - start) =~= chars@.subrange(start + 1, end as int));
        if end < to {
            assert(t.skip(end - start + 1) =~= chars@.subrange(end + 1, to as int));
        }
    }
    if end == to {
        (None, start)
    } else {
        (Some((start + 1, end)), end + 1)
    }
}

/// Reads a name in double quotes off the start of the text, after white
/// space. Gives the name, if there is one, and the text after it.
pub fn parse_quoted(input: &str) -> (r: (Option<&str>, &str))
    ensures
        r.1@ == quoted(input@).1,
        is_rest_of(r.1@, input@),
        match r.0 {
            Some(name) => quoted(input@).0 == Some(name@),
            None => quoted(input@).0 is None,
        },
{
    let chars = chars_of(input);
    proof {
        assert(chars@.subrange(0, chars.len() as int) =~= input@);
    }
    let (name, rest) = quoted_at(&chars, 0, chars.len());
    proof {
        assert(input@.subrange(rest as int, chars.len() as int) =~= input@.skip(rest as int));
    }
    let rest = input.substring_char(rest, chars.len());
    match name {
        Some((start, end)) => (Some(input.substring_char(start, end)), rest),
        None => (None, rest),
    }
}

/// What a netlist line says: which component to place, under which name,
/// on which nodes, with which parameters.
pub struct Placement {
    /// The component kind.
    pub component: Seq<char>,
    /// The component's own name, if the line gives one.
    pub name: Option<Seq<char>>,
    /// The node of each terminal, by its name.
    pub terminals: Seq<Seq<char>>,
    /// The parameters in the order written. Where a key is written twice,
    /// the later value counts.
    pub parameters: Seq<(Seq<char>, Term)>,
}

/// A command of a netlist.
#[derive(Debug, PartialEq)]
pub enum Command {
    /// Place a component.
    Component {
        component: String,
        name: Option<String>,
        terminals: Vec<String>,
        parameters: Vec<(String, Expression)>,
    },
}

/// The keys and values of parameters as plain text and terms.
pub open spec fn bindings(parameters: Seq<(String, Expression)>) -> Seq<(Seq<char>, Term)> {
    Seq::new(parameters.len(), |i: int| (parameters[i].0@, parameters[i].1@))
}

impl View for Command {
    type V = Placement;

    open spec fn view(&self) -> Placement {
        match self {
            Command::Component { component, name, terminals, parameters } => Placement {
                component: component@,
                name: match name {
                    Some(name) => Some(name@),
                    None => None,
                },
                terminals: texts(terminals@),
                parameters: bindings(parameters@),
            },
        }
    }
}

/// Why a line is no command.
#[derive(Clone, Copy, Debug, PartialEq, Eq, Structural)]
pub enum CommandError {
    /// The line names a component kind that the library does not know.
    UnknownComponent,
    /// The line names fewer nodes than the component has terminals.
    MissingTerminal,
}

/// A line of a netlist that is no command, by its position, counted from zero.
#[derive(Clone, Copy, Debug, PartialEq, Eq, Structural)]
pub struct NetlistError {
    pub line: usize,
    pub error: CommandError,
}

/// The names of `count` nodes at the start of the text, and the text after them.
pub open spec fn node_names(s: Seq<char>, count: nat) -> Option<(Seq<Seq<char>>, Seq<char>)>
    decreases count,
{
    if count == 0 {
        Some((Seq::empty(), s))
    } else {
        match identifier(s) {
            None => None,
            Some((name, rest)) => match node_names(trimmed_start(rest), (count - 1) as nat) {
                None => None,
                Some((names, left)) => Some((seq![name] + names, left)),
            },
        }
    }
}

/// Whether a line is a comment: it begins with two hyphens.
pub open spec fn is_comment(line: Seq<char>) -> bool {
    line.len() >= 2 && line[0] == '-' && line[1] == '-'
}

/// What a line says. A comment and a line on which no identifier begins
/// say nothing. Any other line begins with a component kind, which the
/// library must know; then come an optional quoted name, as many nodes as
/// the kind has terminals, and parameters.
pub open spec fn reading(library: Map<Seq<char>, usize>, line: Seq<char>) -> Result<
    Option<Placement>,
    CommandError,
> {
    if is_comment(line) {
        Ok(None)
    } else {
        match identifier(line) {
            None => Ok(None),
            Some((component, after)) => if !library.dom().contains(component) {
                Err(CommandError::UnknownComponent)
            } else {
                let name = quoted(after).0;
                match node_names(quoted(after).1, library[component] as nat) {
                    None => Err(CommandError::MissingTerminal),
                    Some((terminals, parameters)) => Ok(
                        Some(
                            Placement {
                                component,
                                name,
                                terminals,
                                parameters: assignments(parameters),
                            },
                        ),
                    ),
                }
            },
        }
    }
}

/// What the lines of a netlist say, in order, or the first line that is no command.
pub open spec fn readings(library: Map<Seq<char>, usize>, lines: Seq<Seq<char>>) -> Result<
    Seq<Placement>,
    NetlistError,
>
    decreases lines.len(),
{
    if lines.len() == 0 {
        Ok(Seq::empty())
    } else {
        match readings(library, lines.drop_last()) {
            Err(e) => Err(e),
            Ok(before) => match reading(library, lines.last()) {
                Ok(None) => Ok(before),
                Ok(Some(placement)) => Ok(before.push(placement)),
                Err(error) => Err(NetlistError { line: (lines.len() - 1) as usize, error }),
            },
        }
    }
}

/// Reads a value from the characters `from..to`.
fn value_at(input: &str, chars: &Vec<char>, from: usize, to: usize) -> (r: Result<
    (Expression, usize),
    ExpressionError,
>)
    requires
        chars@ == input@,
        from <= to <= chars.len(),
    ensures
        parsed_at(r, chars@, to as int) == value(chars@.subrange(from as int, to as int)),
        from <= position_in(r, from) <= to,
{
    let start = skip_spaces(chars, from, to);
    let ghost t = chars@.subrange(start as int, to as int);
    let mut end = start;
    while end < to && !is_whitespace(chars[end])
        invariant
            start <= end <= to <= chars.len(),
            forall|i: int| start <= i < end ==> !is_space(#[trigger] chars[i]),
        decreases to - end,
    {
        end += 1;
    }
    proof {
        assert forall|i: int| 0 <= i < end - start implies no_space()(#[trigger] t[i]) by {
            assert(t[i] == chars[start + i]);
        }
        if end < to {
            assert(t[end - start] == chars[end as int]);
        }
        lemma_run_length_is(t, no_space(), end - start);
        assert(t.take(end - start) =~= chars@.subrange(start as int, end as int));
        assert(t.skip(end - start) =~= chars@.subrange(end as int, to as int));
    }
    match si_word_at(chars, start, end) {
        Some(_) => {
            let ghost word = chars@.subrange(start as int, end as int);
            proof {
                assert(word.last() == chars[end - 1]);
            }
            let text = text_of(input, start, end);
            let prefixed = crate::si::si_exponent(chars[end - 1]).is_some();
            if prefixed {
                Ok((Expression::Variable { name: text, subscript: None }, end))
            } else {
                Ok((Expression::Real(text), end))
            }
        },
        None => expression_at(input, chars, from, to),
    }
}

/// Reads the parameters from the characters `from..to`.
fn assignments_at(input: &str, chars: &Vec<char>, from: usize, to: usize) -> (r: Vec<
    (String, Expression),
>)
    requires
        chars@ == input@,
        from <= to <= chars.len(),
    ensures
        bindings(r@) == assignments(chars@.subrange(from as int, to as int)),
{
    let ghost all = chars@.subrange(from as int, to as int);
    let mut done: Vec<(String, Expression)> = Vec::new();
    let mut cursor = from;
    proof {
        assert(bindings(done@) + assignments(all) =~= assignments(all));
    }
    loop
        invariant
            chars@ == input@,
            from <= cursor <= to <= chars.len(),
            all == chars@.subrange(from as int, to as int),
            assignments(all) == bindings(done@) + assignments(
                chars@.subrange(cursor as int, to as int),
            ),
        decreases to - cursor,
    {
        let ghost s = chars@.subrange(cursor as int, to as int);
        let ghost before = bindings(done@);
        let sign = crate::expression::find_char(chars, cursor, to, '=');
        if sign >= to {
            proof {
                assert(assignments(s) =~= Seq::<(Seq<char>, Term)>::empty());
                assert(before + assignments(s) =~= before);
            }
            return done;
        }
        proof {
            assert(s.skip(sign - cursor + 1) =~= chars@.subrange(sign + 1, to as int));
            assert(s.take(sign - cursor) =~= input@.subrange(cursor as int, sign as int));
        }
        match value_at(input, chars, sign + 1, to) {
            Err(_) => {
                proof {
                    assert(assignments(s) =~= Seq::<(Seq<char>, Term)>::empty());
                    assert(before + assignments(s) =~= before);
                }
                return done;
            },
            Ok((value, rest)) => {
                let ghost term = value@;
                let ghost key = s.take(sign - cursor);
                let next = skip_spaces(chars, rest, to);
                done.push((text_of(input, cursor, sign), value));
                proof {
                    assert(bindings(done@) =~= before + seq![(key, term)]);
                    let left = chars@.subrange(next as int, to as int);
                    if left.len() >= s.len() {
                        assert(assignments(s) == seq![(key, term)]);
                    } else {
                        assert(assignments(s) == seq![(key, term)] + assignments(left));
                        assert(before + (seq![(key, term)] + assignments(left)) =~= (before + seq![
                            (key, term),
                        ]) + assignments(left));
                    }
                }
                if next <= cursor {
                    proof {
                        assert(bindings(done@) + Seq::<(Seq<char>, Term)>::empty() =~= bindings(
                            done@,
                        ));
                    }
                    return done;
                }
                proof {
                    assert(chars@.subrange(next as int, to as int).len() < s.len());
                }
                cursor = next;
            },
        }
    }
}

/// Reads one line of a netlist: a command, or nothing for a comment or a
/// line on which no identifier begins.
pub fn parse_command(library: &ComponentLibrary, line: &str) -> (r: Result<
    Option<Command>,
    CommandError,
>)
    requires
        library.wf(),
    ensures
        match r {
            Ok(Some(command)) => reading(library@, line@) == Ok::<Option<Placement>, CommandError>(
                Some(command@),
            ),
            Ok(None) => reading(library@, line@) == Ok::<Option<Placement>, CommandError>(None),
            Err(e) => reading(library@, line@) == Err::<Option<Placement>, CommandError>(e),
        },
{
    let chars = chars_of(line);
    let to = chars.len();
    proof {
        assert(chars@.subrange(0, to as int) =~= line@);
    }
    if to >= 2 && chars[0] == '-' && chars[1] == '-' {
        return Ok(None);
    }
    let (start, end) = match identifier_at(&chars, 0, to) {
        Some(bounds) => bounds,
        None => {
            return Ok(None);
        },
    };
    let component = text_of(line, start, end);
    let (name_bounds, nodes) = quoted_at(&chars, end, to);
    let count = match library.terminal_count_of(component.as_str()) {
        Some(count) => count,
        None => {
            return Err(CommandError::UnknownComponent);
        },
    };
    let name = match name_bounds {
        Some((a, b)) => Some(text_of(line, a, b)),
        None => None,
    };
    let mut terminals: Vec<String> = Vec::new();
    let mut cursor = nodes;
    let ghost wanted = node_names(chars@.subrange(nodes as int, to as int), count as nat);
    proof {
        let after = chars@.subrange(end as int, to as int);
        assert(identifier(line@) == Some((component@, after)));
        assert(quoted(after).1 == chars@.subrange(nodes as int, to as int));
        assert(library@[component@] == count);
        match wanted {
            Some((names, left)) => {
                assert(texts(terminals@) + names =~= names);
            },
            None => {},
        }
    }
    let mut i: usize = 0;
    while i < count
        invariant
            chars@ == line@,
            i <= count,
            nodes <= cursor <= to,
            to == chars.len(),
            terminals.len() == i,
            wanted == node_names(chars@.subrange(nodes as int, to as int), count as nat),
            wanted is None ==> reading(library@, line@) == Err::<Option<Placement>, CommandError>(
                CommandError::MissingTerminal,
            ),
            match node_names(chars@.subrange(cursor as int, to as int), (count - i) as nat) {
                Some((names, left)) => wanted == Some((texts(terminals@) + names, left)),
                None => wanted is None,
            },
        decreases count - i,
    {
        let ghost before = texts(terminals@);
        match identifier_at(&chars, cursor, to) {
            None => {
                proof {
                    assert(node_names(
                        chars@.subrange(cursor as int, to as int),
                        (count - i) as nat,
                    ) is None);
                    assert(wanted is None);
                }
                return Err(CommandError::MissingTerminal);
            },
            Some((a, b)) => {
                terminals.push(text_of(line, a, b));
                let next = skip_spaces(&chars, b, to);
                proof {
                    let first = chars@.subrange(a as int, b as int);
                    assert(texts(terminals@) =~= before + seq![first]);
                    match node_names(chars@.subrange(next as int, to as int), (count - i - 1) as nat) {
                        Some((names, left)) => {
                            assert((before + seq![first]) + names =~= before + (seq![first]
                                + names));
                        },
                        None => {},
                    }
                }
                cursor = next;
            },
        }
        i += 1;
    }
    proof {
        assert(texts(terminals@) + Seq::<Seq<char>>::empty() =~= texts(terminals@));
    }
    let parameters = assignments_at(line, &chars, cursor, to);
    Ok(Some(Command::Component { component, name, terminals, parameters }))
}

/// Reads a netlist, line by line. Gives the commands in the order of
/// their lines, or the first line that is no command.
pub fn parse_commands(library: &ComponentLibrary, lines: &[&str]) -> (r: Result<
    Vec<Command>,
    NetlistError,
>)
    requires
        library.wf(),
    ensures
        match r {
            Ok(commands) => readings(library@, line_texts(lines@)) == Ok::<
                Seq<Placement>,
                NetlistError,
            >(placements(commands@)),
            Err(e) => readings(library@, line_texts(lines@)) == Err::<Seq<Placement>, NetlistError>(
                e,
            ),
        },
{
    let mut commands: Vec<Command> = Vec::new();
    let mut i: usize = 0;
    proof {
        assert(line_texts(lines@).take(0) =~= Seq::<Seq<char>>::empty());
        assert(placements(commands@) =~= Seq::<Placement>::empty());
    }
    while i < lines.len()
        invariant
            library.wf(),
            i <= lines.len(),
            readings(library@, line_texts(lines@).take(i as int)) == Ok::<
                Seq<Placement>,
                NetlistError,
            >(placements(commands@)),
        decreases lines.len() - i,
    {
        let ghost before = placements(commands@);
        proof {
            let next = line_texts(lines@).take(i + 1);
            assert(next.drop_last() =~= line_texts(lines@).take(i as int));
            assert(next.last() == lines[i as int]@);
        }
        match parse_command(library, lines[i]) {
            Ok(Some(command)) => {
                commands.push(command);
                proof {
                    assert(placements(commands@) =~= before.push(command@));
                }
            },
            Ok(None) => {},
            Err(error) => {
                proof {
                    let all = line_texts(lines@);
                    lemma_readings_fail(library@, all, i as int);
                }
                return Err(NetlistError { line: i, error });
            },
        }
        i += 1;
    }
    proof {
        assert(line_texts(lines@).take(i as int) =~= line_texts(lines@));
    }
    Ok(commands)
}

/// The characters of each line.
pub open spec fn line_texts(lines: Seq<&str>) -> Seq<Seq<char>> {
    Seq::new(lines.len(), |i: int| lines[i]@)
}

/// What each command says.
pub open spec fn placements(commands: Seq<Command>) -> Seq<Placement> {
    Seq::new(commands.len(), |i: int| commands[i]@)
}

/// Once a line fails, reading any number of further lines fails with that line.
proof fn lemma_readings_fail(library: Map<Seq<char>, usize>, lines: Seq<Seq<char>>, i: int)
    requires
        0 <= i < lines.len(),
        readings(library, lines.take(i)) is Ok,
        reading(library, lines[i]) is Err,
    ensures
        readings(library, lines) == Err::<Seq<Placement>, NetlistError>(
            NetlistError { line: i as usize, error: reading(library, lines[i])->Err_0 },
        ),
    decreases lines.len(),
{
    if lines.len() == i + 1 {
        assert(lines.drop_last() =~= lines.take(i));
    } else {
        assert(lines.drop_last().take(i) =~= lines.take(i));
        lemma_readings_fail(library, lines.drop_last(), i);
    }
}

/// The position of the last parameter written under a key, if any is.
pub open spec fn last_binding(parameters: Seq<(Seq<char>, Term)>, key: Seq<char>) -> Option<int>
    decreases parameters.len(),
{
    if parameters.len() == 0 {
        None
    } else if parameters.last().0 == key {
        Some(parameters.len() - 1)
    } else {
        last_binding(parameters.drop_last(), key)
    }
}

impl Command {
    /// The value of the parameter `key`: the last one written under that
    /// key, or `None` where the command has no such parameter.
    pub fn parameter(&self, key: &str) -> (value: Option<&Expression>)
        ensures
            match value {
                Some(value) => last_binding(self@.parameters, key@) is Some
                    && self@.parameters[last_binding(self@.parameters, key@)->0].1 == value@,
                None => last_binding(self@.parameters, key@) is None,
            },
    {
        match self {
            Command::Component { parameters, .. } => {
                let ghost all = bindings(parameters@);
                let mut i = parameters.len();
                proof {
                    assert(all.take(i as int) =~= all);
                }
                while i > 0
                    invariant
                        i <= parameters.len(),
                        all == bindings(parameters@),
                        all == self@.parameters,
                        last_binding(all, key@) == last_binding(all.take(i as int), key@),
                    decreases i,
                {
                    proof {
                        let part = all.take(i as int);
                        assert(part.last() == all[i - 1]);
                        assert(part.drop_last() =~= all.take(i - 1));
                    }
                    if str_equal(parameters[i - 1].0.as_str(), key) {
                        proof {
                            assert(all[i - 1] == (parameters[i - 1].0@, parameters[i - 1].1@));
                        }
                        return Some(&parameters[i - 1].1);
                    }
                    i -= 1;
                }
                None
            },
        }
    }
}

/// An assignment at the start of the text: an optional identifier, an
/// equals sign, and an expression. Gives the expression, the identifier
/// and the text that is left.
pub open spec fn equality(s: Seq<char>) -> Option<(Term, Option<Seq<char>>, Seq<char>)> {
    let t = trimmed_start(s);
    if t.len() == 0 {
        None
    } else {
        let name = match identifier(s) {
            Some((name, _)) => Some(name),
            None => None,
        };
        let after = match identifier(s) {
            Some((_, rest)) => trimmed_start(rest),
            None => trimmed_start(t),
        };
        if after.len() == 0 || after[0] != '=' {
            None
        } else {
            match expression(after.skip(1)) {
                Ok((value, rest)) => Some((value, name, rest)),
                Err(_) => None,
            }
        }
    }
}

/// Reads an assignment off the start of the text: an optional identifier,
/// then an equals sign, then an expression. The identifier takes all
/// punctuation that follows it, so the sign must stand apart from it.
pub fn parse_equality(input: &str) -> (r: Option<(Expression, Option<&str>, &str)>)
    ensures
        match r {
            Some((value, name, rest)) => equality(input@) == Some(
                (
                    value@,
                    match name {
                        Some(name) => Some(name@),
                        None => None,
                    },
                    rest@,
                ),
            ) && is_rest_of(rest@, input@),
            None => equality(input@) is None,
        },
{
    let chars = chars_of(input);
    let to = chars.len();
    proof {
        assert(chars@.subrange(0, to as int) =~= input@);
    }
    let start = skip_spaces(&chars, 0, to);
    if start == to {
        return None;
    }
    let bounds = identifier_at(&chars, 0, to);
    let from = match bounds {
        Some((_, end)) => end,
        None => start,
    };
    let sign = skip_spaces(&chars, from, to);
    let ghost after = chars@.subrange(sign as int, to as int);
    if sign == to {
        return None;
    }
    proof {
        assert(after[0] == chars[sign as int]);
        assert(after.skip(1) =~= chars@.subrange(sign + 1, to as int));
    }
    if chars[sign] != '=' {
        return None;
    }
    match expression_at(input, &chars, sign + 1, to) {
        Err(_) => None,
        Ok((value, rest)) => {
            proof {
                assert(input@.subrange(rest as int, to as int) =~= input@.skip(rest as int));
            }
            let name = match bounds {
                Some((a, b)) => Some(input.substring_char(a, b)),
                None => None,
            };
            Some((value, name, input.substring_char(rest, to)))
        },
    }
}

} // verus!
