//! From commands to what is placed: kinds, nodes and values.

use crate::builder::{all_terminals, numbered, CircuitBuilder, Layout, NODE_LIMIT};
use crate::component::{
    faults_of, names_of, parameter_faults, supplied_keys, ComponentError, ComponentKind, Fault,
};
use crate::expression::{Expression, Term};
use crate::number::{is_decimal, is_decimal_number};
use crate::parser::{last_binding, placements, Command, Placement};
use crate::si::{si_word, si_word_at};
use crate::text::{chars_of, text_of, texts};
use vstd::prelude::*;

verus! {

/// A number as it is written: its digits, which are a decimal number, and
/// the power of ten that its SI prefix stands for.
#[derive(Debug, PartialEq)]
pub struct Quantity {
    pub digits: String,
    pub exponent: i32,
}

/// The number that an expression writes down: a real number is one, and
/// so is a variable without subscript whose name is a decimal number with
/// an SI prefix. No other expression is a number.
pub open spec fn quantity(term: Term) -> Option<(Seq<char>, int)> {
    match term {
        Term::Real(digits) => if is_decimal(digits) {
            Some((digits, 0))
        } else {
            None
        },
        Term::Variable { name, subscript } => if subscript is None {
            si_word(name)
        } else {
            None
        },
        _ => None,
    }
}

/// The number that an expression writes down, if it writes one.
pub fn quantity_of(expression: &Expression) -> (r: Option<Quantity>)
    ensures
        match r {
            Some(q) => quantity(expression@) == Some((q.digits@, q.exponent as int)),
            None => quantity(expression@) is None,
        },
{
    match expression {
        Expression::Real(digits) => {
            if is_decimal_number(digits.as_str()) {
                Some(Quantity { digits: digits.clone(), exponent: 0 })
            } else {
                None
            }
        },
        Expression::Variable { name, subscript } => {
            if subscript.is_some() {
                return None;
            }
            let chars = chars_of(name.as_str());
            proof {
                assert(chars@.subrange(0, chars.len() as int) =~= name@);
            }
            match si_word_at(&chars, 0, chars.len()) {
                Some((end, exponent)) => Some(
                    Quantity { digits: text_of(name.as_str(), 0, end), exponent },
                ),
                None => None,
            }
        },
        _ => None,
    }
}

/// What is wrong with a command.
#[derive(Debug, PartialEq)]
pub enum PlanFault {
    /// The component is none of the kinds.
    UnknownKind,
    /// The command names another number of nodes than the kind has terminals.
    TerminalCount { expected: usize, found: usize },
    /// Parameters are missing or unused.
    Parameters { errors: Vec<ComponentError> },
    /// The value of a required parameter is no number.
    NotANumber { parameter: String },
}

/// A netlist that cannot be placed.
#[derive(Debug, PartialEq)]
pub enum PlanError {
    /// There are more nodes than indices.
    TooManyNodes,
    /// A command is at fault; commands count from zero.
    Command { command: usize, fault: PlanFault },
}

/// One component to place: its kind, its name, the indices of its nodes, and
/// the values of the parameters that its kind requires, in that order.
#[derive(Debug, PartialEq)]
pub struct Planned {
    pub kind: ComponentKind,
    pub name: Option<String>,
    pub terminals: Vec<u32>,
    pub values: Vec<Quantity>,
}

/// What a `PlanFault` says.
pub enum FaultView {
    UnknownKind,
    TerminalCount { expected: usize, found: usize },
    Parameters(Seq<Fault>),
    NotANumber(Seq<char>),
}

impl View for PlanFault {
    type V = FaultView;

    open spec fn view(&self) -> FaultView {
        match self {
            PlanFault::UnknownKind => FaultView::UnknownKind,
            PlanFault::TerminalCount { expected, found } => FaultView::TerminalCount {
                expected: *expected,
                found: *found,
            },
            PlanFault::Parameters { errors } => FaultView::Parameters(faults_of(errors@)),
            PlanFault::NotANumber { parameter } => FaultView::NotANumber(parameter@),
        }
    }
}

/// The characters of the keys of the parameters.
pub open spec fn keys(parameters: Seq<(Seq<char>, Term)>) -> Seq<Seq<char>> {
    Seq::new(parameters.len(), |i: int| parameters[i].0)
}

/// The number written for a key: that of the last parameter under the key.
pub open spec fn reading(parameters: Seq<(Seq<char>, Term)>, key: Seq<char>) -> Option<
    (Seq<char>, int),
> {
    match last_binding(parameters, key) {
        Some(at) => quantity(parameters[at].1),
        None => None,
    }
}

/// The first of the required parameters, from `from` on, whose value is no number.
pub open spec fn first_unread(
    parameters: Seq<(Seq<char>, Term)>,
    required: Seq<Seq<char>>,
    from: int,
) -> Option<int>
    decreases required.len() - from,
{
    if from < 0 || from >= required.len() {
        None
    } else if reading(parameters, required[from]) is None {
        Some(from)
    } else {
        first_unread(parameters, required, from + 1)
    }
}

/// What is wrong with a command, if anything is: its kind is checked
/// first, then the number of its nodes, then which parameters it gives,
/// then the values of those that its kind requires, in their order.
pub open spec fn fault(p: Placement) -> Option<FaultView> {
    match ComponentKind::named(p.component) {
        None => Some(FaultView::UnknownKind),
        Some(kind) => if p.terminals.len() != kind.terminals() {
            Some(
                FaultView::TerminalCount {
                    expected: kind.terminals() as usize,
                    found: p.terminals.len() as usize,
                },
            )
        } else if parameter_faults(kind.required(), keys(p.parameters)).len() > 0 {
            Some(FaultView::Parameters(parameter_faults(kind.required(), keys(p.parameters))))
        } else {
            match first_unread(p.parameters, kind.required(), 0) {
                Some(at) => Some(FaultView::NotANumber(kind.required()[at])),
                None => None,
            }
        },
    }
}

/// The digits and powers of the quantities.
pub open spec fn readings(values: Seq<Quantity>) -> Seq<Option<(Seq<char>, int)>> {
    Seq::new(values.len(), |i: int| Some((values[i].digits@, values[i].exponent as int)))
}

/// A planned component says what its command says: the kind that the
/// command names, the command's name, and for each parameter that the kind
/// requires the number that the command writes for it.
pub open spec fn plans(planned: Planned, p: Placement) -> bool {
    &&& ComponentKind::named(p.component) == Some(planned.kind)
    &&& crate::circuit::name_view(planned.name) == p.name
    &&& planned.terminals@.len() == p.terminals.len()
    &&& readings(planned.values@) == Seq::new(
        planned.kind.required().len(),
        |i: int| reading(p.parameters, planned.kind.required()[i]),
    )
}

/// Checks a command and reads its values. The nodes are taken as given.
pub fn plan_command(command: &Command, terminals: Vec<u32>) -> (r: Result<Planned, PlanFault>)
    requires
        terminals@.len() == command@.terminals.len(),
    ensures
        match r {
            Ok(planned) => fault(command@) is None && plans(planned, command@) && planned.terminals
                == terminals,
            Err(e) => fault(command@) == Some(e@),
        },
{
    match command {
        Command::Component { component, name, parameters, .. } => {
            let ghost p = command@;
            proof {
                assert(keys(p.parameters) =~= supplied_keys(parameters@));
            }
            let kind = match ComponentKind::from_name(component.as_str()) {
                Some(kind) => kind,
                None => {
                    return Err(PlanFault::UnknownKind);
                },
            };
            if terminals.len() != kind.terminal_count() {
                return Err(
                    PlanFault::TerminalCount {
                        expected: kind.terminal_count(),
                        found: terminals.len(),
                    },
                );
            }
            let errors = kind.check_parameters(parameters);
            if errors.len() > 0 {
                return Err(PlanFault::Parameters { errors });
            }
            let required = kind.required_parameters();
            let mut values: Vec<Quantity> = Vec::new();
            let mut i: usize = 0;
            while i < required.len()
                invariant
                    i <= required.len(),
                    p == command@,
                    names_of(required@) == kind.required(),
                    first_unread(p.parameters, kind.required(), 0) == first_unread(
                        p.parameters,
                        kind.required(),
                        i as int,
                    ),
                    readings(values@) == Seq::new(
                        i as nat,
                        |t: int| reading(p.parameters, kind.required()[t]),
                    ),
                    ComponentKind::named(p.component) == Some(kind),
                    p.terminals.len() == kind.terminals(),
                    parameter_faults(kind.required(), keys(p.parameters)).len() == 0,
                decreases required.len() - i,
            {
                let ghost before = readings(values@);
                proof {
                    assert(names_of(required@)[i as int] == required[i as int]@);
                }
                let read = match command.parameter(required[i]) {
                    Some(expression) => quantity_of(expression),
                    None => None,
                };
                match read {
                    Some(q) => {
                        values.push(q);
                        proof {
                            assert(readings(values@) =~= before.push(
                                reading(p.parameters, kind.required()[i as int]),
                            ));
                            assert(readings(values@) =~= Seq::new(
                                (i + 1) as nat,
                                |t: int| reading(p.parameters, kind.required()[t]),
                            ));
                        }
                    },
                    None => {
                        return Err(PlanFault::NotANumber { parameter: required[i].to_owned() });
                    },
                }
                i += 1;
            }
            let name = match name {
                Some(name) => Some(name.clone()),
                None => None,
            };
            Ok(Planned { kind, name, terminals, values })
        },
    }
}

/// The commands before `upto` are without fault.
pub open spec fn sound_before(commands: Seq<Placement>, upto: int) -> bool {
    forall|c: int| 0 <= c < upto ==> fault(#[trigger] commands[c]) is None
}

impl CircuitBuilder {
    /// Plans the placement of every command: numbers the nodes as `build`
    /// does, checks each command and reads its values. Fails with the
    /// first command that is at fault, or with `TooManyNodes`.
    pub fn plan(&self) -> (r: Result<Vec<Planned>, PlanError>)
        ensures
            match r {
                Ok(planned) => {
                    &&& numbered(all_terminals(self@)).len() <= NODE_LIMIT
                    &&& planned.len() == self@.len()
                    &&& sound_before(self@, self@.len() as int)
                    &&& forall|c: int|
                        0 <= c < planned.len() ==> plans(#[trigger] planned[c], self@[c])
                    &&& forall|c: int, t: int|
                        0 <= c < planned.len() && 0 <= t < self@[c].terminals.len() ==> (
                        #[trigger] planned[c].terminals[t]) < numbered(all_terminals(self@)).len()
                            && numbered(all_terminals(self@))[planned[c].terminals[t] as int]
                            == self@[c].terminals[t]
                },
                Err(PlanError::TooManyNodes) => numbered(all_terminals(self@)).len() > NODE_LIMIT,
                Err(PlanError::Command { command, fault: e }) => {
                    &&& numbered(all_terminals(self@)).len() <= NODE_LIMIT
                    &&& command < self@.len()
                    &&& sound_before(self@, command as int)
                    &&& fault(self@[command as int]) == Some(e@)
                },
            },
    {
        let layout = match self.build() {
            Some(layout) => layout,
            None => {
                return Err(PlanError::TooManyNodes);
            },
        };
        let Layout { nodes, terminals } = layout;
        let ghost rows = terminals@;
        let ghost names = texts(nodes@);
        let commands = self.commands();
        let mut planned: Vec<Planned> = Vec::new();
        let mut c: usize = 0;
        for row in it: terminals
            invariant
                it.seq() == rows,
                c == it.index(),
                rows.len() == self@.len(),
                commands.len() == rows.len(),
                placements(commands@) == self@,
                names == numbered(all_terminals(self@)),
                names.len() <= NODE_LIMIT,
                forall|d: int|
                    0 <= d < self@.len() ==> (#[trigger] rows[d]).len() == self@[d].terminals.len(),
                forall|d: int, t: int|
                    0 <= d < self@.len() && 0 <= t < self@[d].terminals.len() ==> (
                    #[trigger] rows[d][t]) < names.len() && names[rows[d][t] as int]
                        == self@[d].terminals[t],
                planned.len() == c,
                sound_before(self@, c as int),
                forall|d: int| 0 <= d < c ==> plans(#[trigger] planned[d], self@[d]),
                forall|d: int| 0 <= d < c ==> (#[trigger] planned[d]).terminals == rows[d],
        {
            assert(c < rows.len());
            assert(commands[c as int]@ == self@[c as int]);
            assert(row == rows[c as int]);
            match plan_command(&commands[c], row) {
                Ok(one) => {
                    planned.push(one);
                },
                Err(fault) => {
                    return Err(PlanError::Command { command: c, fault });
                },
            }
            c += 1;
        }
        Ok(planned)
    }
}

} // verus!
