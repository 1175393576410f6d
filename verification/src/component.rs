//! Component types: what the assembler has to know of each.

use crate::error::CircuitError;
use crate::expression::Expression;
use crate::numerical::complex::c64;
use crate::numerical::equations::LinearEquations;
use crate::text::{position_of, str_equal};
use vstd::prelude::*;

verus! {

/// The stamping priority of resistors, capacitors and inductors.
pub const PASSIVE_PRIORITY: usize = 10;

/// The stamping priority of sources and of ground. It is higher than that
/// of the passive components, so a source stamps after them and the row it
/// pins stays pinned.
pub const SOURCE_PRIORITY: usize = 25;

/// The component kinds that a netlist can name.
#[derive(Clone, Copy, Debug, PartialEq, Eq, Structural)]
pub enum ComponentKind {
    Resistor,
    Capacitor,
    Inductor,
    DC1Source,
    AC1Source,
    Ground,
}

/// The terminal pairs of a two-terminal admittance block.
pub open spec fn block_pairs() -> Seq<(usize, usize)> {
    seq![(0usize, 0usize), (0usize, 1usize), (1usize, 0usize), (1usize, 1usize)]
}

/// The one terminal pair of a one-terminal source.
pub open spec fn diagonal_pair() -> Seq<(usize, usize)> {
    seq![(0usize, 0usize)]
}

impl ComponentKind {
    /// The kind that a netlist names by `name`.
    pub open spec fn named(name: Seq<char>) -> Option<ComponentKind> {
        if name == "resistor"@ {
            Some(ComponentKind::Resistor)
        } else if name == "capacitor"@ {
            Some(ComponentKind::Capacitor)
        } else if name == "inductor"@ {
            Some(ComponentKind::Inductor)
        } else if name == "dc-source-1-terminal"@ {
            Some(ComponentKind::DC1Source)
        } else if name == "ac-source-1-terminal"@ {
            Some(ComponentKind::AC1Source)
        } else if name == "ground"@ {
            Some(ComponentKind::Ground)
        } else {
            None
        }
    }

    /// The number of terminals.
    pub open spec fn terminals(self) -> nat {
        match self {
            ComponentKind::Resistor | ComponentKind::Capacitor | ComponentKind::Inductor => 2,
            ComponentKind::DC1Source | ComponentKind::AC1Source | ComponentKind::Ground => 1,
        }
    }

    /// The stamping order key: lower stamps first.
    pub open spec fn rank(self) -> nat {
        match self {
            ComponentKind::Resistor | ComponentKind::Capacitor | ComponentKind::Inductor => 10,
            ComponentKind::DC1Source | ComponentKind::AC1Source | ComponentKind::Ground => 25,
        }
    }

    /// The pairs `(i, j)` of terminal positions for which the kind stamps
    /// `A[terminal[i], terminal[j]]`.
    pub open spec fn stamped_pairs(self) -> Seq<(usize, usize)> {
        match self {
            ComponentKind::Resistor | ComponentKind::Capacitor | ComponentKind::Inductor => block_pairs(),
            ComponentKind::DC1Source | ComponentKind::AC1Source | ComponentKind::Ground => diagonal_pair(),
        }
    }

    /// The parameters that a netlist must give for a component of the kind.
    pub open spec fn required(self) -> Seq<Seq<char>> {
        match self {
            ComponentKind::Resistor => seq!["R"@],
            ComponentKind::Capacitor => seq!["C"@],
            ComponentKind::Inductor => seq!["L"@],
            ComponentKind::DC1Source => seq!["V"@],
            ComponentKind::AC1Source => seq!["A"@, "f"@, "phi"@],
            ComponentKind::Ground => Seq::empty(),
        }
    }

    /// The quantities that can be asked of a component of the kind.
    pub open spec fn published(self) -> Seq<Seq<char>> {
        match self {
            ComponentKind::Resistor => seq!["R"@, "V"@, "I"@, "P"@],
            ComponentKind::Capacitor => seq!["C"@, "V"@, "I"@, "P"@],
            ComponentKind::Inductor => seq!["L"@, "V"@, "I"@, "P"@],
            ComponentKind::DC1Source => seq!["V"@],
            ComponentKind::AC1Source => seq!["V"@, "f"@, "phi"@, "t"@],
            ComponentKind::Ground => Seq::empty(),
        }
    }

    /// The kind named `name` in a netlist, if it is the name of a kind.
    pub fn from_name(name: &str) -> (kind: Option<ComponentKind>)
        ensures
            kind == ComponentKind::named(name@),
    {
        if str_equal(name, "resistor") {
            Some(ComponentKind::Resistor)
        } else if str_equal(name, "capacitor") {
            Some(ComponentKind::Capacitor)
        } else if str_equal(name, "inductor") {
            Some(ComponentKind::Inductor)
        } else if str_equal(name, "dc-source-1-terminal") {
            Some(ComponentKind::DC1Source)
        } else if str_equal(name, "ac-source-1-terminal") {
            Some(ComponentKind::AC1Source)
        } else if str_equal(name, "ground") {
            Some(ComponentKind::Ground)
        } else {
            None
        }
    }

    /// The name of the kind in a netlist.
    pub fn name(self) -> (name: &'static str)
        ensures
            ComponentKind::named(name@) == Some(self),
    {
        proof {
            lemma_kind_names_differ();
        }
        match self {
            ComponentKind::Resistor => "resistor",
            ComponentKind::Capacitor => "capacitor",
            ComponentKind::Inductor => "inductor",
            ComponentKind::DC1Source => "dc-source-1-terminal",
            ComponentKind::AC1Source => "ac-source-1-terminal",
            ComponentKind::Ground => "ground",
        }
    }

    /// The number of terminals.
    pub fn terminal_count(self) -> (count: usize)
        ensures
            count == self.terminals(),
    {
        match self {
            ComponentKind::Resistor | ComponentKind::Capacitor | ComponentKind::Inductor => 2,
            ComponentKind::DC1Source | ComponentKind::AC1Source | ComponentKind::Ground => 1,
        }
    }

    /// The stamping order key: lower stamps first.
    pub fn priority(self) -> (priority: usize)
        ensures
            priority == self.rank(),
    {
        match self {
            ComponentKind::Resistor | ComponentKind::Capacitor | ComponentKind::Inductor => PASSIVE_PRIORITY,
            ComponentKind::DC1Source | ComponentKind::AC1Source | ComponentKind::Ground => SOURCE_PRIORITY,
        }
    }

    /// The terminal pairs whose matrix coordinates the kind stamps, and
    /// which are therefore reserved when a component of the kind is placed.
    pub fn active_terminals(self) -> (pairs: Vec<(usize, usize)>)
        ensures
            pairs@ == self.stamped_pairs(),
    {
        let mut pairs: Vec<(usize, usize)> = Vec::new();
        pairs.push((0, 0));
        match self {
            ComponentKind::Resistor | ComponentKind::Capacitor | ComponentKind::Inductor => {
                pairs.push((0, 1));
                pairs.push((1, 0));
                pairs.push((1, 1));
                assert(pairs@ =~= block_pairs());
            },
            ComponentKind::DC1Source | ComponentKind::AC1Source | ComponentKind::Ground => {
                assert(pairs@ =~= diagonal_pair());
            },
        }
        pairs
    }
}

/// The characters of each name.
pub open spec fn names_of(names: Seq<&'static str>) -> Seq<Seq<char>> {
    Seq::new(names.len(), |i: int| names[i]@)
}

impl ComponentKind {
    /// The parameters that a netlist must give for a component of the
    /// kind: `R` for a resistor, `C` for a capacitor, `L` for an inductor,
    /// `V` for a DC source, `A`, `f` and `phi` for an AC source, none for ground.
    pub fn required_parameters(self) -> (names: Vec<&'static str>)
        ensures
            names_of(names@) == self.required(),
    {
        let mut names: Vec<&'static str> = Vec::new();
        match self {
            ComponentKind::Resistor => names.push("R"),
            ComponentKind::Capacitor => names.push("C"),
            ComponentKind::Inductor => names.push("L"),
            ComponentKind::DC1Source => names.push("V"),
            ComponentKind::AC1Source => {
                names.push("A");
                names.push("f");
                names.push("phi");
            },
            ComponentKind::Ground => {},
        }
        assert(names_of(names@) =~= self.required());
        names
    }

    /// The quantities that can be asked of a component of the kind.
    pub fn parameters(self) -> (names: Vec<&'static str>)
        ensures
            names_of(names@) == self.published(),
    {
        let mut names: Vec<&'static str> = Vec::new();
        match self {
            ComponentKind::Resistor => {
                names.push("R");
                names.push("V");
                names.push("I");
                names.push("P");
            },
            ComponentKind::Capacitor => {
                names.push("C");
                names.push("V");
                names.push("I");
                names.push("P");
            },
            ComponentKind::Inductor => {
                names.push("L");
                names.push("V");
                names.push("I");
                names.push("P");
            },
            ComponentKind::DC1Source => names.push("V"),
            ComponentKind::AC1Source => {
                names.push("V");
                names.push("f");
                names.push("phi");
                names.push("t");
            },
            ComponentKind::Ground => {},
        }
        assert(names_of(names@) =~= self.published());
        names
    }

    /// Whether a component of the kind answers to the quantity `name`. A
    /// quantity that it does not publish is not present; asking for it is
    /// no error.
    pub fn publishes(self, name: &str) -> (r: bool)
        ensures
            r == self.published().contains(name@),
    {
        let names = self.parameters();
        let mut i: usize = 0;
        while i < names.len()
            invariant
                i <= names.len(),
                names_of(names@) == self.published(),
                forall|t: int| 0 <= t < i ==> self.published()[t] != name@,
            decreases names.len() - i,
        {
            assert(names_of(names@)[i as int] == names[i as int]@);
            if str_equal(names[i], name) {
                return true;
            }
            i += 1;
        }
        false
    }
}

/// The keys of the parameters that a netlist gives.
pub open spec fn supplied_keys(parameters: Seq<(String, Expression)>) -> Seq<Seq<char>> {
    Seq::new(parameters.len(), |i: int| parameters[i].0@)
}

/// The required parameters that are not supplied, in the order required.
pub open spec fn missing(required: Seq<Seq<char>>, supplied: Seq<Seq<char>>) -> Seq<Seq<char>> {
    required.filter(|name: Seq<char>| !supplied.contains(name))
}

/// The supplied parameters that are not required, in the order supplied.
pub open spec fn unused(required: Seq<Seq<char>>, supplied: Seq<Seq<char>>) -> Seq<Seq<char>> {
    supplied.filter(|name: Seq<char>| !required.contains(name))
}

/// What is wrong with the parameters: first what is missing, then what is unused.
pub open spec fn parameter_faults(required: Seq<Seq<char>>, supplied: Seq<Seq<char>>) -> Seq<Fault> {
    missing(required, supplied).map_values(|name: Seq<char>| Fault::Missing(name)) + unused(
        required,
        supplied,
    ).map_values(|name: Seq<char>| Fault::Unused(name))
}

/// What a `ComponentError` says.
pub enum Fault {
    /// A parameter that is given and not taken.
    Unused(Seq<char>),
    /// A parameter that is needed and not given.
    Missing(Seq<char>),
}

impl View for ComponentError {
    type V = Fault;

    open spec fn view(&self) -> Fault {
        match self {
            ComponentError::UnusedSuppliedParameter { parameter } => Fault::Unused(parameter@),
            ComponentError::MissingRequiredParameter { parameter } => Fault::Missing(parameter@),
        }
    }
}

/// The faults that the errors report.
pub open spec fn faults_of(errors: Seq<ComponentError>) -> Seq<Fault> {
    Seq::new(errors.len(), |i: int| errors[i]@)
}

/// The parameters that each report names.
pub open spec fn missing_of(reports: Seq<MissingRequiredParameter>) -> Seq<Seq<char>> {
    Seq::new(reports.len(), |i: int| reports[i].parameter@)
}

impl ComponentKind {
    /// Whether the netlist gives a parameter under the key `name`.
    fn supplies(parameters: &Vec<(String, Expression)>, name: &str) -> (r: bool)
        ensures
            r == supplied_keys(parameters@).contains(name@),
    {
        let mut i: usize = 0;
        while i < parameters.len()
            invariant
                i <= parameters.len(),
                forall|t: int| 0 <= t < i ==> supplied_keys(parameters@)[t] != name@,
            decreases parameters.len() - i,
        {
            assert(supplied_keys(parameters@)[i as int] == parameters[i as int].0@);
            if str_equal(parameters[i].0.as_str(), name) {
                return true;
            }
            i += 1;
        }
        false
    }

    /// The parameters that a component of the kind needs and the netlist
    /// does not give, in the order in which the kind requires them.
    pub fn missing_parameters(self, parameters: &Vec<(String, Expression)>) -> (reports: Vec<
        MissingRequiredParameter,
    >)
        ensures
            missing_of(reports@) == missing(self.required(), supplied_keys(parameters@)),
    {
        let required = self.required_parameters();
        let ghost supplied = supplied_keys(parameters@);
        let ghost absent = |name: Seq<char>| !supplied.contains(name);
        let mut reports: Vec<MissingRequiredParameter> = Vec::new();
        let mut i: usize = 0;
        proof {
            assert(self.required().take(0) =~= Seq::<Seq<char>>::empty());
            assert(missing_of(reports@) =~= self.required().take(0).filter(absent));
        }
        while i < required.len()
            invariant
                i <= required.len(),
                names_of(required@) == self.required(),
                supplied == supplied_keys(parameters@),
                absent == (|name: Seq<char>| !supplied.contains(name)),
                missing_of(reports@) == self.required().take(i as int).filter(absent),
            decreases required.len() - i,
        {
            let ghost before = missing_of(reports@);
            proof {
                assert(names_of(required@)[i as int] == required[i as int]@);
                let part = self.required().take(i as int);
                assert(self.required().take(i + 1) =~= part.push(required[i as int]@));
                lemma_filter_push(part, required[i as int]@, absent);
            }
            if !ComponentKind::supplies(parameters, required[i]) {
                reports.push(MissingRequiredParameter { parameter: required[i].to_owned() });
                proof {
                    assert(missing_of(reports@) =~= before.push(required[i as int]@));
                }
            }
            i += 1;
        }
        proof {
            assert(self.required().take(i as int) =~= self.required());
        }
        reports
    }

    /// What is wrong with the parameters that a netlist gives for a
    /// component of the kind: each that is needed and not given, in the
    /// order required, and then each that is given and not taken, in the
    /// order given. Nothing is wrong exactly if the result is empty.
    pub fn check_parameters(self, parameters: &Vec<(String, Expression)>) -> (errors: Vec<
        ComponentError,
    >)
        ensures
            faults_of(errors@) == parameter_faults(self.required(), supplied_keys(parameters@)),
    {
        let ghost supplied = supplied_keys(parameters@);
        let ghost wanted = self.required();
        let ghost idle = |name: Seq<char>| !wanted.contains(name);
        let ghost wrap_missing = |name: Seq<char>| Fault::Missing(name);
        let ghost wrap_unused = |name: Seq<char>| Fault::Unused(name);
        let reports = self.missing_parameters(parameters);
        let mut errors: Vec<ComponentError> = Vec::new();
        let mut m: usize = 0;
        while m < reports.len()
            invariant
                m <= reports.len(),
                errors.len() == m,
                forall|t: int|
                    0 <= t < m ==> (#[trigger] errors[t])@ == Fault::Missing(reports[t].parameter@),
            decreases reports.len() - m,
        {
            errors.push(
                ComponentError::MissingRequiredParameter { parameter: reports[m].parameter.clone() },
            );
            m += 1;
        }
        let ghost head = faults_of(errors@);
        proof {
            assert(head =~= missing(wanted, supplied).map_values(wrap_missing));
            assert(supplied.take(0) =~= Seq::<Seq<char>>::empty());
            assert(faults_of(errors@) =~= head + supplied.take(0).filter(idle).map_values(
                wrap_unused,
            ));
        }
        let names = self.required_parameters();
        let mut i: usize = 0;
        while i < parameters.len()
            invariant
                i <= parameters.len(),
                names_of(names@) == wanted,
                wanted == self.required(),
                supplied == supplied_keys(parameters@),
                idle == (|name: Seq<char>| !wanted.contains(name)),
                wrap_unused == (|name: Seq<char>| Fault::Unused(name)),
                faults_of(errors@) == head + supplied.take(i as int).filter(idle).map_values(
                    wrap_unused,
                ),
            decreases parameters.len() - i,
        {
            let ghost before = faults_of(errors@);
            let ghost key = parameters[i as int].0@;
            proof {
                assert(supplied[i as int] == key);
                let part = supplied.take(i as int);
                assert(supplied.take(i + 1) =~= part.push(key));
                lemma_filter_push(part, key, idle);
            }
            let mut taken = false;
            let mut r: usize = 0;
            while r < names.len()
                invariant
                    r <= names.len(),
                    i < parameters.len(),
                    key == parameters[i as int].0@,
                    names_of(names@) == wanted,
                    taken ==> wanted.contains(key),
                    !taken ==> forall|t: int| 0 <= t < r ==> wanted[t] != key,
                decreases names.len() - r,
            {
                assert(names_of(names@)[r as int] == names[r as int]@);
                if str_equal(names[r], parameters[i].0.as_str()) {
                    taken = true;
                }
                r += 1;
            }
            if !taken {
                errors.push(
                    ComponentError::UnusedSuppliedParameter {
                        parameter: parameters[i].0.clone(),
                    },
                );
                proof {
                    assert(faults_of(errors@) =~= before.push(Fault::Unused(key)));
                    let part = supplied.take(i as int).filter(idle);
                    assert(part.push(key).map_values(wrap_unused) =~= part.map_values(
                        wrap_unused,
                    ).push(Fault::Unused(key)));
                }
            }
            i += 1;
        }
        proof {
            assert(supplied.take(i as int) =~= supplied);
        }
        errors
    }
}

/// Filtering a sequence with one more element keeps the element exactly if
/// it passes the filter.
pub proof fn lemma_filter_push(s: Seq<Seq<char>>, last: Seq<char>, keep: spec_fn(Seq<char>) -> bool)
    ensures
        s.push(last).filter(keep) == if keep(last) {
            s.filter(keep).push(last)
        } else {
            s.filter(keep)
        },
{
    reveal(Seq::filter);
    assert(s.push(last).drop_last() =~= s);
}

/// No two kinds share a netlist name.
pub proof fn lemma_kind_names_differ()
    ensures
        ComponentKind::named("resistor"@) == Some(ComponentKind::Resistor),
        ComponentKind::named("capacitor"@) == Some(ComponentKind::Capacitor),
        ComponentKind::named("inductor"@) == Some(ComponentKind::Inductor),
        ComponentKind::named("dc-source-1-terminal"@) == Some(ComponentKind::DC1Source),
        ComponentKind::named("ac-source-1-terminal"@) == Some(ComponentKind::AC1Source),
        ComponentKind::named("ground"@) == Some(ComponentKind::Ground),
{
    reveal_strlit("resistor");
    reveal_strlit("capacitor");
    reveal_strlit("inductor");
    reveal_strlit("dc-source-1-terminal");
    reveal_strlit("ac-source-1-terminal");
    reveal_strlit("ground");
    assert("resistor"@[0] == 'r');
    assert("capacitor"@[0] == 'c');
    assert("inductor"@[0] == 'i');
    assert("dc-source-1-terminal"@[0] == 'd');
    assert("ac-source-1-terminal"@[0] == 'a');
    assert("ground"@[0] == 'g');
}

/// Every kind stamps only between its own terminals.
pub proof fn lemma_stamped_pairs_within(kind: ComponentKind, t: int)
    requires
        0 <= t < kind.stamped_pairs().len(),
    ensures
        kind.stamped_pairs()[t].0 < kind.terminals(),
        kind.stamped_pairs()[t].1 < kind.terminals(),
{
}

/// Sources and ground stamp after every passive kind.
pub proof fn lemma_sources_stamp_last(kind: ComponentKind, other: ComponentKind)
    requires
        kind.terminals() == 2,
        other.terminals() == 1,
    ensures
        kind.rank() < other.rank(),
{
}

/// The reference node. Its stamp pins the node's voltage to zero.
#[derive(Clone, Copy, Debug, Default)]
pub struct Ground;

impl Ground {
    /// The kind of every ground.
    pub fn kind(&self) -> (kind: ComponentKind)
        ensures
            kind == ComponentKind::Ground,
    {
        ComponentKind::Ground
    }

    /// Pins the voltage of the node to zero: clears the node's row,
    /// sets `A[n, n] <- 1` and `b[n] <- 0`. Fails, and changes nothing,
    /// where `(n, n)` has no storage.
    pub fn stamp(&self, le: &mut LinearEquations, terminals: [u32; 1]) -> (r: Result<
        (),
        CircuitError,
    >)
        requires
            old(le)@.wf(),
        ensures
            r is Ok <==> old(le)@.reserved().contains((terminals[0], terminals[0])),
            r is Ok ==> final(le)@ == old(le)@.pinned(terminals[0], c64::zero()),
            r is Err ==> r == Err::<(), CircuitError>(
                CircuitError::UnreservedCoordinate { row: terminals[0], col: terminals[0] },
            ) && final(le)@ == old(le)@,
            final(le)@.wf(),
    {
        le.pin_node(terminals[0], c64::zero())
    }
}

/// A parameter that a component needs and the netlist does not give.
#[derive(Debug, PartialEq)]
pub struct MissingRequiredParameter {
    pub parameter: String,
}

/// What is wrong with the parameters given for a component.
#[derive(Debug, PartialEq)]
pub enum ComponentError {
    /// The netlist gives a parameter that the component does not take.
    UnusedSuppliedParameter { parameter: String },
    /// The netlist does not give a parameter that the component needs.
    MissingRequiredParameter { parameter: String },
}

/// The component names that a netlist may use, each with its number of terminals.
pub struct ComponentLibrary {
    names: Vec<String>,
    terminal_counts: Vec<usize>,
}

impl View for ComponentLibrary {
    type V = Map<Seq<char>, usize>;

    closed spec fn view(&self) -> Map<Seq<char>, usize> {
        Map::new(
            |name: Seq<char>| exists|i: int| 0 <= i < self.names.len() && self.names[i]@ == name,
            |name: Seq<char>|
                self.terminal_counts[choose|i: int|
                    0 <= i < self.names.len() && self.names[i]@ == name],
        )
    }
}

impl ComponentLibrary {
    /// No name occurs twice, and each has its count.
    pub closed spec fn wf(&self) -> bool {
        &&& self.names.len() == self.terminal_counts.len()
        &&& forall|i: int, j: int|
            0 <= i < j < self.names.len() ==> self.names[i]@ != self.names[j]@
    }

    /// The library that knows no component.
    pub fn new() -> (library: ComponentLibrary)
        ensures
            library.wf(),
            library@ =~= Map::<Seq<char>, usize>::empty(),
    {
        ComponentLibrary { names: Vec::new(), terminal_counts: Vec::new() }
    }

    /// Makes `name` the name of a component with `terminal_count` terminals.
    /// A name that is known already gets the new count.
    pub fn register_component(&mut self, name: &str, terminal_count: usize)
        requires
            old(self).wf(),
        ensures
            final(self).wf(),
            final(self)@ =~= old(self)@.insert(name@, terminal_count),
    {
        match position_of(&self.names, name) {
            Some(i) => {
                self.terminal_counts.set(i, terminal_count);
                proof {
                    assert forall|n: Seq<char>| self@.dom().contains(n) implies self@[n] == old(
                        self,
                    )@.insert(name@, terminal_count)[n] by {
                        let t = choose|t: int| 0 <= t < self.names.len() && self.names[t]@ == n;
                        let u = choose|u: int|
                            0 <= u < old(self).names.len() && old(self).names[u]@ == n;
                        assert(self.names[u]@ == n);
                        assert(t == u);
                    }
                    assert(self@.dom() =~= old(self)@.insert(name@, terminal_count).dom()) by {
                        assert(self.names[i as int]@ == name@);
                    }
                }
            },
            None => {
                self.names.push(name.to_owned());
                self.terminal_counts.push(terminal_count);
                proof {
                    let last = old(self).names.len() as int;
                    assert(self.names[last]@ == name@);
                    assert forall|n: Seq<char>| self@.dom().contains(n) implies self@[n] == old(
                        self,
                    )@.insert(name@, terminal_count)[n] by {
                        let t = choose|t: int| 0 <= t < self.names.len() && self.names[t]@ == n;
                        if n != name@ {
                            let u = choose|u: int|
                                0 <= u < old(self).names.len() && old(self).names[u]@ == n;
                            assert(self.names[u]@ == n);
                            assert(t == u);
                        }
                    }
                    assert forall|n: Seq<char>|
                        self@.dom().contains(n) <==> old(self)@.insert(
                            name@,
                            terminal_count,
                        ).dom().contains(n) by {
                        if old(self)@.dom().contains(n) {
                            let u = choose|u: int|
                                0 <= u < old(self).names.len() && old(self).names[u]@ == n;
                            assert(self.names[u]@ == n);
                        }
                        if self@.dom().contains(n) {
                            let t = choose|t: int| 0 <= t < self.names.len() && self.names[t]@ == n;
                            if t < last {
                                assert(old(self).names[t]@ == n);
                            }
                        }
                    }
                }
            },
        }
        assert(self@ =~= old(self)@.insert(name@, terminal_count));
    }

    /// The number of terminals of the component named `component_name`, or
    /// `None` for a name that was not registered.
    pub fn terminal_count_of(&self, component_name: &str) -> (count: Option<usize>)
        requires
            self.wf(),
        ensures
            count is Some <==> self@.dom().contains(component_name@),
            count is Some ==> count->0 == self@[component_name@],
    {
        match position_of(&self.names, component_name) {
            Some(i) => {
                proof {
                    let t = choose|t: int|
                        0 <= t < self.names.len() && self.names[t]@ == component_name@;
                    assert(t == i);
                }
                Some(self.terminal_counts[i])
            },
            None => None,
        }
    }

    /// The library of the six kinds, each under its netlist name.
    pub fn standard() -> (library: ComponentLibrary)
        ensures
            library.wf(),
            forall|name: Seq<char>|
                library@.dom().contains(name) <==> ComponentKind::named(name) is Some,
            forall|name: Seq<char>|
                ComponentKind::named(name) is Some ==> library@[name] == ComponentKind::named(
                    name,
                )->0.terminals(),
    {
        let mut library = ComponentLibrary::new();
        proof {
            lemma_kind_names_differ();
        }
        library.register_component(ComponentKind::Resistor.name(), 2);
        library.register_component(ComponentKind::Capacitor.name(), 2);
        library.register_component(ComponentKind::Inductor.name(), 2);
        library.register_component(ComponentKind::DC1Source.name(), 1);
        library.register_component(ComponentKind::AC1Source.name(), 1);
        library.register_component(ComponentKind::Ground.name(), 1);
        library
    }
}

} // verus!
