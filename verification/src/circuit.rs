//! The circuit assembler: the linear system, the component stores by type,
//! and the names under which components can be probed.

use crate::buffer::PackedRecords;
use crate::component::diagonal_pair;
use crate::error::CircuitError;
use crate::numerical::complex::c64;
use crate::numerical::laws::lemma_pinned_row;
use crate::numerical::equations::{addressable, LinearEquations, LinearSystem};
use crate::store::{
    lemma_store_pushed, stamped_coordinates, ComponentType, Components, Placed,
};
use crate::text::position_of;
use vstd::prelude::*;

verus! {

/// One step of a tick.
#[derive(Clone, Copy, Debug, PartialEq, Eq, Structural)]
pub enum Action {
    /// Zero `A` and `b`; keep the pattern and `x`.
    Reset,
    /// Let every component of the store stamp into `A` and `b`.
    Stamp { store: usize },
    /// Solve `A x = b`, starting from the `x` of the last tick.
    Solve,
    /// Let every component of the store read `x` and update its state.
    PostStamp { store: usize },
}

/// The steps of one tick for stores that stamp in the given order: a
/// reset, the stamps, the solve, the post-stamps.
pub open spec fn tick(order: Seq<usize>) -> Seq<Action> {
    seq![Action::Reset] + Seq::new(order.len(), |i: int| Action::Stamp { store: order[i] })
        + seq![Action::Solve] + Seq::new(
        order.len(),
        |i: int| Action::PostStamp { store: order[i] },
    )
}

/// Where a placed component is: in which store, and at which position in it.
/// A locator stays valid as long as the circuit lives.
#[derive(Clone, Copy, Debug, PartialEq, Eq, Structural)]
pub struct Locator {
    pub store: usize,
    pub index: usize,
}

/// What a circuit holds: one store for each component type, in the order
/// in which the types were first placed, the names given to components,
/// and the linear system.
pub struct Assembly {
    /// The stores, one for each type.
    pub stores: Seq<Placed>,
    /// The names, each with the component it names, in the order they were given.
    pub names: Seq<(Seq<char>, Locator)>,
    /// The nodal equations `A x = b`.
    pub equations: LinearSystem,
}

/// The empty store of a type.
pub open spec fn empty_store(component_type: ComponentType) -> Placed {
    Placed {
        component_type,
        records: PackedRecords {
            bytes: Seq::empty(),
            stride: component_type.stride(),
            type_id: component_type.type_id,
        },
        terminals: Seq::empty(),
    }
}

impl Assembly {
    /// Store `s` holds the components of the type with the key `type_id`.
    pub open spec fn holds(self, s: int, type_id: u64) -> bool {
        0 <= s < self.stores.len() && self.stores[s].component_type.type_id == type_id
    }

    /// The store of the type with the key `type_id`, if the circuit has one.
    pub open spec fn store_of(self, type_id: u64) -> Option<int> {
        if exists|s: int| self.holds(s, type_id) {
            Some(choose|s: int| self.holds(s, type_id))
        } else {
            None
        }
    }

    /// The matrix coordinates that component `k` of store `s` stamps.
    pub open spec fn stamps(self, s: int, k: int) -> Seq<(u32, u32)> {
        stamped_coordinates(
            self.stores[s].component_type.active_terminals@,
            self.stores[s].terminals_of(k),
        )
    }

    /// Component `k` of store `s` exists.
    pub open spec fn has(self, s: int, k: int) -> bool {
        0 <= s < self.stores.len() && 0 <= k < self.stores[s].len()
    }

    /// Every store is well formed, no two stores hold the same type, every
    /// name names a component that exists, the linear system is well
    /// formed, and every coordinate that a placed component stamps has
    /// storage in the matrix.
    pub open spec fn wf(self) -> bool {
        &&& self.equations.wf()
        &&& forall|s: int, k: int, t: int|
            self.has(s, k) && 0 <= t < self.stamps(s, k).len() ==> self.equations.reserved().contains(
                #[trigger] self.stamps(s, k)[t],
            )
        &&& forall|s: int| 0 <= s < self.stores.len() ==> (#[trigger] self.stores[s]).wf()
        &&& forall|s: int, r: int|
            0 <= s < r < self.stores.len() ==> (#[trigger] self.stores[s]).component_type.type_id
                != (#[trigger] self.stores[r]).component_type.type_id
        &&& forall|i: int|
            0 <= i < self.names.len() ==> self.has(
                (#[trigger] self.names[i]).1.store as int,
                self.names[i].1.index as int,
            )
    }

    /// The number of stores and the number of components of each store fit
    /// the machine word, so a locator names each component exactly.
    pub open spec fn fits(self) -> bool {
        &&& self.stores.len() <= usize::MAX
        &&& forall|s: int| 0 <= s < self.stores.len() ==> (#[trigger] self.stores[s]).len()
            <= usize::MAX
    }

    /// The circuit with a store for the type: the circuit itself where it
    /// has such a store, else the circuit with an empty store added at the end.
    pub open spec fn registered(self, component_type: ComponentType) -> Assembly {
        if self.store_of(component_type.type_id) is Some {
            self
        } else {
            Assembly { stores: self.stores.push(empty_store(component_type)), ..self }
        }
    }

    /// The circuit with one more component in store `s`, named if a name is
    /// given. The linear system is left as it is.
    pub open spec fn placed(
        self,
        s: int,
        record: Seq<u8>,
        terminals: Seq<u32>,
        name: Option<Seq<char>>,
    ) -> Assembly {
        Assembly {
            stores: self.stores.update(s, self.stores[s].pushed(record, terminals)),
            names: match name {
                Some(name) => self.names.push(
                    (name, Locator { store: s as usize, index: self.stores[s].len() as usize }),
                ),
                None => self.names,
            },
            ..self
        }
    }

    /// Store `a` stamps before store `b`: it has the lower priority, or the
    /// same priority and was registered first.
    pub open spec fn precedes(self, a: int, b: int) -> bool {
        let p = self.stores[a].component_type.priority;
        let q = self.stores[b].component_type.priority;
        p < q || (p == q && a < b)
    }

    /// `order` lists every store once, each before the stores it precedes.
    pub open spec fn is_stamp_order(self, order: Seq<usize>) -> bool {
        &&& order.len() == self.stores.len()
        &&& forall|i: int| 0 <= i < order.len() ==> (#[trigger] order[i]) < self.stores.len()
        &&& forall|i: int, j: int|
            0 <= i < j < order.len() ==> self.precedes(
                (#[trigger] order[i]) as int,
                (#[trigger] order[j]) as int,
            )
        &&& forall|s: usize| s < self.stores.len() ==> order.contains(s)
    }

    /// The description under which the circuit stores, or would store, the
    /// type: the one it was first registered with.
    pub open spec fn type_of(self, component_type: ComponentType) -> ComponentType {
        match self.store_of(component_type.type_id) {
            Some(s) => self.stores[s].component_type,
            None => component_type,
        }
    }

    /// The component to ask for a quantity: the one that was first given
    /// the name, if its type publishes the quantity.
    pub open spec fn probed(self, name: Seq<char>, parameter: Seq<char>) -> Option<Locator> {
        match self.located(name) {
            Some(at) => if self.stores[at.store as int].component_type.publishing(parameter) {
                Some(at)
            } else {
                None
            },
            None => None,
        }
    }

    /// The component that was first given the name, if any was.
    pub open spec fn located(self, name: Seq<char>) -> Option<Locator> {
        if exists|i: int| 0 <= i < self.names.len() && self.names[i].0 == name {
            let first = choose|i: int|
                0 <= i < self.names.len() && self.names[i].0 == name && forall|j: int|
                    0 <= j < i ==> self.names[j].0 != name;
            Some(self.names[first].1)
        } else {
            None
        }
    }
}

/// The characters of a name, if there is one.
pub open spec fn name_view(name: Option<String>) -> Option<Seq<char>> {
    match name {
        Some(name) => Some(name@),
        None => None,
    }
}

/// In a well-formed circuit the store of a type is the only one that holds it.
pub proof fn lemma_store_of(m: Assembly, s: int, type_id: u64)
    requires
        m.wf(),
        m.holds(s, type_id),
    ensures
        m.store_of(type_id) == Some(s),
{
    let r = choose|r: int| m.holds(r, type_id);
    if r < s {
        assert(m.stores[r].component_type.type_id != m.stores[s].component_type.type_id);
    }
    if s < r {
        assert(m.stores[s].component_type.type_id != m.stores[r].component_type.type_id);
    }
}

/// The system after the nodes were pinned, one after the other, each to its value.
pub open spec fn pinned_all(m: LinearSystem, nodes: Seq<u32>, values: Seq<c64>) -> LinearSystem
    decreases nodes.len(),
{
    if nodes.len() == 0 {
        m
    } else {
        pinned_all(m, nodes.drop_last(), values.drop_last()).pinned(nodes.last(), values.last())
    }
}

/// Every coordinate that a placed component stamps has storage: stamping
/// a placed component cannot meet an unreserved coordinate.
pub proof fn lemma_placed_coordinates_reserved(m: Assembly, s: int, k: int, t: int)
    requires
        m.wf(),
        m.has(s, k),
        0 <= t < m.stores[s].component_type.active_terminals@.len(),
    ensures
        m.equations.reserved().contains(m.stamps(s, k)[t]),
        m.stamps(s, k)[t] == (
            m.stores[s].terminals_of(k)[m.stores[s].component_type.active_terminals@[t].0 as int],
            m.stores[s].terminals_of(k)[m.stores[s].component_type.active_terminals@[t].1 as int],
        ),
        m.stamps(s, k)[t].0 < m.equations.dim(),
        m.stamps(s, k)[t].1 < m.equations.dim(),
{
    let p = m.stamps(s, k)[t];
    assert(m.equations.reserved().contains(p));
    let at = m.equations.coord_map[p] as int;
    assert(m.equations.in_row(p.0 as int, at));
    assert(m.equations.row_pointers[p.0 + 1] <= m.equations.row_pointers[m.equations.dim() as int]);
}

/// Two stamp orders of one circuit agree up to any position.
proof fn lemma_stamp_orders_agree(m: Assembly, first: Seq<usize>, second: Seq<usize>, upto: int)
    requires
        m.is_stamp_order(first),
        m.is_stamp_order(second),
        0 <= upto <= first.len(),
    ensures
        first.take(upto) == second.take(upto),
    decreases upto,
{
    if upto > 0 {
        let i = upto - 1;
        lemma_stamp_orders_agree(m, first, second, i);
        let a = first[i];
        let b = second[i];
        if a != b {
            assert(second.contains(a));
            let p = choose|p: int| 0 <= p < second.len() && second[p] == a;
            if p < i {
                assert(first.take(i)[p] == second.take(i)[p]);
                assert(m.precedes(first[p] as int, first[i] as int));
            }
            assert(m.precedes(second[i] as int, second[p] as int));
            assert(first.contains(b));
            let q = choose|q: int| 0 <= q < first.len() && first[q] == b;
            if q < i {
                assert(first.take(i)[q] == second.take(i)[q]);
                assert(m.precedes(second[q] as int, second[i] as int));
            }
            assert(m.precedes(first[i] as int, first[q] as int));
        }
        assert(first.take(upto) =~= first.take(i).push(a));
        assert(second.take(upto) =~= second.take(i).push(b));
    }
}

/// A circuit has one stamp order.
pub proof fn lemma_stamp_order_unique(m: Assembly, first: Seq<usize>, second: Seq<usize>)
    requires
        m.is_stamp_order(first),
        m.is_stamp_order(second),
    ensures
        first == second,
{
    lemma_stamp_orders_agree(m, first, second, first.len() as int);
    assert(first.take(first.len() as int) =~= first);
    assert(second.take(second.len() as int) =~= second);
}

/// A store of lower priority stamps before every store of higher priority,
/// whenever the two were registered.
pub proof fn lemma_stamps_by_priority(m: Assembly, order: Seq<usize>, i: int, j: int)
    requires
        m.is_stamp_order(order),
        0 <= i < order.len(),
        0 <= j < order.len(),
        m.stores[order[i] as int].component_type.priority
            < m.stores[order[j] as int].component_type.priority,
    ensures
        i < j,
{
    if j < i {
        assert(m.precedes(order[j] as int, order[i] as int));
    }
}

/// A tick resets first, then stamps every store, then solves, then lets
/// every store post-stamp: no stamp comes after the solve and no
/// post-stamp before it.
pub proof fn lemma_tick_shape(order: Seq<usize>)
    ensures
        tick(order).len() == 2 * order.len() + 2,
        tick(order)[0] == Action::Reset,
        forall|i: int|
            0 <= i < order.len() ==> #[trigger] tick(order)[1 + i] == (Action::Stamp {
                store: order[i],
            }),
        tick(order)[1 + order.len() as int] == Action::Solve,
        forall|i: int|
            0 <= i < order.len() ==> #[trigger] tick(order)[2 + order.len() as int + i]
                == (Action::PostStamp { store: order[i] }),
{
}

/// The time-domain circuit: a linear system together with the components
/// that stamp into it.
pub struct Circuit {
    names: Vec<String>,
    locators: Vec<Locator>,
    circuit: Vec<Components>,
    equations: LinearEquations,
}

impl View for Circuit {
    type V = Assembly;

    closed spec fn view(&self) -> Assembly {
        Assembly {
            stores: Seq::new(self.circuit.len() as nat, |s: int| self.circuit[s]@),
            names: Seq::new(self.names.len() as nat, |i: int| (self.names[i]@, self.locators[i])),
            equations: self.equations@,
        }
    }
}

impl Circuit {
    /// Name and locator vectors run in parallel.
    pub closed spec fn paired(&self) -> bool {
        self.names.len() == self.locators.len()
    }

    /// The circuit is well formed: what it holds is, and it holds no more
    /// than can be counted.
    pub open spec fn wf(&self) -> bool {
        &&& self.paired()
        &&& self@.wf()
        &&& self@.fits()
    }

    /// Stores that are well formed can be counted.
    proof fn lemma_fits(&self)
        requires
            forall|s: int| 0 <= s < self@.stores.len() ==> (#[trigger] self@.stores[s]).wf(),
        ensures
            self@.fits(),
    {
        assert(self@.stores.len() == self.circuit.len());
        assert forall|s: int| 0 <= s < self@.stores.len() implies (#[trigger] self@.stores[s]).len()
            <= usize::MAX by {
            assert(self@.stores[s] == self.circuit[s]@);
            self.circuit[s].lemma_len_fits();
        }
    }

    /// The nodal equations.
    pub fn equations(&self) -> (equations: &LinearEquations)
        ensures
            equations@ == self@.equations,
    {
        &self.equations
    }

    /// The nodal equations, for stamping and solving. Stamps and solves
    /// change values only and so keep the circuit well formed; whoever
    /// changes the pattern through this reference has to see to it that
    /// every coordinate of a placed component keeps its storage.
    pub fn equations_mut(&mut self) -> (equations: &mut LinearEquations)
        ensures
            equations@ == old(self)@.equations,
            final(self)@ == (Assembly { equations: final(equations)@, ..old(self)@ }),
            final(self).paired() == old(self).paired(),
    {
        &mut self.equations
    }

    /// The circuit without components, over the system without unknowns.
    pub fn new() -> (circuit: Circuit)
        ensures
            circuit.wf(),
            circuit@.stores.len() == 0,
            circuit@.names.len() == 0,
            circuit@.equations.dim() == 0,
            circuit@.equations.nnz() == 0,
    {
        Circuit {
            names: Vec::new(),
            locators: Vec::new(),
            circuit: Vec::new(),
            equations: LinearEquations::new(),
        }
    }

    /// The position of the store of the type with the key `type_id`.
    pub fn store_of(&self, type_id: u64) -> (r: Option<usize>)
        requires
            self.wf(),
        ensures
            r is Some <==> self@.store_of(type_id) is Some,
            r is Some ==> r->0 == self@.store_of(type_id)->0,
    {
        let mut s: usize = 0;
        while s < self.circuit.len()
            invariant
                s <= self.circuit.len(),
                self.wf(),
                forall|r: int| 0 <= r < s ==> !self@.holds(r, type_id),
            decreases self.circuit.len() - s,
        {
            if self.circuit[s].component_type().type_id == type_id {
                proof {
                    assert(self@.holds(s as int, type_id));
                    lemma_store_of(self@, s as int, type_id);
                }
                return Some(s);
            }
            s += 1;
        }
        None
    }

    /// Makes sure that the circuit has a store for the type and gives its
    /// position. A type that has a store keeps it, with the description it
    /// was first given.
    pub fn register(&mut self, component_type: ComponentType) -> (s: usize)
        requires
            old(self).wf(),
            component_type.wf(),
        ensures
            final(self).wf(),
            final(self)@ == old(self)@.registered(component_type),
            final(self)@.store_of(component_type.type_id) == Some(s as int),
            old(self)@.store_of(component_type.type_id) is None ==> s == old(self)@.stores.len(),
            final(self)@.equations == old(self)@.equations,
    {
        match self.store_of(component_type.type_id) {
            Some(s) => s,
            None => {
                let ghost type_id = component_type.type_id;
                let store = Components::new(component_type);
                proof {
                    assert(store@.records.bytes =~= Seq::<u8>::empty());
                    assert(store@.terminals =~= Seq::<u32>::empty());
                    assert(store@ == empty_store(component_type));
                }
                self.circuit.push(store);
                let s = self.circuit.len() - 1;
                proof {
                    let m = self@;
                    let before = old(self)@;
                    assert(m.stores =~= before.stores.push(empty_store(component_type)));
                    assert(m.names =~= before.names);
                    assert forall|a: int, b: int| 0 <= a < b < m.stores.len() implies (
                    #[trigger] m.stores[a]).component_type.type_id != (
                    #[trigger] m.stores[b]).component_type.type_id by {
                        if b == s {
                            if m.stores[a].component_type.type_id == type_id {
                                assert(before.holds(a, type_id));
                            }
                        } else {
                            assert(before.stores[a].component_type.type_id
                                != before.stores[b].component_type.type_id);
                        }
                    }
                    assert forall|i: int| 0 <= i < m.names.len() implies m.has(
                        (#[trigger] m.names[i]).1.store as int,
                        m.names[i].1.index as int,
                    ) by {
                        assert(before.has(
                            before.names[i].1.store as int,
                            before.names[i].1.index as int,
                        ));
                    }
                    crate::buffer::lemma_len_of_multiple(empty_store(component_type).records, 0);
                    assert forall|a: int, k: int, t: int|
                        m.has(a, k) && 0 <= t < m.stamps(a, k).len()
                            implies m.equations.reserved().contains(
                        #[trigger] m.stamps(a, k)[t],
                    ) by {
                        assert(a < s);
                        assert(before.has(a, k));
                        assert(m.stamps(a, k) == before.stamps(a, k));
                        assert(before.equations.reserved().contains(before.stamps(a, k)[t]));
                    }
                    assert(m.holds(s as int, type_id));
                    lemma_store_of(m, s as int, type_id);
                }
                s
            },
        }
    }

    /// The matrix coordinates that a component of the given active pairs
    /// stamps when it stands on the given nodes.
    fn coordinates(pairs: &Vec<(usize, usize)>, terminals: &[u32]) -> (coordinates: Vec<(u32, u32)>)
        requires
            forall|t: int|
                0 <= t < pairs.len() ==> (#[trigger] pairs[t]).0 < terminals@.len() && pairs[t].1
                    < terminals@.len(),
        ensures
            coordinates@ == stamped_coordinates(pairs@, terminals@),
    {
        let mut coordinates: Vec<(u32, u32)> = Vec::new();
        let mut t: usize = 0;
        while t < pairs.len()
            invariant
                t <= pairs.len(),
                forall|t: int|
                    0 <= t < pairs.len() ==> (#[trigger] pairs[t]).0 < terminals@.len()
                        && pairs[t].1 < terminals@.len(),
                coordinates@ == stamped_coordinates(pairs@, terminals@).take(t as int),
            decreases pairs.len() - t,
        {
            let p = pairs[t];
            coordinates.push((terminals[p.0], terminals[p.1]));
            proof {
                let all = stamped_coordinates(pairs@, terminals@);
                assert(all.take(t + 1) =~= all.take(t as int).push(all[t as int]));
            }
            t += 1;
        }
        proof {
            let all = stamped_coordinates(pairs@, terminals@);
            assert(all.take(t as int) =~= all);
        }
        coordinates
    }

    /// Places a component: reserves the matrix coordinates that it stamps,
    /// appends its record and its terminals to the store of its type, and
    /// records its name if it has one.
    ///
    /// The type gets a store if it has none yet. The linear system is laid
    /// out anew over its old coordinates and the new ones, with `N` grown as
    /// far as the terminals need and all values zero. A component on
    /// another number of nodes than its type has terminals is refused, and
    /// nothing changes.
    pub fn put_raw(
        &mut self,
        component_type: ComponentType,
        record: &[u8],
        name: Option<String>,
        terminals: &[u32],
    ) -> (r: Result<Locator, CircuitError>)
        requires
            old(self).wf(),
            component_type.wf(),
            record@.len() <= old(self)@.type_of(component_type).stride(),
            forall|t: int| 0 <= t < terminals@.len() ==> addressable(#[trigger] terminals@[t]),
        ensures
            final(self).wf(),
            terminals@.len() != old(self)@.type_of(component_type).terminal_count ==> r == Err::<
                Locator,
                CircuitError,
            >(
                CircuitError::TerminalCountMismatch {
                    expected: old(self)@.type_of(component_type).terminal_count,
                    found: terminals@.len() as usize,
                },
            ) && final(self)@ == old(self)@,
            terminals@.len() == old(self)@.type_of(component_type).terminal_count ==> {
                let registered = old(self)@.registered(component_type);
                let s = registered.store_of(component_type.type_id)->0;
                let placed = registered.placed(s, record@, terminals@, name_view(name));
                &&& r == Ok::<Locator, CircuitError>(
                    Locator { store: s as usize, index: registered.stores[s].len() as usize },
                )
                &&& final(self)@.stores == placed.stores
                &&& final(self)@.names == placed.names
                &&& final(self)@.equations.reserved() =~= old(self)@.equations.reserved().union(
                    stamped_coordinates(
                        old(self)@.type_of(component_type).active_terminals@,
                        terminals@,
                    ).to_set(),
                )
                &&& final(self)@.equations.dim() >= old(self)@.equations.dim()
                &&& final(self)@.equations.a_is_zero()
                &&& final(self)@.equations.x_is_zero()
                &&& final(self)@.equations.b_is_zero()
            },
    {
        let ghost stored = self@.type_of(component_type);
        let ghost type_id = component_type.type_id;
        let expected = match self.store_of(component_type.type_id) {
            Some(s) => self.circuit[s].component_type().terminal_count,
            None => component_type.terminal_count,
        };
        if terminals.len() != expected {
            return Err(
                CircuitError::TerminalCountMismatch { expected, found: terminals.len() },
            );
        }
        let s = self.register(component_type);
        let ghost registered = self@;
        assert(registered.holds(s as int, type_id));
        assert(registered.stores[s as int].component_type == stored);
        let coordinates = Circuit::coordinates(
            &self.circuit[s].component_type().active_terminals,
            terminals,
        );
        proof {
            assert forall|t: int| 0 <= t < coordinates.len() implies addressable(
                (#[trigger] coordinates[t]).0,
            ) && addressable(coordinates[t].1) by {}
        }
        self.equations.add_coordinates(coordinates);
        let index = self.circuit[s].len();
        self.circuit[s].push(record, terminals);
        let locator = Locator { store: s, index };
        match name {
            Some(name) => {
                self.names.push(name);
                self.locators.push(locator);
            },
            None => {},
        }
        proof {
            let m = self@;
            let placed = registered.placed(s as int, record@, terminals@, name_view(name));
            lemma_store_pushed(registered.stores[s as int], record@, terminals@);
            assert(m.stores =~= placed.stores);
            assert(m.names =~= placed.names);
            assert forall|a: int, b: int| 0 <= a < b < m.stores.len() implies (
            #[trigger] m.stores[a]).component_type.type_id != (
            #[trigger] m.stores[b]).component_type.type_id by {
                assert(registered.stores[a].component_type.type_id
                    != registered.stores[b].component_type.type_id);
            }
            assert forall|i: int| 0 <= i < m.names.len() implies m.has(
                (#[trigger] m.names[i]).1.store as int,
                m.names[i].1.index as int,
            ) by {
                if i < registered.names.len() {
                    assert(registered.has(
                        registered.names[i].1.store as int,
                        registered.names[i].1.index as int,
                    ));
                }
            }
            assert forall|a: int, k: int, t: int|
                m.has(a, k) && 0 <= t < m.stamps(a, k).len() implies m.equations.reserved().contains(
                #[trigger] m.stamps(a, k)[t],
            ) by {
                if a == s && k == index {
                    assert(m.stamps(a, k) == coordinates@);
                    assert(coordinates@.contains(coordinates@[t]));
                } else {
                    assert(registered.has(a, k));
                    assert(m.stamps(a, k) == registered.stamps(a, k));
                    assert(registered.equations.reserved().contains(registered.stamps(a, k)[t]));
                }
            }
        }
        proof {
            self.lemma_fits();
        }
        assert(self.wf());
        Ok(locator)
    }

    /// The component that was first given the name `name`, if any was.
    pub fn locate(&self, name: &str) -> (r: Option<Locator>)
        requires
            self.wf(),
        ensures
            r == self@.located(name@),
            r is Some ==> self@.has(r->0.store as int, r->0.index as int),
    {
        match position_of(&self.names, name) {
            Some(i) => {
                proof {
                    let m = self@;
                    assert(m.names[i as int].0 == name@);
                    let first = choose|f: int|
                        0 <= f < m.names.len() && m.names[f].0 == name@ && forall|j: int|
                            0 <= j < f ==> m.names[j].0 != name@;
                    assert forall|j: int| 0 <= j < i implies m.names[j].0 != name@ by {
                        assert(self.names[j]@ != name@);
                    }
                    if first < i {
                        assert(self.names[first]@ != name@);
                    }
                    if i < first {
                        assert(m.names[i as int].0 != name@);
                    }
                    assert(m.has(m.names[i as int].1.store as int, m.names[i as int].1.index as int));
                }
                Some(self.locators[i])
            },
            None => {
                proof {
                    let m = self@;
                    if exists|i: int| 0 <= i < m.names.len() && m.names[i].0 == name@ {
                        let i = choose|i: int| 0 <= i < m.names.len() && m.names[i].0 == name@;
                        assert(self.names[i]@ != name@);
                    }
                }
                None
            },
        }
    }

    /// The number of stores.
    pub fn store_count(&self) -> (n: usize)
        ensures
            n == self@.stores.len(),
    {
        self.circuit.len()
    }

    /// Store `s`.
    pub fn store(&self, s: usize) -> (store: &Components)
        requires
            s < self@.stores.len(),
        ensures
            store@ == self@.stores[s as int],
    {
        &self.circuit[s]
    }

    /// Overwrites the record of a placed component, as a post-stamp does
    /// with the component's new state.
    pub fn write_record(&mut self, locator: Locator, record: &[u8])
        requires
            old(self).wf(),
            old(self)@.has(locator.store as int, locator.index as int),
            record@.len() <= old(self)@.stores[locator.store as int].records.stride,
        ensures
            final(self).wf(),
            final(self)@ == (Assembly {
                stores: old(self)@.stores.update(
                    locator.store as int,
                    old(self)@.stores[locator.store as int].replaced(locator.index as int, record@),
                ),
                ..old(self)@
            }),
    {
        self.circuit[locator.store].write(locator.index, record);
        proof {
            let m = self@;
            let before = old(self)@;
            let s = locator.store as int;
            crate::buffer::lemma_replaced(before.stores[s].records, locator.index as int, record@);
            assert(m.stores =~= before.stores.update(
                s,
                before.stores[s].replaced(locator.index as int, record@),
            ));
            assert(m.names =~= before.names);
            assert forall|a: int, b: int| 0 <= a < b < m.stores.len() implies (
            #[trigger] m.stores[a]).component_type.type_id != (
            #[trigger] m.stores[b]).component_type.type_id by {
                assert(before.stores[a].component_type.type_id
                    != before.stores[b].component_type.type_id);
            }
            assert forall|i: int| 0 <= i < m.names.len() implies m.has(
                (#[trigger] m.names[i]).1.store as int,
                m.names[i].1.index as int,
            ) by {
                assert(before.has(before.names[i].1.store as int, before.names[i].1.index as int));
            }
            assert forall|a: int, k: int, t: int|
                m.has(a, k) && 0 <= t < m.stamps(a, k).len() implies m.equations.reserved().contains(
                #[trigger] m.stamps(a, k)[t],
            ) by {
                assert(before.has(a, k));
                assert(m.stamps(a, k) == before.stamps(a, k));
                assert(before.equations.reserved().contains(before.stamps(a, k)[t]));
            }
        }
        proof {
            self.lemma_fits();
        }
        assert(self.wf());
    }

    /// The stores in the order in which they stamp: by priority, lowest
    /// first, and among equal priorities in the order of registration.
    pub fn stamp_order(&self) -> (order: Vec<usize>)
        ensures
            self@.is_stamp_order(order@),
    {
        let ghost m = self@;
        let mut order: Vec<usize> = Vec::new();
        let mut s: usize = 0;
        while s < self.circuit.len()
            invariant
                m == self@,
                s <= self.circuit.len(),
                order.len() == s,
                forall|i: int| 0 <= i < order.len() ==> (#[trigger] order[i]) < s,
                forall|i: int, j: int|
                    0 <= i < j < order.len() ==> m.precedes(
                        (#[trigger] order[i]) as int,
                        (#[trigger] order[j]) as int,
                    ),
                forall|r: usize| r < s ==> order@.contains(r),
            decreases self.circuit.len() - s,
        {
            let priority = self.circuit[s].component_type().priority;
            let mut pos: usize = 0;
            while pos < order.len() && self.circuit[order[pos]].component_type().priority
                <= priority
                invariant
                    m == self@,
                    s < self.circuit.len(),
                    pos <= order.len(),
                    priority == m.stores[s as int].component_type.priority,
                    forall|i: int| 0 <= i < order.len() ==> (#[trigger] order[i]) < s,
                    forall|i: int|
                        0 <= i < pos ==> m.stores[(#[trigger] order[i]) as int].component_type.priority
                            <= priority,
                decreases order.len() - pos,
            {
                pos += 1;
            }
            let ghost before = order@;
            order.insert(pos, s);
            proof {
                assert(order@ == before.insert(pos as int, s));
                assert forall|i: int, j: int| 0 <= i < j < order.len() implies m.precedes(
                    (#[trigger] order[i]) as int,
                    (#[trigger] order[j]) as int,
                ) by {
                    if j < pos {
                        assert(order[i] == before[i] && order[j] == before[j]);
                    } else if j == pos {
                        assert(order[i] == before[i]);
                    } else if i < pos {
                        assert(order[i] == before[i] && order[j] == before[j - 1]);
                    } else if i == pos {
                        assert(order[j] == before[j - 1]);
                        if pos < j - 1 {
                            assert(m.precedes(before[pos as int] as int, before[j - 1] as int));
                        }
                    } else {
                        assert(order[i] == before[i - 1] && order[j] == before[j - 1]);
                    }
                }
                assert forall|r: usize| r < s + 1 implies order@.contains(r) by {
                    if r < s {
                        assert(before.contains(r));
                        let i = choose|i: int| 0 <= i < before.len() && before[i] == r;
                        if i < pos {
                            assert(order[i] == r);
                        } else {
                            assert(order[i + 1] == r);
                        }
                    } else {
                        assert(order[pos as int] == s);
                    }
                }
                assert forall|i: int| 0 <= i < order.len() implies (#[trigger] order[i]) < s + 1 by {
                    if i < pos {
                        assert(order[i] == before[i]);
                    } else if i > pos {
                        assert(order[i] == before[i - 1]);
                    }
                }
            }
            s += 1;
        }
        order
    }

    /// The steps of one tick, in order: reset, every store's stamp in
    /// stamping order, solve, every store's post-stamp in the same order.
    pub fn schedule(&self) -> (actions: Vec<Action>)
        ensures
            exists|order: Seq<usize>| self@.is_stamp_order(order) && actions@ == tick(order),
    {
        let order = self.stamp_order();
        let mut actions: Vec<Action> = Vec::new();
        actions.push(Action::Reset);
        let mut i: usize = 0;
        while i < order.len()
            invariant
                i <= order.len(),
                actions@ == seq![Action::Reset] + Seq::new(
                    i as nat,
                    |t: int| Action::Stamp { store: order@[t] },
                ),
            decreases order.len() - i,
        {
            actions.push(Action::Stamp { store: order[i] });
            proof {
                assert(actions@ =~= seq![Action::Reset] + Seq::new(
                    (i + 1) as nat,
                    |t: int| Action::Stamp { store: order@[t] },
                ));
            }
            i += 1;
        }
        actions.push(Action::Solve);
        let ghost head = actions@;
        let mut j: usize = 0;
        while j < order.len()
            invariant
                j <= order.len(),
                actions@ == head + Seq::new(
                    j as nat,
                    |t: int| Action::PostStamp { store: order@[t] },
                ),
            decreases order.len() - j,
        {
            actions.push(Action::PostStamp { store: order[j] });
            proof {
                assert(actions@ =~= head + Seq::new(
                    (j + 1) as nat,
                    |t: int| Action::PostStamp { store: order@[t] },
                ));
            }
            j += 1;
        }
        proof {
            assert(actions@ =~= tick(order@));
        }
        actions
    }

    /// Stamps every component of a store of one-terminal sources: pins the
    /// node of each to the value given for it, in the order of placement.
    /// No coordinate can be missing, since placing a source reserved its own.
    pub fn stamp_sources(&mut self, s: usize, values: &[c64])
        requires
            old(self).wf(),
            s < old(self)@.stores.len(),
            old(self)@.stores[s as int].component_type.terminal_count == 1,
            old(self)@.stores[s as int].component_type.active_terminals@ == diagonal_pair(),
            values@.len() == old(self)@.stores[s as int].len(),
        ensures
            final(self).wf(),
            final(self)@ == (Assembly {
                equations: pinned_all(
                    old(self)@.equations,
                    old(self)@.stores[s as int].terminals,
                    values@,
                ),
                ..old(self)@
            }),
            final(self)@.equations.same_pattern(old(self)@.equations),
    {
        let ghost before = self@;
        let ghost nodes = before.stores[s as int].terminals;
        let count = self.circuit[s].len();
        proof {
            assert(nodes.len() == count * 1);
        }
        let mut k: usize = 0;
        while k < count
            invariant
                k <= count,
                s < self.circuit.len(),
                count == nodes.len(),
                count == values@.len(),
                before.wf(),
                before.stores[s as int].terminals == nodes,
                before.stores[s as int].len() == count,
                before.stores[s as int].component_type.terminal_count == 1,
                before.stores[s as int].component_type.active_terminals@ == diagonal_pair(),
                self.paired(),
                self@.stores == before.stores,
                self@.names == before.names,
                self@.equations.wf(),
                self@.equations.same_pattern(before.equations),
                self@.equations == pinned_all(
                    before.equations,
                    nodes.take(k as int),
                    values@.take(k as int),
                ),
            decreases count - k,
        {
            let node = self.circuit[s].terminals_of(k)[0];
            proof {
                assert(before.has(s as int, k as int));
                assert(before.stores[s as int].terminals_of(k as int)[0] == nodes[k as int]);
                assert(before.stamps(s as int, k as int)[0] == (node, node));
                assert(before.equations.reserved().contains(before.stamps(s as int, k as int)[0]));
                lemma_pinned_row(self@.equations, node, values@[k as int]);
                assert(nodes.take(k + 1).drop_last() =~= nodes.take(k as int));
                assert(values@.take(k + 1).drop_last() =~= values@.take(k as int));
            }
            let pinned = self.equations.pin_node(node, values[k]);
            assert(pinned is Ok);
            k += 1;
        }
        proof {
            assert(nodes.take(k as int) =~= nodes);
            assert(values@.take(k as int) =~= values@);
            let m = self@;
            assert(m.stores =~= before.stores);
            assert forall|a: int, i: int, t: int|
                m.has(a, i) && 0 <= t < m.stamps(a, i).len() implies m.equations.reserved().contains(
                #[trigger] m.stamps(a, i)[t],
            ) by {
                assert(before.has(a, i));
                assert(before.equations.reserved().contains(before.stamps(a, i)[t]));
            }
        }
        proof {
            self.lemma_fits();
        }
        assert(self.wf());
    }

    /// Where to ask for the quantity `parameter` of the component named
    /// `component`. A component that is not there, or a quantity that its
    /// type does not publish, is not present; neither is an error.
    pub fn probe(&self, component: &str, parameter: &str) -> (r: Option<Locator>)
        requires
            self.wf(),
        ensures
            r == self@.probed(component@, parameter@),
            r is Some ==> self@.has(r->0.store as int, r->0.index as int),
    {
        match self.locate(component) {
            Some(at) => if self.circuit[at.store].component_type().publishes(parameter) {
                Some(at)
            } else {
                None
            },
            None => None,
        }
    }

    /// The stored positions of the matrix coordinates that a placed
    /// component stamps, one for each active pair of its type. Every one of
    /// them has storage, since placing the component reserved it.
    pub fn positions(&self, at: Locator) -> (positions: Vec<usize>)
        requires
            self.wf(),
            self@.has(at.store as int, at.index as int),
        ensures
            positions.len() == self@.stamps(at.store as int, at.index as int).len(),
            forall|t: int|
                0 <= t < positions.len() ==> {
                    let coordinate = self@.stamps(at.store as int, at.index as int)[t];
                    &&& self@.equations.reserved().contains(coordinate)
                    &&& (#[trigger] positions[t]) == self@.equations.coord_map[coordinate]
                    &&& positions[t] < self@.equations.nnz()
                },
    {
        let store = &self.circuit[at.store];
        let terminals = store.terminals_of(at.index);
        let pairs = &store.component_type().active_terminals;
        let ghost m = self@;
        let ghost wanted = m.stamps(at.store as int, at.index as int);
        let mut positions: Vec<usize> = Vec::new();
        let mut t: usize = 0;
        while t < pairs.len()
            invariant
                t <= pairs.len(),
                m == self@,
                self.wf(),
                m.has(at.store as int, at.index as int),
                wanted == m.stamps(at.store as int, at.index as int),
                wanted == stamped_coordinates(pairs@, terminals@),
                terminals@.len() == m.stores[at.store as int].component_type.terminal_count,
                pairs@ == m.stores[at.store as int].component_type.active_terminals@,
                m.stores[at.store as int].wf(),
                positions.len() == t,
                forall|u: int|
                    0 <= u < t ==> m.equations.reserved().contains(wanted[u]) && (
                    #[trigger] positions[u]) == m.equations.coord_map[wanted[u]] && positions[u]
                        < m.equations.nnz(),
            decreases pairs.len() - t,
        {
            let p = pairs[t];
            proof {
                assert(m.equations.reserved().contains(m.stamps(
                    at.store as int,
                    at.index as int,
                )[t as int]));
                let coordinate = wanted[t as int];
                let k = m.equations.coord_map[coordinate] as int;
                assert(m.equations.in_row(coordinate.0 as int, k));
                assert(m.equations.row_pointers[coordinate.0 + 1]
                    <= m.equations.row_pointers[m.equations.dim() as int]);
            }
            match self.equations.index_of(terminals[p.0], terminals[p.1]) {
                Some(k) => positions.push(k),
                None => {
                    assert(false);
                },
            }
            t += 1;
        }
        positions
    }
}

} // verus!
