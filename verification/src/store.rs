//! The store of one component type: its records and where each is connected.

use crate::buffer::{lemma_pushed, lemma_replaced, stride_for, ComponentBuffer, PackedRecords};
use crate::component::{names_of, ComponentKind};
use crate::text::texts;
use vstd::prelude::*;
use vstd::slice::slice_subrange;

verus! {

/// What the assembler knows of a component type: how its records are laid
/// out, how many terminals it has, when it stamps and where.
#[derive(Debug)]
pub struct ComponentType {
    /// The key of the type. No two types in one circuit share a key.
    pub type_id: u64,
    /// The size in bytes of one record: the component with its state.
    pub size: usize,
    /// The alignment in bytes of a record.
    pub alignment: usize,
    /// The number of terminals.
    pub terminal_count: usize,
    /// The stamping order key: lower stamps first.
    pub priority: usize,
    /// The pairs `(i, j)` of terminal positions for which the type stamps
    /// `A[terminal[i], terminal[j]]`.
    pub active_terminals: Vec<(usize, usize)>,
    /// The names of the quantities that a component of the type answers to.
    pub parameters: Vec<String>,
}

impl ComponentType {
    /// Records can be laid out, and every active pair names terminals of the type.
    pub open spec fn wf(&self) -> bool {
        &&& self.alignment > 0
        &&& self.size + self.alignment < usize::MAX
        &&& forall|t: int|
            0 <= t < self.active_terminals@.len() ==> (#[trigger] self.active_terminals@[t]).0
                < self.terminal_count && self.active_terminals@[t].1 < self.terminal_count
    }

    /// The distance in bytes between records of the type.
    pub open spec fn stride(&self) -> nat {
        stride_for(self.size as nat, self.alignment as nat)
    }

    /// Whether a component of the type answers to the quantity `name`.
    pub open spec fn publishing(&self, name: Seq<char>) -> bool {
        texts(self.parameters@).contains(name)
    }

    /// The key under which a kind is stored.
    pub open spec fn key_of_kind(kind: ComponentKind) -> u64 {
        match kind {
            ComponentKind::Resistor => 0,
            ComponentKind::Capacitor => 1,
            ComponentKind::Inductor => 2,
            ComponentKind::DC1Source => 3,
            ComponentKind::AC1Source => 4,
            ComponentKind::Ground => 5,
        }
    }

    /// The type of one of the six kinds, for records of the given layout.
    pub fn of_kind(kind: ComponentKind, size: usize, alignment: usize) -> (component_type:
        ComponentType)
        requires
            alignment > 0,
            size + alignment < usize::MAX,
        ensures
            component_type.wf(),
            component_type.type_id == ComponentType::key_of_kind(kind),
            component_type.size == size,
            component_type.alignment == alignment,
            component_type.terminal_count == kind.terminals(),
            component_type.priority == kind.rank(),
            component_type.active_terminals@ == kind.stamped_pairs(),
            texts(component_type.parameters@) == kind.published(),
    {
        let type_id: u64 = match kind {
            ComponentKind::Resistor => 0,
            ComponentKind::Capacitor => 1,
            ComponentKind::Inductor => 2,
            ComponentKind::DC1Source => 3,
            ComponentKind::AC1Source => 4,
            ComponentKind::Ground => 5,
        };
        let names = kind.parameters();
        let mut parameters: Vec<String> = Vec::new();
        let mut i: usize = 0;
        while i < names.len()
            invariant
                i <= names.len(),
                names_of(names@) == kind.published(),
                texts(parameters@) == kind.published().take(i as int),
            decreases names.len() - i,
        {
            let ghost before = texts(parameters@);
            parameters.push(names[i].to_owned());
            proof {
                assert(names_of(names@)[i as int] == names[i as int]@);
                assert(texts(parameters@) =~= before.push(names[i as int]@));
                assert(kind.published().take(i + 1) =~= before.push(names[i as int]@));
            }
            i += 1;
        }
        proof {
            assert(kind.published().take(i as int) =~= kind.published());
        }
        ComponentType {
            type_id,
            size,
            alignment,
            terminal_count: kind.terminal_count(),
            priority: kind.priority(),
            active_terminals: kind.active_terminals(),
            parameters,
        }
    }

}

impl ComponentType {
    /// Whether a component of the type answers to the quantity `name`.
    pub fn publishes(&self, name: &str) -> (r: bool)
        ensures
            r == self.publishing(name@),
    {
        match crate::text::position_of(&self.parameters, name) {
            Some(i) => {
                assert(texts(self.parameters@)[i as int] == name@);
                true
            },
            None => {
                proof {
                    if texts(self.parameters@).contains(name@) {
                        let i = choose|i: int|
                            0 <= i < self.parameters.len() && texts(self.parameters@)[i] == name@;
                        assert(self.parameters[i]@ == name@);
                    }
                }
                false
            },
        }
    }
}

/// What a store holds: the records of the components of one type and, in
/// the same order, the nodes that each is connected to.
pub struct Placed {
    /// The type of the components.
    pub component_type: ComponentType,
    /// The packed records.
    pub records: PackedRecords,
    /// The terminals of all components, one component after the other.
    pub terminals: Seq<u32>,
}

impl Placed {
    /// Records and terminals belong to the type, one set of terminals for each record.
    pub open spec fn wf(self) -> bool {
        &&& self.component_type.wf()
        &&& self.records.wf()
        &&& self.records.stride == self.component_type.stride()
        &&& self.records.type_id == self.component_type.type_id
        &&& self.terminals.len() == self.records.len() * self.component_type.terminal_count
    }

    /// The number of components.
    pub open spec fn len(self) -> nat {
        self.records.len()
    }

    /// The nodes that component `k` is connected to.
    pub open spec fn terminals_of(self, k: int) -> Seq<u32> {
        self.terminals.subrange(
            k * self.component_type.terminal_count,
            k * self.component_type.terminal_count + self.component_type.terminal_count,
        )
    }

    /// The store with one more component.
    pub open spec fn pushed(self, record: Seq<u8>, terminals: Seq<u32>) -> Placed {
        Placed {
            records: self.records.pushed(record),
            terminals: self.terminals + terminals,
            ..self
        }
    }

    /// The store with the record of component `k` replaced.
    pub open spec fn replaced(self, k: int, record: Seq<u8>) -> Placed {
        Placed { records: self.records.replaced(k, record), ..self }
    }
}

/// The matrix coordinates that a component on the given nodes stamps:
/// one for each active pair, in the order of the pairs.
pub open spec fn stamped_coordinates(pairs: Seq<(usize, usize)>, terminals: Seq<u32>) -> Seq<
    (u32, u32),
> {
    Seq::new(pairs.len(), |t: int| (terminals[pairs[t].0 as int], terminals[pairs[t].1 as int]))
}

/// The terminals of one component lie one count apart, each within the whole.
pub proof fn lemma_terminal_bounds(count: nat, len: nat, k: int)
    requires
        0 <= k < len,
    ensures
        0 <= k * count,
        k * count + count <= len * count,
{
    crate::buffer::lemma_record_bounds(count, len, k);
}

/// Pushing appends one component and leaves the others as they were.
pub proof fn lemma_store_pushed(m: Placed, record: Seq<u8>, terminals: Seq<u32>)
    requires
        m.wf(),
        record.len() <= m.records.stride,
        terminals.len() == m.component_type.terminal_count,
    ensures
        m.pushed(record, terminals).wf(),
        m.pushed(record, terminals).len() == m.len() + 1,
        m.pushed(record, terminals).terminals_of(m.len() as int) == terminals,
        forall|k: int|
            0 <= k < m.len() ==> #[trigger] m.pushed(record, terminals).terminals_of(k)
                == m.terminals_of(k),
{
    let p = m.pushed(record, terminals);
    let count = m.component_type.terminal_count as nat;
    lemma_pushed(m.records, record);
    assert((m.len() + 1) * count == m.len() * count + count) by (nonlinear_arith);
    assert(p.terminals_of(m.len() as int) =~= terminals);
    assert forall|k: int| 0 <= k < m.len() implies #[trigger] p.terminals_of(k) == m.terminals_of(
        k,
    ) by {
        lemma_terminal_bounds(count, m.len(), k);
        assert(p.terminals_of(k) =~= m.terminals_of(k));
    }
}

/// The components of one type: their packed records and their terminals.
pub struct Components {
    component_type: ComponentType,
    buffer: ComponentBuffer,
    terminals: Vec<u32>,
}

impl View for Components {
    type V = Placed;

    closed spec fn view(&self) -> Placed {
        Placed {
            component_type: self.component_type,
            records: self.buffer@,
            terminals: self.terminals@,
        }
    }
}

impl Components {
    /// An empty store for components of the given type.
    pub fn new(component_type: ComponentType) -> (store: Components)
        requires
            component_type.wf(),
        ensures
            store@.wf(),
            store@.component_type == component_type,
            store@.len() == 0,
            store@.records.bytes.len() == 0,
            store@.terminals.len() == 0,
    {
        let buffer = ComponentBuffer::new(
            component_type.size,
            component_type.alignment,
            component_type.type_id,
        );
        let store = Components { component_type, buffer, terminals: Vec::new() };
        proof {
            crate::buffer::lemma_len_of_multiple(store@.records, 0);
        }
        store
    }

    /// The type of the components.
    pub fn component_type(&self) -> (component_type: &ComponentType)
        ensures
            *component_type == self@.component_type,
    {
        &self.component_type
    }

    /// The number of components fits the machine word.
    pub proof fn lemma_len_fits(&self)
        requires
            self@.wf(),
        ensures
            self@.len() <= usize::MAX,
    {
        self.buffer.lemma_len_fits();
    }

    /// The number of components.
    pub fn len(&self) -> (n: usize)
        requires
            self@.wf(),
        ensures
            n == self@.len(),
    {
        self.buffer.len()
    }

    /// Appends a component: its record, zero-padded to the stride, and the
    /// nodes it is connected to.
    pub fn push(&mut self, record: &[u8], terminals: &[u32])
        requires
            old(self)@.wf(),
            record@.len() <= old(self)@.records.stride,
            terminals@.len() == old(self)@.component_type.terminal_count,
        ensures
            final(self)@ == old(self)@.pushed(record@, terminals@),
            final(self)@.wf(),
    {
        let pushed = self.buffer.push(self.component_type.type_id, record);
        assert(pushed is Ok);
        let mut t: usize = 0;
        while t < terminals.len()
            invariant
                t <= terminals.len(),
                self.component_type == old(self).component_type,
                self.buffer@ == old(self).buffer@.pushed(record@),
                self.terminals@ == old(self).terminals@ + terminals@.take(t as int),
            decreases terminals.len() - t,
        {
            self.terminals.push(terminals[t]);
            proof {
                assert(terminals@.take(t + 1) =~= terminals@.take(t as int).push(terminals[t as int]));
                assert(self.terminals@ =~= old(self).terminals@ + terminals@.take(t + 1));
            }
            t += 1;
        }
        proof {
            assert(terminals@.take(t as int) =~= terminals@);
            lemma_store_pushed(old(self)@, record@, terminals@);
        }
        assert(self@ == old(self)@.pushed(record@, terminals@));
    }

    /// The record of component `k`.
    pub fn record(&self, k: usize) -> (record: &[u8])
        requires
            self@.wf(),
            k < self@.len(),
        ensures
            record@ == self@.records.record(k as int),
    {
        self.buffer.record(k)
    }

    /// The nodes that component `k` is connected to.
    pub fn terminals_of(&self, k: usize) -> (terminals: &[u32])
        requires
            self@.wf(),
            k < self@.len(),
        ensures
            terminals@ == self@.terminals_of(k as int),
            terminals@.len() == self@.component_type.terminal_count,
    {
        let count = self.component_type.terminal_count;
        proof {
            lemma_terminal_bounds(count as nat, self@.len(), k as int);
            assert(k * count + count <= self.terminals.len());
        }
        let start = k * count;
        slice_subrange(self.terminals.as_slice(), start, start + count)
    }

    /// Overwrites the record of component `k`, zero-padded to the stride.
    pub fn write(&mut self, k: usize, record: &[u8])
        requires
            old(self)@.wf(),
            k < old(self)@.len(),
            record@.len() <= old(self)@.records.stride,
        ensures
            final(self)@ == old(self)@.replaced(k as int, record@),
            final(self)@.wf(),
    {
        let written = self.buffer.write(self.component_type.type_id, k, record);
        assert(written is Ok);
        proof {
            lemma_replaced(old(self)@.records, k as int, record@);
        }
        assert(self@ == old(self)@.replaced(k as int, record@));
    }
}

} // verus!
