//! From commands to placements: the numbering of nodes.

use crate::parser::{placements, Command, Placement};
use crate::text::{position_of, texts};
use vstd::prelude::*;

verus! {

/// The distinct names among `names`, in the order in which each is first seen.
pub open spec fn numbered(names: Seq<Seq<char>>) -> Seq<Seq<char>>
    decreases names.len(),
{
    if names.len() == 0 {
        Seq::empty()
    } else {
        let before = numbered(names.drop_last());
        if before.contains(names.last()) {
            before
        } else {
            before.push(names.last())
        }
    }
}

/// The node names of all commands, in the order written.
pub open spec fn all_terminals(commands: Seq<Placement>) -> Seq<Seq<char>>
    decreases commands.len(),
{
    if commands.len() == 0 {
        Seq::empty()
    } else {
        all_terminals(commands.drop_last()) + commands.last().terminals
    }
}

/// Every name is numbered, and a name keeps the number it was first given:
/// the numbering of a longer text begins with the numbering of a shorter one.
pub proof fn lemma_numbered(names: Seq<Seq<char>>, k: int)
    requires
        0 <= k <= names.len(),
    ensures
        numbered(names.take(k)).len() <= numbered(names).len(),
        numbered(names).take(numbered(names.take(k)).len() as int) == numbered(names.take(k)),
        forall|i: int| 0 <= i < k ==> numbered(names.take(k)).contains(#[trigger] names[i]),
        numbered(names).len() <= names.len(),
    decreases names.len(),
{
    if names.len() == 0 {
        assert(names.take(k) =~= names);
        assert(numbered(names).take(0) =~= numbered(names));
    } else if k == names.len() {
        assert(names.take(k) =~= names);
        assert(numbered(names).take(numbered(names).len() as int) =~= numbered(names));
        let shorter = names.drop_last();
        lemma_numbered(shorter, k - 1);
        assert(shorter.take(k - 1) =~= shorter);
        assert forall|i: int| 0 <= i < k implies numbered(names).contains(#[trigger] names[i]) by {
            if i < k - 1 {
                assert(names[i] == shorter[i]);
                let at = choose|at: int|
                    0 <= at < numbered(shorter).len() && numbered(shorter)[at] == shorter[i];
                assert(numbered(names)[at] == names[i]);
            } else {
                assert(names[i] == names.last());
                if numbered(shorter).contains(names.last()) {
                    assert(numbered(names) == numbered(shorter));
                } else {
                    assert(numbered(names)[numbered(shorter).len() as int] == names.last());
                }
            }
        }
    } else {
        let shorter = names.drop_last();
        assert(names.take(k) =~= shorter.take(k));
        lemma_numbered(shorter, k);
        let part = numbered(shorter.take(k));
        assert(numbered(names).take(part.len() as int) =~= numbered(shorter).take(
            part.len() as int,
        ));
        assert forall|i: int| 0 <= i < k implies numbered(names.take(k)).contains(
            #[trigger] names[i],
        ) by {
            assert(names[i] == shorter[i]);
        }
    }
}

/// No name is numbered twice.
pub proof fn lemma_numbered_distinct(names: Seq<Seq<char>>, i: int, j: int)
    requires
        0 <= i < j < numbered(names).len(),
    ensures
        numbered(names)[i] != numbered(names)[j],
    decreases names.len(),
{
    if names.len() > 0 {
        let before = numbered(names.drop_last());
        if j < before.len() {
            lemma_numbered_distinct(names.drop_last(), i, j);
        } else {
            assert(!before.contains(names.last()));
            assert(numbered(names)[j] == names.last());
            assert(numbered(names)[i] == before[i]);
        }
    }
}

/// The nodes of a netlist and, for each command, the nodes of its terminals.
#[derive(Debug, PartialEq)]
pub struct Layout {
    /// The names of the nodes. A node's position is its index in the linear system.
    pub nodes: Vec<String>,
    /// For each command, in order, the node index of each terminal.
    pub terminals: Vec<Vec<u32>>,
}

/// Collects commands and lays out their nodes.
pub struct CircuitBuilder {
    commands: Vec<Command>,
}

impl View for CircuitBuilder {
    type V = Seq<Placement>;

    closed spec fn view(&self) -> Seq<Placement> {
        placements(self.commands@)
    }
}

/// The most nodes that can be numbered.
pub const NODE_LIMIT: usize = 0xffff_ffff;

impl CircuitBuilder {
    /// A builder without commands.
    pub fn new() -> (builder: CircuitBuilder)
        ensures
            builder@ == Seq::<Placement>::empty(),
    {
        let builder = CircuitBuilder { commands: Vec::new() };
        assert(builder@ =~= Seq::<Placement>::empty());
        builder
    }

    /// Adds commands after those that the builder holds.
    pub fn add_commands(&mut self, cmds: Vec<Command>)
        ensures
            final(self)@ == old(self)@ + placements(cmds@),
    {
        let mut cmds = cmds;
        let ghost added = cmds@;
        self.commands.append(&mut cmds);
        assert(self@ =~= old(self)@ + placements(added));
    }

    /// The commands, in order.
    pub fn commands(&self) -> (commands: &Vec<Command>)
        ensures
            placements(commands@) == self@,
    {
        &self.commands
    }

    /// Numbers the nodes: each node name gets the next free index when it
    /// is first seen, going through the commands in order and through the
    /// terminals of each from first to last. Gives `None` where there are
    /// more nodes than indices.
    pub fn build(&self) -> (r: Option<Layout>)
        ensures
            r is Some <==> numbered(all_terminals(self@)).len() <= NODE_LIMIT,
            r is Some ==> {
                let layout = r->0;
                &&& texts(layout.nodes@) == numbered(all_terminals(self@))
                &&& layout.terminals.len() == self@.len()
                &&& forall|c: int|
                    0 <= c < self@.len() ==> (#[trigger] layout.terminals[c]).len()
                        == self@[c].terminals.len()
                &&& forall|c: int, t: int|
                    0 <= c < self@.len() && 0 <= t < self@[c].terminals.len() ==> (
                    #[trigger] layout.terminals[c][t]) < layout.nodes.len()
                        && layout.nodes[layout.terminals[c][t] as int]@ == self@[c].terminals[t]
            },
    {
        let ghost all = all_terminals(self@);
        let mut nodes: Vec<String> = Vec::new();
        let mut terminals: Vec<Vec<u32>> = Vec::new();
        let mut c: usize = 0;
        proof {
            assert(self@.take(0) =~= Seq::<Placement>::empty());
        }
        while c < self.commands.len()
            invariant
                c <= self.commands.len(),
                all == all_terminals(self@),
                nodes.len() <= NODE_LIMIT,
                texts(nodes@) == numbered(all_terminals(self@.take(c as int))),
                terminals.len() == c,
                forall|d: int|
                    0 <= d < c ==> (#[trigger] terminals[d]).len() == self@[d].terminals.len(),
                forall|d: int, t: int|
                    0 <= d < c && 0 <= t < self@[d].terminals.len() ==> (#[trigger] terminals[d][t])
                        < nodes.len() && nodes[terminals[d][t] as int]@ == self@[d].terminals[t],
            decreases self.commands.len() - c,
        {
            let ghost done = all_terminals(self@.take(c as int));
            let ghost placed = self@[c as int];
            let mut indices: Vec<u32> = Vec::new();
            match &self.commands[c] {
                Command::Component { terminals: names, .. } => {
                    assert(texts(names@) == placed.terminals);
                    let mut t: usize = 0;
                    proof {
                        assert(done + placed.terminals.take(0) =~= done);
                    }
                    while t < names.len()
                        invariant
                            t <= names.len(),
                            c < self.commands.len(),
                            all == all_terminals(self@),
                            done == all_terminals(self@.take(c as int)),
                            placed == self@[c as int],
                            texts(names@) == placed.terminals,
                            nodes.len() <= NODE_LIMIT,
                            texts(nodes@) == numbered(done + placed.terminals.take(t as int)),
                            indices.len() == t,
                            forall|u: int|
                                0 <= u < t ==> (#[trigger] indices[u]) < nodes.len()
                                    && nodes[indices[u] as int]@ == placed.terminals[u],
                            forall|d: int, u: int|
                                0 <= d < c && 0 <= u < self@[d].terminals.len() ==> (
                                #[trigger] terminals[d][u]) < nodes.len()
                                    && nodes[terminals[d][u] as int]@ == self@[d].terminals[u],
                        decreases names.len() - t,
                    {
                        let ghost seen = done + placed.terminals.take(t as int);
                        let ghost next = done + placed.terminals.take(t + 1);
                        let ghost before = texts(nodes@);
                        proof {
                            assert(texts(names@)[t as int] == names[t as int]@);
                            assert(next.drop_last() =~= seen);
                            assert(next.last() == names[t as int]@);
                        }
                        let index = match position_of(&nodes, names[t].as_str()) {
                            Some(index) => {
                                proof {
                                    assert(before[index as int] == names[t as int]@);
                                    assert(before.contains(names[t as int]@));
                                }
                                index
                            },
                            None => {
                                proof {
                                    if before.contains(names[t as int]@) {
                                        let at = choose|at: int|
                                            0 <= at < before.len() && before[at] == names[t as int]@;
                                        assert(nodes[at]@ == names[t as int]@);
                                    }
                                }
                                if nodes.len() >= NODE_LIMIT {
                                    proof {
                                        lemma_all_terminals_take(self@, c as int);
                                        let whole = all_terminals(self@.take(c + 1));
                                        assert(whole == done + placed.terminals);
                                        assert(whole.take(done.len() + t + 1) =~= next);
                                        lemma_numbered(whole, done.len() + t + 1);
                                        lemma_all_terminals_prefix(self@, c + 1);
                                        lemma_numbered(all, whole.len() as int);
                                        assert(all.take(whole.len() as int) == whole);
                                    }
                                    return None;
                                }
                                nodes.push(names[t].clone());
                                proof {
                                    assert(texts(nodes@) =~= before.push(names[t as int]@));
                                }
                                nodes.len() - 1
                            },
                        };
                        indices.push(index as u32);
                        t += 1;
                    }
                    proof {
                        assert(placed.terminals.take(t as int) =~= placed.terminals);
                        lemma_all_terminals_take(self@, c as int);
                    }
                },
            }
            terminals.push(indices);
            c += 1;
        }
        proof {
            assert(self@.take(c as int) =~= self@);
        }
        Some(Layout { nodes, terminals })
    }
}

/// The node names up to a command are those before it and its own.
pub proof fn lemma_all_terminals_take(commands: Seq<Placement>, c: int)
    requires
        0 <= c < commands.len(),
    ensures
        all_terminals(commands.take(c + 1)) == all_terminals(commands.take(c))
            + commands[c].terminals,
{
    assert(commands.take(c + 1).drop_last() =~= commands.take(c));
}

/// The node names of the first commands begin the node names of all.
pub proof fn lemma_all_terminals_prefix(commands: Seq<Placement>, c: int)
    requires
        0 <= c <= commands.len(),
    ensures
        all_terminals(commands.take(c)).len() <= all_terminals(commands).len(),
        all_terminals(commands).take(all_terminals(commands.take(c)).len() as int)
            == all_terminals(commands.take(c)),
    decreases commands.len(),
{
    if c == commands.len() {
        assert(commands.take(c) =~= commands);
        assert(all_terminals(commands).take(all_terminals(commands).len() as int)
            =~= all_terminals(commands));
    } else {
        let shorter = commands.drop_last();
        assert(commands.take(c) =~= shorter.take(c));
        lemma_all_terminals_prefix(shorter, c);
        let part = all_terminals(shorter.take(c));
        assert(all_terminals(commands).take(part.len() as int) =~= all_terminals(shorter).take(
            part.len() as int,
        ));
    }
}

} // verus!
