//! Compressed-row storage of the nodal matrix with its coordinate index.

use crate::error::CircuitError;
use crate::numerical::complex::c64;
use std::collections::HashMap;
use vstd::prelude::*;

verus! {

broadcast use vstd::std_specs::hash::group_hash_axioms;

/// The number of columns a row-major key reserves for one row: 2^32.
pub const KEY_STRIDE: u64 = 0x1_0000_0000;

/// The row-major key of a coordinate. Keys order coordinates by row first and
/// by column within a row.
pub open spec fn key_of(row: u32, col: u32) -> u64 {
    (row * KEY_STRIDE + col) as u64
}

/// The row of the coordinate behind a key.
pub open spec fn key_row(key: u64) -> u32 {
    (key / KEY_STRIDE) as u32
}

/// The column of the coordinate behind a key.
pub open spec fn key_col(key: u64) -> u32 {
    (key % KEY_STRIDE) as u32
}

/// Each element is smaller than the next.
pub open spec fn strictly_increasing(keys: Seq<u64>) -> bool {
    forall|i: int, j: int| 0 <= i < j < keys.len() ==> keys[i] < keys[j]
}

/// Every key is a coordinate's key, and the coordinate can be read back from it.
pub proof fn lemma_key_round_trip(row: u32, col: u32)
    ensures
        key_row(key_of(row, col)) == row,
        key_col(key_of(row, col)) == col,
        key_of(row, col) == row * 0x1_0000_0000 + col,
{
}

/// A key is the key of its own row and column.
pub proof fn lemma_key_of_parts(key: u64)
    ensures
        key_of(key_row(key), key_col(key)) == key,
{
}

/// The row-major key of a coordinate.
fn make_key(row: u32, col: u32) -> (key: u64)
    ensures
        key == key_of(row, col),
{
    (row as u64) * KEY_STRIDE + (col as u64)
}

/// The position at which `key` stands, or would have to stand, in a sorted
/// vector: the number of elements below it.
fn lower_bound(keys: &Vec<u64>, key: u64) -> (pos: usize)
    requires
        strictly_increasing(keys@),
    ensures
        pos <= keys.len(),
        forall|i: int| 0 <= i < pos ==> keys[i] < key,
        forall|i: int| pos <= i < keys.len() ==> keys[i] >= key,
{
    let mut lo: usize = 0;
    let mut hi: usize = keys.len();
    while lo < hi
        invariant
            lo <= hi <= keys.len(),
            strictly_increasing(keys@),
            forall|i: int| 0 <= i < lo ==> keys[i] < key,
            forall|i: int| hi <= i < keys.len() ==> keys[i] >= key,
        decreases hi - lo,
    {
        let mid: usize = lo + (hi - lo) / 2;
        if keys[mid] < key {
            lo = mid + 1;
        } else {
            hi = mid;
        }
    }
    lo
}

/// Adds `key` to a sorted vector of distinct keys, keeping it sorted and
/// distinct. A key that is already there is not added again.
fn insert_key(keys: &mut Vec<u64>, key: u64)
    requires
        strictly_increasing(old(keys)@),
    ensures
        strictly_increasing(final(keys)@),
        forall|k: u64| final(keys)@.contains(k) <==> (old(keys)@.contains(k) || k == key),
{
    let pos = lower_bound(keys, key);
    if pos < keys.len() && keys[pos] == key {
        assert(keys@.contains(key));
        return ;
    }
    let ghost before = keys@;
    keys.insert(pos, key);
    proof {
        assert(keys@ == before.insert(pos as int, key));
        assert forall|i: int, j: int| 0 <= i < j < keys@.len() implies keys@[i] < keys@[j] by {
            if j < pos {
                assert(keys@[i] == before[i] && keys@[j] == before[j]);
            } else if j == pos {
                assert(keys@[i] == before[i]);
            } else if i < pos {
                assert(keys@[i] == before[i] && keys@[j] == before[j - 1]);
            } else if i == pos {
                assert(keys@[j] == before[j - 1]);
            } else {
                assert(keys@[i] == before[i - 1] && keys@[j] == before[j - 1]);
            }
        }
        assert forall|k: u64| keys@.contains(k) <==> (before.contains(k) || k == key) by {
            if keys@.contains(k) {
                let i = choose|i: int| 0 <= i < keys@.len() && keys@[i] == k;
                if i < pos {
                    assert(before[i] == k);
                } else if i > pos {
                    assert(before[i - 1] == k);
                }
            }
            if before.contains(k) {
                let i = choose|i: int| 0 <= i < before.len() && before[i] == k;
                if i < pos {
                    assert(keys@[i] == k);
                } else {
                    assert(keys@[i + 1] == k);
                }
            }
            if k == key {
                assert(keys@[pos as int] == k);
            }
        }
    }
    assert(forall|k: u64| keys@.contains(k) <==> (old(keys)@.contains(k) || k == key));
}

/// Whether a node index leaves room for the row pointer past its row: a
/// system that reaches index `i` holds `i + 2` row pointers.
pub open spec fn addressable(index: u32) -> bool {
    index + 2 <= usize::MAX
}

/// `n` is one more than the largest index among the coordinates, or zero if
/// there are none.
pub open spec fn spans(coordinates: Seq<(u32, u32)>, n: nat) -> bool {
    &&& forall|t: int|
        0 <= t < coordinates.len() ==> (#[trigger] coordinates[t]).0 < n && coordinates[t].1 < n
    &&& coordinates.len() == 0 ==> n == 0
    &&& coordinates.len() > 0 ==> exists|t: int|
        0 <= t < coordinates.len() && ((#[trigger] coordinates[t]).0 + 1 == n || coordinates[t].1
            + 1 == n)
}

/// What a linear system is: the compressed-row pattern of `A`, the
/// coordinate index over it, and the three value vectors.
pub struct LinearSystem {
    /// `row_pointers[i]..row_pointers[i + 1]` are the positions of row `i`.
    pub row_pointers: Seq<usize>,
    /// The column of each stored position.
    pub column_indices: Seq<u32>,
    /// The stored position of each reserved coordinate.
    pub coord_map: Map<(u32, u32), usize>,
    /// The stored values of `A`, by position.
    pub a: Seq<c64>,
    /// The solution vector.
    pub x: Seq<c64>,
    /// The right-hand side.
    pub b: Seq<c64>,
}

impl LinearSystem {
    /// The number of unknowns `N`.
    pub open spec fn dim(self) -> nat {
        self.x.len()
    }

    /// The number of stored positions.
    pub open spec fn nnz(self) -> nat {
        self.a.len()
    }

    /// Position `k` belongs to row `i`.
    pub open spec fn in_row(self, i: int, k: int) -> bool {
        &&& 0 <= i < self.dim()
        &&& self.row_pointers[i] <= k < self.row_pointers[i + 1]
    }

    /// The coordinates that have storage.
    pub open spec fn reserved(self) -> Set<(u32, u32)> {
        self.coord_map.dom()
    }

    /// `N` is no larger than the pattern needs: zero for an empty pattern,
    /// else one more than the largest row or column index in it.
    pub open spec fn tight(self) -> bool {
        if self.nnz() == 0 {
            self.dim() == 0
        } else {
            exists|i: int, k: int|
                #![trigger self.in_row(i, k)]
                self.in_row(i, k) && (i + 1 == self.dim() || self.column_indices[k] + 1
                    == self.dim())
        }
    }

    /// The representation invariant of compressed-row storage.
    pub open spec fn wf(self) -> bool {
        &&& self.dim() <= 0x1_0000_0000
        &&& self.b.len() == self.dim()
        &&& self.row_pointers.len() == self.dim() + 1
        &&& self.row_pointers[0] == 0
        &&& self.row_pointers[self.dim() as int] == self.nnz()
        &&& self.column_indices.len() == self.nnz()
        &&& forall|i: int, j: int|
            0 <= i <= j <= self.dim() ==> self.row_pointers[i] <= self.row_pointers[j]
        &&& forall|k: int| 0 <= k < self.nnz() ==> #[trigger] self.column_indices[k] < self.dim()
        &&& forall|i: int, k: int, l: int|
            #![trigger self.in_row(i, k), self.in_row(i, l)]
            self.in_row(i, k) && self.in_row(i, l) && k < l ==> self.column_indices[k]
                < self.column_indices[l]
        &&& forall|p: (u32, u32)| #[trigger]
            self.coord_map.dom().contains(p) ==> self.in_row(p.0 as int, self.coord_map[p] as int)
                && self.column_indices[self.coord_map[p] as int] == p.1
        &&& forall|i: int, k: int| #[trigger]
            self.in_row(i, k) ==> self.coord_map.dom().contains((i as u32, self.column_indices[k]))
        &&& self.tight()
    }

    /// The system with the value at position `k` replaced.
    pub open spec fn with_a(self, k: int, value: c64) -> LinearSystem {
        LinearSystem { a: self.a.update(k, value), ..self }
    }

    /// The system with entry `i` of `b` replaced.
    pub open spec fn with_b(self, i: int, value: c64) -> LinearSystem {
        LinearSystem { b: self.b.update(i, value), ..self }
    }

    /// The system with another solution vector.
    pub open spec fn with_x(self, x: Seq<c64>) -> LinearSystem {
        LinearSystem { x, ..self }
    }

    /// The system with every stored value of row `i` set to zero. `b` and
    /// `x` keep their values.
    pub open spec fn cleared_row(self, i: int) -> LinearSystem {
        LinearSystem {
            a: Seq::new(
                self.a.len(),
                |k: int|
                    if self.in_row(i, k) {
                        c64::zero()
                    } else {
                        self.a[k]
                    },
            ),
            ..self
        }
    }

    /// The system with `A` and `b` zeroed. The pattern and `x` stay.
    pub open spec fn cleared(self) -> LinearSystem {
        LinearSystem {
            a: Seq::new(self.a.len(), |k: int| c64::zero()),
            b: Seq::new(self.b.len(), |i: int| c64::zero()),
            ..self
        }
    }

    /// The system in which row `n` pins the unknown `n` to `value`: the row
    /// is the identity row and `b[n]` is the value.
    pub open spec fn pinned(self, n: u32, value: c64) -> LinearSystem {
        self.cleared_row(n as int).with_a(self.coord_map[(n, n)] as int, c64::one()).with_b(
            n as int,
            value,
        )
    }

    /// The stored diagonal values of the first `n` rows, in the order of
    /// the rows. A row that does not store its diagonal gives none.
    pub open spec fn diagonal_upto(self, n: int) -> Seq<c64>
        decreases n,
    {
        if n <= 0 {
            Seq::empty()
        } else {
            let before = self.diagonal_upto(n - 1);
            let i = (n - 1) as u32;
            if self.reserved().contains((i, i)) {
                before.push(self.a[self.coord_map[(i, i)] as int])
            } else {
                before
            }
        }
    }

    /// The same pattern: two systems that differ in values only.
    pub open spec fn same_pattern(self, other: LinearSystem) -> bool {
        &&& self.row_pointers == other.row_pointers
        &&& self.column_indices == other.column_indices
        &&& self.coord_map == other.coord_map
        &&& self.a.len() == other.a.len()
        &&& self.x.len() == other.x.len()
        &&& self.b.len() == other.b.len()
    }

    /// Every stored value of `A` is zero.
    pub open spec fn a_is_zero(self) -> bool {
        forall|k: int| 0 <= k < self.a.len() ==> self.a[k] == c64::zero()
    }

    /// Every entry of `b` is zero.
    pub open spec fn b_is_zero(self) -> bool {
        forall|i: int| 0 <= i < self.b.len() ==> self.b[i] == c64::zero()
    }

    /// Every entry of `x` is zero.
    pub open spec fn x_is_zero(self) -> bool {
        forall|i: int| 0 <= i < self.x.len() ==> self.x[i] == c64::zero()
    }
}

/// Well-formedness speaks of the pattern and of lengths only, so it carries
/// over to any system with the same pattern.
pub proof fn lemma_wf_same_pattern(m: LinearSystem, other: LinearSystem)
    requires
        m.wf(),
        m.same_pattern(other),
    ensures
        other.wf(),
{
    assert forall|i: int, k: int| m.in_row(i, k) == other.in_row(i, k) by {}
    assert forall|i: int, k: int, l: int|
        #![trigger other.in_row(i, k), other.in_row(i, l)]
        other.in_row(i, k) && other.in_row(i, l) && k < l implies other.column_indices[k]
        < other.column_indices[l] by {
        assert(m.in_row(i, k) && m.in_row(i, l));
    }
    assert forall|p: (u32, u32)| #[trigger]
        other.coord_map.dom().contains(p) implies other.in_row(
        p.0 as int,
        other.coord_map[p] as int,
    ) && other.column_indices[other.coord_map[p] as int] == p.1 by {
        assert(m.in_row(p.0 as int, m.coord_map[p] as int));
    }
    assert forall|i: int, k: int| #[trigger] other.in_row(i, k) implies other.coord_map.dom().contains(
        (i as u32, other.column_indices[k]),
    ) by {
        assert(m.in_row(i, k));
    }
    if m.nnz() > 0 {
        let (i, k) = choose|i: int, k: int|
            #![trigger m.in_row(i, k)]
            m.in_row(i, k) && (i + 1 == m.dim() || m.column_indices[k] + 1 == m.dim());
        assert(other.in_row(i, k));
    }
}

/// A sparse complex matrix `A` in compressed-row form with a fixed sparsity
/// pattern, a dense right-hand side `b` and a dense solution `x`.
pub struct LinearEquations {
    value_map: HashMap<u64, usize>,
    column_indices: Vec<u32>,
    row_pointers: Vec<usize>,
    a: Vec<c64>,
    x: Vec<c64>,
    b: Vec<c64>,
}

impl View for LinearEquations {
    type V = LinearSystem;

    closed spec fn view(&self) -> LinearSystem {
        LinearSystem {
            row_pointers: self.row_pointers@,
            column_indices: self.column_indices@,
            coord_map: Map::new(
                |p: (u32, u32)| self.value_map@.contains_key(key_of(p.0, p.1)),
                |p: (u32, u32)| self.value_map@[key_of(p.0, p.1)],
            ),
            a: self.a@,
            x: self.x@,
            b: self.b@,
        }
    }
}

/// All keys before position `upto` lie in rows below `row`.
spec fn rows_below(keys: Seq<u64>, upto: int, row: int) -> bool {
    forall|t: int| 0 <= t < upto && t < keys.len() ==> key_row(#[trigger] keys[t]) < row
}

/// All keys from position `from` on lie in row `row` or later.
spec fn rows_from(keys: Seq<u64>, from: int, row: int) -> bool {
    forall|t: int| from <= t < keys.len() ==> key_row(#[trigger] keys[t]) >= row
}

/// Every key names a row and a column below `n`.
spec fn keys_within(keys: Seq<u64>, n: int) -> bool {
    forall|t: int|
        0 <= t < keys.len() ==> key_row(#[trigger] keys[t]) < n && key_col(keys[t]) < n
}

/// `n` is as small as `keys_within` allows.
spec fn keys_reach(keys: Seq<u64>, n: int) -> bool {
    if keys.len() == 0 {
        n == 0
    } else {
        exists|t: int|
            0 <= t < keys.len() && (key_row(#[trigger] keys[t]) + 1 == n || key_col(keys[t]) + 1
                == n)
    }
}

/// A vector of `n` zeros.
fn zeros(n: usize) -> (v: Vec<c64>)
    ensures
        v.len() == n,
        forall|i: int| 0 <= i < n ==> v[i] == c64::zero(),
{
    let mut v: Vec<c64> = Vec::new();
    let mut i: usize = 0;
    while i < n
        invariant
            i <= n,
            v.len() == i,
            forall|t: int| 0 <= t < i ==> v[t] == c64::zero(),
        decreases n - i,
    {
        v.push(c64::zero());
        i += 1;
    }
    v
}

/// Two rows that share a position are the same row.
pub proof fn lemma_row_of_position(m: LinearSystem, i: int, j: int, k: int)
    requires
        m.wf(),
        m.in_row(i, k),
        m.in_row(j, k),
    ensures
        i == j,
{
    if i < j {
        assert(m.row_pointers[i + 1] <= m.row_pointers[j]);
    }
    if j < i {
        assert(m.row_pointers[j + 1] <= m.row_pointers[i]);
    }
}

/// A coordinate is among `coordinates` exactly if its key is among their keys.
proof fn lemma_key_in_coordinates(coordinates: Seq<(u32, u32)>, p: (u32, u32))
    ensures
        coordinates.to_set().contains(p) <==> exists|t: int|
            0 <= t < coordinates.len() && key_of(p.0, p.1) == key_of(
                (#[trigger] coordinates[t]).0,
                coordinates[t].1,
            ),
{
    if coordinates.contains(p) {
        let c = choose|c: int| 0 <= c < coordinates.len() && coordinates[c] == p;
        assert(key_of(p.0, p.1) == key_of(coordinates[c].0, coordinates[c].1));
    }
    if exists|t: int|
        0 <= t < coordinates.len() && key_of(p.0, p.1) == key_of(
            (#[trigger] coordinates[t]).0,
            coordinates[t].1,
        ) {
        let c = choose|c: int|
            0 <= c < coordinates.len() && key_of(p.0, p.1) == key_of(
                (#[trigger] coordinates[c]).0,
                coordinates[c].1,
            );
        lemma_key_round_trip(p.0, p.1);
        lemma_key_round_trip(coordinates[c].0, coordinates[c].1);
        assert(coordinates[c] == p);
        assert(coordinates.contains(p));
    }
}

/// Keys that come from bounded keys and bounded coordinates are bounded.
proof fn lemma_within(own: Seq<u64>, keys: Seq<u64>, coordinates: Seq<(u32, u32)>, n: int)
    requires
        forall|key: u64|
            keys.contains(key) <==> (own.contains(key) || exists|t: int|
                0 <= t < coordinates.len() && key == key_of(
                    (#[trigger] coordinates[t]).0,
                    coordinates[t].1,
                )),
        forall|t: int| 0 <= t < own.len() ==> key_row(#[trigger] own[t]) < n && key_col(own[t]) < n,
        forall|t: int|
            0 <= t < coordinates.len() ==> (#[trigger] coordinates[t]).0 < n && coordinates[t].1
                < n,
    ensures
        keys_within(keys, n),
{
    assert forall|t: int| 0 <= t < keys.len() implies key_row(#[trigger] keys[t]) < n && key_col(
        keys[t],
    ) < n by {
        assert(keys.contains(keys[t]));
        if own.contains(keys[t]) {
            let s = choose|s: int| 0 <= s < own.len() && own[s] == keys[t];
            assert(key_row(own[s]) < n);
        } else {
            let c = choose|c: int|
                0 <= c < coordinates.len() && keys[t] == key_of(
                    (#[trigger] coordinates[c]).0,
                    coordinates[c].1,
                );
            lemma_key_round_trip(coordinates[c].0, coordinates[c].1);
        }
    }
}

/// A coordinate that reaches `n - 1` has a key that does.
proof fn lemma_reached(keys: Seq<u64>, coordinates: Seq<(u32, u32)>, n: int)
    requires
        forall|t: int|
            0 <= t < coordinates.len() ==> keys.contains(
                key_of((#[trigger] coordinates[t]).0, coordinates[t].1),
            ),
        exists|t: int|
            0 <= t < coordinates.len() && ((#[trigger] coordinates[t]).0 + 1 == n
                || coordinates[t].1 + 1 == n),
    ensures
        keys_reach(keys, n),
{
    let c = choose|c: int|
        0 <= c < coordinates.len() && ((#[trigger] coordinates[c]).0 + 1 == n || coordinates[c].1
            + 1 == n);
    let key = key_of(coordinates[c].0, coordinates[c].1);
    lemma_key_round_trip(coordinates[c].0, coordinates[c].1);
    assert(keys.contains(key));
    let t = choose|t: int| 0 <= t < keys.len() && keys[t] == key;
    assert(key_row(keys[t]) + 1 == n || key_col(keys[t]) + 1 == n);
}

/// Adds the keys of the coordinates to a sorted vector of distinct keys and
/// returns the dimension that `n0` and the coordinates call for.
fn insert_coordinates(keys: &mut Vec<u64>, coordinates: &Vec<(u32, u32)>, n0: usize) -> (n: usize)
    requires
        strictly_increasing(old(keys)@),
        n0 + 1 <= usize::MAX,
        forall|t: int|
            0 <= t < coordinates.len() ==> addressable((#[trigger] coordinates[t]).0)
                && addressable(coordinates[t].1),
    ensures
        strictly_increasing(final(keys)@),
        forall|key: u64|
            final(keys)@.contains(key) <==> (old(keys)@.contains(key) || exists|t: int|
                0 <= t < coordinates.len() && key == key_of(
                    (#[trigger] coordinates[t]).0,
                    coordinates[t].1,
                )),
        forall|t: int|
            0 <= t < coordinates.len() ==> final(keys)@.contains(
                key_of((#[trigger] coordinates[t]).0, coordinates[t].1),
            ),
        n0 <= n,
        n + 1 <= usize::MAX,
        forall|t: int|
            0 <= t < coordinates.len() ==> (#[trigger] coordinates[t]).0 < n && coordinates[t].1
                < n,
        n == n0 || exists|t: int|
            0 <= t < coordinates.len() && ((#[trigger] coordinates[t]).0 + 1 == n
                || coordinates[t].1 + 1 == n),
        coordinates.len() == 0 ==> n == n0,
{
    let mut n: usize = n0;
    let mut i: usize = 0;
    while i < coordinates.len()
        invariant
            i <= coordinates.len(),
            forall|t: int|
                0 <= t < coordinates.len() ==> addressable((#[trigger] coordinates[t]).0)
                    && addressable(coordinates[t].1),
            strictly_increasing(keys@),
            forall|key: u64|
                keys@.contains(key) <==> (old(keys)@.contains(key) || exists|t: int|
                    0 <= t < i && key == key_of((#[trigger] coordinates[t]).0, coordinates[t].1)),
            n0 <= n,
            n + 1 <= usize::MAX,
            forall|t: int| 0 <= t < i ==> (#[trigger] coordinates[t]).0 < n && coordinates[t].1 < n,
            n == n0 || exists|t: int|
                0 <= t < i && ((#[trigger] coordinates[t]).0 + 1 == n || coordinates[t].1 + 1
                    == n),
        decreases coordinates.len() - i,
    {
        let (row, col) = coordinates[i];
        let ghost before = keys@;
        let ghost n_before = n;
        insert_key(keys, make_key(row, col));
        if row as usize + 1 > n {
            n = row as usize + 1;
        }
        if col as usize + 1 > n {
            n = col as usize + 1;
        }
        proof {
            if n == n_before && n != n0 {
                let t = choose|t: int|
                    0 <= t < i && ((#[trigger] coordinates[t]).0 + 1 == n_before || coordinates[t].1
                        + 1 == n_before);
                assert(0 <= t < i + 1);
            } else if n != n0 {
                assert(coordinates[i as int].0 + 1 == n || coordinates[i as int].1 + 1 == n);
            }
            assert forall|key: u64|
                keys@.contains(key) <==> (old(keys)@.contains(key) || exists|t: int|
                    0 <= t < i + 1 && key == key_of(
                        (#[trigger] coordinates[t]).0,
                        coordinates[t].1,
                    )) by {
                if keys@.contains(key) && !old(keys)@.contains(key) {
                    if before.contains(key) {
                        let t = choose|t: int|
                            0 <= t < i && key == key_of(
                                (#[trigger] coordinates[t]).0,
                                coordinates[t].1,
                            );
                        assert(0 <= t < i + 1);
                    } else {
                        assert(key == key_of(coordinates[i as int].0, coordinates[i as int].1));
                    }
                }
                if exists|t: int|
                    0 <= t < i + 1 && key == key_of(
                        (#[trigger] coordinates[t]).0,
                        coordinates[t].1,
                    ) {
                    let t = choose|t: int|
                        0 <= t < i + 1 && key == key_of(
                            (#[trigger] coordinates[t]).0,
                            coordinates[t].1,
                        );
                    if t < i {
                        assert(before.contains(key));
                    }
                }
            }
        }
        i += 1;
    }
    assert(forall|t: int|
        0 <= t < coordinates.len() ==> keys@.contains(
            key_of((#[trigger] coordinates[t]).0, coordinates[t].1),
        ));
    n
}

impl LinearEquations {
    /// Lays out compressed rows over sorted, distinct keys.
    fn build(keys: &Vec<u64>, n: usize) -> (le: LinearEquations)
        requires
            strictly_increasing(keys@),
            keys_within(keys@, n as int),
            keys_reach(keys@, n as int),
            n + 1 <= usize::MAX,
        ensures
            le@.wf(),
            le@.dim() == n,
            forall|p: (u32, u32)| le@.reserved().contains(p) <==> keys@.contains(key_of(p.0, p.1)),
            le@.a_is_zero(),
            le@.x_is_zero(),
            le@.b_is_zero(),
    {
        let mut value_map: HashMap<u64, usize> = HashMap::new();
        let mut column_indices: Vec<u32> = Vec::new();
        let mut row_pointers: Vec<usize> = Vec::new();
        let mut k: usize = 0;
        let mut r: usize = 0;
        while r <= n
            invariant
                strictly_increasing(keys@),
                r <= n + 1,
                n + 1 <= usize::MAX,
                row_pointers.len() == r,
                k <= keys.len(),
                column_indices.len() == k,
                r == 0 ==> k == 0,
                rows_below(keys@, k as int, r as int - 1),
                forall|i: int|
                    0 <= i < r ==> (#[trigger] row_pointers[i]) <= k && rows_below(
                        keys@,
                        row_pointers[i] as int,
                        i,
                    ) && rows_from(keys@, row_pointers[i] as int, i),
                forall|t: int| 0 <= t < k ==> #[trigger] column_indices[t] == key_col(keys[t]),
                forall|key: u64|
                    value_map@.contains_key(key) ==> 0 <= (#[trigger] value_map@[key]) < k
                        && keys[value_map@[key] as int] == key,
                forall|t: int|
                    0 <= t < k ==> value_map@.contains_key(#[trigger] keys[t]) && value_map@[keys[t]]
                        == t,
            decreases n + 1 - r,
        {
            while k < keys.len() && keys[k] / KEY_STRIDE < r as u64
                invariant
                    strictly_increasing(keys@),
                    k <= keys.len(),
                    column_indices.len() == k,
                    r <= n,
                    rows_below(keys@, k as int, r as int),
                    forall|t: int| 0 <= t < k ==> #[trigger] column_indices[t] == key_col(keys[t]),
                    forall|key: u64|
                        value_map@.contains_key(key) ==> 0 <= (#[trigger] value_map@[key]) < k
                            && keys[value_map@[key] as int] == key,
                    forall|t: int|
                        0 <= t < k ==> value_map@.contains_key(#[trigger] keys[t])
                            && value_map@[keys[t]] == t,
                decreases keys.len() - k,
            {
                let key = keys[k];
                column_indices.push((key % KEY_STRIDE) as u32);
                value_map.insert(key, k);
                proof {
                    assert forall|t: int| 0 <= t < k implies keys[t] != key by {
                        assert(keys[t] < keys[k as int]);
                    }
                }
                k += 1;
            }
            proof {
                assert(rows_from(keys@, k as int, r as int)) by {
                    assert forall|t: int| k <= t < keys.len() implies key_row(
                        #[trigger] keys[t],
                    ) >= r by {
                        assert(k < keys.len());
                        if t > k {
                            assert(keys[k as int] < keys[t]);
                        }
                    }
                }
            }
            row_pointers.push(k);
            r += 1;
        }
        let a = zeros(k);
        let x = zeros(n);
        let b = zeros(n);
        let le = LinearEquations { value_map, column_indices, row_pointers, a, x, b };
        proof {
            let m = le@;
            assert(m.dim() == n);
            assert(n <= 0x1_0000_0000) by {
                if keys.len() > 0 {
                    let t = choose|t: int|
                        0 <= t < keys.len() && (key_row(#[trigger] keys[t]) + 1 == n || key_col(
                            keys[t],
                        ) + 1 == n);
                }
            }
            assert(k == keys.len()) by {
                if k < keys.len() {
                    assert(rows_from(keys@, m.row_pointers[n as int] as int, n as int));
                    assert(key_row(keys[m.row_pointers[n as int] as int]) >= n);
                }
            }
            assert(m.row_pointers[n as int] == k) by {
                if m.row_pointers[n as int] < k {
                    assert(rows_from(keys@, m.row_pointers[n as int] as int, n as int));
                    assert(key_row(keys[m.row_pointers[n as int] as int]) >= n);
                }
            }
            assert(m.row_pointers[0] == 0) by {
                if m.row_pointers[0] > 0 {
                    assert(rows_below(keys@, m.row_pointers[0] as int, 0));
                    assert(key_row(keys[0]) < 0);
                }
            }
            assert forall|i: int, j: int| 0 <= i <= j <= n implies m.row_pointers[i]
                <= m.row_pointers[j] by {
                if m.row_pointers[i] > m.row_pointers[j] {
                    let t = m.row_pointers[j] as int;
                    assert(rows_below(keys@, m.row_pointers[i] as int, i));
                    assert(rows_from(keys@, m.row_pointers[j] as int, j));
                    assert(key_row(keys[t]) < i);
                    assert(key_row(keys[t]) >= j);
                }
            }
            assert forall|i: int, t: int| #[trigger] m.in_row(i, t) implies key_row(keys[t]) == i
                && 0 <= t < k by {
                assert(rows_from(keys@, m.row_pointers[i] as int, i));
                assert(rows_below(keys@, m.row_pointers[i + 1] as int, i + 1));
                assert(m.row_pointers[i + 1] <= k);
            }
            assert forall|i: int, s: int, l: int|
                #![trigger m.in_row(i, s), m.in_row(i, l)]
                m.in_row(i, s) && m.in_row(i, l) && s < l implies m.column_indices[s]
                < m.column_indices[l] by {
                assert(key_row(keys[s]) == i && key_row(keys[l]) == i);
                assert(keys[s] < keys[l]);
            }
            assert forall|p: (u32, u32)| #[trigger]
                m.coord_map.dom().contains(p) implies m.in_row(
                p.0 as int,
                m.coord_map[p] as int,
            ) && m.column_indices[m.coord_map[p] as int] == p.1 by {
                let key = key_of(p.0, p.1);
                let t = le.value_map@[key] as int;
                assert(keys[t] == key);
                lemma_key_round_trip(p.0, p.1);
                assert(key_row(keys[t]) == p.0);
                let i = p.0 as int;
                if t < m.row_pointers[i] {
                    assert(rows_below(keys@, m.row_pointers[i] as int, i));
                }
                if t >= m.row_pointers[i + 1] {
                    assert(rows_from(keys@, m.row_pointers[i + 1] as int, i + 1));
                }
            }
            assert forall|i: int, t: int| #[trigger] m.in_row(i, t) implies m.coord_map.dom().contains(
                (i as u32, m.column_indices[t]),
            ) by {
                assert(key_row(keys[t]) == i);
                lemma_key_of_parts(keys[t]);
            }
            assert(m.tight()) by {
                if m.nnz() > 0 {
                    let t = choose|t: int|
                        0 <= t < keys.len() && (key_row(#[trigger] keys[t]) + 1 == n || key_col(
                            keys[t],
                        ) + 1 == n);
                    let i = key_row(keys[t]) as int;
                    if t < m.row_pointers[i] {
                        assert(rows_below(keys@, m.row_pointers[i] as int, i));
                    }
                    if t >= m.row_pointers[i + 1] {
                        assert(rows_from(keys@, m.row_pointers[i + 1] as int, i + 1));
                    }
                    assert(m.in_row(i, t));
                }
            }
            assert forall|p: (u32, u32)| m.reserved().contains(p) <==> keys@.contains(
                key_of(p.0, p.1),
            ) by {
                let key = key_of(p.0, p.1);
                if keys@.contains(key) {
                    let t = choose|t: int| 0 <= t < keys.len() && keys[t] == key;
                    assert(le.value_map@.contains_key(keys[t]));
                }
                if m.reserved().contains(p) {
                    assert(keys[le.value_map@[key] as int] == key);
                }
            }
        }
        le
    }

    /// The system over the given coordinates: `N` is one more than the
    /// largest index among them (zero if there are none), every coordinate
    /// has one stored position, rows are laid out in order with ascending
    /// columns, and `A`, `x` and `b` are zero.
    pub fn from_coordinates(coordinates: Vec<(u32, u32)>) -> (le: LinearEquations)
        requires
            forall|t: int|
                0 <= t < coordinates.len() ==> addressable((#[trigger] coordinates[t]).0)
                    && addressable(coordinates[t].1),
        ensures
            le@.wf(),
            le@.reserved() =~= coordinates@.to_set(),
            spans(coordinates@, le@.dim()),
            le@.a_is_zero(),
            le@.x_is_zero(),
            le@.b_is_zero(),
    {
        let mut keys: Vec<u64> = Vec::new();
        let n = insert_coordinates(&mut keys, &coordinates, 0);
        proof {
            assert(keys_reach(keys@, n as int)) by {
                if coordinates.len() > 0 {
                    assert(coordinates[0].0 < n);
                    lemma_reached(keys@, coordinates@, n as int);
                } else {
                    if keys.len() > 0 {
                        assert(keys@.contains(keys[0]));
                    }
                }
            }
            lemma_within(Seq::empty(), keys@, coordinates@, n as int);
        }
        let le = LinearEquations::build(&keys, n);
        proof {
            assert forall|p: (u32, u32)| le@.reserved().contains(p) <==> coordinates@.to_set().contains(
                p,
            ) by {
                lemma_key_in_coordinates(coordinates@, p);
            }
        }
        le
    }

    /// Rebuilds the system over the coordinates it has together with the
    /// given ones. `N` grows as far as the new coordinates need. Storage is
    /// laid out anew, so `A`, `x` and `b` are zero afterwards.
    pub fn add_coordinates(&mut self, coordinates: Vec<(u32, u32)>)
        requires
            old(self)@.wf(),
            forall|t: int|
                0 <= t < coordinates.len() ==> addressable((#[trigger] coordinates[t]).0)
                    && addressable(coordinates[t].1),
        ensures
            final(self)@.wf(),
            final(self)@.reserved() =~= old(self)@.reserved().union(coordinates@.to_set()),
            final(self)@.dim() >= old(self)@.dim(),
            final(self)@.a_is_zero(),
            final(self)@.x_is_zero(),
            final(self)@.b_is_zero(),
    {
        let mut keys = self.keys();
        let ghost own = keys@;
        let n0 = self.x.len();
        assert(self.row_pointers.len() == n0 + 1);
        let n = insert_coordinates(&mut keys, &coordinates, n0);
        proof {
            let m = self@;
            lemma_within(own, keys@, coordinates@, n as int);
            assert(keys_reach(keys@, n as int)) by {
                if n == n0 {
                    if m.nnz() == 0 {
                        if keys.len() > 0 {
                            assert(keys@.contains(keys[0]));
                            let c = choose|c: int|
                                0 <= c < coordinates.len() && keys[0] == key_of(
                                    (#[trigger] coordinates[c]).0,
                                    coordinates[c].1,
                                );
                            assert(coordinates[c].0 < n);
                        }
                    } else {
                        let (i, k) = choose|i: int, k: int|
                            #![trigger m.in_row(i, k)]
                            m.in_row(i, k) && (i + 1 == m.dim() || m.column_indices[k] + 1
                                == m.dim());
                        assert(0 <= i < 0x1_0000_0000);
                        let key = key_of(i as u32, m.column_indices[k]);
                        lemma_key_round_trip(i as u32, m.column_indices[k]);
                        assert(m.reserved().contains((i as u32, m.column_indices[k])));
                        assert(own.contains(key));
                        assert(keys@.contains(key));
                        let t = choose|t: int| 0 <= t < keys.len() && keys[t] == key;
                        assert(key_row(keys[t]) + 1 == n || key_col(keys[t]) + 1 == n);
                    }
                } else {
                    lemma_reached(keys@, coordinates@, n as int);
                }
            }
        }
        let le = LinearEquations::build(&keys, n);
        proof {
            assert forall|p: (u32, u32)|
                le@.reserved().contains(p) <==> self@.reserved().union(
                    coordinates@.to_set(),
                ).contains(p) by {
                lemma_key_in_coordinates(coordinates@, p);
            }
        }
        *self = le;
    }

    /// The keys of the reserved coordinates, sorted.
    fn keys(&self) -> (keys: Vec<u64>)
        requires
            self@.wf(),
        ensures
            strictly_increasing(keys@),
            forall|t: int|
                0 <= t < keys.len() ==> key_row(#[trigger] keys[t]) < self@.dim() && key_col(keys[t])
                    < self@.dim(),
            forall|p: (u32, u32)| self@.reserved().contains(p) <==> keys@.contains(key_of(p.0, p.1)),
    {
        let ghost m = self@;
        let mut keys: Vec<u64> = Vec::new();
        let n = self.x.len();
        let mut i: usize = 0;
        let mut t: usize = 0;
        while i < n
            invariant
                m == self@,
                m.wf(),
                n == m.dim(),
                i <= n,
                t == m.row_pointers[i as int],
                strictly_increasing(keys@),
                forall|key: u64|
                    keys@.contains(key) ==> m.reserved().contains((key_row(key), key_col(key)))
                        && key == key_of(key_row(key), key_col(key)),
                forall|r: int, s: int|
                    #![trigger m.in_row(r, s)]
                    m.in_row(r, s) && s < t ==> keys@.contains(
                        key_of(r as u32, m.column_indices[s]),
                    ),
            decreases n - i,
        {
            let end = self.row_pointers[i + 1];
            while t < end
                invariant
                    m == self@,
                    m.wf(),
                    n == m.dim(),
                    i < n,
                    m.row_pointers[i as int] <= t <= end,
                    end == m.row_pointers[i + 1],
                    strictly_increasing(keys@),
                    forall|key: u64|
                        keys@.contains(key) ==> m.reserved().contains((key_row(key), key_col(key)))
                            && key == key_of(key_row(key), key_col(key)),
                    forall|r: int, s: int|
                        #![trigger m.in_row(r, s)]
                        m.in_row(r, s) && s < t ==> keys@.contains(
                            key_of(r as u32, m.column_indices[s]),
                        ),
                decreases end - t,
            {
                let ghost before = keys@;
                assert(m.in_row(i as int, t as int));
                let key = make_key(i as u32, self.column_indices[t]);
                insert_key(&mut keys, key);
                proof {
                    lemma_key_round_trip(i as u32, m.column_indices[t as int]);
                    assert forall|r: int, s: int|
                        #![trigger m.in_row(r, s)]
                        m.in_row(r, s) && s < t + 1 implies keys@.contains(
                        key_of(r as u32, m.column_indices[s]),
                    ) by {
                        if s < t {
                            assert(before.contains(key_of(r as u32, m.column_indices[s])));
                        } else {
                            lemma_row_of_position(m, r, i as int, s);
                        }
                    }
                }
                t += 1;
            }
            i += 1;
        }
        proof {
            assert forall|p: (u32, u32)| m.reserved().contains(p) <==> keys@.contains(
                key_of(p.0, p.1),
            ) by {
                lemma_key_round_trip(p.0, p.1);
                if m.reserved().contains(p) {
                    assert(m.in_row(p.0 as int, m.coord_map[p] as int));
                }
            }
            assert forall|s: int| 0 <= s < keys.len() implies key_row(#[trigger] keys[s]) < m.dim()
                && key_col(keys[s]) < m.dim() by {
                assert(keys@.contains(keys[s]));
                let p = (key_row(keys[s]), key_col(keys[s]));
                assert(m.in_row(p.0 as int, m.coord_map[p] as int));
            }
        }
        keys
    }

    /// The system with no unknowns and no storage.
    pub fn new() -> (le: LinearEquations)
        ensures
            le@.wf(),
            le@.dim() == 0,
            le@.nnz() == 0,
            le@.reserved() =~= Set::<(u32, u32)>::empty(),
    {
        let le = LinearEquations::from_coordinates(Vec::new());
        proof {
            assert(Seq::<(u32, u32)>::empty().to_set() =~= Set::<(u32, u32)>::empty());
            if le@.nnz() > 0 {
                assert(le@.in_row(0, 0) ==> le@.reserved().contains((0u32, le@.column_indices[0])));
            }
        }
        le
    }

    /// The numbers of rows and of columns, both `N`.
    pub fn dimensions(&self) -> (d: (usize, usize))
        requires
            self@.wf(),
        ensures
            d.0 == self@.dim(),
            d.1 == self@.dim(),
    {
        (self.b.len(), self.x.len())
    }

    /// The stored position of `A[row, col]`, if the coordinate is reserved.
    pub fn index_of(&self, row: u32, col: u32) -> (r: Option<usize>)
        ensures
            r is Some <==> self@.reserved().contains((row, col)),
            r is Some ==> r->0 == self@.coord_map[(row, col)],
    {
        match self.value_map.get(&make_key(row, col)) {
            Some(k) => Some(*k),
            None => None,
        }
    }

    /// Zeroes the stored values of row `i`. Leaves `b` as it is.
    pub fn clear_row(&mut self, i: u32)
        requires
            old(self)@.wf(),
            i < old(self)@.dim(),
        ensures
            final(self)@ == old(self)@.cleared_row(i as int),
            final(self)@.wf(),
    {
        let row = i as usize;
        assert(row + 1 < self.row_pointers.len());
        let start = self.row_pointers[row];
        let end = self.row_pointers[row + 1];
        let mut k = start;
        while k < end
            invariant
                start <= k <= end <= self.a.len(),
                self.a.len() == old(self).a.len(),
                self.row_pointers == old(self).row_pointers,
                self.column_indices == old(self).column_indices,
                self.value_map == old(self).value_map,
                self.x == old(self).x,
                self.b == old(self).b,
                forall|t: int| start <= t < k ==> self.a[t] == c64::zero(),
                forall|t: int|
                    0 <= t < self.a.len() && !(start <= t < k) ==> self.a[t] == old(self).a[t],
            decreases end - k,
        {
            self.a.set(k, c64::zero());
            k += 1;
        }
        proof {
            assert(self@.a =~= old(self)@.cleared_row(i as int).a);
            lemma_wf_same_pattern(old(self)@, self@);
        }
        assert(self@ == old(self)@.cleared_row(i as int));
    }

    /// Zeroes `A` and `b`. Keeps the sparsity pattern and keeps `x`, from
    /// which the next solve starts.
    pub fn reset(&mut self)
        requires
            old(self)@.wf(),
        ensures
            final(self)@ == old(self)@.cleared(),
            final(self)@.wf(),
    {
        let nnz = self.a.len();
        let n = self.b.len();
        self.a = zeros(nnz);
        self.b = zeros(n);
        proof {
            assert(self@.a =~= old(self)@.cleared().a);
            assert(self@.b =~= old(self)@.cleared().b);
            lemma_wf_same_pattern(old(self)@, self@);
        }
        assert(self@ == old(self)@.cleared());
    }

    /// `A[row, col] <- value`. Fails, and changes nothing, where the
    /// coordinate has no storage.
    pub fn set_a(&mut self, row: u32, col: u32, value: c64) -> (r: Result<(), CircuitError>)
        requires
            old(self)@.wf(),
        ensures
            r is Ok <==> old(self)@.reserved().contains((row, col)),
            r is Ok ==> final(self)@ == old(self)@.with_a(
                old(self)@.coord_map[(row, col)] as int,
                value,
            ),
            r is Err ==> r == Err::<(), CircuitError>(
                CircuitError::UnreservedCoordinate { row, col },
            ) && final(self)@ == old(self)@,
            final(self)@.wf(),
    {
        match self.index_of(row, col) {
            Some(k) => {
                assert(old(self)@.in_row(row as int, k as int));
                self.a.set(k, value);
                proof {
                    lemma_wf_same_pattern(old(self)@, self@);
                }
                assert(self@ == old(self)@.with_a(k as int, value));
                Ok(())
            },
            None => Err(CircuitError::UnreservedCoordinate { row, col }),
        }
    }

    /// The value of `A[row, col]`. Fails where the coordinate has no storage.
    pub fn get_a(&self, row: u32, col: u32) -> (r: Result<c64, CircuitError>)
        requires
            self@.wf(),
        ensures
            r is Ok <==> self@.reserved().contains((row, col)),
            r is Ok ==> r->Ok_0 == self@.a[self@.coord_map[(row, col)] as int],
            r is Err ==> r == Err::<c64, CircuitError>(
                CircuitError::UnreservedCoordinate { row, col },
            ),
    {
        match self.index_of(row, col) {
            Some(k) => {
                assert(self@.in_row(row as int, k as int));
                Ok(self.a[k])
            },
            None => Err(CircuitError::UnreservedCoordinate { row, col }),
        }
    }

    /// Makes row `n` the equation `x[n] = value`: clears the row, sets
    /// `A[n, n] <- 1` and `b[n] <- value`. Whatever was stamped into the row
    /// before is overridden. Fails, and changes nothing, where `(n, n)` has
    /// no storage.
    pub fn pin_node(&mut self, n: u32, value: c64) -> (r: Result<(), CircuitError>)
        requires
            old(self)@.wf(),
        ensures
            r is Ok <==> old(self)@.reserved().contains((n, n)),
            r is Ok ==> final(self)@ == old(self)@.pinned(n, value),
            r is Err ==> r == Err::<(), CircuitError>(
                CircuitError::UnreservedCoordinate { row: n, col: n },
            ) && final(self)@ == old(self)@,
            final(self)@.wf(),
    {
        match self.index_of(n, n) {
            Some(k) => {
                assert(self@.in_row(n as int, k as int));
                self.clear_row(n);
                self.a.set(k, c64::one());
                self.b.set(n as usize, value);
                proof {
                    lemma_wf_same_pattern(old(self)@, self@);
                }
                assert(self@ == old(self)@.pinned(n, value));
                Ok(())
            },
            None => Err(CircuitError::UnreservedCoordinate { row: n, col: n }),
        }
    }

    /// `b[i] <- value`.
    pub fn set_b(&mut self, i: u32, value: c64)
        requires
            old(self)@.wf(),
            i < old(self)@.dim(),
        ensures
            final(self)@ == old(self)@.with_b(i as int, value),
            final(self)@.wf(),
    {
        self.b.set(i as usize, value);
        proof {
            lemma_wf_same_pattern(old(self)@, self@);
        }
        assert(self@ == old(self)@.with_b(i as int, value));
    }

    /// The source current at node `i`: `b[i]`.
    pub fn get_current(&self, i: u32) -> (value: c64)
        requires
            self@.wf(),
            i < self@.dim(),
        ensures
            value == self@.b[i as int],
    {
        self.b[i as usize]
    }

    /// The solved voltage at node `i`: `x[i]`.
    pub fn get_voltage(&self, i: u32) -> (value: c64)
        requires
            self@.wf(),
            i < self@.dim(),
        ensures
            value == self@.x[i as int],
    {
        self.x[i as usize]
    }

    /// The diagonal of `A`: the value of `A[i, i]` for each row `i` that
    /// stores it, in the order of the rows.
    pub fn diag(&self) -> (values: Vec<c64>)
        requires
            self@.wf(),
        ensures
            values@ == self@.diagonal_upto(self@.dim() as int),
    {
        let n = self.x.len();
        let mut values: Vec<c64> = Vec::new();
        let mut i: usize = 0;
        while i < n
            invariant
                self@.wf(),
                n == self@.dim(),
                i <= n,
                values@ == self@.diagonal_upto(i as int),
            decreases n - i,
        {
            let row = i as u32;
            match self.index_of(row, row) {
                Some(k) => {
                    assert(self@.in_row(row as int, k as int));
                    assert(self@.row_pointers[row + 1] <= self@.row_pointers[self@.dim() as int]);
                    values.push(self.a[k]);
                },
                None => {},
            }
            i += 1;
        }
        values
    }

    /// Writes the stored value at a position.
    pub fn set_value(&mut self, position: usize, value: c64)
        requires
            old(self)@.wf(),
            position < old(self)@.nnz(),
        ensures
            final(self)@ == old(self)@.with_a(position as int, value),
            final(self)@.wf(),
    {
        self.a.set(position, value);
        proof {
            lemma_wf_same_pattern(old(self)@, self@);
        }
        assert(self@ == old(self)@.with_a(position as int, value));
    }

    /// Replaces the solution vector.
    pub fn set_solution(&mut self, x: Vec<c64>)
        requires
            old(self)@.wf(),
            x.len() == old(self)@.dim(),
        ensures
            final(self)@ == old(self)@.with_x(x@),
            final(self)@.wf(),
    {
        self.x = x;
        proof {
            lemma_wf_same_pattern(old(self)@, self@);
        }
        assert(self@ == old(self)@.with_x(x@));
    }

    /// The stored values of `A`, by position.
    pub fn values(&self) -> (a: &Vec<c64>)
        ensures
            a@ == self@.a,
    {
        &self.a
    }

    /// The column of each stored position.
    pub fn column_indices(&self) -> (columns: &Vec<u32>)
        ensures
            columns@ == self@.column_indices,
    {
        &self.column_indices
    }

    /// The row pointers: row `i` holds the positions from `row_pointers[i]`
    /// up to, and without, `row_pointers[i + 1]`.
    pub fn row_pointers(&self) -> (pointers: &Vec<usize>)
        ensures
            pointers@ == self@.row_pointers,
    {
        &self.row_pointers
    }

    /// The solution vector `x`.
    pub fn solution(&self) -> (x: &Vec<c64>)
        ensures
            x@ == self@.x,
    {
        &self.x
    }

    /// The right-hand side `b`.
    pub fn rhs(&self) -> (b: &Vec<c64>)
        ensures
            b@ == self@.b,
    {
        &self.b
    }
}

} // verus!
