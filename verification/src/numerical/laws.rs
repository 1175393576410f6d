//! What holds of every well-formed linear system.

use crate::numerical::complex::c64;
use crate::numerical::equations::{lemma_row_of_position, LinearSystem};
use vstd::prelude::*;

verus! {

/// Every coordinate that a system was built over is found through the
/// coordinate map at a position of its own row, and that position holds its
/// column.
pub proof fn lemma_lookup_lands_in_row(m: LinearSystem, coordinates: Seq<(u32, u32)>, t: int)
    requires
        m.wf(),
        m.reserved() == coordinates.to_set(),
        0 <= t < coordinates.len(),
    ensures
        m.coord_map.dom().contains(coordinates[t]),
        coordinates[t].0 < m.dim(),
        m.row_pointers[coordinates[t].0 as int] <= m.coord_map[coordinates[t]]
            < m.row_pointers[coordinates[t].0 + 1],
        m.column_indices[m.coord_map[coordinates[t]] as int] == coordinates[t].1,
{
    assert(coordinates.contains(coordinates[t]));
    assert(coordinates.to_set().contains(coordinates[t]));
    assert(m.coord_map.dom().contains(coordinates[t]));
    assert(m.in_row(coordinates[t].0 as int, m.coord_map[coordinates[t]] as int));
}

/// Within a row the columns are strictly increasing, so no column occurs twice in a row.
pub proof fn lemma_columns_ascend(m: LinearSystem, i: int, k: int, l: int)
    requires
        m.wf(),
        0 <= i < m.dim(),
        m.row_pointers[i] <= k < l < m.row_pointers[i + 1],
    ensures
        m.column_indices[k] < m.column_indices[l],
{
    assert(m.in_row(i, k) && m.in_row(i, l));
}

/// The last row pointer is the number of stored columns and of stored values.
pub proof fn lemma_storage_lengths(m: LinearSystem)
    requires
        m.wf(),
    ensures
        m.row_pointers[m.dim() as int] == m.column_indices.len(),
        m.row_pointers[m.dim() as int] == m.a.len(),
        m.row_pointers.len() == m.dim() + 1,
        m.row_pointers[0] == 0,
{
}

/// The position that the coordinate map gives for a stored entry is the
/// entry's own position.
pub proof fn lemma_position_of_entry(m: LinearSystem, i: int, k: int)
    requires
        m.wf(),
        m.in_row(i, k),
    ensures
        m.reserved().contains((i as u32, m.column_indices[k])),
        m.coord_map[(i as u32, m.column_indices[k])] == k,
{
    let p = (i as u32, m.column_indices[k]);
    assert(m.reserved().contains(p));
    let l = m.coord_map[p] as int;
    assert(m.in_row(i, l));
    if l < k {
        assert(m.column_indices[l] < m.column_indices[k]);
    }
    if k < l {
        assert(m.column_indices[k] < m.column_indices[l]);
    }
}

/// After a node is pinned its row is the identity row and its right-hand
/// side is the pinned value. Nothing else changes: not the pattern, not the
/// other rows, not the other entries of `b`, not `x`.
pub proof fn lemma_pinned_row(m: LinearSystem, n: u32, value: c64)
    requires
        m.wf(),
        m.reserved().contains((n, n)),
    ensures
        m.pinned(n, value).wf(),
        m.pinned(n, value).same_pattern(m),
        m.pinned(n, value).x == m.x,
        forall|k: int|
            #![trigger m.pinned(n, value).a[k]]
            m.in_row(n as int, k) ==> m.pinned(n, value).a[k] == (if m.column_indices[k] == n {
                c64::one()
            } else {
                c64::zero()
            }),
        forall|k: int|
            #![trigger m.pinned(n, value).a[k]]
            0 <= k < m.nnz() && !m.in_row(n as int, k) ==> m.pinned(n, value).a[k] == m.a[k],
        m.pinned(n, value).b[n as int] == value,
        forall|i: int|
            #![trigger m.pinned(n, value).b[i]]
            0 <= i < m.dim() && i != n ==> m.pinned(n, value).b[i] == m.b[i],
{
    let d = m.coord_map[(n, n)] as int;
    assert(m.in_row(n as int, d));
    crate::numerical::equations::lemma_wf_same_pattern(m, m.pinned(n, value));
    assert forall|k: int|
        #![trigger m.pinned(n, value).a[k]]
        m.in_row(n as int, k) implies m.pinned(n, value).a[k] == (if m.column_indices[k] == n {
        c64::one()
    } else {
        c64::zero()
    }) by {
        if m.column_indices[k] == n {
            lemma_position_of_entry(m, n as int, k);
        }
    }
}

/// Pinning a node erases what the row held: the result does not depend on
/// the values of `A` in that row or on `b[n]` before. Stamping the same
/// source into the same row again therefore gives the same words.
pub proof fn lemma_pin_overrides(m: LinearSystem, other: LinearSystem, n: u32, value: c64)
    requires
        m.wf(),
        other.wf(),
        m.same_pattern(other),
        m.reserved().contains((n, n)),
    ensures
        forall|k: int|
            #![trigger m.pinned(n, value).a[k]]
            m.in_row(n as int, k) ==> m.pinned(n, value).a[k] == other.pinned(n, value).a[k],
        m.pinned(n, value).b[n as int] == other.pinned(n, value).b[n as int],
{
    lemma_pinned_row(m, n, value);
    lemma_pinned_row(other, n, value);
    assert forall|k: int|
        #![trigger m.pinned(n, value).a[k]]
        m.in_row(n as int, k) implies m.pinned(n, value).a[k] == other.pinned(n, value).a[k] by {
        assert(other.in_row(n as int, k));
    }
}

/// Pinning a node twice to the same value is the same as pinning it once.
pub proof fn lemma_pin_idempotent(m: LinearSystem, n: u32, value: c64)
    requires
        m.wf(),
        m.reserved().contains((n, n)),
    ensures
        m.pinned(n, value).pinned(n, value) == m.pinned(n, value),
{
    let once = m.pinned(n, value);
    let twice = once.pinned(n, value);
    lemma_pinned_row(m, n, value);
    lemma_pinned_row(once, n, value);
    assert forall|k: int| 0 <= k < once.a.len() implies twice.a[k] == once.a[k] by {
        assert(once.in_row(n as int, k) == m.in_row(n as int, k));
    }
    assert(twice.a =~= once.a);
    assert(twice.b =~= once.b);
}

/// Clearing a row erases what it held: whatever the values were, the row is
/// zero afterwards, and the other rows, `b` and `x` are as before.
pub proof fn lemma_cleared_row(m: LinearSystem, i: int)
    requires
        m.wf(),
        0 <= i < m.dim(),
    ensures
        m.cleared_row(i).wf(),
        m.cleared_row(i).same_pattern(m),
        m.cleared_row(i).b == m.b,
        m.cleared_row(i).x == m.x,
        forall|k: int|
            #![trigger m.cleared_row(i).a[k]]
            m.in_row(i, k) ==> m.cleared_row(i).a[k] == c64::zero(),
        forall|k: int|
            #![trigger m.cleared_row(i).a[k]]
            0 <= k < m.nnz() && !m.in_row(i, k) ==> m.cleared_row(i).a[k] == m.a[k],
        m.cleared_row(i).cleared_row(i) == m.cleared_row(i),
{
    crate::numerical::equations::lemma_wf_same_pattern(m, m.cleared_row(i));
    assert forall|k: int| m.in_row(i, k) implies 0 <= k < m.nnz() by {
        assert(m.row_pointers[i + 1] <= m.row_pointers[m.dim() as int]);
    }
    let once = m.cleared_row(i);
    assert forall|k: int| 0 <= k < once.a.len() implies once.cleared_row(i).a[k] == once.a[k] by {
        assert(once.in_row(i, k) == m.in_row(i, k));
    }
    assert(once.cleared_row(i).a =~= once.a);
}

/// A reset zeroes `A` and `b` and keeps the pattern and the solution, so
/// the next solve starts from the last one.
pub proof fn lemma_cleared(m: LinearSystem)
    requires
        m.wf(),
    ensures
        m.cleared().wf(),
        m.cleared().same_pattern(m),
        m.cleared().x == m.x,
        m.cleared().a_is_zero(),
        m.cleared().b_is_zero(),
        m.cleared().cleared() == m.cleared(),
{
    crate::numerical::equations::lemma_wf_same_pattern(m, m.cleared());
    assert(m.cleared().cleared().a =~= m.cleared().a);
    assert(m.cleared().cleared().b =~= m.cleared().b);
}

/// Every stored position belongs to a row.
pub proof fn lemma_row_exists(m: LinearSystem, k: int)
    requires
        m.wf(),
        0 <= k < m.nnz(),
    ensures
        exists|i: int| m.in_row(i, k),
{
    lemma_find_row(m, k, 0);
}

/// From a row that begins at or before a position, a row that holds it is found.
proof fn lemma_find_row(m: LinearSystem, k: int, i: int)
    requires
        m.wf(),
        0 <= k < m.nnz(),
        0 <= i < m.dim(),
        m.row_pointers[i] <= k,
    ensures
        exists|r: int| m.in_row(r, k),
    decreases m.dim() - i,
{
    if k < m.row_pointers[i + 1] {
        assert(m.in_row(i, k));
    } else {
        if i + 1 == m.dim() {
            assert(m.row_pointers[i + 1] == m.nnz());
        } else {
            lemma_find_row(m, k, i + 1);
        }
    }
}

/// The row of a stored position.
pub open spec fn row_of(m: LinearSystem, k: int) -> int {
    choose|i: int| m.in_row(i, k)
}

/// The row-major rank of the coordinate stored at a position.
pub open spec fn rank_at(m: LinearSystem, k: int) -> int {
    row_of(m, k) * 0x1_0000_0000 + m.column_indices[k]
}

/// The ranks of the stored coordinates, by position.
pub open spec fn ranks(m: LinearSystem) -> Seq<int> {
    Seq::new(m.nnz(), |k: int| rank_at(m, k))
}

/// Each element of the sequence is smaller than the next.
pub open spec fn ascending(s: Seq<int>) -> bool {
    forall|i: int, j: int| 0 <= i < j < s.len() ==> s[i] < s[j]
}

/// Storage is in row-major order: a later position holds a coordinate of
/// higher rank.
pub proof fn lemma_ranks_ascend(m: LinearSystem)
    requires
        m.wf(),
    ensures
        ascending(ranks(m)),
{
    assert forall|k: int, l: int| 0 <= k < l < m.nnz() implies rank_at(m, k) < rank_at(m, l) by {
        lemma_row_exists(m, k);
        lemma_row_exists(m, l);
        let i = row_of(m, k);
        let j = row_of(m, l);
        if j < i {
            assert(m.row_pointers[j + 1] <= m.row_pointers[i]);
        }
        if i == j {
            assert(m.in_row(i, k) && m.in_row(i, l));
            assert(m.column_indices[k] < m.column_indices[l]);
        }
        assert(m.column_indices[k] < 0x1_0000_0000 && m.column_indices[l] < 0x1_0000_0000);
    }
}

/// A coordinate is reserved exactly if its rank is stored.
proof fn lemma_ranks_are_reserved(m: LinearSystem, p: (u32, u32))
    requires
        m.wf(),
    ensures
        m.reserved().contains(p) <==> ranks(m).contains(p.0 * 0x1_0000_0000 + p.1),
        m.reserved().contains(p) ==> 0 <= m.coord_map[p] < m.nnz() && rank_at(
            m,
            m.coord_map[p] as int,
        ) == p.0 * 0x1_0000_0000 + p.1,
{
    let rank = p.0 * 0x1_0000_0000 + p.1;
    if m.reserved().contains(p) {
        let k = m.coord_map[p] as int;
        assert(m.in_row(p.0 as int, k));
        assert(m.row_pointers[p.0 + 1] <= m.row_pointers[m.dim() as int]);
        lemma_row_of_position(m, row_of(m, k), p.0 as int, k);
        assert(ranks(m)[k] == rank);
    }
    if ranks(m).contains(rank) {
        let k = choose|k: int| 0 <= k < ranks(m).len() && ranks(m)[k] == rank;
        lemma_row_exists(m, k);
        let i = row_of(m, k);
        assert(m.in_row(i, k));
        assert(m.reserved().contains((i as u32, m.column_indices[k])));
        assert(i * 0x1_0000_0000 + m.column_indices[k] == p.0 * 0x1_0000_0000 + p.1);
        assert(m.column_indices[k] < 0x1_0000_0000);
        assert(i == p.0 && m.column_indices[k] == p.1) by (nonlinear_arith)
            requires
                i * 0x1_0000_0000 + m.column_indices[k] == p.0 * 0x1_0000_0000 + p.1,
                0 <= m.column_indices[k] < 0x1_0000_0000,
                0 <= p.1 < 0x1_0000_0000,
        ;
    }
}

/// Two ascending sequences with the same elements are the same sequence.
pub proof fn lemma_ascending_same(a: Seq<int>, b: Seq<int>)
    requires
        ascending(a),
        ascending(b),
        forall|x: int| a.contains(x) <==> b.contains(x),
    ensures
        a == b,
    decreases a.len(),
{
    if a.len() == 0 {
        if b.len() > 0 {
            assert(b.contains(b[0]));
        }
        assert(a =~= b);
    } else {
        assert(a.contains(a.last()));
        assert(b.contains(a.last()));
        assert(b.len() > 0);
        assert(b.contains(b.last()));
        assert(a.contains(b.last()));
        let i = choose|i: int| 0 <= i < b.len() && b[i] == a.last();
        let j = choose|j: int| 0 <= j < a.len() && a[j] == b.last();
        assert(a.last() == b.last()) by {
            if i < b.len() - 1 {
                assert(b[i] < b[b.len() - 1]);
            }
            if j < a.len() - 1 {
                assert(a[j] < a[a.len() - 1]);
            }
        }
        let shorter = a.drop_last();
        let other = b.drop_last();
        assert forall|x: int| shorter.contains(x) <==> other.contains(x) by {
            if shorter.contains(x) {
                let t = choose|t: int| 0 <= t < shorter.len() && shorter[t] == x;
                assert(a[t] == x);
                assert(a[t] < a[a.len() - 1]);
                assert(a.contains(x));
                let u = choose|u: int| 0 <= u < b.len() && b[u] == x;
                assert(other[u] == x);
            }
            if other.contains(x) {
                let t = choose|t: int| 0 <= t < other.len() && other[t] == x;
                assert(b[t] == x);
                assert(b[t] < b[b.len() - 1]);
                assert(b.contains(x));
                let u = choose|u: int| 0 <= u < a.len() && a[u] == x;
                assert(shorter[u] == x);
            }
        }
        lemma_ascending_same(shorter, other);
        assert(a =~= shorter.push(a.last()));
        assert(b =~= other.push(b.last()));
    }
}

/// The rank of a stored position gives its row and its column back.
proof fn lemma_rank_parts(m: LinearSystem, other: LinearSystem, k: int)
    requires
        m.wf(),
        other.wf(),
        0 <= k < m.nnz(),
        0 <= k < other.nnz(),
        rank_at(m, k) == rank_at(other, k),
    ensures
        row_of(m, k) == row_of(other, k),
        m.column_indices[k] == other.column_indices[k],
        m.in_row(row_of(m, k), k),
        other.in_row(row_of(m, k), k),
{
    lemma_row_exists(m, k);
    lemma_row_exists(other, k);
    let i = row_of(m, k);
    let j = row_of(other, k);
    let c = m.column_indices[k];
    let d = other.column_indices[k];
    assert(i == j && c == d) by (nonlinear_arith)
        requires
            i * 0x1_0000_0000 + c == j * 0x1_0000_0000 + d,
            0 <= c < 0x1_0000_0000,
            0 <= d < 0x1_0000_0000,
    ;
}

/// One system's dimension is no larger than that of another with the same
/// reserved coordinates.
proof fn lemma_dimension_bound(m: LinearSystem, other: LinearSystem)
    requires
        m.wf(),
        other.wf(),
        m.reserved() == other.reserved(),
        m.nnz() > 0,
    ensures
        m.dim() <= other.dim(),
{
    let (i, k) = choose|i: int, k: int|
        #![trigger m.in_row(i, k)]
        m.in_row(i, k) && (i + 1 == m.dim() || m.column_indices[k] + 1 == m.dim());
    let p = (i as u32, m.column_indices[k]);
    assert(m.reserved().contains(p));
    assert(other.reserved().contains(p));
    let l = other.coord_map[p] as int;
    assert(other.in_row(p.0 as int, l));
    assert(other.row_pointers[p.0 + 1] <= other.row_pointers[other.dim() as int]);
    assert(other.column_indices[l] < other.dim());
}

/// The layout is a function of the reserved coordinates: two well-formed
/// systems with the same reserved coordinates have the same dimension, the
/// same row pointers, the same column indices and the same coordinate map.
/// So what `from_coordinates` promises leaves no choice.
pub proof fn lemma_pattern_is_determined(m: LinearSystem, other: LinearSystem)
    requires
        m.wf(),
        other.wf(),
        m.reserved() == other.reserved(),
    ensures
        m.dim() == other.dim(),
        m.nnz() == other.nnz(),
        m.row_pointers == other.row_pointers,
        m.column_indices == other.column_indices,
        m.coord_map == other.coord_map,
{
    lemma_ranks_ascend(m);
    lemma_ranks_ascend(other);
    assert forall|x: int| ranks(m).contains(x) <==> ranks(other).contains(x) by {
        if ranks(m).contains(x) {
            let k = choose|k: int| 0 <= k < ranks(m).len() && ranks(m)[k] == x;
            lemma_row_exists(m, k);
            let p = (row_of(m, k) as u32, m.column_indices[k]);
            assert(m.in_row(row_of(m, k), k));
            assert(m.reserved().contains(p));
            lemma_ranks_are_reserved(other, p);
        }
        if ranks(other).contains(x) {
            let k = choose|k: int| 0 <= k < ranks(other).len() && ranks(other)[k] == x;
            lemma_row_exists(other, k);
            let p = (row_of(other, k) as u32, other.column_indices[k]);
            assert(other.in_row(row_of(other, k), k));
            assert(other.reserved().contains(p));
            lemma_ranks_are_reserved(m, p);
        }
    }
    lemma_ascending_same(ranks(m), ranks(other));
    assert(m.nnz() == other.nnz());
    assert forall|k: int| 0 <= k < m.nnz() implies m.column_indices[k]
        == other.column_indices[k] by {
        assert(ranks(m)[k] == ranks(other)[k]);
        lemma_rank_parts(m, other, k);
    }
    assert(m.column_indices =~= other.column_indices);
    if m.nnz() > 0 {
        lemma_dimension_bound(m, other);
        lemma_dimension_bound(other, m);
    }
    assert forall|i: int| 0 <= i <= m.dim() implies m.row_pointers[i] == other.row_pointers[i] by {
        if m.row_pointers[i] < other.row_pointers[i] {
            let k = m.row_pointers[i] as int;
            assert(other.row_pointers[i] <= other.row_pointers[other.dim() as int]);
            assert(ranks(m)[k] == ranks(other)[k]);
            lemma_rank_parts(m, other, k);
            let r = row_of(m, k);
            if r < i {
                assert(m.row_pointers[r + 1] <= m.row_pointers[i]);
            } else {
                assert(other.row_pointers[i] <= other.row_pointers[r]);
            }
        }
        if other.row_pointers[i] < m.row_pointers[i] {
            let k = other.row_pointers[i] as int;
            assert(m.row_pointers[i] <= m.row_pointers[m.dim() as int]);
            assert(ranks(m)[k] == ranks(other)[k]);
            lemma_rank_parts(m, other, k);
            let r = row_of(m, k);
            if r < i {
                assert(other.row_pointers[r + 1] <= other.row_pointers[i]);
            } else {
                assert(m.row_pointers[i] <= m.row_pointers[r]);
            }
        }
    }
    assert(m.row_pointers =~= other.row_pointers);
    assert forall|p: (u32, u32)| m.coord_map.dom().contains(p) implies m.coord_map[p]
        == other.coord_map[p] by {
        lemma_ranks_are_reserved(m, p);
        lemma_ranks_are_reserved(other, p);
        let k = m.coord_map[p] as int;
        let l = other.coord_map[p] as int;
        assert(ranks(m)[k] == ranks(other)[l]);
        if k < l {
            assert(ranks(m)[k] < ranks(m)[l]);
        }
        if l < k {
            assert(ranks(m)[l] < ranks(m)[k]);
        }
    }
    assert(m.coord_map =~= other.coord_map);
}

} // verus!
