//! Packed storage of the records of one component type.

use crate::error::CircuitError;
use vstd::prelude::*;
use vstd::slice::slice_subrange;

verus! {

/// The stride of records of `size` bytes aligned to `alignment`: the least
/// multiple of the alignment that holds a record, and at least one byte.
pub open spec fn stride_for(size: nat, alignment: nat) -> nat {
    let size = if size == 0 {
        1
    } else {
        size
    };
    (((size + alignment - 1) / (alignment as int)) * alignment) as nat
}

/// A record followed by the zero bytes that fill it up to the stride.
pub open spec fn padded(record: Seq<u8>, stride: nat) -> Seq<u8> {
    record + Seq::new((stride - record.len()) as nat, |i: int| 0u8)
}

/// What a component buffer holds: records of one type laid end to end.
pub struct PackedRecords {
    /// The bytes of all records.
    pub bytes: Seq<u8>,
    /// The distance in bytes from one record to the next.
    pub stride: nat,
    /// The key of the component type that the records belong to.
    pub type_id: u64,
}

impl PackedRecords {
    /// The bytes divide into whole records.
    pub open spec fn wf(self) -> bool {
        &&& self.stride > 0
        &&& self.bytes.len() % self.stride == 0
    }

    /// The number of records.
    pub open spec fn len(self) -> nat {
        self.bytes.len() / self.stride
    }

    /// The bytes of record `i`.
    pub open spec fn record(self, i: int) -> Seq<u8> {
        self.bytes.subrange(i * self.stride, i * self.stride + self.stride)
    }

    /// The buffer with one more record at its end.
    pub open spec fn pushed(self, record: Seq<u8>) -> PackedRecords {
        PackedRecords { bytes: self.bytes + padded(record, self.stride), ..self }
    }

    /// The buffer with record `i` replaced.
    pub open spec fn replaced(self, i: int, record: Seq<u8>) -> PackedRecords {
        PackedRecords {
            bytes: self.bytes.subrange(0, i * self.stride) + padded(record, self.stride)
                + self.bytes.subrange(i * self.stride + self.stride, self.bytes.len() as int),
            ..self
        }
    }
}

/// The stride is a multiple of the alignment, holds the record, and wastes
/// less than one alignment.
pub proof fn lemma_stride_for(size: nat, alignment: nat)
    requires
        alignment > 0,
    ensures
        stride_for(size, alignment) % alignment == 0,
        stride_for(size, alignment) >= size,
        stride_for(size, alignment) >= 1,
        stride_for(size, alignment) < (if size == 0 {
            1
        } else {
            size
        }) + alignment,
{
    let s: int = if size == 0 {
        1
    } else {
        size as int
    };
    let a = alignment as int;
    let x = s + a - 1;
    let q = x / a;
    vstd::arithmetic::div_mod::lemma_fundamental_div_mod(x, a);
    vstd::arithmetic::div_mod::lemma_mod_multiples_basic(q, a);
    assert(x == a * q + x % a);
    assert(0 <= x % a < a);
    assert(q * a == a * q) by (nonlinear_arith);
    assert(q >= 0) by (nonlinear_arith)
        requires
            x >= 0,
            a > 0,
            q == x / a,
    ;
}

/// Records lie one stride apart, each within the bytes.
pub proof fn lemma_record_bounds(stride: nat, len: nat, i: int)
    requires
        0 <= i < len,
    ensures
        0 <= i * stride,
        i * stride + stride <= len * stride,
{
    let s = stride as int;
    let l = len as int;
    assert(0 <= i * s && i * s + s <= l * s) by (nonlinear_arith)
        requires
            0 <= i < l,
            0 <= s,
    ;
}

/// Record `index` of a well-formed buffer lies within its bytes.
proof fn lemma_record_in_bytes(bytes: nat, stride: usize, index: usize)
    requires
        stride > 0,
        bytes % (stride as nat) == 0,
        index < bytes / (stride as nat),
    ensures
        index * stride + stride <= bytes,
{
    let m = PackedRecords { bytes: Seq::new(bytes, |i: int| 0u8), stride: stride as nat, type_id: 0 };
    lemma_len_times_stride(m);
    lemma_record_bounds(m.stride, m.len(), index as int);
}

/// A well-formed buffer is as long as its records together.
pub proof fn lemma_len_times_stride(m: PackedRecords)
    requires
        m.wf(),
    ensures
        m.len() * m.stride == m.bytes.len(),
{
    vstd::arithmetic::div_mod::lemma_fundamental_div_mod(m.bytes.len() as int, m.stride as int);
    assert(m.stride * m.len() == m.len() * m.stride) by (nonlinear_arith);
}

/// Bytes that are a whole number of strides long hold that number of records.
pub proof fn lemma_len_of_multiple(m: PackedRecords, count: nat)
    requires
        m.stride > 0,
        m.bytes.len() == count * m.stride,
    ensures
        m.wf(),
        m.len() == count,
{
    let d = m.stride as int;
    let c = count as int;
    vstd::arithmetic::div_mod::lemma_div_multiples_vanish(c, d);
    vstd::arithmetic::div_mod::lemma_mod_multiples_basic(c, d);
    assert(d * c == c * d) by (nonlinear_arith);
    assert(m.bytes.len() as int == c * d);
    assert((c * d) / d == c);
}

/// Pushing appends one record and leaves the others as they were.
pub proof fn lemma_pushed(m: PackedRecords, record: Seq<u8>)
    requires
        m.wf(),
        record.len() <= m.stride,
    ensures
        m.pushed(record).wf(),
        m.pushed(record).len() == m.len() + 1,
        m.pushed(record).record(m.len() as int) == padded(record, m.stride),
        forall|i: int| 0 <= i < m.len() ==> #[trigger] m.pushed(record).record(i) == m.record(i),
{
    let p = m.pushed(record);
    lemma_len_times_stride(m);
    assert((m.len() + 1) * m.stride == m.len() * m.stride + m.stride) by (nonlinear_arith);
    lemma_len_of_multiple(p, m.len() + 1);
    assert(p.record(m.len() as int) =~= padded(record, m.stride));
    assert forall|i: int| 0 <= i < m.len() implies #[trigger] p.record(i) == m.record(i) by {
        lemma_record_bounds(m.stride, m.len(), i);
        assert(p.record(i) =~= m.record(i));
    }
}

/// Replacing a record changes that record and no other.
pub proof fn lemma_replaced(m: PackedRecords, i: int, record: Seq<u8>)
    requires
        m.wf(),
        0 <= i < m.len(),
        record.len() <= m.stride,
    ensures
        m.replaced(i, record).wf(),
        m.replaced(i, record).len() == m.len(),
        m.replaced(i, record).record(i) == padded(record, m.stride),
        forall|j: int|
            0 <= j < m.len() && j != i ==> #[trigger] m.replaced(i, record).record(j) == m.record(
                j,
            ),
{
    let p = m.replaced(i, record);
    lemma_len_times_stride(m);
    lemma_record_bounds(m.stride, m.len(), i);
    assert(p.bytes.len() == m.bytes.len());
    lemma_len_of_multiple(p, m.len());
    assert(p.record(i) =~= padded(record, m.stride));
    assert forall|j: int| 0 <= j < m.len() && j != i implies #[trigger] p.record(j) == m.record(
        j,
    ) by {
        lemma_record_bounds(m.stride, m.len(), j);
        if j < i {
            assert(j * m.stride + m.stride <= i * m.stride) by (nonlinear_arith)
                requires
                    0 <= j < i,
            ;
        } else {
            assert(i * m.stride + m.stride <= j * m.stride) by (nonlinear_arith)
                requires
                    0 <= i < j,
            ;
        }
        assert(p.record(j) =~= m.record(j));
    }
}

/// The records of all components of one type, packed into one byte buffer
/// at a fixed stride.
pub struct ComponentBuffer {
    buffer: Vec<u8>,
    stride: usize,
    type_id: u64,
}

impl View for ComponentBuffer {
    type V = PackedRecords;

    closed spec fn view(&self) -> PackedRecords {
        PackedRecords { bytes: self.buffer@, stride: self.stride as nat, type_id: self.type_id }
    }
}

impl ComponentBuffer {
    /// An empty buffer for records of `size` bytes aligned to `alignment`,
    /// of the component type with the key `type_id`.
    pub fn new(size: usize, alignment: usize, type_id: u64) -> (buffer: ComponentBuffer)
        requires
            alignment > 0,
            size + alignment < usize::MAX,
        ensures
            buffer@.wf(),
            buffer@.bytes.len() == 0,
            buffer@.stride == stride_for(size as nat, alignment as nat),
            buffer@.type_id == type_id,
    {
        let room = if size == 0 {
            1
        } else {
            size
        };
        proof {
            lemma_stride_for(size as nat, alignment as nat);
        }
        let stride = ((room + alignment - 1) / alignment) * alignment;
        ComponentBuffer { buffer: Vec::new(), stride, type_id }
    }

    /// The number of records fits the machine word, as the bytes do.
    pub proof fn lemma_len_fits(&self)
        requires
            self@.wf(),
        ensures
            self@.len() <= usize::MAX,
    {
        lemma_len_times_stride(self@);
        let n = self@.len() as int;
        let d = self@.stride as int;
        assert(n <= n * d) by (nonlinear_arith)
            requires
                0 <= n,
                1 <= d,
        ;
        assert(self@.bytes.len() == self.buffer.len());
    }

    /// The number of records.
    pub fn len(&self) -> (n: usize)
        requires
            self@.wf(),
        ensures
            n == self@.len(),
    {
        self.buffer.len() / self.stride
    }

    /// The distance in bytes from one record to the next.
    pub fn stride(&self) -> (stride: usize)
        ensures
            stride == self@.stride,
    {
        self.stride
    }

    /// The key of the component type whose records the buffer holds.
    pub fn type_id(&self) -> (type_id: u64)
        ensures
            type_id == self@.type_id,
    {
        self.type_id
    }

    /// Fails with the mismatch unless `type_id` is the buffer's own.
    fn check_type(&self, type_id: u64) -> (r: Result<(), CircuitError>)
        ensures
            r is Ok <==> type_id == self@.type_id,
            r is Err ==> r == Err::<(), CircuitError>(
                CircuitError::TypeMismatch { stored: self@.type_id, requested: type_id },
            ),
    {
        if type_id == self.type_id {
            Ok(())
        } else {
            Err(CircuitError::TypeMismatch { stored: self.type_id, requested: type_id })
        }
    }

    /// Appends one record of the type `type_id`, zero-padded to the stride.
    /// Fails, and changes nothing, where the buffer holds another type.
    pub fn push(&mut self, type_id: u64, record: &[u8]) -> (r: Result<(), CircuitError>)
        requires
            old(self)@.wf(),
            record@.len() <= old(self)@.stride,
        ensures
            r is Ok <==> type_id == old(self)@.type_id,
            r is Ok ==> final(self)@ == old(self)@.pushed(record@),
            r is Err ==> r == Err::<(), CircuitError>(
                CircuitError::TypeMismatch { stored: old(self)@.type_id, requested: type_id },
            ) && final(self)@ == old(self)@,
            final(self)@.wf(),
    {
        self.check_type(type_id)?;
        let mut i: usize = 0;
        while i < self.stride
            invariant
                i <= self.stride,
                self.stride == old(self).stride,
                self.type_id == old(self).type_id,
                record@.len() <= self.stride,
                self.buffer@ == old(self).buffer@ + padded(record@, self.stride as nat).take(
                    i as int,
                ),
            decreases self.stride - i,
        {
            let byte = if i < record.len() {
                record[i]
            } else {
                0u8
            };
            self.buffer.push(byte);
            proof {
                let full = padded(record@, self.stride as nat);
                assert(full.take(i + 1) =~= full.take(i as int).push(full[i as int]));
                assert(self.buffer@ =~= old(self).buffer@ + full.take(i + 1));
            }
            i += 1;
        }
        proof {
            let full = padded(record@, self.stride as nat);
            assert(full.take(self.stride as int) =~= full);
            lemma_pushed(old(self)@, record@);
        }
        assert(self@ == old(self)@.pushed(record@));
        Ok(())
    }

    /// The bytes of record `index`, read as a record of the type `type_id`.
    /// Fails where the buffer holds another type.
    pub fn get(&self, type_id: u64, index: usize) -> (r: Result<&[u8], CircuitError>)
        requires
            self@.wf(),
            index < self@.len(),
        ensures
            r is Ok <==> type_id == self@.type_id,
            r is Ok ==> r->Ok_0@ == self@.record(index as int),
            r is Err ==> r == Err::<&[u8], CircuitError>(
                CircuitError::TypeMismatch { stored: self@.type_id, requested: type_id },
            ),
    {
        self.check_type(type_id)?;
        Ok(self.record(index))
    }

    /// The bytes of record `index`, whatever the type.
    pub fn record(&self, index: usize) -> (record: &[u8])
        requires
            self@.wf(),
            index < self@.len(),
        ensures
            record@ == self@.record(index as int),
    {
        proof {
            lemma_record_in_bytes(self.buffer@.len(), self.stride, index);
            assert(index * self.stride + self.stride <= self.buffer.len());
        }
        let start = index * self.stride;
        slice_subrange(self.buffer.as_slice(), start, start + self.stride)
    }

    /// All records in the order they were pushed, read as records of the
    /// type `type_id`. Fails where the buffer holds another type.
    pub fn iter(&self, type_id: u64) -> (r: Result<Vec<&[u8]>, CircuitError>)
        requires
            self@.wf(),
        ensures
            r is Ok <==> type_id == self@.type_id,
            r is Ok ==> r->Ok_0.len() == self@.len() && forall|i: int|
                0 <= i < self@.len() ==> (#[trigger] r->Ok_0[i])@ == self@.record(i),
            r is Err ==> r == Err::<Vec<&[u8]>, CircuitError>(
                CircuitError::TypeMismatch { stored: self@.type_id, requested: type_id },
            ),
    {
        self.check_type(type_id)?;
        let count = self.len();
        let mut records: Vec<&[u8]> = Vec::new();
        let mut i: usize = 0;
        while i < count
            invariant
                self@.wf(),
                count == self@.len(),
                i <= count,
                records.len() == i,
                forall|t: int| 0 <= t < i ==> (#[trigger] records[t])@ == self@.record(t),
            decreases count - i,
        {
            proof {
                lemma_record_in_bytes(self.buffer@.len(), self.stride, i);
                assert(i * self.stride + self.stride <= self.buffer.len());
            }
            let start = i * self.stride;
            records.push(slice_subrange(self.buffer.as_slice(), start, start + self.stride));
            i += 1;
        }
        Ok(records)
    }

    /// Overwrites record `index` with a record of the type `type_id`,
    /// zero-padded to the stride. Fails, and changes nothing, where the
    /// buffer holds another type.
    pub fn write(&mut self, type_id: u64, index: usize, record: &[u8]) -> (r: Result<
        (),
        CircuitError,
    >)
        requires
            old(self)@.wf(),
            index < old(self)@.len(),
            record@.len() <= old(self)@.stride,
        ensures
            r is Ok <==> type_id == old(self)@.type_id,
            r is Ok ==> final(self)@ == old(self)@.replaced(index as int, record@),
            r is Err ==> r == Err::<(), CircuitError>(
                CircuitError::TypeMismatch { stored: old(self)@.type_id, requested: type_id },
            ) && final(self)@ == old(self)@,
            final(self)@.wf(),
    {
        self.check_type(type_id)?;
        proof {
            lemma_record_in_bytes(self.buffer@.len(), self.stride, index);
            assert(index * self.stride + self.stride <= self.buffer.len());
        }
        let start = index * self.stride;
        let mut i: usize = 0;
        while i < self.stride
            invariant
                i <= self.stride,
                self.stride == old(self).stride,
                self.type_id == old(self).type_id,
                record@.len() <= self.stride,
                start + self.stride <= self.buffer.len(),
                self.buffer.len() == old(self).buffer.len(),
                forall|t: int|
                    0 <= t < self.buffer.len() && !(start <= t < start + i) ==> self.buffer[t]
                        == old(self).buffer[t],
                forall|t: int|
                    0 <= t < i ==> self.buffer[start + t] == padded(
                        record@,
                        self.stride as nat,
                    )[t],
            decreases self.stride - i,
        {
            let byte = if i < record.len() {
                record[i]
            } else {
                0u8
            };
            self.buffer.set(start + i, byte);
            i += 1;
        }
        proof {
            assert(self@.bytes =~= old(self)@.replaced(index as int, record@).bytes);
            lemma_replaced(old(self)@, index as int, record@);
        }
        assert(self@ == old(self)@.replaced(index as int, record@));
        Ok(())
    }
}

} // verus!
