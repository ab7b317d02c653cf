//! Layout of a bit table stored byte by byte: bit `i` lives in byte `i / 8`,
//! at position `i % 8` counted from the least significant bit.
use vstd::prelude::*;

verus! {

/// Whether bit `off` of `byte` is set.
pub open spec fn bit_of(byte: u8, off: u8) -> bool {
    byte & (1u8 << off) != 0
}

/// `byte` with bit `off` set.
pub open spec fn with_bit(byte: u8, off: u8) -> u8 {
    byte | (1u8 << off)
}

/// Bit `i` of a table whose bytes are `t`.
pub open spec fn table_bit(t: Seq<u8>, i: int) -> bool {
    bit_of(t[i / 8], (i % 8) as u8)
}

/// The table `t` after bit `i` is set.
pub open spec fn table_set(t: Seq<u8>, i: int) -> Seq<u8> {
    t.update(i / 8, with_bit(t[i / 8], (i % 8) as u8))
}

/// Number of bytes that hold `bits` bits.
pub open spec fn byte_count(bits: nat) -> nat {
    (bits + 7) / 8
}

/// Sum of chunk lengths.
pub open spec fn total(s: Seq<u64>) -> int
    decreases s.len(),
{
    if s.len() == 0 {
        0
    } else {
        total(s.drop_last()) + s.last()
    }
}

/// Largest chunk written while the backing table is zero-filled: a twentieth
/// of the table, rounded up, and at least one byte.
pub open spec fn chunk_bound(bytes: nat) -> nat {
    if bytes <= 20 {
        1
    } else {
        (bytes + 19) / 20
    }
}

/// Setting one bit of a byte sets that bit and keeps the others; a byte whose
/// bit is already set is left as it is.
pub proof fn lemma_with_bit(b: u8, off: u8, j: u8)
    requires
        off < 8,
        j < 8,
    ensures
        bit_of(with_bit(b, off), j) == (j == off || bit_of(b, j)),
        bit_of(b, off) ==> with_bit(b, off) == b,
{
    assert(b & (1u8 << off) != 0 ==> b | (1u8 << off) == b) by (bit_vector)
        requires
            off < 8,
    ;
    assert((b | (1u8 << off)) & (1u8 << j) != 0 <==> (j == off || b & (1u8 << j) != 0))
        by (bit_vector)
        requires
            off < 8,
            j < 8,
    ;
}

/// After bit `i` of a table is set, bit `i` reads as set and every other bit
/// reads as before.
pub proof fn lemma_set_then_get(t: Seq<u8>, i: int, j: int)
    requires
        0 <= i < 8 * t.len(),
        0 <= j < 8 * t.len(),
    ensures
        table_set(t, i).len() == t.len(),
        table_bit(table_set(t, i), j) == (j == i || table_bit(t, j)),
{
    if i / 8 == j / 8 {
        lemma_with_bit(t[i / 8], (i % 8) as u8, (j % 8) as u8);
    }
}

/// Setting a bit that is already set leaves the table unchanged.
pub proof fn lemma_set_idempotent(t: Seq<u8>, i: int)
    requires
        0 <= i < 8 * t.len(),
        table_bit(t, i),
    ensures
        table_set(t, i) == t,
{
    lemma_with_bit(t[i / 8], (i % 8) as u8, 0);
    assert(table_set(t, i) =~= t);
}

/// Setting two bits gives the same table in either order.
pub proof fn lemma_set_commute(t: Seq<u8>, i: int, j: int)
    requires
        0 <= i < 8 * t.len(),
        0 <= j < 8 * t.len(),
    ensures
        table_set(table_set(t, i), j) == table_set(table_set(t, j), i),
{
    if i / 8 == j / 8 {
        let b = t[i / 8];
        let oi = (i % 8) as u8;
        let oj = (j % 8) as u8;
        assert((b | (1u8 << oi)) | (1u8 << oj) == (b | (1u8 << oj)) | (1u8 << oi)) by (bit_vector);
    }
    assert(table_set(table_set(t, i), j) =~= table_set(table_set(t, j), i));
}

/// Index outside the table.
#[derive(Debug, Clone, Copy, PartialEq, Eq, Structural)]
pub enum BitError {
    OutOfBounds { index: usize, table_size: usize },
}

/// The shape of a table of `table_size` bits kept in a byte store.
pub struct BitVec {
    table_size: usize,
}

impl BitVec {
    /// Number of bits in the table.
    pub closed spec fn size(&self) -> nat {
        self.table_size as nat
    }

    pub fn new(table_size: usize) -> (r: BitVec)
        ensures
            r.size() == table_size,
    {
        BitVec { table_size }
    }

    pub fn len(&self) -> (r: usize)
        ensures
            r == self.size(),
    {
        self.table_size
    }

    /// Length of the backing store in bytes.
    pub fn byte_len(&self) -> (r: u64)
        ensures
            r == byte_count(self.size()),
    {
        let whole = (self.table_size / 8) as u64;
        if self.table_size % 8 == 0 {
            whole
        } else {
            whole + 1
        }
    }

    /// Lengths of the zero-filled chunks that make up a fresh backing store:
    /// together they cover it exactly, and none is longer than a twentieth of
    /// it (rounded up).
    pub fn zero_fill_chunks(&self) -> (r: Vec<u64>)
        ensures
            total(r@) == byte_count(self.size()),
            forall|k: int| 0 <= k < r.len() ==> 0 < #[trigger] r[k] <= chunk_bound(byte_count(self.size())),
    {
        let bytes = self.byte_len();
        let chunk: u64 = if bytes <= 20 {
            1
        } else {
            bytes / 20 + if bytes % 20 == 0 { 0 } else { 1 }
        };
        let mut chunks: Vec<u64> = Vec::new();
        let mut left: u64 = bytes;
        while left > 0
            invariant
                total(chunks@) + left == bytes,
                chunk == chunk_bound(bytes as nat),
                forall|k: int| 0 <= k < chunks.len() ==> 0 < #[trigger] chunks[k] <= chunk,
            decreases left,
        {
            let c: u64 = if left < chunk { left } else { chunk };
            proof {
                assert(chunks@.push(c).drop_last() =~= chunks@);
            }
            chunks.push(c);
            left = left - c;
        }
        chunks
    }

    /// Byte offset that holds bit `index`, for an index inside the table.
    pub fn position(&self, index: usize) -> (r: Result<u64, BitError>)
        ensures
            index < self.size() ==> r == Ok::<u64, BitError>((index / 8) as u64),
            index >= self.size() ==> r == Err::<u64, BitError>(
                BitError::OutOfBounds { index, table_size: self.size() as usize },
            ),
    {
        if index >= self.table_size {
            Err(BitError::OutOfBounds { index, table_size: self.table_size })
        } else {
            Ok((index / 8) as u64)
        }
    }

    /// The value to store back after bit `index` is set in `stored`, the byte
    /// at `position(index)`.
    pub fn set(&self, index: usize, stored: u8) -> (r: Result<u8, BitError>)
        ensures
            index < self.size() ==> r == Ok::<u8, BitError>(with_bit(stored, (index % 8) as u8)),
            index >= self.size() ==> r == Err::<u8, BitError>(
                BitError::OutOfBounds { index, table_size: self.size() as usize },
            ),
    {
        if index >= self.table_size {
            return Err(BitError::OutOfBounds { index, table_size: self.table_size });
        }
        let off = (index % 8) as u8;
        Ok(stored | (1u8 << off))
    }

    /// Whether bit `index` is set, given `stored`, the byte at
    /// `position(index)`.
    pub fn get(&self, index: usize, stored: u8) -> (r: Result<bool, BitError>)
        ensures
            index < self.size() ==> r == Ok::<bool, BitError>(bit_of(stored, (index % 8) as u8)),
            index >= self.size() ==> r == Err::<bool, BitError>(
                BitError::OutOfBounds { index, table_size: self.size() as usize },
            ),
    {
        if index >= self.table_size {
            return Err(BitError::OutOfBounds { index, table_size: self.table_size });
        }
        let off = (index % 8) as u8;
        Ok(stored & (1u8 << off) != 0)
    }
}

} // verus!
