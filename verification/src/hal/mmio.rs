//! Memory-mapped registers.
use vstd::prelude::*;
use crate::bytes::{le, le_value, lemma_le_len, lemma_le_ranges, lemma_le_reads_back, push_le, read_le};

verus! {

/// A memory-mapped register window.
pub trait Mmio {
    /// How many bytes the window spans.
    spec fn span(&self) -> usize;

    /// Reads a 32-bit register at byte `offset`.
    fn read_u32(&self, offset: usize) -> u32
        requires
            offset + 4 <= self.span(),
    ;

    /// Writes a 32-bit register at byte `offset`.
    fn write_u32(&mut self, offset: usize, value: u32)
        requires
            offset + 4 <= old(self).span(),
    ;
}

/// Register window over a plain buffer, for simulation.
#[derive(Debug)]
pub struct BufferMmio {
    mem: Vec<u8>,
}

impl View for BufferMmio {
    type V = Seq<u8>;

    /// The bytes of the window.
    closed spec fn view(&self) -> Seq<u8> {
        self.mem@
    }
}

/// The register at `offset`.
pub open spec fn register(mem: Seq<u8>, offset: int) -> u32 {
    le_value(mem.subrange(offset, offset + 4)) as u32
}

/// The window after a write to the register at `offset`.
pub open spec fn written(mem: Seq<u8>, offset: int, value: u32) -> Seq<u8> {
    mem.take(offset) + le(value as nat, 4) + mem.skip(offset + 4)
}

impl BufferMmio {
    /// Creates a `size`-byte register window, zero-initialized.
    pub fn new(size: usize) -> (r: BufferMmio)
        ensures
            r@.len() == size,
            forall|i: int| 0 <= i < size ==> #[trigger] r@[i] == 0,
            r.span() == size,
    {
        let mut mem: Vec<u8> = Vec::new();
        while mem.len() < size
            invariant
                mem@.len() <= size,
                forall|i: int| 0 <= i < mem@.len() ==> mem@[i] == 0,
            decreases size - mem@.len(),
        {
            mem.push(0);
        }
        BufferMmio { mem }
    }
}

impl Mmio for BufferMmio {
    open spec fn span(&self) -> usize {
        self@.len() as usize
    }

    fn read_u32(&self, offset: usize) -> (r: u32)
        ensures
            r == register(self@, offset as int),
    {
        assert(self.mem.len() == self@.len());
        proof {
            lemma_le_ranges();
        }
        read_le(self.mem.as_slice(), offset, 4) as u32
    }

    fn write_u32(&mut self, offset: usize, value: u32)
        ensures
            final(self)@ == written(old(self)@, offset as int, value),
    {
        assert(self.mem.len() == self@.len());
        let mut bytes: Vec<u8> = Vec::new();
        push_le(&mut bytes, value as u64, 4);
        proof {
            lemma_le_len(value as nat, 4);
            assert(bytes@ =~= le(value as nat, 4));
        }
        let mut i: usize = 0;
        while i < 4
            invariant
                i <= 4,
                bytes@.len() == 4,
                bytes@ == le(value as nat, 4),
                self.mem@.len() == old(self).mem@.len(),
                offset + 4 <= self.mem@.len(),
                forall|j: int| 0 <= j < i ==> self.mem@[offset + j] == bytes@[j],
                forall|j: int|
                    0 <= j < self.mem@.len() && !(offset <= j < offset + i) ==> self.mem@[j]
                        == old(self).mem@[j],
            decreases 4 - i,
        {
            assert(offset + i < self.mem.len());
            self.mem[offset + i] = bytes[i];
            i = i + 1;
        }
        proof {
            let want = written(old(self)@, offset as int, value);
            assert forall|j: int| 0 <= j < want.len() implies self.mem@[j] == want[j] by {
                if offset <= j < offset + 4 {
                    assert(self.mem@[offset + (j - offset)] == bytes@[j - offset]);
                }
            }
            assert(self@ =~= want);
        }
    }
}

/// A register reads as what was written to it last, and a write leaves every
/// register that it does not overlap as it was.
pub proof fn law_registers_hold_their_value(mem: Seq<u8>, offset: int, value: u32, other: int)
    requires
        0 <= offset,
        offset + 4 <= mem.len(),
        0 <= other,
        other + 4 <= mem.len(),
    ensures
        register(written(mem, offset, value), offset) == value,
        other + 4 <= offset || offset + 4 <= other ==> register(written(mem, offset, value), other)
            == register(mem, other),
{
    let next = written(mem, offset, value);
    lemma_le_len(value as nat, 4);
    lemma_le_ranges();
    lemma_le_reads_back(value as nat, 4);
    assert(next.subrange(offset, offset + 4) =~= le(value as nat, 4));
    if other + 4 <= offset || offset + 4 <= other {
        assert(next.subrange(other, other + 4) =~= mem.subrange(other, other + 4));
    }
}

} // verus!
