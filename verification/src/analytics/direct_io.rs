//! Staging of bytes into whole sectors for direct I/O.
//!
//! Direct I/O takes blocks of [`SECTOR_SIZE`] bytes only. Bytes handed to
//! [`DirectFile::write`] are staged, and whole sectors are handed back to be
//! written; [`DirectFile::flush`] pads the trailing partial sector with zeros.
use vstd::prelude::*;
use crate::bytes::push_slice;

verus! {

/// Sector alignment / length multiple for direct-I/O writes. 4096 is a
/// superset of every common block-device logical sector (512).
pub const SECTOR_SIZE: usize = 4096;

/// The writer's side of a direct-I/O file: what is staged, and how much went
/// to the kernel.
pub struct DirectFile {
    staging: Vec<u8>,
    direct: bool,
    written: u64,
}

impl View for DirectFile {
    type V = Seq<u8>;

    /// The bytes that are staged.
    closed spec fn view(&self) -> Seq<u8> {
        self.staging@
    }
}

/// `n` zero bytes.
pub open spec fn zero_bytes(n: nat) -> Seq<u8> {
    Seq::new(n, |i: int| 0u8)
}

/// How many bytes of whole sectors there are among `n`.
pub open spec fn whole_sectors(n: nat) -> nat {
    (n / 4096) * 4096
}

/// `b` filled up with zeros to a whole number of sectors.
pub open spec fn padded(b: Seq<u8>) -> Seq<u8> {
    if b.len() % 4096 == 0 {
        b
    } else {
        b + zero_bytes((4096 - b.len() % 4096) as nat)
    }
}

/// A count that stops at the largest value.
pub open spec fn counted(n: u64, more: nat) -> u64 {
    if n + more > u64::MAX {
        u64::MAX
    } else {
        (n + more) as u64
    }
}

impl DirectFile {
    /// Less than a sector is staged.
    pub open spec fn wf(&self) -> bool {
        self@.len() < 4096
    }

    /// How many bytes went to the kernel.
    pub closed spec fn total(&self) -> u64 {
        self.written
    }

    /// Whether the file bypasses the page cache.
    pub closed spec fn bypasses_cache(&self) -> bool {
        self.direct
    }

    /// Starts a file. `direct` says whether the operating system granted
    /// direct I/O for it.
    pub fn open(direct: bool) -> (f: DirectFile)
        ensures
            f.wf(),
            f@ == Seq::<u8>::empty(),
            f.total() == 0,
            f.bypasses_cache() == direct,
    {
        DirectFile { staging: Vec::new(), direct, written: 0 }
    }

    /// True when the direct-I/O path is actually in use.
    pub fn is_direct(&self) -> (r: bool)
        ensures
            r == self.bypasses_cache(),
    {
        self.direct
    }

    /// Total bytes handed to the kernel so far (sector-multiple writes only).
    pub fn written(&self) -> (r: u64)
        ensures
            r == self.total(),
    {
        self.written
    }

    /// Appends `data` and returns the whole sectors that are now due.
    pub fn write(&mut self, data: &[u8]) -> (out: Vec<u8>)
        requires
            old(self).wf(),
        ensures
            final(self).wf(),
            out@.len() == whole_sectors(old(self)@.len() + data@.len()),
            out@ + final(self)@ == old(self)@ + data@,
            final(self).total() == counted(old(self).total(), out@.len()),
            final(self).bypasses_cache() == old(self).bypasses_cache(),
    {
        let mut out: Vec<u8> = Vec::new();
        let mut at: usize = 0;
        let ghost before = self.staging@;
        proof {
            assert(out@ + self.staging@ =~= before + data@.take(0));
        }
        while at < data.len()
            invariant
                at <= data@.len(),
                self.wf(),
                before == old(self)@,
                out@.len() % 4096 == 0,
                out@ + self.staging@ == before + data@.take(at as int),
                self.written == counted(old(self).total(), out@.len()),
                self.direct == old(self).bypasses_cache(),
            decreases data@.len() - at,
        {
            let space: usize = SECTOR_SIZE - self.staging.len();
            let left: usize = data.len() - at;
            let take: usize = if space < left {
                space
            } else {
                left
            };
            let part: &[u8] = vstd::slice::slice_subrange(data, at, at + take);
            let ghost staged = self.staging@;
            let ghost emitted = out@;
            push_slice(&mut self.staging, part);
            proof {
                assert(data@.take(at + take) =~= data@.take(at as int) + part@);
                assert(emitted + (staged + part@) =~= (emitted + staged) + part@);
                assert((before + data@.take(at as int)) + part@ =~= before + data@.take(at + take));
            }
            at = at + take;
            if self.staging.len() == SECTOR_SIZE {
                let ghost full = self.staging@;
                out.append(&mut self.staging);
                self.written = self.written.saturating_add(SECTOR_SIZE as u64);
                assert(out@ + self.staging@ =~= emitted + full);
            }
        }
        proof {
            assert(data@.take(at as int) =~= data@);
            let n = before.len() + data@.len();
            assert((out@ + self.staging@).len() == n);
            vstd::arithmetic::div_mod::lemma_fundamental_div_mod(out@.len() as int, 4096);
            vstd::arithmetic::div_mod::lemma_fundamental_div_mod_converse(
                n as int,
                4096,
                (out@.len() / 4096) as int,
                self.staging@.len() as int,
            );
        }
        out
    }

    /// Returns the trailing partial sector, zero-padded, if one is staged.
    pub fn flush(&mut self) -> (out: Vec<u8>)
        requires
            old(self).wf(),
        ensures
            final(self).wf(),
            final(self)@ == Seq::<u8>::empty(),
            out@ == padded(old(self)@),
            final(self).total() == counted(old(self).total(), out@.len()),
            final(self).bypasses_cache() == old(self).bypasses_cache(),
    {
        let mut out: Vec<u8> = Vec::new();
        if self.staging.len() > 0 {
            let ghost before = self.staging@;
            out.append(&mut self.staging);
            while out.len() < SECTOR_SIZE
                invariant
                    before.len() <= out@.len() <= 4096,
                    out@ == before + zero_bytes((out@.len() - before.len()) as nat),
                decreases 4096 - out@.len(),
            {
                let ghost prev = out@;
                out.push(0);
                assert(out@ =~= before + zero_bytes((out@.len() - before.len()) as nat));
            }
            self.written = self.written.saturating_add(SECTOR_SIZE as u64);
        }
        assert(self@ =~= Seq::<u8>::empty());
        assert(out@ =~= padded(old(self)@));
        out
    }
}

/// What reaches the kernel does not depend on how the bytes are cut into
/// writes: two writes hand over what one write of both would.
pub proof fn law_writes_join(
    staged: Seq<u8>,
    a: Seq<u8>,
    b: Seq<u8>,
    out_a: Seq<u8>,
    mid: Seq<u8>,
    out_b: Seq<u8>,
    end: Seq<u8>,
)
    requires
        out_a.len() == whole_sectors(staged.len() + a.len()),
        out_a + mid == staged + a,
        out_b.len() == whole_sectors(mid.len() + b.len()),
        out_b + end == mid + b,
    ensures
        (out_a + out_b) + end == staged + (a + b),
        (out_a + out_b).len() == whole_sectors(staged.len() + (a + b).len()),
{
    assert((out_a + out_b) + end =~= out_a + (out_b + end));
    assert(out_a + (mid + b) =~= (out_a + mid) + b);
    assert((staged + a) + b =~= staged + (a + b));
    assert((out_a + mid).len() == (staged + a).len());
    assert((out_b + end).len() == (mid + b).len());
}

/// What is padded is whole sectors of 4096 bytes: all that was there, and fewer
/// than a sector of zeros.
pub proof fn law_padding_fills_the_sector(b: Seq<u8>)
    ensures
        padded(b).len() % 4096 == 0,
        b.is_prefix_of(padded(b)),
        padded(b).len() < b.len() + 4096,
        forall|i: int| b.len() <= i < padded(b).len() ==> #[trigger] padded(b)[i] == 0,
{
    assert(b =~= padded(b).subrange(0, b.len() as int));
}

/// What is written out at once is whole sectors of 4096 bytes, as many as there
/// are.
pub proof fn law_whole_sectors_are_written(n: nat)
    ensures
        whole_sectors(n) % 4096 == 0,
        whole_sectors(n) <= n < whole_sectors(n) + 4096,
{
}

/// The number of bytes written is their sum, or the largest there is.
pub proof fn law_bytes_are_counted(n: u64, a: nat, b: nat)
    ensures
        n + a <= u64::MAX ==> counted(n, a) == n + a,
        n + a > u64::MAX ==> counted(n, a) == u64::MAX,
        counted(counted(n, a), b) == counted(n, a + b),
{
}

} // verus!
