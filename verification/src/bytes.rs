//! Integers as little-endian bytes.
use vstd::prelude::*;

verus! {

/// `n` in `len` bytes, least significant byte first.
pub open spec fn le(n: nat, len: nat) -> Seq<u8>
    decreases len,
{
    if len == 0 {
        Seq::empty()
    } else {
        seq![(n % 256) as u8] + le(n / 256, (len - 1) as nat)
    }
}

/// The number that `b` holds, least significant byte first.
pub open spec fn le_value(b: Seq<u8>) -> nat
    decreases b.len(),
{
    if b.len() == 0 {
        0
    } else {
        b[0] as nat + 256 * le_value(b.drop_first())
    }
}

/// How many numbers fit in `len` bytes.
pub open spec fn le_range(len: nat) -> nat
    decreases len,
{
    if len == 0 {
        1
    } else {
        256 * le_range((len - 1) as nat)
    }
}

pub proof fn lemma_le_len(n: nat, len: nat)
    ensures
        le(n, len).len() == len,
    decreases len,
{
    if len > 0 {
        lemma_le_len(n / 256, (len - 1) as nat);
    }
}

pub proof fn lemma_le_ranges()
    ensures
        le_range(1) == 0x100,
        le_range(2) == 0x1_0000,
        le_range(4) == 0x1_0000_0000,
        le_range(8) == 0x1_0000_0000_0000_0000,
{
    reveal_with_fuel(le_range, 9);
}

pub proof fn lemma_le_value_bound(b: Seq<u8>)
    ensures
        le_value(b) < le_range(b.len()),
    decreases b.len(),
{
    if b.len() > 0 {
        lemma_le_value_bound(b.drop_first());
    }
}

/// A number that fits is what its bytes hold.
pub proof fn lemma_le_reads_back(n: nat, len: nat)
    requires
        n < le_range(len),
    ensures
        le_value(le(n, len)) == n,
    decreases len,
{
    if len > 0 {
        let rest = le(n / 256, (len - 1) as nat);
        lemma_le_reads_back(n / 256, (len - 1) as nat);
        assert(le(n, len).drop_first() =~= rest);
    }
}

/// Bytes are those of the number they hold.
pub proof fn lemma_le_writes_back(b: Seq<u8>)
    ensures
        le(le_value(b), b.len()) == b,
    decreases b.len(),
{
    if b.len() > 0 {
        let rest = b.drop_first();
        lemma_le_writes_back(rest);
        let v = le_value(b);
        assert(v % 256 == b[0] as nat && v / 256 == le_value(rest));
        assert(le(v, b.len()) =~= seq![b[0]] + rest);
        assert(seq![b[0]] + rest =~= b);
    } else {
        assert(b =~= Seq::<u8>::empty());
    }
}

/// Appends `n` in `len` bytes.
pub fn push_le(out: &mut Vec<u8>, n: u64, len: usize)
    requires
        len <= 8,
    ensures
        final(out)@ == old(out)@ + le(n as nat, len as nat),
    decreases len,
{
    if len > 0 {
        out.push((n % 256) as u8);
        push_le(out, n / 256, len - 1);
        proof {
            assert(out@ =~= old(out)@ + le(n as nat, len as nat));
        }
    } else {
        assert(out@ =~= old(out)@ + le(n as nat, len as nat));
    }
}

/// The number that the `len` bytes at `at` hold.
pub fn read_le(b: &[u8], at: usize, len: usize) -> (r: u64)
    requires
        len <= 8,
        at + len <= b@.len(),
    ensures
        r == le_value(b@.subrange(at as int, at + len)),
        r < le_range(len as nat),
    decreases len,
{
    let ghost part = b@.subrange(at as int, at + len);
    proof {
        lemma_le_value_bound(part);
        lemma_le_ranges();
        lemma_le_range_grows(len as nat, 8);
    }
    if len == 0 {
        return 0;
    }
    assert(at < b.len());
    let high: u64 = read_le(b, at + 1, len - 1);
    proof {
        assert(part.drop_first() =~= b@.subrange(at + 1, at + len));
        assert(part[0] == b@[at as int]);
    }
    b[at] as u64 + 256 * high
}

pub proof fn lemma_le_range_grows(a: nat, b: nat)
    requires
        a <= b,
    ensures
        0 < le_range(a) <= le_range(b),
    decreases b,
{
    if b > 0 {
        if a < b {
            lemma_le_range_grows(a, (b - 1) as nat);
        } else {
            lemma_le_range_grows((a - 1) as nat, (b - 1) as nat);
        }
    }
}

/// Appends a slice.
pub fn push_slice(out: &mut Vec<u8>, part: &[u8])
    ensures
        final(out)@ == old(out)@ + part@,
{
    let mut tail: Vec<u8> = vstd::slice::slice_to_vec(part);
    out.append(&mut tail);
}

/// Whether two byte slices are the same.
pub fn same_bytes(a: &[u8], b: &[u8]) -> (r: bool)
    ensures
        r == (a@ == b@),
{
    if a.len() != b.len() {
        return false;
    }
    let mut i: usize = 0;
    while i < a.len()
        invariant
            i <= a@.len(),
            a@.len() == b@.len(),
            forall|j: int| 0 <= j < i ==> a@[j] == b@[j],
        decreases a@.len() - i,
    {
        if a[i] != b[i] {
            return false;
        }
        i = i + 1;
    }
    assert(a@ =~= b@);
    true
}

} // verus!
