//! Bounded queue with monotonic positions.
//!
//! `enqueue_pos` and `dequeue_pos` only ever grow and wrap around the full
//! `usize` range. Because the capacity is a power of two, the cell of a
//! position stays the same across the wrap.
use vstd::prelude::*;
use vstd::arithmetic::power2::{is_pow2, lemma2_to64};
use vstd::arithmetic::div_mod::{lemma_fundamental_div_mod, lemma_mod_multiples_vanish};
use crate::runtime::ring::{dequeues, enqueues, lemma_pow2_divides, next_power_of_two, rounded};

verus! {

/// Bounded queue. `capacity` rounds up to a power of two.
pub struct MpmcRing<T> {
    cells: Vec<Option<T>>,
    enqueue_pos: usize,
    dequeue_pos: usize,
    cap: usize,
}

/// How many positions lie from `from` to `to`, around the wrap.
spec fn span(from: usize, to: usize) -> nat {
    if to >= from {
        (to - from) as nat
    } else {
        (to - from + usize::MAX + 1) as nat
    }
}

/// The number of `usize` values is a power of two.
proof fn lemma_range_is_pow2()
    ensures
        is_pow2(usize::MAX + 1),
{
    lemma2_to64();
    vstd::arithmetic::power2::is_pow2_equiv(usize::MAX + 1);
    if usize::MAX as int + 1 == 0x1_0000_0000 {
        vstd::arithmetic::power2::lemma_pow2(32);
        assert(vstd::arithmetic::power::pow(2, 32) == usize::MAX + 1);
    } else {
        assert(usize::MAX as int + 1 == 0x1_0000_0000_0000_0000);
        vstd::arithmetic::power2::lemma_pow2(64);
        assert(vstd::arithmetic::power::pow(2, 64) == usize::MAX + 1);
    }
}

/// A position and the one a full turn later have the same cell.
proof fn lemma_same_cell(x: int, cap: usize)
    requires
        is_pow2(cap as int),
    ensures
        cap > 0,
        (x - (usize::MAX + 1)) % (cap as int) == x % (cap as int),
{
    lemma_range_is_pow2();
    let turn = usize::MAX + 1;
    lemma_pow2_divides(cap as int, turn);
    let c = cap as int;
    let q = turn / c;
    lemma_fundamental_div_mod(turn, c);
    lemma_mod_multiples_vanish(q, x - turn, c);
    assert(c * q + (x - turn) == x);
}

/// Fewer than `cap` positions apart, the cells differ.
proof fn lemma_other_cell(x: int, d: int, cap: int)
    requires
        0 < d < cap,
    ensures
        (x + d) % cap != x % cap,
{
    lemma_fundamental_div_mod(x, cap);
    lemma_fundamental_div_mod(x + d, cap);
    if (x + d) % cap == x % cap {
        let a = x / cap;
        let b = (x + d) / cap;
        assert(false) by (nonlinear_arith)
            requires
                d == cap * b - cap * a,
                0 < d < cap,
        ;
    }
}

impl<T> View for MpmcRing<T> {
    type V = Seq<T>;

    closed spec fn view(&self) -> Seq<T> {
        Seq::new(
            span(self.dequeue_pos, self.enqueue_pos),
            |i: int| self.cells@[(self.dequeue_pos + i) % (self.cap as int)]->0,
        )
    }
}

impl<T> MpmcRing<T> {
    /// The cells of all pending positions hold a value.
    pub closed spec fn wf(&self) -> bool {
        &&& is_pow2(self.cap as int)
        &&& self.cells@.len() == self.cap
        &&& span(self.dequeue_pos, self.enqueue_pos) <= self.cap
        &&& forall|i: int|
            0 <= i < span(self.dequeue_pos, self.enqueue_pos) ==> (#[trigger] self.cells@[(
            self.dequeue_pos + i) % (self.cap as int)]) is Some
    }

    /// How many values fit.
    pub closed spec fn limit(&self) -> nat {
        self.cap as nat
    }

    /// The view never holds more than fit.
    pub proof fn lemma_bounded(&self)
        requires
            self.wf(),
        ensures
            self@.len() <= self.limit(),
            self.limit() <= usize::MAX,
    {
    }

    /// Creates the queue; capacity rounds up to a power of two (min 1).
    pub fn with_capacity(capacity: usize) -> (r: MpmcRing<T>)
        requires
            capacity <= usize::MAX / 2 + 1,
        ensures
            r.wf(),
            r@ == Seq::<T>::empty(),
            r.limit() == rounded(capacity as nat),
    {
        let cap: usize = next_power_of_two(capacity);
        let mut cells: Vec<Option<T>> = Vec::with_capacity(cap);
        let mut i: usize = 0;
        while i < cap
            invariant
                i <= cap,
                cells@.len() == i,
            decreases cap - i,
        {
            cells.push(None);
            i = i + 1;
        }
        let r: MpmcRing<T> = MpmcRing { cells, enqueue_pos: 0, dequeue_pos: 0, cap };
        assert(r@ =~= Seq::<T>::empty());
        r
    }

    /// Maximum in-flight elements (power of two).
    pub fn capacity(&self) -> (r: usize)
        ensures
            r == self.limit(),
    {
        self.cap
    }

    /// Enqueues `value`; `Err(value)` when full.
    pub fn push(&mut self, value: T) -> (r: Result<(), T>)
        requires
            old(self).wf(),
        ensures
            final(self).wf(),
            final(self).limit() == old(self).limit(),
            match r {
                Ok(_) => old(self)@.len() < old(self).limit() && final(self)@ == old(self)@.push(
                    value,
                ),
                Err(v) => old(self)@.len() == old(self).limit() && v == value && final(self)@
                    == old(self)@,
            },
            enqueues(old(self)@, final(self)@, old(self).limit(), value, r),
    {
        let pos: usize = self.enqueue_pos;
        if pos.wrapping_sub(self.dequeue_pos) == self.cap {
            return Err(value);
        }
        let ghost first = self.dequeue_pos as int;
        let ghost used = span(self.dequeue_pos, self.enqueue_pos) as int;
        let ghost c = self.cap as int;
        proof {
            lemma_same_cell(first + used, self.cap);
        }
        let cell: usize = pos % self.cap;
        assert(cell == (first + used) % c);
        self.cells.set(cell, Some(value));
        self.enqueue_pos = pos.wrapping_add(1);
        proof {
            assert(span(self.dequeue_pos, self.enqueue_pos) == used + 1);
            assert forall|i: int| 0 <= i < used implies #[trigger] ((first + i) % c) != cell by {
                lemma_other_cell(first + i, used - i, c);
            }
            assert(self@ =~= old(self)@.push(value));
        }
        Ok(())
    }

    /// Dequeues the oldest element; `None` when empty.
    pub fn pop(&mut self) -> (r: Option<T>)
        requires
            old(self).wf(),
        ensures
            final(self).wf(),
            final(self).limit() == old(self).limit(),
            match r {
                Some(v) => old(self)@.len() > 0 && v == old(self)@[0] && final(self)@
                    == old(self)@.drop_first(),
                None => old(self)@.len() == 0 && final(self)@ == old(self)@,
            },
            dequeues(old(self)@, final(self)@, r),
    {
        let pos: usize = self.dequeue_pos;
        if pos == self.enqueue_pos {
            return None;
        }
        let ghost before = self.cells@;
        let ghost used = span(self.dequeue_pos, self.enqueue_pos) as int;
        let ghost c = self.cap as int;
        proof {
            lemma_same_cell(pos as int, self.cap);
        }
        let cell: usize = pos % self.cap;
        assert(before[(pos + 0) % c] is Some);
        let mut out: Option<T> = None;
        std::mem::swap(&mut out, &mut self.cells[cell]);
        self.dequeue_pos = pos.wrapping_add(1);
        proof {
            let next = self.dequeue_pos as int;
            assert(span(self.dequeue_pos, self.enqueue_pos) == used - 1);
            assert forall|i: int| 0 <= i < used - 1 implies #[trigger] ((next + i) % c) == (pos + (i
                + 1)) % c && (pos + (i + 1)) % c != cell by {
                lemma_same_cell(pos + (i + 1), self.cap);
                lemma_other_cell(pos as int, i + 1, c);
            }
            assert forall|i: int| 0 <= i < used - 1 implies (#[trigger] self.cells@[(next + i)
                % c]) is Some by {
                assert(before[(pos + (i + 1)) % c] is Some);
            }
            assert(self@ =~= old(self)@.drop_first());
        }
        out
    }

    /// Element count.
    pub fn len(&self) -> (r: usize)
        requires
            self.wf(),
        ensures
            r == self@.len(),
    {
        self.enqueue_pos.wrapping_sub(self.dequeue_pos)
    }

    /// True when no elements are pending.
    pub fn is_empty(&self) -> (r: bool)
        requires
            self.wf(),
        ensures
            r == (self@.len() == 0),
    {
        self.len() == 0
    }
}

} // verus!
