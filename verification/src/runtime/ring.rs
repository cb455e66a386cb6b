//! Bounded first-in first-out rings.
//!
//! A ring has a fixed number of slots, a power of two. It refuses a push when
//! all of them are taken, and never allocates after construction.
use vstd::prelude::*;
use vstd::arithmetic::power2::is_pow2;

verus! {

/// `r` is the smallest power of two that is at least `n` and at least 1.
pub open spec fn rounds_up_to(n: nat, r: nat) -> bool {
    &&& is_pow2(r as int)
    &&& n <= r
    &&& r == 1 || r < 2 * n
}

/// A power of two divides every larger one.
pub proof fn lemma_pow2_divides(small: int, large: int)
    requires
        is_pow2(small),
        is_pow2(large),
        small <= large,
    ensures
        small > 0,
        large % small == 0,
    decreases large,
{
    reveal(is_pow2);
    if small == large || small == 1 {
        assert(large % small == 0) by (nonlinear_arith)
            requires
                small == large || small == 1,
                small > 0,
        ;
    } else {
        lemma_pow2_divides(small / 2, large / 2);
        let a = small / 2;
        let b = large / 2;
        assert(large % small == 0) by (nonlinear_arith)
            requires
                small == 2 * a,
                large == 2 * b,
                a > 0,
                b % a == 0,
        {
            let q = b / a;
            assert(b == a * q);
            assert(large == small * q);
            assert((small * q) % small == 0);
        }
    }
}

/// The smallest power of two that is at least `n` and at least 1.
pub open spec fn rounded(n: nat) -> nat {
    choose|r: nat| rounds_up_to(n, r)
}

/// There is one such power of two only.
pub proof fn lemma_rounded_is(n: nat, r: nat)
    requires
        rounds_up_to(n, r),
    ensures
        rounded(n) == r,
{
    let o = rounded(n);
    assert(rounds_up_to(n, o));
    let (a, b) = if o <= r {
        (o as int, r as int)
    } else {
        (r as int, o as int)
    };
    lemma_pow2_divides(a, b);
    if a != b {
        vstd::arithmetic::div_mod::lemma_fundamental_div_mod(b, a);
        let q = b / a;
        assert(q >= 2) by (nonlinear_arith)
            requires
                b == a * q,
                a < b,
                a > 0,
        ;
        assert(b >= 2 * a) by (nonlinear_arith)
            requires
                b == a * q,
                q >= 2,
                a > 0,
        ;
    }
}

proof fn lemma_rounded_from(n: nat, p: nat)
    requires
        is_pow2(p as int),
        p == 1 || p < 2 * n,
    ensures
        exists|r: nat| rounds_up_to(n, r),
    decreases 2 * n - p,
{
    if n <= p {
        assert(rounds_up_to(n, p));
    } else {
        reveal(is_pow2);
        lemma_rounded_from(n, 2 * p);
    }
}

/// There is always such a power of two.
pub proof fn lemma_rounded(n: nat)
    ensures
        rounds_up_to(n, rounded(n)),
{
    reveal(is_pow2);
    lemma_rounded_from(n, 1);
}

/// The smallest power of two that is at least `n`.
pub fn next_power_of_two(n: usize) -> (r: usize)
    requires
        n <= usize::MAX / 2 + 1,
    ensures
        rounds_up_to(n as nat, r as nat),
        r == rounded(n as nat),
        r > 0,
{
    let mut r: usize = 1;
    proof {
        reveal(is_pow2);
    }
    while r < n
        invariant
            n <= usize::MAX / 2 + 1,
            is_pow2(r as int),
            r > 0,
            r == 1 || r < 2 * n,
        decreases 2 * n - r,
    {
        proof {
            reveal(is_pow2);
        }
        r = r * 2;
    }
    proof {
        lemma_rounded_is(n as nat, r as nat);
    }
    r
}

/// Bounded ring of slots, read in the order they were written.
pub struct SpscRing<T> {
    slots: Vec<Option<T>>,
    head: usize,
    used: usize,
}

/// Putting `value` into a queue of at most `limit` leads from `before` to `after`:
/// it comes last, and is handed back where there is no room.
pub open spec fn enqueues<T>(
    before: Seq<T>,
    after: Seq<T>,
    limit: nat,
    value: T,
    r: Result<(), T>,
) -> bool {
    match r {
        Ok(_) => before.len() < limit && after == before.push(value),
        Err(v) => before.len() == limit && v == value && after == before,
    }
}

/// Taking from a queue leads from `before` to `after`: the first is taken, if there
/// is one.
pub open spec fn dequeues<T>(before: Seq<T>, after: Seq<T>, r: Option<T>) -> bool {
    match r {
        Some(v) => before.len() > 0 && v == before[0] && after == before.drop_first(),
        None => before.len() == 0 && after == before,
    }
}

/// What is put in first is taken out first, and nothing is lost: a value that is put
/// into an empty queue is the next to be taken, and behind others it waits until
/// they are.
pub proof fn law_first_in_first_out<T>(
    before: Seq<T>,
    middle: Seq<T>,
    after: Seq<T>,
    limit: nat,
    value: T,
    r: Option<T>,
)
    requires
        enqueues(before, middle, limit, value, Ok(())),
        dequeues(middle, after, r),
    ensures
        before.len() == 0 ==> r == Some(value) && after.len() == 0,
        before.len() > 0 ==> r == Some(before[0]) && after == before.drop_first() + seq![value],
{
    if before.len() > 0 {
        assert(after =~= before.drop_first() + seq![value]);
    }
}

/// A value is taken in exactly if there is room, and handed back with the queue as it
/// was if there is none.
pub proof fn law_full_queue_hands_back<T>(
    before: Seq<T>,
    after: Seq<T>,
    limit: nat,
    value: T,
    r: Result<(), T>,
)
    requires
        enqueues(before, after, limit, value, r),
        before.len() <= limit,
    ensures
        r is Ok <==> before.len() < limit,
        r matches Err(v) ==> v == value && after == before,
        r is Ok ==> after.last() == value && after.len() == before.len() + 1,
{
}

/// The slot `i` places after `head`, of `n` in a circle.
spec fn slot_at(head: int, i: int, n: int) -> int {
    if head + i < n {
        head + i
    } else {
        head + i - n
    }
}

impl<T> View for SpscRing<T> {
    type V = Seq<T>;

    closed spec fn view(&self) -> Seq<T> {
        Seq::new(
            self.used as nat,
            |i: int| self.slots@[slot_at(self.head as int, i, self.slots@.len() as int)]->0,
        )
    }
}

impl<T> SpscRing<T> {
    /// Every slot that counts as used holds a value.
    pub closed spec fn wf(&self) -> bool {
        &&& self.slots@.len() > 0
        &&& self.head < self.slots@.len()
        &&& self.used <= self.slots@.len()
        &&& forall|i: int|
            0 <= i < self.used ==> (#[trigger] self.slots@[slot_at(
                self.head as int,
                i,
                self.slots@.len() as int,
            )]) is Some
    }

    /// How many values fit.
    pub closed spec fn limit(&self) -> nat {
        self.slots@.len()
    }

    /// The view never holds more than fit.
    pub proof fn lemma_bounded(&self)
        requires
            self.wf(),
        ensures
            self@.len() <= self.limit(),
            self.limit() > 0,
            self.limit() <= usize::MAX,
    {
        assert(self.slots.len() == self.slots@.len());
    }

    /// Creates the ring; capacity rounds up to a power of two (min 1).
    pub fn with_capacity(capacity: usize) -> (r: SpscRing<T>)
        requires
            capacity <= usize::MAX / 2 + 1,
        ensures
            r.wf(),
            r@ == Seq::<T>::empty(),
            r.limit() == rounded(capacity as nat),
    {
        let n: usize = next_power_of_two(capacity);
        let mut slots: Vec<Option<T>> = Vec::with_capacity(n);
        let mut i: usize = 0;
        while i < n
            invariant
                i <= n,
                slots@.len() == i,
            decreases n - i,
        {
            slots.push(None);
            i = i + 1;
        }
        let r: SpscRing<T> = SpscRing { slots, head: 0, used: 0 };
        assert(r@ =~= Seq::<T>::empty());
        r
    }

    /// Maximum in-flight elements (power of two).
    pub fn capacity(&self) -> (r: usize)
        requires
            self.wf(),
        ensures
            r == self.limit(),
    {
        self.slots.len()
    }

    /// Number of elements pending.
    pub fn len(&self) -> (r: usize)
        requires
            self.wf(),
        ensures
            r == self@.len(),
    {
        self.used
    }

    /// True when no elements are pending.
    pub fn is_empty(&self) -> (r: bool)
        requires
            self.wf(),
        ensures
            r == (self@.len() == 0),
    {
        self.used == 0
    }

    /// True when a push would be refused.
    pub fn is_full(&self) -> (r: bool)
        requires
            self.wf(),
        ensures
            r == (self@.len() == self.limit()),
    {
        self.used == self.slots.len()
    }

    /// Appends `value`; hands it back when the ring is full.
    pub fn push(&mut self, value: T) -> (r: Result<(), T>)
        requires
            old(self).wf(),
        ensures
            final(self).wf(),
            final(self).limit() == old(self).limit(),
            match r {
                Ok(_) => old(self)@.len() < old(self).limit() && final(self)@ == old(self)@.push(
                    value,
                ),
                Err(v) => old(self)@.len() == old(self).limit() && v == value && final(self)@
                    == old(self)@,
            },
            enqueues(old(self)@, final(self)@, old(self).limit(), value, r),
    {
        let n: usize = self.slots.len();
        if self.used == n {
            return Err(value);
        }
        let room: usize = n - self.head;
        let i: usize = if self.used < room {
            self.head + self.used
        } else {
            self.used - room
        };
        let ghost before = self.slots@;
        let ghost head = self.head as int;
        let ghost used = self.used as int;
        assert(i == slot_at(head, used, n as int));
        self.slots.set(i, Some(value));
        self.used = self.used + 1;
        proof {
            assert forall|j: int| 0 <= j < used implies slot_at(head, j, n as int) != i by {}
            assert(self@ =~= old(self)@.push(value));
        }
        Ok(())
    }

    /// Removes the oldest element; `None` when empty.
    pub fn pop(&mut self) -> (r: Option<T>)
        requires
            old(self).wf(),
        ensures
            final(self).wf(),
            final(self).limit() == old(self).limit(),
            match r {
                Some(v) => old(self)@.len() > 0 && v == old(self)@[0] && final(self)@
                    == old(self)@.drop_first(),
                None => old(self)@.len() == 0 && final(self)@ == old(self)@,
            },
            dequeues(old(self)@, final(self)@, r),
    {
        if self.used == 0 {
            return None;
        }
        let n: usize = self.slots.len();
        let ghost head = self.head as int;
        let ghost used = self.used as int;
        let ghost before = self.slots@;
        assert(slot_at(head, 0, n as int) == head);
        let h: usize = self.head;
        let mut out: Option<T> = None;
        std::mem::swap(&mut out, &mut self.slots[h]);
        self.head = if h + 1 == n {
            0
        } else {
            h + 1
        };
        self.used = self.used - 1;
        proof {
            assert forall|j: int| 0 <= j < used - 1 implies slot_at(self.head as int, j, n as int)
                == slot_at(head, j + 1, n as int) && slot_at(head, j + 1, n as int) != head by {}
            assert forall|j: int| 0 <= j < used - 1 implies (#[trigger] self.slots@[slot_at(
                self.head as int,
                j,
                n as int,
            )]) is Some by {
                assert(before[slot_at(head, j + 1, n as int)] is Some);
            }
            assert(self@ =~= old(self)@.drop_first());
        }
        out
    }
}

} // verus!
