//! Pre-allocated buffer pool: no heap allocation in steady state.
//!
//! Every large buffer (video frames, packet buffers, recorder blocks) comes
//! from a pool created once at startup. Acquisition moves a slot's value into a
//! [`Pooled`] handle, which is its only owner until it is released. Free slots
//! are kept in a queue of indices.
use vstd::prelude::*;
use crate::runtime::mpmc::MpmcRing;
use crate::runtime::ring::lemma_rounded;

verus! {

/// Fixed-capacity object pool.
///
/// Slots are uninitialized until first acquired via [`BufferPool::get_with`];
/// subsequent acquisitions reuse the values that were released.
pub struct BufferPool<T> {
    slots: Vec<Option<T>>,
    free: MpmcRing<u32>,
    outstanding: usize,
}

/// Handle to one pooled slot, which holds the slot's value.
pub struct Pooled<T> {
    idx: u32,
    value: T,
}

impl<T> View for Pooled<T> {
    type V = T;

    closed spec fn view(&self) -> T {
        self.value
    }
}

impl<T> Pooled<T> {
    /// The slot that the handle owns.
    pub closed spec fn slot(&self) -> u32 {
        self.idx
    }

    /// The pooled value.
    pub fn get(&self) -> (r: &T)
        ensures
            *r == self@,
    {
        &self.value
    }

    /// The pooled value, to be changed in place.
    pub fn get_mut(&mut self) -> (r: &mut T)
        ensures
            *r == old(self)@,
            final(self)@ == *final(r),
            final(self).slot() == old(self).slot(),
    {
        &mut self.value
    }

    /// Replaces the pooled value.
    pub fn write(&mut self, value: T)
        ensures
            final(self)@ == value,
            final(self).slot() == old(self).slot(),
    {
        self.value = value;
    }
}

/// Distinct indices below `n` are at most `n` many.
proof fn lemma_distinct_below(s: Seq<u32>, n: nat)
    requires
        s.no_duplicates(),
        forall|i: int| 0 <= i < s.len() ==> (#[trigger] s[i]) < n,
    ensures
        s.len() <= n,
    decreases n,
{
    if n == 0 {
        if s.len() > 0 {
            assert(s[0] < 0);
        }
    } else if exists|k: int| 0 <= k < s.len() && s[k] == n - 1 {
        let k = choose|k: int| 0 <= k < s.len() && s[k] == n - 1;
        let t = s.remove(k);
        assert forall|i: int, j: int| 0 <= i < t.len() && 0 <= j < t.len() && i != j implies t[i]
            != t[j] by {
            let a = if i < k {
                i
            } else {
                i + 1
            };
            let b = if j < k {
                j
            } else {
                j + 1
            };
            assert(s[a] != s[b]);
        }
        assert forall|i: int| 0 <= i < t.len() implies (#[trigger] t[i]) < n - 1 by {
            let a = if i < k {
                i
            } else {
                i + 1
            };
            assert(s[a] != s[k]);
            assert(s[a] < n);
        }
        lemma_distinct_below(t, (n - 1) as nat);
    } else {
        assert forall|i: int| 0 <= i < s.len() implies (#[trigger] s[i]) < n - 1 by {
            assert(s[i] < n);
        }
        lemma_distinct_below(s, (n - 1) as nat);
    }
}

impl<T> BufferPool<T> {
    /// Slots that can be acquired, in the order they will be.
    pub closed spec fn available(&self) -> Seq<u32> {
        self.free@
    }

    /// What each slot keeps: nothing before its first use and while it is
    /// checked out.
    pub closed spec fn kept(&self) -> Seq<Option<T>> {
        self.slots@
    }

    /// A slot is checked out.
    pub open spec fn is_out(&self, slot: u32) -> bool {
        slot < self.kept().len() && !self.available().contains(slot)
    }

    /// How many slots are checked out.
    pub closed spec fn out_count(&self) -> nat {
        self.outstanding as nat
    }

    /// Every slot is either free, once, or checked out.
    pub closed spec fn wf(&self) -> bool {
        &&& self.free.wf()
        &&& 0 < self.slots@.len() <= u32::MAX
        &&& self.slots@.len() <= self.free.limit()
        &&& self.free@.no_duplicates()
        &&& forall|i: int| 0 <= i < self.free@.len() ==> (#[trigger] self.free@[i]) < self.slots@.len()
        &&& self.outstanding + self.free@.len() == self.slots@.len()
    }

    /// The pool never hands out more than it has.
    pub proof fn law_never_oversubscribed(&self)
        requires
            self.wf(),
        ensures
            self.out_count() + self.available().len() == self.kept().len(),
            self.out_count() <= self.kept().len(),
            self.available().no_duplicates(),
    {
    }

    /// Creates a pool of `size` slots (min 1).
    pub fn new(size: usize) -> (pool: BufferPool<T>)
        requires
            size <= u32::MAX,
            size <= usize::MAX / 2 + 1,
        ensures
            pool.wf(),
            pool.out_count() == 0,
            pool.kept() == Seq::new(
                if size == 0 {
                    1
                } else {
                    size as nat
                },
                |i: int| None::<T>,
            ),
            pool.available() == Seq::new(pool.kept().len(), |i: int| i as u32),
    {
        let n: usize = if size == 0 {
            1
        } else {
            size
        };
        let mut slots: Vec<Option<T>> = Vec::with_capacity(n);
        let mut free: MpmcRing<u32> = MpmcRing::with_capacity(n);
        proof {
            lemma_rounded(n as nat);
        }
        let mut i: usize = 0;
        while i < n
            invariant
                i <= n,
                n <= u32::MAX,
                n <= free.limit(),
                free.wf(),
                slots@.len() == i,
                free@.len() == i,
                forall|j: int| 0 <= j < i ==> (#[trigger] slots@[j]) is None,
                forall|j: int| 0 <= j < i ==> (#[trigger] free@[j]) == j as u32,
            decreases n - i,
        {
            slots.push(None);
            let _ = free.push(i as u32);
            i = i + 1;
        }
        let pool: BufferPool<T> = BufferPool { slots, free, outstanding: 0 };
        proof {
            assert(pool.kept() =~= Seq::new(n as nat, |i: int| None::<T>));
            assert(pool.available() =~= Seq::new(pool.kept().len(), |i: int| i as u32));
        }
        pool
    }

    /// Total slot count.
    pub fn capacity(&self) -> (r: usize)
        ensures
            r == self.kept().len(),
    {
        self.slots.len()
    }

    /// Slots currently checked out.
    pub fn in_use(&self) -> (r: usize)
        ensures
            r == self.out_count(),
    {
        self.outstanding
    }

    /// Takes a slot out of the pool, initializing it with `init` on first
    /// use (later acquisitions see the previous contents). `None` when
    /// exhausted.
    pub fn get_with<F: FnOnce() -> T>(&mut self, init: F) -> (r: Option<Pooled<T>>)
        requires
            old(self).wf(),
            init.requires(()),
        ensures
            final(self).wf(),
            match r {
                None => {
                    &&& old(self).available().len() == 0
                    &&& final(self).available() == old(self).available()
                    &&& final(self).kept() == old(self).kept()
                    &&& final(self).out_count() == old(self).out_count()
                },
                Some(g) => {
                    &&& old(self).available().len() > 0
                    &&& g.slot() == old(self).available()[0]
                    &&& final(self).available() == old(self).available().drop_first()
                    &&& final(self).kept() == old(self).kept().update(g.slot() as int, None)
                    &&& final(self).out_count() == old(self).out_count() + 1
                    &&& final(self).is_out(g.slot())
                    &&& match old(self).kept()[g.slot() as int] {
                        Some(v) => g@ == v,
                        None => init.ensures((), g@),
                    }
                },
            },
    {
        match self.acquire() {
            Some((idx, Some(value))) => Some(Pooled { idx, value }),
            Some((idx, None)) => {
                let value: T = init();
                Some(Pooled { idx, value })
            },
            None => None,
        }
    }

    /// Takes a slot out of the pool with what it keeps.
    fn acquire(&mut self) -> (r: Option<(u32, Option<T>)>)
        requires
            old(self).wf(),
        ensures
            final(self).wf(),
            match r {
                None => {
                    &&& old(self).available().len() == 0
                    &&& final(self).available() == old(self).available()
                    &&& final(self).kept() == old(self).kept()
                    &&& final(self).out_count() == old(self).out_count()
                },
                Some((idx, kept)) => {
                    &&& old(self).available().len() > 0
                    &&& idx == old(self).available()[0]
                    &&& final(self).available() == old(self).available().drop_first()
                    &&& final(self).kept() == old(self).kept().update(idx as int, None)
                    &&& final(self).out_count() == old(self).out_count() + 1
                    &&& final(self).is_out(idx)
                    &&& kept == old(self).kept()[idx as int]
                },
            },
    {
        let ghost before = self.free@;
        let idx: u32 = match self.free.pop() {
            Some(i) => i,
            None => {
                return None;
            },
        };
        assert(idx == before[0]);
        let mut taken: Option<T> = None;
        std::mem::swap(&mut taken, &mut self.slots[idx as usize]);
        self.outstanding = self.outstanding + 1;
        proof {
            let now = self.free@;
            assert forall|i: int| 0 <= i < now.len() implies (#[trigger] now[i])
                < self.slots@.len() by {
                assert(now[i] == before[i + 1]);
            }
            assert forall|i: int, j: int| 0 <= i < now.len() && 0 <= j < now.len() && i
                != j implies now[i] != now[j] by {
                assert(before[i + 1] != before[j + 1]);
            }
            if now.contains(idx) {
                let k = choose|k: int| 0 <= k < now.len() && now[k] == idx;
                assert(before[k + 1] != before[0]);
            }
        }
        Some((idx, taken))
    }

    /// Returns a slot with its value to the pool.
    pub fn release(&mut self, handle: Pooled<T>)
        requires
            old(self).wf(),
            old(self).is_out(handle.slot()),
        ensures
            final(self).wf(),
            final(self).available() == old(self).available().push(handle.slot()),
            final(self).kept() == old(self).kept().update(
                handle.slot() as int,
                Some(handle@),
            ),
            final(self).out_count() + 1 == old(self).out_count(),
    {
        let ghost before = self.free@;
        let Pooled { idx, value } = handle;
        proof {
            let all = before.push(idx);
            assert forall|i: int| 0 <= i < all.len() implies (#[trigger] all[i])
                < self.slots@.len() by {
                if i < before.len() {
                    assert(before[i] < self.slots@.len());
                }
            }
            assert forall|i: int, j: int| 0 <= i < all.len() && 0 <= j < all.len() && i
                != j implies all[i] != all[j] by {
                if i == before.len() {
                    assert(before.contains(before[j]));
                } else if j == before.len() {
                    assert(before.contains(before[i]));
                } else {
                    assert(before[i] != before[j]);
                }
            }
            lemma_distinct_below(all, self.slots@.len());
        }
        self.slots.set(idx as usize, Some(value));
        let _ = self.free.push(idx);
        self.outstanding = self.outstanding - 1;
    }
}

impl<T: Default> BufferPool<T> {
    /// Convenience: [`get_with`](Self::get_with) with the default value.
    pub fn get_default(&mut self) -> (r: Option<Pooled<T>>)
        requires
            old(self).wf(),
        ensures
            final(self).wf(),
            match r {
                None => {
                    &&& old(self).available().len() == 0
                    &&& final(self).available() == old(self).available()
                    &&& final(self).kept() == old(self).kept()
                    &&& final(self).out_count() == old(self).out_count()
                },
                Some(g) => {
                    &&& old(self).available().len() > 0
                    &&& g.slot() == old(self).available()[0]
                    &&& final(self).available() == old(self).available().drop_first()
                    &&& final(self).kept() == old(self).kept().update(g.slot() as int, None)
                    &&& final(self).out_count() == old(self).out_count() + 1
                    &&& final(self).is_out(g.slot())
                    &&& match old(self).kept()[g.slot() as int] {
                        Some(v) => g@ == v,
                        None => call_ensures(T::default, (), g@),
                    }
                },
            },
    {
        match self.acquire() {
            Some((idx, Some(value))) => Some(Pooled { idx, value }),
            Some((idx, None)) => Some(Pooled { idx, value: T::default() }),
            None => None,
        }
    }
}

} // verus!
