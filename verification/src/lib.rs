//! A generic double-ended growable ring buffer.
//!
//! The container supports amortized O(1) insertion and removal at both ends.
//! It is backed by a contiguous store of slots indexed with wraparound; when
//! the store is full it doubles in capacity, moving (never copying) the live
//! elements. The view of a buffer is the sequence of its logical contents,
//! front to back, and every operation's contract is stated against that view.

use vstd::prelude::*;

verus! {

/// Physical slot of logical index `i` in a store of `cap` slots whose logical
/// front sits at slot `head`: `(head + i) mod cap`, written without `%`, which
/// is equivalent while `0 <= i <= cap` and `0 <= head < cap`.
pub open spec fn slot_at(head: int, cap: int, i: int) -> int {
    if head + i < cap {
        head + i
    } else {
        head + i - cap
    }
}

/// Logical distance from slot `head` forward (with wraparound) to slot `j`:
/// the inverse of `slot_at`, so slot `j` holds the element of logical index
/// `dist_at(head, cap, j)` whenever that distance is below the length.
pub open spec fn dist_at(head: int, cap: int, j: int) -> int {
    if j >= head {
        j - head
    } else {
        j + cap - head
    }
}

/// `slot_at` maps distinct logical indices to distinct physical slots.
proof fn lemma_slot_at_injective(head: int, cap: int, i: int, j: int)
    requires
        0 <= head < cap,
        0 <= i < cap,
        0 <= j < cap,
        i != j,
    ensures
        slot_at(head, cap, i) != slot_at(head, cap, j),
{
}

/// `dist_at` recovers the logical index of the slot that `slot_at` names.
proof fn lemma_dist_slot_at(head: int, cap: int, i: int)
    requires
        0 <= head < cap,
        0 <= i < cap,
    ensures
        0 <= slot_at(head, cap, i) < cap,
        dist_at(head, cap, slot_at(head, cap, i)) == i,
{
}

/// `slot_at` recovers the slot whose logical index `dist_at` names.
proof fn lemma_slot_dist_at(head: int, cap: int, j: int)
    requires
        0 <= head < cap,
        0 <= j < cap,
    ensures
        0 <= dist_at(head, cap, j) < cap,
        slot_at(head, cap, dist_at(head, cap, j)) == j,
{
}

/// Law of front/back symmetry at the front: pushing a value at the front and
/// then popping the front yields exactly that value and restores the original
/// contents, whatever the starting contents. `push_front` turns contents `s`
/// into `s.insert(0, x)`; `pop_front` of non-empty contents returns the first
/// element and leaves `drop_first` behind.
pub proof fn lemma_push_front_pop_front<T>(s: Seq<T>, x: T)
    ensures
        s.insert(0, x).len() == s.len() + 1,
        s.insert(0, x).first() == x,
        s.insert(0, x).drop_first() == s,
{
    assert(s.insert(0, x)[0] == x);
    assert(s.insert(0, x).drop_first() =~= s);
}

/// A double-ended queue over a fixed-size backing store of optional slots.
/// `head` is the physical slot of the logical first element and `len` the
/// number of live elements; the live window wraps modulo the capacity.
pub struct RingBuffer<T> {
    data: Vec<Option<T>>,
    head: usize,
    len: usize,
}

impl<T> View for RingBuffer<T> {
    type V = Seq<T>;

    /// The logical contents, front to back.
    closed spec fn view(&self) -> Seq<T> {
        Seq::new(
            self.len as nat,
            |i: int| self.data@[slot_at(self.head as int, self.data@.len() as int, i)]->Some_0,
        )
    }
}

impl<T> RingBuffer<T> {
    /// Number of slots in the backing store (not the element count).
    pub closed spec fn capacity(&self) -> nat {
        self.data@.len()
    }

    /// The structural invariant: the length never exceeds the capacity, the
    /// head names a real slot (or is zero while no store exists), and the
    /// occupied slots are exactly those of the live window.
    pub closed spec fn wf(&self) -> bool {
        &&& self.len <= self.data@.len()
        &&& if self.data@.len() == 0 {
            self.head == 0
        } else {
            self.head < self.data@.len()
        }
        &&& forall|j: int|
            0 <= j < self.data@.len() ==> ((#[trigger] self.data@[j]) is Some <==> dist_at(
                self.head as int,
                self.data@.len() as int,
                j,
            ) < self.len)
    }

    /// Creates an empty buffer whose backing store has `n` empty slots.
    pub fn with_capacity(n: usize) -> (rb: RingBuffer<T>)
        ensures
            rb.wf(),
            rb@ == Seq::<T>::empty(),
            rb.capacity() == n,
    {
        let mut data: Vec<Option<T>> = Vec::new();
        let mut k: usize = 0;
        while k < n
            invariant
                k <= n,
                data@.len() == k,
                forall|j: int| 0 <= j < k ==> (#[trigger] data@[j]) is None,
            decreases n - k,
        {
            data.push(None);
            k = k + 1;
        }
        let rb = RingBuffer { data, head: 0, len: 0 };
        proof {
            assert(rb@ =~= Seq::<T>::empty());
        }
        rb
    }

    /// Translates logical index `idx` to its physical slot. Every read and
    /// write of the store goes through this one routine.
    fn slot_index(&self, idx: usize) -> (r: usize)
        requires
            self.head < self.data@.len(),
            idx < self.data@.len(),
        ensures
            r == slot_at(self.head as int, self.data@.len() as int, idx as int),
            r < self.data@.len(),
    {
        let cap = self.data.len();
        if idx < cap - self.head {
            self.head + idx
        } else {
            idx - (cap - self.head)
        }
    }

    /// Replaces the full backing store by one of doubled capacity (one slot
    /// when growing from zero capacity), moving the live elements to slots
    /// `0..len` in logical order and resetting the head to zero.
    fn resize2x(&mut self)
        requires
            old(self).wf(),
            old(self).len == old(self).data@.len(),
            2 * old(self).len <= usize::MAX,
        ensures
            final(self).wf(),
            final(self)@ == old(self)@,
            final(self).len == old(self).len,
            final(self).capacity() == if old(self).capacity() == 0 {
                1nat
            } else {
                2 * old(self).capacity()
            },
    {
        let ghost h = old(self).head as int;
        let ghost c = old(self).data@.len() as int;
        let new_size: usize = if self.data.len() > 0 {
            self.len * 2
        } else {
            1
        };
        let mut new_data: Vec<Option<T>> = Vec::with_capacity(new_size);
        let mut idx: usize = 0;
        while idx < self.len
            invariant
                old(self).wf(),
                h == old(self).head as int,
                c == old(self).data@.len() as int,
                new_size as int == if c == 0 {
                    1int
                } else {
                    2 * c
                },
                self.head == old(self).head,
                self.len == old(self).len,
                self.data@.len() == old(self).data@.len(),
                self.len == self.data@.len(),
                idx <= self.len,
                new_data@.len() == idx,
                forall|k: int|
                    0 <= k < idx ==> #[trigger] new_data@[k] == old(self).data@[slot_at(h, c, k)],
                forall|k: int|
                    idx <= k < self.len ==> #[trigger] self.data@[slot_at(h, c, k)] == old(
                        self,
                    ).data@[slot_at(h, c, k)],
            decreases self.len - idx,
        {
            let s = self.slot_index(idx);
            let mut elem: Option<T> = None;
            core::mem::swap(&mut self.data[s], &mut elem);
            new_data.push(elem);
            proof {
                assert forall|k: int| idx + 1 <= k < self.len implies #[trigger] self.data@[slot_at(
                    h,
                    c,
                    k,
                )] == old(self).data@[slot_at(h, c, k)] by {
                    lemma_slot_at_injective(h, c, idx as int, k);
                }
            }
            idx = idx + 1;
        }
        while new_data.len() < new_size
            invariant
                old(self).wf(),
                h == old(self).head as int,
                c == old(self).data@.len() as int,
                new_size as int == if c == 0 {
                    1int
                } else {
                    2 * c
                },
                self.head == old(self).head,
                self.len == old(self).len,
                self.len == c,
                self.len <= new_data@.len() <= new_size,
                forall|k: int|
                    0 <= k < self.len ==> #[trigger] new_data@[k] == old(self).data@[slot_at(
                        h,
                        c,
                        k,
                    )],
                forall|k: int|
                    self.len <= k < new_data@.len() ==> (#[trigger] new_data@[k]) is None,
            decreases new_size - new_data@.len(),
        {
            new_data.push(None);
        }
        self.data = new_data;
        self.head = 0;
        proof {
            assert forall|k: int| 0 <= k < self.len implies (#[trigger] self.data@[k]) is Some
                && self.data@[k] == old(self).data@[slot_at(h, c, k)] by {
                lemma_dist_slot_at(h, c, k);
            }
            assert(self.wf());
            assert(self@ =~= old(self)@);
        }
    }

    /// Appends `val` at the back: the contents become the old contents with
    /// `val` pushed, and the capacity doubles exactly when the store was full.
    pub fn push_back(&mut self, val: T)
        requires
            old(self).wf(),
            old(self)@.len() == old(self).capacity() ==> 2 * old(self)@.len() <= usize::MAX,
        ensures
            final(self).wf(),
            final(self)@ == old(self)@.push(val),
            final(self).capacity() >= old(self).capacity(),
            old(self)@.len() < old(self).capacity() ==> final(self).capacity() == old(
                self,
            ).capacity(),
            old(self)@.len() == old(self).capacity() ==> final(self).capacity() == (
            if old(self).capacity() == 0 {
                1nat
            } else {
                2 * old(self).capacity()
            }),
    {
        if self.len == self.data.len() {
            self.resize2x();
        }
        let ghost mid = *self;
        let s = self.slot_index(self.len);
        let mut v: Option<T> = Some(val);
        core::mem::swap(&mut self.data[s], &mut v);
        self.len = self.len + 1;
        proof {
            let h = mid.head as int;
            let c = mid.data@.len() as int;
            assert forall|j: int|
                0 <= j < c implies ((#[trigger] self.data@[j]) is Some <==> dist_at(h, c, j)
                < self.len) by {
                if j == slot_at(h, c, mid.len as int) {
                    lemma_dist_slot_at(h, c, mid.len as int);
                } else {
                    lemma_slot_dist_at(h, c, j);
                }
            }
            assert(self.wf());
            assert forall|i: int| 0 <= i < mid.len implies self@[i] == mid@[i] by {
                lemma_slot_at_injective(h, c, i, mid.len as int);
            }
            assert(self@ =~= mid@.push(val));
        }
    }

    /// Inserts `val` at the front: the contents become `val` followed by the
    /// old contents, and the capacity doubles exactly when the store was full.
    pub fn push_front(&mut self, val: T)
        requires
            old(self).wf(),
            old(self)@.len() == old(self).capacity() ==> 2 * old(self)@.len() <= usize::MAX,
        ensures
            final(self).wf(),
            final(self)@ == old(self)@.insert(0, val),
            final(self).capacity() >= old(self).capacity(),
            old(self)@.len() < old(self).capacity() ==> final(self).capacity() == old(
                self,
            ).capacity(),
            old(self)@.len() == old(self).capacity() ==> final(self).capacity() == (
            if old(self).capacity() == 0 {
                1nat
            } else {
                2 * old(self).capacity()
            }),
    {
        if self.len == self.data.len() {
            self.resize2x();
        }
        let ghost mid = *self;
        self.head = if self.head > 0 {
            self.head - 1
        } else {
            self.data.len() - 1
        };
        let s = self.slot_index(0);
        let mut v: Option<T> = Some(val);
        core::mem::swap(&mut self.data[s], &mut v);
        self.len = self.len + 1;
        proof {
            let h = mid.head as int;
            let h2 = self.head as int;
            let c = mid.data@.len() as int;
            assert(s == h2);
            assert forall|j: int|
                0 <= j < c implies ((#[trigger] self.data@[j]) is Some <==> dist_at(h2, c, j)
                < self.len) by {
                if j != h2 {
                    assert(dist_at(h2, c, j) == dist_at(h, c, j) + 1);
                }
            }
            assert(self.wf());
            assert forall|i: int| 1 <= i < mid.len + 1 implies self@[i] == mid@[i - 1] by {
                assert(slot_at(h2, c, i) == slot_at(h, c, i - 1));
                lemma_slot_at_injective(h2, c, i, 0);
            }
            assert(self@ =~= mid@.insert(0, val));
        }
    }

    /// Removes and returns the back element, or `None` on an empty buffer.
    /// The head and the capacity are unchanged.
    pub fn pop_back(&mut self) -> (r: Option<T>)
        requires
            old(self).wf(),
        ensures
            final(self).wf(),
            final(self).capacity() == old(self).capacity(),
            old(self)@.len() == 0 ==> r is None && final(self)@ == old(self)@,
            old(self)@.len() > 0 ==> r == Some(old(self)@.last()) && final(self)@ == old(
                self,
            )@.drop_last(),
    {
        if self.len == 0 {
            None
        } else {
            let s = self.slot_index(self.len - 1);
            let mut result: Option<T> = None;
            core::mem::swap(&mut self.data[s], &mut result);
            self.len = self.len - 1;
            proof {
                let h = self.head as int;
                let c = self.data@.len() as int;
                lemma_dist_slot_at(h, c, old(self).len - 1);
                assert forall|j: int|
                    0 <= j < c implies ((#[trigger] self.data@[j]) is Some <==> dist_at(h, c, j)
                    < self.len) by {
                    if j != s {
                        lemma_slot_dist_at(h, c, j);
                    }
                }
                assert(self.wf());
                assert forall|i: int| 0 <= i < self.len implies self@[i] == old(self)@[i] by {
                    lemma_slot_at_injective(h, c, i, old(self).len - 1);
                }
                assert(self@ =~= old(self)@.drop_last());
            }
            result
        }
    }

    /// Removes and returns the front element, or `None` on an empty buffer.
    /// The head advances by one slot with wraparound; the capacity is
    /// unchanged.
    pub fn pop_front(&mut self) -> (r: Option<T>)
        requires
            old(self).wf(),
        ensures
            final(self).wf(),
            final(self).capacity() == old(self).capacity(),
            old(self)@.len() == 0 ==> r is None && final(self)@ == old(self)@,
            old(self)@.len() > 0 ==> r == Some(old(self)@.first()) && final(self)@ == old(
                self,
            )@.drop_first(),
    {
        if self.len == 0 {
            None
        } else {
            let s = self.slot_index(0);
            let mut result: Option<T> = None;
            core::mem::swap(&mut self.data[s], &mut result);
            self.len = self.len - 1;
            let cap = self.data.len();
            self.head = if self.head + 1 == cap {
                0
            } else {
                self.head + 1
            };
            proof {
                let h = old(self).head as int;
                let h2 = self.head as int;
                let c = self.data@.len() as int;
                assert(s == h);
                assert forall|j: int|
                    0 <= j < c implies ((#[trigger] self.data@[j]) is Some <==> dist_at(h2, c, j)
                    < self.len) by {
                    if j != h {
                        assert(dist_at(h2, c, j) == dist_at(h, c, j) - 1);
                        lemma_slot_dist_at(h, c, j);
                    }
                }
                assert(self.wf());
                assert forall|i: int| 0 <= i < self.len implies self@[i] == old(self)@[i + 1] by {
                    assert(slot_at(h2, c, i) == slot_at(h, c, i + 1));
                    lemma_slot_at_injective(h, c, i + 1, 0);
                }
                assert(self@ =~= old(self)@.drop_first());
            }
            result
        }
    }

    /// Read access to the element of logical index `i`. The index must lie
    /// below the current length, so the lookup never wraps into another
    /// element's slot or reads an empty one.
    pub fn get(&self, i: usize) -> (r: &T)
        requires
            self.wf(),
            i < self@.len(),
        ensures
            *r == self@[i as int],
    {
        let s = self.slot_index(i);
        proof {
            lemma_dist_slot_at(self.head as int, self.data@.len() as int, i as int);
        }
        self.data[s].as_ref().unwrap()
    }

    /// A fresh read-only cursor over the contents, positioned at the front.
    pub fn into_iter(&self) -> (it: RingBufferIterator<T>)
        requires
            self.wf(),
        ensures
            it.wf(),
            it.elements() == self@,
            it.position() == 0,
    {
        RingBufferIterator { ring_buffer: self, pos: 0 }
    }
}

/// A lazy forward cursor over a borrowed `RingBuffer`, yielding references to
/// the elements in logical order from front to back.
pub struct RingBufferIterator<'a, T> {
    ring_buffer: &'a RingBuffer<T>,
    pos: usize,
}

impl<'a, T> RingBufferIterator<'a, T> {
    /// The contents being traversed, front to back.
    pub closed spec fn elements(&self) -> Seq<T> {
        self.ring_buffer@
    }

    /// How many elements have been yielded so far.
    pub closed spec fn position(&self) -> nat {
        self.pos as nat
    }

    /// The cursor ranges over a well-formed buffer and never passes the end.
    pub closed spec fn wf(&self) -> bool {
        &&& self.ring_buffer.wf()
        &&& self.pos <= self.ring_buffer@.len()
    }

    /// Yields the element at the cursor and advances, or returns `None` once
    /// every element has been yielded.
    pub fn next(&mut self) -> (r: Option<&'a T>)
        requires
            old(self).wf(),
        ensures
            final(self).wf(),
            final(self).elements() == old(self).elements(),
            old(self).position() < old(self).elements().len() ==> {
                &&& r matches Some(v) && *v == old(self).elements()[old(self).position() as int]
                &&& final(self).position() == old(self).position() + 1
            },
            old(self).position() >= old(self).elements().len() ==> {
                &&& r is None
                &&& final(self).position() == old(self).position()
            },
    {
        if self.pos < self.ring_buffer.len {
            let res = self.ring_buffer.get(self.pos);
            self.pos = self.pos + 1;
            Some(res)
        } else {
            None
        }
    }
}

} // verus!
