//! A fixed-capacity circular buffer with read, write, overwrite and clear
//! operations, modelled as a first-in first-out queue.

use vstd::prelude::*;

verus! {

/// Why a buffer operation failed.
#[derive(Clone, Copy, Debug, PartialEq, Eq, Structural)]
pub enum Error {
    EmptyBuffer,
    FullBuffer,
}

/// A ring of `capacity` slots; elements are read in the order they were
/// written.
pub struct CircularBuffer<T: Copy> {
    pub buffer: Vec<Option<T>>,
    pub read_index: usize,
    pub write_index: usize,
    pub num_elements: usize,
}

/// The slot `x` places after the read position of `b`, wrapping around.
pub open spec fn slot_at<T: Copy>(b: CircularBuffer<T>, x: int) -> Option<T> {
    b.buffer@[(b.read_index + x) % (b.buffer@.len() as int)]
}

impl<T: Copy> CircularBuffer<T> {
    /// The number of slots.
    pub open spec fn capacity(self) -> int {
        self.buffer@.len() as int
    }

    /// The indices stay inside the ring, the element count fits, the write
    /// position follows the stored elements, and every stored slot is
    /// occupied.
    pub open spec fn wf(self) -> bool {
        &&& self.num_elements <= self.capacity()
        &&& (if self.capacity() == 0 {
            self.read_index == 0 && self.write_index == 0
        } else {
            self.read_index < self.capacity() && self.write_index < self.capacity()
                && self.write_index == (self.read_index + self.num_elements) % self.capacity()
        })
        &&& (forall|x: int| 0 <= x < self.num_elements ==> (#[trigger] slot_at(self, x)) is Some)
    }

    /// The stored elements, oldest first.
    pub open spec fn view(self) -> Seq<T> {
        Seq::new(self.num_elements as nat, |x: int| slot_at(self, x)->0)
    }

    /// An empty buffer of `capacity` slots.
    pub fn new(capacity: usize) -> (r: CircularBuffer<T>)
        ensures
            r.wf(),
            r.capacity() == capacity,
            r.view() == Seq::<T>::empty(),
    {
        let mut buffer: Vec<Option<T>> = Vec::new();
        let mut k: usize = 0;
        while k < capacity
            invariant
                k <= capacity,
                buffer@.len() == k as int,
            decreases capacity - k,
        {
            buffer.push(None);
            k = k + 1;
        }
        let r = CircularBuffer {
            buffer,
            read_index: 0usize,
            write_index: 0usize,
            num_elements: 0usize,
        };
        proof {
            if capacity > 0 {
                vstd::arithmetic::div_mod::lemma_small_mod(0nat, capacity as nat);
            }
            assert(r.view() =~= Seq::<T>::empty());
        }
        r
    }

    /// Append an element, or report `FullBuffer`, leaving everything
    /// unchanged, when no slot is free.
    pub fn write(&mut self, element: T) -> (r: Result<(), Error>)
        requires
            old(self).wf(),
        ensures
            final(self).wf(),
            final(self).capacity() == old(self).capacity(),
            old(self).view().len() == old(self).capacity() ==> r == Err::<(), Error>(
                Error::FullBuffer,
            ) && *final(self) == *old(self),
            old(self).view().len() < old(self).capacity() ==> r == Ok::<(), Error>(())
                && final(self).view() == old(self).view().push(element),
    {
        if self.num_elements == self.buffer.len() {
            return Err(Error::FullBuffer);
        }
        let cap = self.buffer.len();
        let ghost pre = *self;
        self.buffer[self.write_index] = Some(element);
        self.write_index = (self.write_index + 1) % cap;
        self.num_elements = self.num_elements + 1;
        proof {
            lemma_ring_advance(pre.read_index as int, pre.num_elements as int, cap as int);
            assert forall|x: int| 0 <= x < self.num_elements implies (#[trigger] slot_at(
                *self,
                x,
            )) is Some by {
                if x < pre.num_elements {
                    lemma_ring_distinct(
                        pre.read_index as int,
                        x,
                        pre.num_elements as int,
                        cap as int,
                    );
                    assert(slot_at(*self, x) == slot_at(pre, x));
                }
            }
            assert(self.view() =~= pre.view().push(element)) by {
                assert forall|x: int| 0 <= x < self.num_elements implies self.view()[x]
                    == pre.view().push(element)[x] by {
                    if x < pre.num_elements {
                        lemma_ring_distinct(
                            pre.read_index as int,
                            x,
                            pre.num_elements as int,
                            cap as int,
                        );
                        assert(slot_at(*self, x) == slot_at(pre, x));
                        assert(slot_at(pre, x) is Some);
                    }
                }
            }
        }
        Ok(())
    }

    /// Take the oldest element, or report `EmptyBuffer`, leaving everything
    /// unchanged, when nothing is stored.
    pub fn read(&mut self) -> (r: Result<T, Error>)
        requires
            old(self).wf(),
        ensures
            final(self).wf(),
            final(self).capacity() == old(self).capacity(),
            old(self).view().len() == 0 ==> r == Err::<T, Error>(Error::EmptyBuffer) && *final(self)
                == *old(self),
            old(self).view().len() > 0 ==> r == Ok::<T, Error>(old(self).view()[0])
                && final(self).view() == old(self).view().drop_first(),
    {
        if self.num_elements == 0 {
            return Err(Error::EmptyBuffer);
        }
        let cap = self.buffer.len();
        let ghost pre = *self;
        proof {
            vstd::arithmetic::div_mod::lemma_small_mod(pre.read_index as nat, cap as nat);
            assert(slot_at(pre, 0) is Some);
            assert(slot_at(pre, 0) == pre.buffer@[pre.read_index as int]);
        }
        let slot = self.buffer[self.read_index];
        let element = match slot {
            Some(e) => e,
            None => {
                proof {
                    assert(false);
                }
                return Err(Error::EmptyBuffer);
            },
        };
        self.buffer[self.read_index] = None;
        self.read_index = (self.read_index + 1) % cap;
        self.num_elements = self.num_elements - 1;
        proof {
            assert(element == pre.view()[0]);
            lemma_ring_shift_one(pre.read_index as int, pre.num_elements as int - 1, cap as int);
            assert(self.write_index == (self.read_index + self.num_elements) % (cap as int));
            assert forall|x: int| 0 <= x < self.num_elements implies (#[trigger] slot_at(
                *self,
                x,
            )) is Some by {
                lemma_ring_shift_one(pre.read_index as int, x, cap as int);
                lemma_ring_distinct(pre.read_index as int, 0, x + 1, cap as int);
                assert(slot_at(*self, x) == slot_at(pre, x + 1));
            }
            assert(self.view() =~= pre.view().drop_first()) by {
                assert forall|x: int| 0 <= x < self.num_elements implies self.view()[x]
                    == pre.view().drop_first()[x] by {
                    lemma_ring_shift_one(pre.read_index as int, x, cap as int);
                    lemma_ring_distinct(pre.read_index as int, 0, x + 1, cap as int);
                    assert(slot_at(*self, x) == slot_at(pre, x + 1));
                    assert(slot_at(pre, x + 1) is Some);
                }
            }
        }
        Ok(element)
    }

    /// Forget every stored element, keeping the capacity.
    pub fn clear(&mut self)
        requires
            old(self).wf(),
        ensures
            final(self).wf(),
            final(self).capacity() == old(self).capacity(),
            final(self).view() == Seq::<T>::empty(),
    {
        let cap = self.buffer.len();
        let mut k: usize = 0;
        while k < cap
            invariant
                k <= cap,
                self.buffer@.len() == cap as int,
            decreases cap - k,
        {
            self.buffer[k] = None;
            k = k + 1;
        }
        self.read_index = 0;
        self.write_index = 0;
        self.num_elements = 0;
        proof {
            if cap > 0 {
                vstd::arithmetic::div_mod::lemma_small_mod(0nat, cap as nat);
            }
            assert(self.view() =~= Seq::<T>::empty());
        }
    }

    /// Append an element; when the buffer is full, the oldest element is
    /// dropped to make room.
    pub fn overwrite(&mut self, element: T)
        requires
            old(self).wf(),
        ensures
            final(self).wf(),
            final(self).capacity() == old(self).capacity(),
            old(self).view().len() < old(self).capacity() ==> final(self).view()
                == old(self).view().push(element),
            old(self).view().len() == old(self).capacity() && old(self).capacity() > 0
                ==> final(self).view() == old(self).view().drop_first().push(element),
            old(self).capacity() == 0 ==> *final(self) == *old(self),
    {
        if self.num_elements == self.buffer.len() {
            if self.buffer.len() == 0 {
                return ;
            }
            let cap = self.buffer.len();
            let ghost pre = *self;
            self.buffer[self.write_index] = Some(element);
            self.write_index = (self.write_index + 1) % cap;
            self.read_index = (self.read_index + 1) % cap;
            proof {
                vstd::arithmetic::div_mod::lemma_mod_add_multiples_vanish(
                    pre.read_index as int,
                    cap as int,
                );
                vstd::arithmetic::div_mod::lemma_small_mod(pre.read_index as nat, cap as nat);
                assert(pre.write_index as int == pre.read_index as int);
                vstd::arithmetic::div_mod::lemma_mod_add_multiples_vanish(
                    self.read_index as int,
                    cap as int,
                );
                vstd::arithmetic::div_mod::lemma_small_mod(self.read_index as nat, cap as nat);
                assert(self.write_index == (self.read_index + self.num_elements) % (cap as int));
                assert forall|x: int| 0 <= x < self.num_elements implies (#[trigger] slot_at(
                    *self,
                    x,
                )) is Some by {
                    lemma_ring_shift_one(pre.read_index as int, x, cap as int);
                    if x + 1 < pre.num_elements {
                        lemma_ring_distinct(pre.read_index as int, x + 1, 0, cap as int);
                        assert(slot_at(*self, x) == slot_at(pre, x + 1));
                    } else {
                        assert((pre.read_index + x + 1) % (cap as int) == pre.write_index as int);
                    }
                }
                assert(self.view() =~= pre.view().drop_first().push(element)) by {
                    assert forall|x: int| 0 <= x < self.num_elements implies self.view()[x]
                        == pre.view().drop_first().push(element)[x] by {
                        lemma_ring_shift_one(pre.read_index as int, x, cap as int);
                        if x + 1 < pre.num_elements {
                            lemma_ring_distinct(pre.read_index as int, x + 1, 0, cap as int);
                            assert(slot_at(*self, x) == slot_at(pre, x + 1));
                            assert(slot_at(pre, x + 1) is Some);
                        } else {
                            assert((pre.read_index + x + 1) % (cap as int)
                                == pre.write_index as int);
                        }
                    }
                }
            }
        } else {
            let r = self.write(element);
            proof {
                if r is Err {
                    assert(false);
                }
            }
        }
    }
}

/// Advancing the write position one slot past the stored elements matches
/// counting one more element.
proof fn lemma_ring_advance(r: int, n: int, cap: int)
    requires
        cap > 0,
        r >= 0,
        n >= 0,
    ensures
        ((r + n) % cap + 1) % cap == (r + n + 1) % cap,
{
    vstd::arithmetic::div_mod::lemma_add_mod_noop_right(1, r + n, cap);
}

/// Stepping the ring start once and walking `x` slots is the same as walking
/// `x + 1` slots from the old start.
proof fn lemma_ring_shift_one(r: int, x: int, cap: int)
    requires
        cap > 0,
        r >= 0,
        x >= 0,
    ensures
        ((r + 1) % cap + x) % cap == (r + x + 1) % cap,
{
    vstd::arithmetic::div_mod::lemma_add_mod_noop_right(x, r + 1, cap);
}

/// Two offsets below the capacity land on distinct ring slots.
proof fn lemma_ring_distinct(r: int, a: int, b: int, cap: int)
    requires
        cap > 0,
        r >= 0,
        0 <= a < cap,
        0 <= b < cap,
        a != b,
    ensures
        (r + a) % cap != (r + b) % cap,
{
    if (r + a) % cap == (r + b) % cap {
        vstd::arithmetic::div_mod::lemma_sub_mod_noop(r + b, r + a, cap);
        vstd::arithmetic::div_mod::lemma_small_mod(0nat, cap as nat);
        if a < b {
            vstd::arithmetic::div_mod::lemma_small_mod((b - a) as nat, cap as nat);
            assert((b - a) % cap == b - a);
        } else {
            vstd::arithmetic::div_mod::lemma_mod_add_multiples_vanish(b - a, cap);
            vstd::arithmetic::div_mod::lemma_small_mod((b - a + cap) as nat, cap as nat);
            assert((b - a) % cap == b - a + cap);
        }
    }
}

} // verus!
