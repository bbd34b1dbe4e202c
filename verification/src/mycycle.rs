//! A repeating iterator: cycles through a sequence of elements a fixed
//! number of times, or endlessly when the repeat count is zero.

use vstd::prelude::*;

verus! {

/// The sequence `s` repeated `n` times in a row.
pub open spec fn repeat_seq<T>(s: Seq<T>, n: nat) -> Seq<T>
    decreases n,
{
    if n == 0 {
        Seq::empty()
    } else {
        s + repeat_seq(s, (n - 1) as nat)
    }
}

/// Repeating an empty sequence yields nothing.
proof fn lemma_repeat_empty<T>(n: nat)
    ensures
        repeat_seq(Seq::<T>::empty(), n) == Seq::<T>::empty(),
    decreases n,
{
    if n > 0 {
        lemma_repeat_empty::<T>((n - 1) as nat);
        assert(repeat_seq(Seq::<T>::empty(), n) =~= Seq::<T>::empty());
    }
}

/// An iterator over `items` repeated: endlessly when constructed with a
/// repeat count of zero, and exactly `repeat` times otherwise.
pub struct MyCycle<T: Copy> {
    pub items: Vec<T>,
    pub pos: usize,
    pub rounds_left: usize,
    pub infinite: bool,
}

impl<T: Copy> MyCycle<T> {
    /// The position cursor stays inside the element list.
    pub open spec fn wf(self) -> bool {
        if self.items@.len() == 0 {
            self.pos == 0
        } else {
            self.pos < self.items@.len()
        }
    }

    /// The elements the list holds.
    pub open spec fn elements(self) -> Seq<T> {
        self.items@
    }

    /// Whether the cycle never ends.
    pub open spec fn is_infinite(self) -> bool {
        self.infinite
    }

    /// The current cursor position.
    pub open spec fn cursor(self) -> int {
        self.pos as int
    }

    /// The elements a finite cycle will still produce, in order: the rest of
    /// the current round, then the full remaining rounds.
    pub open spec fn remaining(self) -> Seq<T> {
        if self.rounds_left == 0 {
            Seq::empty()
        } else {
            self.items@.skip(self.pos as int) + repeat_seq(
                self.items@,
                (self.rounds_left - 1) as nat,
            )
        }
    }

    /// A cycle over `iter`, produced `repeat` times; a repeat count of zero
    /// asks for an endless cycle. A finite cycle will produce exactly the
    /// elements repeated `repeat` times.
    pub fn new(iter: Vec<T>, repeat: usize) -> (r: MyCycle<T>)
        ensures
            r.wf(),
            r.elements() == iter@,
            r.is_infinite() == (repeat == 0),
            r.cursor() == 0,
            !r.is_infinite() ==> r.remaining() == repeat_seq(iter@, repeat as nat),
    {
        let c = MyCycle { pos: 0usize, rounds_left: repeat, infinite: repeat == 0, items: iter };
        proof {
            if repeat > 0 {
                assert(c.items@.skip(0) =~= c.items@);
                assert(c.remaining() =~= repeat_seq(c.items@, repeat as nat));
            }
        }
        c
    }

    /// The next element: for a finite cycle, the head of `remaining`; for an
    /// endless cycle over a non-empty list, the element under the cursor,
    /// which then advances cyclically. Either cycle over an empty list
    /// produces nothing.
    pub fn next(&mut self) -> (r: Option<T>)
        requires
            old(self).wf(),
        ensures
            final(self).wf(),
            final(self).elements() == old(self).elements(),
            final(self).is_infinite() == old(self).is_infinite(),
            !old(self).is_infinite() ==> (if old(self).remaining().len() == 0 {
                r is None && *final(self) == *old(self)
            } else {
                r == Some(old(self).remaining()[0]) && final(self).remaining() == old(
                    self,
                ).remaining().drop_first()
            }),
            old(self).is_infinite() ==> (if old(self).elements().len() == 0 {
                r is None && *final(self) == *old(self)
            } else {
                r == Some(old(self).elements()[old(self).cursor()]) && final(self).cursor() == (old(
                    self,
                ).cursor() + 1) % (old(self).elements().len() as int)
            }),
    {
        let len = self.items.len();
        if len == 0 {
            proof {
                if !self.infinite && self.rounds_left > 0 {
                    lemma_repeat_empty::<T>((self.rounds_left - 1) as nat);
                    assert(self.items@ =~= Seq::<T>::empty());
                    assert(self.items@.skip(self.pos as int) =~= Seq::<T>::empty());
                    assert(self.remaining() =~= Seq::<T>::empty());
                }
            }
            return None;
        }
        if self.infinite {
            let v = self.items[self.pos];
            self.pos = (self.pos + 1) % len;
            return Some(v);
        }
        if self.rounds_left == 0 {
            return None;
        }
        let ghost pre = *self;
        let v = self.items[self.pos];
        self.pos = self.pos + 1;
        if self.pos == len {
            self.pos = 0;
            self.rounds_left = self.rounds_left - 1;
        }
        proof {
            assert(pre.remaining()[0] == v);
            if pre.pos + 1 < len {
                assert(self.remaining() =~= pre.remaining().drop_first());
            } else {
                assert(pre.items@.skip(pre.pos as int).len() == 1);
                if self.rounds_left == 0 {
                    assert(self.remaining() =~= pre.remaining().drop_first());
                } else {
                    assert(pre.items@.skip(0) =~= pre.items@);
                    assert(repeat_seq(pre.items@, (pre.rounds_left - 1) as nat) == pre.items@
                        + repeat_seq(pre.items@, (pre.rounds_left - 2) as nat));
                    assert(self.remaining() =~= pre.remaining().drop_first());
                }
            }
        }
        Some(v)
    }
}

} // verus!
