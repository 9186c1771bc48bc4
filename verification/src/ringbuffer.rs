//! A first-in first-out queue kept as a ring over a keyed map.
//!
//! Two cursors mark the occupied range of sixteen-bit indices. They move on
//! a working copy and are written back together by `commit`, so that a
//! reader of the committed bounds sees the queue either before or after a
//! group of operations.

use std::collections::HashMap;
use vstd::prelude::*;

verus! {

broadcast use vstd::std_specs::hash::group_hash_axioms;

/// The index of an element in the ring.
pub type BondIndex = u16;

/// The number of elements that the ring holds at most.
pub const CAPACITY: usize = 65535;

/// The number of indices from `start` up to `end`, going round the ring.
pub open spec fn ring_len(start: BondIndex, end: BondIndex) -> nat {
    ((end as int - start as int) % 0x1_0000) as nat
}

/// The index that lies `offset` places after `start`, going round the ring.
pub open spec fn ring_index(start: BondIndex, offset: int) -> BondIndex {
    ((start as int + offset) % 0x1_0000) as BondIndex
}

/// The index after `index`, going round the ring.
pub open spec fn ring_next(index: BondIndex) -> BondIndex {
    ring_index(index, 1)
}

/// The index before `index`, going round the ring.
pub open spec fn ring_prev(index: BondIndex) -> BondIndex {
    ring_index(index, -1)
}

/// Going `a` places and then `b` places is going `a + b` places.
pub proof fn lemma_ring_steps(start: BondIndex, a: int, b: int)
    ensures
        ring_index(ring_index(start, a), b) == ring_index(start, a + b),
{
    let x = start as int + a;
    vstd::arithmetic::div_mod::lemma_add_mod_noop(x, b, 0x1_0000);
    vstd::arithmetic::div_mod::lemma_mod_twice(x, 0x1_0000);
    vstd::arithmetic::div_mod::lemma_add_mod_noop(x % 0x1_0000, b, 0x1_0000);
}

/// Within one turn of the ring, different offsets give different indices,
/// and the offset of an index is the length of the range up to it.
pub proof fn lemma_ring_offsets(start: BondIndex, i: int)
    requires
        0 <= i < 0x1_0000,
    ensures
        ring_len(start, ring_index(start, i)) == i,
        forall|j: int| 0 <= j < 0x1_0000 && j != i ==> ring_index(start, j) != ring_index(start, i),
{
    let s = start as int;
    assert(ring_index(start, i) as int == if s + i < 0x1_0000 { s + i } else { s + i - 0x1_0000 });
    assert forall|j: int| 0 <= j < 0x1_0000 && j != i implies ring_index(start, j) != ring_index(
        start,
        i,
    ) by {
        assert(ring_index(start, j) as int == if s + j < 0x1_0000 { s + j } else { s + j - 0x1_0000 });
    }
}

/// The range from `start` to `end` ends at `end`.
pub proof fn lemma_ring_end(start: BondIndex, end: BondIndex)
    ensures
        ring_len(start, end) < 0x1_0000,
        ring_index(start, ring_len(start, end) as int) == end,
{
}

/// A queue over the indices of a ring, with the elements in a map.
pub struct RingBuffer<T> {
    bounds: (BondIndex, BondIndex),
    start: BondIndex,
    end: BondIndex,
    items: HashMap<BondIndex, T>,
}

impl<T> View for RingBuffer<T> {
    type V = Seq<T>;

    /// The elements of the queue, oldest first, as the working cursors see it.
    closed spec fn view(&self) -> Seq<T> {
        Seq::new(ring_len(self.start, self.end), |i: int| self.items@[ring_index(self.start, i)])
    }
}

impl<T> RingBuffer<T> {
    /// Every index between the working cursors holds an element.
    pub closed spec fn wf(&self) -> bool {
        forall|i: int|
            0 <= i < ring_len(self.start, self.end) ==> self.items@.contains_key(
                #[trigger] ring_index(self.start, i),
            )
    }

    /// The working cursors: the index of the oldest element and the index
    /// after the newest.
    pub closed spec fn cursors(&self) -> (BondIndex, BondIndex) {
        (self.start, self.end)
    }

    /// The cursors as they were last committed.
    pub closed spec fn committed(&self) -> (BondIndex, BondIndex) {
        self.bounds
    }

    /// What the map holds under `index`, inside the queue or not.
    pub closed spec fn slot(&self, index: BondIndex) -> Option<T> {
        if self.items@.contains_key(index) {
            Some(self.items@[index])
        } else {
            None
        }
    }

    /// The queue holds as many elements as there are indices between its
    /// cursors, and each of them lies in the map under its index.
    pub proof fn lemma_view(&self)
        requires
            self.wf(),
        ensures
            self@.len() == ring_len(self.cursors().0, self.cursors().1),
            self@.len() <= CAPACITY,
            forall|i: int|
                0 <= i < self@.len() ==> self.slot(#[trigger] ring_index(self.cursors().0, i))
                    == Some(self@[i]),
    {
    }

    /// An empty queue with both cursors at zero.
    pub fn new() -> (ring: Self)
        ensures
            ring.wf(),
            ring@ == Seq::<T>::empty(),
            ring.cursors() == (0u16, 0u16),
            ring.committed() == (0u16, 0u16),
            forall|index: BondIndex| ring.slot(index) is None,
    {
        let ring = RingBuffer { bounds: (0, 0), start: 0, end: 0, items: HashMap::new() };
        assert(ring@ =~= Seq::<T>::empty());
        ring
    }

    /// Whether the queue holds no element.
    pub fn is_empty(&self) -> (empty: bool)
        requires
            self.wf(),
        ensures
            empty == (self@.len() == 0),
    {
        self.start == self.end
    }

    /// The number of elements in the queue.
    pub fn len(&self) -> (n: usize)
        requires
            self.wf(),
        ensures
            n == self@.len(),
    {
        let n: u16 = if self.end >= self.start {
            self.end - self.start
        } else {
            u16::MAX - (self.start - self.end) + 1
        };
        n as usize
    }

    /// The committed cursors.
    pub fn bounds(&self) -> (r: (BondIndex, BondIndex))
        ensures
            r == self.committed(),
    {
        self.bounds
    }

    /// The element that the map holds under `index`, if any.
    pub fn get(&self, index: BondIndex) -> (r: Option<&T>)
        ensures
            match r {
                Some(item) => self.slot(index) == Some(*item),
                None => self.slot(index) is None,
            },
    {
        self.items.get(&index)
    }

    /// Push an item onto the end of the queue.
    ///
    /// A full queue loses its oldest element to make room.
    pub fn push(&mut self, item: T)
        requires
            old(self).wf(),
        ensures
            final(self).wf(),
            final(self)@ == if old(self)@.len() < CAPACITY {
                old(self)@.push(item)
            } else {
                old(self)@.skip(1).push(item)
            },
            final(self).cursors().1 == ring_next(old(self).cursors().1),
            final(self).cursors().0 == if old(self)@.len() < CAPACITY {
                old(self).cursors().0
            } else {
                ring_next(old(self).cursors().0)
            },
            final(self).committed() == old(self).committed(),
            forall|index: BondIndex|
                #[trigger] final(self).slot(index) == if index == old(self).cursors().1 {
                    Some(item)
                } else {
                    old(self).slot(index)
                },
    {
        let ghost before = *self;
        self.items.insert(self.end, item);
        let next: u16 = if self.end == u16::MAX { 0 } else { self.end + 1 };
        if next == self.start {
            self.start = if self.start == u16::MAX { 0 } else { self.start + 1 };
        }
        self.end = next;
        proof {
            let expected = if before@.len() < CAPACITY {
                before@.push(item)
            } else {
                before@.skip(1).push(item)
            };
            let shift: int = if before@.len() < CAPACITY { 0 } else { 1 };
            let n = before@.len() as int;
            lemma_ring_end(before.start, before.end);
            lemma_ring_offsets(before.start, n);
            lemma_ring_steps(before.start, n, 1);
            lemma_ring_steps(before.start, 1, n - shift);
            lemma_ring_offsets(before.start, 1);
            lemma_ring_offsets(self.start, n + 1 - shift);
            assert(self.start == ring_index(before.start, shift));
            assert(self.end == ring_index(self.start, n + 1 - shift));
            assert(self@.len() == n + 1 - shift);
            assert forall|i: int| 0 <= i < n + 1 - shift implies #[trigger] ring_index(
                self.start,
                i,
            ) == ring_index(before.start, i + shift) by {
                lemma_ring_steps(before.start, shift, i);
            }
            assert forall|i: int| 0 <= i < n + 1 - shift implies self.items@.contains_key(
                #[trigger] ring_index(self.start, i),
            ) && self@[i] == expected[i] by {
                assert(ring_index(self.start, i) == ring_index(before.start, i + shift));
            }
            assert(self@ =~= expected);
        }
    }

    /// Push an item in front of the queue.
    ///
    /// There is no room in front of a full queue: the cursors meet and the
    /// queue counts as empty afterwards.
    pub fn push_front(&mut self, item: T)
        requires
            old(self).wf(),
        ensures
            final(self).wf(),
            final(self)@ == if old(self)@.len() < CAPACITY {
                seq![item] + old(self)@
            } else {
                Seq::<T>::empty()
            },
            final(self).cursors().0 == ring_prev(old(self).cursors().0),
            final(self).cursors().1 == old(self).cursors().1,
            final(self).committed() == old(self).committed(),
            forall|index: BondIndex|
                #[trigger] final(self).slot(index) == if index == ring_prev(old(self).cursors().0) {
                    Some(item)
                } else {
                    old(self).slot(index)
                },
    {
        let ghost before = *self;
        let index: u16 = if self.start == 0 { u16::MAX } else { self.start - 1 };
        self.items.insert(index, item);
        self.start = index;
        proof {
            let expected = if before@.len() < CAPACITY {
                seq![item] + before@
            } else {
                Seq::<T>::empty()
            };
            assert(self@.len() == expected.len());
            assert forall|i: int| 0 <= i < expected.len() implies self@[i] == expected[i] by {
                if i > 0 {
                    assert(ring_index(self.start, i) == ring_index(before.start, i - 1));
                    assert(ring_index(before.start, i - 1) != index);
                }
            }
            assert(self@ =~= expected);
            assert forall|i: int| 0 <= i < ring_len(self.start, self.end) implies self.items@.contains_key(
                #[trigger] ring_index(self.start, i),
            ) by {
                if i > 0 {
                    assert(ring_index(self.start, i) == ring_index(before.start, i - 1));
                }
            }
        }
    }

    /// Pop the oldest item of the queue, if there is one.
    pub fn pop(&mut self) -> (r: Option<T>)
        requires
            old(self).wf(),
        ensures
            final(self).wf(),
            match r {
                Some(item) => {
                    &&& old(self)@.len() > 0
                    &&& item == old(self)@[0]
                    &&& final(self)@ == old(self)@.skip(1)
                    &&& final(self).cursors().0 == ring_next(old(self).cursors().0)
                },
                None => {
                    &&& old(self)@.len() == 0
                    &&& final(self)@ == old(self)@
                    &&& final(self).cursors().0 == old(self).cursors().0
                },
            },
            final(self).cursors().1 == old(self).cursors().1,
            final(self).committed() == old(self).committed(),
            forall|index: BondIndex|
                #[trigger] final(self).slot(index) == if old(self)@.len() > 0 && index == old(self).cursors().0 {
                    None
                } else {
                    old(self).slot(index)
                },
    {
        if self.start == self.end {
            return None;
        }
        let ghost before = *self;
        assert(ring_index(self.start, 0) == self.start);
        let item = self.items.remove(&self.start);
        self.start = if self.start == u16::MAX { 0 } else { self.start + 1 };
        proof {
            let expected = before@.skip(1);
            assert(self@.len() == expected.len());
            assert forall|i: int| 0 <= i < expected.len() implies self@[i] == expected[i] by {
                assert(ring_index(self.start, i) == ring_index(before.start, i + 1));
                assert(ring_index(before.start, i + 1) != before.start);
            }
            assert(self@ =~= expected);
            assert forall|i: int| 0 <= i < ring_len(self.start, self.end) implies self.items@.contains_key(
                #[trigger] ring_index(self.start, i),
            ) by {
                assert(ring_index(self.start, i) == ring_index(before.start, i + 1));
                assert(ring_index(before.start, i + 1) != before.start);
            }
        }
        item
    }

    /// Write the working cursors back as the committed bounds.
    pub fn commit(&mut self)
        requires
            old(self).wf(),
        ensures
            final(self).wf(),
            final(self)@ == old(self)@,
            final(self).cursors() == old(self).cursors(),
            final(self).committed() == old(self).cursors(),
            forall|index: BondIndex| #[trigger] final(self).slot(index) == old(self).slot(index),
    {
        self.bounds = (self.start, self.end);
    }
}

} // verus!
