use vstd::prelude::*;

verus! {

/// A bounded first-in first-out queue in a fixed ring of slots. One slot always stays free, so a
/// ring of `n` slots holds at most `n - 1` items and a full ring is told apart from an empty one by
/// its two indices alone.
pub struct EventRing<T> {
    slots: Vec<Option<T>>,
    read_index: usize,
    write_index: usize,
}

/// The slot of a ring of `slot_count` slots that follows `index`.
pub open spec fn next_slot(index: int, slot_count: int) -> int {
    if index + 1 == slot_count {
        0
    } else {
        index + 1
    }
}

impl<T> EventRing<T> {
    /// The slot that holds the `k`th queued item.
    spec fn slot_of(self, k: int) -> int {
        if self.read_index + k < self.slots@.len() {
            self.read_index + k
        } else {
            self.read_index + k - self.slots@.len()
        }
    }

    spec fn count(self) -> int {
        if self.read_index <= self.write_index {
            self.write_index - self.read_index
        } else {
            self.write_index + self.slots@.len() - self.read_index
        }
    }

    /// The ring's indices lie inside it, and every slot between them holds an item.
    pub closed spec fn wf(self) -> bool {
        &&& self.slots@.len() >= 1
        &&& self.read_index < self.slots@.len()
        &&& self.write_index < self.slots@.len()
        &&& forall|k: int| 0 <= k < self.count() ==> (#[trigger] self.slots@[self.slot_of(k)]) is Some
    }

    /// The number of slots of the ring.
    pub closed spec fn slot_count(self) -> nat {
        self.slots@.len()
    }

    /// The queued items, oldest first.
    pub closed spec fn items(self) -> Seq<T> {
        Seq::new(self.count() as nat, |k: int| self.slots@[self.slot_of(k)].unwrap())
    }

}

impl<T: Copy> EventRing<T> {
    /// An empty ring of `slot_count` slots.
    pub fn new(slot_count: usize) -> (r: Self)
        requires
            slot_count >= 1,
        ensures
            r.wf(),
            r.items() == Seq::<T>::empty(),
            r.slot_count() == slot_count,
    {
        let mut slots: Vec<Option<T>> = Vec::new();
        while slots.len() < slot_count
            invariant
                slots@.len() <= slot_count,
            decreases slot_count - slots@.len(),
        {
            slots.push(None);
        }
        let r = EventRing { slots, read_index: 0, write_index: 0 };
        assert(r.items() =~= Seq::<T>::empty());
        r
    }

    /// The index after `index` in a ring of `slot_count` slots.
    fn next_index(index: usize, slot_count: usize) -> (r: usize)
        requires
            index < slot_count,
        ensures
            r == next_slot(index as int, slot_count as int),
    {
        proof {
            if index + 1 < slot_count {
                vstd::arithmetic::div_mod::lemma_small_mod((index + 1) as nat, slot_count as nat);
            } else {
                vstd::arithmetic::div_mod::lemma_mod_self_0(slot_count as int);
            }
        }
        (index + 1) % slot_count
    }

    /// Appends `item` unless the ring is full; `false` means it was not queued.
    pub fn try_push(&mut self, item: T) -> (pushed: bool)
        requires
            old(self).wf(),
        ensures
            final(self).wf(),
            final(self).slot_count() == old(self).slot_count(),
            pushed <==> old(self).items().len() + 1 < old(self).slot_count(),
            pushed ==> final(self).items() == old(self).items().push(item),
            !pushed ==> final(self).items() == old(self).items(),
    {
        let slot_count = self.slots.len();
        let write_index = self.write_index;
        let next_write_index = Self::next_index(write_index, slot_count);
        if next_write_index == self.read_index {
            return false;
        }
        let ghost before = self.items();
        self.slots.set(write_index, Some(item));
        self.write_index = next_write_index;
        proof {
            assert forall|k: int| 0 <= k < self.count() implies (#[trigger] self.slots@[self.slot_of(
                k,
            )]) is Some by {
                if k < old(self).count() {
                    assert(old(self).slots@[old(self).slot_of(k)] is Some);
                }
            }
            assert(self.items() =~= before.push(item));
        }
        true
    }

    /// Removes and returns the oldest item; `None` when the ring is empty.
    pub fn try_pop(&mut self) -> (r: Option<T>)
        requires
            old(self).wf(),
        ensures
            final(self).wf(),
            final(self).slot_count() == old(self).slot_count(),
            old(self).items().len() == 0 ==> r is None && final(self).items() == old(self).items(),
            old(self).items().len() > 0 ==> r == Some(old(self).items()[0]) && final(self).items()
                == old(self).items().drop_first(),
    {
        let read_index = self.read_index;
        if read_index == self.write_index {
            return None;
        }
        let ghost before = self.items();
        proof {
            assert(self.slots@[self.slot_of(0)] is Some);
        }
        let item = self.slots[read_index].unwrap();
        let next_read_index = Self::next_index(read_index, self.slots.len());
        self.read_index = next_read_index;
        proof {
            assert forall|k: int| 0 <= k < self.count() implies (#[trigger] self.slots@[self.slot_of(
                k,
            )]) is Some by {
                assert(old(self).slots@[old(self).slot_of(k + 1)] is Some);
            }
            assert(self.items() =~= before.drop_first());
        }
        Some(item)
    }

    pub fn is_empty(&self) -> (r: bool)
        requires
            self.wf(),
        ensures
            r == (self.items().len() == 0),
    {
        self.read_index == self.write_index
    }
}

} // verus!
