//! A min-heap with at most one entry per slot.
//!
//! The curve fitter and the polygon simplifier keep one candidate operation
//! per knot or edge, and replace it whenever a neighbour changes.  This is
//! the heap with stable handles together with the table that says which
//! handle, if any, belongs to a slot: a stale entry is taken out by its
//! handle before the fresh one goes in, so the heap never holds two entries
//! of one slot.

use vstd::prelude::*;
use crate::min_heap::{HeapData, HeapValue, MinHeap, NodeHandle};

verus! {

/// The heap and its table of handles.  Its view maps each slot that has
/// an entry to the key and payload of that entry.
pub struct KeyedHeap<TOrd: HeapValue, TData: HeapData> {
    heap: MinHeap<TOrd, (usize, TData)>,
    handles: Vec<NodeHandle>,
}

/// Whether `slot` has an entry of `m` whose key no entry of `m` comes before.
pub open spec fn is_min_slot<TOrd: HeapValue, TData: HeapData>(
    m: Map<usize, (TOrd, TData)>,
    slot: usize,
) -> bool {
    &&& m.dom().contains(slot)
    &&& forall|o: usize| #[trigger] m.dom().contains(o) ==> m[slot].0.rank() <= m[o].0.rank()
}

/// Whether every key of `m` comes before `limit`.
pub open spec fn keys_below<TOrd: HeapValue, TData: HeapData>(
    m: Map<usize, (TOrd, TData)>,
    limit: TOrd,
) -> bool {
    forall|o: usize| #[trigger] m.dom().contains(o) ==> m[o].0.rank() < limit.rank()
}

impl<TOrd: HeapValue, TData: HeapData> View for KeyedHeap<TOrd, TData> {
    type V = Map<usize, (TOrd, TData)>;

    closed spec fn view(&self) -> Map<usize, (TOrd, TData)> {
        Map::new(
            |slot: usize| slot < self.handles@.len() && self.handles@[slot as int] != NodeHandle::invalid(),
            |slot: usize|
                (self.heap@[self.handles@[slot as int]].0, self.heap@[self.handles@[slot as int]].1.1),
        )
    }
}

impl<TOrd: HeapValue, TData: HeapData> KeyedHeap<TOrd, TData> {
    /// The invariant: the table names exactly the entries of the heap, each
    /// under its own slot.
    pub closed spec fn wf(&self) -> bool {
        &&& self.heap.wf()
        &&& forall|slot: int|
            0 <= slot < self.handles@.len() && (#[trigger] self.handles@[slot])
                != NodeHandle::invalid() ==> self.heap@.dom().contains(self.handles@[slot])
                && self.heap@[self.handles@[slot]].1.0 == slot
        &&& forall|h: NodeHandle| #[trigger]
            self.heap@.dom().contains(h) ==> self.heap@[h].1.0 < self.handles@.len()
                && self.handles@[self.heap@[h].1.0 as int] == h
    }

    /// Number of slots.
    pub closed spec fn spec_slots(&self) -> nat {
        self.handles@.len()
    }

    /// An empty heap for `slots` slots.
    pub fn new(slots: usize) -> (r: Self)
        ensures
            r.wf(),
            r.spec_slots() == slots,
            r@ == Map::<usize, (TOrd, TData)>::empty(),
    {
        let heap = MinHeap::<TOrd, (usize, TData)>::with_capacity(slots);
        let mut handles: Vec<NodeHandle> = Vec::with_capacity(slots);
        let mut i: usize = 0;
        while i < slots
            invariant
                i <= slots,
                handles@.len() == i,
                forall|j: int| 0 <= j < i ==> (#[trigger] handles@[j]) == NodeHandle::invalid(),
            decreases slots - i,
        {
            handles.push(NodeHandle::invalid());
            i += 1;
        }
        let r = KeyedHeap { heap: heap, handles: handles };
        proof {
            assert(r@ =~= Map::<usize, (TOrd, TData)>::empty());
        }
        r
    }

    /// Whether the heap has no entry.
    pub fn is_empty(&self) -> (b: bool)
        requires
            self.wf(),
        ensures
            b == (self@ == Map::<usize, (TOrd, TData)>::empty()),
    {
        proof {
            self.lemma_empty();
        }
        self.heap.is_empty()
    }

    /// The heap has no entry exactly when no slot has one.
    proof fn lemma_empty(&self)
        requires
            self.wf(),
        ensures
            (self.heap.spec_len() == 0) == (self@ == Map::<usize, (TOrd, TData)>::empty()),
    {
        self.heap.lemma_len_zero();
        if self.heap.spec_len() == 0 {
            assert(self@ =~= Map::<usize, (TOrd, TData)>::empty());
        } else {
            self.heap.lemma_min_handle();
            let h = self.heap.min_handle();
            assert(self.heap@.dom().contains(h));
            let slot = self.heap@[h].1.0;
            self.heap.lemma_invalid_not_live();
            assert(self.handles@[slot as int] == h);
            assert(self@.dom().contains(slot));
        }
    }

    /// Whether `slot` has an entry.
    pub fn contains(&self, slot: usize) -> (b: bool)
        ensures
            b == self@.dom().contains(slot),
    {
        slot < self.handles.len() && !self.handles[slot].is_invalid()
    }

    /// Give `slot` the entry `(value, user_data)` in place of the one it
    /// has, if any.
    #[verifier::rlimit(50)]
    pub fn update(&mut self, slot: usize, value: TOrd, user_data: TData)
        requires
            old(self).wf(),
            slot < old(self).spec_slots(),
        ensures
            final(self).wf(),
            final(self).spec_slots() == old(self).spec_slots(),
            final(self)@ == old(self)@.insert(slot, (value, user_data)),
    {
        self.clear(slot);
        let ghost mid = *self;
        let h = self.heap.insert(value, (slot, user_data));
        self.handles[slot] = h;
        proof {
            assert forall|s: int|
                0 <= s < self.handles@.len() && (#[trigger] self.handles@[s])
                    != NodeHandle::invalid() implies self.heap@.dom().contains(self.handles@[s])
                && self.heap@[self.handles@[s]].1.0 == s by {
                if s != slot {
                    assert(mid.handles@[s] == self.handles@[s]);
                }
            }
            assert forall|g: NodeHandle| #[trigger] self.heap@.dom().contains(g) implies self.heap@[g].1.0
                < self.handles@.len() && self.handles@[self.heap@[g].1.0 as int] == g by {
                if g != h {
                    assert(mid.heap@.dom().contains(g));
                    assert(mid.heap@[g].1.0 != slot) by {
                        if mid.heap@[g].1.0 == slot {
                            assert(mid.handles@[slot as int] == g);
                            assert(!mid@.dom().contains(slot));
                            mid.heap.lemma_invalid_not_live();
                        }
                    }
                }
            }
            assert forall|s: usize| #[trigger] self@.dom().contains(s) == mid@.insert(
                slot,
                (value, user_data),
            ).dom().contains(s) by {}
            assert forall|s: usize| #[trigger] self@.dom().contains(s) implies self@[s] == mid@.insert(
                slot,
                (value, user_data),
            )[s] by {
                if s != slot {
                    assert(mid.handles@[s as int] == self.handles@[s as int]);
                    assert(mid.heap@.dom().contains(mid.handles@[s as int]));
                }
            }
            assert(self@ =~= mid@.insert(slot, (value, user_data)));
            assert(mid@.insert(slot, (value, user_data)) =~= old(self)@.insert(
                slot,
                (value, user_data),
            ));
        }
    }

    /// Take out the entry of `slot`, if it has one.
    #[verifier::rlimit(50)]
    pub fn clear(&mut self, slot: usize)
        requires
            old(self).wf(),
            slot < old(self).spec_slots(),
        ensures
            final(self).wf(),
            final(self).spec_slots() == old(self).spec_slots(),
            final(self)@ == old(self)@.remove(slot),
    {
        let h = self.handles[slot];
        if !h.is_invalid() {
            self.heap.remove(h);
            self.handles[slot] = NodeHandle::invalid();
            proof {
                let before = *old(self);
                assert forall|s: int|
                    0 <= s < self.handles@.len() && (#[trigger] self.handles@[s])
                        != NodeHandle::invalid() implies self.heap@.dom().contains(
                    self.handles@[s],
                ) && self.heap@[self.handles@[s]].1.0 == s by {
                    assert(before.handles@[s] == self.handles@[s]);
                    assert(before.heap@.dom().contains(before.handles@[s]));
                }
                assert forall|g: NodeHandle| #[trigger]
                    self.heap@.dom().contains(g) implies self.heap@[g].1.0 < self.handles@.len()
                    && self.handles@[self.heap@[g].1.0 as int] == g by {
                    assert(before.heap@.dom().contains(g));
                }
                assert forall|s: usize| #[trigger] self@.dom().contains(s) implies self@[s]
                    == before@.remove(slot)[s] by {
                    assert(before.handles@[s as int] == self.handles@[s as int]);
                }
                assert(self@ =~= before@.remove(slot));
            }
        } else {
            proof {
                assert(self@ =~= old(self)@.remove(slot));
            }
        }
    }

    /// Give `slot` the entry `(value, user_data)` if `value` comes before
    /// `limit`, and leave it without an entry otherwise.
    pub fn update_below(&mut self, slot: usize, value: TOrd, user_data: TData, limit: TOrd)
        requires
            old(self).wf(),
            slot < old(self).spec_slots(),
        ensures
            final(self).wf(),
            final(self).spec_slots() == old(self).spec_slots(),
            final(self)@ == (if value.rank() < limit.rank() {
                old(self)@.insert(slot, (value, user_data))
            } else {
                old(self)@.remove(slot)
            }),
            keys_below(old(self)@, limit) ==> keys_below(final(self)@, limit),
    {
        if value.less(&limit) {
            self.update(slot, value, user_data);
        } else {
            self.clear(slot);
        }
    }

    /// Take out an entry of least key and hand back its key, slot and
    /// payload; `None` when the heap is empty.
    #[verifier::rlimit(50)]
    pub fn pop_min(&mut self) -> (r: Option<(TOrd, usize, TData)>)
        requires
            old(self).wf(),
        ensures
            final(self).wf(),
            final(self).spec_slots() == old(self).spec_slots(),
            r is None <==> old(self)@ == Map::<usize, (TOrd, TData)>::empty(),
            r is None ==> final(self)@ == old(self)@,
            r matches Some((value, slot, user_data)) ==> {
                &&& is_min_slot(old(self)@, slot)
                &&& old(self)@[slot] == (value, user_data)
                &&& final(self)@ == old(self)@.remove(slot)
                &&& slot < old(self).spec_slots()
            },
    {
        proof {
            self.lemma_empty();
        }
        let ghost hmin = self.heap.min_handle();
        match self.heap.pop_min_with_value() {
            None => {
                proof {
                    self.heap.lemma_len_zero();
                    old(self).heap.lemma_len_zero();
                }
                None
            },
            Some((value, (slot, user_data))) => {
                proof {
                    old(self).heap.lemma_len_zero();
                    assert(old(self).heap@.dom().contains(hmin));
                    assert(old(self).handles@[slot as int] == hmin);
                    old(self).heap.lemma_invalid_not_live();
                }
                self.handles[slot] = NodeHandle::invalid();
                proof {
                    let before = *old(self);
                    assert forall|s: int|
                        0 <= s < self.handles@.len() && (#[trigger] self.handles@[s])
                            != NodeHandle::invalid() implies self.heap@.dom().contains(
                        self.handles@[s],
                    ) && self.heap@[self.handles@[s]].1.0 == s by {
                        assert(before.handles@[s] == self.handles@[s]);
                        assert(before.heap@.dom().contains(before.handles@[s]));
                    }
                    assert forall|g: NodeHandle| #[trigger]
                        self.heap@.dom().contains(g) implies self.heap@[g].1.0
                        < self.handles@.len() && self.handles@[self.heap@[g].1.0 as int] == g by {
                        assert(before.heap@.dom().contains(g));
                    }
                    assert forall|s: usize| #[trigger] self@.dom().contains(s) implies self@[s]
                        == before@.remove(slot)[s] by {
                        assert(before.handles@[s as int] == self.handles@[s as int]);
                    }
                    assert(self@ =~= before@.remove(slot));
                    assert(before@.dom().contains(slot));
                    assert forall|o: usize| #[trigger]
                        before@.dom().contains(o) implies before@[slot].0.rank()
                        <= before@[o].0.rank() by {
                        assert(before.heap@.dom().contains(before.handles@[o as int]));
                    }
                }
                Some((value, slot, user_data))
            },
        }
    }
}

/// What is popped from a heap whose keys all come before a limit has a key
/// that comes before the limit.
pub proof fn law_popped_below<TOrd: HeapValue, TData: HeapData>(
    m: Map<usize, (TOrd, TData)>,
    limit: TOrd,
    slot: usize,
)
    requires
        keys_below(m, limit),
        is_min_slot(m, slot),
    ensures
        m[slot].0.rank() < limit.rank(),
        keys_below(m.remove(slot), limit),
{
    assert forall|o: usize| #[trigger] m.remove(slot).dom().contains(o) implies m.remove(slot)[o].0.rank()
        < limit.rank() by {
        assert(m.dom().contains(o));
    }
}

} // verus!
