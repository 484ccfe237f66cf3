//! Client storage: stable slots with a most-recently-used list threaded through
//! them as plain indices.

use vstd::prelude::*;

use crate::policy::ClientRecord;

verus! {

/// End-of-list sentinel for the recency links.
pub(crate) const NIL: u32 = 0xFFFF_FFFF;

/// One client's storage: its key, its record, and its place in the recency
/// list. Slots never move, which is what makes plain indices safe as links.
pub(crate) struct Slot<K> {
    pub(crate) key: K,
    pub(crate) record: ClientRecord,
    /// Toward the most-recently-used end.
    pub(crate) prev: u32,
    /// Toward the least-recently-used end.
    pub(crate) next: u32,
    /// Bumped every time this slot is handed to a new client, so a handle kept
    /// across an eviction is detected rather than silently addressing whoever
    /// took the slot over.
    pub(crate) generation: u32,
}

/// Client storage with the most-recently-used list threaded through it.
pub(crate) struct Recency<K> {
    pub(crate) slots: Vec<Slot<K>>,
    pub(crate) mru: u32,
    pub(crate) lru: u32,
    /// The slots on the list, most recent first.
    pub(crate) order: Ghost<Seq<u32>>,
}

/// Whether two slot vectors differ in their list links at most.
pub(crate) open(crate) spec fn same_data<K>(a: Seq<Slot<K>>, b: Seq<Slot<K>>) -> bool {
    &&& a.len() == b.len()
    &&& forall|s: int|
        0 <= s < a.len() ==> (#[trigger] a[s]).key == b[s].key && a[s].record == b[s].record
            && a[s].generation == b[s].generation
}

impl<K> Recency<K> {
    /// The link that leads from list position `p` to the position before it.
    pub(crate) open(crate) spec fn prev_at(self, p: int) -> u32 {
        if p == 0 {
            NIL
        } else {
            self.order@[p - 1]
        }
    }

    /// The link that leads from list position `p` to the position after it.
    pub(crate) open(crate) spec fn next_at(self, p: int) -> u32 {
        if p == self.order@.len() - 1 {
            NIL
        } else {
            self.order@[p + 1]
        }
    }

    /// Whether the links spell out `order`.
    pub(crate) open(crate) spec fn linked(self) -> bool {
        &&& self.slots@.len() < NIL
        &&& self.order@.no_duplicates()
        &&& self.mru == if self.order@.len() == 0 {
            NIL
        } else {
            self.order@[0]
        }
        &&& self.lru == if self.order@.len() == 0 {
            NIL
        } else {
            self.order@[self.order@.len() - 1]
        }
        &&& forall|p: int|
            0 <= p < self.order@.len() ==> (#[trigger] self.order@[p]) < self.slots@.len()
        &&& forall|p: int| #![trigger self.slots@[self.order@[p] as int]]
            0 <= p < self.order@.len() ==> {
                &&& self.slots@[self.order@[p] as int].prev == self.prev_at(p)
                &&& self.slots@[self.order@[p] as int].next == self.next_at(p)
            }
    }

    /// What the list holds, most recent first.
    pub(crate) open(crate) spec fn entries(self) -> Seq<(K, ClientRecord)> {
        Seq::new(
            self.order@.len(),
            |p: int|
                (
                    self.slots@[self.order@[p] as int].key,
                    self.slots@[self.order@[p] as int].record,
                ),
        )
    }

    /// Detach a slot from the recency list.
    pub(crate) fn unlink(&mut self, i: u32)
        requires
            old(self).linked(),
            old(self).order@.contains(i),
        ensures
            final(self).linked(),
            final(self).order@ == old(self).order@.remove(old(self).order@.index_of(i)),
            !final(self).order@.contains(i),
            same_data(final(self).slots@, old(self).slots@),
    {
        let ghost p = self.order@.index_of(i);
        let ghost start = self.order@;
        assert(0 <= p < start.len() && start[p] == i);
        let prev: u32 = self.slots[i as usize].prev;
        let next: u32 = self.slots[i as usize].next;
        assert(p > 0 ==> start[p - 1] < self.slots@.len());
        assert(p + 1 < start.len() ==> start[p + 1] < self.slots@.len());
        if prev == NIL {
            self.mru = next;
        } else {
            self.slots[prev as usize].next = next;
        }
        if next == NIL {
            self.lru = prev;
        } else {
            self.slots[next as usize].prev = prev;
        }
        self.order = Ghost(start.remove(p));
        proof {
            let order = self.order@;
            assert forall|q: int| 0 <= q < order.len() implies (#[trigger] order[q])
                < self.slots@.len() by {
                assert(order[q] == start[if q < p { q } else { q + 1 }]);
            }
            assert forall|q: int| #![trigger self.slots@[order[q] as int]] 0 <= q
                < order.len() implies {
                &&& self.slots@[order[q] as int].prev == self.prev_at(q)
                &&& self.slots@[order[q] as int].next == self.next_at(q)
            } by {
                let o = if q < p { q } else { q + 1 };
                assert(old(self).slots@[start[o] as int].prev == old(self).prev_at(o));
                assert(order[q] == start[o]);
                assert(start[o] < old(self).slots@.len());
                if q + 1 < order.len() {
                    assert(order[q + 1] == start[if q + 1 < p { q + 1 } else { q + 2 }]);
                }
                if q > 0 {
                    assert(order[q - 1] == start[if q - 1 < p { q - 1 } else { q }]);
                }
            }
        }
    }

    /// Put a detached slot at the most-recent end.
    pub(crate) fn link_front(&mut self, i: u32)
        requires
            old(self).linked(),
            i < old(self).slots@.len(),
            !old(self).order@.contains(i),
        ensures
            final(self).linked(),
            final(self).order@ == seq![i] + old(self).order@,
            same_data(final(self).slots@, old(self).slots@),
    {
        let ghost start = self.order@;
        let head: u32 = self.mru;
        self.slots[i as usize].prev = NIL;
        self.slots[i as usize].next = head;
        if head == NIL {
            self.lru = i;
        } else {
            assert(start[0] == head);
            self.slots[head as usize].prev = i;
        }
        self.mru = i;
        self.order = Ghost(seq![i] + start);
        proof {
            let order = self.order@;
            assert forall|q: int| 0 <= q < order.len() implies (#[trigger] order[q])
                < self.slots@.len() by {
                if q > 0 {
                    assert(order[q] == start[q - 1]);
                }
            }
            assert forall|q: int| #![trigger self.slots@[order[q] as int]] 0 <= q
                < order.len() implies {
                &&& self.slots@[order[q] as int].prev == self.prev_at(q)
                &&& self.slots@[order[q] as int].next == self.next_at(q)
            } by {
                if q > 0 {
                    assert(order[q] == start[q - 1]);
                    assert(start[q - 1] < old(self).slots@.len());
                    assert(start[q - 1] != i);
                    assert(old(self).slots@[start[q - 1] as int].prev == old(self).prev_at(q - 1));
                    if q + 1 < order.len() {
                        assert(order[q + 1] == start[q]);
                    }
                    if q > 1 {
                        assert(order[q - 1] == start[q - 2]);
                    }
                } else if order.len() > 1 {
                    assert(order[1] == start[0]);
                }
            }
        }
    }

    /// Move a client to the most-recent end of the eviction order.
    pub(crate) fn touch(&mut self, i: u32)
        requires
            old(self).linked(),
            old(self).order@.contains(i),
        ensures
            final(self).linked(),
            final(self).order@ == seq![i] + old(self).order@.remove(old(self).order@.index_of(i)),
            same_data(final(self).slots@, old(self).slots@),
    {
        if self.mru == i {
            proof {
                let p = self.order@.index_of(i);
                assert(self.order@[p] == i && self.order@[0] == i);
                assert(p == 0);
                assert(self.order@ =~= seq![i] + self.order@.remove(p));
            }
            return;
        }
        proof {
            let p = self.order@.index_of(i);
            assert(self.order@[p] < self.slots@.len());
        }
        self.unlink(i);
        self.link_front(i);
    }
}


/// Whether two slot vectors differ in their records at most.
pub(crate) open(crate) spec fn same_links<K>(a: Seq<Slot<K>>, b: Seq<Slot<K>>) -> bool {
    &&& a.len() == b.len()
    &&& forall|s: int|
        0 <= s < a.len() ==> (#[trigger] a[s]).key == b[s].key && a[s].prev == b[s].prev
            && a[s].next == b[s].next && a[s].generation == b[s].generation
}

} // verus!
