//! The server's client table: who has asked, in what order, and what each may
//! still take. All decisions, no I/O. The client key is generic: nothing here
//! knows what an address is.

use std::collections::hash_map::RandomState;
use std::collections::HashMap;
use std::hash::{BuildHasher, Hash};
use vstd::layout::size_of;
use vstd::prelude::*;
use vstd::std_specs::hash::{builds_valid_hashers, obeys_key_model};

use crate::ntp::NtpTimestamp;
use crate::policy::{
    balanced, bumped, distinct, known, lemma_config_bounds, place, record_of, refill, without, ClientRecord,
    Disposition, RateLimitConfig, Rates, ResponseMode, ServerStats, TableState, GLOBAL_COST,
};
use crate::recency::{same_links, Recency, Slot, NIL};

verus! {

/// A resolved position in the table.
///
/// One request touches the same client several times; a handle turns the
/// follow-ups into array indexing. It is deliberately not a raw index: the
/// generation makes a handle that outlived its client detectably stale.
#[derive(Clone, Copy, Debug, PartialEq, Eq, Structural)]
pub struct ClientHandle {
    slot: u32,
    generation: u32,
}

impl ClientHandle {
    /// The slot that this handle was issued for.
    pub closed spec fn place(self) -> nat {
        self.slot as nat
    }

    /// Which use of its slot this handle was issued for, as a number below 2^32.
    pub closed spec fn turn(self) -> nat {
        self.generation as nat
    }

    /// Whether this handle names no slot that a table can have.
    pub closed spec fn names_nothing(self) -> bool {
        self.slot == NIL
    }

    /// A handle that resolves to nothing: what a request rejected by the global
    /// limiter gets, having never reached a per-client record.
    pub fn invalid() -> (handle: ClientHandle)
        ensures
            handle.names_nothing(),
    {
        ClientHandle { slot: NIL, generation: 0 }
    }
}

/// Bounded most-recently-used client table.
///
/// The bound is the point: an unbounded map is a memory-exhaustion lever for
/// anyone willing to spoof source addresses. When full, the least recently
/// seen client is evicted, losing its interleaved state, which costs it one
/// exchange, not correctness.
///
/// Eviction takes the tail of a linked list; it never scans.
#[verifier::reject_recursive_types(K)]
#[verifier::reject_recursive_types(S)]
pub struct ClientTable<K, S = RandomState> {
    /// Key to slot: the only hashed structure.
    index: HashMap<K, u32, S>,
    list: Recency<K>,
    /// Global token bucket: level and the time it was last refilled.
    global_tokens: u128,
    global_last: Option<u64>,
    /// Global drops since the last global Kiss-o'-Death.
    global_drops_since_kod: u32,
    capacity: usize,
    config: RateLimitConfig,
    rates: Rates,
    pub stats: ServerStats,
}

impl<K, S> View for ClientTable<K, S> {
    type V = TableState<K>;

    closed spec fn view(&self) -> TableState<K> {
        TableState {
            clients: self.list.entries(),
            global_tokens: self.global_tokens as nat,
            global_last: self.global_last,
            global_drops: self.global_drops_since_kod as nat,
            capacity: self.capacity as nat,
            config: self.config,
            stats: self.stats,
        }
    }
}

impl<K, S> ClientTable<K, S> {
    /// The client that a handle stands for, if it is still in the table.
    pub closed spec fn client_of(&self, handle: ClientHandle) -> Option<K> {
        if handle.slot < self.list.slots@.len() && self.list.slots@[handle.slot as int].generation
            == handle.generation {
            Some(self.list.slots@[handle.slot as int].key)
        } else {
            None
        }
    }

    /// The use that each slot is in. A handle stands for somebody while its slot
    /// is in the use that it was issued for.
    pub closed spec fn turns(&self) -> Seq<nat> {
        Seq::new(self.list.slots@.len(), |s: int| self.list.slots@[s].generation as nat)
    }

    /// The handle of a slot in its current use.
    spec fn issued_for(&self, slot: u32) -> ClientHandle {
        ClientHandle { slot, generation: self.list.slots@[slot as int].generation }
    }

    /// How handles taken before a request fare after it: one whose client is
    /// still in the table keeps standing for that client, one whose client left
    /// stands for nobody, and of those that stood for nobody only the one just
    /// issued can come to stand for somebody.
    pub open spec fn handles_follow(&self, before: &Self, issued: ClientHandle) -> bool {
        forall|handle: ClientHandle|
            match before.client_of(handle) {
                Some(k) => #[trigger] self.client_of(handle) == if known(self@.clients, k) {
                    Some(k)
                } else {
                    None
                },
                None => self.client_of(handle) is None || handle == issued,
            }
    }

    /// Whether `slot` is the most recent one and holds `key`.
    spec fn heads(&self, slot: u32, key: K) -> bool {
        &&& self.list.order@.len() > 0
        &&& self.list.order@[0] == slot
        &&& self.list.slots@[slot as int].key == key
    }

    /// Index and storage agree on who is where.
    spec fn indexed(&self) -> bool {
        &&& forall|s: int|
            0 <= s < self.list.slots@.len() ==> self.index@.contains_key(
                (#[trigger] self.list.slots@[s]).key,
            ) && self.index@[self.list.slots@[s].key] == s
        &&& forall|k: K| #[trigger]
            self.index@.contains_key(k) ==> self.index@[k] < self.list.slots@.len()
                && self.list.slots@[self.index@[k] as int].key == k
    }

    /// The table's invariant.
    pub closed spec fn wf(&self) -> bool {
        &&& obeys_key_model::<K>()
        &&& builds_valid_hashers::<S>()
        &&& self.list.linked()
        &&& self.list.order@.len() == self.list.slots@.len()
        &&& forall|s: u32| s < self.list.slots@.len() ==> #[trigger] self.list.order@.contains(s)
        &&& self.indexed()
        &&& 1 <= self.capacity < NIL
        &&& self.list.slots@.len() <= self.capacity
        &&& self.rates.of(self.config)
        &&& self.global_tokens <= self.config.global_cap()
        &&& self.global_drops_since_kod < self.config.period()
        &&& balanced(self.stats)
        &&& forall|s: int|
            0 <= s < self.list.slots@.len() ==> (#[trigger] self.list.slots@[s]).record.fits(
                self.config,
            )
    }
}


/// The use of a slot after `turn`: they are told apart over 2^32 uses.
pub open spec fn next_turn(turn: nat) -> nat {
    (turn + 1) % 0x1_0000_0000
}

/// How the uses of the slots go on when the client in `place` is seen: one that
/// was `known` keeps its slot, a new one takes a slot over from a client that was
/// evicted, or else a slot of its own.
pub open spec fn turned(
    before: Seq<nat>,
    after: Seq<nat>,
    place: nat,
    known: bool,
    evicts: bool,
) -> bool {
    if known {
        after == before
    } else if evicts {
        place < before.len() && after == before.update(
            place as int,
            next_turn(before[place as int]),
        )
    } else {
        place == before.len() && after == before.push(0)
    }
}

/// Whether `handle` is what a request from `key` is issued: it stands for `key`,
/// for the use of its slot that the request began or found, and no other handle
/// came to stand for anybody. A request that the global limit turns away gets a
/// handle that stands for nobody.
pub open spec fn issued_to<K, S>(
    before: ClientTable<K, S>,
    after: ClientTable<K, S>,
    key: K,
    now: u64,
    handle: ClientHandle,
) -> bool {
    &&& after.handles_follow(&before, handle)
    &&& if before@.refused_globally(now) {
        after.client_of(handle) is None && after.turns() == before.turns()
    } else {
        &&& after.client_of(handle) == Some(key)
        &&& turned(
            before.turns(),
            after.turns(),
            handle.place(),
            known(before@.clients, key),
            before@.evicts(key),
        )
        &&& handle.place() < after.turns().len()
        &&& handle.turn() == after.turns()[handle.place() as int]
    }
}

impl<K: Eq + Hash + Copy, S: BuildHasher> ClientTable<K, S> {
    proof fn lemma_place(&self, key: K)
        requires
            self.wf(),
        ensures
            self.index@.contains_key(key) <==> known(self@.clients, key),
            known(self@.clients, key) ==> {
                let p = place(self@.clients, key);
                &&& 0 <= p < self@.clients.len()
                &&& self@.clients[p].0 == key
                &&& self.list.order@[p] == self.index@[key]
                &&& self.list.order@.contains(self.index@[key])
                &&& self.list.order@.index_of(self.index@[key]) == p
            },
    {
        let clients = self@.clients;
        let order = self.list.order@;
        if self.index@.contains_key(key) {
            let s = self.index@[key];
            assert(order.contains(s));
            let p = order.index_of(s);
            assert(clients[p].0 == key);
        }
        if known(clients, key) {
            let p = place(clients, key);
            assert(clients[p].0 == key);
            assert(self.list.slots@[order[p] as int].key == key);
            assert(order.index_of(order[p]) == p);
        }
    }

    /// Every client in the table stands there once, never more of them than the
    /// capacity; no bucket holds more than a full one; only a client that can
    /// interleave is marked as doing so; and the counters add up.
    pub proof fn table_is_bounded(&self)
        requires
            self.wf(),
        ensures
            self@.clients.len() <= self@.capacity,
            1 <= self@.capacity,
            distinct(self@.clients),
            forall|i: int|
                0 <= i < self@.clients.len() ==> (#[trigger] self@.clients[i]).1.fits(self@.config),
            self@.global_tokens <= self@.config.global_cap(),
            self@.global_drops < self@.config.period(),
            balanced(self@.stats),
    {
        let order = self.list.order@;
        assert forall|i: int, j: int|
            0 <= i < self@.clients.len() && 0 <= j < self@.clients.len() && (
            #[trigger] self@.clients[i]).0 == (#[trigger] self@.clients[j]).0 implies i == j by {
            assert(self.index@[self.list.slots@[order[i] as int].key] == order[i]);
            assert(self.index@[self.list.slots@[order[j] as int].key] == order[j]);
        }
        assert forall|i: int| 0 <= i < self@.clients.len() implies (
        #[trigger] self@.clients[i]).1.fits(self@.config) by {
            assert(order[i] < self.list.slots@.len());
        }
    }

    /// Take a new slot for a client that is not in the table.
    fn alloc_slot(&mut self, key: K, record: ClientRecord) -> (slot: u32)
        requires
            old(self).wf(),
            !known(old(self)@.clients, key),
            old(self)@.clients.len() < old(self)@.capacity,
            record.fits(old(self)@.config),
        ensures
            final(self).wf(),
            final(self)@ == (TableState {
                clients: seq![(key, record)] + old(self)@.clients,
                ..old(self)@
            }),
            final(self).heads(slot, key),
            final(self).handles_follow(old(self), final(self).issued_for(slot)),
            slot == old(self).turns().len(),
            final(self).turns() == old(self).turns().push(0),
    {
        let ghost before = *self;
        let i: u32 = self.list.slots.len() as u32;
        proof {
            self.lemma_place(key);
        }
        self.list.slots.push(Slot { key, record, prev: NIL, next: NIL, generation: 0 });
        self.index.insert(key, i);
        assert(!self.list.order@.contains(i)) by {
            if self.list.order@.contains(i) {
                let p = self.list.order@.index_of(i);
                assert(before.list.order@[p] < before.list.slots@.len());
            }
        }
        assert(self.list.linked()) by {
            assert forall|p: int| #![trigger self.list.slots@[self.list.order@[p] as int]] 0 <= p
                < self.list.order@.len() implies {
                &&& self.list.slots@[self.list.order@[p] as int].prev == self.list.prev_at(p)
                &&& self.list.slots@[self.list.order@[p] as int].next == self.list.next_at(p)
            } by {
                assert(before.list.order@[p] < before.list.slots@.len());
                assert(self.list.slots@[self.list.order@[p] as int]
                    == before.list.slots@[before.list.order@[p] as int]);
            }
        }
        self.list.link_front(i);
        proof {
            assert(self.list.order@[0] == i);
            assert forall|s: u32| s < self.list.slots@.len() implies #[trigger]
                self.list.order@.contains(s) by {
                if s != i {
                    assert(before.list.order@.contains(s));
                    assert(self.list.order@[before.list.order@.index_of(s) + 1] == s);
                }
            }
            assert forall|s: int| 0 <= s < self.list.slots@.len() implies self.index@.contains_key(
                (#[trigger] self.list.slots@[s]).key,
            ) && self.index@[self.list.slots@[s].key] == s by {
                if s != i {
                    assert(self.list.slots@[s].key == before.list.slots@[s].key);
                }
            }
            assert forall|s: int| 0 <= s < self.list.slots@.len() implies (
            #[trigger] self.list.slots@[s]).record.fits(self.config) by {
                if s != i {
                    assert(self.list.slots@[s].record == before.list.slots@[s].record);
                }
            }
            assert(self@.clients =~= seq![(key, record)] + before@.clients) by {
                assert forall|p: int| 0 <= p < before@.clients.len() implies self@.clients[p + 1]
                    == before@.clients[p] by {
                    assert(self.list.order@[p + 1] == before.list.order@[p]);
                    assert(before.list.order@[p] < before.list.slots@.len());
                }
            }
            assert(self.turns() =~= before.turns().push(0)) by {
                assert forall|s: int| 0 <= s < before.turns().len() implies self.turns()[s]
                    == before.turns()[s] by {
                    assert(self.list.slots@[s].generation == before.list.slots@[s].generation);
                }
                assert(self.list.slots@[i as int].generation == 0);
            }
            let issued = self.issued_for(i);
            assert(self.handles_follow(&before, issued)) by {
                assert forall|handle: ClientHandle|
                    match before.client_of(handle) {
                        Some(k) => #[trigger] self.client_of(handle) == if known(
                            self@.clients,
                            k,
                        ) {
                            Some(k)
                        } else {
                            None
                        },
                        None => self.client_of(handle) is None || handle == issued,
                    } by {
                    if let Some(k) = before.client_of(handle) {
                        let s = handle.slot as int;
                        assert(self.list.slots@[s].key == before.list.slots@[s].key);
                        assert(self.index@.contains_key(k));
                        self.lemma_place(k);
                    }
                }
            }
        }
        i
    }

    /// Drop the least recently seen client and hand its slot to a new one: it is
    /// the tail of the list, so nothing is scanned.
    fn evict_one(&mut self, key: K, record: ClientRecord) -> (slot: u32)
        requires
            old(self).wf(),
            !known(old(self)@.clients, key),
            old(self)@.clients.len() > 0,
            record.fits(old(self)@.config),
        ensures
            final(self).wf(),
            final(self)@ == (TableState {
                clients: seq![(key, record)] + old(self)@.clients.drop_last(),
                stats: ServerStats { evicted: bumped(old(self)@.stats.evicted), ..old(self)@.stats },
                ..old(self)@
            }),
            final(self).heads(slot, key),
            final(self).handles_follow(old(self), final(self).issued_for(slot)),
            slot < old(self).turns().len(),
            final(self).turns() == old(self).turns().update(
                slot as int,
                next_turn(old(self).turns()[slot as int]),
            ),
    {
        let ghost before = *self;
        let ghost start = self.list.order@;
        let ghost last = start.len() - 1;
        let i: u32 = self.list.lru;
        proof {
            self.lemma_place(key);
            assert(start[last] == i);
            assert(start.index_of(i) == last);
            assert(i < self.list.slots@.len());
        }
        self.list.unlink(i);
        let ghost middle = self.list.order@;
        let gone: K = self.list.slots[i as usize].key;
        let generation: u32 = self.list.slots[i as usize].generation.wrapping_add(1);
        self.index.remove(&gone);
        let ghost unlinked = self.list;
        self.list.slots.set(i as usize, Slot { key, record, prev: NIL, next: NIL, generation });
        self.index.insert(key, i);
        assert(self.list.linked()) by {
            assert(self.list.order@ == unlinked.order@);
            assert forall|p: int| 0 <= p < middle.len() implies (#[trigger] middle[p])
                < self.list.slots@.len() by {
                assert(middle[p] == start[p]);
            }
            assert forall|p: int| #![trigger self.list.slots@[self.list.order@[p] as int]] 0 <= p
                < self.list.order@.len() implies {
                &&& self.list.slots@[self.list.order@[p] as int].prev == self.list.prev_at(p)
                &&& self.list.slots@[self.list.order@[p] as int].next == self.list.next_at(p)
            } by {
                assert(unlinked.order@[p] != i);
                assert(self.list.slots@[self.list.order@[p] as int]
                    == unlinked.slots@[unlinked.order@[p] as int]);
            }
        }
        self.list.link_front(i);
        self.stats.evicted = self.stats.evicted.saturating_add(1);
        proof {
            let order = self.list.order@;
            assert(order[0] == i);
            assert forall|s: u32| s < self.list.slots@.len() implies #[trigger] order.contains(
                s,
            ) by {
                if s != i {
                    assert(start.contains(s));
                    let p = start.index_of(s);
                    assert(p < last);
                    assert(order[p + 1] == middle[p]);
                    assert(middle[p] == start[p]);
                }
            }
            assert forall|s: int| 0 <= s < self.list.slots@.len() implies self.index@.contains_key(
                (#[trigger] self.list.slots@[s]).key,
            ) && self.index@[self.list.slots@[s].key] == s by {
                if s != i {
                    assert(self.list.slots@[s].key == before.list.slots@[s].key);
                    assert(before.list.slots@[s].key != gone);
                    assert(before.list.slots@[s].key != key);
                }
            }
            assert forall|k: K| #[trigger] self.index@.contains_key(k) implies self.index@[k]
                < self.list.slots@.len() && self.list.slots@[self.index@[k] as int].key == k by {
                if k != key {
                    assert(before.index@.contains_key(k));
                    assert(before.index@[k] != i);
                    let s = before.index@[k] as int;
                    assert(self.list.slots@[s].key == before.list.slots@[s].key);
                }
            }
            assert forall|s: int| 0 <= s < self.list.slots@.len() implies (
            #[trigger] self.list.slots@[s]).record.fits(self.config) by {
                if s != i {
                    assert(self.list.slots@[s].record == before.list.slots@[s].record);
                }
            }
            assert(self@.clients =~= seq![(key, record)] + before@.clients.drop_last()) by {
                assert forall|p: int| 0 <= p < last implies self@.clients[p + 1]
                    == before@.clients[p] by {
                    assert(order[p + 1] == middle[p]);
                    assert(middle[p] == start[p]);
                    assert(start[p] != start[last]);
                }
            }
            assert(self.turns() =~= before.turns().update(
                i as int,
                next_turn(before.turns()[i as int]),
            )) by {
                assert forall|s: int| 0 <= s < before.turns().len() && s != i implies self.turns()[s]
                    == before.turns()[s] by {
                    assert(self.list.slots@[s].generation == before.list.slots@[s].generation);
                }
                assert(self.list.slots@[i as int].generation == generation);
            }
            let issued = self.issued_for(i);
            assert(self.handles_follow(&before, issued)) by {
                assert forall|handle: ClientHandle|
                    match before.client_of(handle) {
                        Some(k) => #[trigger] self.client_of(handle) == if known(
                            self@.clients,
                            k,
                        ) {
                            Some(k)
                        } else {
                            None
                        },
                        None => self.client_of(handle) is None || handle == issued,
                    } by {
                    let s = handle.slot as int;
                    if let Some(k) = before.client_of(handle) {
                        if s == i {
                            assert(k == gone);
                            assert(!self.index@.contains_key(k));
                        } else {
                            assert(self.list.slots@[s].key == before.list.slots@[s].key);
                            assert(self.index@.contains_key(k));
                        }
                        self.lemma_place(k);
                    } else if s < self.list.slots@.len() && s != i {
                        assert(self.list.slots@[s].generation == before.list.slots@[s].generation);
                    }
                }
            }
        }
        i
    }

    /// Move a client that is in the table to the most-recent end.
    fn bring_front(&mut self, slot: u32, Ghost(key): Ghost<K>)
        requires
            old(self).wf(),
            known(old(self)@.clients, key),
            old(self).index@[key] == slot,
        ensures
            final(self).wf(),
            final(self)@ == (TableState {
                clients: seq![(key, record_of(old(self)@.clients, key))] + without(
                    old(self)@.clients,
                    key,
                ),
                ..old(self)@
            }),
            final(self).heads(slot, key),
            final(self).handles_follow(old(self), final(self).issued_for(slot)),
            final(self).turns() == old(self).turns(),
    {
        let ghost before = *self;
        let ghost start = self.list.order@;
        let ghost p0 = place(self@.clients, key);
        proof {
            self.lemma_place(key);
        }
        self.list.touch(slot);
        proof {
            let order = self.list.order@;
            assert(order[0] == slot);
            assert forall|s: u32| s < self.list.slots@.len() implies #[trigger] order.contains(
                s,
            ) by {
                if s != slot {
                    assert(start.contains(s));
                    let p = start.index_of(s);
                    assert(order[if p < p0 { p + 1 } else { p }] == s);
                }
            }
            assert forall|s: int| 0 <= s < self.list.slots@.len() implies self.index@.contains_key(
                (#[trigger] self.list.slots@[s]).key,
            ) && self.index@[self.list.slots@[s].key] == s by {
                assert(self.list.slots@[s].key == before.list.slots@[s].key);
            }
            assert forall|s: int| 0 <= s < self.list.slots@.len() implies (
            #[trigger] self.list.slots@[s]).record.fits(self.config) by {
                assert(self.list.slots@[s].record == before.list.slots@[s].record);
            }
            let target = seq![(key, record_of(before@.clients, key))] + without(
                before@.clients,
                key,
            );
            assert(self@.clients =~= target) by {
                assert forall|q: int| 0 <= q < target.len() implies self@.clients[q]
                    == target[q] by {
                    let o = if q == 0 { p0 } else if q - 1 < p0 { q - 1 } else { q };
                    assert(order[q] == start[o]);
                    assert(start[o] < before.list.slots@.len());
                    assert(target[q] == before@.clients[o]);
                }
            }
            assert(self.turns() =~= before.turns()) by {
                assert forall|s: int| 0 <= s < before.turns().len() implies self.turns()[s]
                    == before.turns()[s] by {
                    assert(self.list.slots@[s].generation == before.list.slots@[s].generation);
                }
            }
            let issued = self.issued_for(slot);
            assert(self.handles_follow(&before, issued)) by {
                assert forall|handle: ClientHandle|
                    match before.client_of(handle) {
                        Some(k) => #[trigger] self.client_of(handle) == if known(
                            self@.clients,
                            k,
                        ) {
                            Some(k)
                        } else {
                            None
                        },
                        None => self.client_of(handle) is None || handle == issued,
                    } by {
                    let s = handle.slot as int;
                    if s < self.list.slots@.len() {
                        assert(self.list.slots@[s].key == before.list.slots@[s].key);
                        assert(self.index@.contains_key(self.list.slots@[s].key));
                        self.lemma_place(self.list.slots@[s].key);
                    }
                }
            }
        }
    }

    /// Replace the record in one slot.
    fn set_record(&mut self, slot: u32, record: ClientRecord, Ghost(key): Ghost<K>)
        requires
            old(self).wf(),
            slot < old(self).list.slots@.len(),
            old(self).list.slots@[slot as int].key == key,
            record.fits(old(self)@.config),
        ensures
            final(self).wf(),
            known(old(self)@.clients, key),
            final(self)@ == old(self)@.with_record(key, record),
            final(self).turns() == old(self).turns(),
            forall|h: ClientHandle| #[trigger] final(self).client_of(h) == old(self).client_of(h),
    {
        let ghost before = *self;
        proof {
            assert(self.index@.contains_key(key));
            self.lemma_place(key);
        }
        self.list.slots[slot as usize].record = record;
        proof {
            assert(same_links(self.list.slots@, before.list.slots@));
            assert(self.turns() =~= before.turns());
            assert(self.list.linked()) by {
                assert forall|p: int| #![trigger self.list.slots@[self.list.order@[p] as int]] 0
                    <= p < self.list.order@.len() implies {
                    &&& self.list.slots@[self.list.order@[p] as int].prev == self.list.prev_at(p)
                    &&& self.list.slots@[self.list.order@[p] as int].next == self.list.next_at(p)
                } by {
                    assert(before.list.slots@[before.list.order@[p] as int].prev
                        == before.list.prev_at(p));
                }
            }
            assert forall|s: int| 0 <= s < self.list.slots@.len() implies self.index@.contains_key(
                (#[trigger] self.list.slots@[s]).key,
            ) && self.index@[self.list.slots@[s].key] == s by {
                assert(self.list.slots@[s].key == before.list.slots@[s].key);
            }
            assert(self@.clients =~= before@.with_record(key, record).clients) by {
                assert forall|p: int| 0 <= p < self@.clients.len() implies self@.clients[p]
                    == before@.with_record(key, record).clients[p] by {
                    assert(self.list.order@[p] < self.list.slots@.len());
                }
            }
        }
    }
}

impl<K: Eq + Hash + Copy> ClientTable<K, RandomState> {
    /// An empty table for at most `capacity` clients (at least one).
    pub fn new(capacity: usize, config: RateLimitConfig) -> (table: Self)
        requires
            capacity < 0xFFFF_FFFF,
            obeys_key_model::<K>(),
        ensures
            table.wf(),
            table@ == TableState::<K>::empty(capacity as nat, config),
            table.turns() == Seq::<nat>::empty(),
    {
        Self::with_hasher(capacity, config)
    }
}

impl<K: Eq + Hash + Copy, S: BuildHasher + Default> ClientTable<K, S> {
    /// [`ClientTable::new`] with a hasher of the caller's choice.
    pub fn with_hasher(capacity: usize, config: RateLimitConfig) -> (table: Self)
        requires
            capacity < 0xFFFF_FFFF,
            obeys_key_model::<K>(),
            builds_valid_hashers::<S>(),
        ensures
            table.wf(),
            table@ == TableState::<K>::empty(capacity as nat, config),
            table.turns() == Seq::<nat>::empty(),
    {
        let rates: Rates = Rates::new(&config);
        proof {
            lemma_config_bounds(config);
        }
        let table = ClientTable {
            index: HashMap::default(),
            list: Recency { slots: Vec::new(), mru: NIL, lru: NIL, order: Ghost(Seq::empty()) },
            global_tokens: rates.global_cap,
            global_last: None,
            global_drops_since_kod: 0,
            capacity: if capacity == 0 { 1 } else { capacity },
            config,
            rates,
            stats: ServerStats::default(),
        };
        assert(table@.clients =~= Seq::empty());
        assert(table.turns() =~= Seq::empty());
        table
    }
}

impl<K: Eq + Hash + Copy, S: BuildHasher> ClientTable<K, S> {
    /// What one client takes up: its slot, the index's own copy of its key, the
    /// slot number that the key leads to, and the index's control byte.
    pub closed spec fn footprint() -> nat {
        size_of::<Slot<K>>() + size_of::<K>() + size_of::<u32>() + 1
    }

    /// The bytes that one client takes up, as far as a machine number goes.
    pub fn bytes_per_client() -> (bytes: usize)
        ensures
            bytes == if Self::footprint() <= usize::MAX {
                Self::footprint() as int
            } else {
                usize::MAX as int
            },
    {
        core::mem::size_of::<Slot<K>>().saturating_add(core::mem::size_of::<K>()).saturating_add(
            core::mem::size_of::<u32>(),
        ).saturating_add(1)
    }

    pub fn len(&self) -> (len: usize)
        requires
            self.wf(),
        ensures
            len == self@.clients.len(),
    {
        self.list.slots.len()
    }

    /// The aggregate counters as they stand.
    pub fn counters(&self) -> (stats: ServerStats)
        ensures
            stats == self@.stats,
    {
        self.stats
    }

    pub fn is_empty(&self) -> (empty: bool)
        requires
            self.wf(),
        ensures
            empty == (self@.clients.len() == 0),
    {
        self.list.slots.len() == 0
    }

    pub fn get(&self, key: &K) -> (record: Option<&ClientRecord>)
        requires
            self.wf(),
        ensures
            match record {
                Some(r) => known(self@.clients, *key) && *r == record_of(self@.clients, *key),
                None => !known(self@.clients, *key),
            },
    {
        proof {
            self.lemma_place(*key);
        }
        match self.index.get(key) {
            Some(i) => {
                let i: u32 = *i;
                Some(&self.list.slots[i as usize].record)
            },
            None => None,
        }
    }

    /// The MRU report: most recently seen first, at most `limit` entries. It
    /// walks the recency list, which is already in this order.
    pub fn most_recent(&self, limit: usize) -> (report: Vec<(K, ClientRecord)>)
        requires
            self.wf(),
        ensures
            report@ == self@.clients.take(
                if limit < self@.clients.len() {
                    limit as int
                } else {
                    self@.clients.len() as int
                },
            ),
    {
        let mut out: Vec<(K, ClientRecord)> = Vec::new();
        let mut at: u32 = self.list.mru;
        while at != NIL && out.len() < limit
            invariant
                self.wf(),
                out@.len() <= limit,
                out@.len() <= self@.clients.len(),
                out@ == self@.clients.take(out@.len() as int),
                at == if out@.len() == self.list.order@.len() {
                    NIL
                } else {
                    self.list.order@[out@.len() as int]
                },
            decreases self@.clients.len() - out@.len(),
        {
            let ghost p = out@.len() as int;
            assert(p < self.list.order@.len());
            assert(self.list.order@[p] < self.list.slots@.len());
            let slot: &Slot<K> = &self.list.slots[at as usize];
            out.push((slot.key, slot.record));
            at = slot.next;
            proof {
                assert(self@.clients[p] == (slot.key, slot.record));
                assert(out@ =~= self@.clients.take(p + 1));
                assert(self.list.slots@[self.list.order@[p] as int].next == self.list.next_at(p));
            }
        }
        assert(at == NIL ==> out@.len() == self.list.order@.len()) by {
            if out@.len() < self.list.order@.len() {
                assert(self.list.order@[out@.len() as int] < self.list.slots@.len());
            }
        }
        out
    }

    /// Turn a handle back into a slot, or `None` if it has gone stale.
    fn resolve(&self, handle: ClientHandle) -> (slot: Option<u32>)
        requires
            self.wf(),
        ensures
            match slot {
                Some(i) => i < self.list.slots@.len() && self.client_of(handle) == Some(
                    self.list.slots@[i as int].key,
                ),
                None => self.client_of(handle) is None,
            },
    {
        let i: u32 = handle.slot;
        if (i as usize) < self.list.slots.len() && self.list.slots[i as usize].generation
            == handle.generation {
            Some(i)
        } else {
            None
        }
    }

    fn handle_for(&self, slot: u32) -> (handle: ClientHandle)
        requires
            slot < self.list.slots@.len(),
        ensures
            self.client_of(handle) == Some(self.list.slots@[slot as int].key),
            handle == self.issued_for(slot),
    {
        ClientHandle { slot, generation: self.list.slots[slot as usize].generation }
    }

    /// The slot of the client a request comes from, brought to the front of the
    /// recency order; a client not seen before gets one, evicting the least
    /// recently seen client where the table is full.
    fn slot_for(&mut self, key: &K, now: u64) -> (slot: u32)
        requires
            old(self).wf(),
        ensures
            final(self).wf(),
            final(self).heads(slot, *key),
            final(self).handles_follow(old(self), final(self).issued_for(slot)),
            turned(
                old(self).turns(),
                final(self).turns(),
                slot as nat,
                known(old(self)@.clients, *key),
                old(self)@.evicts(*key),
            ),
            final(self)@ == (TableState {
                clients: seq![(*key, old(self)@.charged_record(*key, now))] + if old(self)@.evicts(
                    *key,
                ) {
                    without(old(self)@.clients, *key).drop_last()
                } else {
                    without(old(self)@.clients, *key)
                },
                stats: if old(self)@.evicts(*key) {
                    ServerStats { evicted: bumped(old(self)@.stats.evicted), ..old(self)@.stats }
                } else {
                    old(self)@.stats
                },
                ..old(self)@
            }),
    {
        proof {
            self.lemma_place(*key);
        }
        match self.index.get(key) {
            Some(i) => {
                let i: u32 = *i;
                self.bring_front(i, Ghost(*key));
                i
            },
            None => {
                let record: ClientRecord = ClientRecord::fresh(now, &self.rates, Ghost(self.config));
                if self.list.slots.len() >= self.capacity {
                    self.evict_one(*key, record)
                } else {
                    self.alloc_slot(*key, record)
                }
            },
        }
    }

    /// Admit one request: refill the client's bucket, decide its fate, and
    /// record it. `now` is monotonic nanoseconds.
    pub fn admit_request(&mut self, key: &K, now: u64) -> (disposition: Disposition)
        requires
            old(self).wf(),
        ensures
            final(self).wf(),
            final(self)@ == old(self)@.admitted(*key, now),
            disposition == old(self)@.disposition(*key, now),
            exists|handle: ClientHandle| #[trigger]
                issued_to(*old(self), *final(self), *key, now, handle),
    {
        let (disposition, handle): (Disposition, ClientHandle) = self.admit_handle(key, now);
        assert(issued_to(*old(self), *self, *key, now, handle));
        disposition
    }

    /// `admit_request`, also returning the handle that addresses this client, so the
    /// rest of the request never has to hash the key again.
    ///
    /// The global ceiling is checked before the per-client bucket, so that a
    /// churned-address flood, which defeats per-client limiting by never
    /// reusing an address, still cannot make us answer without bound. A global
    /// token is spent only when a response is actually produced.
    pub fn admit_handle(&mut self, key: &K, now: u64) -> (r: (Disposition, ClientHandle))
        requires
            old(self).wf(),
        ensures
            final(self).wf(),
            final(self)@ == old(self)@.admitted(*key, now),
            r.0 == old(self)@.disposition(*key, now),
            issued_to(*old(self), *final(self), *key, now, r.1),
    {
        let ghost before = *self;
        let ghost config = self.config;
        proof {
            lemma_config_bounds(config);
        }
        let limited: bool = self.config.global_rate_nhz > 0;
        if limited {
            let elapsed: u64 = match self.global_last {
                None => 0,
                Some(last) => now.saturating_sub(last),
            };
            self.global_tokens = refill(
                self.global_tokens,
                elapsed,
                self.config.global_rate_nhz,
                self.rates.global_cap,
            );
            self.global_last = Some(now);
            if self.global_tokens < GLOBAL_COST {
                self.stats.requests = self.stats.requests.saturating_add(1);
                self.stats.dropped_rate_limit = self.stats.dropped_rate_limit.saturating_add(1);
                let handle: ClientHandle = ClientHandle::invalid();
                if self.global_drops_since_kod + 1 >= self.rates.period {
                    self.global_drops_since_kod = 0;
                    self.stats.kiss_of_death = self.stats.kiss_of_death.saturating_add(1);
                    proof {
                        assert(self@ == before@.admitted(*key, now));
                        self.lemma_same_handles(before, handle);
                    }
                    return (Disposition::KissOfDeath, handle);
                }
                self.global_drops_since_kod = self.global_drops_since_kod + 1;
                proof {
                    assert(self@ == before@.admitted(*key, now));
                    self.lemma_same_handles(before, handle);
                }
                return (Disposition::Drop, handle);
            }
        }
        let ghost counted_in = *self;
        assert(forall|h: ClientHandle| #[trigger] counted_in.client_of(h) == before.client_of(h));
        let slot: u32 = self.slot_for(key, now);
        let ghost placed = *self;
        proof {
            assert(self.list.slots@[slot as int].key == *key);
            assert(self.list.order@[0] < self.list.slots@.len());
            assert(self@.clients[0] == (*key, before@.charged_record(*key, now)));
        }
        let handle: ClientHandle = self.handle_for(slot);
        let (record, disposition): (ClientRecord, Disposition) =
            self.list.slots[slot as usize].record.charge(now, &self.rates, Ghost(config));
        self.set_record(slot, record, Ghost(*key));
        proof {
            placed.lemma_place(*key);
            placed.table_is_bounded();
            assert(place(placed@.clients, *key) == 0);
            assert(self@.clients =~= before@.admitted(*key, now).clients);
            assert(self.handles_follow(&before, handle)) by {
                assert forall|h: ClientHandle|
                    match before.client_of(h) {
                        Some(k) => #[trigger] self.client_of(h) == if known(self@.clients, k) {
                            Some(k)
                        } else {
                            None
                        },
                        None => self.client_of(h) is None || h == handle,
                    } by {
                    assert(placed.client_of(h) == self.client_of(h));
                    assert(counted_in.client_of(h) == before.client_of(h));
                    if let Some(k) = before.client_of(h) {
                        placed.lemma_place(k);
                        self.lemma_place(k);
                    }
                }
            }
        }
        let ghost stored = *self;
        self.stats.requests = self.stats.requests.saturating_add(1);
        match disposition {
            Disposition::Respond => {
                self.stats.responses = self.stats.responses.saturating_add(1);
                if limited {
                    self.global_tokens = self.global_tokens - GLOBAL_COST;
                }
            },
            Disposition::KissOfDeath => {
                self.stats.dropped_rate_limit = self.stats.dropped_rate_limit.saturating_add(1);
                self.stats.kiss_of_death = self.stats.kiss_of_death.saturating_add(1);
            },
            Disposition::Drop => {
                self.stats.dropped_rate_limit = self.stats.dropped_rate_limit.saturating_add(1);
            },
        }
        proof {
            assert(self.list == stored.list);
            assert(forall|h: ClientHandle| #[trigger] self.client_of(h) == stored.client_of(h));
            assert(self.turns() == stored.turns());
            assert(counted_in.turns() == before.turns());
            assert(self@ == before@.admitted(*key, now));
        }
        (disposition, handle)
    }

    proof fn lemma_same_handles(&self, before: Self, issued: ClientHandle)
        requires
            before.wf(),
            self.list == before.list,
            self@.clients == before@.clients,
        ensures
            self.handles_follow(&before, issued),
            self.turns() == before.turns(),
    {
        assert forall|h: ClientHandle|
            match before.client_of(h) {
                Some(k) => #[trigger] self.client_of(h) == if known(self@.clients, k) {
                    Some(k)
                } else {
                    None
                },
                None => self.client_of(h) is None || h == issued,
            } by {
            if let Some(k) = before.client_of(h) {
                assert(before.list.slots@[h.slot as int].key == k);
                assert(before.index@.contains_key(k));
                before.lemma_place(k);
            }
        }
    }
}


impl<K: Eq + Hash + Copy, S: BuildHasher> ClientTable<K, S> {
    proof fn lemma_slot(&self, slot: u32)
        requires
            self.wf(),
            slot < self.list.slots@.len(),
        ensures
            ({
                let key = self.list.slots@[slot as int].key;
                &&& known(self@.clients, key)
                &&& record_of(self@.clients, key) == self.list.slots@[slot as int].record
                &&& self.list.slots@[slot as int].record.fits(self.config)
                &&& self.index@.contains_key(key)
                &&& self.index@[key] == slot
            }),
    {
        let key = self.list.slots@[slot as int].key;
        assert(self.index@.contains_key(key));
        self.lemma_place(key);
    }

    /// Every handle that stands for somebody stands for a tracked client, and it
    /// does so exactly while its slot is in the use that it was issued for.
    pub proof fn handles_name_tracked_clients(&self, handle: ClientHandle)
        requires
            self.wf(),
        ensures
            self.client_of(handle) is Some ==> known(
                self@.clients,
                self.client_of(handle)->Some_0,
            ),
            self.client_of(handle) is Some <==> handle.place() < self.turns().len()
                && self.turns()[handle.place() as int] == handle.turn(),
            handle.names_nothing() ==> self.client_of(handle) is None,
    {
        if self.client_of(handle) is Some {
            self.lemma_slot(handle.slot);
        }
    }

    fn mode_at_slot(&mut self, slot: u32, origin: NtpTimestamp, Ghost(key): Ghost<K>) -> (mode:
        ResponseMode)
        requires
            old(self).wf(),
            slot < old(self).list.slots@.len(),
            old(self).list.slots@[slot as int].key == key,
        ensures
            final(self).wf(),
            mode == old(self)@.mode(key, origin),
            final(self)@ == old(self)@.mode_chosen(key, origin),
            final(self).turns() == old(self).turns(),
            forall|h: ClientHandle| #[trigger] final(self).client_of(h) == old(self).client_of(h),
    {
        proof {
            self.lemma_slot(slot);
        }
        let mut record: ClientRecord = self.list.slots[slot as usize].record;
        match (record.last_receive_sent, record.last_transmit) {
            (Some(sent_receive), Some(prev_transmit)) => {
                // Only the most recent response qualifies; a client that names
                // an older one is answered in basic mode.
                let interleaved: bool = origin == sent_receive && !origin.is_zero();
                record.interleaved_now = interleaved;
                self.set_record(slot, record, Ghost(key));
                if interleaved {
                    let ghost stored = *self;
                    self.stats.interleaved_responses =
                        self.stats.interleaved_responses.saturating_add(1);
                    assert(self.list == stored.list);
                    assert(forall|h: ClientHandle| #[trigger]
                        self.client_of(h) == stored.client_of(h));
                    ResponseMode::Interleaved { prev_transmit }
                } else {
                    ResponseMode::Basic
                }
            },
            _ => ResponseMode::Basic,
        }
    }

    /// Decide basic vs interleaved for an admitted request.
    ///
    /// The client signals interleaved mode by setting its origin timestamp to
    /// the *receive* timestamp we sent last time, rather than the transmit
    /// timestamp: only a client that actually saw our last response knows it.
    pub fn response_mode(&mut self, key: &K, request_origin: NtpTimestamp) -> (mode: ResponseMode)
        requires
            old(self).wf(),
        ensures
            final(self).wf(),
            mode == old(self)@.mode(*key, request_origin),
            final(self)@ == old(self)@.mode_chosen(*key, request_origin),
            final(self).turns() == old(self).turns(),
            forall|h: ClientHandle| #[trigger] final(self).client_of(h) == old(self).client_of(h),
    {
        proof {
            self.lemma_place(*key);
        }
        match self.index.get(key) {
            Some(i) => {
                let i: u32 = *i;
                self.mode_at_slot(i, request_origin, Ghost(*key))
            },
            None => ResponseMode::Basic,
        }
    }

    /// `response_mode` addressed by handle; a stale handle is answered in basic
    /// mode and changes nothing.
    pub fn response_mode_at(&mut self, handle: ClientHandle, request_origin: NtpTimestamp) -> (mode:
        ResponseMode)
        requires
            old(self).wf(),
        ensures
            final(self).wf(),
            match old(self).client_of(handle) {
                Some(key) => mode == old(self)@.mode(key, request_origin) && final(self)@ == old(
                    self,
                )@.mode_chosen(key, request_origin),
                None => mode is Basic && final(self)@ == old(self)@,
            },
            final(self).turns() == old(self).turns(),
            forall|h: ClientHandle| #[trigger] final(self).client_of(h) == old(self).client_of(h),
    {
        match self.resolve(handle) {
            Some(i) => {
                let ghost key = self.list.slots@[i as int].key;
                self.mode_at_slot(i, request_origin, Ghost(key))
            },
            None => ResponseMode::Basic,
        }
    }

    /// Record what we received and what we told the client, after answering.
    pub fn note_response(&mut self, key: &K, receive: NtpTimestamp, receive_sent: NtpTimestamp)
        requires
            old(self).wf(),
        ensures
            final(self).wf(),
            final(self)@ == old(self)@.response_noted(*key, receive, receive_sent),
            final(self).turns() == old(self).turns(),
            forall|h: ClientHandle| #[trigger] final(self).client_of(h) == old(self).client_of(h),
    {
        proof {
            self.lemma_place(*key);
        }
        if let Some(i) = self.index.get(key) {
            let i: u32 = *i;
            let handle: ClientHandle = self.handle_for(i);
            self.note_response_at(handle, receive, receive_sent);
        }
    }

    /// `note_response` addressed by handle; a stale handle changes nothing.
    pub fn note_response_at(
        &mut self,
        handle: ClientHandle,
        receive: NtpTimestamp,
        receive_sent: NtpTimestamp,
    )
        requires
            old(self).wf(),
        ensures
            final(self).wf(),
            final(self)@ == match old(self).client_of(handle) {
                Some(key) => old(self)@.response_noted(key, receive, receive_sent),
                None => old(self)@,
            },
            final(self).turns() == old(self).turns(),
            forall|h: ClientHandle| #[trigger] final(self).client_of(h) == old(self).client_of(h),
    {
        if let Some(i) = self.resolve(handle) {
            proof {
                self.lemma_slot(i);
            }
            let ghost key = self.list.slots@[i as int].key;
            let mut record: ClientRecord = self.list.slots[i as usize].record;
            record.last_receive = Some(receive);
            record.last_receive_sent = Some(receive_sent);
            self.set_record(i, record, Ghost(key));
        }
    }

    /// Record the true transmit timestamp of the response just sent. Called
    /// after `send`, which is the whole point of interleaved mode: the basic
    /// exchange cannot report it, because the packet has not left yet when its
    /// own transmit field is written.
    pub fn note_transmit(&mut self, key: &K, transmit: NtpTimestamp)
        requires
            old(self).wf(),
        ensures
            final(self).wf(),
            final(self)@ == old(self)@.transmit_noted(*key, transmit),
            final(self).turns() == old(self).turns(),
            forall|h: ClientHandle| #[trigger] final(self).client_of(h) == old(self).client_of(h),
    {
        proof {
            self.lemma_place(*key);
        }
        if let Some(i) = self.index.get(key) {
            let i: u32 = *i;
            let handle: ClientHandle = self.handle_for(i);
            self.note_transmit_at(handle, transmit);
        }
    }

    /// `note_transmit` addressed by handle.
    ///
    /// A handle taken before the send is used after it: if the client was
    /// evicted in between, the update is dropped rather than landing on whoever
    /// inherited the slot.
    pub fn note_transmit_at(&mut self, handle: ClientHandle, transmit: NtpTimestamp)
        requires
            old(self).wf(),
        ensures
            final(self).wf(),
            final(self)@ == match old(self).client_of(handle) {
                Some(key) => old(self)@.transmit_noted(key, transmit),
                None => old(self)@,
            },
            final(self).turns() == old(self).turns(),
            forall|h: ClientHandle| #[trigger] final(self).client_of(h) == old(self).client_of(h),
    {
        if let Some(i) = self.resolve(handle) {
            proof {
                self.lemma_slot(i);
            }
            let ghost key = self.list.slots@[i as int].key;
            let mut record: ClientRecord = self.list.slots[i as usize].record;
            record.last_transmit = Some(transmit);
            self.set_record(i, record, Ghost(key));
        }
    }

    pub fn note_refused(&mut self)
        requires
            old(self).wf(),
        ensures
            final(self).wf(),
            final(self)@ == (TableState {
                stats: ServerStats { refused: bumped(old(self)@.stats.refused), ..old(self)@.stats },
                ..old(self)@
            }),
            final(self).turns() == old(self).turns(),
            forall|h: ClientHandle| #[trigger] final(self).client_of(h) == old(self).client_of(h),
    {
        self.stats.refused = self.stats.refused.saturating_add(1);
    }
}

/// How often slot `place` was taken over along a run of the slots' uses.
pub open spec fn takeovers(run: Seq<Seq<nat>>, place: int) -> nat
    decreases run.len(),
{
    if run.len() <= 1 {
        0
    } else {
        takeovers(run.drop_last(), place) + if run.last()[place] != run[run.len() - 2][place] {
            1nat
        } else {
            0
        }
    }
}

/// Whether each entry of a run of the slots' uses follows from the one before it
/// as requests make it.
pub open spec fn is_run(run: Seq<Seq<nat>>) -> bool {
    forall|i: int|
        #![trigger run[i + 1]]
        0 <= i < run.len() - 1 ==> may_follow(run[i], run[i + 1])
}

/// Whether some request makes the slots' uses `after` of `before`.
pub open spec fn may_follow(before: Seq<nat>, after: Seq<nat>) -> bool {
    exists|place: nat, known: bool, evicts: bool| #[trigger]
        turned(before, after, place, known, evicts)
}

/// A stale handle stays stale: once its slot was taken over, a handle stands for
/// nobody, whatever requests follow, until the slot has been taken over 2^32
/// times.
pub proof fn a_stale_handle_stays_stale<K, S>(
    tables: Seq<ClientTable<K, S>>,
    handle: ClientHandle,
) where K: Eq + Hash + Copy, S: BuildHasher
    requires
        tables.len() > 0,
        forall|i: int| 0 <= i < tables.len() ==> (#[trigger] tables[i]).wf(),
        tables[0].client_of(handle) is Some,
        is_run(tables.map_values(|t: ClientTable<K, S>| t.turns())),
        0 < takeovers(
            tables.map_values(|t: ClientTable<K, S>| t.turns()),
            handle.place() as int,
        ) < 0x1_0000_0000,
    ensures
        tables.last().client_of(handle) is None,
{
    let run = tables.map_values(|t: ClientTable<K, S>| t.turns());
    let p = handle.place() as int;
    tables[0].handles_name_tracked_clients(handle);
    assert(run[0] == tables[0].turns());
    assert(handle.turn() < 0x1_0000_0000);
    lemma_turns_count(run, p);
    assert(run.last() == tables.last().turns());
    tables.last().handles_name_tracked_clients(handle);
    let uses = takeovers(run, p);
    let turn = handle.turn();
    assert((turn + uses) % 0x1_0000_0000 != turn);
}

proof fn lemma_turns_count(run: Seq<Seq<nat>>, p: int)
    requires
        run.len() > 0,
        is_run(run),
        0 <= p < run[0].len(),
        run[0][p] < 0x1_0000_0000,
    ensures
        p < run.last().len(),
        run.last()[p] == (run[0][p] + takeovers(run, p)) % 0x1_0000_0000,
    decreases run.len(),
{
    if run.len() > 1 {
        let shorter = run.drop_last();
        assert forall|i: int|
            #![trigger shorter[i + 1]]
            0 <= i < shorter.len() - 1 implies may_follow(shorter[i], shorter[i + 1]) by {
            assert(run[i + 1] == shorter[i + 1]);
            assert(run[i] == shorter[i]);
        }
        lemma_turns_count(shorter, p);
        let n = run.len() as int;
        assert(run[(n - 2) + 1] == run.last());
        assert(shorter.last() == run[n - 2]);
        assert(may_follow(run[n - 2], run[n - 1]));
        let (place, known, evicts) = choose|place: nat, known: bool, evicts: bool| #[trigger]
            turned(run[n - 2], run[n - 1], place, known, evicts);
        let t = run[n - 2][p];
        if run[n - 1][p] != t {
            assert(run[n - 1][p] == next_turn(t));
        }
    }
}

} // verus!
