//! The store: a TTL-aware LRU cache.
//!
//! Recency ordering is an intrusive doubly-linked list threaded through a slab
//! (`Vec<Option<Node>>`); nodes reference each other by *index*. Every
//! operation (get / set / del / evict) takes constant expected time. Each node
//! additionally stores `expires_at` and `last_accessed` for lazy expiration and
//! access tracking.
use vstd::prelude::*;

use crate::bytemap::{
    distinct_keys, has_key, law_bound, law_unbound, lemma_position, lemma_position_at, position,
    value_of, ByteMap,
};
use crate::bytes::to_vec;
use crate::dump::{
    dump_of, frames_of, info_view, put_value_frames, record_requests, snapshot_of, KeyInfo,
};
use crate::model::{
    dropped, fitted, record_sizes, size_of_entry, to_front, used_bytes, CacheView, Record,
    ENTRY_OVERHEAD,
};
use crate::sums::{
    lemma_total_concat, lemma_total_member, lemma_total_push, lemma_total_remove,
    lemma_total_update,
};
use crate::value::{items_view, Value};

verus! {

/// A slot of the slab.
pub struct Node {
    pub key: Vec<u8>,
    pub value: Value,
    /// UNIX seconds; `None` = persistent.
    pub expires_at: Option<u64>,
    /// UNIX seconds of the most recent access.
    pub last_accessed: u64,
    /// Toward the most recently used end.
    pub prev: Option<usize>,
    /// Toward the least recently used end.
    pub next: Option<usize>,
}

impl Node {
    /// The key and record that the node holds.
    pub open spec fn entry(self) -> (Seq<u8>, Record) {
        (
            self.key@,
            Record {
                value: self.value@,
                expires_at: self.expires_at,
                last_accessed: self.last_accessed,
            },
        )
    }

    /// Equal but for the links.
    pub open spec fn same_content(self, other: Node) -> bool {
        &&& self.key == other.key
        &&& self.value == other.value
        &&& self.expires_at == other.expires_at
        &&& self.last_accessed == other.last_accessed
    }
}

/// The cache.
pub struct LruCache {
    map: ByteMap<usize>,
    nodes: Vec<Option<Node>>,
    free: Vec<usize>,
    head: Option<usize>,
    tail: Option<usize>,
    used: usize,
    cap: usize,
    evicted: Vec<Vec<u8>>,
    /// The slots in list order, from head to tail.
    order: Ghost<Seq<usize>>,
}

/// The accounted size of an entry.
pub fn entry_size(key: &[u8], value: &Value) -> (r: usize)
    requires
        size_of_entry(key@, value@) <= usize::MAX,
    ensures
        r == size_of_entry(key@, value@),
{
    key.len() + value.mem_size() + ENTRY_OVERHEAD
}

/// Neighbours of position `i` in the list.
spec fn before(order: Seq<usize>, i: int) -> Option<usize> {
    if i == 0 {
        None
    } else {
        Some(order[i - 1])
    }
}

spec fn after(order: Seq<usize>, i: int) -> Option<usize> {
    if i + 1 == order.len() {
        None
    } else {
        Some(order[i + 1])
    }
}

impl View for LruCache {
    type V = CacheView;

    closed spec fn view(&self) -> CacheView {
        CacheView {
            entries: Seq::new(self.order@.len(), |i: int| self.slot(self.order@[i])),
            cap: self.cap as nat,
            evicted: self.evicted@.map_values(|k: Vec<u8>| k@),
        }
    }
}

impl LruCache {
    spec fn node(&self, idx: usize) -> Node {
        self.nodes@[idx as int]->0
    }

    /// Whether the slot holds a node.
    pub closed spec fn occupied(&self, idx: usize) -> bool {
        idx < self.nodes@.len() && self.nodes@[idx as int] is Some
    }

    /// The slot at position `i` of the list is occupied and linked to its neighbours.
    spec fn chained(&self, i: int) -> bool {
        &&& self.occupied(self.order@[i])
        &&& self.node(self.order@[i]).prev == before(self.order@, i)
        &&& self.node(self.order@[i]).next == after(self.order@, i)
    }

    /// The list runs from head to tail through occupied slots, each once.
    pub closed spec fn linked(&self) -> bool {
        &&& self.order@.no_duplicates()
        &&& forall|i: int| 0 <= i < self.order@.len() ==> #[trigger] self.chained(i)
        &&& self.head == (if self.order@.len() == 0 {
            None
        } else {
            Some(self.order@[0])
        })
        &&& self.tail == (if self.order@.len() == 0 {
            None
        } else {
            Some(self.order@.last())
        })
    }

    /// The slots in list order, from head to tail.
    pub closed spec fn list(&self) -> Seq<usize> {
        self.order@
    }

    /// Whether the slot is in the list.
    pub closed spec fn in_list(&self, idx: usize) -> bool {
        self.order@.contains(idx)
    }

    /// The slot's position in the list.
    pub closed spec fn rank(&self, idx: usize) -> int {
        self.order@.index_of(idx)
    }

    /// The content of the slot.
    pub closed spec fn slot(&self, idx: usize) -> (Seq<u8>, Record) {
        self.node(idx).entry()
    }

    /// Nothing but links and list order differ.
    pub closed spec fn same_store(&self, other: &LruCache) -> bool {
        &&& self.map == other.map
        &&& self.free == other.free
        &&& self.used == other.used
        &&& self.cap == other.cap
        &&& self.evicted == other.evicted
        &&& self.nodes@.len() == other.nodes@.len()
        &&& forall|p: usize| #[trigger] self.occupied(p) == other.occupied(p)
        &&& forall|p: usize| #[trigger]
            self.occupied(p) ==> self.node(p).same_content(other.node(p))
    }

    /// Points the `prev` link of a node.
    fn set_prev(&mut self, idx: usize, to: Option<usize>)
        requires
            old(self).occupied(idx),
        ensures
            *final(self) == (LruCache { nodes: final(self).nodes, ..*old(self) }),
            final(self).nodes@ == old(self).nodes@.update(
                idx as int,
                Some(Node { prev: to, ..old(self).node(idx) }),
            ),
    {
        self.nodes[idx].as_mut().unwrap().prev = to;
    }

    /// Points the `next` link of a node.
    fn set_next(&mut self, idx: usize, to: Option<usize>)
        requires
            old(self).occupied(idx),
        ensures
            *final(self) == (LruCache { nodes: final(self).nodes, ..*old(self) }),
            final(self).nodes@ == old(self).nodes@.update(
                idx as int,
                Some(Node { next: to, ..old(self).node(idx) }),
            ),
    {
        self.nodes[idx].as_mut().unwrap().next = to;
    }

    /// Detach `idx` from the recency list (its slab slot stays allocated).
    pub fn unlink(&mut self, idx: usize)
        requires
            old(self).linked(),
            old(self).in_list(idx),
        ensures
            final(self).linked(),
            final(self).list() == old(self).list().remove(old(self).rank(idx)),
            final(self).same_store(old(self)),
            forall|p: usize| #[trigger]
                old(self).occupied(p) ==> final(self).occupied(p) && final(self).slot(p) == old(
                    self,
                ).slot(p),
    {
        let ghost i = self.rank(idx);
        let ghost order = self.order@;
        assert(0 <= i < order.len() && order[i] == idx);
        assert(self.chained(i));
        assert(i > 0 ==> self.chained(i - 1));
        assert(i + 1 < order.len() ==> self.chained(i + 1));
        let prev: Option<usize> = self.nodes[idx].as_ref().unwrap().prev;
        let next: Option<usize> = self.nodes[idx].as_ref().unwrap().next;
        match prev {
            Some(p) => {
                self.set_next(p, next);
            },
            None => {
                self.head = next;
            },
        }
        match next {
            Some(nx) => {
                self.set_prev(nx, prev);
            },
            None => {
                self.tail = prev;
            },
        }
        self.set_prev(idx, None);
        self.set_next(idx, None);
        self.order = Ghost(order.remove(i));
        proof {
            let o = self.order@;
            assert(o.no_duplicates());
            assert forall|j: int| 0 <= j < o.len() implies #[trigger] self.chained(j) by {
                let k = if j < i { j } else { j + 1 };
                assert(o[j] == order[k]);
                assert(old(self).chained(k));
            }
        }
    }

    /// Insert `idx` at the head (mark most-recently-used).
    pub fn push_front(&mut self, idx: usize)
        requires
            old(self).linked(),
            old(self).occupied(idx),
            !old(self).in_list(idx),
        ensures
            final(self).linked(),
            final(self).list() == seq![idx] + old(self).list(),
            final(self).same_store(old(self)),
            forall|p: usize| #[trigger]
                old(self).occupied(p) ==> final(self).occupied(p) && final(self).slot(p) == old(
                    self,
                ).slot(p),
    {
        let ghost order = self.order@;
        let old_head: Option<usize> = self.head;
        assert(order.len() > 0 ==> self.chained(0));
        self.set_prev(idx, None);
        self.set_next(idx, old_head);
        if let Some(h) = old_head {
            self.set_prev(h, Some(idx));
        }
        self.head = Some(idx);
        if self.tail.is_none() {
            self.tail = Some(idx);
        }
        self.order = Ghost(seq![idx] + order);
        proof {
            let o = self.order@;
            assert(o.no_duplicates()) by {
                assert forall|a: int, b: int| 0 <= a < b < o.len() implies o[a] != o[b] by {
                    assert(o[b] == order[b - 1]);
                    if a > 0 {
                        assert(o[a] == order[a - 1]);
                    }
                }
            }
            assert forall|j: int| 0 <= j < o.len() implies #[trigger] self.chained(j) by {
                if j > 0 {
                    assert(o[j] == order[j - 1]);
                    assert(old(self).chained(j - 1));
                }
            }
        }
    }

    /// Mark `idx` most-recently-used.
    pub fn move_to_front(&mut self, idx: usize)
        requires
            old(self).linked(),
            old(self).in_list(idx),
        ensures
            final(self).linked(),
            final(self).list() == to_front(old(self).list(), old(self).rank(idx)),
            final(self).same_store(old(self)),
            forall|p: usize| #[trigger]
                old(self).occupied(p) ==> final(self).occupied(p) && final(self).slot(p) == old(
                    self,
                ).slot(p),
    {
        let ghost i = self.rank(idx);
        let ghost order = self.order@;
        assert(0 <= i < order.len() && order[i] == idx);
        assert(self.chained(i));
        if self.head == Some(idx) {
            assert(i == 0);
            assert(to_front(order, 0) =~= order);
            return;
        }
        self.unlink(idx);
        self.push_front(idx);
    }

    /// Whether the slot is part of the slab and holds no node.
    spec fn vacant(&self, idx: usize) -> bool {
        idx < self.nodes@.len() && self.nodes@[idx as int] is None
    }

    /// The number of slots in the slab, empty ones included.
    pub closed spec fn slots(&self) -> nat {
        self.nodes@.len()
    }

    /// The free list: the empty slots, in the order in which they were freed.
    pub closed spec fn spare(&self) -> Seq<usize> {
        self.free@
    }

    /// The free list names the empty slots, all of them, each once.
    pub closed spec fn slab_ok(&self) -> bool {
        &&& self.free@.no_duplicates()
        &&& forall|p: usize| #[trigger] self.vacant(p) ==> self.free@.contains(p)
        &&& forall|i: int|
            0 <= i < self.free@.len() ==> (#[trigger] self.free@[i]) < self.nodes@.len()
                && self.nodes@[self.free@[i] as int] is None
    }

    /// The key table leads from each key to the slot that holds it.
    pub closed spec fn indexed(&self) -> bool {
        &&& self.map.wf()
        &&& forall|p: usize| #[trigger]
            self.occupied(p) ==> value_of(self.map@, self.node(p).key@) == Some(p) && self.node(
                p,
            ).value.wf()
        &&& forall|k: Seq<u8>| #[trigger]
            has_key(self.map@, k) ==> self.occupied(value_of(self.map@, k)->0) && self.node(
                value_of(self.map@, k)->0,
            ).key@ == k
    }

    /// The list holds every occupied slot.
    pub closed spec fn covered(&self) -> bool {
        &&& forall|p: usize| #[trigger] self.occupied(p) ==> self.order@.contains(p)
        &&& self.map@.len() == self.order@.len()
    }

    /// All but the byte counter is in order.
    pub open spec fn shaped(&self) -> bool {
        &&& self.linked()
        &&& self.slab_ok()
        &&& self.indexed()
        &&& self.covered()
    }

    /// The byte counter.
    pub closed spec fn counter(&self) -> nat {
        self.used as nat
    }

    /// The cache is in order: the list, the slab and the key table agree, and the
    /// byte counter is the sum of the sizes of all entries.
    pub open spec fn wf(&self) -> bool {
        &&& self.shaped()
        &&& self.counter() == self@.used()
    }

    /// A cache that is in order holds no key twice.
    pub proof fn law_distinct_keys(&self)
        requires
            self.wf(),
        ensures
            distinct_keys(self@.entries),
    {
        self.lemma_shaped();
    }

    /// Keys are distinct, and the key table agrees with the list.
    proof fn lemma_shaped(&self)
        requires
            self.shaped(),
        ensures
            distinct_keys(self@.entries),
            forall|i: int|
                0 <= i < self.order@.len() ==> self.occupied(#[trigger] self.order@[i])
                    && self@.entries[i] == self.slot(self.order@[i]) && position(
                    self@.entries,
                    self.slot(self.order@[i]).0,
                ) == i,
            forall|k: Seq<u8>| #[trigger] has_key(self@.entries, k) == has_key(self.map@, k),
            forall|k: Seq<u8>| #[trigger]
                has_key(self@.entries, k) ==> value_of(self.map@, k) == Some(
                    self.order@[position(self@.entries, k)],
                ) && 0 <= position(self@.entries, k) < self.order@.len() && self@.entries[position(
                    self@.entries,
                    k,
                )].0 == k,
    {
        let e = self@.entries;
        assert forall|i: int| 0 <= i < self.order@.len() implies self.occupied(
            #[trigger] self.order@[i],
        ) && e[i] == self.slot(self.order@[i]) by {
            assert(self.chained(i));
        }
        assert forall|i: int, j: int| 0 <= i < j < e.len() implies (#[trigger] e[i]).0 != (
        #[trigger] e[j]).0 by {
            assert(self.occupied(self.order@[i]) && self.occupied(self.order@[j]));
        }
        assert forall|i: int| 0 <= i < self.order@.len() implies position(
            e,
            self.slot(#[trigger] self.order@[i]).0,
        ) == i by {
            lemma_position_at(e, i);
        }
        assert forall|k: Seq<u8>| #[trigger] has_key(e, k) == has_key(self.map@, k) by {
            if has_key(self.map@, k) {
                let p = value_of(self.map@, k)->0;
                assert(self.occupied(p));
                let i = choose|i: int| 0 <= i < self.order@.len() && self.order@[i] == p;
                assert(e[i].0 == k);
            }
            if has_key(e, k) {
                lemma_position(e, k);
                let i = position(e, k);
                assert(self.occupied(self.order@[i]));
            }
        }
        assert forall|k: Seq<u8>| #[trigger] has_key(e, k) implies value_of(self.map@, k) == Some(
            self.order@[position(e, k)],
        ) && 0 <= position(e, k) < self.order@.len() && e[position(e, k)].0 == k by {
            lemma_position(e, k);
            assert(self.occupied(self.order@[position(e, k)]));
        }
    }

    /// An empty cache.
    pub fn new(cap: usize) -> (r: Self)
        ensures
            r.wf(),
            r@ == (CacheView { entries: seq![], cap: cap as nat, evicted: seq![] }),
            r.slots() == 0,
            r.spare().len() == 0,
    {
        let r = LruCache {
            map: ByteMap::new(),
            nodes: Vec::new(),
            free: Vec::new(),
            head: None,
            tail: None,
            used: 0,
            cap,
            evicted: Vec::new(),
            order: Ghost(Seq::empty()),
        };
        assert(r@.entries =~= seq![]);
        assert(r@.evicted =~= seq![]);
        assert(record_sizes(r@.entries) =~= seq![]);
        r
    }

    /// Nothing but the slot `r` differs, which has come to hold `node`.
    pub closed spec fn filled(&self, other: &LruCache, r: usize, node: Node) -> bool {
        &&& self.map == other.map
        &&& self.head == other.head
        &&& self.tail == other.tail
        &&& self.used == other.used
        &&& self.cap == other.cap
        &&& self.evicted == other.evicted
        &&& self.order == other.order
        &&& self.occupied(r) && self.node(r) == node
        &&& forall|p: usize| #[trigger]
            self.occupied(p) ==> p == r || (other.occupied(p) && self.node(p) == other.node(p))
        &&& forall|p: usize| #[trigger] other.occupied(p) ==> self.occupied(p)
    }

    /// Allocate a slab slot, reusing a freed index when possible.
    pub fn alloc_slot(&mut self, node: Node) -> (r: usize)
        requires
            old(self).linked(),
            old(self).slab_ok(),
        ensures
            final(self).linked(),
            final(self).slab_ok(),
            !old(self).occupied(r),
            !old(self).in_list(r),
            final(self).filled(old(self), r, node),
            final(self)@ == old(self)@,
            final(self).slot(r) == node.entry(),
            old(self).spare().len() > 0 ==> r == old(self).spare().last() && final(self).spare()
                == old(self).spare().drop_last() && final(self).slots() == old(self).slots(),
            old(self).spare().len() == 0 ==> r == old(self).slots() && final(self).spare().len()
                == 0 && final(self).slots() == old(self).slots() + 1,
    {
        let ghost order = self.order@;
        let r: usize = if self.free.len() > 0 {
            let i: usize = self.free.pop().unwrap();
            assert(old(self).free@.last() == i);
            self.nodes[i] = Some(node);
            assert forall|j: int| 0 <= j < self.free@.len() implies (#[trigger] self.free@[j])
                < self.nodes@.len() && self.nodes@[self.free@[j] as int] is None by {
                assert(old(self).free@[j] == self.free@[j]);
            }
            assert forall|p: usize| #[trigger] self.vacant(p) implies self.free@.contains(p) by {
                assert(old(self).vacant(p));
                let j = old(self).free@.index_of(p);
                assert(self.free@[j] == p);
            }
            i
        } else {
            self.nodes.push(Some(node));
            assert forall|p: usize| #[trigger] self.vacant(p) implies self.free@.contains(p) by {
                assert(old(self).vacant(p));
            }
            self.nodes.len() - 1
        };
        assert forall|j: int| 0 <= j < order.len() implies #[trigger] self.chained(j) by {
            assert(old(self).chained(j));
        }
        assert(!order.contains(r)) by {
            if order.contains(r) {
                assert(old(self).chained(order.index_of(r)));
            }
        }
        assert(self@.entries =~= old(self)@.entries) by {
            assert forall|j: int| 0 <= j < order.len() implies self.slot(order[j]) == old(
                self,
            ).slot(order[j]) by {
                assert(old(self).chained(j));
                assert(self.chained(j));
            }
        }
        r
    }

    /// Remove a known slab index completely (map + list + byte counter).
    pub fn remove_idx(&mut self, idx: usize)
        requires
            old(self).wf(),
            old(self).in_list(idx),
        ensures
            final(self).wf(),
            final(self)@ == old(self)@.without(old(self).slot(idx).0),
            forall|p: usize| #[trigger]
                old(self).in_list(p) && p != idx ==> final(self).in_list(p) && final(self).slot(p)
                    == old(self).slot(p),
            final(self).list() == old(self).list().remove(old(self).rank(idx)),
            final(self)@.used() <= old(self)@.used(),
            has_key(old(self)@.entries, old(self).slot(idx).0),
            !has_key(final(self)@.entries, old(self).slot(idx).0),
            final(self)@.used() + size_of_entry(
                old(self).slot(idx).0,
                old(self).slot(idx).1.value,
            ) == old(self)@.used(),
            final(self).spare() == old(self).spare().push(idx),
            final(self).slots() == old(self).slots(),
    {
        let ghost start = *self;
        let ghost i = self.rank(idx);
        let ghost order = self.order@;
        let ghost key = self.slot(idx).0;
        proof {
            self.lemma_shaped();
            assert(order[i] == idx);
            assert(has_key(self@.entries, key)) by {
                assert(self@.entries[i].0 == key);
            }
            assert(record_sizes(self@.entries).remove(i) =~= record_sizes(
                self@.entries.remove(i),
            ));
            lemma_total_remove(record_sizes(self@.entries), i);
            assert(record_sizes(self@.entries)[i] == size_of_entry(key, self.node(idx).value@));
        }
        self.unlink(idx);
        let ghost mid = *self;
        assert(mid.occupied(idx) == start.occupied(idx));
        assert(mid.node(idx).same_content(start.node(idx)));
        let taken: Option<Node> = self.nodes[idx].take();
        let node: Node = taken.unwrap();
        self.map.remove(node.key.as_slice());
        self.used = self.used - entry_size(node.key.as_slice(), &node.value);
        self.free.push(idx);
        proof {
            let o = self.order@;
            assert forall|p: usize| #[trigger] self.occupied(p) == (start.occupied(p) && p
                != idx) by {
                assert(mid.occupied(p) == start.occupied(p));
            }
            assert forall|p: usize| #[trigger]
                self.occupied(p) implies self.node(p).same_content(start.node(p)) by {
                assert(mid.occupied(p));
            }
            assert forall|j: int| 0 <= j < o.len() implies #[trigger] self.chained(j) by {
                assert(mid.chained(j));
                let k = if j < i { j } else { j + 1 };
                assert(o[j] == order[k]);
            }
            assert(self.slab_ok()) by {
                assert(start.occupied(idx));
                assert forall|j: int| 0 <= j < self.free@.len() implies (#[trigger] self.free@[j])
                    < self.nodes@.len() && self.nodes@[self.free@[j] as int] is None && (j
                    < self.free@.len() - 1 ==> self.free@[j] != idx) by {
                    if j < self.free@.len() - 1 {
                        let p = self.free@[j];
                        assert(start.free@[j] == p);
                        assert(!start.occupied(p));
                        assert(!self.occupied(p));
                    }
                }
                assert forall|p: usize| #[trigger] self.vacant(p) implies self.free@.contains(
                    p,
                ) by {
                    let n = self.free@.len() - 1;
                    if p == idx {
                        assert(self.free@[n] == p);
                    } else {
                        assert(!self.occupied(p));
                        assert(!start.occupied(p));
                        assert(start.vacant(p));
                        let j = start.free@.index_of(p);
                        assert(self.free@[j] == p);
                    }
                }
            }
            start.map.lemma_wf();
            law_unbound(start.map@, key);
            assert(self.indexed()) by {
                assert forall|p: usize| #[trigger] self.occupied(p) implies value_of(
                    self.map@,
                    self.node(p).key@,
                ) == Some(p) && self.node(p).value.wf() by {
                    assert(start.occupied(p));
                    assert(self.node(p).key@ != key);
                }
                assert forall|k: Seq<u8>| #[trigger] has_key(self.map@, k) implies self.occupied(
                    value_of(self.map@, k)->0,
                ) && self.node(value_of(self.map@, k)->0).key@ == k by {
                    assert(has_key(start.map@, k) && k != key);
                }
            }
            assert(self.covered()) by {
                assert forall|p: usize| #[trigger] self.occupied(p) implies o.contains(p) by {
                    let j = order.index_of(p);
                    if j < i {
                        assert(o[j] == p);
                    } else {
                        assert(o[j - 1] == p);
                    }
                }
            }
            assert(self@.entries =~= start@.entries.remove(i)) by {
                let left = start@.entries.remove(i);
                assert forall|j: int| 0 <= j < o.len() implies self.slot(o[j]) == left[j] by {
                    assert(self.chained(j));
                    let k = if j < i { j } else { j + 1 };
                    assert(o[j] == order[k]);
                    assert(start.occupied(order[k]));
                }
            }
            assert(!has_key(self@.entries, key)) by {
                assert(self.wf());
                self.lemma_shaped();
                assert(!has_key(self.map@, key));
            }
            assert forall|p: usize| #[trigger] start.in_list(p) && p != idx implies self.in_list(p)
                && self.slot(p) == start.slot(p) by {
                let j = order.index_of(p);
                assert(start.chained(j));
                assert(self.occupied(p));
            }
        }
    }

    /// A change of links alone keeps the slab and the key table in order.
    proof fn lemma_same_store(&self, other: &LruCache)
        requires
            other.slab_ok(),
            other.indexed(),
            self.same_store(other),
        ensures
            self.slab_ok(),
            self.indexed(),
            forall|p: usize| #[trigger] other.occupied(p) ==> self.slot(p) == other.slot(p),
            self@.cap == other@.cap,
            self@.evicted == other@.evicted,
    {
        assert forall|i: int| 0 <= i < self.free@.len() implies (#[trigger] self.free@[i])
            < self.nodes@.len() && self.nodes@[self.free@[i] as int] is None by {
            assert(!other.occupied(self.free@[i]));
            assert(!self.occupied(self.free@[i]));
        }
        assert forall|p: usize| #[trigger] self.vacant(p) implies self.free@.contains(p) by {
            assert(!self.occupied(p));
            assert(!other.occupied(p));
            assert(other.vacant(p));
        }
        assert forall|p: usize| #[trigger] other.occupied(p) implies self.slot(p) == other.slot(
            p,
        ) by {
            assert(self.occupied(p));
        }
        assert forall|p: usize| #[trigger] self.occupied(p) implies value_of(
            self.map@,
            self.node(p).key@,
        ) == Some(p) && self.node(p).value.wf() by {
            assert(other.occupied(p));
        }
        assert forall|k: Seq<u8>| #[trigger] has_key(self.map@, k) implies self.occupied(
            value_of(self.map@, k)->0,
        ) && self.node(value_of(self.map@, k)->0).key@ == k by {
            let p = value_of(other.map@, k)->0;
            assert(other.occupied(p));
            assert(self.occupied(p));
        }
    }

    /// A reordering of the list keeps the cache in shape.
    proof fn lemma_reordered(&self, other: &LruCache, i: int)
        requires
            other.shaped(),
            self.linked(),
            self.same_store(other),
            0 <= i < other.order@.len(),
            self.order@ == to_front(other.order@, i),
        ensures
            self.shaped(),
            self@.entries == to_front(other@.entries, i),
            self@.cap == other@.cap,
            self@.evicted == other@.evicted,
            self.counter() == other.counter(),
    {
        self.lemma_same_store(other);
        let o = self.order@;
        let q = other.order@;
        assert forall|p: usize| #[trigger] self.occupied(p) implies o.contains(p) by {
            assert(other.occupied(p));
            let j = q.index_of(p);
            if j == i {
                assert(o[0] == p);
            } else if j < i {
                assert(o[j + 1] == p);
            } else {
                assert(o[j] == p);
            }
        }
        assert(self@.entries =~= to_front(other@.entries, i)) by {
            assert forall|j: int| 0 <= j < q.len() implies other.occupied(#[trigger] q[j]) by {
                assert(other.chained(j));
            }
            assert forall|j: int| 0 <= j < o.len() implies self@.entries[j] == to_front(
                other@.entries,
                i,
            )[j] by {
                let k = if j == 0 { i } else if j <= i { j - 1 } else { j };
                assert(o[j] == q[k]);
                assert(other.occupied(q[k]));
            }
        }
    }

    /// Drop the LRU (tail) entry. Returns false if the cache is empty.
    pub fn evict_lru(&mut self) -> (r: bool)
        requires
            old(self).wf(),
        ensures
            final(self).wf(),
            r == (old(self)@.entries.len() > 0),
            r ==> final(self)@ == (CacheView {
                entries: old(self)@.entries.drop_last(),
                ..old(self)@
            }),
            !r ==> final(self)@ == old(self)@,
            forall|p: usize| #[trigger]
                old(self).in_list(p) && old(self).slot(p).0 != old(self)@.entries.last().0
                    ==> final(self).in_list(p) && final(self).slot(p) == old(self).slot(p),
    {
        match self.tail {
            Some(t) => {
                proof {
                    self.lemma_shaped();
                    let n = self.order@.len() - 1;
                    assert(self.order@[n] == t);
                    assert(self@.entries[n] == self.slot(t));
                    assert(has_key(self@.entries, self.slot(t).0));
                    assert(self@.entries.remove(n) =~= self@.entries.drop_last());
                }
                self.remove_idx(t);
                true
            },
            None => false,
        }
    }

    /// The counters and the eviction log have no part in the shape of the cache.
    proof fn lemma_frame(&self, other: &LruCache)
        requires
            other.shaped(),
            self.map == other.map,
            self.nodes == other.nodes,
            self.free == other.free,
            self.head == other.head,
            self.tail == other.tail,
            self.order == other.order,
        ensures
            self.shaped(),
            self@.entries == other@.entries,
            forall|p: usize| #[trigger] self.slot(p) == other.slot(p),
            forall|p: usize| #[trigger] self.in_list(p) == other.in_list(p),
            self.list() == other.list(),
    {
        assert forall|p: usize| #[trigger] self.occupied(p) == other.occupied(p) by {}
        assert forall|p: usize| #[trigger] self.vacant(p) implies self.free@.contains(p) by {
            assert(other.vacant(p));
        }
        assert forall|j: int| 0 <= j < self.order@.len() implies #[trigger] self.chained(j) by {
            assert(other.chained(j));
        }
        assert forall|p: usize| #[trigger] self.occupied(p) implies value_of(
            self.map@,
            self.node(p).key@,
        ) == Some(p) && self.node(p).value.wf() && self.order@.contains(p) by {
            assert(other.occupied(p));
        }
        assert forall|k: Seq<u8>| #[trigger] has_key(self.map@, k) implies self.occupied(
            value_of(self.map@, k)->0,
        ) && self.node(value_of(self.map@, k)->0).key@ == k by {
            assert(other.occupied(value_of(other.map@, k)->0));
        }
        assert(self@.entries =~= other@.entries);
    }

    /// The key in a slot, for an optional slot.
    pub open spec fn key_of(&self, idx: Option<usize>) -> Option<Seq<u8>> {
        match idx {
            Some(i) => Some(self.slot(i).0),
            None => None,
        }
    }

    /// Evict from the LRU tail until back under the RAM cap. Never evicts
    /// `keep_idx` (the entry a command just touched, always MRU).
    pub fn enforce_cap(&mut self, keep_idx: Option<usize>)
        requires
            old(self).wf(),
            keep_idx matches Some(i) ==> old(self).in_list(i),
        ensures
            final(self).wf(),
            final(self)@ == old(self)@.fit(old(self).key_of(keep_idx)),
    {
        let ghost start = *self;
        let ghost keep = self.key_of(keep_idx);
        assert(self@.evicted + dropped(self@.entries, self@.cap, keep) =~= start@.evicted + dropped(
            start@.entries,
            start@.cap,
            keep,
        ));
        while self.used > self.cap && self.map.len() > 1
            invariant
                self.wf(),
                self@.cap == start@.cap,
                keep == self.key_of(keep_idx),
                keep_idx matches Some(i) ==> self.in_list(i),
                fitted(self@.entries, self@.cap, keep) == fitted(start@.entries, start@.cap, keep),
                self@.evicted + dropped(self@.entries, self@.cap, keep) == start@.evicted + dropped(
                    start@.entries,
                    start@.cap,
                    keep,
                ),
            ensures
                self.wf(),
                self@.entries == fitted(start@.entries, start@.cap, keep),
                self@.cap == start@.cap,
                self@.evicted == start@.evicted + dropped(start@.entries, start@.cap, keep),
            decreases self@.entries.len(),
        {
            proof {
                self.lemma_shaped();
                assert(self.order@.last() == self.tail->0);
                assert(self@.entries.last() == self.slot(self.tail->0));
                if let Some(i) = keep_idx {
                    assert(self.order@[self.rank(i)] == i);
                    assert(position(self@.entries, self.slot(i).0) == self.rank(i));
                    assert(position(self@.entries, self.slot(self.tail->0).0) == self.order@.len()
                        - 1);
                }
            }
            if self.tail == keep_idx {
                assert(self@.evicted =~= start@.evicted + dropped(
                    start@.entries,
                    start@.cap,
                    keep,
                ));
                break;
            }
            let t: usize = self.tail.unwrap();
            assert(self.occupied(t));
            // The key is kept for the log, so that a replay drops it too.
            let evicted_key: Vec<u8> = to_vec(self.nodes[t].as_ref().unwrap().key.as_slice());
            let ghost here = *self;
            self.evict_lru();
            let ghost there = *self;
            self.evicted.push(evicted_key);
            proof {
                self.lemma_frame(&there);
                assert(self@.evicted =~= here@.evicted.push(here@.entries.last().0));
                assert(self@.evicted + dropped(self@.entries, self@.cap, keep) =~= here@.evicted
                    + dropped(here@.entries, here@.cap, keep));
                if let Some(i) = keep_idx {
                    assert(here.in_list(i));
                    assert(there.in_list(i));
                }
            }
        }
        assert(self@ =~= start@.fit(keep));
    }

    /// The accounted size of the entry in a slot.
    pub fn node_size(&self, idx: usize) -> (r: usize)
        requires
            self.wf(),
            self.in_list(idx),
        ensures
            r == size_of_entry(self.slot(idx).0, self.slot(idx).1.value),
            r <= self@.used(),
            self@.used() <= usize::MAX,
    {
        proof {
            self.lemma_shaped();
            assert(self.order@[self.rank(idx)] == idx);
            lemma_total_member(record_sizes(self@.entries), self.rank(idx));
        }
        self.slot_size(idx)
    }

    /// The accounted size of the entry in an occupied slot.
    fn slot_size(&self, idx: usize) -> (r: usize)
        requires
            self.occupied(idx),
            size_of_entry(self.slot(idx).0, self.slot(idx).1.value) <= usize::MAX,
        ensures
            r == size_of_entry(self.slot(idx).0, self.slot(idx).1.value),
    {
        let n: &Node = self.nodes[idx].as_ref().unwrap();
        entry_size(n.key.as_slice(), &n.value)
    }

    /// Create a brand-new key at the MRU position and return its slab index.
    pub fn create(&mut self, key: Vec<u8>, value: Value, expires_at: Option<u64>, now: u64) -> (r:
        usize)
        requires
            old(self).wf(),
            value.wf(),
            !has_key(old(self)@.entries, key@),
            old(self)@.used() + size_of_entry(key@, value@) <= usize::MAX,
        ensures
            final(self).wf(),
            final(self)@ == old(self)@.with_front(
                key@,
                Record { value: value@, expires_at, last_accessed: now },
            ),
            final(self).in_list(r),
            final(self).slot(r) == final(self)@.entries[0],
            final(self)@.used() == old(self)@.used() + size_of_entry(key@, value@),
            !old(self).in_list(r),
            old(self).spare().len() > 0 ==> r == old(self).spare().last() && final(self).spare()
                == old(self).spare().drop_last() && final(self).slots() == old(self).slots(),
            old(self).spare().len() == 0 ==> r == old(self).slots() && final(self).spare().len()
                == 0 && final(self).slots() == old(self).slots() + 1,
    {
        let ghost start = *self;
        proof {
            self.lemma_shaped();
        }
        let sz: usize = entry_size(key.as_slice(), &value);
        let node = Node {
            key: to_vec(key.as_slice()),
            value,
            expires_at,
            last_accessed: now,
            prev: None,
            next: None,
        };
        let ghost fresh = node;
        let idx: usize = self.alloc_slot(node);
        let ghost a = *self;
        self.map.insert(key, idx);
        self.used = self.used + sz;
        let ghost b = *self;
        proof {
            assert forall|p: usize| #[trigger] b.vacant(p) implies b.free@.contains(p) by {
                assert(a.vacant(p));
            }
            start.map.lemma_wf();
            law_bound(start.map@, key@, idx);
            assert(b.linked()) by {
                assert forall|j: int| 0 <= j < b.order@.len() implies #[trigger] b.chained(j) by {
                    assert(a.chained(j));
                }
            }
            assert(b.indexed()) by {
                assert forall|p: usize| #[trigger] b.occupied(p) implies value_of(
                    b.map@,
                    b.node(p).key@,
                ) == Some(p) && b.node(p).value.wf() by {
                    assert(a.occupied(p));
                    if p != idx {
                        assert(start.occupied(p));
                        assert(has_key(start.map@, start.node(p).key@));
                    }
                }
                assert forall|k: Seq<u8>| #[trigger] has_key(b.map@, k) implies b.occupied(
                    value_of(b.map@, k)->0,
                ) && b.node(value_of(b.map@, k)->0).key@ == k by {
                    if k != key@ {
                        assert(has_key(start.map@, k));
                        let p = value_of(start.map@, k)->0;
                        assert(start.occupied(p));
                        assert(a.occupied(p));
                    }
                }
            }
        }
        self.push_front(idx);
        proof {
            self.lemma_same_store(&b);
            let o = self.order@;
            assert forall|p: usize| #[trigger] self.occupied(p) implies o.contains(p) by {
                assert(b.occupied(p));
                assert(a.occupied(p));
                if p == idx {
                    assert(o[0] == p);
                } else {
                    assert(start.occupied(p));
                    assert(o[start.order@.index_of(p) + 1] == p);
                }
            }
            let e = start@.with_front(
                key@,
                Record { value: value@, expires_at, last_accessed: now },
            ).entries;
            assert(b.occupied(idx));
            assert forall|j: int| 0 <= j < start.order@.len() implies self.slot(
                #[trigger] start.order@[j],
            ) == start@.entries[j] by {
                let p = start.order@[j];
                assert(start.occupied(p));
                assert(a.occupied(p));
                assert(b.occupied(p));
            }
            assert(self@.entries =~= e);
            assert(o[0] == idx);
            lemma_total_concat(seq![sz as nat], record_sizes(start@.entries));
            assert(seq![sz as nat] + record_sizes(start@.entries) =~= record_sizes(e));
            lemma_total_push(seq![], sz as nat);
            assert(Seq::<nat>::empty().push(sz as nat) =~= seq![sz as nat]);
        }
        idx
    }

    /// Nothing but the content of the slot `idx`, and maybe the counters, differs.
    spec fn rewritten(&self, other: &LruCache, idx: usize, node: Node) -> bool {
        &&& self.map == other.map
        &&& self.free == other.free
        &&& self.head == other.head
        &&& self.tail == other.tail
        &&& self.order == other.order
        &&& self.nodes@ == other.nodes@.update(idx as int, Some(node))
        &&& node.key@ == other.node(idx).key@
        &&& node.prev == other.node(idx).prev
        &&& node.next == other.node(idx).next
    }

    /// New content in a slot keeps the cache in shape.
    proof fn lemma_rewritten(&self, other: &LruCache, idx: usize, node: Node)
        requires
            other.shaped(),
            other.in_list(idx),
            self.rewritten(other, idx, node),
            node.value.wf(),
        ensures
            self.shaped(),
            self@.entries == other@.entries.update(other.rank(idx), node.entry()),
            used_bytes(self@.entries) == used_bytes(other@.entries) - size_of_entry(
                other.slot(idx).0,
                other.slot(idx).1.value,
            ) + size_of_entry(node.key@, node.value@),
            size_of_entry(other.slot(idx).0, other.slot(idx).1.value) <= used_bytes(
                other@.entries,
            ),
            self.slot(idx) == node.entry(),
            self.rank(idx) == other.rank(idx),
            self.in_list(idx),
            self.list() == other.list(),
            self.occupied(idx),
    {
        other.lemma_shaped();
        let i = other.rank(idx);
        assert(other.order@[i] == idx);
        assert(other.occupied(idx));
        assert forall|p: usize| #[trigger] self.occupied(p) == other.occupied(p) by {}
        assert forall|j: int| 0 <= j < self.order@.len() implies #[trigger] self.chained(j) by {
            assert(other.chained(j));
        }
        assert forall|p: usize| #[trigger] self.occupied(p) implies value_of(
            self.map@,
            self.node(p).key@,
        ) == Some(p) && self.node(p).value.wf() && self.order@.contains(p) by {
            assert(other.occupied(p));
        }
        assert forall|k: Seq<u8>| #[trigger] has_key(self.map@, k) implies self.occupied(
            value_of(self.map@, k)->0,
        ) && self.node(value_of(self.map@, k)->0).key@ == k by {
            assert(other.occupied(value_of(other.map@, k)->0));
        }
        assert(self.slab_ok()) by {
            assert forall|j: int| 0 <= j < self.free@.len() implies (#[trigger] self.free@[j])
                < self.nodes@.len() && self.nodes@[self.free@[j] as int] is None by {
                assert(!other.occupied(self.free@[j]));
            }
            assert forall|p: usize| #[trigger] self.vacant(p) implies self.free@.contains(p) by {
                assert(other.vacant(p));
            }
        }
        assert(self@.entries =~= other@.entries.update(i, node.entry())) by {
            assert forall|j: int| 0 <= j < self.order@.len() && j != i implies self.order@[j]
                != idx by {}
        }
        let sizes = record_sizes(other@.entries);
        assert(record_sizes(self@.entries) =~= sizes.update(
            i,
            size_of_entry(node.key@, node.value@),
        ));
        lemma_total_update(sizes, i, size_of_entry(node.key@, node.value@));
        lemma_total_member(sizes, i);
    }

    /// SET: insert/replace a key with optional expiry.
    pub fn set(&mut self, key: Vec<u8>, value: Value, expires_at: Option<u64>, now: u64)
        requires
            old(self).wf(),
            value.wf(),
            old(self)@.used() + size_of_entry(key@, value@) <= usize::MAX,
        ensures
            final(self).wf(),
            final(self)@ == old(self)@.stored(key@, value@, expires_at, now),
    {
        let ghost start = *self;
        let ghost record = Record { value: value@, expires_at, last_accessed: now };
        proof {
            self.lemma_shaped();
        }
        match self.map.find(key.as_slice()) {
            Some(at) => {
                let idx: usize = *self.map.value_at(at);
                let ghost i = self.rank(idx);
                proof {
                    assert(has_key(self@.entries, key@));
                    assert(value_of(self.map@, key@) == Some(idx));
                    assert(self.order@[position(self@.entries, key@)] == idx);
                    assert(self.order@[i] == idx);
                    assert(self.occupied(idx));
                    assert(position(self@.entries, self.slot(idx).0) == i);
                    assert(self@.entries[i].0 == key@);
                    lemma_total_member(record_sizes(self@.entries), i);
                }
                let old_sz: usize = self.slot_size(idx);
                self.nodes[idx].as_mut().unwrap().value = value;
                self.nodes[idx].as_mut().unwrap().expires_at = expires_at;
                self.nodes[idx].as_mut().unwrap().last_accessed = now;
                let ghost b = *self;
                proof {
                    let node = Node {
                        value,
                        expires_at,
                        last_accessed: now,
                        ..start.node(idx)
                    };
                    assert(b.nodes@ =~= start.nodes@.update(idx as int, Some(node)));
                    b.lemma_rewritten(&start, idx, node);
                }
                let new_sz: usize = self.slot_size(idx);
                self.used = self.used - old_sz + new_sz;
                let ghost c = *self;
                proof {
                    c.lemma_frame(&b);
                }
                self.move_to_front(idx);
                proof {
                    self.lemma_reordered(&c, i);
                    c.lemma_shaped();
                    self.lemma_shaped();
                    assert(self.order@[0] == idx);
                    assert(self@.entries =~= start@.with_front(key@, record).entries);
                    assert(self@ =~= start@.with_front(key@, record));
                    let sizes = record_sizes(c@.entries);
                    lemma_total_remove(sizes, i);
                    lemma_total_concat(seq![sizes[i]], sizes.remove(i));
                    lemma_total_push(seq![], sizes[i]);
                    assert(Seq::<nat>::empty().push(sizes[i]) =~= seq![sizes[i]]);
                    assert(record_sizes(self@.entries) =~= seq![sizes[i]] + sizes.remove(i));
                }
                self.enforce_cap(Some(idx));
            },
            None => {
                assert(!has_key(self@.entries, key@));
                let idx: usize = self.create(key, value, expires_at, now);
                self.enforce_cap(Some(idx));
            },
        }
    }

    /// Look up a live key: applies lazy expiration, and on a hit promotes it to
    /// MRU and updates `last_accessed`. Returns the slab index, or None if the
    /// key is absent or expired (expired keys are dropped here).
    pub fn live_idx(&mut self, key: &[u8], now: u64) -> (r: Option<usize>)
        requires
            old(self).wf(),
        ensures
            final(self).wf(),
            final(self)@ == old(self)@.looked_up(key@, now),
            final(self)@.used() <= old(self)@.used(),
            r is Some <==> old(self)@.live(key@, now) is Some,
            r is None ==> !has_key(final(self)@.entries, key@),
            r matches Some(idx) ==> {
                &&& final(self).in_list(idx)
                &&& final(self).slot(idx) == final(self)@.entries[0]
                &&& final(self).slot(idx).0 == key@
                &&& final(self).slot(idx).1.value == old(self)@.live(key@, now)->0
            },
    {
        let ghost start = *self;
        proof {
            self.lemma_shaped();
        }
        let idx: usize = match self.map.find(key) {
            Some(at) => *self.map.value_at(at),
            None => {
                assert(!has_key(self@.entries, key@));
                return None;
            },
        };
        let ghost i = self.rank(idx);
        proof {
            assert(has_key(self@.entries, key@));
            assert(value_of(self.map@, key@) == Some(idx));
            assert(self.order@[position(self@.entries, key@)] == idx);
            assert(self.order@[i] == idx);
            assert(self.occupied(idx));
            assert(position(self@.entries, self.slot(idx).0) == i);
            assert(self@.entries[i].0 == key@);
        }
        if let Some(exp) = self.nodes[idx].as_ref().unwrap().expires_at {
            if exp <= now {
                self.remove_idx(idx);
                return None;
            }
        }
        self.nodes[idx].as_mut().unwrap().last_accessed = now;
        let ghost b = *self;
        proof {
            let node = Node { last_accessed: now, ..start.node(idx) };
            assert(b.nodes@ =~= start.nodes@.update(idx as int, Some(node)));
            b.lemma_rewritten(&start, idx, node);
        }
        self.move_to_front(idx);
        proof {
            self.lemma_reordered(&b, i);
            self.lemma_shaped();
            assert(self.order@[0] == idx);
            let record = Record { last_accessed: now, ..start@.entries[i].1 };
            assert(self@.entries =~= start@.with_front(key@, record).entries);
            assert(self@ =~= start@.with_front(key@, record));
            let sizes = record_sizes(b@.entries);
            lemma_total_remove(sizes, i);
            lemma_total_concat(seq![sizes[i]], sizes.remove(i));
            lemma_total_push(seq![], sizes[i]);
            assert(Seq::<nat>::empty().push(sizes[i]) =~= seq![sizes[i]]);
            assert(record_sizes(self@.entries) =~= seq![sizes[i]] + sizes.remove(i));
        }
        Some(idx)
    }

    /// The value in a slot.
    pub fn value_ref(&self, idx: usize) -> (r: &Value)
        requires
            self.shaped(),
            self.in_list(idx),
        ensures
            r@ == self.slot(idx).1.value,
            r.wf(),
    {
        proof {
            self.lemma_shaped();
            assert(self.order@[self.rank(idx)] == idx);
        }
        &self.nodes[idx].as_ref().unwrap().value
    }

    /// The value under a live key, without counting as an access.
    pub fn peek(&self, key: &[u8], now: u64) -> (r: Option<&Value>)
        requires
            self.wf(),
        ensures
            match r {
                Some(v) => self@.live(key@, now) == Some(v@),
                None => self@.live(key@, now) is None,
            },
    {
        proof {
            self.lemma_shaped();
        }
        let idx: usize = match self.map.find(key) {
            Some(at) => *self.map.value_at(at),
            None => {
                assert(!has_key(self@.entries, key@));
                return None;
            },
        };
        proof {
            assert(has_key(self@.entries, key@));
            assert(value_of(self.map@, key@) == Some(idx));
            assert(self.order@[position(self@.entries, key@)] == idx);
            assert(self.occupied(idx));
        }
        let node: &Node = self.nodes[idx].as_ref().unwrap();
        if let Some(exp) = node.expires_at {
            if exp <= now {
                return None;
            }
        }
        Some(&node.value)
    }

    /// The cache is in order but for the byte counter, which still counts `old` for
    /// the entry in the slot `idx`.
    pub open spec fn unsettled(&self, idx: usize, old: nat) -> bool {
        &&& self.shaped()
        &&& self.in_list(idx)
        &&& old <= self.counter()
        &&& self.counter() + size_of_entry(self.slot(idx).0, self.slot(idx).1.value)
            == self@.used() + old
    }

    /// The value in a slot, to be changed. After a change the counter has to be
    /// settled with `commit`.
    pub fn value_mut(&mut self, idx: usize) -> (r: &mut Value)
        requires
            old(self).wf(),
            old(self).in_list(idx),
        ensures
            r@ == old(self).slot(idx).1.value,
            r.wf(),
            final(r).wf() ==> final(self).unsettled(
                idx,
                size_of_entry(old(self).slot(idx).0, old(self).slot(idx).1.value),
            ),
            final(self).counter() == old(self).counter(),
            final(r).wf() ==> final(self)@ == old(self)@.revalued(
                old(self).slot(idx).0,
                final(r)@,
            ),
            final(r).wf() ==> final(self).slot(idx) == (
                old(self).slot(idx).0,
                Record { value: final(r)@, ..old(self).slot(idx).1 },
            ),
    {
        let ghost start = *self;
        proof {
            self.lemma_shaped();
            assert(self.order@[self.rank(idx)] == idx);
            assert(self.occupied(idx));
        }
        proof {
            let size = size_of_entry(start.slot(idx).0, start.slot(idx).1.value);
            assert forall|c: LruCache|
                c.rewritten(
                    &start,
                    idx,
                    Node { value: c.node(idx).value, ..start.node(idx) },
                ) && c.node(idx).value.wf() && c.used == start.used && c.cap == start.cap
                    && c.evicted == start.evicted implies #[trigger] c.unsettled(idx, size) && c@
                == start@.revalued(start.slot(idx).0, c.node(idx).value@) && c.slot(idx) == (
                start.slot(idx).0,
                Record { value: c.node(idx).value@, ..start.slot(idx).1 },
            ) by {
                c.lemma_rewritten(
                    &start,
                    idx,
                    Node { value: c.node(idx).value, ..start.node(idx) },
                );
                assert(c@ =~= start@.revalued(start.slot(idx).0, c.node(idx).value@));
            }
        }
        let node: &mut Node = self.nodes[idx].as_mut().unwrap();
        &mut node.value
    }

    /// After mutating the value at `idx`, reconcile the byte counter against its
    /// pre-mutation size (`was`). Drops the key if it became an empty collection;
    /// otherwise enforces the RAM cap.
    pub fn commit(&mut self, idx: usize, was: usize)
        requires
            old(self).unsettled(idx, was as nat),
            old(self)@.used() <= usize::MAX,
        ensures
            final(self).wf(),
            final(self)@ == old(self)@.settled(old(self).slot(idx).0),
    {
        let ghost start = *self;
        let ghost key = self.slot(idx).0;
        let ghost i = self.rank(idx);
        proof {
            self.lemma_shaped();
            assert(self.order@[i] == idx);
            assert(self@.entries[i] == self.slot(idx));
            assert(position(self@.entries, key) == i);
            lemma_total_member(record_sizes(self@.entries), i);
        }
        let new: usize = self.slot_size(idx);
        if new >= was {
            self.used = self.used + (new - was);
        } else {
            self.used = self.used - (was - new);
        }
        proof {
            self.lemma_frame(&start);
            assert(self@ == start@);
        }
        if self.value_ref(idx).is_empty_collection() {
            self.remove_idx(idx);
        } else {
            self.enforce_cap(Some(idx));
        }
    }

    /// Explicitly remove a key (any type). Returns true if it existed and was
    /// not already expired.
    pub fn del(&mut self, key: &[u8], now: u64) -> (r: bool)
        requires
            old(self).wf(),
        ensures
            final(self).wf(),
            final(self)@ == old(self)@.without(key@),
            r == old(self)@.live(key@, now) is Some,
    {
        proof {
            self.lemma_shaped();
        }
        let idx: usize = match self.map.find(key) {
            Some(at) => *self.map.value_at(at),
            None => {
                assert(!has_key(self@.entries, key@));
                return false;
            },
        };
        proof {
            assert(has_key(self@.entries, key@));
            assert(value_of(self.map@, key@) == Some(idx));
            assert(self.order@[position(self@.entries, key@)] == idx);
            assert(self.order@[self.rank(idx)] == idx);
            assert(self.occupied(idx));
        }
        let expired: bool = match self.nodes[idx].as_ref().unwrap().expires_at {
            Some(e) => e <= now,
            None => false,
        };
        self.remove_idx(idx);
        !expired
    }

    /// Wipe all data instantly and release backing capacity.
    pub fn flush(&mut self)
        ensures
            final(self).wf(),
            final(self)@ == old(self)@.flushed(),
            final(self).slots() == 0,
            final(self).spare().len() == 0,
            final(self).list().len() == 0,
    {
        self.map = ByteMap::new();
        self.nodes = Vec::new();
        self.free = Vec::new();
        self.head = None;
        self.tail = None;
        self.used = 0;
        self.order = Ghost(Seq::empty());
        assert(self@.entries =~= seq![]);
        assert(record_sizes(self@.entries) =~= seq![]);
    }

    /// Accounted bytes.
    pub fn used(&self) -> (r: usize)
        requires
            self.wf(),
        ensures
            r == self@.used(),
    {
        self.used
    }

    /// Hard RAM ceiling in bytes.
    pub fn cap(&self) -> (r: usize)
        ensures
            r == self@.cap,
    {
        self.cap
    }

    /// The number of keys, expired ones not yet dropped included.
    pub fn len(&self) -> (r: usize)
        requires
            self.wf(),
        ensures
            r == self@.entries.len(),
    {
        self.map.len()
    }

    /// Hands over the keys dropped by capacity eviction and forgets them.
    pub fn drain_evicted(&mut self) -> (r: Vec<Vec<u8>>)
        ensures
            old(self).wf() ==> final(self).wf(),
            final(self)@ == (CacheView { evicted: seq![], ..old(self)@ }),
            r@.map_values(|k: Vec<u8>| k@) == old(self)@.evicted,
    {
        let ghost start = *self;
        let mut r: Vec<Vec<u8>> = Vec::new();
        r.append(&mut self.evicted);
        assert(r@ =~= start.evicted@);
        proof {
            if start.shaped() {
                self.lemma_frame(&start);
            }
            assert(self@.entries =~= start@.entries);
            assert(self@.evicted =~= seq![]);
        }
        r
    }

    /// Snapshot for the dashboard: (key, type, size_bytes, element_count, ttl), the most
    /// recently used key first. Expired entries are skipped (but not removed here — that
    /// stays lazy).
    pub fn snapshot(&self, now: u64) -> (r: Vec<KeyInfo>)
        requires
            self.wf(),
        ensures
            r@.map_values(|i: KeyInfo| info_view(i)) == snapshot_of(self@.entries, now),
    {
        let mut out: Vec<KeyInfo> = Vec::new();
        let mut at: Option<usize> = self.head;
        let ghost e = self@.entries;
        let ghost mut n: int = 0;
        proof {
            self.lemma_shaped();
            assert(e.take(0) =~= seq![]);
            assert(out@.map_values(|i: KeyInfo| info_view(i)) =~= seq![]);
        }
        while at.is_some()
            invariant
                self.wf(),
                e == self@.entries,
                0 <= n <= e.len(),
                e.len() == self.order@.len(),
                at == (if n == self.order@.len() {
                    None
                } else {
                    Some(self.order@[n])
                }),
                out@.map_values(|i: KeyInfo| info_view(i)) == snapshot_of(e.take(n), now),
            decreases e.len() - n,
        {
            let idx: usize = at.unwrap();
            proof {
                self.lemma_shaped();
                assert(self.chained(n));
                assert(e[n] == self.slot(idx));
                lemma_total_member(record_sizes(e), n);
                assert(e.take(n + 1).drop_last() =~= e.take(n));
            }
            let ghost held = out@.map_values(|i: KeyInfo| info_view(i));
            let node: &Node = self.nodes[idx].as_ref().unwrap();
            let hidden: bool = match node.expires_at {
                Some(t) => t <= now,
                None => false,
            };
            if !hidden {
                let ttl: Option<u64> = match node.expires_at {
                    Some(t) => Some(t - now),
                    None => None,
                };
                let info: KeyInfo = (
                    to_vec(node.key.as_slice()),
                    node.value.kind_name(),
                    node.value.mem_size(),
                    node.value.cardinality(),
                    ttl,
                );
                out.push(info);
                assert(out@.map_values(|i: KeyInfo| info_view(i)) =~= held.push(info_view(info)));
            }
            at = node.next;
            proof {
                n = n + 1;
            }
        }
        assert(e.take(n) =~= e);
        out
    }

    /// The number of keys that are live at `now`.
    pub fn live_len(&self, now: u64) -> (r: usize)
        requires
            self.wf(),
        ensures
            r == snapshot_of(self@.entries, now).len(),
    {
        let mut count: usize = 0;
        let mut at: Option<usize> = self.head;
        let ghost e = self@.entries;
        let ghost mut n: int = 0;
        let total: usize = self.map.len();
        proof {
            self.lemma_shaped();
            assert(e.take(0) =~= seq![]);
        }
        while at.is_some()
            invariant
                self.wf(),
                e == self@.entries,
                0 <= n <= e.len(),
                e.len() == self.order@.len(),
                e.len() == total,
                count <= n,
                at == (if n == self.order@.len() {
                    None
                } else {
                    Some(self.order@[n])
                }),
                count == snapshot_of(e.take(n), now).len(),
            decreases e.len() - n,
        {
            let idx: usize = at.unwrap();
            proof {
                self.lemma_shaped();
                assert(self.chained(n));
                assert(e[n] == self.slot(idx));
                assert(e.take(n + 1).drop_last() =~= e.take(n));
            }
            let node: &Node = self.nodes[idx].as_ref().unwrap();
            let hidden: bool = match node.expires_at {
                Some(t) => t <= now,
                None => false,
            };
            if !hidden {
                count = count + 1;
            }
            at = node.next;
            proof {
                n = n + 1;
            }
        }
        assert(e.take(n) =~= e);
        count
    }

    /// Serialize the entire live dataset into the minimal set of AOF frames that
    /// recreate it — the basis of log compaction (rewrite). Expired entries are
    /// skipped; a string's TTL is emitted as an **absolute** expiry (the format
    /// the replay path expects). Collections never carry a TTL in this protocol.
    /// The least recently used key comes first, so that replay ends with the same
    /// order of recency.
    pub fn dump_frames(&self, now: u64) -> (r: Vec<Vec<u8>>)
        requires
            self.wf(),
        ensures
            items_view(r@) == dump_of(self@.entries, now),
    {
        let mut out: Vec<Vec<u8>> = Vec::new();
        let mut at: Option<usize> = self.tail;
        let ghost e = self@.entries;
        let ghost mut n: int = e.len() as int;
        proof {
            self.lemma_shaped();
            assert(e.take(n) =~= e);
            assert(items_view(out@) + dump_of(e.take(n), now) =~= dump_of(e, now));
        }
        while at.is_some()
            invariant
                self.wf(),
                e == self@.entries,
                0 <= n <= e.len(),
                e.len() == self.order@.len(),
                at == (if n == 0 {
                    None
                } else {
                    Some(self.order@[n - 1])
                }),
                items_view(out@) + dump_of(e.take(n), now) == dump_of(e, now),
            decreases n,
        {
            let idx: usize = at.unwrap();
            proof {
                self.lemma_shaped();
                assert(self.chained(n - 1));
                assert(e[n - 1] == self.slot(idx));
                assert(e.take(n).drop_last() =~= e.take(n - 1));
            }
            let ghost held = items_view(out@);
            let node: &Node = self.nodes[idx].as_ref().unwrap();
            let hidden: bool = match node.expires_at {
                Some(t) => t <= now,
                None => false,
            };
            if !hidden {
                let ttl: u32 = match node.expires_at {
                    Some(t) => (t % 4294967296) as u32,
                    None => 0,
                };
                put_value_frames(&mut out, node.key.as_slice(), &node.value, ttl);
            }
            at = node.prev;
            proof {
                assert(items_view(out@) =~= held + frames_of(record_requests(e[n - 1], now)));
                assert(dump_of(e.take(n), now) =~= frames_of(record_requests(e[n - 1], now))
                    + dump_of(e.take(n - 1), now));
                assert(items_view(out@) + dump_of(e.take(n - 1), now) =~= held + dump_of(
                    e.take(n),
                    now,
                ));
                n = n - 1;
            }
        }
        assert(items_view(out@) =~= dump_of(e, now));
        out
    }
}

} // verus!
