//! A hash map keyed by byte strings.
//!
//! Entries sit side by side in a vector; a second table leads from the hash of
//! a key to the positions of the entries whose keys have that hash. Lookup,
//! insertion and removal take constant expected time, and the entries can be
//! walked by position.
use std::collections::hash_map::DefaultHasher;
use std::collections::HashMap;
use std::hash::Hasher;
use vstd::prelude::*;
use vstd::std_specs::hash::DefaultHasherAdditionalSpecFns;

use crate::bytes::bytes_eq;

verus! {

broadcast use vstd::std_specs::hash::group_hash_axioms;

/// The hash of a key.
spec fn hash_spec(key: Seq<u8>) -> u64 {
    DefaultHasher::spec_finish(seq![key])
}

fn hash_of(key: &[u8]) -> (h: u64)
    ensures
        h == hash_spec(key@),
{
    let mut state = DefaultHasher::new();
    state.write(key);
    assert(state@ =~= seq![key@]);
    state.finish()
}

/// A map from byte strings to `V`.
pub struct ByteMap<V> {
    entries: Vec<(Vec<u8>, V)>,
    buckets: HashMap<u64, Vec<usize>>,
}

/// The position at which `key` is stored, or the length of `s` if it is not.
pub open spec fn position<V>(s: Seq<(Seq<u8>, V)>, key: Seq<u8>) -> int
    decreases s.len(),
{
    if s.len() == 0 {
        0
    } else if s[0].0 == key {
        0
    } else {
        1 + position(s.drop_first(), key)
    }
}

/// Whether `key` is stored in `s`.
pub open spec fn has_key<V>(s: Seq<(Seq<u8>, V)>, key: Seq<u8>) -> bool {
    exists|i: int| 0 <= i < s.len() && (#[trigger] s[i]).0 == key
}

/// No two entries have the same key.
pub open spec fn distinct_keys<V>(s: Seq<(Seq<u8>, V)>) -> bool {
    forall|i: int, j: int| 0 <= i < j < s.len() ==> (#[trigger] s[i]).0 != (#[trigger] s[j]).0
}

/// The value stored under `key`.
pub open spec fn value_of<V>(s: Seq<(Seq<u8>, V)>, key: Seq<u8>) -> Option<V> {
    if has_key(s, key) {
        Some(s[position(s, key)].1)
    } else {
        None
    }
}

/// `s` after `key` is bound to `value`: in place if the key is there, else at the end.
pub open spec fn bound<V>(s: Seq<(Seq<u8>, V)>, key: Seq<u8>, value: V) -> Seq<(Seq<u8>, V)> {
    if has_key(s, key) {
        s.update(position(s, key), (key, value))
    } else {
        s.push((key, value))
    }
}

/// `s` after `key` is removed: the last entry takes the place of the removed one.
pub open spec fn unbound<V>(s: Seq<(Seq<u8>, V)>, key: Seq<u8>) -> Seq<(Seq<u8>, V)> {
    if has_key(s, key) {
        s.update(position(s, key), s.last()).drop_last()
    } else {
        s
    }
}

/// A position at which a key stands is the one that `position` finds.
pub proof fn lemma_position<V>(s: Seq<(Seq<u8>, V)>, key: Seq<u8>)
    ensures
        0 <= position(s, key) <= s.len(),
        has_key(s, key) ==> position(s, key) < s.len() && s[position(s, key)].0 == key,
        !has_key(s, key) ==> position(s, key) == s.len(),
        forall|i: int| 0 <= i < position(s, key) ==> (#[trigger] s[i]).0 != key,
    decreases s.len(),
{
    if s.len() > 0 && s[0].0 != key {
        let t = s.drop_first();
        lemma_position(t, key);
        if has_key(s, key) {
            let i = choose|i: int| 0 <= i < s.len() && (#[trigger] s[i]).0 == key;
            assert(t[i - 1].0 == key);
        }
        if has_key(t, key) {
            let i = choose|i: int| 0 <= i < t.len() && (#[trigger] t[i]).0 == key;
            assert(s[i + 1].0 == key);
        }
        assert forall|i: int| 0 <= i < position(s, key) implies (#[trigger] s[i]).0 != key by {
            if i > 0 {
                assert(t[i - 1] == s[i]);
            }
        }
    }
}

/// With distinct keys, the position of a key that stands at `i` is `i`.
pub proof fn lemma_position_at<V>(s: Seq<(Seq<u8>, V)>, i: int)
    requires
        distinct_keys(s),
        0 <= i < s.len(),
    ensures
        has_key(s, s[i].0),
        position(s, s[i].0) == i,
{
    lemma_position(s, s[i].0);
    let p = position(s, s[i].0);
    if p < i {
        assert(s[p].0 != s[i].0);
    }
}

/// Binding and removing keep the keys distinct.
pub proof fn lemma_distinct<V>(s: Seq<(Seq<u8>, V)>, key: Seq<u8>, value: V)
    requires
        distinct_keys(s),
    ensures
        distinct_keys(bound(s, key, value)),
        distinct_keys(unbound(s, key)),
{
    lemma_position(s, key);
    let u = unbound(s, key);
    if has_key(s, key) {
        assert forall|i: int, j: int| 0 <= i < j < u.len() implies (#[trigger] u[i]).0 != (
        #[trigger] u[j]).0 by {
            let n = s.len() - 1;
            let a = if i == position(s, key) { n } else { i };
            let b = if j == position(s, key) { n } else { j };
            assert(u[i] == s[a] && u[j] == s[b]);
            if a < b {
                assert(s[a].0 != s[b].0);
            } else {
                assert(s[b].0 != s[a].0);
            }
        }
    }
}

/// After a key is bound it has the new value, and every other key keeps its own.
pub proof fn law_bound<V>(s: Seq<(Seq<u8>, V)>, key: Seq<u8>, value: V)
    requires
        distinct_keys(s),
    ensures
        forall|k: Seq<u8>| #[trigger]
            has_key(bound(s, key, value), k) == (has_key(s, k) || k == key),
        forall|k: Seq<u8>|
            k != key ==> #[trigger] value_of(bound(s, key, value), k) == value_of(s, k),
        value_of(bound(s, key, value), key) == Some(value),
        bound(s, key, value).len() == s.len() + (if has_key(s, key) {
            0int
        } else {
            1
        }),
{
    let u = bound(s, key, value);
    lemma_position(s, key);
    lemma_distinct(s, key, value);
    let i = position(s, key);
    assert(u[i] == (key, value));
    lemma_position_at(u, i);
    assert forall|k: Seq<u8>| #[trigger] has_key(u, k) == (has_key(s, k) || k == key) && (k != key
        ==> value_of(u, k) == value_of(s, k)) by {
        lemma_position(s, k);
        lemma_position(u, k);
        if has_key(u, k) && k != key {
            assert(s[position(u, k)] == u[position(u, k)]);
        }
        if has_key(s, k) && k != key {
            let j = position(s, k);
            assert(u[j] == s[j]);
            lemma_position_at(u, j);
        }
    }
    assert forall|k: Seq<u8>| k != key implies #[trigger] value_of(u, k) == value_of(s, k) by {
        assert(has_key(u, k) == (has_key(s, k) || k == key));
    }
}

/// After a key is removed it is gone, and every other key keeps its value.
pub proof fn law_unbound<V>(s: Seq<(Seq<u8>, V)>, key: Seq<u8>)
    requires
        distinct_keys(s),
    ensures
        forall|k: Seq<u8>| #[trigger]
            has_key(unbound(s, key), k) == (has_key(s, k) && k != key),
        forall|k: Seq<u8>| k != key ==> #[trigger] value_of(unbound(s, key), k) == value_of(s, k),
        has_key(s, key) ==> unbound(s, key).len() == s.len() - 1,
{
    let u = unbound(s, key);
    lemma_position(s, key);
    if has_key(s, key) {
        let i = position(s, key);
        lemma_distinct(s, key, s[i].1);
        assert forall|k: Seq<u8>| #[trigger] has_key(u, k) == (has_key(s, k) && k != key) && (k
            != key ==> value_of(u, k) == value_of(s, k)) by {
            lemma_position(s, k);
            lemma_position(u, k);
            if has_key(u, k) {
                let j = position(u, k);
                let m = if j == i { s.len() - 1 } else { j };
                assert(s[m] == u[j]);
                lemma_position_at(s, m);
                lemma_position_at(s, i);
            }
            if has_key(s, k) && k != key {
                let m = position(s, k);
                let j = if m == s.len() - 1 { i } else { m };
                assert(u[j] == s[m]);
                lemma_position_at(u, j);
            }
        }
        assert forall|k: Seq<u8>| k != key implies #[trigger] value_of(u, k) == value_of(s, k) by {
            assert(has_key(u, k) == (has_key(s, k) && k != key));
        }
    }
}

/// Each value replaced by its image under `f`.
pub open spec fn mapped<V, W>(s: Seq<(Seq<u8>, V)>, f: spec_fn(V) -> W) -> Seq<(Seq<u8>, W)> {
    s.map_values(|e: (Seq<u8>, V)| (e.0, f(e.1)))
}

/// Mapping the values commutes with the map operations.
pub proof fn lemma_mapped<V, W>(
    s: Seq<(Seq<u8>, V)>,
    key: Seq<u8>,
    value: V,
    f: spec_fn(V) -> W,
)
    ensures
        position(mapped(s, f), key) == position(s, key),
        has_key(mapped(s, f), key) == has_key(s, key),
        mapped(bound(s, key, value), f) == bound(mapped(s, f), key, f(value)),
        mapped(unbound(s, key), f) == unbound(mapped(s, f), key),
        distinct_keys(mapped(s, f)) == distinct_keys(s),
        value_of(mapped(s, f), key) == (match value_of(s, key) {
            Some(v) => Some(f(v)),
            None => None,
        }),
{
    let t = mapped(s, f);
    lemma_position(s, key);
    lemma_position(t, key);
    assert(forall|i: int| 0 <= i < s.len() ==> (#[trigger] t[i]).0 == s[i].0);
    if has_key(s, key) {
        assert(t[position(s, key)].0 == key);
    }
    if has_key(t, key) {
        assert(s[position(t, key)].0 == key);
    }
    if position(t, key) < position(s, key) {
        assert(s[position(t, key)].0 == key);
    }
    if position(s, key) < position(t, key) {
        assert(t[position(s, key)].0 == key);
    }
    assert(mapped(bound(s, key, value), f) =~= bound(t, key, f(value)));
    assert(mapped(unbound(s, key), f) =~= unbound(t, key));
    if distinct_keys(t) {
        assert forall|i: int, j: int| 0 <= i < j < s.len() implies (#[trigger] s[i]).0 != (
        #[trigger] s[j]).0 by {
            assert(t[i].0 != t[j].0);
        }
    }
}

/// Of two bindings of one key the later one counts, and removing a key undoes a
/// binding of it.
pub proof fn lemma_rebound<V>(s: Seq<(Seq<u8>, V)>, key: Seq<u8>, first: V, second: V)
    requires
        distinct_keys(s),
    ensures
        bound(bound(s, key, first), key, second) == bound(s, key, second),
        has_key(s, key) ==> unbound(bound(s, key, first), key) == unbound(s, key),
{
    let u = bound(s, key, first);
    lemma_position(s, key);
    lemma_distinct(s, key, first);
    let i = position(s, key);
    assert(u[i] == (key, first));
    lemma_position_at(u, i);
    assert(bound(u, key, second) =~= bound(s, key, second));
    if has_key(s, key) {
        assert(unbound(u, key) =~= unbound(s, key));
    }
}

impl<V> View for ByteMap<V> {
    type V = Seq<(Seq<u8>, V)>;

    closed spec fn view(&self) -> Seq<(Seq<u8>, V)> {
        Seq::new(self.entries@.len(), |i: int| (self.entries@[i].0@, self.entries@[i].1))
    }
}

/// Whether position `p` is listed in bucket `h`.
spec fn listed(buckets: Map<u64, Vec<usize>>, h: u64, p: usize) -> bool {
    buckets.contains_key(h) && buckets[h]@.contains(p)
}

/// No bucket lists a position twice.
spec fn listed_once(buckets: Map<u64, Vec<usize>>) -> bool {
    forall|h: u64| #[trigger] buckets.contains_key(h) ==> buckets[h]@.no_duplicates()
}

/// A bucket lists exactly the positions of the keys that have its hash.
spec fn indexes<V>(buckets: Map<u64, Vec<usize>>, s: Seq<(Seq<u8>, V)>) -> bool {
    forall|h: u64, p: usize| #[trigger]
        listed(buckets, h, p) <==> p < s.len() && hash_spec(s[p as int].0) == h
}

/// Adds position `p` to bucket `h`.
fn list_position(buckets: &mut HashMap<u64, Vec<usize>>, h: u64, p: usize)
    requires
        listed_once(old(buckets)@),
        !listed(old(buckets)@, h, p),
    ensures
        listed_once(final(buckets)@),
        forall|g: u64, q: usize| #[trigger]
            listed(final(buckets)@, g, q) <==> listed(old(buckets)@, g, q) || (g == h && q == p),
{
    let mut list: Vec<usize> = match buckets.remove(&h) {
        Some(l) => l,
        None => Vec::new(),
    };
    let ghost before = list@;
    list.push(p);
    let ghost after = list@;
    buckets.insert(h, list);
    assert(after.no_duplicates()) by {
        assert(!before.contains(p));
    }
    assert forall|g: u64, q: usize| #[trigger]
        listed(buckets@, g, q) <==> listed(old(buckets)@, g, q) || (g == h && q == p) by {
        if g == h {
            if before.contains(q) {
                let k = choose|k: int| 0 <= k < before.len() && before[k] == q;
                assert(after[k] == q);
            }
            assert(after.last() == p);
            if after.contains(q) && q != p {
                let k = choose|k: int| 0 <= k < after.len() && after[k] == q;
                assert(before[k] == q);
            }
        }
    }
}

/// Takes position `p` out of bucket `h`.
fn unlist_position(buckets: &mut HashMap<u64, Vec<usize>>, h: u64, p: usize)
    requires
        listed_once(old(buckets)@),
        listed(old(buckets)@, h, p),
    ensures
        listed_once(final(buckets)@),
        forall|g: u64, q: usize| #[trigger]
            listed(final(buckets)@, g, q) <==> listed(old(buckets)@, g, q) && !(g == h && q == p),
{
    let mut list: Vec<usize> = match buckets.remove(&h) {
        Some(l) => l,
        None => Vec::new(),
    };
    let ghost before = list@;
    let mut j: usize = 0;
    while list[j] != p
        invariant
            list@ == before,
            before.contains(p),
            j < list@.len(),
            forall|k: int| 0 <= k < j ==> list@[k] != p,
        decreases list@.len() - j,
    {
        proof {
            let k = choose|k: int| 0 <= k < before.len() && before[k] == p;
            assert(j < k < list.len());
        }
        j += 1;
    }
    list.swap_remove(j);
    let ghost after = list@;
    assert forall|q: usize| #[trigger] after.contains(q) <==> before.contains(q) && q != p by {
        if after.contains(q) {
            let k = choose|k: int| 0 <= k < after.len() && after[k] == q;
            if k == j {
                assert(before[before.len() - 1] == q);
            } else {
                assert(before[k] == q);
            }
        }
        if before.contains(q) && q != p {
            let k = choose|k: int| 0 <= k < before.len() && before[k] == q;
            if k == before.len() - 1 {
                assert(after[j as int] == q);
            } else {
                assert(after[k] == q);
            }
        }
    }
    if list.len() > 0 {
        buckets.insert(h, list);
        assert forall|g: u64, q: usize| #[trigger]
            listed(buckets@, g, q) <==> listed(old(buckets)@, g, q) && !(g == h && q == p) by {
            if g == h {
                assert(after.contains(q) <==> before.contains(q) && q != p);
            }
        }
    } else {
        assert forall|g: u64, q: usize| #[trigger]
            listed(buckets@, g, q) <==> listed(old(buckets)@, g, q) && !(g == h && q == p) by {
            if g == h {
                assert(!after.contains(q));
            }
        }
    }
}

impl<V> ByteMap<V> {
    /// The keys are distinct and the hash table leads to every entry.
    pub closed spec fn wf(&self) -> bool {
        &&& distinct_keys(self@)
        &&& listed_once(self.buckets@)
        &&& indexes(self.buckets@, self@)
    }

    /// In a well-formed map no key is stored twice.
    pub proof fn lemma_wf(&self)
        requires
            self.wf(),
        ensures
            distinct_keys(self@),
            self@.len() <= usize::MAX,
    {
        assert(self@.len() == self.entries.len());
    }

    /// An empty map.
    pub fn new() -> (r: Self)
        ensures
            r.wf(),
            r@ == Seq::<(Seq<u8>, V)>::empty(),
    {
        let r = ByteMap { entries: Vec::new(), buckets: HashMap::new() };
        assert(r@ =~= Seq::<(Seq<u8>, V)>::empty());
        r
    }

    /// The number of entries.
    pub fn len(&self) -> (r: usize)
        ensures
            r == self@.len(),
    {
        self.entries.len()
    }

    /// Whether there are no entries.
    pub fn is_empty(&self) -> (r: bool)
        ensures
            r == (self@.len() == 0),
    {
        self.entries.len() == 0
    }

    /// The key at position `i`.
    pub fn key_at(&self, i: usize) -> (r: &Vec<u8>)
        requires
            i < self@.len(),
        ensures
            r@ == self@[i as int].0,
    {
        &self.entries[i].0
    }

    /// The value at position `i`.
    pub fn value_at(&self, i: usize) -> (r: &V)
        requires
            i < self@.len(),
        ensures
            *r == self@[i as int].1,
    {
        &self.entries[i].1
    }

    /// The position of `key`, if it is stored.
    pub fn find(&self, key: &[u8]) -> (r: Option<usize>)
        requires
            self.wf(),
        ensures
            match r {
                Some(i) => i < self@.len() && self@[i as int].0 == key@ && has_key(self@, key@)
                    && i == position(self@, key@),
                None => !has_key(self@, key@),
            },
    {
        let h: u64 = hash_of(key);
        assert(self@.len() == self.entries.len());
        match self.buckets.get(&h) {
            None => {
                assert forall|i: int| 0 <= i < self@.len() implies (#[trigger] self@[i]).0
                    != key@ by {
                    assert(!listed(self.buckets@, h, i as usize));
                }
                None
            },
            Some(list) => {
                let mut j: usize = 0;
                while j < list.len()
                    invariant
                        self.wf(),
                        h == hash_spec(key@),
                        self.buckets@.contains_key(h),
                        *list == self.buckets@[h],
                        j <= list@.len(),
                        forall|k: int| 0 <= k < j ==> self@[(#[trigger] list@[k]) as int].0 != key@,
                    decreases list@.len() - j,
                {
                    let p: usize = list[j];
                    assert(listed(self.buckets@, h, p));
                    if bytes_eq(self.entries[p].0.as_slice(), key) {
                        proof {
                            assert(self@[p as int].0 == key@);
                            lemma_position_at(self@, p as int);
                        }
                        return Some(p);
                    }
                    j += 1;
                }
                assert forall|i: int| 0 <= i < self@.len() implies (#[trigger] self@[i]).0
                    != key@ by {
                    if self@[i].0 == key@ {
                        assert(listed(self.buckets@, h, i as usize));
                        let k = choose|k: int| 0 <= k < list@.len() && list@[k] == i as usize;
                        assert(self@[list@[k] as int].0 != key@);
                    }
                }
                None
            },
        }
    }

    /// Whether `key` is stored.
    pub fn contains_key(&self, key: &[u8]) -> (r: bool)
        requires
            self.wf(),
        ensures
            r == has_key(self@, key@),
    {
        self.find(key).is_some()
    }

    /// The value stored under `key`.
    pub fn get(&self, key: &[u8]) -> (r: Option<&V>)
        requires
            self.wf(),
        ensures
            match r {
                Some(v) => value_of(self@, key@) == Some(*v),
                None => value_of(self@, key@) is None,
            },
    {
        match self.find(key) {
            Some(i) => Some(&self.entries[i].1),
            None => None,
        }
    }

    /// Binds `key` to `value` and hands back the value it replaces, if any.
    pub fn insert(&mut self, key: Vec<u8>, value: V) -> (r: Option<V>)
        requires
            old(self).wf(),
        ensures
            final(self).wf(),
            final(self)@ == bound(old(self)@, key@, value),
            r == value_of(old(self)@, key@),
    {
        proof {
            lemma_distinct(self@, key@, value);
        }
        match self.find(key.as_slice()) {
            Some(i) => {
                // The new entry goes to the end and from there into the old one's place.
                self.entries.push((key, value));
                let replaced: (Vec<u8>, V) = self.entries.swap_remove(i);
                assert(self@ =~= bound(old(self)@, key@, value));
                assert(forall|p: int| 0 <= p < self@.len() ==> self@[p].0 == old(self)@[p].0);
                Some(replaced.1)
            },
            None => {
                let h: u64 = hash_of(key.as_slice());
                let p: usize = self.entries.len();
                list_position(&mut self.buckets, h, p);
                self.entries.push((key, value));
                assert(self@ =~= bound(old(self)@, key@, value));
                None
            },
        }
    }

    /// Removes `key` and hands back the value that was stored under it.
    pub fn remove(&mut self, key: &[u8]) -> (r: Option<V>)
        requires
            old(self).wf(),
        ensures
            final(self).wf(),
            final(self)@ == unbound(old(self)@, key@),
            r == value_of(old(self)@, key@),
    {
        match self.find(key) {
            Some(i) => {
                let last: usize = self.entries.len() - 1;
                let h: u64 = hash_of(key);
                let g: u64 = hash_of(self.entries[last].0.as_slice());
                assert(listed(self.buckets@, h, i));
                assert(listed(self.buckets@, g, last));
                unlist_position(&mut self.buckets, h, i);
                if i != last {
                    unlist_position(&mut self.buckets, g, last);
                    list_position(&mut self.buckets, g, i);
                }
                let removed: (Vec<u8>, V) = self.entries.swap_remove(i);
                proof {
                    lemma_distinct(old(self)@, key@, removed.1);
                    assert(self@ =~= unbound(old(self)@, key@));
                }
                Some(removed.1)
            },
            None => None,
        }
    }
}

} // verus!
