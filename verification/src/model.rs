//! The cache as a mathematical object: records in order of recency, a byte cap
//! and the keys dropped to stay under it.
use vstd::prelude::*;

use crate::bytemap::{has_key, position};
use crate::sums::total;
use crate::value::ValueView;

verus! {

/// Fixed per-entry bookkeeping estimate (map bucket + node struct + Vec headers)
/// added to raw key/value bytes so accounting tracks real RSS, not payload only.
pub const ENTRY_OVERHEAD: usize = 72;

/// What is stored under a key.
#[verifier::ext_equal]
pub struct Record {
    pub value: ValueView,
    /// UNIX seconds; `None` is persistent.
    pub expires_at: Option<u64>,
    /// UNIX seconds of the most recent access.
    pub last_accessed: u64,
}

impl Record {
    /// Whether the record's time is over at `now`.
    pub open spec fn expired(self, now: u64) -> bool {
        self.expires_at matches Some(e) && e <= now
    }
}

/// The accounted size of a key with its value.
pub open spec fn size_of_entry(key: Seq<u8>, value: ValueView) -> nat {
    key.len() + value.bytes() + ENTRY_OVERHEAD as nat
}

/// The accounted size of each record.
pub open spec fn record_sizes(s: Seq<(Seq<u8>, Record)>) -> Seq<nat> {
    s.map_values(|e: (Seq<u8>, Record)| size_of_entry(e.0, e.1.value))
}

/// The accounted size of all records.
pub open spec fn used_bytes(s: Seq<(Seq<u8>, Record)>) -> nat {
    total(record_sizes(s))
}

/// `s` with the element at `i` moved to the front.
pub open spec fn to_front<A>(s: Seq<A>, i: int) -> Seq<A> {
    seq![s[i]] + s.remove(i)
}

/// Records that stay when the least recently used ones (at the end) are dropped
/// until the cap is met, one record is left, or `keep` is at the end.
pub open spec fn fitted(
    s: Seq<(Seq<u8>, Record)>,
    cap: nat,
    keep: Option<Seq<u8>>,
) -> Seq<(Seq<u8>, Record)>
    decreases s.len(),
{
    if used_bytes(s) > cap && s.len() > 1 && keep != Some(s.last().0) {
        fitted(s.drop_last(), cap, keep)
    } else {
        s
    }
}

/// The keys that `fitted` drops, in the order in which they go.
pub open spec fn dropped(
    s: Seq<(Seq<u8>, Record)>,
    cap: nat,
    keep: Option<Seq<u8>>,
) -> Seq<Seq<u8>>
    decreases s.len(),
{
    if used_bytes(s) > cap && s.len() > 1 && keep != Some(s.last().0) {
        seq![s.last().0] + dropped(s.drop_last(), cap, keep)
    } else {
        seq![]
    }
}

/// The state of a cache.
#[verifier::ext_equal]
pub struct CacheView {
    /// Keys with their records, the most recently used first.
    pub entries: Seq<(Seq<u8>, Record)>,
    /// Hard RAM ceiling in bytes.
    pub cap: nat,
    /// Keys dropped by capacity eviction and not yet reported.
    pub evicted: Seq<Seq<u8>>,
}

impl CacheView {
    /// Accounted bytes.
    pub open spec fn used(self) -> nat {
        used_bytes(self.entries)
    }

    /// The record under `key`, expired or not.
    pub open spec fn record(self, key: Seq<u8>) -> Option<Record> {
        if has_key(self.entries, key) {
            Some(self.entries[position(self.entries, key)].1)
        } else {
            None
        }
    }

    /// The value under `key` if it has not expired at `now`.
    pub open spec fn live(self, key: Seq<u8>, now: u64) -> Option<ValueView> {
        match self.record(key) {
            Some(r) => if r.expired(now) {
                None
            } else {
                Some(r.value)
            },
            None => None,
        }
    }

    /// The state without `key`.
    pub open spec fn without(self, key: Seq<u8>) -> CacheView {
        if has_key(self.entries, key) {
            CacheView { entries: self.entries.remove(position(self.entries, key)), ..self }
        } else {
            self
        }
    }

    /// The state with `key` in front, bound to `record`; an older record of the
    /// same key goes.
    pub open spec fn with_front(self, key: Seq<u8>, record: Record) -> CacheView {
        CacheView { entries: seq![(key, record)] + self.without(key).entries, ..self }
    }

    /// The state after least recently used records are dropped to meet the cap.
    pub open spec fn fit(self, keep: Option<Seq<u8>>) -> CacheView {
        CacheView {
            entries: fitted(self.entries, self.cap, keep),
            evicted: self.evicted + dropped(self.entries, self.cap, keep),
            ..self
        }
    }

    /// The state after a lookup of `key`: an expired record goes, a live one moves
    /// to the front.
    pub open spec fn looked_up(self, key: Seq<u8>, now: u64) -> CacheView {
        match self.record(key) {
            Some(r) => if r.expired(now) {
                self.without(key)
            } else {
                self.with_front(key, Record { last_accessed: now, ..r })
            },
            None => self,
        }
    }

    /// The state after `key` is stored.
    pub open spec fn stored(
        self,
        key: Seq<u8>,
        value: ValueView,
        expires_at: Option<u64>,
        now: u64,
    ) -> CacheView {
        self.with_front(key, Record { value, expires_at, last_accessed: now }).fit(Some(key))
    }

    /// The state with the value under `key` replaced in place.
    pub open spec fn revalued(self, key: Seq<u8>, value: ValueView) -> CacheView {
        let i = position(self.entries, key);
        CacheView {
            entries: self.entries.update(i, (key, Record { value, ..self.entries[i].1 })),
            ..self
        }
    }

    /// The state after a change of the value under `key` is settled: an emptied
    /// collection goes, otherwise the cap is met.
    pub open spec fn settled(self, key: Seq<u8>) -> CacheView {
        if self.entries[position(self.entries, key)].1.value.empty_collection() {
            self.without(key)
        } else {
            self.fit(Some(key))
        }
    }

    /// The state after everything is wiped.
    pub open spec fn flushed(self) -> CacheView {
        CacheView { entries: seq![], ..self }
    }
}

} // verus!
