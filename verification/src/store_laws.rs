//! What a client may rely on across commands: what a read gives back of a write, what
//! stays untouched, and what eviction takes.
use vstd::prelude::*;

use crate::bytemap::{
    bound, distinct_keys, has_key, law_bound, law_unbound, lemma_position, lemma_position_at,
    position, unbound, value_of,
};
use crate::cache_laws::{
    law_fitted, law_sound, lemma_looked_up, lemma_opened, lemma_with_front, lemma_without, sound,
};
use crate::dump::{info_of, snapshot_of};
use crate::effects::{
    del_effect, effect, expiry, get_effect, hdel_effect, hget_effect, hset_effect,
    lemma_members_size, lemma_unbound_size, opened, pop_effect, push_effect, pushed, sadd_effect,
    set_effect, sismember_effect, srem_effect, with_members, without_members,
};
use crate::model::{CacheView, Record};
use crate::protocol::{
    args_of, bulk_reply, int_reply, mutating, ACT_FLUSH, ACT_HDEL, ACT_HSET, ACT_LPOP, ACT_LPUSH,
    ACT_RPOP, ACT_RPUSH, ACT_SADD, ACT_SET, ACT_SREM, RSP_MISSING, RSP_OK,
};
use crate::sums::lemma_total_remove;
use crate::value::{item_sizes, member_sizes, pair_sizes, ValueView};

verus! {

/// A record at a known position.
proof fn lemma_record_at(c: CacheView, i: int)
    requires
        distinct_keys(c.entries),
        0 <= i < c.entries.len(),
    ensures
        c.record(c.entries[i].0) == Some(c.entries[i].1),
{
    lemma_position_at(c.entries, i);
}

/// Leaving out a key or putting one in front leaves every other key's record alone.
pub proof fn lemma_others(c: CacheView, key: Seq<u8>, r: Record, k: Seq<u8>)
    requires
        distinct_keys(c.entries),
        k != key,
    ensures
        c.without(key).record(k) == c.record(k),
        c.with_front(key, r).record(k) == c.record(k),
{
    lemma_without(c, key);
    lemma_with_front(c, key, r);
    let d = c.without(key);
    let e = c.with_front(key, r);
    let i = position(c.entries, key);
    lemma_position(c.entries, key);
    lemma_position(c.entries, k);
    lemma_position(d.entries, k);
    lemma_position(e.entries, k);
    if has_key(c.entries, k) {
        let j = position(c.entries, k);
        let m = if has_key(c.entries, key) && i < j {
            j - 1
        } else {
            j
        };
        assert(d.entries[m] == c.entries[j]);
        lemma_record_at(d, m);
        assert(e.entries[m + 1] == d.entries[m]);
        lemma_record_at(e, m + 1);
    } else {
        if has_key(d.entries, k) {
            let m = position(d.entries, k);
            let j = if has_key(c.entries, key) && i <= m {
                m + 1
            } else {
                m
            };
            assert(c.entries[j] == d.entries[m]);
        }
        if has_key(e.entries, k) {
            let m = position(e.entries, k);
            assert(d.entries[m - 1] == e.entries[m]);
        }
    }
}

/// Leaving out a key.
pub proof fn lemma_gone(c: CacheView, key: Seq<u8>)
    requires
        distinct_keys(c.entries),
    ensures
        c.without(key).record(key) is None,
{
    lemma_without(c, key);
}

/// Dropping least recently used records keeps the first and takes others whole.
pub proof fn lemma_fit_records(c: CacheView, keep: Option<Seq<u8>>, k: Seq<u8>)
    requires
        distinct_keys(c.entries),
    ensures
        c.fit(keep).record(k) is None || c.fit(keep).record(k) == c.record(k),
        c.entries.len() > 0 ==> c.fit(keep).record(c.entries[0].0) == Some(c.entries[0].1),
        c.fit(keep).evicted == c.evicted ==> c.fit(keep) == c,
{
    law_fitted(c.entries, c.cap, keep);
    let d = c.fit(keep);
    let n = d.entries.len() as int;
    assert(forall|i: int| 0 <= i < n ==> #[trigger] d.entries[i] == c.entries[i]);
    assert(distinct_keys(d.entries)) by {
        assert forall|i: int, j: int| 0 <= i < j < d.entries.len() implies (
        #[trigger] d.entries[i]).0 != (#[trigger] d.entries[j]).0 by {
            assert(c.entries[i].0 != c.entries[j].0);
        }
    }
    if has_key(d.entries, k) {
        lemma_position(d.entries, k);
        let i = position(d.entries, k);
        lemma_record_at(d, i);
        lemma_record_at(c, i);
    }
    if c.entries.len() > 0 {
        lemma_record_at(d, 0);
    }
    if d.evicted == c.evicted {
        assert(d.evicted.len() == c.evicted.len() + (c.entries.len() - n));
        assert(d.entries =~= c.entries);
        assert(d =~= c);
    }
}

/// GET after SET returns the value until it expires, and reports it missing from then
/// on, whatever the SET evicted.
pub proof fn law_set_then_get(
    c: CacheView,
    now: u64,
    key: Seq<u8>,
    value: Seq<u8>,
    ttl: u32,
    later: u64,
)
    requires
        sound(c),
    ensures
        set_effect(c, now, key, value, ttl).reply == seq![RSP_OK],
        ({
            let g = get_effect(set_effect(c, now, key, value, ttl).cache, later, key);
            if expiry(now, ttl) matches Some(e) && e <= later {
                g.reply == seq![RSP_MISSING] && g.miss && !g.hit
            } else {
                g.reply == bulk_reply(value) && g.hit && !g.miss
            }
        }),
{
    let r = Record {
        value: ValueView::Str(value),
        expires_at: expiry(now, ttl),
        last_accessed: now,
    };
    lemma_with_front(c, key, r);
    lemma_fit_records(c.with_front(key, r), Some(key), key);
}

/// SET leaves every other key alone or evicts it, and evicts none while the cap is met.
pub proof fn law_set_spares_others(
    c: CacheView,
    now: u64,
    key: Seq<u8>,
    value: Seq<u8>,
    ttl: u32,
    other: Seq<u8>,
)
    requires
        sound(c),
        other != key,
    ensures
        ({
            let d = set_effect(c, now, key, value, ttl).cache;
            &&& d.record(other) is None || d.record(other) == c.record(other)
            &&& c.without(key).used() + key.len() + value.len() + 72 <= c.cap ==> d.record(other)
                == c.record(other) && d.evicted == c.evicted
        }),
{
    let r = Record {
        value: ValueView::Str(value),
        expires_at: expiry(now, ttl),
        last_accessed: now,
    };
    lemma_with_front(c, key, r);
    lemma_others(c, key, r, other);
    lemma_fit_records(c.with_front(key, r), Some(key), other);
}

/// After DEL and after FLUSH a key is missing; DEL leaves every other key alone.
pub proof fn law_del_then_get(c: CacheView, now: u64, key: Seq<u8>, later: u64, other: Seq<u8>)
    requires
        sound(c),
    ensures
        get_effect(del_effect(c, now, key).cache, later, key).reply == seq![RSP_MISSING],
        other != key ==> del_effect(c, now, key).cache.record(other) == c.record(other),
        get_effect(c.flushed(), later, key).reply == seq![RSP_MISSING],
        c.flushed().used() == 0,
{
    lemma_gone(c, key);
    if other != key {
        lemma_others(c, key, arbitrary(), other);
    }
    assert(crate::model::record_sizes(c.flushed().entries) =~= seq![]);
}

/// The cap is met, or a single key is left.
pub open spec fn within_cap(c: CacheView) -> bool {
    c.used() <= c.cap || c.entries.len() <= 1
}

/// A state in which the cap was just enforced for its front record.
proof fn lemma_fit_within_cap(c: CacheView)
    requires
        c.entries.len() > 0,
        distinct_keys(c.entries),
    ensures
        within_cap(c.fit(Some(c.entries[0].0))),
{
    let key = c.entries[0].0;
    law_fitted(c.entries, c.cap, Some(key));
    let n = c.fit(Some(key)).entries.len() as int;
    if n > 1 {
        assert(c.entries[0].0 != c.entries[n - 1].0);
    }
}

/// A lookup keeps within the cap.
proof fn lemma_lookup_within_cap(c: CacheView, now: u64, key: Seq<u8>)
    requires
        within_cap(c),
    ensures
        within_cap(c.looked_up(key, now)),
        within_cap(c.without(key)),
        c.looked_up(key, now).cap == c.cap,
{
    lemma_without(c, key);
    lemma_position(c.entries, key);
    lemma_looked_up(c, key, now);
}

/// Settling a change of the front record keeps within the cap.
proof fn lemma_settled_within_cap(c: CacheView, key: Seq<u8>, v: ValueView)
    requires
        c.entries.len() > 0,
        c.entries[0].0 == key,
        distinct_keys(c.entries),
        v.empty_collection() ==> within_cap(c) && v.bytes() <= c.entries[0].1.value.bytes(),
    ensures
        within_cap(c.revalued(key, v).settled(key)),
{
    assert(position(c.entries, key) == 0);
    let r = Record { value: v, ..c.entries[0].1 };
    let d = c.revalued(key, v);
    assert(has_key(c.entries, key));
    assert(d.entries =~= c.with_front(key, r).entries);
    lemma_with_front(c, key, r);
    lemma_without(c, key);
    assert(position(d.entries, key) == 0);
    if v.empty_collection() {
        lemma_without(d, key);
        assert(c.record(key) == Some(c.entries[0].1));
        assert(within_cap(d));
        lemma_lookup_within_cap(d, 0, key);
    } else {
        lemma_fit_within_cap(d);
    }
}

/// Every command leaves the accounted bytes within the cap, unless a single key is left
/// that exceeds it alone.
pub proof fn law_within_cap(
    c: CacheView,
    now: u64,
    action: u8,
    key: Seq<u8>,
    value: Seq<u8>,
    ttl: u32,
)
    requires
        sound(c),
        within_cap(c),
    ensures
        within_cap(effect(c, now, action, key, value, ttl).cache),
{
    lemma_lookup_within_cap(c, now, key);
    lemma_looked_up(c, key, now);
    let base = c.looked_up(key, now);
    if action == ACT_SET {
        let r = Record {
            value: ValueView::Str(value),
            expires_at: expiry(now, ttl),
            last_accessed: now,
        };
        lemma_with_front(c, key, r);
        lemma_fit_within_cap(c.with_front(key, r));
    } else if action == ACT_HSET {
        let empty = ValueView::Hash(seq![]);
        assert(pair_sizes(seq![]) =~= seq![]);
        lemma_opened(c, now, key, empty);
        let b = opened(c, now, key, empty);
        match (args_of(value), b.entries[0].1.value) {
            (Some(args), ValueView::Hash(h)) => {
                law_bound(h, args[0], args[1]);
                lemma_settled_within_cap(b, key, ValueView::Hash(bound(h, args[0], args[1])));
            },
            _ => {},
        }
    } else if action == ACT_HDEL {
        match (args_of(value), c.live(key, now)) {
            (Some(args), Some(ValueView::Hash(h))) => {
                lemma_unbound_size(h, args[0]);
                lemma_settled_within_cap(base, key, ValueView::Hash(unbound(h, args[0])));
            },
            _ => {},
        }
    } else if action == ACT_LPUSH || action == ACT_RPUSH {
        let empty = ValueView::List(seq![]);
        assert(item_sizes(seq![]) =~= seq![]);
        lemma_opened(c, now, key, empty);
        let b = opened(c, now, key, empty);
        match (args_of(value), b.entries[0].1.value) {
            (Some(args), ValueView::List(l)) => {
                if args.len() > 0 {
                    lemma_settled_within_cap(
                        b,
                        key,
                        ValueView::List(pushed(l, args, action == ACT_LPUSH)),
                    );
                }
            },
            _ => {},
        }
    } else if action == ACT_LPOP || action == ACT_RPOP {
        match c.live(key, now) {
            Some(ValueView::List(l)) => {
                let sizes = item_sizes(l);
                lemma_total_remove(sizes, 0);
                assert(item_sizes(l.drop_first()) =~= sizes.remove(0));
                assert(item_sizes(l.drop_last()) =~= sizes.drop_last());
                lemma_settled_within_cap(base, key, ValueView::List(l.drop_first()));
                lemma_settled_within_cap(base, key, ValueView::List(l.drop_last()));
            },
            _ => {},
        }
    } else if action == ACT_SADD {
        let empty = ValueView::Members(seq![]);
        assert(member_sizes(seq![]) =~= seq![]);
        lemma_opened(c, now, key, empty);
        let b = opened(c, now, key, empty);
        match (args_of(value), b.entries[0].1.value) {
            (Some(args), ValueView::Members(s)) => {
                if args.len() > 0 {
                    lemma_members_size(s, args);
                    lemma_settled_within_cap(b, key, ValueView::Members(with_members(s, args)));
                }
            },
            _ => {},
        }
    } else if action == ACT_SREM {
        match (args_of(value), c.live(key, now)) {
            (Some(args), Some(ValueView::Members(s))) => {
                lemma_members_size(s, args);
                lemma_settled_within_cap(base, key, ValueView::Members(without_members(s, args)));
            },
            _ => {},
        }
    }
}

/// A lookup changes nothing that a client can see: every key keeps its live value, now
/// and later.
pub proof fn lemma_looked_up_live(c: CacheView, now: u64, key: Seq<u8>, k: Seq<u8>, later: u64)
    requires
        sound(c),
        later >= now,
    ensures
        c.looked_up(key, now).live(k, later) == c.live(k, later),
{
    match c.record(key) {
        Some(r) => {
            if k == key {
                lemma_gone(c, key);
                lemma_with_front(c, key, Record { last_accessed: now, ..r });
            } else {
                lemma_others(c, key, Record { last_accessed: now, ..r }, k);
            }
        },
        None => {},
    }
}

/// A command that is not mutating changes no key's live value, now or later.
pub proof fn law_reads_change_nothing(
    c: CacheView,
    now: u64,
    action: u8,
    key: Seq<u8>,
    value: Seq<u8>,
    ttl: u32,
    k: Seq<u8>,
    later: u64,
)
    requires
        sound(c),
        !mutating(action),
        later >= now,
    ensures
        effect(c, now, action, key, value, ttl).cache.live(k, later) == c.live(k, later),
        effect(c, now, action, key, value, ttl).cache.evicted == c.evicted,
{
    lemma_looked_up_live(c, now, key, k, later);
}

/// Storing a new value in the front record and settling the change: what each key holds
/// afterwards.
pub proof fn lemma_front_records(c: CacheView, key: Seq<u8>, v: ValueView, k: Seq<u8>)
    requires
        c.entries.len() > 0,
        c.entries[0].0 == key,
        distinct_keys(c.entries),
    ensures
        ({
            let d = c.revalued(key, v).settled(key);
            &&& d.record(key) == (if v.empty_collection() {
                None
            } else {
                Some(Record { value: v, ..c.entries[0].1 })
            })
            &&& k != key ==> d.record(k) is None || d.record(k) == c.record(k)
            &&& k != key && d.evicted == c.evicted ==> d.record(k) == c.record(k)
        }),
{
    assert(position(c.entries, key) == 0);
    let r = Record { value: v, ..c.entries[0].1 };
    let d = c.revalued(key, v);
    assert(has_key(c.entries, key));
    assert(d.entries =~= c.with_front(key, r).entries);
    assert(d =~= c.with_front(key, r));
    lemma_with_front(c, key, r);
    lemma_fit_records(d, Some(key), k);
    lemma_fit_records(d, Some(key), key);
    assert(d.entries[0].0 == key);
    assert(position(d.entries, key) == 0);
    lemma_record_at(d, 0);
    if k != key {
        lemma_others(c, key, r, k);
        lemma_others(d, key, r, k);
    }
    lemma_gone(d, key);
}

/// What a key holds after a collection is opened for a write.
pub proof fn lemma_opened_records(
    c: CacheView,
    now: u64,
    key: Seq<u8>,
    empty: ValueView,
    k: Seq<u8>,
)
    requires
        sound(c),
        empty.bytes() == 0,
    ensures
        ({
            let d = opened(c, now, key, empty);
            &&& d.evicted == c.evicted
            &&& distinct_keys(d.entries)
            &&& k != key ==> d.record(k) == c.record(k)
            &&& c.live(key, now) is Some && !(c.live(key, now)->0 is Str)
                ==> d.entries[0].1.expires_at is None
        }),
{
    lemma_opened(c, now, key, empty);
    lemma_looked_up(c, key, now);
    let base = c.looked_up(key, now);
    if k != key {
        match c.record(key) {
            Some(r) => {
                lemma_others(c, key, Record { last_accessed: now, ..r }, k);
            },
            None => {},
        }
        let r = Record { value: empty, expires_at: None, last_accessed: now };
        lemma_others(base, key, r, k);
    }
}

/// A command other than FLUSH touches its own key alone: every other key keeps what it
/// holds, or is evicted; and nothing comes to hold anything but the command's own key.
pub proof fn law_command_spares_others(
    c: CacheView,
    now: u64,
    action: u8,
    key: Seq<u8>,
    value: Seq<u8>,
    ttl: u32,
    k: Seq<u8>,
)
    requires
        sound(c),
        k != key,
    ensures
        ({
            let d = effect(c, now, action, key, value, ttl).cache;
            &&& d.record(k) is None || d.record(k) == c.record(k)
            &&& action != ACT_FLUSH && d.evicted == c.evicted ==> d.record(k) == c.record(k)
        }),
{
    let base = c.looked_up(key, now);
    lemma_looked_up(c, key, now);
    lemma_others(c, key, arbitrary(), k);
    match c.record(key) {
        Some(r) => lemma_others(c, key, Record { last_accessed: now, ..r }, k),
        None => {},
    }
    let args = args_of(value)->0;
    if action == ACT_SET {
        let r = Record {
            value: ValueView::Str(value),
            expires_at: expiry(now, ttl),
            last_accessed: now,
        };
        lemma_with_front(c, key, r);
        lemma_others(c, key, r, k);
        lemma_fit_records(c.with_front(key, r), Some(key), k);
    } else if action == ACT_HSET || action == ACT_LPUSH || action == ACT_RPUSH || action
        == ACT_SADD {
        let empty = if action == ACT_HSET {
            ValueView::Hash(seq![])
        } else if action == ACT_SADD {
            ValueView::Members(seq![])
        } else {
            ValueView::List(seq![])
        };
        assert(pair_sizes(seq![]) =~= seq![]);
        assert(item_sizes(seq![]) =~= seq![]);
        assert(member_sizes(seq![]) =~= seq![]);
        lemma_opened(c, now, key, empty);
        lemma_opened_records(c, now, key, empty, k);
        let d = opened(c, now, key, empty);
        let v = match d.entries[0].1.value {
            ValueView::Hash(h) => ValueView::Hash(bound(h, args[0], args[1])),
            ValueView::List(l) => ValueView::List(pushed(l, args, action == ACT_LPUSH)),
            ValueView::Members(m) => ValueView::Members(with_members(m, args)),
            w => w,
        };
        lemma_front_records(d, key, v, k);
    } else {
        match c.live(key, now) {
            Some(ValueView::Hash(h)) => {
                lemma_front_records(base, key, ValueView::Hash(unbound(h, args[0])), k);
            },
            Some(ValueView::List(l)) => {
                lemma_front_records(base, key, ValueView::List(l.drop_first()), k);
                lemma_front_records(base, key, ValueView::List(l.drop_last()), k);
            },
            Some(ValueView::Members(m)) => {
                lemma_front_records(base, key, ValueView::Members(without_members(m, args)), k);
            },
            _ => {},
        }
    }
}

/// The fields of the hash under `key`; an absent key counts as an empty hash.
pub open spec fn hash_at(c: CacheView, key: Seq<u8>, now: u64) -> Seq<(Seq<u8>, Seq<u8>)> {
    match c.live(key, now) {
        Some(ValueView::Hash(h)) => h,
        _ => seq![],
    }
}

/// The items of the list under `key`; an absent key counts as an empty list.
pub open spec fn list_at(c: CacheView, key: Seq<u8>, now: u64) -> Seq<Seq<u8>> {
    match c.live(key, now) {
        Some(ValueView::List(l)) => l,
        _ => seq![],
    }
}

/// The members of the set under `key`; an absent key counts as an empty set.
pub open spec fn members_at(c: CacheView, key: Seq<u8>, now: u64) -> Seq<(Seq<u8>, ())> {
    match c.live(key, now) {
        Some(ValueView::Members(s)) => s,
        _ => seq![],
    }
}

/// HGET after HSET returns the stored value for the field set, and what was there before
/// for every other field; HSET tells a new field from an updated one.
pub proof fn law_hset_then_hget(
    c: CacheView,
    now: u64,
    key: Seq<u8>,
    value: Seq<u8>,
    later: u64,
    query: Seq<u8>,
)
    requires
        sound(c),
        hset_effect(c, now, key, value).done,
        args_of(query) matches Some(q) && q.len() == 1,
    ensures
        ({
            let e = hset_effect(c, now, key, value);
            let args = args_of(value)->0;
            let field = (args_of(query)->0)[0];
            let reply = hget_effect(e.cache, later, key, query).reply;
            let h = hash_at(c, key, now);
            &&& e.reply == int_reply(
                if has_key(h, args[0]) {
                    0
                } else {
                    1
                },
            )
            &&& field == args[0] ==> reply == bulk_reply(args[1])
            &&& field != args[0] ==> reply == (match value_of(h, field) {
                Some(v) => bulk_reply(v),
                None => seq![RSP_MISSING],
            })
        }),
{
    let args = args_of(value)->0;
    let field = (args_of(query)->0)[0];
    let empty = ValueView::Hash(seq![]);
    assert(pair_sizes(seq![]) =~= seq![]);
    lemma_opened(c, now, key, empty);
    lemma_opened_records(c, now, key, empty, key);
    lemma_looked_up(c, key, now);
    let base = opened(c, now, key, empty);
    let h = base.entries[0].1.value->Hash_0;
    let v = ValueView::Hash(bound(h, args[0], args[1]));
    assert(h == hash_at(c, key, now));
    law_bound(h, args[0], args[1]);
    lemma_front_records(base, key, v, key);
}

/// HGET after HDEL reports the field missing and returns what was there before for every
/// other field; the last field takes the key with it.
pub proof fn law_hdel_then_hget(
    c: CacheView,
    now: u64,
    key: Seq<u8>,
    value: Seq<u8>,
    later: u64,
    query: Seq<u8>,
)
    requires
        sound(c),
        hdel_effect(c, now, key, value).done,
        args_of(query) matches Some(q) && q.len() == 1,
        later >= now,
    ensures
        ({
            let e = hdel_effect(c, now, key, value);
            let arg = (args_of(value)->0)[0];
            let field = (args_of(query)->0)[0];
            let reply = hget_effect(e.cache, later, key, query).reply;
            let h = hash_at(c, key, now);
            &&& e.reply == int_reply(
                if has_key(h, arg) {
                    1
                } else {
                    0
                },
            )
            &&& field == arg ==> reply == seq![RSP_MISSING]
            &&& field != arg ==> reply == (match value_of(h, field) {
                Some(v) => bulk_reply(v),
                None => seq![RSP_MISSING],
            })
            &&& unbound(h, arg).len() == 0 ==> e.cache.live(key, later) is None
        }),
{
    let arg = (args_of(value)->0)[0];
    let field = (args_of(query)->0)[0];
    lemma_looked_up(c, key, now);
    let base = c.looked_up(key, now);
    let h = hash_at(c, key, now);
    if c.live(key, now) is Some {
        law_unbound(h, arg);
        lemma_front_records(base, key, ValueView::Hash(unbound(h, arg)), key);
        if unbound(h, arg).len() == 0 {
            assert(!has_key(unbound(h, arg), field));
        }
    } else {
        lemma_looked_up_live(c, now, key, key, later);
        assert(!has_key(h, arg));
    }
}

/// A push puts the items at the chosen end, one by one, and replies with the new length;
/// a pop at the same end gives back the last item pushed and leaves the rest.
pub proof fn law_push_then_pop(
    c: CacheView,
    now: u64,
    key: Seq<u8>,
    value: Seq<u8>,
    front: bool,
    later: u64,
)
    requires
        sound(c),
        push_effect(c, now, key, value, front).done,
    ensures
        ({
            let args = args_of(value)->0;
            let e = push_effect(c, now, key, value, front);
            let p = pop_effect(e.cache, later, key, front);
            &&& list_at(e.cache, key, later) == pushed(list_at(c, key, now), args, front)
            &&& e.reply == int_reply((list_at(c, key, now).len() + args.len()) as int)
            &&& p.reply == bulk_reply(args.last())
            &&& list_at(p.cache, key, later) == pushed(
                list_at(c, key, now),
                args.drop_last(),
                front,
            )
        }),
{
    let args = args_of(value)->0;
    let empty = ValueView::List(seq![]);
    assert(item_sizes(seq![]) =~= seq![]);
    lemma_opened(c, now, key, empty);
    lemma_opened_records(c, now, key, empty, key);
    lemma_looked_up(c, key, now);
    let base = opened(c, now, key, empty);
    let l = list_at(c, key, now);
    let full = pushed(l, args, front);
    lemma_front_records(base, key, ValueView::List(full), key);
    let d = push_effect(c, now, key, value, front).cache;
    lemma_push_sound(c, now, key, value, front);
    lemma_pop(d, later, key, front);
    if front {
        assert(full[0] == args.last());
        assert(full.drop_first() =~= pushed(l, args.drop_last(), front));
    } else {
        assert(full.last() == args.last());
        assert(full.drop_last() =~= pushed(l, args.drop_last(), front));
    }
}

proof fn lemma_push_sound(c: CacheView, now: u64, key: Seq<u8>, value: Seq<u8>, front: bool)
    requires
        sound(c),
    ensures
        sound(push_effect(c, now, key, value, front).cache),
{
    if front {
        law_sound(c, now, ACT_LPUSH, key, value, 0);
    } else {
        law_sound(c, now, ACT_RPUSH, key, value, 0);
    }
}

/// A pop takes one item off the chosen end; the last item takes the key with it.
pub proof fn lemma_pop(c: CacheView, now: u64, key: Seq<u8>, front: bool)
    requires
        sound(c),
        c.live(key, now) matches Some(ValueView::List(_)),
    ensures
        ({
            let l = list_at(c, key, now);
            let p = pop_effect(c, now, key, front);
            &&& l.len() > 0
            &&& p.reply == bulk_reply(
                if front {
                    l[0]
                } else {
                    l.last()
                },
            )
            &&& list_at(p.cache, key, now) == (if front {
                l.drop_first()
            } else {
                l.drop_last()
            })
            &&& l.len() == 1 ==> p.cache.record(key) is None
        }),
{
    lemma_looked_up(c, key, now);
    let base = c.looked_up(key, now);
    let l = list_at(c, key, now);
    let v = ValueView::List(
        if front {
            l.drop_first()
        } else {
            l.drop_last()
        },
    );
    lemma_front_records(base, key, v, key);
    if l.len() == 1 {
        assert(l.drop_first() =~= seq![]);
        assert(l.drop_last() =~= seq![]);
    }
}

/// A pop takes one item off the chosen end of a list and replies with it; a pop of an
/// absent key replies that data is missing.
pub proof fn law_pop(c: CacheView, now: u64, key: Seq<u8>, front: bool)
    requires
        sound(c),
        pop_effect(c, now, key, front).done,
    ensures
        ({
            let l = list_at(c, key, now);
            let p = pop_effect(c, now, key, front);
            &&& l.len() == 0 ==> p.reply == seq![RSP_MISSING] && p.cache.live(key, now) is None
            &&& l.len() > 0 ==> p.reply == bulk_reply(
                if front {
                    l[0]
                } else {
                    l.last()
                },
            )
            &&& l.len() > 0 ==> list_at(p.cache, key, now) == (if front {
                l.drop_first()
            } else {
                l.drop_last()
            })
            &&& l.len() == 1 ==> p.cache.record(key) is None
        }),
{
    match c.live(key, now) {
        Some(ValueView::List(l)) => lemma_pop(c, now, key, front),
        _ => {
            lemma_looked_up_live(c, now, key, key, now);
        },
    }
}

/// Members added are members, members removed are not, and no other member changes.
proof fn lemma_member_keys(s: Seq<(Seq<u8>, ())>, args: Seq<Seq<u8>>, m: Seq<u8>)
    requires
        distinct_keys(s),
    ensures
        has_key(with_members(s, args), m) == (has_key(s, m) || args.contains(m)),
        has_key(without_members(s, args), m) == (has_key(s, m) && !args.contains(m)),
    decreases args.len(),
{
    if args.len() > 0 {
        let rest = args.drop_last();
        lemma_member_keys(s, rest, m);
        lemma_members_size(s, rest);
        law_bound(with_members(s, rest), args.last(), ());
        law_unbound(without_members(s, rest), args.last());
        if args.contains(m) && m != args.last() {
            let i = choose|i: int| 0 <= i < args.len() && args[i] == m;
            assert(rest[i] == m);
        }
        if rest.contains(m) {
            let i = choose|i: int| 0 <= i < rest.len() && rest[i] == m;
            assert(args[i] == m);
        }
        if m == args.last() {
            assert(args[args.len() - 1] == m);
        }
    }
}

/// SISMEMBER after SADD says yes for the added members and what it said before for all
/// others; SADD counts the new ones.
pub proof fn law_sadd_then_sismember(
    c: CacheView,
    now: u64,
    key: Seq<u8>,
    value: Seq<u8>,
    later: u64,
    query: Seq<u8>,
)
    requires
        sound(c),
        sadd_effect(c, now, key, value).done,
        args_of(query) matches Some(q) && q.len() == 1,
    ensures
        ({
            let e = sadd_effect(c, now, key, value);
            let args = args_of(value)->0;
            let m = (args_of(query)->0)[0];
            let s = members_at(c, key, now);
            let t = members_at(e.cache, key, later);
            &&& e.reply == int_reply(t.len() - s.len())
            &&& sismember_effect(e.cache, later, key, query).reply == int_reply(
                if has_key(s, m) || args.contains(m) {
                    1
                } else {
                    0
                },
            )
        }),
{
    let args = args_of(value)->0;
    let m = (args_of(query)->0)[0];
    let empty = ValueView::Members(seq![]);
    assert(member_sizes(seq![]) =~= seq![]);
    lemma_opened(c, now, key, empty);
    lemma_opened_records(c, now, key, empty, key);
    lemma_looked_up(c, key, now);
    let base = opened(c, now, key, empty);
    let s = members_at(c, key, now);
    lemma_member_keys(s, args, m);
    lemma_members_size(s, args);
    lemma_front_records(base, key, ValueView::Members(with_members(s, args)), key);
}

/// SISMEMBER after SREM says no for the removed members and what it said before for all
/// others; SREM counts the removed ones, and the last one takes the key with it.
pub proof fn law_srem_then_sismember(
    c: CacheView,
    now: u64,
    key: Seq<u8>,
    value: Seq<u8>,
    later: u64,
    query: Seq<u8>,
)
    requires
        sound(c),
        srem_effect(c, now, key, value).done,
        args_of(query) matches Some(q) && q.len() == 1,
        later >= now,
    ensures
        ({
            let e = srem_effect(c, now, key, value);
            let args = args_of(value)->0;
            let m = (args_of(query)->0)[0];
            let s = members_at(c, key, now);
            let t = members_at(e.cache, key, later);
            &&& e.reply == int_reply(s.len() - t.len())
            &&& sismember_effect(e.cache, later, key, query).reply == int_reply(
                if has_key(s, m) && !args.contains(m) {
                    1
                } else {
                    0
                },
            )
            &&& t.len() == 0 ==> e.cache.live(key, later) is None
        }),
{
    let args = args_of(value)->0;
    let m = (args_of(query)->0)[0];
    lemma_looked_up(c, key, now);
    let base = c.looked_up(key, now);
    let s = members_at(c, key, now);
    lemma_member_keys(s, args, m);
    lemma_members_size(s, args);
    if c.live(key, now) is Some {
        let t = without_members(s, args);
        lemma_front_records(base, key, ValueView::Members(t), key);
        if t.len() == 0 {
            assert(!has_key(t, m));
            assert(t =~= seq![]);
        }
    } else {
        lemma_looked_up_live(c, now, key, key, later);
    }
}

/// Where a live record stands in the snapshot.
proof fn lemma_snapshot_of(s: Seq<(Seq<u8>, Record)>, now: u64, i: int) -> (j: int)
    requires
        0 <= i < s.len(),
        !s[i].1.expired(now),
    ensures
        0 <= j < snapshot_of(s, now).len(),
        snapshot_of(s, now)[j] == info_of(s[i], now),
    decreases s.len(),
{
    let front = s.drop_last();
    if i == s.len() - 1 {
        snapshot_of(s, now).len() - 1
    } else {
        assert(front[i] == s[i]);
        lemma_snapshot_of(front, now, i)
    }
}

/// Where what the snapshot shows comes from.
proof fn lemma_snapshot_from(s: Seq<(Seq<u8>, Record)>, now: u64, j: int) -> (i: int)
    requires
        0 <= j < snapshot_of(s, now).len(),
    ensures
        0 <= i < s.len(),
        !s[i].1.expired(now),
        snapshot_of(s, now)[j] == info_of(s[i], now),
    decreases s.len(),
{
    let front = s.drop_last();
    if j < snapshot_of(front, now).len() {
        let i = lemma_snapshot_from(front, now, j);
        assert(front[i] == s[i]);
        i
    } else {
        s.len() - 1
    }
}

/// The snapshot shows exactly the keys that are live.
pub proof fn law_snapshot_shows_live_keys(c: CacheView, now: u64, key: Seq<u8>)
    requires
        sound(c),
    ensures
        c.live(key, now) is Some <==> exists|j: int|
            0 <= j < snapshot_of(c.entries, now).len() && (#[trigger] snapshot_of(
                c.entries,
                now,
            )[j]).0 == key,
{
    let shown = snapshot_of(c.entries, now);
    lemma_position(c.entries, key);
    if c.live(key, now) is Some {
        let j = lemma_snapshot_of(c.entries, now, position(c.entries, key));
        assert(shown[j].0 == key);
    }
    if exists|j: int| 0 <= j < shown.len() && (#[trigger] shown[j]).0 == key {
        let j = choose|j: int| 0 <= j < shown.len() && (#[trigger] shown[j]).0 == key;
        let i = lemma_snapshot_from(c.entries, now, j);
        lemma_record_at(c, i);
    }
}

/// A lookup of a live key makes it the most recently used, and changes the order of no two
/// others.
pub proof fn law_access_is_recency(c: CacheView, now: u64, key: Seq<u8>)
    requires
        sound(c),
        c.live(key, now) is Some,
    ensures
        c.looked_up(key, now).entries.len() == c.entries.len(),
        c.looked_up(key, now).entries[0].0 == key,
        c.looked_up(key, now).entries.drop_first() == c.without(key).entries,
{
    lemma_looked_up(c, key, now);
    lemma_position(c.entries, key);
    assert(c.looked_up(key, now).entries.drop_first() =~= c.without(key).entries);
}

/// Eviction takes the least recently used first: where SET evicts a key, it evicts every
/// key that was used less recently.
pub proof fn law_eviction_respects_recency(
    c: CacheView,
    now: u64,
    key: Seq<u8>,
    value: Seq<u8>,
    ttl: u32,
    i: int,
    j: int,
)
    requires
        sound(c),
        0 <= i < j < c.entries.len(),
        c.entries[i].0 != key,
        c.entries[j].0 != key,
        set_effect(c, now, key, value, ttl).cache.record(c.entries[i].0) is None,
    ensures
        set_effect(c, now, key, value, ttl).cache.record(c.entries[j].0) is None,
{
    let r = Record {
        value: ValueView::Str(value),
        expires_at: expiry(now, ttl),
        last_accessed: now,
    };
    let e = c.with_front(key, r);
    let d = e.fit(Some(key));
    lemma_with_front(c, key, r);
    lemma_position(c.entries, key);
    law_fitted(e.entries, c.cap, Some(key));
    let n = d.entries.len() as int;
    let p = position(c.entries, key);
    let a = if has_key(c.entries, key) && p < i {
        i
    } else {
        i + 1
    };
    let b = if has_key(c.entries, key) && p < j {
        j
    } else {
        j + 1
    };
    assert(e.entries[a] == c.entries[i]);
    assert(e.entries[b] == c.entries[j]);
    assert(forall|k: int| 0 <= k < n ==> #[trigger] d.entries[k] == e.entries[k]);
    if a < n {
        assert(d.entries[a].0 == c.entries[i].0);
        assert(has_key(d.entries, c.entries[i].0));
    }
    if has_key(d.entries, c.entries[j].0) {
        lemma_position(d.entries, c.entries[j].0);
        let k = position(d.entries, c.entries[j].0);
        assert(e.entries[k].0 == e.entries[b].0);
        if k < b {
            assert(e.entries[k].0 != e.entries[b].0);
        }
    }
}

} // verus!
