//! What the log of the commands gives back: replay rebuilds the live dataset.
use vstd::prelude::*;

use crate::aof::{file_after, joined, AofMsgView, AofView};
use crate::bytemap::{
    bound, distinct_keys, has_key, lemma_position, lemma_position_at, position, unbound,
};
use crate::cache_laws::{
    law_fitted, law_no_eviction, law_sound, lemma_fit, lemma_looked_up, lemma_opened,
    lemma_with_front, lemma_without, sound,
};
use crate::dump::{dump_of, dump_requests, frames_of};
use crate::effects::{effect, expiry, opened, pushed, with_members, without_members};
use crate::engine::head_of;
use crate::model::{dropped, record_sizes, CacheView, Record};
use crate::protocol::{
    args_of, framable, mutating, request_bytes, Request, ACT_DEL, ACT_FLUSH, ACT_HSET, ACT_LPOP,
    ACT_LPUSH, ACT_PUBLISH, ACT_RPUSH, ACT_SADD, ACT_SET,
};
use crate::replay::{
    lapsed, law_records, magic, records, relative_ttl, replayed, too_large,
};
use crate::replay_laws::{
    law_log_reads_back, law_replay_of_cache, law_replay_of_requests, lemma_dump_actions,
    lemma_file_of_requests, lemma_recalled_concat, lemma_recalled_dump, lemma_recalled_single,
    log_bytes, recalled, recalled_all, refreshed,
};
use crate::server::{
    applied, compacting, eviction_frames, law_evictions_are_reported, law_healthy_log_takes_all,
    log_frames, logged_ttl, Answers, ServerView,
};
use crate::store_laws::{
    law_command_spares_others, lemma_fit_records, lemma_gone, lemma_others,
};
use crate::value::ValueView;

verus! {

/// The value and the expiry of a key that is live at `now`.
pub open spec fn live_entry(c: CacheView, key: Seq<u8>, now: u64) -> Option<
    (ValueView, Option<u64>),
> {
    match c.record(key) {
        Some(r) => if r.expired(now) {
            None
        } else {
            Some((r.value, r.expires_at))
        },
        None => None,
    }
}

/// Whether two caches hold the same live data at `now`.
pub open spec fn same_live(c: CacheView, d: CacheView, now: u64) -> bool {
    forall|k: Seq<u8>| #[trigger] live_entry(c, k, now) == live_entry(d, k, now)
}

/// A command with the time at which it ran.
#[verifier::ext_equal]
pub struct Step {
    pub at: u64,
    pub action: u8,
    pub key: Seq<u8>,
    pub value: Seq<u8>,
    pub ttl: u32,
}

/// The keys that a command evicts from a cache without delete markers.
pub open spec fn evictions(c: CacheView, s: Step) -> Seq<Seq<u8>> {
    effect(c, s.at, s.action, s.key, s.value, s.ttl).cache.evicted
}

/// The cache after a command, with its evictions reported.
pub open spec fn ran_one(c: CacheView, s: Step) -> CacheView {
    let e = effect(c, s.at, s.action, s.key, s.value, s.ttl);
    if e.done {
        CacheView { evicted: seq![], ..e.cache }
    } else {
        e.cache
    }
}

/// What the log says of a command that changes stored data.
pub open spec fn log_entry(s: Step) -> Request {
    Request {
        action: s.action,
        key: s.key,
        value: s.value,
        ttl: logged_ttl(s.at, s.action, s.ttl),
    }
}

/// What the log says of evictions.
pub open spec fn deletes(keys: Seq<Seq<u8>>) -> Seq<Request> {
    keys.map_values(|k: Seq<u8>| Request { action: ACT_DEL, key: k, value: seq![], ttl: 0 })
}

/// What is logged of a command: the command, if it changes stored data and ran, and then
/// the deletes of what it evicted.
pub open spec fn log_one(c: CacheView, s: Step) -> Seq<Request> {
    let e = effect(c, s.at, s.action, s.key, s.value, s.ttl);
    if e.done {
        let own = if mutating(s.action) {
            seq![log_entry(s)]
        } else {
            seq![]
        };
        own + deletes(e.cache.evicted)
    } else {
        seq![]
    }
}

/// The log's frames are the frames of these requests.
pub proof fn law_log_frames(c: CacheView, s: Step)
    requires
        effect(c, s.at, s.action, s.key, s.value, s.ttl).done,
    ensures
        frames_of(log_one(c, s)) == log_frames(
            s.at,
            s.action,
            s.key,
            s.value,
            s.ttl,
            evictions(c, s),
        ),
{
    let keys = evictions(c, s);
    assert(frames_of(deletes(keys)) =~= eviction_frames(keys));
    assert(frames_of(log_one(c, s)) =~= log_frames(
        s.at,
        s.action,
        s.key,
        s.value,
        s.ttl,
        keys,
    ));
}

/// Whether the log's time field can hold the expiry of a SET.
pub open spec fn in_range(s: Step) -> bool {
    s.action == ACT_SET && s.ttl > 0 ==> s.at + s.ttl <= u32::MAX
}

/// Whether every record is live at `now`.
pub open spec fn all_live(c: CacheView, now: u64) -> bool {
    forall|i: int| 0 <= i < c.entries.len() ==> !(#[trigger] c.entries[i]).1.expired(now)
}

/// A cache whose records are all live, and the same as those of another, takes up no more
/// than the other.
proof fn lemma_used_by_live(c: CacheView, d: CacheView, now: u64)
    requires
        distinct_keys(c.entries),
        distinct_keys(d.entries),
        all_live(d, now),
        same_live(c, d, now),
    ensures
        d.used() <= c.used(),
    decreases d.entries.len(),
{
    if d.entries.len() == 0 {
        assert(record_sizes(d.entries) =~= seq![]);
    } else {
        let n = d.entries.len() - 1;
        let key = d.entries[n].0;
        lemma_position_at(d.entries, n);
        assert(live_entry(c, key, now) == live_entry(d, key, now));
        let e = c.without(key);
        let f = d.without(key);
        lemma_without(c, key);
        lemma_without(d, key);
        assert(f.entries =~= d.entries.drop_last());
        assert(same_live(e, f, now)) by {
            assert forall|k: Seq<u8>| #[trigger] live_entry(e, k, now) == live_entry(
                f,
                k,
                now,
            ) by {
                assert(live_entry(c, k, now) == live_entry(d, k, now));
                if k == key {
                    lemma_gone(c, key);
                    lemma_gone(d, key);
                } else {
                    lemma_others(c, key, arbitrary(), k);
                    lemma_others(d, key, arbitrary(), k);
                }
            }
        }
        assert(all_live(f, now)) by {
            assert(forall|i: int| 0 <= i < n ==> #[trigger] f.entries[i] == d.entries[i]);
        }
        lemma_used_by_live(e, f, now);
    }
}

/// How what a key holds when a command runs carries over to the time of replay: a
/// collection stays, and what is absent stays absent.
pub proof fn lemma_carries_over(c: CacheView, d: CacheView, key: Seq<u8>, at: u64, now: u64)
    requires
        sound(c),
        sound(d),
        same_live(c, d, now),
        at <= now,
    ensures
        c.live(key, at) is None ==> d.live(key, now) is None,
        c.live(key, at) is Some && !(c.live(key, at)->0 is Str) ==> d.live(key, now) == c.live(
            key,
            at,
        ) && c.record(key)->0.expires_at is None && d.record(key)->0.expires_at is None,
{
    assert(live_entry(c, key, now) == live_entry(d, key, now));
    lemma_position(c.entries, key);
    lemma_position(d.entries, key);
}

/// A lookup keeps the value and the expiry of every live key.
proof fn lemma_lookup_entry(c: CacheView, key: Seq<u8>, at: u64, now: u64, k: Seq<u8>)
    requires
        sound(c),
        at <= now,
    ensures
        live_entry(c.looked_up(key, at), k, now) == live_entry(c, k, now),
{
    match c.record(key) {
        Some(r) => {
            if k == key {
                lemma_gone(c, key);
                lemma_with_front(c, key, Record { last_accessed: at, ..r });
            } else {
                lemma_others(c, key, Record { last_accessed: at, ..r }, k);
            }
        },
        None => {},
    }
}

/// A record that outlives `now`, put in front on both sides.
proof fn lemma_same_front(
    c: CacheView,
    d: CacheView,
    key: Seq<u8>,
    p: Record,
    q: Record,
    now: u64,
)
    requires
        distinct_keys(c.entries),
        distinct_keys(d.entries),
        same_live(c, d, now),
        all_live(d, now),
        p.value == q.value,
        p.expires_at == q.expires_at,
        !q.expired(now),
    ensures
        same_live(c.with_front(key, p), d.with_front(key, q), now),
        all_live(d.with_front(key, q), now),
        d.with_front(key, q).used() <= c.with_front(key, p).used(),
{
    let a = c.with_front(key, p);
    let b = d.with_front(key, q);
    lemma_with_front(c, key, p);
    lemma_with_front(d, key, q);
    assert forall|k: Seq<u8>| #[trigger] live_entry(a, k, now) == live_entry(b, k, now) by {
        assert(live_entry(c, k, now) == live_entry(d, k, now));
        if k == key {
            assert(has_key(a.entries, key));
            assert(has_key(b.entries, key));
        } else {
            lemma_others(c, key, p, k);
            lemma_others(d, key, q, k);
        }
    }
    lemma_live_without(d, key, now);
    assert forall|i: int| 0 <= i < b.entries.len() implies !(#[trigger] b.entries[i]).1.expired(
        now,
    ) by {
        if i > 0 {
            assert(b.entries[i] == d.without(key).entries[i - 1]);
        }
    }
    lemma_used_by_live(a, b, now);
}

/// Leaving out a key leaves live records live.
proof fn lemma_live_without(d: CacheView, key: Seq<u8>, now: u64)
    requires
        all_live(d, now),
    ensures
        all_live(d.without(key), now),
{
    let e = d.without(key).entries;
    lemma_position(d.entries, key);
    if has_key(d.entries, key) {
        let p = position(d.entries, key);
        assert forall|i: int| 0 <= i < e.len() implies !(#[trigger] e[i]).1.expired(now) by {
            assert(e[i] == d.entries[if i < p {
                i
            } else {
                i + 1
            }]);
        }
    }
}

/// Leaving out a key on both sides.
proof fn lemma_same_without(c: CacheView, d: CacheView, key: Seq<u8>, now: u64)
    requires
        distinct_keys(c.entries),
        distinct_keys(d.entries),
        same_live(c, d, now),
        all_live(d, now),
    ensures
        same_live(c.without(key), d.without(key), now),
        all_live(d.without(key), now),
{
    lemma_live_without(d, key, now);
    assert forall|k: Seq<u8>| #[trigger] live_entry(c.without(key), k, now) == live_entry(
        d.without(key),
        k,
        now,
    ) by {
        assert(live_entry(c, k, now) == live_entry(d, k, now));
        if k == key {
            lemma_gone(c, key);
            lemma_gone(d, key);
        } else {
            lemma_others(c, key, arbitrary(), k);
            lemma_others(d, key, arbitrary(), k);
        }
    }
}

/// A record put in front twice is put there once.
pub proof fn lemma_front_again(c: CacheView, key: Seq<u8>, p: Record, q: Record)
    requires
        distinct_keys(c.entries),
    ensures
        c.with_front(key, p).with_front(key, q) == c.with_front(key, q),
        c.without(key).with_front(key, q) == c.with_front(key, q),
        c.with_front(key, p).without(key) == c.without(key),
        c.with_front(key, p).revalued(key, q.value) == c.with_front(
            key,
            Record { value: q.value, ..p },
        ),
{
    lemma_with_front(c, key, p);
    lemma_without(c, key);
    let a = c.with_front(key, p);
    assert(has_key(a.entries, key));
    assert(a.entries.remove(0) =~= c.without(key).entries);
    assert(a.with_front(key, q) =~= c.with_front(key, q));
    assert(c.without(key).with_front(key, q) =~= c.with_front(key, q));
    assert(a.without(key) =~= c.without(key));
    assert(a.revalued(key, q.value) =~= c.with_front(key, Record { value: q.value, ..p }));
}

/// A change of the collection under a key, as a record put in front.
proof fn lemma_change_in_front(
    c: CacheView,
    at: u64,
    key: Seq<u8>,
    empty: ValueView,
    v: ValueView,
)
    requires
        sound(c),
        c.live(key, at) matches Some(w) ==> !(w is Str),
    ensures
        ({
            let front = c.with_front(
                key,
                Record { value: v, expires_at: None, last_accessed: at },
            );
            &&& opened(c, at, key, empty).revalued(key, v) == front
            &&& c.live(key, at) is Some ==> c.looked_up(key, at).revalued(key, v) == front
            &&& opened(c, at, key, empty).entries.len() > 0
            &&& opened(c, at, key, empty).entries[0].1.value == (match c.live(key, at) {
                Some(w) => w,
                None => empty,
            })
        }),
{
    let q = Record { value: v, expires_at: None, last_accessed: at };
    lemma_position(c.entries, key);
    match c.record(key) {
        Some(r) => {
            if r.expired(at) {
                let p = Record { value: empty, expires_at: None, last_accessed: at };
                lemma_front_again(c, key, p, q);
                lemma_with_front(c, key, p);
            } else {
                let p = Record { last_accessed: at, ..r };
                lemma_front_again(c, key, p, q);
                lemma_with_front(c, key, p);
            }
        },
        None => {
            let p = Record { value: empty, expires_at: None, last_accessed: at };
            lemma_front_again(c, key, p, q);
            lemma_with_front(c, key, p);
        },
    }
}

/// The collection that a command leaves under a key that holds `w`, if it writes one.
pub open spec fn changed(w: Option<ValueView>, action: u8, value: Seq<u8>) -> Option<ValueView> {
    let args = args_of(value)->0;
    match w {
        Some(ValueView::Hash(h)) => if action == ACT_HSET {
            Some(ValueView::Hash(bound(h, args[0], args[1])))
        } else {
            Some(ValueView::Hash(unbound(h, args[0])))
        },
        Some(ValueView::List(l)) => if action == ACT_LPUSH || action == ACT_RPUSH {
            Some(ValueView::List(pushed(l, args, action == ACT_LPUSH)))
        } else if action == ACT_LPOP {
            Some(ValueView::List(l.drop_first()))
        } else {
            Some(ValueView::List(l.drop_last()))
        },
        Some(ValueView::Members(m)) => if action == ACT_SADD {
            Some(ValueView::Members(with_members(m, args)))
        } else {
            Some(ValueView::Members(without_members(m, args)))
        },
        Some(ValueView::Str(_)) => None,
        None => if action == ACT_HSET {
            Some(ValueView::Hash(bound(seq![], args[0], args[1])))
        } else if action == ACT_LPUSH || action == ACT_RPUSH {
            Some(ValueView::List(pushed(seq![], args, action == ACT_LPUSH)))
        } else if action == ACT_SADD {
            Some(ValueView::Members(with_members(seq![], args)))
        } else {
            None
        },
    }
}

/// Whether an action works on collections and changes stored data.
pub open spec fn on_collection(action: u8) -> bool {
    mutating(action) && action != ACT_SET && action != ACT_DEL && action != ACT_FLUSH
}

/// What a command on a collection does: the collection ends up in front and the change is
/// settled, or nothing was there.
pub proof fn lemma_collection_effect(
    c: CacheView,
    at: u64,
    action: u8,
    key: Seq<u8>,
    value: Seq<u8>,
    ttl: u32,
)
    requires
        sound(c),
        on_collection(action),
        effect(c, at, action, key, value, ttl).done,
    ensures
        c.live(key, at) matches Some(w) ==> !(w is Str),
        match changed(c.live(key, at), action, value) {
            Some(v) => effect(c, at, action, key, value, ttl).cache == c.with_front(
                key,
                Record { value: v, expires_at: None, last_accessed: at },
            ).settled(key),
            None => effect(c, at, action, key, value, ttl).cache == c.looked_up(key, at)
                && c.live(key, at) is None,
        },
{
    lemma_looked_up(c, key, at);
    lemma_position(c.entries, key);
    let v = changed(c.live(key, at), action, value);
    let empty = if action == ACT_HSET {
        ValueView::Hash(seq![])
    } else if action == ACT_SADD {
        ValueView::Members(seq![])
    } else {
        ValueView::List(seq![])
    };
    match v {
        Some(v) => lemma_change_in_front(c, at, key, empty, v),
        None => {},
    }
}

/// Whether a command on a collection runs depends on what the key holds alone.
pub proof fn lemma_collection_runs(
    c: CacheView,
    at: u64,
    d: CacheView,
    now: u64,
    action: u8,
    key: Seq<u8>,
    value: Seq<u8>,
    ttl: u32,
)
    requires
        on_collection(action),
        sound(c),
        sound(d),
        c.live(key, at) == d.live(key, now),
        effect(c, at, action, key, value, ttl).done,
    ensures
        effect(d, now, action, key, value, 0).done,
{
    lemma_looked_up(c, key, at);
    lemma_looked_up(d, key, now);
    let q = ValueView::Str(seq![]);
    lemma_collection_effect(c, at, action, key, value, ttl);
    lemma_change_in_front(c, at, key, ValueView::Hash(seq![]), q);
    lemma_change_in_front(c, at, key, ValueView::List(seq![]), q);
    lemma_change_in_front(c, at, key, ValueView::Members(seq![]), q);
    lemma_change_in_front(d, now, key, ValueView::Hash(seq![]), q);
    lemma_change_in_front(d, now, key, ValueView::List(seq![]), q);
    lemma_change_in_front(d, now, key, ValueView::Members(seq![]), q);
}

/// Two caches without delete markers that hold the same live data; the second holds nothing
/// else.
pub open spec fn mirrors(c: CacheView, d: CacheView, now: u64) -> bool {
    &&& sound(c) && sound(d)
    &&& c.evicted.len() == 0 && d.evicted.len() == 0
    &&& same_live(c, d, now)
    &&& all_live(d, now)
}

/// Whether the body of a request fits a cache of `cap` bytes, or does not have to because
/// the request is a SET that has expired.
pub open spec fn fits(cap: nat, r: Request, now: u64) -> bool {
    lapsed(r, now) || !too_large(cap, r)
}

/// Whether a cache has room to replay a request: its body fits, and nothing is evicted. A
/// SET that has expired needs none.
pub open spec fn has_room(d: CacheView, r: Request, now: u64) -> bool {
    lapsed(r, now) || !too_large(d.cap, r) && effect(
        d,
        now,
        r.action,
        r.key,
        r.value,
        relative_ttl(r, now),
    ).cache.evicted == d.evicted
}

/// Whether a cache has room to replay requests one by one.
pub open spec fn has_room_for_all(d: CacheView, rs: Seq<Request>, now: u64) -> bool
    decreases rs.len(),
{
    rs.len() > 0 ==> has_room(d, rs[0], now) && has_room_for_all(
        recalled(d, rs[0], now),
        rs.drop_first(),
        now,
    )
}

/// Room for requests in two parts.
proof fn lemma_room_concat(d: CacheView, a: Seq<Request>, b: Seq<Request>, now: u64)
    ensures
        has_room_for_all(d, a + b, now) == (has_room_for_all(d, a, now) && has_room_for_all(
            recalled_all(d, a, now),
            b,
            now,
        )),
    decreases a.len(),
{
    if a.len() == 0 {
        assert(a + b =~= b);
    } else {
        lemma_room_concat(recalled(d, a[0], now), a.drop_first(), b, now);
        assert((a + b).drop_first() =~= a.drop_first() + b);
        assert((a + b)[0] == a[0]);
    }
}

/// Whether a command makes the store drop what it has no room for.
pub open spec fn enforces_cap(c: CacheView, s: Step) -> bool {
    s.action == ACT_SET || on_collection(s.action) && (changed(
        c.live(s.key, s.at),
        s.action,
        s.value,
    ) matches Some(v) && !v.empty_collection())
}

/// The record that a command on a string or a collection puts in front.
pub open spec fn front_record(c: CacheView, s: Step) -> Record {
    if s.action == ACT_SET {
        Record {
            value: ValueView::Str(s.value),
            expires_at: expiry(s.at, s.ttl),
            last_accessed: s.at,
        }
    } else {
        Record {
            value: changed(c.live(s.key, s.at), s.action, s.value)->0,
            expires_at: None,
            last_accessed: s.at,
        }
    }
}

/// The cache after a command, before anything is dropped.
pub open spec fn unfitted(c: CacheView, s: Step) -> CacheView {
    if enforces_cap(c, s) {
        c.with_front(s.key, front_record(c, s))
    } else {
        ran_one(c, s)
    }
}

/// What is dropped after a command is logged as evicted.
pub proof fn lemma_unfitted(c: CacheView, s: Step)
    requires
        sound(c),
        c.evicted.len() == 0,
        mutating(s.action),
        effect(c, s.at, s.action, s.key, s.value, s.ttl).done,
    ensures
        distinct_keys(unfitted(c, s).entries),
        unfitted(c, s).evicted.len() == 0,
        if enforces_cap(c, s) {
            &&& ran_one(c, s).entries == unfitted(c, s).fit(Some(s.key)).entries
            &&& evictions(c, s) == dropped(unfitted(c, s).entries, c.cap, Some(s.key))
            &&& unfitted(c, s).cap == c.cap
        } else {
            evictions(c, s).len() == 0
        },
{
    let e = effect(c, s.at, s.action, s.key, s.value, s.ttl);
    law_sound(c, s.at, s.action, s.key, s.value, s.ttl);
    lemma_looked_up(c, s.key, s.at);
    if on_collection(s.action) {
        lemma_collection_effect(c, s.at, s.action, s.key, s.value, s.ttl);
        if let Some(v) = changed(c.live(s.key, s.at), s.action, s.value) {
            let r = Record { value: v, expires_at: None, last_accessed: s.at };
            lemma_with_front(c, s.key, r);
        }
    }
    if enforces_cap(c, s) {
        let p = unfitted(c, s);
        lemma_with_front(c, s.key, front_record(c, s));
        assert(e.cache == p.fit(Some(s.key)));
        assert(p.evicted + dropped(p.entries, c.cap, Some(s.key)) =~= dropped(
            p.entries,
            c.cap,
            Some(s.key),
        ));
    }
}

/// Replaying a command does to the second cache what the command did to the first, before
/// anything was dropped there.
proof fn lemma_own_replayed(c: CacheView, d: CacheView, s: Step, now: u64)
    requires
        mirrors(c, d, now),
        s.at <= now,
        in_range(s),
        mutating(s.action),
        effect(c, s.at, s.action, s.key, s.value, s.ttl).done,
        has_room(d, log_entry(s), now),
    ensures
        ({
            let f = recalled(d, log_entry(s), now);
            &&& sound(f)
            &&& same_live(unfitted(c, s), f, now)
            &&& all_live(f, now)
            &&& f.cap == d.cap
            &&& f.evicted.len() == 0
        }),
{
    let r = log_entry(s);
    let ttl = relative_ttl(r, now);
    let f = recalled(d, r, now);
    law_sound(d, now, s.action, s.key, s.value, ttl);
    law_no_eviction(d, now, s.action, s.key, s.value, ttl);
    lemma_without(d, s.key);
    lemma_unfitted(c, s);
    if s.action == ACT_SET {
        if lapsed(r, now) {
            lemma_lapsed_set(c, d, s, now);
        } else {
            let q = Record {
                value: ValueView::Str(s.value),
                expires_at: expiry(now, ttl),
                last_accessed: now,
            };
            let b = d.with_front(s.key, q);
            assert(expiry(now, ttl) == expiry(s.at, s.ttl));
            lemma_same_front(c, d, s.key, front_record(c, s), q, now);
            lemma_with_front(d, s.key, q);
            lemma_fit_records(b, Some(s.key), s.key);
            lemma_same_entries(unfitted(c, s), b, f, now);
        }
    } else if s.action == ACT_DEL {
        lemma_same_without(c, d, s.key, now);
        lemma_same_entries(c.without(s.key), d.without(s.key), f, now);
        lemma_same_entries(f, c.without(s.key), unfitted(c, s), now);
    } else if s.action == ACT_FLUSH {
    } else {
        lemma_collection_replayed(c, d, s, now);
    }
}

/// What is live depends on the records alone.
proof fn lemma_same_entries(a: CacheView, c: CacheView, d: CacheView, now: u64)
    requires
        c.entries == d.entries,
        same_live(a, c, now) || same_live(c, a, now),
    ensures
        same_live(a, d, now),
        same_live(d, a, now),
        all_live(c, now) ==> all_live(d, now),
{
    assert forall|k: Seq<u8>| #[trigger] live_entry(a, k, now) == live_entry(d, k, now) by {
        assert(live_entry(a, k, now) == live_entry(c, k, now)) by {
            if same_live(c, a, now) {
                assert(live_entry(c, k, now) == live_entry(a, k, now));
            }
        }
        assert(live_entry(c, k, now) == live_entry(d, k, now));
    }
    assert forall|k: Seq<u8>| #[trigger] live_entry(d, k, now) == live_entry(a, k, now) by {
        assert(live_entry(a, k, now) == live_entry(d, k, now));
    }
}

/// Replaying a SET that has expired.
proof fn lemma_lapsed_set(c: CacheView, d: CacheView, s: Step, now: u64)
    requires
        mirrors(c, d, now),
        s.at <= now,
        in_range(s),
        s.action == ACT_SET,
        lapsed(log_entry(s), now),
    ensures
        same_live(unfitted(c, s), d.without(s.key), now),
        all_live(d.without(s.key), now),
{
    let p = front_record(c, s);
    let a = unfitted(c, s);
    let key = s.key;
    lemma_with_front(c, key, p);
    lemma_same_without(c, d, key, now);
    assert forall|k: Seq<u8>| #[trigger] live_entry(a, k, now) == live_entry(
        d.without(key),
        k,
        now,
    ) by {
        assert(live_entry(c.without(key), k, now) == live_entry(d.without(key), k, now));
        if k == key {
            assert(has_key(a.entries, key));
            lemma_gone(d, key);
        } else {
            lemma_others(c, key, p, k);
        }
    }
}

/// Replaying a command on a collection.
proof fn lemma_collection_replayed(c: CacheView, d: CacheView, s: Step, now: u64)
    requires
        mirrors(c, d, now),
        s.at <= now,
        on_collection(s.action),
        effect(c, s.at, s.action, s.key, s.value, s.ttl).done,
        has_room(d, log_entry(s), now),
    ensures
        ({
            let f = recalled(d, log_entry(s), now);
            &&& same_live(unfitted(c, s), f, now)
            &&& all_live(f, now)
        }),
{
    let key = s.key;
    let f = recalled(d, log_entry(s), now);
    let g = effect(d, now, s.action, key, s.value, 0).cache;
    lemma_collection_effect(c, s.at, s.action, key, s.value, s.ttl);
    lemma_carries_over(c, d, key, s.at, now);
    assert(c.live(key, s.at) == d.live(key, now));
    lemma_collection_runs(c, s.at, d, now, s.action, key, s.value, s.ttl);
    lemma_collection_effect(d, now, s.action, key, s.value, 0);
    match changed(c.live(key, s.at), s.action, s.value) {
        Some(v) => {
            let p = Record { value: v, expires_at: None, last_accessed: s.at };
            let q = Record { value: v, expires_at: None, last_accessed: now };
            lemma_with_front(c, key, p);
            lemma_with_front(d, key, q);
            if v.empty_collection() {
                lemma_front_again(c, key, p, p);
                lemma_front_again(d, key, q, q);
                lemma_same_without(c, d, key, now);
                lemma_same_entries(c.without(key), d.without(key), f, now);
                lemma_same_entries(f, c.without(key), unfitted(c, s), now);
            } else {
                lemma_same_front(c, d, key, p, q, now);
                lemma_fit_records(d.with_front(key, q), Some(key), key);
                lemma_same_entries(unfitted(c, s), d.with_front(key, q), f, now);
            }
        },
        None => {
            lemma_position(d.entries, key);
            assert(g.entries == d.entries);
            assert(f.entries == d.entries);
            lemma_same_entries(c, d, f, now);
            assert forall|k: Seq<u8>| #[trigger] live_entry(unfitted(c, s), k, now) == live_entry(
                f,
                k,
                now,
            ) by {
                lemma_lookup_entry(c, key, s.at, now, k);
                assert(live_entry(c, k, now) == live_entry(f, k, now));
            }
        },
    }
}

/// Dropping records takes away the keys that are reported, and no others.
pub proof fn lemma_fit_drops(p: CacheView, keep: Option<Seq<u8>>, k: Seq<u8>)
    requires
        distinct_keys(p.entries),
    ensures
        p.fit(keep).record(k) == (if dropped(p.entries, p.cap, keep).contains(k) {
            None
        } else {
            p.record(k)
        }),
{
    let s = p.entries;
    let gone = dropped(s, p.cap, keep);
    let d = p.fit(keep);
    law_fitted(s, p.cap, keep);
    lemma_fit_records(p, keep, k);
    let n = d.entries.len() as int;
    assert(forall|i: int| 0 <= i < n ==> #[trigger] d.entries[i] == s[i]);
    lemma_position(s, k);
    lemma_position(d.entries, k);
    if gone.contains(k) {
        let i = gone.index_of(k);
        assert(gone[i] == s[s.len() - 1 - i].0);
        if has_key(d.entries, k) {
            let j = position(d.entries, k);
            assert(d.entries[j] == s[j]);
            assert(s[j].0 != s[s.len() - 1 - i].0);
        }
    } else if has_key(s, k) {
        let j = position(s, k);
        if j >= n {
            assert(gone[s.len() - 1 - j] == s[j].0);
        }
        assert(d.entries[j] == s[j]);
        assert(has_key(d.entries, k));
    }
}

/// Replaying deletes.
proof fn lemma_deletes(d: CacheView, keys: Seq<Seq<u8>>, now: u64)
    requires
        sound(d),
        d.evicted.len() == 0,
        all_live(d, now),
        has_room_for_all(d, deletes(keys), now),
    ensures
        ({
            let f = recalled_all(d, deletes(keys), now);
            &&& sound(f)
            &&& f.evicted.len() == 0
            &&& all_live(f, now)
            &&& f.cap == d.cap
            &&& forall|k: Seq<u8>| #[trigger]
                f.record(k) == (if keys.contains(k) {
                    None
                } else {
                    d.record(k)
                })
        }),
    decreases keys.len(),
{
    if keys.len() > 0 {
        let key = keys[0];
        let rest = keys.drop_first();
        let rs = deletes(keys);
        let e = recalled(d, rs[0], now);
        assert(rs.drop_first() =~= deletes(rest));
        lemma_without(d, key);
        lemma_live_without(d, key, now);
        assert(e.entries == d.without(key).entries);
        assert(forall|i: int|
            0 <= i < e.entries.len() ==> #[trigger] e.entries[i] == d.without(key).entries[i]);
        lemma_deletes(e, rest, now);
        let f = recalled_all(d, rs, now);
        assert forall|k: Seq<u8>| #[trigger] f.record(k) == (if keys.contains(k) {
            None
        } else {
            d.record(k)
        }) by {
            assert(f.record(k) == recalled_all(e, deletes(rest), now).record(k));
            assert(keys =~= seq![key] + rest);
            if k == key {
                lemma_gone(d, key);
                assert(keys[0] == k);
            } else {
                lemma_others(d, key, arbitrary(), k);
                if rest.contains(k) {
                    assert(keys[rest.index_of(k) + 1] == k);
                }
                if keys.contains(k) {
                    assert(rest[keys.index_of(k) - 1] == k);
                }
            }
        }
    }
}

/// Replaying what was logged of a command does to a cache with the same live data what the
/// command did, evictions included, as long as the replay finds room.
pub proof fn law_replayed_command(c: CacheView, d: CacheView, s: Step, now: u64)
    requires
        mirrors(c, d, now),
        s.at <= now,
        in_range(s),
        mutating(s.action),
        effect(c, s.at, s.action, s.key, s.value, s.ttl).done,
        has_room_for_all(d, log_one(c, s), now),
    ensures
        mirrors(ran_one(c, s), recalled_all(d, log_one(c, s), now), now),
        recalled_all(d, log_one(c, s), now).cap == d.cap,
        ran_one(c, s).cap == c.cap,
{
    let r = log_entry(s);
    let own = seq![r];
    let keys = evictions(c, s);
    let dels = deletes(keys);
    let p = unfitted(c, s);
    let e = recalled(d, r, now);
    let f = recalled_all(d, log_one(c, s), now);
    law_sound(c, s.at, s.action, s.key, s.value, s.ttl);
    law_no_eviction(c, s.at, s.action, s.key, s.value, s.ttl);
    lemma_room_concat(d, own, dels, now);
    lemma_recalled_concat(d, own, dels, now);
    lemma_recalled_single(d, r, now);
    assert(own[0] == r);
    lemma_own_replayed(c, d, s, now);
    lemma_deletes(e, keys, now);
    lemma_unfitted(c, s);
    assert forall|k: Seq<u8>| #[trigger] live_entry(ran_one(c, s), k, now) == live_entry(
        f,
        k,
        now,
    ) by {
        assert(live_entry(p, k, now) == live_entry(e, k, now));
        assert(f.record(k) == (if keys.contains(k) {
            None
        } else {
            e.record(k)
        }));
        if enforces_cap(c, s) {
            lemma_fit_drops(p, Some(s.key), k);
            assert(ran_one(c, s).record(k) == p.fit(Some(s.key)).record(k));
        }
    }
}

/// Where nothing is dropped on one side, nothing is dropped on the other.
proof fn lemma_nothing_dropped(a: CacheView, b: CacheView, key: Seq<u8>, now: u64)
    requires
        distinct_keys(a.entries),
        distinct_keys(b.entries),
        same_live(a, b, now),
        all_live(b, now),
        b.used() <= a.used(),
        a.cap <= b.cap,
        a.entries.len() > 0,
        a.entries[0].0 == key,
        b.entries.len() > 0,
        b.entries[0].0 == key,
        a.fit(Some(key)) == a,
    ensures
        b.fit(Some(key)) == b,
{
    law_fitted(a.entries, a.cap, Some(key));
    lemma_fit(b, Some(key));
    let n = a.entries.len() as int;
    assert(a.entries.take(n) =~= a.entries);
    if a.used() > a.cap {
        if n > 1 {
            assert(a.entries[0].0 != a.entries[n - 1].0);
        }
        if b.entries.len() > 1 {
            let k = b.entries[1].0;
            lemma_position_at(b.entries, 1);
            assert(b.entries[0].0 != b.entries[1].0);
            assert(live_entry(a, k, now) == live_entry(b, k, now));
            lemma_position(a.entries, k);
        }
        assert(b.fit(Some(key)) =~= b);
    }
}

/// A command that finds room in the first cache finds room in the second.
proof fn lemma_room_carries_over(c: CacheView, d: CacheView, s: Step, now: u64)
    requires
        mirrors(c, d, now),
        s.at <= now,
        in_range(s),
        mutating(s.action),
        effect(c, s.at, s.action, s.key, s.value, s.ttl).done,
        evictions(c, s).len() == 0,
        c.cap <= d.cap,
        fits(d.cap, log_entry(s), now),
    ensures
        has_room(d, log_entry(s), now),
{
    let key = s.key;
    let r = log_entry(s);
    let ttl = relative_ttl(r, now);
    lemma_unfitted(c, s);
    lemma_looked_up(d, key, now);
    if enforces_cap(c, s) {
        let a = unfitted(c, s);
        lemma_fit_records(a, Some(key), key);
        assert(a.fit(Some(key)).evicted =~= a.evicted);
        assert(ran_one(c, s).entries == a.entries);
    }
    if s.action == ACT_SET && !lapsed(r, now) {
        let q = Record {
            value: ValueView::Str(s.value),
            expires_at: expiry(now, ttl),
            last_accessed: now,
        };
        assert(expiry(now, ttl) == expiry(s.at, s.ttl));
        lemma_same_front(c, d, key, front_record(c, s), q, now);
        lemma_with_front(c, key, front_record(c, s));
        lemma_with_front(d, key, q);
        lemma_nothing_dropped(unfitted(c, s), d.with_front(key, q), key, now);
    }
    if on_collection(s.action) {
        lemma_collection_effect(c, s.at, s.action, key, s.value, s.ttl);
        lemma_carries_over(c, d, key, s.at, now);
        assert(c.live(key, s.at) == d.live(key, now));
        lemma_collection_runs(c, s.at, d, now, s.action, key, s.value, s.ttl);
        lemma_collection_effect(d, now, s.action, key, s.value, 0);
        if let Some(v) = changed(c.live(key, s.at), s.action, s.value) {
            let q = Record { value: v, expires_at: None, last_accessed: now };
            lemma_with_front(d, key, q);
            if !v.empty_collection() {
                lemma_same_front(c, d, key, front_record(c, s), q, now);
                lemma_with_front(c, key, front_record(c, s));
                lemma_nothing_dropped(unfitted(c, s), d.with_front(key, q), key, now);
            }
        }
    }
}

/// The cache after commands.
pub open spec fn ran_all(c: CacheView, steps: Seq<Step>) -> CacheView
    decreases steps.len(),
{
    if steps.len() == 0 {
        c
    } else {
        ran_all(ran_one(c, steps[0]), steps.drop_first())
    }
}

/// What the log says of commands.
pub open spec fn log_of(c: CacheView, steps: Seq<Step>) -> Seq<Request>
    decreases steps.len(),
{
    if steps.len() == 0 {
        seq![]
    } else {
        log_one(c, steps[0]) + log_of(ran_one(c, steps[0]), steps.drop_first())
    }
}

/// Whether commands ran before `now`, and the log's time field can hold their expiries.
pub open spec fn timely(steps: Seq<Step>, now: u64) -> bool {
    forall|i: int| 0 <= i < steps.len() ==> (#[trigger] steps[i]).at <= now && in_range(steps[i])
}

/// Whether no command of a run evicts anything, and the bodies of what is logged fit a
/// cache of `cap` bytes, but for SETs that have expired by `now`.
pub open spec fn never_evicts(c: CacheView, steps: Seq<Step>, cap: nat, now: u64) -> bool
    decreases steps.len(),
{
    steps.len() > 0 ==> {
        &&& evictions(c, steps[0]).len() == 0
        &&& forall|i: int|
            0 <= i < log_one(c, steps[0]).len() ==> fits(
                cap,
                #[trigger] log_one(c, steps[0])[i],
                now,
            )
        &&& never_evicts(ran_one(c, steps[0]), steps.drop_first(), cap, now)
    }
}

/// A command that is not logged changes no live data.
proof fn lemma_not_logged(c: CacheView, s: Step, now: u64)
    requires
        sound(c),
        c.evicted.len() == 0,
        s.at <= now,
        !(mutating(s.action) && effect(c, s.at, s.action, s.key, s.value, s.ttl).done),
    ensures
        same_live(ran_one(c, s), c, now),
        ran_one(c, s).evicted.len() == 0,
        ran_one(c, s).cap == c.cap,
        log_one(c, s) == Seq::<Request>::empty(),
{
    law_no_eviction(c, s.at, s.action, s.key, s.value, s.ttl);
    lemma_opened(c, s.at, s.key, ValueView::List(seq![]));
    assert forall|k: Seq<u8>| #[trigger] live_entry(ran_one(c, s), k, now) == live_entry(
        c,
        k,
        now,
    ) by {
        lemma_lookup_entry(c, s.key, s.at, now, k);
    }
    assert(log_one(c, s) =~= seq![]);
}

/// One command of a run and its replay.
proof fn lemma_step(c: CacheView, d: CacheView, s: Step, now: u64)
    requires
        mirrors(c, d, now),
        s.at <= now,
        in_range(s),
        has_room_for_all(d, log_one(c, s), now),
    ensures
        mirrors(ran_one(c, s), recalled_all(d, log_one(c, s), now), now),
        recalled_all(d, log_one(c, s), now).cap == d.cap,
        ran_one(c, s).cap == c.cap,
{
    if mutating(s.action) && effect(c, s.at, s.action, s.key, s.value, s.ttl).done {
        law_replayed_command(c, d, s, now);
    } else {
        let e = ran_one(c, s);
        law_sound(c, s.at, s.action, s.key, s.value, s.ttl);
        lemma_not_logged(c, s, now);
        assert forall|k: Seq<u8>| #[trigger] live_entry(e, k, now) == live_entry(d, k, now) by {
            assert(live_entry(c, k, now) == live_entry(d, k, now));
        }
    }
}

/// Replaying the log of a run of commands rebuilds the live dataset: on a cache with the
/// same live data at the start it ends with the same live data. The run may evict; the
/// replay must find room.
pub proof fn law_log_then_replay(c: CacheView, d: CacheView, steps: Seq<Step>, now: u64)
    requires
        mirrors(c, d, now),
        timely(steps, now),
        has_room_for_all(d, log_of(c, steps), now),
    ensures
        mirrors(ran_all(c, steps), recalled_all(d, log_of(c, steps), now), now),
    decreases steps.len(),
{
    if steps.len() > 0 {
        let s = steps[0];
        let rest = steps.drop_first();
        let e = ran_one(c, s);
        let first = log_one(c, s);
        assert(forall|i: int| 0 <= i < rest.len() ==> #[trigger] rest[i] == steps[i + 1]);
        lemma_room_concat(d, first, log_of(e, rest), now);
        lemma_recalled_concat(d, first, log_of(e, rest), now);
        lemma_step(c, d, s, now);
        law_log_then_replay(e, recalled_all(d, first, now), rest, now);
    }
}

/// A run that never evicts leaves a log that a cache with at least the same cap has room to
/// replay.
pub proof fn law_room_to_replay(c: CacheView, d: CacheView, steps: Seq<Step>, now: u64)
    requires
        mirrors(c, d, now),
        timely(steps, now),
        c.cap <= d.cap,
        never_evicts(c, steps, d.cap, now),
    ensures
        has_room_for_all(d, log_of(c, steps), now),
    decreases steps.len(),
{
    if steps.len() > 0 {
        let s = steps[0];
        let rest = steps.drop_first();
        let e = ran_one(c, s);
        let first = log_one(c, s);
        assert(forall|i: int| 0 <= i < rest.len() ==> #[trigger] rest[i] == steps[i + 1]);
        if mutating(s.action) && effect(c, s.at, s.action, s.key, s.value, s.ttl).done {
            let r = log_entry(s);
            assert(first =~= seq![r]);
            assert(fits(d.cap, first[0], now));
            lemma_room_carries_over(c, d, s, now);
            assert(first.drop_first() =~= seq![]);
            assert(has_room_for_all(recalled(d, r, now), first.drop_first(), now));
        } else {
            lemma_not_logged(c, s, now);
        }
        lemma_step(c, d, s, now);
        law_room_to_replay(e, recalled_all(d, first, now), rest, now);
        lemma_room_concat(d, first, log_of(e, rest), now);
    }
}

/// The server after commands; `answers` is what the world outside answers to each.
pub open spec fn served_all(s: ServerView, steps: Seq<Step>, answers: Seq<Answers>) -> ServerView
    decreases steps.len(),
{
    if steps.len() == 0 {
        s
    } else {
        let p = steps[0];
        served_all(
            applied(s, p.action, p.key, p.value, p.ttl, answers[0]).0,
            steps.drop_first(),
            answers.skip(1),
        )
    }
}

/// Answers that fit the commands: the clock stands at each command's time, and the writer
/// takes every frame that it is handed.
pub open spec fn writer_takes_all(c: CacheView, steps: Seq<Step>, answers: Seq<Answers>) -> bool
    decreases steps.len(),
{
    steps.len() > 0 ==> {
        &&& answers[0].now == steps[0].at
        &&& forall|i: int|
            0 <= i < log_one(c, steps[0]).len() ==> #[trigger] answers[0].writer[i]
        &&& writer_takes_all(ran_one(c, steps[0]), steps.drop_first(), answers.skip(1))
    }
}

/// The messages that carry a log to the writer.
pub open spec fn log_messages(rs: Seq<Request>) -> Seq<AofMsgView> {
    rs.map_values(|r: Request| AofMsgView::Frame(request_bytes(r)))
}

/// One command of a run with a log.
proof fn lemma_served_one(s: ServerView, p: Step, a: Answers)
    requires
        sound(s.cache),
        s.cache.evicted.len() == 0,
        s.aof matches Some(aof) && aof.healthy,
        a.now == p.at,
        forall|i: int| 0 <= i < log_one(s.cache, p).len() ==> #[trigger] a.writer[i],
    ensures
        ({
            let t = applied(s, p.action, p.key, p.value, p.ttl, a).0;
            &&& t.cache == ran_one(s.cache, p)
            &&& t.aof == Some(
                AofView {
                    sent: s.aof->0.sent + log_messages(log_one(s.cache, p)),
                    ..s.aof->0
                },
            )
        }),
{
    let e = effect(s.cache, p.at, p.action, p.key, p.value, p.ttl);
    let aof = s.aof->0;
    let rs = log_one(s.cache, p);
    if p.action == ACT_PUBLISH {
        assert(CacheView { evicted: seq![], ..e.cache } =~= s.cache);
        assert(rs =~= seq![]);
        assert(aof.sent + log_messages(rs) =~= aof.sent);
    } else if e.done {
        let frames = log_frames(p.at, p.action, p.key, p.value, p.ttl, e.cache.evicted);
        law_log_frames(s.cache, p);
        if mutating(p.action) {
            assert(a.writer[0]);
        }
        law_healthy_log_takes_all(aof, frames, a.writer);
        assert(frames.map_values(|f: Seq<u8>| AofMsgView::Frame(f)) =~= log_messages(rs));
    } else {
        assert(aof.sent + log_messages(rs) =~= aof.sent);
    }
}

/// A run with a log: what is stored, and what the writer is handed.
pub proof fn lemma_served_all(s: ServerView, steps: Seq<Step>, answers: Seq<Answers>)
    requires
        sound(s.cache),
        s.cache.evicted.len() == 0,
        s.aof matches Some(aof) && aof.healthy,
        writer_takes_all(s.cache, steps, answers),
    ensures
        served_all(s, steps, answers).cache == ran_all(s.cache, steps),
        served_all(s, steps, answers).aof == Some(
            AofView {
                sent: s.aof->0.sent + log_messages(log_of(s.cache, steps)),
                ..s.aof->0
            },
        ),
    decreases steps.len(),
{
    if steps.len() == 0 {
        assert(s.aof->0.sent + log_messages(log_of(s.cache, steps)) =~= s.aof->0.sent);
    } else {
        let p = steps[0];
        let rest = steps.drop_first();
        lemma_served_one(s, p, answers[0]);
        law_sound(s.cache, p.at, p.action, p.key, p.value, p.ttl);
        law_evictions_are_reported(s, p.action, p.key, p.value, p.ttl, answers[0]);
        let t = applied(s, p.action, p.key, p.value, p.ttl, answers[0]).0;
        lemma_served_all(t, rest, answers.skip(1));
        assert(s.aof->0.sent + log_messages(log_of(s.cache, steps)) =~= s.aof->0.sent
            + log_messages(log_one(s.cache, p)) + log_messages(log_of(t.cache, rest)));
    }
}

/// Only commands that change stored data are logged.
pub proof fn lemma_log_mutates(c: CacheView, steps: Seq<Step>)
    ensures
        forall|i: int|
            0 <= i < log_of(c, steps).len() ==> mutating((#[trigger] log_of(c, steps)[i]).action),
    decreases steps.len(),
{
    if steps.len() > 0 {
        let d = ran_one(c, steps[0]);
        let rest = steps.drop_first();
        let first = log_one(c, steps[0]);
        lemma_log_mutates(d, rest);
        assert forall|i: int| 0 <= i < log_of(c, steps).len() implies mutating(
            (#[trigger] log_of(c, steps)[i]).action,
        ) by {
            if i >= first.len() {
                assert(log_of(c, steps)[i] == log_of(d, rest)[i - first.len()]);
            } else {
                assert(log_of(c, steps)[i] == first[i]);
            }
        }
    }
}

/// One more request at the end of a log.
proof fn lemma_log_bytes_push(rs: Seq<Request>, r: Request)
    ensures
        log_bytes(rs.push(r)) == log_bytes(rs) + request_bytes(r),
    decreases rs.len(),
{
    let all = rs.push(r);
    if rs.len() == 0 {
        assert(all.drop_first() =~= seq![]);
        assert(log_bytes(all.drop_first()) =~= seq![]);
        assert(all[0] == r);
        assert(log_bytes(all) =~= log_bytes(rs) + request_bytes(r));
    } else {
        assert(all.drop_first() =~= rs.drop_first().push(r));
        lemma_log_bytes_push(rs.drop_first(), r);
        assert(log_bytes(all) =~= log_bytes(rs) + request_bytes(r));
    }
}

/// What frames of requests come to in a file.
pub proof fn law_file_of_frames(
    file: Seq<u8>,
    msgs: Seq<AofMsgView>,
    rs: Seq<Request>,
    replaced: Seq<bool>,
)
    ensures
        file_after(file, msgs + log_messages(rs), replaced) == file_after(file, msgs, replaced)
            + log_bytes(rs),
        joined(frames_of(rs)) == log_bytes(rs),
    decreases rs.len(),
{
    let all = msgs + log_messages(rs);
    let held = file_after(file, msgs, replaced);
    if rs.len() == 0 {
        assert(all =~= msgs);
        assert(held + log_bytes(rs) =~= held);
        assert(joined(frames_of(rs)) =~= log_bytes(rs));
    } else {
        let front = rs.drop_last();
        let r = rs.last();
        law_file_of_frames(file, msgs, front, replaced);
        lemma_log_bytes_push(front, r);
        assert(front.push(r) =~= rs);
        assert(all.drop_last() =~= msgs + log_messages(front));
        assert(all.last() == AofMsgView::Frame(request_bytes(r)));
        assert(frames_of(rs).drop_last() =~= frames_of(front));
        assert((held + log_bytes(front)) + request_bytes(r) =~= held + log_bytes(rs));
    }
}

/// What is sent from one state of a log to a later one.
pub open spec fn sent_since(s: ServerView, t: ServerView) -> Seq<AofMsgView> {
    t.aof->0.sent.skip(s.aof->0.sent.len() as int)
}

/// The file of a new log after frames of requests.
pub proof fn lemma_new_file(
    s: ServerView,
    t: ServerView,
    rs: Seq<Request>,
    replaced: Seq<bool>,
    torn: Seq<u8>,
)
    requires
        t.aof->0.sent == s.aof->0.sent + log_messages(rs),
    ensures
        file_after(magic(), sent_since(s, t), replaced) + torn == magic() + (log_bytes(rs) + torn),
{
    let none = Seq::<AofMsgView>::empty();
    assert(sent_since(s, t) =~= none + log_messages(rs));
    law_file_of_frames(magic(), none, rs, replaced);
    assert((magic() + log_bytes(rs)) + torn =~= magic() + (log_bytes(rs) + torn));
}

/// What replay of a log file does to the cache of a server without a log.
pub proof fn lemma_file_replayed(
    fresh: ServerView,
    rs: Seq<Request>,
    torn: Seq<u8>,
    now: u64,
    later: Seq<Answers>,
)
    requires
        forall|i: int| 0 <= i < rs.len() ==> framable(#[trigger] rs[i]),
        forall|i: int| 0 <= i < rs.len() ==> (#[trigger] rs[i]).action != ACT_PUBLISH,
        fresh.aof is None,
        !(head_of(torn) is Whole),
    ensures
        replayed(fresh, records(magic() + (log_bytes(rs) + torn)), now, later).0.cache
            == recalled_all(fresh.cache, rs, now),
{
    law_log_reads_back(rs, torn);
    law_records(log_bytes(rs) + torn);
    law_replay_of_requests(fresh, log_bytes(rs) + torn, now, later);
    law_replay_of_cache(fresh, rs, now, later);
}

/// A restart loses nothing, whatever the run evicted, if the replay finds room: the frames
/// that a run of commands hands to the writer, read back from the file behind its magic
/// bytes and replayed on a fresh server, bring back the live dataset of the running one. A
/// tail torn by a crash does no harm.
pub proof fn law_restart_with_room(
    s: ServerView,
    steps: Seq<Step>,
    answers: Seq<Answers>,
    replaced: Seq<bool>,
    fresh: ServerView,
    torn: Seq<u8>,
    now: u64,
    later: Seq<Answers>,
)
    requires
        s.cache.entries.len() == 0,
        s.cache.evicted.len() == 0,
        s.aof matches Some(aof) && aof.healthy,
        writer_takes_all(s.cache, steps, answers),
        timely(steps, now),
        forall|i: int|
            0 <= i < log_of(s.cache, steps).len() ==> framable(
                #[trigger] log_of(s.cache, steps)[i],
            ),
        fresh.cache.entries.len() == 0,
        fresh.cache.evicted.len() == 0,
        fresh.aof is None,
        has_room_for_all(fresh.cache, log_of(s.cache, steps), now),
        !(head_of(torn) is Whole),
    ensures
        ({
            let t = served_all(s, steps, answers);
            let file = file_after(magic(), sent_since(s, t), replaced);
            same_live(t.cache, replayed(fresh, records(file + torn), now, later).0.cache, now)
        }),
{
    let rs = log_of(s.cache, steps);
    lemma_served_all(s, steps, answers);
    lemma_log_mutates(s.cache, steps);
    assert forall|i: int| 0 <= i < rs.len() implies (#[trigger] rs[i]).action != ACT_PUBLISH by {
        assert(mutating(rs[i].action));
    }
    lemma_new_file(s, served_all(s, steps, answers), rs, replaced, torn);
    lemma_file_replayed(fresh, rs, torn, now, later);
    assert(mirrors(s.cache, fresh.cache, now));
    law_log_then_replay(s.cache, fresh.cache, steps, now);
}

/// A restart loses nothing: the frames that a run of commands hands to the writer, read
/// back from the file behind its magic bytes and replayed on a fresh server with at least
/// the same cap, bring back the live dataset of the running one, as long as the run evicts
/// nothing. A tail torn by a crash does no harm.
pub proof fn law_restart_restores(
    s: ServerView,
    steps: Seq<Step>,
    answers: Seq<Answers>,
    replaced: Seq<bool>,
    fresh: ServerView,
    torn: Seq<u8>,
    now: u64,
    later: Seq<Answers>,
)
    requires
        s.cache.entries.len() == 0,
        s.cache.evicted.len() == 0,
        s.aof matches Some(aof) && aof.healthy,
        writer_takes_all(s.cache, steps, answers),
        timely(steps, now),
        forall|i: int|
            0 <= i < log_of(s.cache, steps).len() ==> framable(
                #[trigger] log_of(s.cache, steps)[i],
            ),
        fresh.cache.entries.len() == 0,
        fresh.cache.evicted.len() == 0,
        fresh.aof is None,
        s.cache.cap <= fresh.cache.cap,
        never_evicts(s.cache, steps, fresh.cache.cap, now),
        !(head_of(torn) is Whole),
    ensures
        ({
            let t = served_all(s, steps, answers);
            let file = file_after(magic(), sent_since(s, t), replaced);
            same_live(t.cache, replayed(fresh, records(file + torn), now, later).0.cache, now)
        }),
{
    assert(mirrors(s.cache, fresh.cache, now));
    law_room_to_replay(s.cache, fresh.cache, steps, now);
    law_restart_with_room(s, steps, answers, replaced, fresh, torn, now, later);
}

/// What `refreshed` keeps: the live records, each once, and nothing else.
pub proof fn lemma_refreshed(s: Seq<(Seq<u8>, Record)>, now: u64)
    ensures
        forall|i: int|
            0 <= i < refreshed(s, now).len() ==> exists|j: int|
                0 <= j < s.len() && #[trigger] refreshed(s, now)[i] == (
                    (#[trigger] s[j]).0,
                    Record { last_accessed: now, ..s[j].1 },
                ) && !s[j].1.expired(now),
        forall|j: int|
            0 <= j < s.len() && !(#[trigger] s[j]).1.expired(now) ==> has_key(
                refreshed(s, now),
                s[j].0,
            ),
        distinct_keys(s) ==> distinct_keys(refreshed(s, now)),
    decreases s.len(),
{
    let r = refreshed(s, now);
    if s.len() > 0 {
        let n = s.len() - 1;
        let t = s.drop_last();
        let q = refreshed(t, now);
        lemma_refreshed(t, now);
        assert forall|i: int| 0 <= i < r.len() implies exists|j: int|
            0 <= j < s.len() && #[trigger] r[i] == (
                (#[trigger] s[j]).0,
                Record { last_accessed: now, ..s[j].1 },
            ) && !s[j].1.expired(now) by {
            if i < q.len() {
                assert(r[i] == q[i]);
                let j = choose|j: int|
                    0 <= j < t.len() && q[i] == (
                        (#[trigger] t[j]).0,
                        Record { last_accessed: now, ..t[j].1 },
                    ) && !t[j].1.expired(now);
                assert(s[j] == t[j]);
            } else {
                assert(s[n] == s.last());
            }
        }
        assert forall|j: int| 0 <= j < s.len() && !(#[trigger] s[j]).1.expired(
            now,
        ) implies has_key(r, s[j].0) by {
            if j < n {
                assert(t[j] == s[j]);
                lemma_position(q, t[j].0);
                assert(r[position(q, t[j].0)].0 == s[j].0);
            } else {
                assert(r[q.len() as int].0 == s[j].0);
            }
        }
        if distinct_keys(s) {
            assert(distinct_keys(t)) by {
                assert forall|i: int, j: int| 0 <= i < j < t.len() implies (#[trigger] t[i]).0
                    != (#[trigger] t[j]).0 by {
                    assert(s[i].0 != s[j].0);
                }
            }
            assert forall|i: int, j: int| 0 <= i < j < r.len() implies (#[trigger] r[i]).0 != (
            #[trigger] r[j]).0 by {
                assert(r[i] == q[i]);
                if j < q.len() {
                    assert(r[j] == q[j]);
                } else {
                    let m = choose|m: int|
                        0 <= m < t.len() && q[i] == (
                            (#[trigger] t[m]).0,
                            Record { last_accessed: now, ..t[m].1 },
                        ) && !t[m].1.expired(now);
                    assert(s[m] == t[m]);
                    assert(s[m].0 != s[n].0);
                }
            }
        }
    }
}

/// What replaying a dump gives holds the same live data as the cache that was dumped.
pub proof fn lemma_refreshed_mirrors(c: CacheView, d: CacheView, now: u64)
    requires
        sound(c),
        c.evicted.len() == 0,
        d.evicted.len() == 0,
        d.entries == refreshed(c.entries, now),
    ensures
        mirrors(c, d, now),
{
    let s = c.entries;
    let r = d.entries;
    lemma_refreshed(s, now);
    assert forall|i: int| 0 <= i < r.len() implies !(#[trigger] r[i]).1.expired(now)
        && r[i].1.value.wf() && !r[i].1.value.empty_collection() && (r[i].1.expires_at is Some
        ==> r[i].1.value is Str) by {
        let j = choose|j: int|
            0 <= j < s.len() && r[i] == (
                (#[trigger] s[j]).0,
                Record { last_accessed: now, ..s[j].1 },
            ) && !s[j].1.expired(now);
        assert(r[i].1.value == s[j].1.value);
    }
    assert forall|k: Seq<u8>| #[trigger] live_entry(c, k, now) == live_entry(d, k, now) by {
        lemma_position(s, k);
        lemma_position(r, k);
        if has_key(r, k) {
            let i = position(r, k);
            let j = choose|j: int|
                0 <= j < s.len() && r[i] == (
                    (#[trigger] s[j]).0,
                    Record { last_accessed: now, ..s[j].1 },
                ) && !s[j].1.expired(now);
            lemma_position_at(s, j);
        } else if has_key(s, k) {
            let j = position(s, k);
            assert(s[j].1.expired(now));
        }
    }
}

/// A restart loses nothing after a compaction either: the file then holds the snapshot that
/// the log was rewritten to, whatever it held before, and what was logged since, and
/// replaying it on a fresh server brings back the live dataset of the running one.
pub proof fn law_restart_after_rewrite(
    s: ServerView,
    dumped: u64,
    at: u64,
    steps: Seq<Step>,
    answers: Seq<Answers>,
    earlier: Seq<u8>,
    replaced: Seq<bool>,
    fresh: ServerView,
    torn: Seq<u8>,
    now: u64,
    later: Seq<Answers>,
)
    requires
        sound(s.cache),
        s.cache.evicted.len() == 0,
        s.cache.used() <= s.cache.cap,
        forall|i: int|
            0 <= i < s.cache.entries.len() ==> ((
            #[trigger] s.cache.entries[i]).1.expires_at matches Some(t) ==> t <= u32::MAX),
        s.aof matches Some(aof) && aof.healthy,
        dumped <= now,
        replaced[0],
        writer_takes_all(s.cache, steps, answers),
        timely(steps, now),
        ({
            let rs = dump_requests(s.cache.entries, dumped) + log_of(s.cache, steps);
            forall|i: int| 0 <= i < rs.len() ==> framable(#[trigger] rs[i])
        }),
        fresh.cache.entries.len() == 0,
        fresh.cache.evicted.len() == 0,
        fresh.aof is None,
        s.cache.cap <= fresh.cache.cap,
        never_evicts(s.cache, steps, fresh.cache.cap, now),
        !(head_of(torn) is Whole),
        records(torn) == torn,
    ensures
        ({
            let u = compacting(s, dump_of(s.cache.entries, dumped), at, true);
            let t = served_all(u, steps, answers);
            let file = file_after(earlier, sent_since(s, t), replaced);
            same_live(t.cache, replayed(fresh, records(file + torn), now, later).0.cache, now)
        }),
{
    let c = s.cache;
    let dump = dump_requests(c.entries, dumped);
    let log = log_of(c, steps);
    let rs = dump + log;
    let u = compacting(s, dump_of(c.entries, dumped), at, true);
    let t = served_all(u, steps, answers);
    lemma_served_all(u, steps, answers);
    lemma_log_mutates(c, steps);
    lemma_dump_actions(c.entries, dumped);
    assert forall|i: int| 0 <= i < rs.len() implies mutating((#[trigger] rs[i]).action) by {
        if i < dump.len() {
            assert(rs[i] == dump[i]);
        } else {
            assert(rs[i] == log[i - dump.len()]);
        }
    }
    assert forall|i: int| 0 <= i < rs.len() implies (#[trigger] rs[i]).action != ACT_PUBLISH by {
        assert(mutating(rs[i].action));
    }
    assert forall|i: int| 0 <= i < dump.len() implies framable(#[trigger] dump[i]) by {
        assert(rs[i] == dump[i]);
    }
    lemma_rewritten_file(s, t, dump, log, earlier, replaced);
    lemma_file_of_requests(rs, torn);
    law_log_reads_back(rs, torn);
    law_replay_of_requests(fresh, log_bytes(rs) + torn, now, later);
    law_replay_of_cache(fresh, rs, now, later);
    assert(record_sizes(fresh.cache.entries) =~= seq![]);
    lemma_recalled_dump(fresh.cache, c.entries, dumped, now);
    lemma_recalled_concat(fresh.cache, dump, log, now);
    let d = recalled_all(fresh.cache, dump, now);
    assert(d.entries =~= refreshed(c.entries, now));
    lemma_refreshed_mirrors(c, d, now);
    law_room_to_replay(c, d, steps, now);
    law_log_then_replay(c, d, steps, now);
}

/// The file of a log that was rewritten.
proof fn lemma_rewritten_file(
    s: ServerView,
    t: ServerView,
    dump: Seq<Request>,
    log: Seq<Request>,
    earlier: Seq<u8>,
    replaced: Seq<bool>,
)
    requires
        t.aof->0.sent == s.aof->0.sent.push(AofMsgView::Rewrite(frames_of(dump))) + log_messages(
            log,
        ),
        replaced[0],
    ensures
        file_after(earlier, sent_since(s, t), replaced) == log_bytes(dump + log),
{
    let none = Seq::<AofMsgView>::empty();
    let one = none.push(AofMsgView::Rewrite(frames_of(dump)));
    assert(sent_since(s, t) =~= one + log_messages(log));
    law_file_of_frames(earlier, one, log, replaced);
    law_file_of_frames(earlier, none, dump, replaced);
    assert(one.drop_last() =~= none);
    assert(file_after(earlier, one, replaced) == log_bytes(dump));
    lemma_log_bytes_concat(dump, log);
}

/// The bytes of a log in two parts.
proof fn lemma_log_bytes_concat(a: Seq<Request>, b: Seq<Request>)
    ensures
        log_bytes(a + b) == log_bytes(a) + log_bytes(b),
    decreases a.len(),
{
    if a.len() == 0 {
        assert(a + b =~= b);
        assert(log_bytes(a) + log_bytes(b) =~= log_bytes(b));
    } else {
        lemma_log_bytes_concat(a.drop_first(), b);
        assert((a + b).drop_first() =~= a.drop_first() + b);
        assert(log_bytes(a + b) =~= log_bytes(a) + log_bytes(b));
    }
}

/// An absent key stays absent while nothing that is replayed writes to it.
proof fn lemma_absent_stays(d: CacheView, rs: Seq<Request>, k: Seq<u8>, now: u64)
    requires
        sound(d),
        d.record(k) is None,
        forall|i: int|
            0 <= i < rs.len() ==> (#[trigger] rs[i]).key != k || rs[i].action == ACT_DEL
                || too_large(d.cap, rs[i]),
    ensures
        recalled_all(d, rs, now).record(k) is None,
        sound(recalled_all(d, rs, now)),
        recalled_all(d, rs, now).cap == d.cap,
    decreases rs.len(),
{
    if rs.len() > 0 {
        let r = rs[0];
        let rest = rs.drop_first();
        let ttl = relative_ttl(r, now);
        let e = recalled(d, r, now);
        law_sound(d, now, r.action, r.key, r.value, ttl);
        law_no_eviction(d, now, r.action, r.key, r.value, ttl);
        lemma_without(d, r.key);
        if r.key == k {
            lemma_gone(d, k);
        } else {
            law_command_spares_others(d, now, r.action, r.key, r.value, ttl, k);
            lemma_others(d, r.key, arbitrary(), k);
        }
        assert(e.record(k) is None);
        assert(forall|i: int| 0 <= i < rest.len() ==> #[trigger] rest[i] == rs[i + 1]);
        lemma_absent_stays(e, rest, k, now);
    }
}

/// Replay keeps a cache in order.
proof fn lemma_recalled_sound(d: CacheView, rs: Seq<Request>, now: u64)
    requires
        sound(d),
    ensures
        sound(recalled_all(d, rs, now)),
        recalled_all(d, rs, now).cap == d.cap,
    decreases rs.len(),
{
    if rs.len() > 0 {
        let r = rs[0];
        let ttl = relative_ttl(r, now);
        law_sound(d, now, r.action, r.key, r.value, ttl);
        law_no_eviction(d, now, r.action, r.key, r.value, ttl);
        lemma_without(d, r.key);
        lemma_recalled_sound(recalled(d, r, now), rs.drop_first(), now);
    }
}

/// A key that is deleted, and not written to from then on, is absent after replay.
proof fn lemma_gone_after_delete(d: CacheView, rs: Seq<Request>, n: int, k: Seq<u8>, now: u64)
    requires
        sound(d),
        d.record(k) is None,
        0 <= n < rs.len(),
        rs[n] == (Request { action: ACT_DEL, key: k, value: seq![], ttl: 0 }),
        forall|i: int| n < i < rs.len() ==> (#[trigger] rs[i]).key != k || rs[i].action == ACT_DEL,
    ensures
        recalled_all(d, rs, now).record(k) is None,
{
    let del = rs[n];
    let x = rs.take(n);
    let y = rs.skip(n + 1);
    if too_large(d.cap, del) {
        lemma_absent_stays(d, rs, k, now);
    } else {
        assert(rs =~= (x + seq![del]) + y);
        lemma_recalled_concat(d, x + seq![del], y, now);
        lemma_recalled_concat(d, x, seq![del], now);
        lemma_recalled_sound(d, x, now);
        let e = recalled_all(d, x, now);
        lemma_recalled_single(e, del, now);
        lemma_gone(e, k);
        lemma_without(e, k);
        assert forall|i: int| 0 <= i < y.len() implies (#[trigger] y[i]).key != k || y[i].action
            == ACT_DEL || too_large(d.cap, y[i]) by {
            assert(y[i] == rs[n + 1 + i]);
        }
        lemma_absent_stays(recalled(e, del, now), y, k, now);
    }
}

/// Where the delete of an evicted key stands in a log.
proof fn lemma_delete_at(
    before: Seq<Request>,
    own: Seq<Request>,
    keys: Seq<Seq<u8>>,
    after: Seq<Request>,
    k: Seq<u8>,
) -> (n: int)
    requires
        keys.contains(k),
        forall|i: int| 0 <= i < after.len() ==> (#[trigger] after[i]).key != k,
    ensures
        ({
            let rs = before + (own + deletes(keys)) + after;
            &&& 0 <= n < rs.len()
            &&& rs[n] == (Request { action: ACT_DEL, key: k, value: seq![], ttl: 0 })
            &&& forall|i: int|
                n < i < rs.len() ==> (#[trigger] rs[i]).key != k || rs[i].action == ACT_DEL
        }),
{
    let dels = deletes(keys);
    let rs = before + (own + dels) + after;
    let first = before.len() + own.len();
    let m = first + dels.len();
    let n = first + keys.index_of(k);
    assert(rs[n] == dels[keys.index_of(k)]);
    assert forall|i: int| n < i < rs.len() implies (#[trigger] rs[i]).key != k || rs[i].action
        == ACT_DEL by {
        if i >= m {
            assert(rs[i] == after[i - m]);
        } else {
            assert(rs[i] == dels[i - first]);
        }
    }
    n
}

/// What is logged of a command ends with the deletes.
proof fn lemma_log_one(c: CacheView, s: Step) -> (own: Seq<Request>)
    requires
        effect(c, s.at, s.action, s.key, s.value, s.ttl).done,
    ensures
        log_one(c, s) == own + deletes(evictions(c, s)),
{
    if mutating(s.action) {
        seq![log_entry(s)]
    } else {
        seq![]
    }
}

/// An evicted key does not come back: whatever the log holds before a command that evicts a
/// key, the key is absent after replay, unless a request that was logged after that command
/// has the same key.
pub proof fn law_evicted_key_stays_gone(
    c: CacheView,
    s: Step,
    k: Seq<u8>,
    before: Seq<Request>,
    after: Seq<Request>,
    fresh: ServerView,
    torn: Seq<u8>,
    now: u64,
    later: Seq<Answers>,
)
    requires
        effect(c, s.at, s.action, s.key, s.value, s.ttl).done,
        evictions(c, s).contains(k),
        forall|i: int| 0 <= i < after.len() ==> (#[trigger] after[i]).key != k,
        ({
            let rs = before + log_one(c, s) + after;
            forall|i: int|
                0 <= i < rs.len() ==> framable(#[trigger] rs[i]) && mutating(rs[i].action)
        }),
        fresh.cache.entries.len() == 0,
        fresh.aof is None,
        !(head_of(torn) is Whole),
    ensures
        ({
            let rs = before + log_one(c, s) + after;
            replayed(fresh, records(magic() + (log_bytes(rs) + torn)), now, later).0.cache.record(
                k,
            ) is None
        }),
{
    let rs = before + log_one(c, s) + after;
    let own = lemma_log_one(c, s);
    let n = lemma_delete_at(before, own, evictions(c, s), after, k);
    assert forall|i: int| 0 <= i < rs.len() implies (#[trigger] rs[i]).action != ACT_PUBLISH by {
        assert(mutating(rs[i].action));
    }
    lemma_file_replayed(fresh, rs, torn, now, later);
    lemma_gone_after_delete(fresh.cache, rs, n, k, now);
}

} // verus!
