//! What holds of the cache and of the commands on it.
use vstd::prelude::*;

use crate::bytemap::{
    bound, distinct_keys, has_key, lemma_distinct, lemma_position, position, unbound,
};
use crate::effects::{
    effect, expiry, hset_effect, lemma_bound_size, lemma_members_size, lemma_pushed_size,
    lemma_unbound_size, opened, push_effect, pushed, sadd_effect, with_members, without_members,
};
use crate::model::{dropped, fitted, record_sizes, size_of_entry, used_bytes, CacheView, Record};
use crate::protocol::{
    args_of, lemma_args_size, ACT_FLUSH, ACT_HDEL, ACT_HSET, ACT_LPOP, ACT_LPUSH, ACT_RPOP,
    ACT_RPUSH, ACT_SADD, ACT_SET, ACT_SREM,
};
use crate::sums::{
    lemma_total_concat, lemma_total_push, lemma_total_remove, lemma_total_take, lemma_total_update,
    total,
};
use crate::value::{item_sizes, member_sizes, pair_sizes, ValueView};

verus! {

/// Keys are distinct, values are in order, no collection is empty, and only strings
/// carry an expiry.
pub open spec fn sound(c: CacheView) -> bool {
    &&& distinct_keys(c.entries)
    &&& forall|i: int| 0 <= i < c.entries.len() ==> (#[trigger] c.entries[i]).1.value.wf()
    &&& forall|i: int|
        0 <= i < c.entries.len() ==> !(#[trigger] c.entries[i]).1.value.empty_collection()
    &&& forall|i: int|
        0 <= i < c.entries.len() && (#[trigger] c.entries[i]).1.expires_at is Some
            ==> c.entries[i].1.value is Str
}

/// What stays after least recently used records are dropped is a beginning of what
/// was there, as long as the cap allows; what goes is the rest, from the end.
pub proof fn law_fitted(s: Seq<(Seq<u8>, Record)>, cap: nat, keep: Option<Seq<u8>>)
    ensures
        ({
            let n = fitted(s, cap, keep).len() as int;
            &&& n <= s.len()
            &&& s.len() > 0 ==> n > 0
            &&& fitted(s, cap, keep) == s.take(n)
            &&& used_bytes(s.take(n)) <= used_bytes(s)
            &&& used_bytes(s.take(n)) <= cap || n <= 1 || keep == Some(s[n - 1].0)
            &&& n < s.len() ==> used_bytes(s.take(n + 1)) > cap
            &&& dropped(s, cap, keep).len() == s.len() - n
            &&& forall|i: int|
                0 <= i < s.len() - n ==> #[trigger] dropped(s, cap, keep)[i] == s[s.len() - 1 - i].0
        }),
    decreases s.len(),
{
    if used_bytes(s) > cap && s.len() > 1 && keep != Some(s.last().0) {
        let t = s.drop_last();
        law_fitted(t, cap, keep);
        let n = fitted(t, cap, keep).len() as int;
        assert(t.take(n) =~= s.take(n));
        assert(record_sizes(t) =~= record_sizes(s).take(t.len() as int));
        lemma_total_take(record_sizes(s), t.len() as int);
        if n < t.len() {
            assert(t.take(n + 1) =~= s.take(n + 1));
        } else {
            assert(s.take(n + 1) =~= s);
        }
        assert forall|i: int| 0 <= i < s.len() - n implies #[trigger] dropped(s, cap, keep)[i]
            == s[s.len() - 1 - i].0 by {
            if i > 0 {
                assert(dropped(s, cap, keep)[i] == dropped(t, cap, keep)[i - 1]);
            }
        }
    } else {
        assert(s.take(s.len() as int) =~= s);
    }
}

/// A beginning of a sound state is sound.
proof fn lemma_sound_prefix(c: CacheView, d: CacheView, n: int)
    requires
        sound(c),
        0 <= n <= c.entries.len(),
        d.entries == c.entries.take(n),
    ensures
        sound(d),
{
    assert(forall|i: int| 0 <= i < n ==> #[trigger] d.entries[i] == c.entries[i]);
}

/// Dropping least recently used records.
pub proof fn lemma_fit(c: CacheView, keep: Option<Seq<u8>>)
    ensures
        sound(c) ==> sound(c.fit(keep)),
        c.fit(keep).used() <= c.used(),
        c.used() <= c.cap ==> c.fit(keep) == c,
{
    law_fitted(c.entries, c.cap, keep);
    if c.used() <= c.cap {
        assert(c.fit(keep) =~= c);
    }
    if sound(c) {
        lemma_sound_prefix(c, c.fit(keep), c.fit(keep).entries.len() as int);
    }
}

/// Leaving out a key.
pub proof fn lemma_without(c: CacheView, key: Seq<u8>)
    ensures
        sound(c) ==> sound(c.without(key)),
        distinct_keys(c.entries) ==> distinct_keys(c.without(key).entries) && !has_key(
            c.without(key).entries,
            key,
        ),
        c.without(key).used() <= c.used(),
        c.record(key) matches Some(r) ==> c.without(key).used() + size_of_entry(key, r.value)
            == c.used(),
{
    lemma_position(c.entries, key);
    if has_key(c.entries, key) {
        let i = position(c.entries, key);
        let d = c.without(key);
        assert(record_sizes(d.entries) =~= record_sizes(c.entries).remove(i));
        lemma_total_remove(record_sizes(c.entries), i);
        assert(forall|j: int|
            0 <= j < d.entries.len() ==> #[trigger] d.entries[j] == c.entries[if j < i {
                j
            } else {
                j + 1
            }]);
        if distinct_keys(c.entries) {
            assert forall|j: int| 0 <= j < d.entries.len() implies (#[trigger] d.entries[j]).0
                != key by {
                let m = if j < i {
                    j
                } else {
                    j + 1
                };
                assert(d.entries[j] == c.entries[m]);
                assert(c.entries[i].0 == key);
                if m < i {
                    assert(c.entries[m].0 != c.entries[i].0);
                } else {
                    assert(c.entries[i].0 != c.entries[m].0);
                }
            }
        }
    }
}

/// Putting a record in front.
pub proof fn lemma_with_front(c: CacheView, key: Seq<u8>, r: Record)
    ensures
        c.with_front(key, r).entries[0] == (key, r),
        position(c.with_front(key, r).entries, key) == 0,
        distinct_keys(c.entries) ==> distinct_keys(c.with_front(key, r).entries),
        sound(c) && r.value.wf() && !r.value.empty_collection() && (r.expires_at is Some ==> r.value
            is Str) ==> sound(c.with_front(key, r)),
        c.with_front(key, r).used() == c.without(key).used() + size_of_entry(key, r.value),
{
    lemma_without(c, key);
    let d = c.without(key);
    let e = c.with_front(key, r);
    assert(forall|j: int| 0 < j < e.entries.len() ==> #[trigger] e.entries[j] == d.entries[j - 1]);
    if distinct_keys(c.entries) {
        assert forall|i: int, j: int| 0 <= i < j < e.entries.len() implies (
        #[trigger] e.entries[i]).0 != (#[trigger] e.entries[j]).0 by {
            if i == 0 {
                assert(e.entries[j].0 != key) by {
                    assert(d.entries[j - 1] == e.entries[j]);
                }
            } else {
                assert(d.entries[i - 1].0 != d.entries[j - 1].0);
            }
        }
    }
    let size = size_of_entry(key, r.value);
    assert(record_sizes(e.entries) =~= seq![size] + record_sizes(d.entries));
    lemma_total_concat(seq![size], record_sizes(d.entries));
    assert(seq![size] =~= Seq::<nat>::empty().push(size));
    lemma_total_push(Seq::empty(), size);
}

/// Looking a key up.
pub proof fn lemma_looked_up(c: CacheView, key: Seq<u8>, now: u64)
    ensures
        sound(c) ==> sound(c.looked_up(key, now)),
        c.looked_up(key, now).used() <= c.used(),
        c.live(key, now) matches Some(v) ==> c.looked_up(key, now).entries[0] == (
            key,
            Record { last_accessed: now, ..c.record(key)->0 },
        ) && position(c.looked_up(key, now).entries, key) == 0 && (sound(c) ==> v.wf()
            && !v.empty_collection() && (c.record(key)->0.expires_at is Some ==> v is Str)),
{
    lemma_without(c, key);
    lemma_position(c.entries, key);
    match c.record(key) {
        Some(r) => {
            if !r.expired(now) {
                lemma_with_front(c, key, Record { last_accessed: now, ..r });
            }
        },
        None => {},
    }
}

/// Storing a new value in the front record and settling the change.
pub proof fn lemma_front_change(c: CacheView, key: Seq<u8>, v: ValueView, more: nat)
    requires
        c.entries.len() > 0,
        c.entries[0].0 == key,
        v.bytes() <= c.entries[0].1.value.bytes() + more,
        sound(c) || sound(c.without(key)) && distinct_keys(c.entries),
        v.wf(),
        c.entries[0].1.expires_at is None,
    ensures
        sound(c.revalued(key, v).settled(key)),
        c.revalued(key, v).settled(key).used() <= c.used() + more,
        c.used() + more <= c.cap ==> c.revalued(key, v).settled(key).evicted == c.evicted,
        c.revalued(key, v).settled(key).cap == c.cap,
{
    assert(position(c.entries, key) == 0);
    lemma_without(c, key);
    let d = c.revalued(key, v);
    let sizes = record_sizes(c.entries);
    assert(record_sizes(d.entries) =~= sizes.update(0, size_of_entry(key, v)));
    lemma_total_update(sizes, 0, size_of_entry(key, v));
    assert(d.entries[0].0 == key);
    assert(position(d.entries, key) == 0);
    assert(forall|j: int| 0 < j < d.entries.len() ==> #[trigger] d.entries[j] == c.entries[j]);
    assert(distinct_keys(d.entries)) by {
        assert forall|i: int, j: int| 0 <= i < j < d.entries.len() implies (
        #[trigger] d.entries[i]).0 != (#[trigger] d.entries[j]).0 by {
            assert(c.entries[i].0 != c.entries[j].0);
        }
    }
    assert(has_key(c.entries, key));
    assert(has_key(d.entries, key));
    let w = c.without(key);
    assert(forall|j: int| 0 <= j < w.entries.len() ==> #[trigger] w.entries[j] == c.entries[j + 1]);
    assert forall|j: int| 0 < j < d.entries.len() implies (#[trigger] d.entries[j]).1.value.wf()
        && !d.entries[j].1.value.empty_collection() && (d.entries[j].1.expires_at is Some
        ==> d.entries[j].1.value is Str) by {
        assert(w.entries[j - 1] == d.entries[j]);
    }
    if v.empty_collection() {
        assert(d.without(key).entries =~= w.entries);
        lemma_without(d, key);
        assert(sound(d.without(key)));
    } else {
        assert(sound(d));
        lemma_fit(d, Some(key));
    }
}

/// Opening a collection for a write: the key ends up in front.
pub proof fn lemma_opened(c: CacheView, now: u64, key: Seq<u8>, empty: ValueView)
    requires
        sound(c),
        empty.bytes() == 0,
    ensures
        ({
            let d = opened(c, now, key, empty);
            &&& d.entries.len() > 0
            &&& d.entries[0].0 == key
            &&& d.used() <= c.used() + key.len() + 72
            &&& d.cap == c.cap
            &&& d.evicted == c.evicted
            &&& sound(d) || sound(d.without(key)) && distinct_keys(d.entries)
            &&& match c.live(key, now) {
                Some(v) => d == c.looked_up(key, now) && d.entries[0].1.value == v && sound(d),
                None => d.entries[0].1 == (Record {
                    value: empty,
                    expires_at: None,
                    last_accessed: now,
                }),
            }
        }),
{
    lemma_looked_up(c, key, now);
    let base = c.looked_up(key, now);
    if c.live(key, now) is None {
        let r = Record { value: empty, expires_at: None, last_accessed: now };
        lemma_with_front(base, key, r);
        lemma_without(base, key);
        let d = opened(c, now, key, empty);
        assert(has_key(d.entries, key));
        assert(d.without(key).entries =~= base.without(key).entries);
        assert(sound(d.without(key)));
    }
}

/// Every command leaves a sound state sound.
pub proof fn law_sound(
    c: CacheView,
    now: u64,
    action: u8,
    key: Seq<u8>,
    value: Seq<u8>,
    ttl: u32,
)
    requires
        sound(c),
    ensures
        sound(effect(c, now, action, key, value, ttl).cache),
{
    lemma_effect(c, now, action, key, value, ttl);
}

/// A command adds a bounded number of bytes to the accounted size.
pub proof fn law_growth(
    c: CacheView,
    now: u64,
    action: u8,
    key: Seq<u8>,
    value: Seq<u8>,
    ttl: u32,
)
    requires
        sound(c),
    ensures
        effect(c, now, action, key, value, ttl).cache.used() <= c.used() + key.len() + 72 + 7
            * value.len(),
{
    lemma_effect(c, now, action, key, value, ttl);
}

/// A command keeps the cap, and evicts nothing while what it adds at most fits under it.
pub proof fn law_no_eviction(
    c: CacheView,
    now: u64,
    action: u8,
    key: Seq<u8>,
    value: Seq<u8>,
    ttl: u32,
)
    requires
        sound(c),
    ensures
        effect(c, now, action, key, value, ttl).cache.cap == c.cap,
        c.used() + key.len() + 72 + 7 * value.len() <= c.cap ==> effect(
            c,
            now,
            action,
            key,
            value,
            ttl,
        ).cache.evicted == c.evicted,
{
    lemma_effect(c, now, action, key, value, ttl);
}

proof fn lemma_effect(
    c: CacheView,
    now: u64,
    action: u8,
    key: Seq<u8>,
    value: Seq<u8>,
    ttl: u32,
)
    requires
        sound(c),
    ensures
        sound(effect(c, now, action, key, value, ttl).cache),
        effect(c, now, action, key, value, ttl).cache.used() <= c.used() + key.len() + 72 + 7
            * value.len(),
        effect(c, now, action, key, value, ttl).cache.cap == c.cap,
        c.used() + key.len() + 72 + 7 * value.len() <= c.cap ==> effect(
            c,
            now,
            action,
            key,
            value,
            ttl,
        ).cache.evicted == c.evicted,
{
    lemma_looked_up(c, key, now);
    lemma_without(c, key);
    lemma_args_size(value);
    let base = c.looked_up(key, now);
    if action == ACT_SET {
        let r = Record {
            value: ValueView::Str(value),
            expires_at: expiry(now, ttl),
            last_accessed: now,
        };
        lemma_with_front(c, key, r);
        lemma_fit(c.with_front(key, r), Some(key));
    } else if action == ACT_FLUSH {
        assert(record_sizes(c.flushed().entries) =~= seq![]);
    } else if action == ACT_HSET {
        lemma_hset(c, now, key, value);
    } else if action == ACT_HDEL {
        match (args_of(value), c.live(key, now)) {
            (Some(args), Some(ValueView::Hash(h))) => {
                lemma_unbound_size(h, args[0]);
                lemma_distinct(h, args[0], seq![]);
                lemma_front_change(base, key, ValueView::Hash(unbound(h, args[0])), 0);
            },
            _ => {},
        }
    } else if action == ACT_LPUSH || action == ACT_RPUSH {
        lemma_push(c, now, key, value, action == ACT_LPUSH);
    } else if action == ACT_LPOP || action == ACT_RPOP {
        match c.live(key, now) {
            Some(ValueView::List(l)) => {
                let sizes = item_sizes(l);
                lemma_total_remove(sizes, 0);
                assert(item_sizes(l.drop_first()) =~= sizes.remove(0));
                assert(item_sizes(l.drop_last()) =~= sizes.drop_last());
                lemma_front_change(base, key, ValueView::List(l.drop_first()), 0);
                lemma_front_change(base, key, ValueView::List(l.drop_last()), 0);
            },
            _ => {},
        }
    } else if action == ACT_SADD {
        lemma_sadd(c, now, key, value);
    } else if action == ACT_SREM {
        match (args_of(value), c.live(key, now)) {
            (Some(args), Some(ValueView::Members(s))) => {
                lemma_members_size(s, args);
                lemma_front_change(base, key, ValueView::Members(without_members(s, args)), 0);
            },
            _ => {},
        }
    }
}

proof fn lemma_hset(c: CacheView, now: u64, key: Seq<u8>, value: Seq<u8>)
    requires
        sound(c),
    ensures
        sound(hset_effect(c, now, key, value).cache),
        hset_effect(c, now, key, value).cache.used() <= c.used() + key.len() + 72 + 7
            * value.len(),
        hset_effect(c, now, key, value).cache.cap == c.cap,
        c.used() + key.len() + 72 + 7 * value.len() <= c.cap ==> hset_effect(
            c,
            now,
            key,
            value,
        ).cache.evicted == c.evicted,
{
    let empty = ValueView::Hash(seq![]);
    assert(pair_sizes(seq![]) =~= seq![]);
    lemma_opened(c, now, key, empty);
    lemma_args_size(value);
    let base = opened(c, now, key, empty);
    match (args_of(value), base.entries[0].1.value) {
        (Some(args), ValueView::Hash(h)) => {
            if args.len() == 2 {
                let a = (args[0].len() + 24) as nat;
                let b = (args[1].len() + 24) as nat;
                assert(item_sizes(args) =~= Seq::<nat>::empty().push(a).push(b));
                lemma_total_push(Seq::empty(), a);
                lemma_total_push(Seq::<nat>::empty().push(a), b);
                lemma_bound_size(h, args[0], args[1]);
                lemma_distinct(h, args[0], args[1]);
                lemma_front_change(
                    base,
                    key,
                    ValueView::Hash(bound(h, args[0], args[1])),
                    (args[0].len() + args[1].len() + 24) as nat,
                );
            }
        },
        _ => {},
    }
}

proof fn lemma_push(c: CacheView, now: u64, key: Seq<u8>, value: Seq<u8>, front: bool)
    requires
        sound(c),
    ensures
        sound(push_effect(c, now, key, value, front).cache),
        push_effect(c, now, key, value, front).cache.used() <= c.used() + key.len() + 72 + 7
            * value.len(),
        push_effect(c, now, key, value, front).cache.cap == c.cap,
        c.used() + key.len() + 72 + 7 * value.len() <= c.cap ==> push_effect(
            c,
            now,
            key,
            value,
            front,
        ).cache.evicted == c.evicted,
{
    let empty = ValueView::List(seq![]);
    assert(item_sizes(seq![]) =~= seq![]);
    lemma_opened(c, now, key, empty);
    lemma_args_size(value);
    let base = opened(c, now, key, empty);
    match (args_of(value), base.entries[0].1.value) {
        (Some(args), ValueView::List(l)) => {
            lemma_pushed_size(l, args, front);
            lemma_front_change(
                base,
                key,
                ValueView::List(pushed(l, args, front)),
                total(item_sizes(args)),
            );
        },
        _ => {},
    }
}

proof fn lemma_sadd(c: CacheView, now: u64, key: Seq<u8>, value: Seq<u8>)
    requires
        sound(c),
    ensures
        sound(sadd_effect(c, now, key, value).cache),
        sadd_effect(c, now, key, value).cache.used() <= c.used() + key.len() + 72 + 7
            * value.len(),
        sadd_effect(c, now, key, value).cache.cap == c.cap,
        c.used() + key.len() + 72 + 7 * value.len() <= c.cap ==> sadd_effect(
            c,
            now,
            key,
            value,
        ).cache.evicted == c.evicted,
{
    let empty = ValueView::Members(seq![]);
    assert(member_sizes(seq![]) =~= seq![]);
    lemma_opened(c, now, key, empty);
    lemma_args_size(value);
    let base = opened(c, now, key, empty);
    match (args_of(value), base.entries[0].1.value) {
        (Some(args), ValueView::Members(s)) => {
            lemma_members_size(s, args);
            lemma_front_change(
                base,
                key,
                ValueView::Members(with_members(s, args)),
                total(item_sizes(args)),
            );
        },
        _ => {},
    }
}

} // verus!
