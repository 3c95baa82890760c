//! What each command does and replies, told by the codes on the wire and by the data itself.
use vstd::prelude::*;

use crate::bytemap::{distinct_keys, lemma_position, lemma_position_at, position, value_of};
use crate::cache_laws::{law_fitted, lemma_looked_up, lemma_opened, lemma_with_front, sound};
use crate::commands::{execute, Outcome};
use crate::effects::{
    del_effect, effect, get_effect, hdel_effect, hget_effect, hset_effect, opened, pop_effect,
    push_effect, pushed, sadd_effect, set_effect, sismember_effect, srem_effect,
};
use crate::lru::LruCache;
use crate::model::{record_sizes, size_of_entry, used_bytes, CacheView, Record};
use crate::protocol::{args_of, mutating, ACT_AUTH, ACT_PUBLISH};
use crate::reply_laws::{bulk_in, int_in, law_bulk_reply, law_int_reply};
use crate::server::{applied, Answers, ServerView};
use crate::store_laws::{
    lemma_fit_records, lemma_front_records, lemma_gone, lemma_looked_up_live, lemma_opened_records,
    list_at,
};
use crate::sums::lemma_total_push;
use crate::value::{item_sizes, member_sizes, pair_sizes, ValueView};

verus! {

/// HGET (0x11) finds a field by its name: its value if the hash has it, and else that data is
/// missing. SISMEMBER (0x33) likewise tells a member from what is none.
#[verifier::rlimit(40)]
pub proof fn law_lookup_by_name(
    c: CacheView,
    now: u64,
    key: Seq<u8>,
    name: Seq<u8>,
    value: Seq<u8>,
    ttl: u32,
)
    requires
        sound(c),
        args_of(value) == Some(seq![name]),
    ensures
        ({
            let hget = effect(c, now, 0x11, key, value, ttl).reply;
            let sismember = effect(c, now, 0x33, key, value, ttl).reply;
            match c.live(key, now) {
                Some(ValueView::Hash(h)) => {
                    &&& forall|i: int|
                        0 <= i < h.len() && (#[trigger] h[i]).0 == name && h[i].1.len()
                            <= 0xFFFF_FFFF ==> bulk_in(hget) == Some(h[i].1)
                    &&& (forall|i: int| 0 <= i < h.len() ==> (#[trigger] h[i]).0 != name) ==> hget
                        == seq![0x44u8]
                    &&& sismember == seq![0xFFu8]
                },
                Some(ValueView::Members(s)) => {
                    &&& (exists|i: int| 0 <= i < s.len() && (#[trigger] s[i]).0 == name)
                        ==> int_in(sismember) == Some(1int)
                    &&& (forall|i: int| 0 <= i < s.len() ==> (#[trigger] s[i]).0 != name)
                        ==> int_in(sismember) == Some(0int)
                    &&& hget == seq![0xFFu8]
                },
                Some(_) => hget == seq![0xFFu8] && sismember == seq![0xFFu8],
                None => hget == seq![0x44u8] && int_in(sismember) == Some(0int),
            }
        }),
{
    lemma_looked_up(c, key, now);
    law_int_reply(0);
    law_int_reply(1);
    if let Some(ValueView::Hash(h)) = c.live(key, now) {
        let hget = effect(c, now, 0x11, key, value, ttl).reply;
        assert forall|i: int|
            0 <= i < h.len() && (#[trigger] h[i]).0 == name && h[i].1.len()
                <= 0xFFFF_FFFF implies bulk_in(hget) == Some(h[i].1) by {
            assert(distinct_keys(h));
            lemma_position_at(h, i);
            assert(value_of(h, name) == Some(h[i].1));
            law_bulk_reply(h[i].1);
        }
    }
}

/// Whether a payload holds the number of arguments that an action takes: two for HSET, one for
/// HGET, HDEL and SISMEMBER, any number but none for LPUSH, RPUSH, SADD and SREM, and the
/// two positions of 8 bytes each for LRANGE. Other actions take none and look at none.
pub open spec fn well_formed(action: u8, value: Seq<u8>) -> bool {
    let n = match args_of(value) {
        Some(args) => args.len() as int,
        None => -1,
    };
    if action == 0x10 {
        n == 2
    } else if action == 0x11 || action == 0x12 || action == 0x33 {
        n == 1
    } else if action == 0x20 || action == 0x21 || action == 0x30 || action == 0x31 {
        n > 0
    } else if action == 0x24 {
        value.len() == 16
    } else {
        true
    }
}

/// A command with malformed arguments is turned down: the reply is an error, and nothing at
/// all changes. A code that means nothing is answered by an error too.
pub proof fn law_malformed_is_refused(
    c: CacheView,
    now: u64,
    action: u8,
    key: Seq<u8>,
    value: Seq<u8>,
    ttl: u32,
)
    requires
        !well_formed(action, value) || action == 0x00 || (0x09 <= action <= 0x0F) || (0x15 <= action
            <= 0x1F) || (0x26 <= action <= 0x2F) || 0x35 <= action,
    ensures
        effect(c, now, action, key, value, ttl).reply == seq![0xFFu8],
        effect(c, now, action, key, value, ttl).cache == c,
        !well_formed(action, value) ==> !effect(c, now, action, key, value, ttl).done,
{
}

/// A command on a collection of another type, or on a string, is answered by an error, and no
/// key's value changes, now or later; a write is not even logged.
#[verifier::rlimit(40)]
pub proof fn law_wrong_type_is_refused(
    c: CacheView,
    now: u64,
    action: u8,
    key: Seq<u8>,
    value: Seq<u8>,
    ttl: u32,
    k: Seq<u8>,
    later: u64,
)
    requires
        sound(c),
        well_formed(action, value),
        later >= now,
        c.live(key, now) matches Some(v) && (0x10 <= action <= 0x14 && !(v is Hash) || 0x20
            <= action <= 0x25 && !(v is List) || 0x30 <= action <= 0x34 && !(v is Members)),
    ensures
        ({
            let e = effect(c, now, action, key, value, ttl);
            &&& e.reply == seq![0xFFu8]
            &&& e.cache.live(k, later) == c.live(k, later)
            &&& e.cache.evicted == c.evicted
            &&& mutating(action) ==> !e.done
        }),
{
    lemma_looked_up(c, key, now);
    lemma_looked_up_live(c, now, key, k, later);
    assert(pair_sizes(seq![]) =~= seq![]);
    assert(item_sizes(seq![]) =~= seq![]);
    assert(member_sizes(seq![]) =~= seq![]);
    lemma_opened(c, now, key, ValueView::Hash(seq![]));
    lemma_opened(c, now, key, ValueView::List(seq![]));
    lemma_opened(c, now, key, ValueView::Members(seq![]));
    assert(effect(c, now, action, key, value, ttl).cache == c.looked_up(key, now));
}

/// LPUSH (0x20) and RPUSH (0x21), item by item: LPUSH puts the items in front of the list, the
/// last one foremost; RPUSH puts them behind it, in order. What was there stays as it was,
/// and the reply is the new length.
#[verifier::rlimit(40)]
pub proof fn law_push_item_by_item(
    c: CacheView,
    now: u64,
    key: Seq<u8>,
    value: Seq<u8>,
    front: bool,
    ttl: u32,
    later: u64,
)
    requires
        sound(c),
        args_of(value) matches Some(args) && args.len() > 0 && args.len() + list_at(
            c,
            key,
            now,
        ).len() < 0x8000_0000_0000_0000,
        c.live(key, now) is None || c.live(key, now) matches Some(ValueView::List(_)),
    ensures
        ({
            let action: u8 = if front {
                0x20
            } else {
                0x21
            };
            let e = effect(c, now, action, key, value, ttl);
            let args = args_of(value)->0;
            let (l, m) = (list_at(c, key, now), list_at(e.cache, key, later));
            let (n, k) = (l.len() as int, args.len() as int);
            &&& e.done
            &&& int_in(e.reply) == Some(n + k)
            &&& m.len() == n + k
            &&& front ==> (forall|i: int| 0 <= i < k ==> #[trigger] m[i] == args[k - 1 - i]) && (
            forall|i: int| 0 <= i < n ==> #[trigger] l[i] == m[k + i])
            &&& !front ==> (forall|i: int| 0 <= i < n ==> #[trigger] m[i] == l[i]) && (forall|
                i: int,
            |
                0 <= i < k ==> #[trigger] args[i] == m[n + i])
        }),
{
    let args = args_of(value)->0;
    let empty = ValueView::List(seq![]);
    assert(item_sizes(seq![]) =~= seq![]);
    lemma_opened(c, now, key, empty);
    lemma_opened_records(c, now, key, empty, key);
    lemma_looked_up(c, key, now);
    let base = opened(c, now, key, empty);
    let l = list_at(c, key, now);
    lemma_front_records(base, key, ValueView::List(pushed(l, args, front)), key);
    law_int_reply((l.len() + args.len()) as int);
}

/// DEL (0x03) acknowledges a key that was live and reports any other missing; either way the
/// key is gone. FLUSH (0x04) is acknowledged and leaves no key at all.
pub proof fn law_del_and_flush(
    c: CacheView,
    now: u64,
    key: Seq<u8>,
    value: Seq<u8>,
    ttl: u32,
    k: Seq<u8>,
)
    requires
        sound(c),
    ensures
        ({
            let del = effect(c, now, 0x03, key, value, ttl);
            let flush = effect(c, now, 0x04, key, value, ttl);
            &&& c.live(key, now) is Some ==> del.reply == seq![0x00u8]
            &&& c.live(key, now) is None ==> del.reply == seq![0x44u8]
            &&& del.cache.record(key) is None
            &&& flush.reply == seq![0x00u8]
            &&& flush.cache.entries.len() == 0 && flush.cache.record(k) is None
            &&& flush.cache.cap == c.cap && del.cache.cap == c.cap
        }),
{
    lemma_gone(c, key);
}

/// SET (0x01) is acknowledged and leaves behind exactly the string, whatever the key held, with
/// the second at which it expires, `ttl` seconds from now, or none for a `ttl` of zero.
pub proof fn law_set_record(
    c: CacheView,
    now: u64,
    key: Seq<u8>,
    value: Seq<u8>,
    ttl: u32,
)
    requires
        sound(c),
        now + ttl <= u64::MAX,
    ensures
        ({
            let e = effect(c, now, 0x01, key, value, ttl);
            &&& e.reply == seq![0x00u8]
            &&& e.cache.record(key) matches Some(r) && r.value == ValueView::Str(value)
                && r.last_accessed == now && (if ttl == 0 {
                r.expires_at is None
            } else {
                r.expires_at == Some((now + ttl) as u64)
            })
            &&& e.cache.entries[0].0 == key
        }),
{
    let r = Record {
        value: ValueView::Str(value),
        expires_at: if ttl == 0 {
            None
        } else {
            Some((now + ttl) as u64)
        },
        last_accessed: now,
    };
    let d = c.with_front(key, r);
    lemma_with_front(c, key, r);
    lemma_fit_records(d, Some(key), key);
    law_fitted(d.entries, d.cap, Some(key));
}

/// Every read of a live key makes it the most recently used one and notes the time of the
/// access; the order of all others stays.
pub proof fn law_reads_refresh(
    c: CacheView,
    now: u64,
    action: u8,
    key: Seq<u8>,
    value: Seq<u8>,
    ttl: u32,
)
    requires
        sound(c),
        c.live(key, now) is Some,
        well_formed(action, value),
        action == 0x02 || action == 0x08 || action == 0x11 || action == 0x13 || action == 0x14
            || action == 0x24 || action == 0x25 || action == 0x32 || action == 0x33 || action
            == 0x34,
    ensures
        ({
            let d = effect(c, now, action, key, value, ttl).cache;
            let i = position(c.entries, key);
            let r = c.entries[i].1;
            &&& d.entries == seq![(key, Record { last_accessed: now, ..r })] + c.entries.remove(i)
            &&& d.cap == c.cap && d.evicted == c.evicted
        }),
{
    lemma_looked_up(c, key, now);
    lemma_position(c.entries, key);
}

/// What is accounted for: 72 bytes for a key besides its own, the bytes of a string, and 24
/// bytes for each element of a collection besides its own.
pub proof fn law_accounting(
    key: Seq<u8>,
    v: Seq<u8>,
    h: Seq<(Seq<u8>, Seq<u8>)>,
    f: Seq<u8>,
    l: Seq<Seq<u8>>,
    s: Seq<(Seq<u8>, ())>,
    entries: Seq<(Seq<u8>, Record)>,
    r: Record,
)
    ensures
        ValueView::Str(v).bytes() == v.len(),
        ValueView::Hash(seq![]).bytes() == 0,
        ValueView::Hash(h.push((f, v))).bytes() == ValueView::Hash(h).bytes() + f.len() + v.len()
            + 24,
        ValueView::List(seq![]).bytes() == 0,
        ValueView::List(l.push(v)).bytes() == ValueView::List(l).bytes() + v.len() + 24,
        ValueView::Members(seq![]).bytes() == 0,
        ValueView::Members(s.push((v, ()))).bytes() == ValueView::Members(s).bytes() + v.len() + 24,
        used_bytes(seq![]) == 0,
        used_bytes(entries.push((key, r))) == used_bytes(entries) + key.len() + r.value.bytes()
            + 72,
{
    assert(pair_sizes(seq![]) =~= seq![]);
    assert(item_sizes(seq![]) =~= seq![]);
    assert(member_sizes(seq![]) =~= seq![]);
    assert(record_sizes(seq![]) =~= seq![]);
    let (a, b) = ((f.len() + v.len() + 24) as nat, (v.len() + 24) as nat);
    assert(pair_sizes(h.push((f, v))) =~= pair_sizes(h).push(a));
    assert(item_sizes(l.push(v)) =~= item_sizes(l).push(b));
    assert(member_sizes(s.push((v, ()))) =~= member_sizes(s).push(b));
    assert(record_sizes(entries.push((key, r))) =~= record_sizes(entries).push(
        size_of_entry(key, r.value),
    ));
    lemma_total_push(pair_sizes(h), a);
    lemma_total_push(item_sizes(l), b);
    lemma_total_push(member_sizes(s), b);
    lemma_total_push(record_sizes(entries), size_of_entry(key, r.value));
}

/// The counters: a GET (0x02) of a live string is one hit more, a GET of an absent or expired
/// key one miss more, and nothing else counts as either. They wrap around at 2^64.
pub proof fn law_hits_and_misses(
    s: ServerView,
    action: u8,
    key: Seq<u8>,
    value: Seq<u8>,
    ttl: u32,
    a: Answers,
)
    ensures
        ({
            let t = applied(s, action, key, value, ttl, a).0;
            let live = s.cache.live(key, a.now);
            let hit = action == 0x02 && (live matches Some(ValueView::Str(_)));
            let miss = action == 0x02 && live is None;
            &&& t.hits == (if !hit {
                s.hits as int
            } else if s.hits == u64::MAX {
                0
            } else {
                s.hits + 1
            })
            &&& t.misses == (if !miss {
                s.misses as int
            } else if s.misses == u64::MAX {
                0
            } else {
                s.misses + 1
            })
        }),
{
}

/// The codes of the commands that change a collection, and which end LPUSH and LPOP (0x20 and
/// 0x22) and RPUSH and RPOP (0x21 and 0x23) work at.
pub proof fn law_command_codes(c: CacheView, now: u64, key: Seq<u8>, value: Seq<u8>, ttl: u32)
    ensures
        ({
            let does = |action: u8| effect(c, now, action, key, value, ttl);
            &&& does(0x01) == set_effect(c, now, key, value, ttl)
            &&& does(0x02) == get_effect(c, now, key)
            &&& does(0x03) == del_effect(c, now, key)
            &&& does(0x10) == hset_effect(c, now, key, value)
            &&& does(0x11) == hget_effect(c, now, key, value)
            &&& does(0x12) == hdel_effect(c, now, key, value)
            &&& does(0x20) == push_effect(c, now, key, value, true)
            &&& does(0x21) == push_effect(c, now, key, value, false)
            &&& does(0x22) == pop_effect(c, now, key, true)
            &&& does(0x23) == pop_effect(c, now, key, false)
            &&& does(0x30) == sadd_effect(c, now, key, value)
            &&& does(0x31) == srem_effect(c, now, key, value)
            &&& does(0x33) == sismember_effect(c, now, key, value)
        }),
{
}

/// The codes of the commands that change stored data, which are the ones that a log records:
/// SET, DEL, FLUSH, HSET, HDEL, LPUSH, RPUSH, LPOP, RPOP, SADD and SREM. PUBLISH and AUTH have
/// codes of their own.
pub proof fn law_mutating_codes(action: u8)
    ensures
        mutating(action) <==> 0x01 == action || 0x03 <= action <= 0x04 || action == 0x10 || action
            == 0x12 || 0x20 <= action <= 0x23 || 0x30 <= action <= 0x31,
        ACT_PUBLISH == 0x06,
        ACT_AUTH == 0x07,
{
}

/// What a command that is carried out does: its effect is all that becomes of the cache, and its
/// reply is appended to what was there.
pub proof fn law_executed(now: u64, action: u8, key: &[u8], value: &[u8], ttl: u32)
    ensures
        forall|cache: &mut LruCache, out: &mut Vec<u8>, r: Outcome| #[trigger]
            call_ensures(execute, (cache, now, action, key, value, ttl, out), r) ==> ({
                let e = effect(cache@, now, action, key@, value@, ttl);
                &&& final(cache)@ == e.cache
                &&& final(out)@ == out@ + e.reply
                &&& r.done == e.done && r.hit == e.hit && r.miss == e.miss
            }),
{
}

} // verus!
