//! What replay of a log gives back.
use vstd::prelude::*;

use crate::bytemap::{bound, distinct_keys, has_key, lemma_position, position};
use crate::cache_laws::{
    law_no_eviction, law_sound, lemma_fit, lemma_with_front, lemma_without, sound,
};
use crate::dump::{absolute_ttl, dump_requests, record_requests, value_requests};
use crate::effects::{effect, expiry, member_items, opened, pushed, with_members};
use crate::engine::{
    frame_len, head_of, law_request_of_frame, lemma_head_prefix, requests, Head,
};
use crate::model::{record_sizes, size_of_entry, used_bytes, CacheView, Record};
use crate::protocol::{
    framable, items_bytes, law_args_of_items, lemma_items_bytes_push, mutating, request_bytes,
    Request, ACT_PUBLISH, ACT_SET,
};
use crate::replay::{
    lapsed, law_records, passed_over, records, relative_ttl, replayed, replayed_one, too_large,
};
use crate::server::{Answers, ServerView};
use crate::sums::{
    lemma_total_concat, lemma_total_member, lemma_total_push, lemma_total_take, total,
};
use crate::value::{item_sizes, member_sizes, pair_sizes, ValueView};

verus! {

/// The bytes of a log that holds `rs`.
pub open spec fn log_bytes(rs: Seq<Request>) -> Seq<u8>
    decreases rs.len(),
{
    if rs.len() == 0 {
        seq![]
    } else {
        request_bytes(rs[0]) + log_bytes(rs.drop_first())
    }
}

proof fn lemma_regroup(a: Seq<u8>, b: Seq<u8>, c: Seq<u8>)
    ensures
        (a + b) + c == a + (b + c),
{
    assert((a + b) + c =~= a + (b + c));
}

/// The first request of a log.
proof fn lemma_log_first(r: Request, tail: Seq<u8>)
    requires
        framable(r),
    ensures
        requests(request_bytes(r) + tail) == seq![r] + requests(tail),
{
    law_request_of_frame(r.action, r.key, r.value, r.ttl, tail);
}

/// One more request at the start of a log.
proof fn lemma_log_step(r: Request, log: Seq<u8>, torn: Seq<u8>, rest: Seq<Request>)
    requires
        framable(r),
        requests(log + torn) == rest,
    ensures
        requests((request_bytes(r) + log) + torn) == seq![r] + rest,
{
    lemma_regroup(request_bytes(r), log, torn);
    lemma_log_first(r, log + torn);
}

/// A log reads back as the requests that were written to it; a tail without a complete
/// request, such as one torn by a crash, adds nothing.
pub proof fn law_log_reads_back(rs: Seq<Request>, torn: Seq<u8>)
    requires
        forall|i: int| 0 <= i < rs.len() ==> framable(#[trigger] rs[i]),
        !(head_of(torn) is Whole),
    ensures
        requests(log_bytes(rs) + torn) == rs,
    decreases rs.len(),
{
    if rs.len() == 0 {
        assert(log_bytes(rs) + torn =~= torn);
        assert(requests(torn) =~= rs);
    } else {
        let rest = rs.drop_first();
        assert forall|i: int| 0 <= i < rest.len() implies framable(#[trigger] rest[i]) by {
            assert(framable(rs[i + 1]));
        }
        law_log_reads_back(rest, torn);
        assert(framable(rs[0]));
        lemma_log_step(rs[0], log_bytes(rest), torn, rest);
        assert(rs =~= seq![rs[0]] + rest);
    }
}

/// A request that was cut off anywhere, in its header, its key or its value, is no
/// complete request.
pub proof fn law_torn_request(r: Request, n: int)
    requires
        framable(r),
        0 <= n < request_bytes(r).len(),
    ensures
        head_of(request_bytes(r).take(n)) == Head::Partial,
{
    let f = request_bytes(r);
    let torn = f.take(n);
    let none = Seq::<u8>::empty();
    assert(f + none =~= f);
    law_request_of_frame(r.action, r.key, r.value, r.ttl, none);
    lemma_head_prefix(torn, f.skip(n));
    assert(torn + f.skip(n) =~= f);
}

/// The server after requests are replayed one by one, and how many were applied.
pub open spec fn replayed_all(
    s: ServerView,
    rs: Seq<Request>,
    now: u64,
    answers: Seq<Answers>,
) -> (ServerView, nat)
    decreases rs.len(),
{
    if rs.len() == 0 {
        (s, 0)
    } else {
        let t = replayed_all(
            replayed_one(s, rs[0], now, answers[0]),
            rs.drop_first(),
            now,
            answers.skip(1),
        );
        (
            t.0,
            if passed_over(s.cache.cap, rs[0], now) {
                t.1
            } else {
                t.1 + 1
            },
        )
    }
}

/// Replaying bytes is replaying the requests in them.
pub proof fn law_replay_of_requests(s: ServerView, b: Seq<u8>, now: u64, answers: Seq<Answers>)
    ensures
        replayed(s, b, now, answers) == replayed_all(s, requests(b), now, answers),
    decreases b.len(),
{
    match head_of(b) {
        Head::Whole(r) => {
            let rest = b.skip(frame_len(b) as int);
            law_replay_of_requests(
                replayed_one(s, r, now, answers[0]),
                rest,
                now,
                answers.skip(1),
            );
            assert(requests(b).drop_first() =~= requests(rest));
        },
        _ => {},
    }
}

/// A tail without a complete request does no harm: replay leaves the same server behind,
/// and applies as many requests, as if it were not there.
pub proof fn law_torn_tail(
    s: ServerView,
    rs: Seq<Request>,
    torn: Seq<u8>,
    now: u64,
    answers: Seq<Answers>,
)
    requires
        forall|i: int| 0 <= i < rs.len() ==> framable(#[trigger] rs[i]),
        !(head_of(torn) is Whole),
    ensures
        replayed(s, log_bytes(rs) + torn, now, answers) == replayed(
            s,
            log_bytes(rs),
            now,
            answers,
        ),
{
    let none = Seq::<u8>::empty();
    assert(log_bytes(rs) + none =~= log_bytes(rs));
    law_log_reads_back(rs, torn);
    law_log_reads_back(rs, none);
    law_replay_of_requests(s, log_bytes(rs) + torn, now, answers);
    law_replay_of_requests(s, log_bytes(rs), now, answers);
}

/// How many of the requests replay applies.
pub open spec fn applied_count(cap: nat, rs: Seq<Request>, now: u64) -> nat
    decreases rs.len(),
{
    if rs.len() == 0 {
        0
    } else if passed_over(cap, rs[0], now) {
        applied_count(cap, rs.drop_first(), now)
    } else {
        1 + applied_count(cap, rs.drop_first(), now)
    }
}

/// Which requests replay applies depends on the cap and the time alone.
pub proof fn law_replay_counts(s: ServerView, rs: Seq<Request>, now: u64, answers: Seq<Answers>)
    requires
        sound(s.cache),
    ensures
        replayed_all(s, rs, now, answers).1 == applied_count(s.cache.cap, rs, now),
        sound(replayed_all(s, rs, now, answers).0.cache),
        replayed_all(s, rs, now, answers).0.cache.cap == s.cache.cap,
    decreases rs.len(),
{
    if rs.len() > 0 {
        let r = rs[0];
        let ttl = relative_ttl(r, now);
        law_sound(s.cache, now, r.action, r.key, r.value, ttl);
        law_no_eviction(s.cache, now, r.action, r.key, r.value, ttl);
        lemma_without(s.cache, r.key);
        law_replay_counts(
            replayed_one(s, r, now, answers[0]),
            rs.drop_first(),
            now,
            answers.skip(1),
        );
    }
}

/// Counting in two parts.
proof fn lemma_count_concat(cap: nat, a: Seq<Request>, b: Seq<Request>, now: u64)
    ensures
        applied_count(cap, a + b, now) == applied_count(cap, a, now) + applied_count(cap, b, now),
    decreases a.len(),
{
    if a.len() == 0 {
        assert(a + b =~= b);
    } else {
        lemma_count_concat(cap, a.drop_first(), b, now);
        assert((a + b).drop_first() =~= a.drop_first() + b);
    }
}

/// Where nothing is passed over, everything counts.
proof fn lemma_count_all(cap: nat, rs: Seq<Request>, now: u64)
    requires
        forall|i: int| 0 <= i < rs.len() ==> !passed_over(cap, #[trigger] rs[i], now),
    ensures
        applied_count(cap, rs, now) == rs.len(),
    decreases rs.len(),
{
    if rs.len() > 0 {
        let rest = rs.drop_first();
        assert(forall|i: int| 0 <= i < rest.len() ==> #[trigger] rest[i] == rs[i + 1]);
        assert(!passed_over(cap, rs[0], now));
        lemma_count_all(cap, rest, now);
    }
}

/// The cache after one request is replayed on a server without a log.
pub open spec fn recalled(c: CacheView, r: Request, now: u64) -> CacheView {
    if lapsed(r, now) {
        c.without(r.key)
    } else if too_large(c.cap, r) {
        c
    } else {
        let e = effect(c, now, r.action, r.key, r.value, relative_ttl(r, now));
        if e.done {
            CacheView { evicted: seq![], ..e.cache }
        } else {
            e.cache
        }
    }
}

/// The cache after requests are replayed one by one on a server without a log.
pub open spec fn recalled_all(c: CacheView, rs: Seq<Request>, now: u64) -> CacheView
    decreases rs.len(),
{
    if rs.len() == 0 {
        c
    } else {
        recalled_all(recalled(c, rs[0], now), rs.drop_first(), now)
    }
}

/// Replay on a server without a log is a matter of the cache alone.
pub proof fn law_replay_of_cache(s: ServerView, rs: Seq<Request>, now: u64, answers: Seq<Answers>)
    requires
        s.aof is None,
        forall|i: int| 0 <= i < rs.len() ==> (#[trigger] rs[i]).action != ACT_PUBLISH,
    ensures
        replayed_all(s, rs, now, answers).0.cache == recalled_all(s.cache, rs, now),
    decreases rs.len(),
{
    if rs.len() > 0 {
        let t = replayed_one(s, rs[0], now, answers[0]);
        assert(rs[0].action != ACT_PUBLISH);
        assert(t.cache == recalled(s.cache, rs[0], now));
        let rest = rs.drop_first();
        assert(forall|i: int| 0 <= i < rest.len() ==> #[trigger] rest[i] == rs[i + 1]);
        law_replay_of_cache(t, rest, now, answers.skip(1));
    }
}

/// Replaying in two parts.
pub proof fn lemma_recalled_concat(c: CacheView, a: Seq<Request>, b: Seq<Request>, now: u64)
    ensures
        recalled_all(c, a + b, now) == recalled_all(recalled_all(c, a, now), b, now),
    decreases a.len(),
{
    if a.len() == 0 {
        assert(a + b =~= b);
    } else {
        lemma_recalled_concat(recalled(c, a[0], now), a.drop_first(), b, now);
        assert((a + b).drop_first() =~= a.drop_first() + b);
    }
}

/// Replaying a single request.
pub proof fn lemma_recalled_single(c: CacheView, r: Request, now: u64)
    ensures
        recalled_all(c, seq![r], now) == recalled(c, r, now),
{
    assert(seq![r].drop_first() =~= seq![]);
    assert(recalled_all(recalled(c, r, now), seq![], now) == recalled(c, r, now));
}

/// The records that are live at `now`, as replay at `now` brings them back: accessed now.
pub open spec fn refreshed(s: Seq<(Seq<u8>, Record)>, now: u64) -> Seq<(Seq<u8>, Record)>
    decreases s.len(),
{
    if s.len() == 0 {
        seq![]
    } else {
        let earlier = refreshed(s.drop_last(), now);
        let (key, r) = s.last();
        if r.expired(now) {
            earlier
        } else {
            earlier.push((key, Record { last_accessed: now, ..r }))
        }
    }
}

/// `c` with one more record in front.
spec fn topped(
    c: CacheView,
    key: Seq<u8>,
    value: ValueView,
    expires_at: Option<u64>,
    now: u64,
) -> CacheView {
    CacheView {
        entries: seq![(key, Record { value, expires_at, last_accessed: now })] + c.entries,
        cap: c.cap,
        evicted: seq![],
    }
}

/// Putting a new key in front.
proof fn lemma_new_front(c: CacheView, key: Seq<u8>, r: Record)
    requires
        !has_key(c.entries, key),
    ensures
        c.with_front(key, r).entries == seq![(key, r)] + c.entries,
        c.with_front(key, r).used() == c.used() + size_of_entry(key, r.value),
{
    lemma_with_front(c, key, r);
}

/// Replaying the SET of a string.
proof fn lemma_recalled_set(
    c: CacheView,
    key: Seq<u8>,
    v: Seq<u8>,
    expires_at: Option<u64>,
    now: u64,
)
    requires
        !has_key(c.entries, key),
        c.used() + size_of_entry(key, ValueView::Str(v)) <= c.cap,
        expires_at matches Some(t) ==> now < t <= u32::MAX,
        c.evicted.len() == 0,
    ensures
        recalled(c, Request { action: ACT_SET, key, value: v, ttl: absolute_ttl(expires_at) }, now)
            == topped(c, key, ValueView::Str(v), expires_at, now),
{
    let r = Record { value: ValueView::Str(v), expires_at, last_accessed: now };
    lemma_new_front(c, key, r);
    lemma_fit(c.with_front(key, r), Some(key));
    let request = Request { action: ACT_SET, key, value: v, ttl: absolute_ttl(expires_at) };
    assert(expiry(now, relative_ttl(request, now)) == expires_at);
    assert(recalled(c, request, now) =~= topped(c, key, ValueView::Str(v), expires_at, now));
}

/// A new key, or one just put in front, opened for a write.
proof fn lemma_opened_top(
    c: CacheView,
    key: Seq<u8>,
    current: Option<ValueView>,
    empty: ValueView,
    now: u64,
)
    requires
        !has_key(c.entries, key),
        c.evicted.len() == 0,
    ensures
        opened(
            match current {
                Some(v) => topped(c, key, v, None, now),
                None => c,
            },
            now,
            key,
            empty,
        ) == topped(
            c,
            key,
            match current {
                Some(v) => v,
                None => empty,
            },
            None,
            now,
        ),
{
    match current {
        Some(v) => {
            let t = topped(c, key, v, None, now);
            assert(t.entries[0].0 == key);
            assert(has_key(t.entries, key));
            assert(position(t.entries, key) == 0);
            assert(t.entries.remove(0) =~= c.entries);
            assert(opened(t, now, key, empty) =~= t);
        },
        None => {
            let r = Record { value: empty, expires_at: None, last_accessed: now };
            lemma_new_front(c, key, r);
            assert(opened(c, now, key, empty) =~= topped(c, key, empty, None, now));
        },
    }
}

/// A change of the front record that fits under the cap.
proof fn lemma_settled_top(c: CacheView, key: Seq<u8>, v: ValueView, w: ValueView, now: u64)
    requires
        !has_key(c.entries, key),
        c.evicted.len() == 0,
        !w.empty_collection(),
        c.used() + size_of_entry(key, w) <= c.cap,
    ensures
        topped(c, key, v, None, now).revalued(key, w).settled(key) == topped(c, key, w, None, now),
{
    let t = topped(c, key, v, None, now);
    assert(t.entries[0].0 == key);
    assert(position(t.entries, key) == 0);
    let u = t.revalued(key, w);
    assert(u.entries[0].0 == key);
    assert(position(u.entries, key) == 0);
    assert(u =~= topped(c, key, w, None, now));
    let size = size_of_entry(key, w);
    assert(record_sizes(u.entries) =~= seq![size] + record_sizes(c.entries));
    lemma_total_concat(seq![size], record_sizes(c.entries));
    assert(seq![size] =~= Seq::<nat>::empty().push(size));
    lemma_total_push(Seq::empty(), size);
    lemma_fit(u, Some(key));
}

/// The encoding of items is at most as long as their accounted size, and no item is longer
/// than the encoding.
proof fn lemma_items_len(items: Seq<Seq<u8>>)
    ensures
        items_bytes(items).len() <= total(item_sizes(items)),
        forall|i: int|
            0 <= i < items.len() ==> (#[trigger] items[i]).len() <= items_bytes(items).len(),
    decreases items.len(),
{
    if items.len() > 0 {
        let rest = items.drop_last();
        lemma_items_len(rest);
        lemma_items_bytes_push(rest, items.last());
        assert(rest.push(items.last()) =~= items);
        assert(item_sizes(items).drop_last() =~= item_sizes(rest));
        assert forall|i: int| 0 <= i < items.len() implies (#[trigger] items[i]).len()
            <= items_bytes(items).len() by {
            if i < rest.len() {
                assert(rest[i] == items[i]);
            }
        }
    }
}

/// Replaying the HSETs of a hash.
proof fn lemma_recalled_hash(
    c: CacheView,
    key: Seq<u8>,
    h: Seq<(Seq<u8>, Seq<u8>)>,
    n: int,
    now: u64,
)
    requires
        !has_key(c.entries, key),
        c.evicted.len() == 0,
        distinct_keys(h),
        0 < n <= h.len(),
        c.used() + size_of_entry(key, ValueView::Hash(h)) <= c.cap,
        forall|i: int|
            0 <= i < h.len() ==> framable(#[trigger] value_requests(key, ValueView::Hash(h), 0)[i]),
    ensures
        recalled_all(c, value_requests(key, ValueView::Hash(h), 0).take(n), now) == topped(
            c,
            key,
            ValueView::Hash(h.take(n)),
            None,
            now,
        ),
    decreases n,
{
    let rs = value_requests(key, ValueView::Hash(h), 0);
    let m = n - 1;
    let r = rs[m];
    let (f, v) = h[m];
    let current: Option<ValueView> = if m == 0 {
        None
    } else {
        Some(ValueView::Hash(h.take(m)))
    };
    let before = recalled_all(c, rs.take(m), now);
    if m > 0 {
        lemma_recalled_hash(c, key, h, m, now);
    } else {
        assert(rs.take(0) =~= seq![]);
    }
    let empty = ValueView::Hash(seq![]);
    lemma_opened_top(c, key, current, empty, now);
    assert(h.take(0) =~= seq![]);
    let w = ValueView::Hash(h.take(n));
    assert(!has_key(h.take(m), f)) by {
        assert forall|i: int| 0 <= i < m implies (#[trigger] h.take(m)[i]).0 != f by {
            assert(h[i].0 != h[m].0);
        }
    }
    assert(bound(h.take(m), f, v) =~= h.take(n));
    assert(pair_sizes(h.take(n)) =~= pair_sizes(h).take(n));
    lemma_total_take(pair_sizes(h), n);
    lemma_total_member(pair_sizes(h), m);
    lemma_settled_top(c, key, ValueView::Hash(h.take(m)), w, now);
    assert(framable(rs[m]));
    lemma_items_len(seq![f, v]);
    law_args_of_items(seq![f, v]);
    lemma_two_sizes(f, v);
    assert(recalled(before, r, now) =~= topped(c, key, w, None, now));
    assert(rs.take(n) =~= rs.take(m) + seq![r]);
    lemma_recalled_concat(c, rs.take(m), seq![r], now);
    lemma_recalled_single(before, r, now);
}

/// The encoding of a field and its value.
proof fn lemma_two_sizes(f: Seq<u8>, v: Seq<u8>)
    ensures
        items_bytes(seq![f, v]).len() == f.len() + v.len() + 8,
{
    let none = Seq::<Seq<u8>>::empty();
    lemma_items_bytes_push(none, f);
    lemma_items_bytes_push(none.push(f), v);
    assert(none.push(f).push(v) =~= seq![f, v]);
}

/// Replaying the RPUSH of a list.
proof fn lemma_recalled_list(c: CacheView, key: Seq<u8>, l: Seq<Seq<u8>>, now: u64)
    requires
        !has_key(c.entries, key),
        c.evicted.len() == 0,
        l.len() > 0,
        c.used() + size_of_entry(key, ValueView::List(l)) <= c.cap,
        framable(value_requests(key, ValueView::List(l), 0)[0]),
    ensures
        recalled(c, value_requests(key, ValueView::List(l), 0)[0], now) == topped(
            c,
            key,
            ValueView::List(l),
            None,
            now,
        ),
{
    let r = value_requests(key, ValueView::List(l), 0)[0];
    let empty = ValueView::List(seq![]);
    lemma_opened_top(c, key, None, empty, now);
    lemma_settled_top(c, key, empty, ValueView::List(l), now);
    lemma_items_len(l);
    law_args_of_items(l);
    assert(pushed(seq![], l, false) =~= l);
    assert(recalled(c, r, now) =~= topped(c, key, ValueView::List(l), None, now));
}

/// Adding the members of a set, in order, to an empty set.
proof fn lemma_members_rebuilt(s: Seq<(Seq<u8>, ())>, n: int)
    requires
        distinct_keys(s),
        0 <= n <= s.len(),
    ensures
        with_members(seq![], member_items(s).take(n)) == s.take(n),
    decreases n,
{
    let items = member_items(s);
    if n > 0 {
        let m = n - 1;
        lemma_members_rebuilt(s, m);
        assert(items.take(n).drop_last() =~= items.take(m));
        assert(!has_key(s.take(m), s[m].0)) by {
            assert forall|i: int| 0 <= i < m implies (#[trigger] s.take(m)[i]).0 != s[m].0 by {
                assert(s[i].0 != s[m].0);
            }
        }
        assert(s[m].1 == ());
        assert(s[m] == (s[m].0, ()));
        assert(bound(s.take(m), s[m].0, ()) =~= s.take(m).push(s[m]));
        assert(s.take(m).push(s[m]) =~= s.take(n));
    } else {
        assert(s.take(0) =~= seq![]);
        assert(items.take(0) =~= seq![]);
    }
}

/// Replaying the SADD of a set.
proof fn lemma_recalled_members(c: CacheView, key: Seq<u8>, s: Seq<(Seq<u8>, ())>, now: u64)
    requires
        !has_key(c.entries, key),
        c.evicted.len() == 0,
        s.len() > 0,
        distinct_keys(s),
        c.used() + size_of_entry(key, ValueView::Members(s)) <= c.cap,
        framable(value_requests(key, ValueView::Members(s), 0)[0]),
    ensures
        recalled(c, value_requests(key, ValueView::Members(s), 0)[0], now) == topped(
            c,
            key,
            ValueView::Members(s),
            None,
            now,
        ),
{
    let r = value_requests(key, ValueView::Members(s), 0)[0];
    let items = member_items(s);
    let empty = ValueView::Members(seq![]);
    lemma_opened_top(c, key, None, empty, now);
    lemma_settled_top(c, key, empty, ValueView::Members(s), now);
    lemma_items_len(items);
    law_args_of_items(items);
    assert(item_sizes(items) =~= member_sizes(s));
    lemma_members_rebuilt(s, s.len() as int);
    assert(items.take(s.len() as int) =~= items);
    assert(s.take(s.len() as int) =~= s);
    assert(recalled(c, r, now) =~= topped(c, key, ValueView::Members(s), None, now));
}

/// Replaying the requests of one record.
proof fn lemma_recalled_record(
    c: CacheView,
    e: (Seq<u8>, Record),
    dumped: u64,
    now: u64,
)
    requires
        !has_key(c.entries, e.0),
        c.evicted.len() == 0,
        e.1.value.wf(),
        !e.1.value.empty_collection(),
        e.1.expires_at matches Some(t) ==> t <= u32::MAX && e.1.value is Str,
        c.used() + size_of_entry(e.0, e.1.value) <= c.cap,
        dumped <= now,
        forall|i: int|
            0 <= i < record_requests(e, dumped).len() ==> framable(
                #[trigger] record_requests(e, dumped)[i],
            ),
    ensures
        recalled_all(c, record_requests(e, dumped), now) == (if e.1.expired(now) {
            c
        } else {
            topped(c, e.0, e.1.value, e.1.expires_at, now)
        }),
{
    let rs = record_requests(e, dumped);
    let key = e.0;
    if e.1.expired(dumped) {
        assert(recalled_all(c, rs, now) == c);
    } else {
        match e.1.value {
            ValueView::Str(v) => {
                lemma_recalled_single(c, rs[0], now);
                assert(rs =~= seq![rs[0]]);
                if !e.1.expired(now) {
                    lemma_recalled_set(c, key, v, e.1.expires_at, now);
                }
            },
            ValueView::Hash(h) => {
                assert(rs == value_requests(key, ValueView::Hash(h), 0));
                lemma_recalled_hash(c, key, h, h.len() as int, now);
                assert(rs.take(h.len() as int) =~= rs);
                assert(h.take(h.len() as int) =~= h);
            },
            ValueView::List(l) => {
                assert(rs == value_requests(key, ValueView::List(l), 0));
                assert(framable(rs[0]));
                lemma_recalled_single(c, rs[0], now);
                assert(rs =~= seq![rs[0]]);
                lemma_recalled_list(c, key, l, now);
            },
            ValueView::Members(s) => {
                assert(rs == value_requests(key, ValueView::Members(s), 0));
                assert(framable(rs[0]));
                lemma_recalled_single(c, rs[0], now);
                assert(rs =~= seq![rs[0]]);
                lemma_recalled_members(c, key, s, now);
            },
        }
    }
}

/// Replaying a dump on top of other records.
pub proof fn lemma_recalled_dump(
    c: CacheView,
    s: Seq<(Seq<u8>, Record)>,
    dumped: u64,
    now: u64,
)
    requires
        distinct_keys(s),
        forall|i: int| 0 <= i < s.len() ==> !has_key(c.entries, (#[trigger] s[i]).0),
        c.evicted.len() == 0,
        forall|i: int|
            0 <= i < s.len() ==> (#[trigger] s[i]).1.value.wf()
                && !s[i].1.value.empty_collection() && (s[i].1.expires_at matches Some(t) ==> t
                <= u32::MAX && s[i].1.value is Str),
        c.used() + used_bytes(s) <= c.cap,
        dumped <= now,
        forall|i: int|
            0 <= i < dump_requests(s, dumped).len() ==> framable(
                #[trigger] dump_requests(s, dumped)[i],
            ),
    ensures
        recalled_all(c, dump_requests(s, dumped), now) == (CacheView {
            entries: refreshed(s, now) + c.entries,
            ..c
        }),
    decreases s.len(),
{
    if s.len() == 0 {
        assert(refreshed(s, now) + c.entries =~= c.entries);
    } else {
        let e = s.last();
        let front = s.drop_last();
        let first = record_requests(e, dumped);
        let rest = dump_requests(front, dumped);
        let all = dump_requests(s, dumped);
        assert forall|i: int| 0 <= i < first.len() implies framable(#[trigger] first[i]) by {
            assert(all[i] == first[i]);
        }
        assert forall|i: int| 0 <= i < rest.len() implies framable(#[trigger] rest[i]) by {
            assert(all[first.len() + i] == rest[i]);
        }
        assert(s[s.len() - 1] == e);
        assert(record_sizes(s).drop_last() =~= record_sizes(front));
        assert(used_bytes(s) == used_bytes(front) + size_of_entry(e.0, e.1.value));
        lemma_recalled_record(c, e, dumped, now);
        let d = recalled_all(c, first, now);
        if !e.1.expired(now) {
            let size = size_of_entry(e.0, e.1.value);
            assert(record_sizes(d.entries) =~= seq![size] + record_sizes(c.entries));
            lemma_total_concat(seq![size], record_sizes(c.entries));
            assert(seq![size] =~= Seq::<nat>::empty().push(size));
            lemma_total_push(Seq::empty(), size);
        }
        assert forall|i: int| 0 <= i < front.len() implies !has_key(
            d.entries,
            (#[trigger] front[i]).0,
        ) by {
            assert(front[i] == s[i]);
            assert(s[i].0 != s[s.len() - 1].0);
            if has_key(d.entries, front[i].0) {
                lemma_position(d.entries, front[i].0);
                let p = position(d.entries, front[i].0);
                if !e.1.expired(now) {
                    assert(p > 0);
                    assert(c.entries[p - 1] == d.entries[p]);
                }
            }
        }
        assert forall|i: int| 0 <= i < front.len() implies (#[trigger] front[i]).1.value.wf()
            && !front[i].1.value.empty_collection() && (front[i].1.expires_at matches Some(t)
            ==> t <= u32::MAX && front[i].1.value is Str) by {
            assert(front[i] == s[i]);
        }
        lemma_recalled_dump(d, front, dumped, now);
        lemma_recalled_concat(c, first, rest, now);
        assert(refreshed(front, now) + d.entries =~= refreshed(s, now) + c.entries);
        assert(d.evicted =~= c.evicted);
    }
}

/// The body of each request that recreates a value is at most as long as the accounted
/// size of the entry.
proof fn lemma_body_len(key: Seq<u8>, v: ValueView, ttl: u32, i: int)
    requires
        0 <= i < value_requests(key, v, ttl).len(),
    ensures
        ({
            let r = value_requests(key, v, ttl)[i];
            r.key.len() + r.value.len() <= size_of_entry(key, v)
        }),
{
    match v {
        ValueView::Str(_) => {},
        ValueView::Hash(h) => {
            lemma_two_sizes(h[i].0, h[i].1);
            lemma_total_member(pair_sizes(h), i);
        },
        ValueView::List(l) => {
            lemma_items_len(l);
        },
        ValueView::Members(s) => {
            lemma_items_len(member_items(s));
            assert(item_sizes(member_items(s)) =~= member_sizes(s));
        },
    }
}

/// How many requests of a dump replay applies: those of the records that are still live.
proof fn lemma_dump_count(s: Seq<(Seq<u8>, Record)>, cap: nat, dumped: u64, now: u64)
    requires
        forall|i: int|
            0 <= i < s.len() ==> ((#[trigger] s[i]).1.expires_at matches Some(t) ==> t
                <= u32::MAX && s[i].1.value is Str),
        used_bytes(s) <= cap,
        dumped <= now,
    ensures
        applied_count(cap, dump_requests(s, dumped), now) == dump_requests(s, now).len(),
    decreases s.len(),
{
    if s.len() > 0 {
        let e = s.last();
        let front = s.drop_last();
        let first = record_requests(e, dumped);
        assert(s[s.len() - 1] == e);
        assert(forall|i: int| 0 <= i < front.len() ==> #[trigger] front[i] == s[i]);
        assert(record_sizes(s).drop_last() =~= record_sizes(front));
        lemma_dump_count(front, cap, dumped, now);
        lemma_count_concat(cap, first, dump_requests(front, dumped), now);
        if e.1.expired(now) {
            if !e.1.expired(dumped) {
                assert(first[0].ttl == e.1.expires_at->0);
                assert(passed_over(cap, first[0], now));
                assert(first.drop_first() =~= seq![]);
                assert(applied_count(cap, first.drop_first(), now) == 0);
            }
        } else {
            assert forall|i: int| 0 <= i < first.len() implies !passed_over(
                cap,
                #[trigger] first[i],
                now,
            ) by {
                lemma_body_len(e.0, e.1.value, absolute_ttl(e.1.expires_at), i);
            }
            lemma_count_all(cap, first, now);
        }
    }
}

/// Compaction loses nothing: replaying, at a later time, the file that a rewrite left, on a
/// fresh server, brings back exactly the records that are live at that time, with their
/// expiry and in their order of recency, and counts the requests that recreate these. A
/// tail torn by a crash does no harm.
pub proof fn law_rewrite_then_replay(
    c: CacheView,
    dumped: u64,
    s: ServerView,
    torn: Seq<u8>,
    now: u64,
    answers: Seq<Answers>,
)
    requires
        sound(c),
        c.used() <= c.cap,
        forall|i: int|
            0 <= i < c.entries.len() ==> ((#[trigger] c.entries[i]).1.expires_at matches Some(t)
                ==> t <= u32::MAX),
        forall|i: int|
            0 <= i < dump_requests(c.entries, dumped).len() ==> framable(
                #[trigger] dump_requests(c.entries, dumped)[i],
            ),
        dumped <= now,
        s.aof is None,
        s.cache.entries.len() == 0,
        s.cache.evicted.len() == 0,
        s.cache.cap == c.cap,
        !(head_of(torn) is Whole),
        records(torn) == torn,
    ensures
        ({
            let file = log_bytes(dump_requests(c.entries, dumped)) + torn;
            let (t, n) = replayed(s, records(file), now, answers);
            &&& t.cache.entries == refreshed(c.entries, now)
            &&& n == dump_requests(c.entries, now).len()
        }),
{
    let rs = dump_requests(c.entries, dumped);
    let b = log_bytes(rs) + torn;
    law_log_reads_back(rs, torn);
    lemma_dump_actions(c.entries, dumped);
    lemma_file_of_requests(rs, torn);
    law_replay_of_requests(s, b, now, answers);
    law_replay_of_cache(s, rs, now, answers);
    law_replay_counts(s, rs, now, answers);
    assert(record_sizes(s.cache.entries) =~= seq![]);
    lemma_recalled_dump(s.cache, c.entries, dumped, now);
    assert(refreshed(c.entries, now) + s.cache.entries =~= refreshed(c.entries, now));
    lemma_dump_count(c.entries, c.cap, dumped, now);
}

/// A file that starts with a command on stored data does not start with the magic bytes.
pub proof fn lemma_file_of_requests(rs: Seq<Request>, torn: Seq<u8>)
    requires
        forall|i: int| 0 <= i < rs.len() ==> mutating((#[trigger] rs[i]).action),
        records(torn) == torn,
    ensures
        records(log_bytes(rs) + torn) == log_bytes(rs) + torn,
{
    let b = log_bytes(rs) + torn;
    if rs.len() == 0 {
        assert(b =~= torn);
    } else {
        assert(mutating(rs[0].action));
        assert(request_bytes(rs[0])[0] == rs[0].action);
        assert(b[0] == rs[0].action);
        law_records(b);
    }
}

/// A dump holds commands that change stored data.
pub proof fn lemma_dump_actions(s: Seq<(Seq<u8>, Record)>, dumped: u64)
    ensures
        forall|i: int|
            0 <= i < dump_requests(s, dumped).len() ==> mutating(
                (#[trigger] dump_requests(s, dumped)[i]).action,
            ),
    decreases s.len(),
{
    if s.len() > 0 {
        lemma_dump_actions(s.drop_last(), dumped);
        let first = record_requests(s.last(), dumped);
        let rest = dump_requests(s.drop_last(), dumped);
        assert forall|i: int| 0 <= i < dump_requests(s, dumped).len() implies mutating(
            (#[trigger] dump_requests(s, dumped)[i]).action,
        ) by {
            if i < first.len() {
                assert(dump_requests(s, dumped)[i] == first[i]);
            } else {
                assert(dump_requests(s, dumped)[i] == rest[i - first.len()]);
            }
        }
    }
}

/// Which records replay counts: all but a SET whose second of expiry has come, and any record
/// whose key and value together are larger than the cache, which is left out. A record that
/// fills the cache exactly is not.
pub proof fn law_replay_of_one(s: ServerView, r: Request, now: u64, answers: Seq<Answers>)
    ensures
        ({
            let (t, n) = replayed_all(s, seq![r], now, answers);
            let late = r.action == 0x01 && r.ttl != 0 && r.ttl <= now;
            let huge = r.key.len() + r.value.len() > s.cache.cap;
            &&& n == (if late || huge {
                0nat
            } else {
                1
            })
            &&& huge && !late ==> t == s
            &&& late ==> t == (ServerView { cache: t.cache, ..s }) && t.cache.entries
                == s.cache.without(r.key).entries
        }),
{
    let none = Seq::<Request>::empty();
    assert(seq![r].drop_first() =~= none);
    let t = replayed_one(s, r, now, answers[0]);
    assert(replayed_all(t, none, now, answers.skip(1)) == (t, 0nat));
}

} // verus!
