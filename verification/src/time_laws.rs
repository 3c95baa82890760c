//! What the clock means to a client: how long what was stored can be read, now and after a
//! restart.
use vstd::prelude::*;

use crate::aof::counted;
use crate::cache_laws::{
    law_growth, law_no_eviction, law_sound, lemma_looked_up, lemma_with_front, lemma_without, sound,
};
use crate::clock::clock_reads;
use crate::effects::{effect, expiry};
use crate::engine::{
    head_of, honest_run, law_request_of_frame, requests, served, session, stepped, EngineConn, Next,
    NextView, Session,
};
use crate::model::{CacheView, Record};
use crate::protocol::{bulk_reply, framable, frame_bytes, mutating, request_bytes, Request};
use crate::replay::{law_records, magic, records, relative_ttl, replay_aof, replayed, unmarked};
use crate::replay_laws::{
    law_log_reads_back, law_replay_of_cache, law_replay_of_requests, lemma_recalled_concat,
    lemma_recalled_single, log_bytes, recalled, recalled_all,
};
use crate::server::{
    applied, law_evictions_are_reported, law_served_set_then_get, log_frames, Answers, Server,
    ServerView,
};
use crate::store_laws::{
    law_command_spares_others, lemma_fit_records, lemma_gone, lemma_others,
};
use crate::value::ValueView;

verus! {

/// What the replay of one request does to the key of another.
proof fn lemma_recalled_spares(c: CacheView, r: Request, now: u64, k: Seq<u8>)
    requires
        sound(c),
        k != r.key,
        r.action != 0x04,
    ensures
        recalled(c, r, now).record(k) is None || recalled(c, r, now).record(k) == c.record(k),
        c.used() + 7 * request_bytes(r).len() <= c.cap ==> recalled(c, r, now).record(k)
            == c.record(k),
{
    let ttl = relative_ttl(r, now);
    law_command_spares_others(c, now, r.action, r.key, r.value, ttl, k);
    law_no_eviction(c, now, r.action, r.key, r.value, ttl);
    lemma_others(c, r.key, arbitrary(), k);
    assert(request_bytes(r).len() == 11 + r.key.len() + r.value.len());
}

/// What the replay of one request does to the cache as a whole.
proof fn lemma_recalled_grows(c: CacheView, r: Request, now: u64)
    requires
        sound(c),
    ensures
        sound(recalled(c, r, now)),
        recalled(c, r, now).cap == c.cap,
        recalled(c, r, now).used() <= c.used() + 7 * request_bytes(r).len(),
{
    let ttl = relative_ttl(r, now);
    law_sound(c, now, r.action, r.key, r.value, ttl);
    law_growth(c, now, r.action, r.key, r.value, ttl);
    law_no_eviction(c, now, r.action, r.key, r.value, ttl);
    lemma_without(c, r.key);
    assert(request_bytes(r).len() == 11 + r.key.len() + r.value.len());
}

/// What the replay of requests does to the cache as a whole.
proof fn lemma_recalled_all_grows(c: CacheView, rs: Seq<Request>, now: u64)
    requires
        sound(c),
    ensures
        sound(recalled_all(c, rs, now)),
        recalled_all(c, rs, now).cap == c.cap,
        recalled_all(c, rs, now).used() <= c.used() + 7 * log_bytes(rs).len(),
    decreases rs.len(),
{
    if rs.len() > 0 {
        lemma_recalled_grows(c, rs[0], now);
        lemma_recalled_all_grows(recalled(c, rs[0], now), rs.drop_first(), now);
        assert(log_bytes(rs).len() == request_bytes(rs[0]).len() + log_bytes(
            rs.drop_first(),
        ).len());
    }
}

/// What the replay of requests on other keys does to a key.
proof fn lemma_recalled_all_spares(c: CacheView, rs: Seq<Request>, now: u64, k: Seq<u8>)
    requires
        sound(c),
        forall|i: int| 0 <= i < rs.len() ==> (#[trigger] rs[i]).key != k && rs[i].action != 0x04,
    ensures
        recalled_all(c, rs, now).record(k) is None || recalled_all(c, rs, now).record(k)
            == c.record(k),
        c.used() + 7 * log_bytes(rs).len() <= c.cap ==> recalled_all(c, rs, now).record(k)
            == c.record(k),
    decreases rs.len(),
{
    if rs.len() > 0 {
        let rest = rs.drop_first();
        let d = recalled(c, rs[0], now);
        assert(rs[0].key != k);
        lemma_recalled_spares(c, rs[0], now, k);
        lemma_recalled_grows(c, rs[0], now);
        assert forall|i: int| 0 <= i < rest.len() implies (#[trigger] rest[i]).key != k
            && rest[i].action != 0x04 by {
            assert(rs[i + 1].key != k);
        }
        lemma_recalled_all_spares(d, rest, now, k);
        assert(log_bytes(rs).len() == request_bytes(rs[0]).len() + log_bytes(rest).len());
    }
}

/// The requests of a log around a SET.
pub open spec fn around(before: Seq<Request>, r: Request, after: Seq<Request>) -> Seq<Request> {
    before + (seq![r] + after)
}

/// The key of a logged SET after the log's replay.
proof fn lemma_recalled_set(
    c: CacheView,
    before: Seq<Request>,
    r: Request,
    after: Seq<Request>,
    now: u64,
)
    requires
        sound(c),
        r.action == 0x01,
        r.key.len() + r.value.len() <= c.cap,
        forall|i: int|
            0 <= i < after.len() ==> (#[trigger] after[i]).key != r.key && after[i].action != 0x04,
    ensures
        ({
            let d = recalled_all(c, around(before, r, after), now);
            let kept = Record {
                value: ValueView::Str(r.value),
                expires_at: if r.ttl == 0 {
                    None
                } else {
                    Some(r.ttl as u64)
                },
                last_accessed: now,
            };
            &&& r.ttl != 0 && r.ttl <= now ==> d.record(r.key) is None
            &&& r.ttl == 0 || now < r.ttl ==> d.record(r.key) is None || d.record(r.key) == Some(
                kept,
            )
            &&& (r.ttl == 0 || now < r.ttl) && c.used() + 7 * log_bytes(
                around(before, r, after),
            ).len() <= c.cap ==> d.record(r.key) == Some(kept)
        }),
{
    let rs = around(before, r, after);
    let b = recalled_all(c, before, now);
    let m = recalled(b, r, now);
    lemma_recalled_concat(c, before, seq![r] + after, now);
    lemma_recalled_concat(b, seq![r], after, now);
    lemma_recalled_single(b, r, now);
    lemma_recalled_all_grows(c, before, now);
    lemma_recalled_grows(b, r, now);
    lemma_recalled_all_spares(m, after, now, r.key);
    lemma_log_len(before, seq![r] + after);
    lemma_log_len(seq![r], after);
    assert(log_bytes(seq![r]).len() == request_bytes(r).len()) by {
        assert(seq![r].drop_first() =~= seq![]);
        assert(log_bytes(seq![r]) =~= request_bytes(r) + log_bytes(seq![]));
    }
    lemma_gone(b, r.key);
    let kept = Record {
        value: ValueView::Str(r.value),
        expires_at: if r.ttl == 0 {
            None
        } else {
            Some(r.ttl as u64)
        },
        last_accessed: now,
    };
    lemma_with_front(b, r.key, kept);
    lemma_fit_records(b.with_front(r.key, kept), Some(r.key), r.key);
    if r.ttl == 0 || now < r.ttl {
        assert(expiry(now, relative_ttl(r, now)) == kept.expires_at);
        assert(m.record(r.key) == Some(kept));
    }
}

proof fn lemma_log_len(a: Seq<Request>, b: Seq<Request>)
    ensures
        log_bytes(a + b).len() == log_bytes(a).len() + log_bytes(b).len(),
    decreases a.len(),
{
    if a.len() == 0 {
        assert(a + b =~= b);
    } else {
        lemma_log_len(a.drop_first(), b);
        assert((a + b).drop_first() =~= a.drop_first() + b);
    }
}

/// What a restart at the time `now` makes of a SET in the log file, whatever the log holds
/// before it, as long as nothing after it is about its key or wipes the store. The TTL field
/// of a logged SET is the UNIX second at which the value expires. If that second is later
/// than `now`, or the field is zero, the value is back, to expire at that very second or
/// never; it can have been evicted only if the whole log does not fit under the cap. If it
/// is not later, the key is absent. A tail torn by a crash does not matter.
#[verifier::rlimit(40)]
pub proof fn law_logged_set_comes_back(
    s: ServerView,
    before: Seq<Request>,
    key: Seq<u8>,
    value: Seq<u8>,
    ttl: u32,
    after: Seq<Request>,
    torn: Seq<u8>,
    now: u64,
    answers: Seq<Answers>,
)
    requires
        sound(s.cache),
        s.aof is None,
        key.len() <= 0xFFFF,
        key.len() + value.len() <= 67108864,
        key.len() + value.len() <= s.cache.cap,
        forall|i: int|
            0 <= i < before.len() ==> framable(#[trigger] before[i]) && before[i].action != 0x06,
        forall|i: int|
            0 <= i < after.len() ==> framable(#[trigger] after[i]) && after[i].action != 0x06
                && after[i].action != 0x04 && after[i].key != key,
        !(head_of(torn) is Whole),
    ensures
        ({
            let log = log_bytes(around(before, Request { action: 0x01, key, value, ttl }, after));
            let file = seq![0x50u8, 0x69u8, 0x63u8, 0x6fu8, 0x31u8] + (log + torn);
            let c = unmarked(replayed(s, records(file), now, answers).0).cache;
            let back = |r: Record|
                r.value == ValueView::Str(value) && r.expires_at == (if ttl == 0 {
                    None
                } else {
                    Some(ttl as u64)
                });
            &&& ttl != 0 && ttl <= now ==> c.record(key) is None
            &&& ttl == 0 || now < ttl ==> (c.record(key) matches Some(r) ==> back(r))
            &&& (ttl == 0 || now < ttl) && s.cache.used() + 7 * log.len() <= s.cache.cap ==> (
            c.record(key) matches Some(r) && back(r)) && forall|at: u64|
                c.live(key, at) is Some <==> (ttl == 0 || at < ttl)
        }),
{
    let r = Request { action: 0x01, key, value, ttl };
    let rs = around(before, r, after);
    let log = log_bytes(rs);
    let file = seq![0x50u8, 0x69u8, 0x63u8, 0x6fu8, 0x31u8] + (log + torn);
    assert(file =~= magic() + (log + torn));
    law_records(log + torn);
    assert forall|i: int| 0 <= i < rs.len() implies framable(#[trigger] rs[i]) && rs[i].action
        != 0x06 by {
        if i < before.len() {
            assert(rs[i] == before[i]);
        } else if i == before.len() {
            assert(rs[i] == r);
        } else {
            assert(rs[i] == after[i - before.len() - 1]);
        }
    }
    law_log_reads_back(rs, torn);
    law_replay_of_requests(s, log + torn, now, answers);
    law_replay_of_cache(s, rs, now, answers);
    lemma_recalled_set(s.cache, before, r, after, now);
}

/// What became of a key that was given an expiry: it is gone, or still has that expiry.
pub open spec fn expires_with(c: CacheView, key: Seq<u8>, at: u64) -> bool {
    c.record(key) matches Some(r) ==> r.expires_at == Some(at)
}

/// The server after commands run one after the other.
pub open spec fn applied_all(s: ServerView, run: Seq<(Request, Answers)>) -> ServerView
    decreases run.len(),
{
    if run.len() == 0 {
        s
    } else {
        let (r, a) = run.last();
        applied(applied_all(s, run.drop_last()), r.action, r.key, r.value, r.ttl, a).0
    }
}

/// A command that does not write a key leaves its expiry alone.
proof fn lemma_expiry_stays(s: ServerView, r: Request, a: Answers, key: Seq<u8>, at: u64)
    requires
        sound(s.cache),
        expires_with(s.cache, key, at),
        r.key != key || !mutating(r.action),
    ensures
        ({
            let t = applied(s, r.action, r.key, r.value, r.ttl, a).0;
            sound(t.cache) && expires_with(t.cache, key, at)
        }),
{
    let c = s.cache;
    let e = effect(c, a.now, r.action, r.key, r.value, r.ttl);
    law_sound(c, a.now, r.action, r.key, r.value, r.ttl);
    if r.key != key {
        law_command_spares_others(c, a.now, r.action, r.key, r.value, r.ttl, key);
    } else {
        lemma_gone(c, key);
        lemma_looked_up(c, key, a.now);
        if let Some(p) = c.record(key) {
            lemma_with_front(c, key, Record { last_accessed: a.now, ..p });
        }
        assert(e.cache == c || e.cache == c.looked_up(key, a.now));
        assert(expires_with(e.cache, key, at));
    }
    let t = applied(s, r.action, r.key, r.value, r.ttl, a).0;
    assert(t.cache.entries == e.cache.entries || t.cache == c);
}

proof fn lemma_expiry_stays_all(
    s: ServerView,
    run: Seq<(Request, Answers)>,
    key: Seq<u8>,
    at: u64,
)
    requires
        sound(s.cache),
        s.cache.evicted.len() == 0,
        expires_with(s.cache, key, at),
        forall|i: int|
            0 <= i < run.len() ==> (#[trigger] run[i]).0.key != key || !mutating(run[i].0.action),
    ensures
        sound(applied_all(s, run).cache),
        applied_all(s, run).cache.evicted.len() == 0,
        expires_with(applied_all(s, run).cache, key, at),
    decreases run.len(),
{
    if run.len() > 0 {
        let front = run.drop_last();
        assert forall|i: int| 0 <= i < front.len() implies (#[trigger] front[i]).0.key != key
            || !mutating(front[i].0.action) by {
            assert(run[i].0.key != key || !mutating(run[i].0.action));
        }
        lemma_expiry_stays_all(s, front, key, at);
        assert(run.last() == run[run.len() - 1]);
        let (r, a) = run.last();
        lemma_expiry_stays(applied_all(s, front), r, a, key, at);
        law_evictions_are_reported(applied_all(s, front), r.action, r.key, r.value, r.ttl, a);
    }
}

/// A value that a SET gave `ttl` seconds is missing to every GET that is served `ttl` or more
/// seconds after it, whatever ran in between, as long as nothing wrote the key again: both
/// readings of the clock are in seconds.
#[verifier::rlimit(40)]
pub proof fn law_ttl_runs_out(
    s: ServerView,
    key: Seq<u8>,
    value: Seq<u8>,
    ttl: u32,
    a: Answers,
    run: Seq<(Request, Answers)>,
    b: Answers,
)
    requires
        sound(s.cache),
        s.cache.evicted.len() == 0,
        ttl > 0,
        a.now + ttl <= b.now,
        applied(s, 0x01, key, value, ttl, a).1 == seq![0x00u8],
        forall|i: int|
            0 <= i < run.len() ==> (#[trigger] run[i]).0.key != key || !mutating(run[i].0.action),
    ensures
        ({
            let t = applied_all(applied(s, 0x01, key, value, ttl, a).0, run);
            let u = applied(t, 0x02, key, seq![], 0, b);
            &&& t.cache.live(key, b.now) is None
            &&& u.0.misses == counted(t.misses)
            &&& u.1 == seq![0x44u8]
        }),
{
    let at = (a.now + ttl) as u64;
    let t = applied(s, 0x01, key, value, ttl, a).0;
    assert(seq![0x45u8][0] != seq![0x00u8][0]);
    let kept = Record {
        value: ValueView::Str(value),
        expires_at: Some(at),
        last_accessed: a.now,
    };
    lemma_with_front(s.cache, key, kept);
    lemma_fit_records(s.cache.with_front(key, kept), Some(key), key);
    law_sound(s.cache, a.now, 0x01, key, value, ttl);
    lemma_expiry_stays_all(t, run, key, at);
    let w = applied_all(t, run);
    let e = effect(w.cache, b.now, 0x02, key, seq![], 0);
    lemma_looked_up(w.cache, key, b.now);
    lemma_without(w.cache, key);
    assert(log_frames(b.now, 0x02, key, seq![], 0, e.cache.evicted) =~= seq![]);
}

/// A client that stores a value for `ttl` seconds and asks for it on one connection is
/// answered, byte for byte: the acknowledgement, then the value if fewer than `ttl` seconds
/// lie between the two readings of the clock or `ttl` is zero, and else the byte for missing
/// data. This holds whatever the store held and evicts.
#[verifier::rlimit(40)]
pub proof fn law_stored_for_ttl_seconds(
    s: Session,
    key: Seq<u8>,
    value: Seq<u8>,
    ttl: u32,
    a: Answers,
    b: Answers,
)
    requires
        s.authed,
        sound(s.server.cache),
        s.server.aof is None,
        key.len() <= 0xFFFF,
        key.len() + value.len() <= 67108864,
        a.now <= b.now,
        a.now + ttl <= u64::MAX,
    ensures
        ({
            let sent = frame_bytes(0x01, key, value, ttl) + frame_bytes(0x02, key, seq![], 0);
            let (t, left, next) = served(s, sent, seq![a, b]);
            &&& left.len() == 0
            &&& next == NextView::Read
            &&& t.out == s.out + seq![0x00u8] + (if ttl == 0 || b.now - a.now < ttl {
                bulk_reply(value)
            } else {
                seq![0x44u8]
            })
        }),
{
    let none = Seq::<u8>::empty();
    let get = frame_bytes(0x02, key, seq![], 0);
    let answers = seq![a, b];
    let set = Request { action: 0x01, key, value, ttl };
    let ask = Request { action: 0x02, key, value: seq![], ttl: 0 };
    law_request_of_frame(0x01, key, value, ttl, get);
    law_request_of_frame(0x02, key, seq![], 0, none);
    assert(get + none =~= get);
    let t = stepped(s, set, a);
    let u = stepped(t, ask, b);
    assert(answers.skip(1)[0] == b);
    assert(head_of(none) is Partial);
    assert(served(t, get, answers.skip(1)) == served(u, none, answers.skip(1).skip(1)));
    law_served_set_then_get(s.server, key, value, ttl, a, b);
    assert(applied(s.server, 0x01, key, value, ttl, a).1 == seq![0x00u8]);
}

/// The file of a log around a SET.
pub open spec fn file_around(
    before: Seq<Request>,
    key: Seq<u8>,
    value: Seq<u8>,
    ttl: u32,
    after: Seq<Request>,
    torn: Seq<u8>,
) -> Seq<u8> {
    let log = log_bytes(around(before, Request { action: 0x01, key, value, ttl }, after));
    seq![0x50u8, 0x69u8, 0x63u8, 0x6fu8, 0x31u8] + (log + torn)
}

/// What the replay of a log file at startup makes of a SET in it, by the system clock in whole
/// seconds since the UNIX epoch: if the clock reads less than the TTL field of the SET, or the
/// field is zero, the value is back, to expire at that second or never, unless the whole log
/// does not fit under the cap and it was evicted; otherwise the key is absent.
#[verifier::rlimit(40)]
pub proof fn law_restart_by_the_clock(
    before: Seq<Request>,
    key: Seq<u8>,
    value: Seq<u8>,
    ttl: u32,
    after: Seq<Request>,
    torn: Seq<u8>,
    data: &[u8],
)
    requires
        data@ == file_around(before, key, value, ttl, after, torn),
        key.len() <= 0xFFFF,
        key.len() + value.len() <= 67108864,
        forall|i: int|
            0 <= i < before.len() ==> framable(#[trigger] before[i]) && before[i].action != 0x06,
        forall|i: int|
            0 <= i < after.len() ==> framable(#[trigger] after[i]) && after[i].action != 0x06
                && after[i].action != 0x04 && after[i].key != key,
        !(head_of(torn) is Whole),
    ensures
        forall|server: &mut Server, n: u64| #[trigger]
            call_ensures(replay_aof, (server, data), n) && sound(server@.cache) && server@.aof
                is None && key.len() + value.len() <= server@.cache.cap ==> exists|now: u64|
                #[trigger] clock_reads(now) && comes_back(
                    server@.cache,
                    final(server)@.cache,
                    key,
                    value,
                    ttl,
                    data@.len(),
                    now,
                ),
{
    assert forall|server: &mut Server, n: u64| #[trigger]
        call_ensures(replay_aof, (server, data), n) && sound(server@.cache) && server@.aof is None
            && key.len() + value.len() <= server@.cache.cap implies exists|now: u64| #[trigger]
        clock_reads(now) && comes_back(
            server@.cache,
            final(server)@.cache,
            key,
            value,
            ttl,
            data@.len(),
            now,
        ) by {
        let (now, answers) = choose|now: u64, answers: Seq<Answers>|
            {
                let t = #[trigger] replayed(server@, records(data@), now, answers);
                clock_reads(now) && final(server)@ == unmarked(t.0) && n == t.1
            };
        law_logged_set_comes_back(server@, before, key, value, ttl, after, torn, now, answers);
        assert(clock_reads(now));
    }
}

/// What became of a SET in a log file of `len` bytes that was replayed at the time `now` into a
/// cache that was `c` before and is `d` now.
pub open spec fn comes_back(
    c: CacheView,
    d: CacheView,
    key: Seq<u8>,
    value: Seq<u8>,
    ttl: u32,
    len: nat,
    now: u64,
) -> bool {
    let expires_at = if ttl == 0 {
        None
    } else {
        Some(ttl as u64)
    };
    &&& ttl != 0 && ttl <= now ==> d.record(key) is None
    &&& ttl == 0 || now < ttl ==> (d.record(key) matches Some(r) ==> r.value == ValueView::Str(
        value,
    ) && r.expires_at == expires_at)
    &&& (ttl == 0 || now < ttl) && c.used() + 7 * len <= c.cap ==> (d.record(key) matches Some(r)
        && r.value == ValueView::Str(value) && r.expires_at == expires_at)
}

/// What a client on one connection is answered that stores a value for `ttl` seconds and asks for
/// it, by the system clock in whole seconds: the two requests are served at two readings of
/// it, and the value is there if they are less than `ttl` seconds apart, or `ttl` is zero, and
/// missing otherwise.
#[verifier::rlimit(40)]
pub proof fn law_served_by_the_clock(
    key: Seq<u8>,
    value: Seq<u8>,
    ttl: u32,
    data: &[u8],
)
    requires
        data@ == frame_bytes(0x01, key, value, ttl) + frame_bytes(0x02, key, seq![], 0),
        key.len() <= 0xFFFF,
        key.len() + value.len() <= 67108864,
    ensures
        forall|conn: &mut EngineConn, server: &mut Server, out: &mut Vec<u8>, r: Next| #[trigger]
            call_ensures(EngineConn::serve, (conn, server, data, out), r) && conn.authed
                && conn.acc@.len() == 0 && sound(server@.cache) && server@.aof is None
                ==> exists|first: u64, second: u64| #[trigger]
                clock_reads(first) && #[trigger] clock_reads(second) && (first <= second && first
                    + ttl <= u64::MAX ==> final(out)@ == out@ + seq![0x00u8] + (if ttl == 0 || second
                    - first < ttl {
                    bulk_reply(value)
                } else {
                    seq![0x44u8]
                })),
{
    assert forall|conn: &mut EngineConn, server: &mut Server, out: &mut Vec<u8>, r: Next| #[trigger]
        call_ensures(EngineConn::serve, (conn, server, data, out), r) && conn.authed
            && conn.acc@.len() == 0 && sound(server@.cache) && server@.aof is None implies exists|
        first: u64,
        second: u64,
    | #[trigger]
        clock_reads(first) && #[trigger] clock_reads(second) && (first <= second && first + ttl
            <= u64::MAX ==> final(out)@ == out@ + seq![0x00u8] + (if ttl == 0 || second - first
            < ttl {
            bulk_reply(value)
        } else {
            seq![0x44u8]
        })) by {
        let s = session(server@, conn.authed, out@);
        let all = conn.acc@ + data@;
        assert(all =~= data@);
        let answers = choose|answers: Seq<Answers>|
            (forall|i: int| 0 <= i < answers.len() ==> clock_reads((#[trigger] answers[i]).now))
                && honest_run(s, all, answers) && answers.len() <= requests(all).len() && (r@
                == NextView::Read ==> answers.len() == requests(all).len()) && (
                session(final(server)@, final(conn).authed, final(out)@),
                final(conn).acc@,
                r@,
            ) == #[trigger] served(s, all, answers);
        lemma_two_requests(s, key, value, ttl, data@, answers);
        assert(answers.len() == 2);
        let (a, b) = (answers[0], answers[1]);
        assert(answers =~= seq![a, b]);
        assert(clock_reads(a.now) && clock_reads(b.now));
        if a.now <= b.now && a.now + ttl <= u64::MAX {
            law_stored_for_ttl_seconds(s, key, value, ttl, a, b);
        }
    }
}

/// Two requests, both of which are served.
proof fn lemma_two_requests(
    s: Session,
    key: Seq<u8>,
    value: Seq<u8>,
    ttl: u32,
    b: Seq<u8>,
    answers: Seq<Answers>,
)
    requires
        b == frame_bytes(0x01, key, value, ttl) + frame_bytes(0x02, key, seq![], 0),
        key.len() <= 0xFFFF,
        key.len() + value.len() <= 67108864,
        s.authed,
    ensures
        requests(b).len() == 2,
        served(s, b, answers).2 == NextView::Read,
{
    let none = Seq::<u8>::empty();
    let get = frame_bytes(0x02, key, seq![], 0);
    law_request_of_frame(0x01, key, value, ttl, get);
    law_request_of_frame(0x02, key, seq![], 0, none);
    assert(get + none =~= get);
    assert(requests(none) =~= seq![]);
    assert(head_of(none) is Partial);
    let t = stepped(s, Request { action: 0x01, key, value, ttl }, answers[0]);
    let u = stepped(
        t,
        Request { action: 0x02, key, value: seq![], ttl: 0 },
        answers.skip(1)[0],
    );
    assert(served(s, b, answers) == served(t, get, answers.skip(1)));
    assert(served(t, get, answers.skip(1)) == served(u, none, answers.skip(1).skip(1)));
}

} // verus!
