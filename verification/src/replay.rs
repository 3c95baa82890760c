//! Replay of a saved log.
use vstd::prelude::*;

use crate::bytes::{bytes_eq, part};
use crate::cache_laws::{law_growth, lemma_without, sound};
use crate::clock::{clock_reads, now_secs};
use crate::commands::room_for;
use crate::engine::{frame_len, head_of, next_frame, room_for_bytes, Frame, Head, Incoming};
use crate::model::CacheView;
use crate::protocol::{Request, ACT_SET};
use crate::server::{answered, applied, apply_at, Answers, Server, ServerView};

verus! {

/// Magic bytes at the start of every new log file: "Pico1".
pub open spec fn magic() -> Seq<u8> {
    seq![0x50u8, 0x69u8, 0x63u8, 0x6fu8, 0x31u8]
}

/// The magic bytes.
pub fn aof_magic() -> (r: Vec<u8>)
    ensures
        r@ == magic(),
{
    let r: Vec<u8> = vec![0x50u8, 0x69u8, 0x63u8, 0x6fu8, 0x31u8];
    assert(r@ =~= magic());
    r
}

/// The records of a log file: what follows the magic bytes, which may be missing.
pub open spec fn records(data: Seq<u8>) -> Seq<u8> {
    if data.len() >= 5 && data.take(5) == magic() {
        data.skip(5)
    } else {
        data
    }
}

/// The magic bytes at the start of a file are no part of its records, and a file that
/// starts with another byte is all records.
pub proof fn law_records(b: Seq<u8>)
    ensures
        records(magic() + b) == b,
        b.len() > 0 && b[0] != 0x50 ==> records(b) == b,
{
    assert((magic() + b).take(5) =~= magic());
    assert((magic() + b).skip(5) =~= b);
    if b.len() >= 5 && b[0] != 0x50 {
        assert(b.take(5)[0] == b[0]);
    }
}

/// Whether the body of a record exceeds the cache capacity.
pub open spec fn too_large(cap: nat, r: Request) -> bool {
    r.key.len() + r.value.len() > cap
}

/// Whether a record is a SET whose absolute expiry has come.
pub open spec fn lapsed(r: Request, now: u64) -> bool {
    r.action == ACT_SET && r.ttl != 0 && r.ttl <= now
}

/// Whether replay does not apply a record.
pub open spec fn passed_over(cap: nat, r: Request, now: u64) -> bool {
    too_large(cap, r) || lapsed(r, now)
}

/// The TTL with which a record is applied: a SET's absolute expiry made relative again;
/// other actions ignore the field.
pub open spec fn relative_ttl(r: Request, now: u64) -> u32 {
    if r.action == ACT_SET && r.ttl != 0 {
        (r.ttl - now) as u32
    } else {
        0
    }
}

/// The server after one record. A SET that has expired stores nothing, and what it
/// overwrote stays gone. Any other record larger than the cache is left out.
pub open spec fn replayed_one(s: ServerView, r: Request, now: u64, a: Answers) -> ServerView {
    if lapsed(r, now) {
        ServerView { cache: s.cache.without(r.key), ..s }
    } else if too_large(s.cache.cap, r) {
        s
    } else {
        applied(s, r.action, r.key, r.value, relative_ttl(r, now), Answers { now, ..a }).0
    }
}

/// The server after the records in `b` are applied one by one, and how many were.
/// Replay stops at a torn or absurd record.
pub open spec fn replayed(s: ServerView, b: Seq<u8>, now: u64, answers: Seq<Answers>) -> (
    ServerView,
    nat,
)
    decreases b.len(),
{
    match head_of(b) {
        Head::Whole(r) => {
            let t = replayed(
                replayed_one(s, r, now, answers[0]),
                b.skip(frame_len(b) as int),
                now,
                answers.skip(1),
            );
            (
                t.0,
                if passed_over(s.cache.cap, r, now) {
                    t.1
                } else {
                    t.1 + 1
                },
            )
        },
        _ => (s, 0),
    }
}

/// Evictions during replay are not logged: the queued delete markers go.
pub open spec fn unmarked(s: ServerView) -> ServerView {
    ServerView { cache: CacheView { evicted: seq![], ..s.cache }, ..s }
}

/// Room for the bytes of a record is room for applying it and the rest.
proof fn lemma_room(s: ServerView, b: Seq<u8>, now: u64, a: Answers)
    requires
        sound(s.cache),
        room_for_bytes(s, b.len()),
        head_of(b) is Whole,
    ensures
        room_for(s.cache, head_of(b)->Whole_0.key, head_of(b)->Whole_0.value),
        room_for_bytes(
            replayed_one(s, head_of(b)->Whole_0, now, a),
            b.skip(frame_len(b) as int).len(),
        ),
{
    let r = head_of(b)->Whole_0;
    law_growth(s.cache, now, r.action, r.key, r.value, relative_ttl(r, now));
    lemma_without(s.cache, r.key);
}

/// Replaying `b` from `start` comes down to replaying `rest` from `s` once the records
/// before `rest`, answered by `answers`, are done and `count` of them were applied.
#[verifier::opaque]
spec fn resumes(
    start: ServerView,
    b: Seq<u8>,
    now: u64,
    answers: Seq<Answers>,
    s: ServerView,
    rest: Seq<u8>,
    count: nat,
) -> bool {
    forall|more: Seq<Answers>| #[trigger]
        replayed(start, b, now, answers + more) == (
            replayed(s, rest, now, more).0,
            count + replayed(s, rest, now, more).1,
        )
}

proof fn lemma_resumes_start(start: ServerView, b: Seq<u8>, now: u64)
    ensures
        resumes(start, b, now, seq![], start, b, 0),
{
    reveal(resumes);
    assert forall|more: Seq<Answers>| #[trigger]
        replayed(start, b, now, Seq::<Answers>::empty() + more) == (
            replayed(start, b, now, more).0,
            0 + replayed(start, b, now, more).1,
        ) by {
        assert(Seq::<Answers>::empty() + more =~= more);
    }
}

proof fn lemma_resumes_step(
    start: ServerView,
    b: Seq<u8>,
    now: u64,
    answers: Seq<Answers>,
    s: ServerView,
    rest: Seq<u8>,
    count: nat,
    a: Answers,
)
    requires
        resumes(start, b, now, answers, s, rest, count),
        head_of(rest) is Whole,
    ensures
        ({
            let r = head_of(rest)->Whole_0;
            resumes(
                start,
                b,
                now,
                answers.push(a),
                replayed_one(s, r, now, a),
                rest.skip(frame_len(rest) as int),
                if passed_over(s.cache.cap, r, now) {
                    count
                } else {
                    count + 1
                },
            )
        }),
{
    reveal(resumes);
    let r = head_of(rest)->Whole_0;
    let t = replayed_one(s, r, now, a);
    let after = rest.skip(frame_len(rest) as int);
    let n = if passed_over(s.cache.cap, r, now) {
        count
    } else {
        count + 1
    };
    assert forall|more: Seq<Answers>| #[trigger]
        replayed(start, b, now, answers.push(a) + more) == (
            replayed(t, after, now, more).0,
            n + replayed(t, after, now, more).1,
        ) by {
        let tail = seq![a] + more;
        assert(answers.push(a) + more =~= answers + tail);
        assert(replayed(start, b, now, answers + tail).0 == replayed(s, rest, now, tail).0);
        assert(tail.skip(1) =~= more);
        assert(tail[0] == a);
    }
}

proof fn lemma_resumes_end(
    start: ServerView,
    b: Seq<u8>,
    now: u64,
    answers: Seq<Answers>,
    s: ServerView,
    rest: Seq<u8>,
    count: nat,
)
    requires
        resumes(start, b, now, answers, s, rest, count),
        !(head_of(rest) is Whole),
    ensures
        replayed(start, b, now, answers) == (s, count),
{
    reveal(resumes);
    let none = Seq::<Answers>::empty();
    assert(replayed(start, b, now, answers + none).0 == replayed(s, rest, now, none).0);
    assert(answers + none =~= answers);
}

/// Replays one record. Returns whether it was applied.
fn replay_one(server: &mut Server, f: &Frame, now: u64, scratch: &mut Vec<u8>) -> (r: bool)
    requires
        old(server).wf(),
        room_for(old(server)@.cache, f.key@, f.value@),
    ensures
        final(server).wf(),
        r == !passed_over(old(server)@.cache.cap, f@, now),
        exists|a: Answers|
            final(server)@ == #[trigger] replayed_one(old(server)@, f@, now, a),
{
    let ghost s = server@;
    let cap: usize = server.cache.cap();
    // A SET that expires this very second counts as expired: skipping it avoids a
    // brief resurrection. The value that it overwrote must not come back either.
    if f.action == ACT_SET && f.ttl != 0 && f.ttl as u64 <= now {
        server.cache.del(f.key, now);
        proof {
            lemma_without(s.cache, f.key@);
            assert(server@ =~= replayed_one(s, f@, now, arbitrary()));
        }
        return false;
    }
    // Loading a record larger than the cache would evict everything replayed so far.
    if f.key.len() as u128 + f.value.len() as u128 > cap as u128 {
        assert(s == replayed_one(s, f@, now, arbitrary()));
        return false;
    }
    let ttl: u32 = if f.action == ACT_SET && f.ttl != 0 {
        (f.ttl as u64 - now) as u32
    } else {
        0
    };
    scratch.clear();
    apply_at(server, now, f.action, f.key, f.value, ttl, scratch);
    proof {
        let a = choose|a: Answers|
            a.now == now && (server@, scratch@) == #[trigger] answered(
                (s, seq![]),
                f.action,
                f.key@,
                f.value@,
                ttl,
                a,
            );
        assert(Answers { now, ..a } == a);
        assert(server@ == replayed_one(s, f@, now, a));
    }
    true
}

/// Applies the records of a log file at the time `now`.
pub fn replay_at(server: &mut Server, data: &[u8], now: u64) -> (n: u64)
    requires
        old(server).wf(),
        room_for_bytes(old(server)@, data@.len()),
    ensures
        final(server).wf(),
        exists|answers: Seq<Answers>|
            {
                let t = #[trigger] replayed(old(server)@, records(data@), now, answers);
                final(server)@ == unmarked(t.0) && n == t.1
            },
{
    let magic_bytes: Vec<u8> = aof_magic();
    let mut pos: usize = 0;
    if data.len() >= 5 && bytes_eq(part(data, 0, 5), magic_bytes.as_slice()) {
        pos = 5;
    }
    let ghost b = records(data@);
    let ghost start = server@;
    let ghost mut answers: Seq<Answers> = seq![];
    let mut scratch: Vec<u8> = Vec::new();
    let mut count: u64 = 0;
    proof {
        assert(data@.take(5) =~= data@.subrange(0, 5));
        assert(data@.skip(pos as int) =~= b);
        lemma_resumes_start(start, b, now);
    }
    loop
        invariant
            server.wf(),
            pos <= data@.len(),
            count <= pos,
            room_for_bytes(server@, (data@.len() - pos) as nat),
            start == old(server)@,
            b == records(data@),
            resumes(start, b, now, answers, server@, data@.skip(pos as int), count as nat),
        decreases data@.len() - pos,
    {
        let ghost s = server@;
        let ghost rest = data@.skip(pos as int);
        let len: usize = data.len();
        let left: &[u8] = part(data, pos, len);
        assert(left@ =~= rest);
        match next_frame(left) {
            Incoming::Whole(f) => {
                let ghost n = frame_len(rest) as int;
                let ghost held = count as nat;
                assert(data@.skip(pos + n) =~= rest.skip(n));
                proof {
                    lemma_room(s, rest, now, arbitrary());
                }
                if replay_one(server, &f, now, &mut scratch) {
                    count = count + 1;
                }
                proof {
                    let a = choose|a: Answers| server@ == #[trigger] replayed_one(s, f@, now, a);
                    lemma_room(s, rest, now, a);
                    lemma_resumes_step(start, b, now, answers, s, rest, held, a);
                    answers = answers.push(a);
                }
                pos = pos + f.len;
            },
            _ => {
                proof {
                    lemma_resumes_end(start, b, now, answers, s, rest, count as nat);
                }
                let _ = server.cache.drain_evicted();
                assert(server@ =~= unmarked(s));
                return count;
            },
        }
    }
}

/// Replay a saved log, rebuilding state. Runs once at startup, before the server
/// begins serving — and before the writer is installed, so replayed commands are NOT
/// re-logged. Returns the number of commands applied. One reading of the clock
/// serves the whole replay.
///
/// A `SET`'s TTL field holds an **absolute** expiry: it is converted back to a relative
/// TTL, and keys that already expired are skipped: such a key is absent afterwards, also
/// if the log holds an older value of it. Corruption at the tail (a partially
/// written final frame after a crash) is tolerated — replay stops there.
pub fn replay_aof(server: &mut Server, data: &[u8]) -> (n: u64)
    requires
        old(server).wf(),
        room_for_bytes(old(server)@, data@.len()),
    ensures
        final(server).wf(),
        exists|now: u64, answers: Seq<Answers>|
            {
                let t = #[trigger] replayed(old(server)@, records(data@), now, answers);
                clock_reads(now) && final(server)@ == unmarked(t.0) && n == t.1
            },
{
    let now: u64 = now_secs();
    replay_at(server, data, now)
}

} // verus!
