//! The server's state and the command dispatcher.
use vstd::prelude::*;

use crate::aof::{
    counted, rewrite_refusal, writer_answers, Aof, AofMsgView, AofView, RewriteStatus,
};
use crate::bytemap::ByteMap;
use crate::cache_laws::{law_sound, lemma_looked_up, lemma_opened, sound};
use crate::clock::{clock_reads, now_secs};
use crate::commands::{execute, room_for, would_run, Outcome};
use crate::dump::dump_of;
use crate::effects::{effect, expiry, get_effect, set_effect};
use crate::lru::LruCache;
use crate::model::CacheView;
use crate::protocol::{
    bulk_reply, encode_frame, frame_bytes, is_mutating, mutating, ACT_DEL, ACT_GET, ACT_PUBLISH,
    ACT_SET, RSP_AOF_ERROR, RSP_MISSING, RSP_OK,
};
use crate::pubsub::{
    publish, published, subs_view, subscribers_say, Delivery, SubMap, SubsView,
};
use crate::store_laws::{law_reads_change_nothing, law_set_then_get, lemma_gone};
use crate::value::ValueView;

verus! {

/// Everything that connections share.
pub struct Server {
    pub cache: LruCache,
    pub subs: SubMap,
    /// Successful GETs.
    pub hits: u64,
    /// GETs of absent or expired keys.
    pub misses: u64,
    /// Shared secret token; `None` = auth disabled.
    pub auth: Option<Vec<u8>>,
    /// Append-only persistence; `None` = in-memory only.
    pub aof: Option<Aof>,
}

/// The state of a server.
#[verifier::ext_equal]
pub struct ServerView {
    pub cache: CacheView,
    pub subs: SubsView,
    pub hits: u64,
    pub misses: u64,
    pub auth: Option<Seq<u8>>,
    pub aof: Option<AofView>,
}

impl View for Server {
    type V = ServerView;

    open spec fn view(&self) -> ServerView {
        ServerView {
            cache: self.cache@,
            subs: subs_view(self.subs@),
            hits: self.hits,
            misses: self.misses,
            auth: match self.auth {
                Some(token) => Some(token@),
                None => None,
            },
            aof: match self.aof {
                Some(aof) => Some(aof@),
                None => None,
            },
        }
    }
}

/// What the world outside answers while a command runs.
pub struct Answers {
    /// The reading of the clock.
    pub now: u64,
    /// Which subscribers take a published payload.
    pub subscribers: Seq<bool>,
    /// Which frames the log's writer takes.
    pub writer: Seq<bool>,
}

/// The frame that logs a command: a SET carries its absolute expiry in place of the TTL.
pub open spec fn own_frame(now: u64, action: u8, key: Seq<u8>, value: Seq<u8>, ttl: u32) -> Seq<
    u8,
> {
    frame_bytes(action, key, value, logged_ttl(now, action, ttl))
}

/// The frames to log for a command that ran: the command itself if it changes stored
/// state, then a DEL for each key that it evicted.
pub open spec fn log_frames(
    now: u64,
    action: u8,
    key: Seq<u8>,
    value: Seq<u8>,
    ttl: u32,
    evicted: Seq<Seq<u8>>,
) -> Seq<Seq<u8>> {
    let own = if mutating(action) {
        seq![own_frame(now, action, key, value, ttl)]
    } else {
        seq![]
    };
    own + eviction_frames(evicted)
}

/// A DEL for each evicted key.
pub open spec fn eviction_frames(evicted: Seq<Seq<u8>>) -> Seq<Seq<u8>> {
    evicted.map_values(|k: Seq<u8>| frame_bytes(ACT_DEL, k, seq![], 0))
}

/// The TTL field of a logged command: the low 32 bits of the absolute expiry of a
/// SET that has one, else zero.
pub open spec fn logged_ttl(now: u64, action: u8, ttl: u32) -> u32 {
    match expiry(now, ttl) {
        Some(e) if action == ACT_SET => (e % 4294967296) as u32,
        _ => 0,
    }
}

/// Whether answers about frames are those of the log's writer: as long as the log is healthy,
/// each frame is offered to the writer in turn, behind all that it took before.
pub open spec fn writer_says(aof: AofView, frames: Seq<Seq<u8>>, taken: Seq<bool>) -> bool {
    forall|i: int|
        0 <= i < frames.len() ==> frame_answered(aof, frames, #[trigger] taken[i], taken, i)
}

/// Whether the answer about one frame is that of the log's writer.
pub open spec fn frame_answered(
    aof: AofView,
    frames: Seq<Seq<u8>>,
    r: bool,
    taken: Seq<bool>,
    i: int,
) -> bool {
    let held = aof.all_logged(frames.take(i), taken);
    held.healthy ==> writer_answers(held.sent, AofMsgView::Frame(frames[i]), r)
}

/// Whether what the world outside is said to answer to a command is what the subscribers and
/// the log's writer answer when they are asked.
pub open spec fn honest(
    s: ServerView,
    action: u8,
    key: Seq<u8>,
    value: Seq<u8>,
    ttl: u32,
    a: Answers,
) -> bool {
    let e = effect(s.cache, a.now, action, key, value, ttl);
    if action == ACT_PUBLISH {
        subscribers_say(s.subs, key, value, a.subscribers)
    } else {
        s.aof is Some && e.done ==> writer_says(
            s.aof->0,
            log_frames(a.now, action, key, value, ttl, e.cache.evicted),
            a.writer,
        )
    }
}

/// Whether the log turns away a command that would run: it changes stored data, and the
/// log is dead or does not take the command's frame.
pub open spec fn turned_away(aof: Option<AofView>, action: u8, a: Answers) -> bool {
    mutating(action) && (aof matches Some(log) && !(log.healthy && a.writer[0]))
}

/// The server after a command, and the reply. If there is a log, a command that changes
/// stored data and would run is logged first: one that the log turns away leaves the store
/// as it is and is answered by an error. Otherwise the command takes effect, and its
/// evictions are logged. A log that fails there turns the reply into an error. PUBLISH
/// touches only the subscribers.
pub open spec fn applied(
    s: ServerView,
    action: u8,
    key: Seq<u8>,
    value: Seq<u8>,
    ttl: u32,
    a: Answers,
) -> (ServerView, Seq<u8>) {
    if action == ACT_PUBLISH {
        (
            ServerView { subs: published(s.subs, key, value, a.subscribers), ..s },
            seq![RSP_OK],
        )
    } else {
        let e = effect(s.cache, a.now, action, key, value, ttl);
        let t = ServerView {
            cache: e.cache,
            hits: if e.hit {
                counted(s.hits)
            } else {
                s.hits
            },
            misses: if e.miss {
                counted(s.misses)
            } else {
                s.misses
            },
            ..s
        };
        if !e.done {
            (t, e.reply)
        } else if turned_away(s.aof, action, a) {
            let frame = own_frame(a.now, action, key, value, ttl);
            (
                ServerView { aof: Some(s.aof->0.logged(frame, false)), ..s },
                seq![RSP_AOF_ERROR],
            )
        } else {
            let frames = log_frames(a.now, action, key, value, ttl, e.cache.evicted);
            let u = ServerView {
                cache: CacheView { evicted: seq![], ..t.cache },
                aof: match t.aof {
                    Some(aof) => Some(aof.all_logged(frames, a.writer)),
                    None => None,
                },
                ..t
            };
            (
                u,
                if u.aof matches Some(aof) && frames.len() > 0 && !aof.healthy {
                    seq![RSP_AOF_ERROR]
                } else {
                    e.reply
                },
            )
        }
    }
}

impl Server {
    /// The store and the registry are in order.
    pub open spec fn wf(&self) -> bool {
        &&& self.cache.wf()
        &&& sound(self.cache@)
        &&& self.subs.wf()
    }

    /// An empty server without a log.
    pub fn new(cap: usize, auth: Option<Vec<u8>>) -> (r: Self)
        ensures
            r.wf(),
            r@.cache == (CacheView { entries: seq![], cap: cap as nat, evicted: seq![] }),
            r@.subs == SubsView::empty(),
            r.hits == 0,
            r.misses == 0,
            r.auth == auth,
            r.aof is None,
    {
        let r: Server = Server {
            cache: LruCache::new(cap),
            subs: ByteMap::new(),
            hits: 0,
            misses: 0,
            auth,
            aof: None,
        };
        assert(r@.subs =~= SubsView::empty());
        r
    }

    /// True when no token is configured (auth disabled) or `tok` matches it.
    /// Uses a constant-time compare so a wrong token leaks no content timing signal.
    pub fn token_ok(&self, tok: &[u8]) -> (r: bool)
        ensures
            r == token_accepted(self@.auth, tok@),
    {
        match &self.auth {
            None => true,
            Some(secret) => ct_eq(tok, secret.as_slice()),
        }
    }
}

/// Whether `tok` opens a server with the secret `auth`.
pub open spec fn token_accepted(auth: Option<Seq<u8>>, tok: Seq<u8>) -> bool {
    match auth {
        None => true,
        Some(secret) => tok == secret,
    }
}

/// Constant-time byte-slice equality: always scans the whole length, no early
/// exit on first mismatch. Length mismatch fails fast (length isn't secret).
pub fn ct_eq(a: &[u8], b: &[u8]) -> (r: bool)
    ensures
        r == (a@ == b@),
{
    if a.len() != b.len() {
        return false;
    }
    let mut diff: u8 = 0;
    let mut i: usize = 0;
    while i < a.len()
        invariant
            a@.len() == b@.len(),
            i <= a@.len(),
            (diff == 0) == (forall|j: int| 0 <= j < i ==> a@[j] == b@[j]),
        decreases a@.len() - i,
    {
        let x: u8 = a[i];
        let y: u8 = b[i];
        proof {
            assert((diff | (x ^ y)) == 0 <==> diff == 0 && x == y) by (bit_vector);
        }
        diff = diff | (x ^ y);
        i += 1;
    }
    assert(diff == 0 ==> a@ =~= b@);
    diff == 0
}

/// Logs a command that changes stored data. Returns false if the log did not take it.
fn log_command(aof: &mut Aof, now: u64, action: u8, key: &[u8], value: &[u8], ttl: u32) -> (r: bool)
    ensures
        final(aof)@ == old(aof)@.logged(own_frame(now, action, key@, value@, ttl), r),
        !old(aof)@.healthy ==> !r,
        old(aof)@.healthy ==> writer_answers(
            old(aof)@.sent,
            AofMsgView::Frame(own_frame(now, action, key@, value@, ttl)),
            r,
        ),
{
    let ttl_field: u32 = if action == ACT_SET && ttl > 0 {
        (now.wrapping_add(ttl as u64) % 4294967296) as u32
    } else {
        0
    };
    aof.log(encode_frame(action, key, value, ttl_field))
}

/// Logs a delete for each evicted key. Returns false if a frame could not be logged.
#[verifier::rlimit(40)]
fn log_evictions(aof: &mut Aof, evicted: &Vec<Vec<u8>>) -> (r: bool)
    ensures
        ({
            let frames = eviction_frames(evicted@.map_values(|k: Vec<u8>| k@));
            &&& exists|taken: Seq<bool>|
                taken.len() == frames.len() && final(aof)@ == #[trigger] old(aof)@.all_logged(
                    frames,
                    taken,
                ) && writer_says(old(aof)@, frames, taken)
            &&& r == (frames.len() == 0 || final(aof)@.healthy)
        }),
{
    let ghost keys = evicted@.map_values(|k: Vec<u8>| k@);
    let ghost frames = eviction_frames(keys);
    let ghost start = aof@;
    let ghost mut taken: Seq<bool> = seq![];
    let mut ok: bool = true;
    let mut i: usize = 0;
    assert(frames.take(0) =~= seq![]);
    while i < evicted.len()
        invariant
            i <= evicted@.len(),
            keys == evicted@.map_values(|k: Vec<u8>| k@),
            frames == eviction_frames(keys),
            taken.len() == i,
            aof@ == start.all_logged(frames.take(i as int), taken),
            writer_says(start, frames.take(i as int), taken),
            ok == (i == 0 || aof@.healthy),
        decreases evicted@.len() - i,
    {
        let empty: Vec<u8> = Vec::new();
        let frame: Vec<u8> = encode_frame(ACT_DEL, evicted[i].as_slice(), empty.as_slice(), 0);
        ok = aof.log(frame);
        proof {
            let n = i as int;
            let next = taken.push(ok);
            let more = frames.take(n + 1);
            assert(more.drop_last() =~= frames.take(n));
            assert(empty@ =~= seq![]);
            assert(more.last() == frame_bytes(ACT_DEL, keys[n], seq![], 0));
            lemma_all_logged(start, frames.take(n), taken, next);
            assert(more.take(n) =~= frames.take(n));
            assert(frame_answered(start, more, next[n], next, n));
            assert(next.take(n) =~= taken);
            lemma_says_next(start, frames.take(n), more, taken, next);
            taken = next;
        }
        i += 1;
    }
    assert(frames.take(i as int) =~= frames);
    ok
}

/// Logging in two parts.
proof fn lemma_logged_concat(
    aof: AofView,
    a: Seq<Seq<u8>>,
    b: Seq<Seq<u8>>,
    s: Seq<bool>,
    t: Seq<bool>,
)
    requires
        s.len() == a.len(),
        t.len() == b.len(),
    ensures
        aof.all_logged(a, s).all_logged(b, t) == aof.all_logged(a + b, s + t),
    decreases b.len(),
{
    if b.len() == 0 {
        assert(a + b =~= a);
        assert(s + t =~= s);
    } else {
        let c = b.drop_last();
        let n = c.len() as int;
        lemma_logged_concat(aof, a, c, s, t.take(n));
        lemma_all_logged(aof.all_logged(a, s), c, t, t.take(n));
        lemma_all_logged(aof, a + c, s + t, s + t.take(n));
        assert((a + b).drop_last() =~= a + c);
        assert((s + t)[(a + b).len() - 1] == t[n]);
    }
}

/// One frame more.
proof fn lemma_says_next(
    aof: AofView,
    frames: Seq<Seq<u8>>,
    more: Seq<Seq<u8>>,
    taken: Seq<bool>,
    next: Seq<bool>,
)
    requires
        more.len() == frames.len() + 1,
        more.take(frames.len() as int) == frames,
        taken.len() == frames.len(),
        next.len() == more.len(),
        next.take(frames.len() as int) == taken,
        writer_says(aof, frames, taken),
        frame_answered(aof, more, next[frames.len() as int], next, frames.len() as int),
    ensures
        writer_says(aof, more, next),
{
    assert forall|i: int| 0 <= i < more.len() implies frame_answered(
        aof,
        more,
        #[trigger] next[i],
        next,
        i,
    ) by {
        if i < frames.len() {
            assert(next[i] == next.take(frames.len() as int)[i]);
            assert(frame_answered(aof, frames, taken[i], taken, i));
            assert(more.take(i) =~= frames.take(i));
            assert(frames[i] == more.take(frames.len() as int)[i]);
            assert forall|j: int| 0 <= j < frames.take(i).len() implies taken[j] == next[j] by {
                assert(next.take(frames.len() as int)[j] == next[j]);
            }
            lemma_all_logged(aof, frames.take(i), taken, next);
        }
    }
}

/// Answers in two parts.
proof fn lemma_says_concat(
    aof: AofView,
    a: Seq<Seq<u8>>,
    b: Seq<Seq<u8>>,
    s: Seq<bool>,
    t: Seq<bool>,
)
    requires
        s.len() == a.len(),
        t.len() == b.len(),
        writer_says(aof, a, s),
        writer_says(aof.all_logged(a, s), b, t),
    ensures
        writer_says(aof, a + b, s + t),
{
    let n = a.len() as int;
    assert forall|i: int| 0 <= i < (a + b).len() implies frame_answered(
        aof,
        a + b,
        #[trigger] (s + t)[i],
        s + t,
        i,
    ) by {
        if i < n {
            assert(frame_answered(aof, a, s[i], s, i));
            assert((a + b).take(i) =~= a.take(i));
            lemma_all_logged(aof, a.take(i), s, s + t);
        } else {
            let j = i - n;
            assert(frame_answered(aof.all_logged(a, s), b, t[j], t, j));
            assert((a + b).take(i) =~= a + b.take(j));
            lemma_logged_concat(aof, a, b.take(j), s, t.take(j));
            lemma_all_logged(aof.all_logged(a, s), b.take(j), t, t.take(j));
            lemma_all_logged(aof, a + b.take(j), s + t, s + t.take(j));
        }
    }
}

/// Nothing is offered once the log is dead or has turned the first frame away.
proof fn lemma_dead(aof: AofView, frames: Seq<Seq<u8>>, taken: Seq<bool>)
    requires
        frames.len() > 0,
        !aof.healthy || !taken[0],
    ensures
        !aof.all_logged(frames, taken).healthy,
    decreases frames.len(),
{
    let earlier = frames.drop_last();
    if earlier.len() > 0 {
        lemma_dead(aof, earlier, taken);
    } else {
        assert(aof.all_logged(earlier, taken) == aof);
    }
}

/// The answer to the first frame is all that counts if it was turned away.
proof fn lemma_says_first(aof: AofView, frames: Seq<Seq<u8>>, r: bool)
    requires
        frames.len() > 0,
        !r,
        aof.healthy ==> writer_answers(aof.sent, AofMsgView::Frame(frames[0]), r),
    ensures
        writer_says(aof, frames, seq![r]),
{
    let taken = seq![r];
    assert forall|i: int| 0 <= i < frames.len() implies frame_answered(
        aof,
        frames,
        #[trigger] taken[i],
        taken,
        i,
    ) by {
        if i == 0 {
            assert(frames.take(0) =~= seq![]);
            assert(aof.all_logged(frames.take(0), taken) == aof);
        } else {
            lemma_dead(aof, frames.take(i), taken);
        }
    }
}

/// Only the answers to the frames at hand count.
proof fn lemma_all_logged(aof: AofView, frames: Seq<Seq<u8>>, a: Seq<bool>, b: Seq<bool>)
    requires
        forall|i: int| 0 <= i < frames.len() ==> a[i] == b[i],
    ensures
        aof.all_logged(frames, a) == aof.all_logged(frames, b),
    decreases frames.len(),
{
    if frames.len() > 0 {
        lemma_all_logged(aof, frames.drop_last(), a, b);
    }
}

/// The server and the reply buffer after a command, whose reply is appended.
pub open spec fn answered(
    s: (ServerView, Seq<u8>),
    action: u8,
    key: Seq<u8>,
    value: Seq<u8>,
    ttl: u32,
    a: Answers,
) -> (ServerView, Seq<u8>) {
    let t = applied(s.0, action, key, value, ttl, a);
    (t.0, s.1 + t.1)
}

/// Dispatch one decoded command at the time `now`, appending its reply bytes to
/// `out`.
#[verifier::rlimit(40)]
pub fn apply_at(
    server: &mut Server,
    now: u64,
    action: u8,
    key: &[u8],
    value: &[u8],
    ttl: u32,
    out: &mut Vec<u8>,
)
    requires
        old(server).wf(),
        room_for(old(server)@.cache, key@, value@),
    ensures
        final(server).wf(),
        exists|a: Answers|
            a.now == now && honest(old(server)@, action, key@, value@, ttl, a) && (
                final(server)@,
                final(out)@,
            ) == #[trigger] answered((old(server)@, old(out)@), action, key@, value@, ttl, a),
{
    let ghost s = server@;
    if action == ACT_PUBLISH {
        let delivery: Delivery = publish(&mut server.subs, key, value);
        out.push(RSP_OK);
        proof {
            let a = Answers { now, subscribers: delivery.taken@, writer: seq![] };
            assert(out@ =~= old(out)@ + seq![RSP_OK]);
            assert(answered((s, old(out)@), action, key@, value@, ttl, a).0 =~= server@);
        }
        return;
    }
    let start: usize = out.len();
    let ghost e = effect(s.cache, now, action, key@, value@, ttl);
    let ghost mut own: Seq<bool> = seq![];
    let logs: bool = server.aof.is_some() && is_mutating(action);
    // Logged before it takes effect, so that memory never runs ahead of the log.
    if logs && would_run(&server.cache, now, action, key, value) {
        if let Some(aof) = &mut server.aof {
            let logged: bool = log_command(aof, now, action, key, value, ttl);
            proof {
                own = seq![logged];
            }
            if !logged {
                out.push(RSP_AOF_ERROR);
                proof {
                    let a = Answers { now, subscribers: seq![], writer: own };
                    assert(turned_away(s.aof, action, a));
                    assert(out@ =~= old(out)@ + seq![RSP_AOF_ERROR]);
                    let frames = log_frames(now, action, key@, value@, ttl, e.cache.evicted);
                    lemma_says_first(s.aof->0, frames, logged);
                    assert(honest(s, action, key@, value@, ttl, a));
                    assert(answered((s, old(out)@), action, key@, value@, ttl, a).0 =~= server@);
                }
                return;
            }
        }
    }
    proof {
        law_sound(s.cache, now, action, key@, value@, ttl);
        lemma_own_logged(s.aof->0, now, action, key@, value@, ttl);
    }
    let r: Outcome = execute(&mut server.cache, now, action, key, value, ttl, out);
    if r.hit {
        server.hits = server.hits.wrapping_add(1);
    }
    if r.miss {
        server.misses = server.misses.wrapping_add(1);
    }
    if !r.done {
        proof {
            let a = Answers { now, subscribers: seq![], writer: seq![] };
            assert(answered((s, old(out)@), action, key@, value@, ttl, a).0 =~= server@);
        }
        return;
    }
    let evicted: Vec<Vec<u8>> = server.cache.drain_evicted();
    let ghost frames = log_frames(now, action, key@, value@, ttl, e.cache.evicted);
    let ghost mut taken: Seq<bool> = seq![];
    let mut ok: bool = true;
    if let Some(aof) = &mut server.aof {
        let ghost held = aof@;
        ok = log_evictions(aof, &evicted);
        proof {
            let dels = eviction_frames(e.cache.evicted);
            let first = if mutating(action) {
                seq![own_frame(now, action, key@, value@, ttl)]
            } else {
                seq![]
            };
            let later = choose|later: Seq<bool>|
                later.len() == dels.len() && aof@ == #[trigger] held.all_logged(dels, later)
                    && writer_says(held, dels, later);
            assert(held == s.aof->0.all_logged(first, own));
            lemma_logged_concat(s.aof->0, first, dels, own, later);
            assert(writer_says(s.aof->0, first, own)) by {
                if mutating(action) {
                    assert(first.take(0) =~= seq![]);
                    assert(frame_answered(s.aof->0, first, own[0], own, 0));
                }
            }
            lemma_says_concat(s.aof->0, first, dels, own, later);
            taken = own + later;
            assert(frames == first + dels);
        }
    }
    if !ok {
        out.truncate(start);
        out.push(RSP_AOF_ERROR);
        assert(out@ =~= old(out)@ + seq![RSP_AOF_ERROR]);
    }
    proof {
        let a = Answers { now, subscribers: seq![], writer: taken };
        assert(sound(server.cache@));
        assert(!turned_away(s.aof, action, a));
        assert(honest(s, action, key@, value@, ttl, a));
        assert(answered((s, old(out)@), action, key@, value@, ttl, a).0 =~= server@);
    }
}

/// Logging the command alone.
proof fn lemma_own_logged(
    aof: AofView,
    now: u64,
    action: u8,
    key: Seq<u8>,
    value: Seq<u8>,
    ttl: u32,
)
    ensures
        aof.all_logged(seq![own_frame(now, action, key, value, ttl)], seq![true]) == aof.logged(
            own_frame(now, action, key, value, ttl),
            true,
        ),
        aof.all_logged(seq![], seq![]) == aof,
{
    let one = seq![own_frame(now, action, key, value, ttl)];
    assert(one.drop_last() =~= seq![]);
    assert(aof.all_logged(one.drop_last(), seq![true]) == aof);
}

/// Dispatch one decoded command, appending its reply bytes to `out`.
/// Appends to a shared reply buffer so a whole pipelined batch is answered with
/// a single socket write. SUBSCRIBE is handled by the caller (it hijacks the
/// connection). WRONGTYPE / malformed args reply `0xFF`.
///
/// When AOF is enabled, every mutating command that runs to completion here is
/// appended to the log (plus a `DEL` for any key LRU-evicted as a side effect),
/// so the exact history can be replayed on restart. A write that the log does not take
/// is rejected.
pub fn apply_into(
    server: &mut Server,
    action: u8,
    key: &[u8],
    value: &[u8],
    ttl: u32,
    out: &mut Vec<u8>,
)
    requires
        old(server).wf(),
        room_for(old(server)@.cache, key@, value@),
    ensures
        final(server).wf(),
        exists|a: Answers|
            clock_reads(a.now) && honest(old(server)@, action, key@, value@, ttl, a) && (
                final(server)@,
                final(out)@,
            ) == #[trigger] answered((old(server)@, old(out)@), action, key@, value@, ttl, a),
{
    let now: u64 = now_secs();
    apply_at(server, now, action, key, value, ttl, out);
}

/// The server after the writer is handed a snapshot.
pub open spec fn compacting(
    s: ServerView,
    frames: Seq<Seq<u8>>,
    at: u64,
    taken: bool,
) -> ServerView {
    ServerView { aof: Some(s.aof->0.compacting(frames, at, taken)), ..s }
}

/// Snapshot the live dataset at the time `now` and hand it to the writer thread for
/// compaction. `at` is the reading, in milliseconds, of a clock that never goes back.
pub fn trigger_rewrite_at(server: &mut Server, now: u64, at: u64, manual: bool) -> (r:
    RewriteStatus)
    requires
        old(server).wf(),
    ensures
        final(server).wf(),
        match rewrite_refusal(old(server)@.aof, at, manual) {
            Some(refusal) => r == refusal && final(server)@ == old(server)@,
            None => (r == RewriteStatus::Started || r == RewriteStatus::Disabled) && final(server)@
                == compacting(
                old(server)@,
                dump_of(old(server)@.cache.entries, now),
                at,
                r == RewriteStatus::Started,
            ) && writer_answers(
                (old(server)@.aof->0).sent,
                AofMsgView::Rewrite(dump_of(old(server)@.cache.entries, now)),
                r == RewriteStatus::Started,
            ),
        },
{
    let ghost s = server@;
    let refusal: Option<RewriteStatus> = match &server.aof {
        None => Some(RewriteStatus::Disabled),
        Some(aof) => aof.refusal(at, manual),
    };
    if let Some(status) = refusal {
        return status;
    }
    let frames: Vec<Vec<u8>> = server.cache.dump_frames(now);
    let mut started: bool = false;
    if let Some(aof) = &mut server.aof {
        started = aof.compact(frames, at);
    }
    assert(server@ =~= compacting(s, dump_of(s.cache.entries, now), at, started));
    if started {
        RewriteStatus::Started
    } else {
        RewriteStatus::Disabled
    }
}

/// Snapshot the live dataset and hand it to the writer thread for compaction.
/// The snapshot sits at a well-defined point in the log stream (every command logged
/// before this call is already reflected). A `manual` request is rate limited.
pub fn trigger_aof_rewrite(server: &mut Server, at: u64, manual: bool) -> (r: RewriteStatus)
    requires
        old(server).wf(),
    ensures
        final(server).wf(),
        match rewrite_refusal(old(server)@.aof, at, manual) {
            Some(refusal) => r == refusal && final(server)@ == old(server)@,
            None => (r == RewriteStatus::Started || r == RewriteStatus::Disabled) && exists|
                now: u64,
            |
                clock_reads(now) && final(server)@ == compacting(
                    old(server)@,
                    #[trigger] dump_of(old(server)@.cache.entries, now),
                    at,
                    r == RewriteStatus::Started,
                ) && writer_answers(
                    (old(server)@.aof->0).sent,
                    AofMsgView::Rewrite(dump_of(old(server)@.cache.entries, now)),
                    r == RewriteStatus::Started,
                ),
        },
{
    let now: u64 = now_secs();
    trigger_rewrite_at(server, now, at, manual)
}

/// Every eviction is reported with the command that caused it: no delete marker is left
/// over after a command.
pub proof fn law_evictions_are_reported(
    s: ServerView,
    action: u8,
    key: Seq<u8>,
    value: Seq<u8>,
    ttl: u32,
    a: Answers,
)
    requires
        sound(s.cache),
        s.cache.evicted.len() == 0,
    ensures
        applied(s, action, key, value, ttl, a).0.cache.evicted.len() == 0,
{
    lemma_looked_up(s.cache, key, a.now);
    lemma_opened(s.cache, a.now, key, ValueView::List(seq![]));
}

/// PUBLISH touches the subscribers alone, and no other command touches them; the secret
/// never changes.
pub proof fn law_store_and_subscribers_are_apart(
    s: ServerView,
    action: u8,
    key: Seq<u8>,
    value: Seq<u8>,
    ttl: u32,
    a: Answers,
)
    ensures
        ({
            let t = applied(s, action, key, value, ttl, a).0;
            &&& t.auth == s.auth
            &&& action == ACT_PUBLISH ==> t == (ServerView { subs: t.subs, ..s })
            &&& action != ACT_PUBLISH ==> t.subs == s.subs
        }),
{
}

/// Commands that change no stored data are never logged.
pub proof fn law_reads_are_not_logged(
    s: ServerView,
    action: u8,
    key: Seq<u8>,
    value: Seq<u8>,
    ttl: u32,
    a: Answers,
)
    requires
        sound(s.cache),
        s.cache.evicted.len() == 0,
        !mutating(action),
    ensures
        applied(s, action, key, value, ttl, a).0.aof == s.aof,
{
    if action != ACT_PUBLISH {
        law_reads_change_nothing(s.cache, a.now, action, key, value, ttl, key, a.now);
        let e = effect(s.cache, a.now, action, key, value, ttl);
        assert(log_frames(a.now, action, key, value, ttl, e.cache.evicted) =~= seq![]);
    }
}

/// Memory never runs ahead of the log: a write that the log does not take is rejected. It is
/// answered by the error byte for that, and nothing but the log's own account of the
/// failure changes; in particular every key keeps what it holds.
pub proof fn law_untaken_write_is_rejected(
    s: ServerView,
    action: u8,
    key: Seq<u8>,
    value: Seq<u8>,
    ttl: u32,
    a: Answers,
)
    requires
        turned_away(s.aof, action, a),
        effect(s.cache, a.now, action, key, value, ttl).done,
    ensures
        ({
            let (t, reply) = applied(s, action, key, value, ttl, a);
            &&& reply == seq![RSP_AOF_ERROR]
            &&& t == (ServerView { aof: t.aof, ..s })
            &&& t.aof == Some(
                AofView {
                    healthy: false,
                    write_errors: counted(s.aof->0.write_errors),
                    ..s.aof->0
                },
            )
        }),
{
}

/// Once the log is dead, a command that would have to be logged is rejected: it is answered
/// by the error byte for that, nothing is sent to the writer, and the store stays as it is.
pub proof fn law_dead_log_is_told(
    s: ServerView,
    action: u8,
    key: Seq<u8>,
    value: Seq<u8>,
    ttl: u32,
    a: Answers,
)
    requires
        s.aof matches Some(aof) && !aof.healthy,
        mutating(action),
        effect(s.cache, a.now, action, key, value, ttl).done,
    ensures
        ({
            let (t, reply) = applied(s, action, key, value, ttl, a);
            &&& reply == seq![RSP_AOF_ERROR]
            &&& t.aof matches Some(aof) && aof.sent == s.aof->0.sent && !aof.healthy
            &&& t.cache == s.cache
        }),
{
    law_untaken_write_is_rejected(s, action, key, value, ttl, a);
}

/// Every write that takes effect on a server with a log is in the log: its frame was taken,
/// ahead of the deletes of what it evicted.
pub proof fn law_write_is_logged(
    s: ServerView,
    action: u8,
    key: Seq<u8>,
    value: Seq<u8>,
    ttl: u32,
    a: Answers,
)
    requires
        s.aof is Some,
        mutating(action),
        applied(s, action, key, value, ttl, a).0.cache.entries != s.cache.entries,
        effect(s.cache, a.now, action, key, value, ttl).done,
    ensures
        ({
            let sent = applied(s, action, key, value, ttl, a).0.aof->0.sent;
            let frame = own_frame(a.now, action, key, value, ttl);
            &&& sent.len() > s.aof->0.sent.len()
            &&& sent.take(s.aof->0.sent.len() as int) == s.aof->0.sent
            &&& sent[s.aof->0.sent.len() as int] == AofMsgView::Frame(frame)
        }),
{
    let e = effect(s.cache, a.now, action, key, value, ttl);
    let frames = log_frames(a.now, action, key, value, ttl, e.cache.evicted);
    lemma_first_logged(s.aof->0, frames, a.writer);
}

/// A frame that was taken stands in the log whatever becomes of the frames after it.
proof fn lemma_first_logged(aof: AofView, frames: Seq<Seq<u8>>, taken: Seq<bool>)
    requires
        aof.healthy,
        frames.len() > 0,
        taken[0],
    ensures
        ({
            let sent = aof.all_logged(frames, taken).sent;
            &&& sent.len() > aof.sent.len()
            &&& sent.take(aof.sent.len() as int) == aof.sent
            &&& sent[aof.sent.len() as int] == AofMsgView::Frame(frames[0])
        }),
    decreases frames.len(),
{
    let earlier = frames.drop_last();
    let n = aof.sent.len() as int;
    if earlier.len() > 0 {
        lemma_first_logged(aof, earlier, taken);
        let sent = aof.all_logged(frames, taken).sent;
        let held = aof.all_logged(earlier, taken).sent;
        assert(sent.take(n) =~= held.take(n));
    } else {
        let none = Seq::<Seq<u8>>::empty();
        assert(earlier =~= none);
        assert(aof.all_logged(none, taken) == aof);
        assert(aof.all_logged(frames, taken).sent.take(n) =~= aof.sent);
    }
}

/// While the writer takes everything, the frames of a command go to it in order: the
/// command first, then the deletes of what it evicted.
pub proof fn law_healthy_log_takes_all(aof: AofView, frames: Seq<Seq<u8>>, taken: Seq<bool>)
    requires
        aof.healthy,
        forall|i: int| 0 <= i < frames.len() ==> #[trigger] taken[i],
    ensures
        aof.all_logged(frames, taken) == (AofView {
            sent: aof.sent + frames.map_values(|f: Seq<u8>| AofMsgView::Frame(f)),
            ..aof
        }),
    decreases frames.len(),
{
    let msgs = frames.map_values(|f: Seq<u8>| AofMsgView::Frame(f));
    if frames.len() == 0 {
        assert(aof.sent + msgs =~= aof.sent);
    } else {
        law_healthy_log_takes_all(aof, frames.drop_last(), taken);
        assert(taken[frames.len() - 1]);
        let earlier = frames.drop_last().map_values(|f: Seq<u8>| AofMsgView::Frame(f));
        assert(aof.sent + msgs =~= (aof.sent + earlier).push(AofMsgView::Frame(frames.last())));
    }
}

/// A command that the log does not stand in the way of does to the store what it does to
/// a bare cache, and is answered so.
pub proof fn law_command_takes_effect(
    s: ServerView,
    action: u8,
    key: Seq<u8>,
    value: Seq<u8>,
    ttl: u32,
    a: Answers,
)
    requires
        action != ACT_PUBLISH,
        s.aof is None || applied(s, action, key, value, ttl, a).0.aof->0.healthy,
    ensures
        ({
            let e = effect(s.cache, a.now, action, key, value, ttl);
            let (t, reply) = applied(s, action, key, value, ttl, a);
            &&& reply == e.reply
            &&& t.cache.entries == e.cache.entries
            &&& t.cache.cap == e.cache.cap
        }),
{
}

/// GET after a SET that was acknowledged returns the value until it expires, whatever the
/// key held before, also if the value alone exceeds the cap, and whatever becomes of the
/// log; from then on it reports the key missing, and the key is stored no longer.
pub proof fn law_served_set_then_get(
    s: ServerView,
    key: Seq<u8>,
    value: Seq<u8>,
    ttl: u32,
    a: Answers,
    b: Answers,
)
    requires
        sound(s.cache),
        a.now + ttl <= u64::MAX,
        a.now <= b.now,
        applied(s, ACT_SET, key, value, ttl, a).1 == seq![RSP_OK],
    ensures
        ({
            let t = applied(s, ACT_SET, key, value, ttl, a).0;
            let (u, reply) = applied(t, ACT_GET, key, seq![], 0, b);
            if ttl == 0 || b.now < a.now + ttl {
                reply == bulk_reply(value)
            } else {
                reply == seq![RSP_MISSING] && u.cache.record(key) is None
            }
        }),
{
    let c = set_effect(s.cache, a.now, key, value, ttl).cache;
    let t = applied(s, ACT_SET, key, value, ttl, a).0;
    assert(seq![RSP_AOF_ERROR][0] != seq![RSP_OK][0]);
    assert(!turned_away(s.aof, ACT_SET, a));
    assert(t.cache == (CacheView { evicted: seq![], ..c }));
    law_set_then_get(s.cache, a.now, key, value, ttl, b.now);
    law_sound(s.cache, a.now, ACT_SET, key, value, ttl);
    lemma_gone(c, key);
    lemma_gone(t.cache, key);
    lemma_looked_up(t.cache, key, b.now);
    let e = effect(t.cache, b.now, ACT_GET, key, seq![], 0);
    assert(e.reply == get_effect(c, b.now, key).reply);
    assert(e.cache.evicted.len() == 0);
    assert(log_frames(b.now, ACT_GET, key, seq![], 0, e.cache.evicted) =~= seq![]);
}

/// PUBLISH (0x06) is acknowledged whoever listens, and hands the payload to the subscribers of
/// the channel that its key names.
pub proof fn law_publish(
    s: ServerView,
    channel: Seq<u8>,
    payload: Seq<u8>,
    ttl: u32,
    a: Answers,
)
    ensures
        ({
            let (t, reply) = applied(s, 0x06, channel, payload, ttl, a);
            &&& reply == seq![0x00u8]
            &&& t.subs == published(s.subs, channel, payload, a.subscribers)
        }),
{
}

/// An acknowledgement is worth something: a command that changes stored data and ran on a server
/// with a log is answered by its own reply if the log took everything, the command and the
/// deletes of what it evicted, and else by the error byte (0x45).
#[verifier::rlimit(40)]
pub proof fn law_acknowledged_is_logged(
    s: ServerView,
    action: u8,
    key: Seq<u8>,
    value: Seq<u8>,
    ttl: u32,
    a: Answers,
)
    requires
        s.aof is Some,
        mutating(action),
        effect(s.cache, a.now, action, key, value, ttl).done,
    ensures
        ({
            let e = effect(s.cache, a.now, action, key, value, ttl);
            let (t, reply) = applied(s, action, key, value, ttl, a);
            let frames = log_frames(a.now, action, key, value, ttl, e.cache.evicted);
            let log = t.aof->0;
            &&& log.healthy ==> reply == e.reply && log.sent == (s.aof->0).sent
                + frames.map_values(|f: Seq<u8>| AofMsgView::Frame(f))
            &&& !log.healthy ==> reply == seq![0x45u8]
        }),
{
    let e = effect(s.cache, a.now, action, key, value, ttl);
    let frames = log_frames(a.now, action, key, value, ttl, e.cache.evicted);
    let log = applied(s, action, key, value, ttl, a).0.aof->0;
    if log.healthy {
        lemma_all_taken(s.aof->0, frames, a.writer);
        law_healthy_log_takes_all(s.aof->0, frames, a.writer);
    }
}

/// A log that is still healthy took everything.
proof fn lemma_all_taken(aof: AofView, frames: Seq<Seq<u8>>, taken: Seq<bool>)
    requires
        aof.all_logged(frames, taken).healthy,
    ensures
        aof.healthy,
        forall|i: int| 0 <= i < frames.len() ==> #[trigger] taken[i],
    decreases frames.len(),
{
    if frames.len() > 0 {
        lemma_all_taken(aof, frames.drop_last(), taken);
    }
}

/// What a SET leaves in the log: the UNIX second at which its value expires, or zero for none.
/// Every other command is logged as it is, without a TTL.
pub proof fn law_logged_expiry(now: u64, action: u8, key: Seq<u8>, value: Seq<u8>, ttl: u32)
    requires
        now + ttl <= u32::MAX,
    ensures
        own_frame(now, action, key, value, ttl) == frame_bytes(
            action,
            key,
            value,
            if action == 0x01 && ttl > 0 {
                (now + ttl) as u32
            } else {
                0
            },
        ),
{
}

} // verus!
