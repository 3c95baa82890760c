//! The binary engine: what one connection sends and what it is answered.
use vstd::prelude::*;

use crate::bytes::{append, law_fields_are_big_endian, part, to_vec};
use crate::cache_laws::{law_growth, sound};
use crate::clock::{clock_reads, now_secs};
use crate::commands::room_for;
use crate::protocol::{
    decode_header, frame_bytes, header_klen, header_ttl, header_vlen, law_decode_of_encode, Request,
    ACT_AUTH, ACT_SUBSCRIBE, HEADER_LEN, MAX_FRAME_BODY, RSP_AUTH, RSP_ERROR, RSP_OK,
};
use crate::server::{
    answered, applied, apply_at, honest, token_accepted, Answers, Server, ServerView,
};

verus! {

/// What stands at the beginning of the received bytes.
#[verifier::ext_equal]
pub enum Head {
    /// A frame that has not fully arrived yet.
    Partial,
    /// A frame whose body is longer than any frame may be.
    TooLong,
    /// A request.
    Whole(Request),
}

/// The length of the frame whose header stands at the beginning of `b`.
pub open spec fn frame_len(b: Seq<u8>) -> nat {
    HEADER_LEN as nat + header_klen(b) + header_vlen(b)
}

/// What stands at the beginning of `b`.
pub open spec fn head_of(b: Seq<u8>) -> Head {
    if b.len() < HEADER_LEN {
        Head::Partial
    } else if header_klen(b) + header_vlen(b) > MAX_FRAME_BODY {
        Head::TooLong
    } else if b.len() < frame_len(b) {
        Head::Partial
    } else {
        let k = HEADER_LEN + header_klen(b);
        Head::Whole(
            Request {
                action: b[0],
                key: b.subrange(HEADER_LEN as int, k),
                value: b.subrange(k, frame_len(b) as int),
                ttl: header_ttl(b) as u32,
            },
        )
    }
}

/// A connection to a server, and the replies it has earned.
#[verifier::ext_equal]
pub struct Session {
    pub server: ServerView,
    pub authed: bool,
    pub out: Seq<u8>,
}

/// How a connection goes on.
#[verifier::ext_equal]
pub enum NextView {
    /// It waits for more bytes.
    Read,
    /// It is dropped.
    Close,
    /// It turns into a subscription to a channel.
    Subscribe(Seq<u8>),
}

/// The session after a request other than a granted SUBSCRIBE. AUTH sets whether the
/// connection is authenticated; every other command needs that.
pub open spec fn stepped(s: Session, r: Request, a: Answers) -> Session {
    if r.action == ACT_AUTH {
        let ok = token_accepted(s.server.auth, r.key);
        Session {
            authed: ok,
            out: s.out.push(
                if ok {
                    RSP_OK
                } else {
                    RSP_AUTH
                },
            ),
            ..s
        }
    } else if !s.authed {
        Session { out: s.out.push(RSP_AUTH), ..s }
    } else {
        let t = answered((s.server, s.out), r.action, r.key, r.value, r.ttl, a);
        Session { server: t.0, out: t.1, ..s }
    }
}

/// The session after all complete requests in `b` are served, the bytes left over,
/// and how the connection goes on. `answers` holds what the world outside answers
/// to each request in turn.
pub open spec fn served(s: Session, b: Seq<u8>, answers: Seq<Answers>) -> (
    Session,
    Seq<u8>,
    NextView,
)
    decreases b.len(),
{
    match head_of(b) {
        Head::Partial => (s, b, NextView::Read),
        Head::TooLong => (Session { out: s.out.push(RSP_ERROR), ..s }, b, NextView::Close),
        Head::Whole(r) => {
            let rest = b.skip(frame_len(b) as int);
            if r.action == ACT_SUBSCRIBE && s.authed {
                (s, rest, NextView::Subscribe(r.key))
            } else {
                served(stepped(s, r, answers[0]), rest, answers.skip(1))
            }
        },
    }
}

/// Whether what the world outside is said to answer to a request is what it answers when it is
/// asked. Nothing outside has a say in AUTH and in what is turned away.
pub open spec fn honest_step(s: Session, r: Request, a: Answers) -> bool {
    r.action == ACT_AUTH || !s.authed || honest(s.server, r.action, r.key, r.value, r.ttl, a)
}

/// Whether what the world outside is said to answer to the requests in `b` is what it answers
/// when it is asked: the subscribers, the log's writer, and the clock, which is read anew for
/// each request.
pub open spec fn honest_run(s: Session, b: Seq<u8>, answers: Seq<Answers>) -> bool
    decreases b.len(),
{
    match head_of(b) {
        Head::Whole(r) => if r.action == ACT_SUBSCRIBE && s.authed || answers.len() == 0 {
            true
        } else {
            &&& clock_reads(answers[0].now)
            &&& honest_step(s, r, answers[0])
            &&& honest_run(
                stepped(s, r, answers[0]),
                b.skip(frame_len(b) as int),
                answers.skip(1),
            )
        },
        _ => true,
    }
}

/// A request frame within received bytes.
pub struct Frame<'a> {
    pub action: u8,
    pub key: &'a [u8],
    pub value: &'a [u8],
    pub ttl: u32,
    /// The length of the whole frame.
    pub len: usize,
}

impl<'a> View for Frame<'a> {
    type V = Request;

    open spec fn view(&self) -> Request {
        Request { action: self.action, key: self.key@, value: self.value@, ttl: self.ttl }
    }
}

/// What stands at the beginning of received bytes.
pub enum Incoming<'a> {
    Partial,
    TooLong,
    Whole(Frame<'a>),
}

/// Cuts a frame off the beginning of `b`: body slices borrow `b` directly.
pub fn next_frame<'a>(b: &'a [u8]) -> (r: Incoming<'a>)
    ensures
        match r {
            Incoming::Partial => head_of(b@) == Head::Partial,
            Incoming::TooLong => head_of(b@) == Head::TooLong,
            Incoming::Whole(f) => head_of(b@) == Head::Whole(f@) && f.len == frame_len(b@) && f.len
                <= b@.len(),
        },
{
    if b.len() < HEADER_LEN {
        return Incoming::Partial;
    }
    let (action, klen, vlen, ttl): (u8, usize, usize, u32) = decode_header(b);
    if klen as u64 + vlen as u64 > MAX_FRAME_BODY as u64 {
        return Incoming::TooLong;
    }
    let len: usize = HEADER_LEN + klen + vlen;
    if b.len() < len {
        return Incoming::Partial;
    }
    let vstart: usize = HEADER_LEN + klen;
    Incoming::Whole(
        Frame {
            action,
            key: part(b, HEADER_LEN, vstart),
            value: part(b, vstart, len),
            ttl,
            len,
        },
    )
}

/// How a connection goes on.
pub enum Next {
    /// Send the replies and wait for more bytes.
    Read,
    /// Send the replies and drop the connection.
    Close,
    /// Send the replies and turn the connection into a subscription to a channel.
    Subscribe(Vec<u8>),
}

impl View for Next {
    type V = NextView;

    open spec fn view(&self) -> NextView {
        match self {
            Next::Read => NextView::Read,
            Next::Close => NextView::Close,
            Next::Subscribe(channel) => NextView::Subscribe(channel@),
        }
    }
}

/// The engine's side of one connection.
pub struct EngineConn {
    /// Whether the connection is authenticated.
    pub authed: bool,
    /// Bytes received and not yet served.
    pub acc: Vec<u8>,
}

/// The session of a connection.
pub open spec fn session(server: ServerView, authed: bool, out: Seq<u8>) -> Session {
    Session { server, authed, out }
}

/// The accounted bytes stay within the counter whatever requests `bytes` hold.
pub open spec fn room_for_bytes(server: ServerView, bytes: nat) -> bool {
    server.cache.used() + 7 * bytes <= usize::MAX
}

/// Room for the bytes of a frame is room for its request, and serving it leaves room
/// for the rest.
proof fn lemma_room(s: Session, b: Seq<u8>, a: Answers)
    requires
        sound(s.server.cache),
        room_for_bytes(s.server, b.len()),
        head_of(b) is Whole,
    ensures
        ({
            let r = head_of(b)->Whole_0;
            &&& room_for(s.server.cache, r.key, r.value)
            &&& room_for_bytes(
                stepped(s, r, a).server,
                b.skip(frame_len(b) as int).len(),
            )
        }),
{
    let r = head_of(b)->Whole_0;
    law_growth(s.server.cache, a.now, r.action, r.key, r.value, r.ttl);
    let t = applied(s.server, r.action, r.key, r.value, r.ttl, a).0;
    assert(t.cache.used() <= s.server.cache.used() + r.key.len() + 72 + 7 * r.value.len());
}

impl EngineConn {
    /// A fresh connection: pre-authenticated only when the server runs open (no token
    /// configured).
    pub fn new(server: &Server) -> (r: Self)
        ensures
            r.authed == server@.auth is None,
            r.acc@ == Seq::<u8>::empty(),
    {
        EngineConn { authed: server.auth.is_none(), acc: Vec::new() }
    }

    /// Serves one request other than a granted SUBSCRIBE at the time `now`.
    pub fn serve_one(&mut self, server: &mut Server, now: u64, f: &Frame, out: &mut Vec<u8>)
        requires
            old(server).wf(),
            room_for(old(server)@.cache, f.key@, f.value@),
        ensures
            final(server).wf(),
            final(self).acc == old(self).acc,
            exists|a: Answers|
                a.now == now && honest_step(
                    session(old(server)@, old(self).authed, old(out)@),
                    f@,
                    a,
                ) && session(final(server)@, final(self).authed, final(out)@) == #[trigger] stepped(
                    session(old(server)@, old(self).authed, old(out)@),
                    f@,
                    a,
                ),
    {
        let ghost s = session(server@, self.authed, out@);
        let ghost any = Answers { now, subscribers: seq![], writer: seq![] };
        if f.action == ACT_AUTH {
            self.authed = server.token_ok(f.key);
            out.push(
                if self.authed {
                    RSP_OK
                } else {
                    RSP_AUTH
                },
            );
            assert(session(server@, self.authed, out@) =~= stepped(s, f@, any));
        } else if !self.authed {
            out.push(RSP_AUTH);
            assert(session(server@, self.authed, out@) =~= stepped(s, f@, any));
        } else {
            apply_at(server, now, f.action, f.key, f.value, f.ttl, out);
            proof {
                let a = choose|a: Answers|
                    a.now == now && honest(
                        s.server,
                        f.action,
                        f.key@,
                        f.value@,
                        f.ttl,
                        a,
                    ) && (server@, out@) == #[trigger] answered(
                        (s.server, s.out),
                        f.action,
                        f.key@,
                        f.value@,
                        f.ttl,
                        a,
                    );
                assert(session(server@, self.authed, out@) =~= stepped(s, f@, a));
            }
        }
    }

    /// Takes in received bytes and serves all requests that are now complete, appending
    /// the replies to `out`. This makes both fragmented (multi-packet) and pipelined
    /// (batched) transmission safe.
    #[verifier::rlimit(40)]
    pub fn serve(&mut self, server: &mut Server, data: &[u8], out: &mut Vec<u8>) -> (r: Next)
        requires
            old(server).wf(),
            room_for_bytes(old(server)@, old(self).acc@.len() + data@.len()),
        ensures
            final(server).wf(),
            exists|answers: Seq<Answers>|
                (forall|i: int| 0 <= i < answers.len() ==> clock_reads((#[trigger] answers[i]).now))
                    && honest_run(
                    session(old(server)@, old(self).authed, old(out)@),
                    old(self).acc@ + data@,
                    answers,
                ) && answers.len() <= requests(old(self).acc@ + data@).len() && (r@ == NextView::Read
                    ==> answers.len() == requests(old(self).acc@ + data@).len()) && (
                    session(final(server)@, final(self).authed, final(out)@),
                    final(self).acc@,
                    r@,
                ) == #[trigger] served(
                    session(old(server)@, old(self).authed, old(out)@),
                    old(self).acc@ + data@,
                    answers,
                ),
    {
        let mut acc: Vec<u8> = Vec::new();
        acc.append(&mut self.acc);
        append(&mut acc, data);
        let ghost all = acc@;
        let ghost start = session(server@, self.authed, out@);
        let ghost mut answers: Seq<Answers> = seq![];
        let mut pos: usize = 0;
        proof {
            assert(all =~= old(self).acc@ + data@);
            assert(all.skip(0) =~= all);
            lemma_resumes_start(start, all);
        }
        loop
            invariant
                server.wf(),
                acc@ == all,
                all == old(self).acc@ + data@,
                start == session(old(server)@, old(self).authed, old(out)@),
                pos <= all.len(),
                room_for_bytes(server@, (all.len() - pos) as nat),
                requests(all).len() == answers.len() + requests(all.skip(pos as int)).len(),
                forall|i: int| 0 <= i < answers.len() ==> clock_reads((#[trigger] answers[i]).now),
                resumes(
                    start,
                    all,
                    answers,
                    session(server@, self.authed, out@),
                    all.skip(pos as int),
                ),
            decreases all.len() - pos,
        {
            let ghost s = session(server@, self.authed, out@);
            let ghost rest = all.skip(pos as int);
            let len: usize = acc.len();
            let left: &[u8] = part(acc.as_slice(), pos, len);
            proof {
                assert(left@ =~= rest);
                lemma_resumes_end(start, all, answers, s, rest);
            }
            match next_frame(left) {
                Incoming::Partial => {
                    self.acc = acc.split_off(pos);
                    assert(self.acc@ =~= rest);
                    return Next::Read;
                },
                Incoming::TooLong => {
                    out.push(RSP_ERROR);
                    self.acc = acc.split_off(pos);
                    assert(self.acc@ =~= rest);
                    return Next::Close;
                },
                Incoming::Whole(f) => {
                    let ghost n = frame_len(rest) as int;
                    assert(all.skip(pos + n) =~= rest.skip(n));
                    if f.action == ACT_SUBSCRIBE && self.authed {
                        let channel: Vec<u8> = to_vec(f.key);
                        let end: usize = pos + f.len;
                        self.acc = acc.split_off(end);
                        assert(self.acc@ =~= rest.skip(n));
                        return Next::Subscribe(channel);
                    }
                    proof {
                        lemma_room(s, rest, arbitrary());
                    }
                    let now: u64 = now_secs();
                    self.serve_one(server, now, &f, out);
                    proof {
                        let t = session(server@, self.authed, out@);
                        let a = choose|a: Answers|
                            a.now == now && honest_step(s, f@, a) && t == #[trigger] stepped(
                                s,
                                f@,
                                a,
                            );
                        lemma_room(s, rest, a);
                        lemma_resumes_step(start, all, answers, s, rest, a);
                        answers = answers.push(a);
                    }
                    pos = pos + f.len;
                },
            }
        }
    }
}

/// Serving `all` from `start` comes down to serving `rest` from `s` once the requests before
/// `rest`, answered by `answers`, are done.
#[verifier::opaque]
spec fn resumes(
    start: Session,
    all: Seq<u8>,
    answers: Seq<Answers>,
    s: Session,
    rest: Seq<u8>,
) -> bool {
    forall|more: Seq<Answers>| #[trigger]
        served(start, all, answers + more) == served(s, rest, more) && honest_run(
            start,
            all,
            answers + more,
        ) == honest_run(s, rest, more)
}

proof fn lemma_resumes_start(start: Session, all: Seq<u8>)
    ensures
        resumes(start, all, seq![], start, all),
{
    reveal(resumes);
    assert forall|more: Seq<Answers>| #[trigger]
        served(start, all, Seq::<Answers>::empty() + more) == served(start, all, more)
            && honest_run(start, all, Seq::<Answers>::empty() + more) == honest_run(
            start,
            all,
            more,
        ) by {
        assert(Seq::<Answers>::empty() + more =~= more);
    }
}

proof fn lemma_resumes_step(
    start: Session,
    all: Seq<u8>,
    answers: Seq<Answers>,
    s: Session,
    rest: Seq<u8>,
    a: Answers,
)
    requires
        resumes(start, all, answers, s, rest),
        head_of(rest) is Whole,
        !(head_of(rest)->Whole_0.action == ACT_SUBSCRIBE && s.authed),
        clock_reads(a.now),
        honest_step(s, head_of(rest)->Whole_0, a),
    ensures
        resumes(
            start,
            all,
            answers.push(a),
            stepped(s, head_of(rest)->Whole_0, a),
            rest.skip(frame_len(rest) as int),
        ),
{
    reveal(resumes);
    let next = answers.push(a);
    let t = stepped(s, head_of(rest)->Whole_0, a);
    let after = rest.skip(frame_len(rest) as int);
    assert forall|more: Seq<Answers>| #[trigger]
        served(start, all, next + more) == served(t, after, more) && honest_run(
            start,
            all,
            next + more,
        ) == honest_run(t, after, more) by {
        let tail = seq![a] + more;
        assert(next + more =~= answers + tail);
        assert(served(start, all, answers + tail) == served(s, rest, tail));
        assert(tail.skip(1) =~= more);
        assert(tail[0] == a);
    }
}

proof fn lemma_resumes_end(
    start: Session,
    all: Seq<u8>,
    answers: Seq<Answers>,
    s: Session,
    rest: Seq<u8>,
)
    requires
        resumes(start, all, answers, s, rest),
    ensures
        served(start, all, answers) == served(s, rest, seq![]),
        honest_run(start, all, answers),
{
    reveal(resumes);
    let none = Seq::<Answers>::empty();
    assert(served(start, all, answers + none) == served(s, rest, none));
    assert(answers + none =~= answers);
}

/// The complete requests at the beginning of `b`.
pub open spec fn requests(b: Seq<u8>) -> Seq<Request>
    decreases b.len(),
{
    match head_of(b) {
        Head::Whole(r) => seq![r] + requests(b.skip(frame_len(b) as int)),
        _ => seq![],
    }
}

/// More bytes do not change a frame that is there already.
pub proof fn lemma_head_prefix(a: Seq<u8>, b: Seq<u8>)
    ensures
        !(head_of(a) is Partial) ==> head_of(a + b) == head_of(a) && frame_len(a + b) == frame_len(
            a,
        ),
        head_of(a) is Whole ==> (a + b).skip(frame_len(a) as int) == a.skip(frame_len(a) as int)
            + b,
{
    if a.len() >= HEADER_LEN {
        assert((a + b).subrange(1, 3) =~= a.subrange(1, 3));
        assert((a + b).subrange(3, 7) =~= a.subrange(3, 7));
        assert((a + b).subrange(7, 11) =~= a.subrange(7, 11));
    }
    if head_of(a) is Whole {
        let k = HEADER_LEN + header_klen(a);
        let n = frame_len(a) as int;
        assert((a + b).subrange(HEADER_LEN as int, k) =~= a.subrange(HEADER_LEN as int, k));
        assert((a + b).subrange(k, n) =~= a.subrange(k, n));
        assert((a + b).skip(n) =~= a.skip(n) + b);
    }
}

/// Fragmentation does not matter: serving what has arrived and then, with the bytes left
/// over, what arrives next is serving it all at once. `answers` is what the world outside
/// answers to each request in turn.
pub proof fn law_fragmentation(s: Session, a: Seq<u8>, b: Seq<u8>, answers: Seq<Answers>)
    requires
        served(s, a, answers).2 == NextView::Read,
        requests(a).len() <= answers.len(),
    ensures
        served(s, a + b, answers) == ({
            let (t, rest, _) = served(s, a, answers);
            served(t, rest + b, answers.skip(requests(a).len() as int))
        }),
    decreases a.len(),
{
    lemma_head_prefix(a, b);
    match head_of(a) {
        Head::Whole(r) => {
            let rest = a.skip(frame_len(a) as int);
            law_fragmentation(stepped(s, r, answers[0]), rest, b, answers.skip(1));
            let n = requests(rest).len() as int;
            assert(answers.skip(1).skip(n) =~= answers.skip(n + 1));
        },
        _ => {
            assert(answers.skip(0) =~= answers);
        },
    }
}

/// Once a connection is dropped or turns into a subscription, what arrives next does not
/// matter.
proof fn lemma_served_to_the_end(s: Session, a: Seq<u8>, b: Seq<u8>, answers: Seq<Answers>)
    requires
        served(s, a, answers).2 != NextView::Read,
    ensures
        served(s, a + b, answers).0 == served(s, a, answers).0,
        served(s, a + b, answers).2 == served(s, a, answers).2,
    decreases a.len(),
{
    lemma_head_prefix(a, b);
    match head_of(a) {
        Head::Whole(r) => {
            let rest = a.skip(frame_len(a) as int);
            if !(r.action == ACT_SUBSCRIBE && s.authed) {
                lemma_served_to_the_end(stepped(s, r, answers[0]), rest, b, answers.skip(1));
            }
        },
        _ => {},
    }
}

/// The bytes that arrive in several reads.
pub open spec fn stream(reads: Seq<Seq<u8>>) -> Seq<u8>
    decreases reads.len(),
{
    if reads.len() == 0 {
        seq![]
    } else {
        reads[0] + stream(reads.drop_first())
    }
}

/// The session after several reads, each served with the bytes left over by the one before,
/// and how the connection goes on. It reads no further once it does not wait for bytes.
pub open spec fn served_reads(
    s: Session,
    left: Seq<u8>,
    reads: Seq<Seq<u8>>,
    answers: Seq<Answers>,
) -> (Session, NextView)
    decreases reads.len(),
{
    if reads.len() == 0 {
        (s, NextView::Read)
    } else {
        let b = left + reads[0];
        let (t, rest, next) = served(s, b, answers);
        if next == NextView::Read {
            served_reads(t, rest, reads.drop_first(), answers.skip(requests(b).len() as int))
        } else {
            (t, next)
        }
    }
}

/// The bytes left over hold no complete request.
proof fn lemma_left_over(s: Session, b: Seq<u8>, answers: Seq<Answers>)
    ensures
        served(s, b, answers).2 == NextView::Read ==> head_of(served(s, b, answers).1)
            is Partial,
    decreases b.len(),
{
    if let Head::Whole(r) = head_of(b) {
        let rest = b.skip(frame_len(b) as int);
        if !(r.action == ACT_SUBSCRIBE && s.authed) {
            lemma_left_over(stepped(s, r, answers[0]), rest, answers.skip(1));
        }
    }
}

/// The requests in bytes that arrive in two parts, as long as no frame is too long.
proof fn lemma_requests_split(s: Session, a: Seq<u8>, b: Seq<u8>, answers: Seq<Answers>)
    requires
        served(s, a, answers).2 == NextView::Read,
    ensures
        requests(a + b).len() == requests(a).len() + requests(
            served(s, a, answers).1 + b,
        ).len(),
    decreases a.len(),
{
    lemma_head_prefix(a, b);
    if let Head::Whole(r) = head_of(a) {
        let rest = a.skip(frame_len(a) as int);
        lemma_requests_split(stepped(s, r, answers[0]), rest, b, answers.skip(1));
    }
}

/// It does not matter how the bytes of a connection are cut into reads: the replies, the
/// server and how the connection goes on are those of serving all bytes at once. So there
/// is one reply per complete request, in order, and an incomplete last request gets no
/// reply and has no effect.
pub proof fn law_cuts_do_not_matter(
    s: Session,
    left: Seq<u8>,
    reads: Seq<Seq<u8>>,
    answers: Seq<Answers>,
)
    requires
        head_of(left) is Partial,
        requests(left + stream(reads)).len() <= answers.len(),
    ensures
        ({
            let all = served(s, left + stream(reads), answers);
            served_reads(s, left, reads, answers) == (all.0, all.2)
        }),
    decreases reads.len(),
{
    if reads.len() == 0 {
        assert(left + stream(reads) =~= left);
    } else {
        let b = left + reads[0];
        let later = reads.drop_first();
        let (t, rest, next) = served(s, b, answers);
        assert(left + stream(reads) =~= b + stream(later));
        if next == NextView::Read {
            lemma_requests_split(s, b, stream(later), answers);
            lemma_left_over(s, b, answers);
            law_fragmentation(s, b, stream(later), answers);
            law_cuts_do_not_matter(t, rest, later, answers.skip(requests(b).len() as int));
        } else {
            lemma_served_to_the_end(s, b, stream(later), answers);
        }
    }
}

/// Two sessions that differ in the subscribers at most.
pub open spec fn alike(s: Session, t: Session) -> bool {
    &&& s.authed == t.authed
    &&& s.out == t.out
    &&& t.server == (ServerView { subs: t.server.subs, ..s.server })
}

/// Without a log, the clock is all that the store and the replies depend on from outside.
pub proof fn law_clock_decides(
    s: Session,
    t: Session,
    b: Seq<u8>,
    x: Seq<Answers>,
    y: Seq<Answers>,
)
    requires
        alike(s, t),
        s.server.aof is None,
        forall|i: int| 0 <= i < requests(b).len() ==> (#[trigger] x[i]).now == y[i].now,
        requests(b).len() <= x.len(),
        requests(b).len() <= y.len(),
    ensures
        alike(served(s, b, x).0, served(t, b, y).0),
        served(s, b, x).1 == served(t, b, y).1,
        served(s, b, x).2 == served(t, b, y).2,
    decreases b.len(),
{
    if let Head::Whole(r) = head_of(b) {
        let rest = b.skip(frame_len(b) as int);
        if !(r.action == ACT_SUBSCRIBE && s.authed) {
            assert(x[0].now == y[0].now);
            let u = stepped(s, r, x[0]);
            let v = stepped(t, r, y[0]);
            assert(alike(u, v)) by {
                assert(u.out =~= v.out);
                assert(v.server =~= (ServerView { subs: v.server.subs, ..u.server }));
            }
            assert forall|i: int| 0 <= i < requests(rest).len() implies (#[trigger] x.skip(
                1,
            )[i]).now == y.skip(1)[i].now by {
                assert(x[i + 1].now == y[i + 1].now);
            }
            law_clock_decides(u, v, rest, x.skip(1), y.skip(1));
        }
    }
}

/// Two runs without a log, at the same times, whose reads deliver the same bytes, earn the
/// same replies and leave the same store behind, wherever the bytes are cut.
pub proof fn law_same_bytes_same_replies(
    s: Session,
    one: Seq<Seq<u8>>,
    other: Seq<Seq<u8>>,
    x: Seq<Answers>,
    y: Seq<Answers>,
)
    requires
        s.server.aof is None,
        stream(one) == stream(other),
        requests(stream(one)).len() <= x.len(),
        requests(stream(one)).len() <= y.len(),
        forall|i: int|
            0 <= i < requests(stream(one)).len() ==> (#[trigger] x[i]).now == y[i].now,
    ensures
        ({
            let none = Seq::<u8>::empty();
            let (t, m) = served_reads(s, none, one, x);
            let (u, n) = served_reads(s, none, other, y);
            &&& t.out == u.out
            &&& t.server.cache == u.server.cache
            &&& t.authed == u.authed
            &&& m == n
        }),
{
    let none = Seq::<u8>::empty();
    assert(none + stream(one) =~= stream(one));
    law_cuts_do_not_matter(s, none, one, x);
    law_cuts_do_not_matter(s, none, other, y);
    assert(alike(s, s));
    law_clock_decides(s, s, stream(one), x, y);
}

/// Every request but AUTH is turned away on a connection that is not authenticated: until
/// the right token is presented, the server stays as it is, nothing is subscribed to, and
/// each request is answered by the one byte that asks for authentication.
pub proof fn law_unauthenticated(s: Session, b: Seq<u8>, answers: Seq<Answers>)
    requires
        !s.authed,
        s.server.auth is Some,
        forall|i: int|
            0 <= i < requests(b).len() && (#[trigger] requests(b)[i]).action == ACT_AUTH
                ==> requests(b)[i].key != s.server.auth->0,
    ensures
        ({
            let (t, _, next) = served(s, b, answers);
            let refusals = Seq::new(requests(b).len(), |i: int| RSP_AUTH);
            &&& t.server == s.server
            &&& !t.authed
            &&& !(next is Subscribe)
            &&& t.out == s.out + (if next is Close {
                refusals.push(RSP_ERROR)
            } else {
                refusals
            })
        }),
    decreases b.len(),
{
    let refusals = Seq::new(requests(b).len(), |i: int| RSP_AUTH);
    match head_of(b) {
        Head::Whole(r) => {
            let rest = b.skip(frame_len(b) as int);
            assert(requests(b)[0] == r);
            assert forall|i: int|
                0 <= i < requests(rest).len() && (#[trigger] requests(rest)[i]).action
                    == ACT_AUTH implies requests(rest)[i].key != s.server.auth->0 by {
                assert(requests(b)[i + 1] == requests(rest)[i]);
            }
            let u = stepped(s, r, answers[0]);
            law_unauthenticated(u, rest, answers.skip(1));
            let (t, _, next) = served(u, rest, answers.skip(1));
            let later = Seq::new(requests(rest).len(), |i: int| RSP_AUTH);
            assert(refusals =~= seq![RSP_AUTH] + later);
            assert(t.out =~= s.out + (if next is Close {
                refusals.push(RSP_ERROR)
            } else {
                refusals
            }));
        },
        _ => {
            let (t, _, next) = served(s, b, answers);
            assert(refusals =~= seq![]);
            assert(t.out =~= s.out + (if next is Close {
                refusals.push(RSP_ERROR)
            } else {
                refusals
            }));
        },
    }
}

/// A connection that presents the right token is served from there on, and one that
/// presents a wrong token is not.
pub proof fn law_auth(s: Session, r: Request, a: Answers)
    requires
        r.action == ACT_AUTH,
    ensures
        stepped(s, r, a).authed == token_accepted(s.server.auth, r.key),
        stepped(s, r, a).server == s.server,
        stepped(s, r, a).out == s.out + seq![
            if token_accepted(s.server.auth, r.key) {
                RSP_OK
            } else {
                RSP_AUTH
            },
        ],
{
    assert(stepped(s, r, a).out =~= s.out + seq![
        if token_accepted(s.server.auth, r.key) {
            RSP_OK
        } else {
            RSP_AUTH
        },
    ]);
}

/// The right token is the server's secret, to the byte, and nothing else; a server without a
/// secret takes any.
pub proof fn law_token(auth: Option<Seq<u8>>, token: Seq<u8>)
    ensures
        token_accepted(auth, token) <==> (auth is None || auth == Some(token)),
{
}

/// A frame whose lengths add up to more than 64 MiB ends the connection: the reply is an
/// error, and neither it nor anything behind it is served.
pub proof fn law_too_long(s: Session, b: Seq<u8>, answers: Seq<Answers>)
    requires
        b.len() >= 11,
        (b[1] * 0x100 + b[2]) + (b[3] * 0x100_0000 + b[4] * 0x1_0000 + b[5] * 0x100 + b[6])
            > 0x400_0000,
    ensures
        ({
            let (t, left, next) = served(s, b, answers);
            &&& next == NextView::Close
            &&& t.out == s.out + seq![0xFFu8]
            &&& t.server == s.server && t.authed == s.authed
            &&& left == b
        }),
{
    law_fields_are_big_endian(b.subrange(1, 3));
    law_fields_are_big_endian(b.subrange(3, 7));
    assert(b.subrange(1, 3)[1] == b[2]);
    assert(b.subrange(3, 7)[1] == b[4] && b.subrange(3, 7)[2] == b[5] && b.subrange(3, 7)[3]
        == b[6]);
    assert(s.out.push(RSP_ERROR) =~= s.out + seq![0xFFu8]);
}

/// A SUBSCRIBE (0x05) on an authenticated connection turns it into a subscription to the
/// channel that its key names, without a reply; what follows it is left for later. On any
/// other connection it is turned away.
pub proof fn law_subscribe(
    s: Session,
    channel: Seq<u8>,
    value: Seq<u8>,
    ttl: u32,
    rest: Seq<u8>,
    answers: Seq<Answers>,
)
    requires
        channel.len() <= 0xFFFF,
        channel.len() + value.len() <= MAX_FRAME_BODY,
        answers.len() > 0,
    ensures
        ({
            let b = frame_bytes(0x05, channel, value, ttl) + rest;
            if s.authed {
                served(s, b, answers) == (s, rest, NextView::Subscribe(channel))
            } else {
                served(s, b, answers) == served(
                    (Session { out: s.out + seq![0x41u8], ..s }),
                    rest,
                    answers.skip(1),
                )
            }
        }),
{
    law_request_of_frame(0x05, channel, value, ttl, rest);
    assert(s.out.push(RSP_AUTH) =~= s.out + seq![0x41u8]);
}

/// An encoded frame is a complete request that says what was encoded.
pub proof fn law_request_of_frame(
    action: u8,
    key: Seq<u8>,
    value: Seq<u8>,
    ttl: u32,
    rest: Seq<u8>,
)
    requires
        key.len() <= 0xFFFF,
        key.len() + value.len() <= MAX_FRAME_BODY,
    ensures
        ({
            let f = frame_bytes(action, key, value, ttl);
            &&& head_of(f + rest) == Head::Whole(Request { action, key, value, ttl })
            &&& frame_len(f + rest) == f.len()
            &&& (f + rest).skip(f.len() as int) == rest
            &&& requests(f + rest) == seq![Request { action, key, value, ttl }] + requests(rest)
        }),
{
    let f = frame_bytes(action, key, value, ttl);
    law_decode_of_encode(action, key, value, ttl);
    lemma_head_prefix(f, rest);
    assert((f + rest).skip(f.len() as int) =~= rest);
}

/// A fresh connection has to authenticate itself, unless the server has no secret, and nothing of
/// it has arrived.
pub proof fn law_fresh_connection(server: &Server, r: EngineConn)
    requires
        call_ensures(EngineConn::new, (server,), r),
    ensures
        r.authed <==> server@.auth is None,
        r.acc@.len() == 0,
{
}

} // verus!
