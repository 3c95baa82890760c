//! What the HTTP side reads out of requests and what a client reads out of its responses.
use vstd::prelude::*;
use vstd::utf8::{decode_utf8, encode_utf8, valid_utf8};

use crate::aof::RewriteStatus;
use crate::http::{
    answer_with, authorized, blank_line, cookie_in, cookie_of, cookie_text, crlf, head_progress,
    header_in, header_of, line_end, method_of, page_head_of, received_answer_of, response_head,
    rewrite_answer, route_of, routed, session_head, sub_index, target_of, token_of, upgrade_head,
    write_http, write_http_session, write_upgrade, HeadProgress, Reply, ReplyView,
};
use crate::server::Server;
use crate::text::{
    begins, decimal, law_case_does_not_matter, law_index_of, law_trimmed, same_ignoring_case, white,
};
use crate::ws::accept_of;

verus! {

/// Whether a text has no carriage returns.
pub open spec fn on_a_line(t: Seq<char>) -> bool {
    forall|i: int| 0 <= i < t.len() ==> #[trigger] t[i] != '\r'
}

/// Whether a text neither begins nor ends with white space.
pub open spec fn tight(t: Seq<char>) -> bool {
    t.len() > 0 ==> !white(t[0]) && !white(t.last())
}

/// Whether a header can be written on a line: a name without a colon, and a value.
pub open spec fn writable(h: (Seq<char>, Seq<char>)) -> bool {
    &&& on_a_line(h.0)
    &&& on_a_line(h.1)
    &&& tight(h.0)
    &&& tight(h.1)
    &&& forall|i: int| 0 <= i < h.0.len() ==> #[trigger] h.0[i] != ':'
}

/// The end of a line.
pub open spec fn eol() -> Seq<char> {
    seq!['\r', '\n']
}

/// A header on its line.
pub open spec fn header_line(h: (Seq<char>, Seq<char>)) -> Seq<char> {
    h.0 + seq![':', ' '] + h.1 + eol()
}

/// Headers on their lines.
pub open spec fn header_lines(hs: Seq<(Seq<char>, Seq<char>)>) -> Seq<char>
    decreases hs.len(),
{
    if hs.len() == 0 {
        seq![]
    } else {
        header_line(hs[0]) + header_lines(hs.drop_first())
    }
}

/// A head: a first line, headers, and the empty line that ends them.
pub open spec fn head_text(first: Seq<char>, hs: Seq<(Seq<char>, Seq<char>)>) -> Seq<char> {
    first + eol() + header_lines(hs) + eol()
}

/// The value of the first header with a name, in whatever case.
pub open spec fn first_named(hs: Seq<(Seq<char>, Seq<char>)>, name: Seq<char>) -> Option<Seq<char>>
    decreases hs.len(),
{
    if hs.len() == 0 {
        None
    } else if same_ignoring_case(hs[0].0, name) {
        Some(hs[0].1)
    } else {
        first_named(hs.drop_first(), name)
    }
}

proof fn lemma_line_end(line: Seq<char>, rest: Seq<char>)
    requires
        on_a_line(line),
    ensures
        line_end(line + eol() + rest) == line.len(),
    decreases line.len(),
{
    let s = line + eol() + rest;
    if line.len() > 0 {
        assert(line[0] != '\r');
        let t = line.drop_first();
        assert forall|i: int| 0 <= i < t.len() implies #[trigger] t[i] != '\r' by {
            assert(line[i + 1] != '\r');
        }
        lemma_line_end(t, rest);
        assert(s.drop_first() =~= t + eol() + rest);
    } else {
        assert(s[0] == '\r' && s[1] == '\n');
    }
}

proof fn lemma_header(h: (Seq<char>, Seq<char>), rest: Seq<char>, name: Seq<char>)
    requires
        writable(h),
    ensures
        header_in(header_line(h) + rest, name) == (if same_ignoring_case(h.0, name) {
            Some(h.1)
        } else {
            header_in(rest, name)
        }),
{
    let line = h.0 + seq![':', ' '] + h.1;
    let s = header_line(h) + rest;
    assert(s =~= line + eol() + rest);
    assert forall|i: int| 0 <= i < line.len() implies #[trigger] line[i] != '\r' by {
        if i < h.0.len() {
            assert(line[i] == h.0[i]);
        } else if i >= h.0.len() + 2 {
            assert(line[i] == h.1[i - h.0.len() - 2]);
        }
    }
    lemma_line_end(line, rest);
    let n = h.0.len() as int;
    law_index_of(line, ':', n);
    assert(s.take(line.len() as int) =~= line);
    assert(line.take(n) =~= h.0);
    let none = Seq::<char>::empty();
    law_trimmed(none, h.0, none);
    assert(line.skip(n + 1) =~= seq![' '] + h.1 + none);
    law_trimmed(seq![' '], h.1, none);
    assert(s.skip(line.len() as int + 2) =~= rest);
}

proof fn lemma_headers(hs: Seq<(Seq<char>, Seq<char>)>, body: Seq<char>, name: Seq<char>)
    requires
        forall|i: int| 0 <= i < hs.len() ==> writable(#[trigger] hs[i]),
    ensures
        header_in(header_lines(hs) + (eol() + body), name) == first_named(hs, name),
    decreases hs.len(),
{
    let tail = eol() + body;
    if hs.len() == 0 {
        assert(header_lines(hs) + tail =~= tail);
        let none = Seq::<char>::empty();
        lemma_line_end(none, body);
        assert(none + eol() + body =~= tail);
    } else {
        let later = hs.drop_first();
        assert(writable(hs[0]));
        assert forall|i: int| 0 <= i < later.len() implies writable(#[trigger] later[i]) by {
            assert(writable(hs[i + 1]));
        }
        lemma_headers(later, body, name);
        lemma_header(hs[0], header_lines(later) + tail, name);
        assert(header_lines(hs) + tail =~= header_line(hs[0]) + (header_lines(later) + tail));
    }
}

/// Looking up a header in a message gives the value of the first header with that name, in
/// whatever case, without the white space around it. The first line is no header, and
/// nothing behind the empty line is one.
pub proof fn law_header_lookup(
    first: Seq<char>,
    hs: Seq<(Seq<char>, Seq<char>)>,
    body: Seq<char>,
    name: Seq<char>,
)
    requires
        on_a_line(first),
        forall|i: int| 0 <= i < hs.len() ==> writable(#[trigger] hs[i]),
    ensures
        header_of(head_text(first, hs) + body, name) == first_named(hs, name),
{
    let text = head_text(first, hs) + body;
    let rest = header_lines(hs) + (eol() + body);
    assert(text =~= first + eol() + rest);
    lemma_line_end(first, rest);
    assert(text.skip(first.len() as int + 2) =~= rest);
    lemma_headers(hs, body, name);
}

/// The first line of a request, `METHOD TARGET VERSION`, names the method and the target;
/// what follows the line has no bearing on either.
pub proof fn law_request_line(
    line: Seq<u8>,
    method: Seq<char>,
    target: Seq<char>,
    version: Seq<char>,
    rest: Seq<u8>,
)
    requires
        valid_utf8(line),
        decode_utf8(line) == method + seq![' '] + target + seq![' '] + version,
        sub_index(line, seq![13u8, 10u8]) is None,
        forall|i: int| 0 <= i < method.len() ==> #[trigger] method[i] != ' ',
        forall|i: int| 0 <= i < target.len() ==> #[trigger] target[i] != ' ',
        target.len() > 0,
    ensures
        method_of(line + seq![13u8, 10u8] + rest) == Some(method),
        target_of(line + seq![13u8, 10u8] + rest) == Some(target),
{
    let req = line + seq![13u8, 10u8] + rest;
    assert(crlf() =~= seq![13u8, 10u8]);
    lemma_first_line(line, rest);
    assert(req.take(line.len() as int) =~= line);
    let text = method + seq![' '] + target + seq![' '] + version;
    let n = method.len() as int;
    law_index_of(text, ' ', n);
    assert(text.take(n) =~= method);
    let more = target + seq![' '] + version;
    assert(text.skip(n + 1) =~= more);
    law_index_of(more, ' ', target.len() as int);
    assert(more.take(target.len() as int) =~= target);
}

proof fn lemma_first_line(line: Seq<u8>, rest: Seq<u8>)
    requires
        sub_index(line, crlf()) is None,
    ensures
        sub_index(line + seq![13u8, 10u8] + rest, crlf()) == Some(line.len() as int),
    decreases line.len(),
{
    let req = line + seq![13u8, 10u8] + rest;
    let end = crlf();
    if line.len() == 0 {
        assert(req.take(2) =~= end);
    } else {
        let t = line.drop_first();
        if line.len() == 1 {
            assert(req.take(2)[1] == 13 && end[1] == 10);
        } else {
            assert(req.take(2) =~= line.take(2));
        }
        assert(sub_index(t, end) is None);
        lemma_first_line(t, rest);
        assert(req.drop_first() =~= t + seq![13u8, 10u8] + rest);
    }
}

/// A request with no space in its first line, or with nothing behind the first, names no
/// target, and is a bad one; so is one whose headers never end.
pub proof fn law_bad_request(auth: Option<Seq<u8>>, req: Seq<u8>, text: Seq<char>)
    requires
        target_of(req) is None || sub_index(req, seq![13u8, 10u8, 13u8, 10u8]) is None,
    ensures
        received_answer_of(auth, req, text) == ReplyView::Plain(400, "Bad Request"@),
{
    assert(blank_line() =~= seq![13u8, 10u8, 13u8, 10u8]);
}

/// The query string is no part of the route.
pub proof fn law_route(path: Seq<char>, query: Seq<char>)
    requires
        forall|i: int| 0 <= i < path.len() ==> #[trigger] path[i] != '?',
    ensures
        route_of(path) == path,
        route_of(path + seq!['?'] + query) == path,
{
    let n = path.len() as int;
    law_index_of(path, '?', n);
    law_index_of(path + seq!['?'] + query, '?', n);
    assert(path.take(n) =~= path);
    assert((path + seq!['?'] + query).take(n) =~= path);
}

/// Whether a cookie can be written: a name and a value without semicolons, the name without
/// an equals sign, and no white space around them.
pub open spec fn bakeable(c: (Seq<char>, Seq<char>)) -> bool {
    &&& c.0.len() > 0
    &&& !white(c.0[0])
    &&& c.1.len() > 0 ==> !white(c.1.last())
    &&& forall|i: int| 0 <= i < c.0.len() ==> #[trigger] c.0[i] != ';' && c.0[i] != '='
    &&& forall|i: int| 0 <= i < c.1.len() ==> #[trigger] c.1[i] != ';'
}

/// Cookies as a `Cookie` header lists them.
pub open spec fn cookie_list(cs: Seq<(Seq<char>, Seq<char>)>) -> Seq<char>
    decreases cs.len(),
{
    if cs.len() == 0 {
        seq![]
    } else if cs.len() == 1 {
        cs[0].0 + seq!['='] + cs[0].1
    } else {
        cs[0].0 + seq!['='] + cs[0].1 + (seq![';', ' '] + cookie_list(cs.drop_first()))
    }
}

/// The value of the first cookie with a name.
pub open spec fn first_cookie(cs: Seq<(Seq<char>, Seq<char>)>, name: Seq<char>) -> Option<
    Seq<char>,
>
    decreases cs.len(),
{
    if cs.len() == 0 {
        None
    } else if cs[0].0 == name {
        Some(cs[0].1)
    } else {
        first_cookie(cs.drop_first(), name)
    }
}

/// A pair begins with a name and an equals sign only if that is its name.
proof fn lemma_named(c: (Seq<char>, Seq<char>), name: Seq<char>)
    requires
        forall|i: int| 0 <= i < c.0.len() ==> #[trigger] c.0[i] != '=',
        forall|i: int| 0 <= i < name.len() ==> #[trigger] name[i] != '=',
    ensures
        begins(c.0 + seq!['='] + c.1, name + seq!['=']) <==> c.0 == name,
        c.0 == name ==> (c.0 + seq!['='] + c.1).skip(name.len() as int + 1) == c.1,
{
    let pair = c.0 + seq!['='] + c.1;
    let p = name + seq!['='];
    let n = p.len() as int;
    if c.0 == name {
        assert(pair.take(n) =~= p);
        assert(pair.skip(n) =~= c.1);
    } else if begins(pair, p) {
        let (k, m) = (c.0.len() as int, name.len() as int);
        assert(pair.take(n) == p && p[m] == '=');
        assert(pair.take(n)[m] == pair[m]);
        if m < k {
            assert(c.0[m] == '=');
        } else if k < m {
            assert(pair.take(n)[k] == pair[k]);
            assert(name[k] == '=');
        } else {
            assert forall|i: int| 0 <= i < k implies c.0[i] == name[i] by {
                assert(pair.take(n)[i] == pair[i]);
            }
            assert(c.0 =~= name);
        }
    }
}

proof fn lemma_cookies(lead: Seq<char>, cs: Seq<(Seq<char>, Seq<char>)>, name: Seq<char>)
    requires
        lead.len() == 0 || lead == seq![' '],
        cs.len() > 0,
        forall|i: int| 0 <= i < cs.len() ==> bakeable(#[trigger] cs[i]),
        forall|i: int| 0 <= i < name.len() ==> #[trigger] name[i] != '=',
    ensures
        cookie_in(lead + cookie_list(cs), name + seq!['=']) == first_cookie(cs, name),
    decreases cs.len(),
{
    let c = cs[0];
    assert(bakeable(cs[0]));
    let pair = c.0 + seq!['='] + c.1;
    let front = lead + pair;
    let none = Seq::<char>::empty();
    assert forall|i: int| 0 <= i < front.len() implies #[trigger] front[i] != ';' by {
        let j = i - lead.len();
        if j >= 0 {
            assert(front[i] == pair[j]);
            if j < c.0.len() {
                assert(pair[j] == c.0[j]);
            } else if j > c.0.len() {
                assert(pair[j] == c.1[j - c.0.len() - 1]);
            }
        }
    }
    assert(pair[0] == c.0[0]);
    assert(pair.last() == (if c.1.len() > 0 {
        c.1.last()
    } else {
        '='
    }));
    law_trimmed(lead, pair, none);
    assert(lead + pair + none =~= front);
    lemma_named(c, name);
    let header = lead + cookie_list(cs);
    let end = front.len() as int;
    if cs.len() == 1 {
        assert(header =~= front);
        law_index_of(header, ';', end);
        assert(header.take(end) =~= front);
        assert(cs.drop_first() =~= seq![]);
    } else {
        let later = cs.drop_first();
        let rest = seq![' '] + cookie_list(later);
        assert(header =~= front + seq![';'] + rest);
        law_index_of(header, ';', end);
        assert(header.take(end) =~= front);
        assert(header.skip(end + 1) =~= rest);
        assert forall|i: int| 0 <= i < later.len() implies bakeable(#[trigger] later[i]) by {
            assert(bakeable(cs[i + 1]));
        }
        lemma_cookies(seq![' '], later, name);
    }
}

/// Looking up a cookie in a request gives the value of the first cookie with exactly that name
/// in its `Cookie` header, and nothing without such a header.
pub proof fn law_cookie_lookup(
    text: Seq<char>,
    cs: Seq<(Seq<char>, Seq<char>)>,
    name: Seq<char>,
)
    requires
        cs.len() > 0,
        forall|i: int| 0 <= i < cs.len() ==> bakeable(#[trigger] cs[i]),
        forall|i: int| 0 <= i < name.len() ==> #[trigger] name[i] != '=',
    ensures
        header_of(text, "cookie"@) == Some(cookie_list(cs)) ==> cookie_of(text, name)
            == first_cookie(cs, name),
        header_of(text, "cookie"@) is None ==> cookie_of(text, name) is None,
{
    let none = Seq::<char>::empty();
    lemma_cookies(none, cs, name);
    assert(none + cookie_list(cs) =~= cookie_list(cs));
    reveal_strlit("=");
    assert("="@ =~= seq!['=']);
}

/// The credentials of a request: what follows `Bearer` in its `Authorization` header; without
/// such a header, or with one of another kind, the cookie `picodb_session`.
pub proof fn law_credentials(text: Seq<char>, token: Seq<char>)
    requires
        tight(token),
    ensures
        header_of(text, "authorization"@) == Some("Bearer "@ + token) ==> token_of(text) == Some(
            token,
        ),
        header_of(text, "authorization"@) == Some("bearer "@ + token) ==> token_of(text) == Some(
            token,
        ),
        header_of(text, "authorization"@) is None ==> token_of(text) == cookie_of(
            text,
            "picodb_session"@,
        ),
        header_of(text, "authorization"@) matches Some(h) ==> (h.len() < 7 || h.take(7)
            != "Bearer "@ && h.take(7) != "bearer "@) ==> token_of(text) == cookie_of(
            text,
            "picodb_session"@,
        ),
{
    reveal_strlit("Bearer ");
    reveal_strlit("bearer ");
    let none = Seq::<char>::empty();
    law_trimmed(none, token, none);
    let (b, c) = ("Bearer "@ + token, "bearer "@ + token);
    assert(b.take(7) =~= "Bearer "@ && b.skip(7) =~= token);
    assert(c.take(7) =~= "bearer "@ && c.skip(7) =~= token);
    assert(c.take(7)[0] == 'b' && "Bearer "@[0] == 'B');
}

/// Credentials open a server without a secret, and one whose secret they are.
pub proof fn law_authorized(auth: Option<Seq<u8>>, token: Option<Seq<char>>)
    ensures
        authorized(auth, token) <==> auth is None || (token is Some && auth == Some(
            encode_utf8(token->0),
        )),
{
}

/// What each route is answered, given the right credentials: `/` and `/docs` are pages,
/// `/metrics` and `/api/keys` show data; a POST to `/login` sets the session cookie to the
/// token, one to `/logout` clears it, one to `/aof/rewrite` starts a rewrite; `/ws` opens a
/// WebSocket for the key in the request, or is a bad request without one.
pub proof fn law_routes(auth: Option<Seq<u8>>, method: Seq<char>, text: Seq<char>)
    requires
        authorized(auth, token_of(text)),
    ensures
        routed(auth, "/"@, method, text) == ReplyView::Dashboard,
        routed(auth, "/docs"@, method, text) == ReplyView::Docs,
        routed(auth, "/metrics"@, method, text) == ReplyView::Metrics,
        routed(auth, "/api/keys"@, method, text) == ReplyView::Keys,
        routed(auth, "/aof/rewrite"@, "POST"@, text) == ReplyView::Rewrite,
        token_of(text) matches Some(t) ==> routed(auth, "/login"@, "POST"@, text)
            == ReplyView::Session(cookie_text(t, true)),
        token_of(text) is None ==> routed(auth, "/login"@, "POST"@, text) == ReplyView::Session(
            cookie_text(seq![], true),
        ),
        routed(auth, "/logout"@, "POST"@, text) == ReplyView::Session(cookie_text(seq![], false)),
        header_of(text, "sec-websocket-key"@) matches Some(key) ==> routed(
            auth,
            "/ws"@,
            method,
            text,
        ) == ReplyView::Upgrade(accept_of(key)),
        header_of(text, "sec-websocket-key"@) is None ==> routed(auth, "/ws"@, method, text)
            == ReplyView::Plain(400, "Bad WebSocket Request"@),
{
    lemma_routes_differ();
}

proof fn lemma_routes_differ()
    ensures
        "/"@.len() == 1,
        "/ws"@.len() == 3,
        "/docs"@.len() == 5,
        "/login"@.len() == 6,
        "/logout"@.len() == 7,
        "/metrics"@.len() == 8,
        "/api/keys"@.len() == 9,
        "/aof/rewrite"@.len() == 12,
{
    reveal_strlit("/");
    reveal_strlit("/ws");
    reveal_strlit("/docs");
    reveal_strlit("/login");
    reveal_strlit("/logout");
    reveal_strlit("/metrics");
    reveal_strlit("/api/keys");
    reveal_strlit("/aof/rewrite");
}

/// Whatever the credentials, the pages are open to everybody, and there is nothing at any
/// other route, nor at `/login`, `/logout` and `/aof/rewrite` for a request that is no POST.
pub proof fn law_open_routes(
    auth: Option<Seq<u8>>,
    route: Seq<char>,
    method: Seq<char>,
    text: Seq<char>,
)
    ensures
        routed(auth, "/"@, method, text) == ReplyView::Dashboard,
        routed(auth, "/docs"@, method, text) == ReplyView::Docs,
        routed(auth, "/logout"@, "POST"@, text) == ReplyView::Session(cookie_text(seq![], false)),
        route != "/"@ && route != "/docs"@ && route != "/ws"@ && route != "/metrics"@ && route
            != "/api/keys"@ && (method != "POST"@ || route != "/login"@ && route != "/logout"@
            && route != "/aof/rewrite"@) ==> routed(auth, route, method, text) == ReplyView::Plain(
            404,
            "Not Found"@,
        ),
{
    lemma_routes_differ();
}

/// The status and the content type of each page.
pub proof fn law_page_heads(status: u16, body: Seq<char>)
    ensures
        page_head_of(ReplyView::Dashboard) == Some((200u16, "text/html; charset=utf-8"@)),
        page_head_of(ReplyView::Docs) == Some((200u16, "text/html; charset=utf-8"@)),
        page_head_of(ReplyView::Metrics) == Some((200u16, "text/plain; version=0.0.4"@)),
        page_head_of(ReplyView::Keys) == Some((200u16, "application/json"@)),
        page_head_of(ReplyView::Plain(status, body)) == Some((status, "text/plain"@)),
{
}

/// A rewrite that is started is accepted; one that is running already, or without a log, is a
/// conflict; one too soon after the last is one request too many.
pub proof fn law_rewrite_statuses()
    ensures
        rewrite_answer(RewriteStatus::Started) == (202u16, "rewrite started\n"@),
        rewrite_answer(RewriteStatus::AlreadyRunning) == (409u16, "rewrite already in progress\n"@),
        rewrite_answer(RewriteStatus::Disabled) == (409u16, "AOF disabled\n"@),
        rewrite_answer(RewriteStatus::TooSoon) == (429u16, "rewrite rate limited\n"@),
{
}

proof fn lemma_header_lines_concat(
    a: Seq<(Seq<char>, Seq<char>)>,
    b: Seq<(Seq<char>, Seq<char>)>,
)
    ensures
        header_lines(a + b) == header_lines(a) + header_lines(b),
    decreases a.len(),
{
    if a.len() == 0 {
        assert(a + b =~= b);
        assert(header_lines(a) + header_lines(b) =~= header_lines(b));
    } else {
        lemma_header_lines_concat(a.drop_first(), b);
        assert((a + b).drop_first() =~= a.drop_first() + b);
        assert(header_lines(a + b) =~= header_lines(a) + header_lines(b));
    }
}

proof fn lemma_header_lines_one(h: (Seq<char>, Seq<char>))
    ensures
        header_lines(seq![h]) == header_line(h),
{
    assert(seq![h].drop_first() =~= seq![]);
    assert(header_line(h) + header_lines(seq![]) =~= header_line(h));
}

proof fn lemma_header_lines_push(hs: Seq<(Seq<char>, Seq<char>)>, h: (Seq<char>, Seq<char>))
    ensures
        header_lines(hs.push(h)) == header_lines(hs) + header_line(h),
{
    lemma_header_lines_concat(hs, seq![h]);
    lemma_header_lines_one(h);
    assert(hs + seq![h] =~= hs.push(h));
}

/// The first line of a response.
pub open spec fn status_line(status: u16, reason: Seq<char>) -> Seq<char> {
    "HTTP/1.1 "@ + decimal(status as nat) + " "@ + reason
}

/// The headers of a response with a body.
spec fn response_headers(status: u16, ctype: Seq<char>, len: nat) -> Seq<(Seq<char>, Seq<char>)> {
    let none = Seq::<(Seq<char>, Seq<char>)>::empty();
    let hs = none.push(("Content-Type"@, ctype)).push(("Content-Length"@, decimal(len)));
    let all = if status == 401 {
        hs.push(("WWW-Authenticate"@, "Bearer"@))
    } else {
        hs
    };
    all.push(("Cache-Control"@, "no-store"@)).push(("Connection"@, "close"@))
}

/// The reason phrase that goes with a status.
pub open spec fn phrase(status: u16) -> Seq<char> {
    match status {
        202u16 => "Accepted"@,
        400u16 => "Bad Request"@,
        401u16 => "Unauthorized"@,
        404u16 => "Not Found"@,
        409u16 => "Conflict"@,
        _ => "OK"@,
    }
}

#[verifier::rlimit(40)]
proof fn lemma_literal_ends()
    ensures
        "Cache-Control: no-store\r\nConnection: close\r\n\r\n"@ == header_line(
            ("Cache-Control"@, "no-store"@),
        ) + header_line(("Connection"@, "close"@)) + eol(),
        "\r\nCache-Control: no-store\r\nConnection: close\r\n\r\n"@ == eol() + header_line(
            ("Cache-Control"@, "no-store"@),
        ) + header_line(("Connection"@, "close"@)) + eol(),
{
    reveal_strlit("Cache-Control: no-store\r\nConnection: close\r\n\r\n");
    reveal_strlit("\r\nCache-Control: no-store\r\nConnection: close\r\n\r\n");
    reveal_strlit("Cache-Control");
    reveal_strlit("no-store");
    reveal_strlit("Connection");
    reveal_strlit("close");
    let t = header_line(("Cache-Control"@, "no-store"@)) + header_line(
        ("Connection"@, "close"@),
    ) + eol();
    assert("Cache-Control: no-store\r\nConnection: close\r\n\r\n"@ =~= t);
    assert("\r\nCache-Control: no-store\r\nConnection: close\r\n\r\n"@ =~= eol() + header_line(
        ("Cache-Control"@, "no-store"@),
    ) + header_line(("Connection"@, "close"@)) + eol());
}

proof fn lemma_literal_labels()
    ensures
        "\r\nContent-Type: "@ == eol() + "Content-Type"@ + seq![':', ' '],
        "\r\nContent-Length: "@ == eol() + "Content-Length"@ + seq![':', ' '],
        "\r\n"@ == eol(),
        "WWW-Authenticate: Bearer\r\n"@ == header_line(("WWW-Authenticate"@, "Bearer"@)),
        ""@ == Seq::<char>::empty(),
{
    reveal_strlit("\r\nContent-Type: ");
    reveal_strlit("Content-Type");
    reveal_strlit("\r\nContent-Length: ");
    reveal_strlit("Content-Length");
    reveal_strlit("\r\n");
    reveal_strlit("WWW-Authenticate: Bearer\r\n");
    reveal_strlit("WWW-Authenticate");
    reveal_strlit("Bearer");
    reveal_strlit("");
    assert("\r\nContent-Type: "@ =~= eol() + "Content-Type"@ + seq![':', ' ']);
    assert("\r\nContent-Length: "@ =~= eol() + "Content-Length"@ + seq![':', ' ']);
    assert("\r\n"@ =~= eol());
    assert("WWW-Authenticate: Bearer\r\n"@ =~= header_line(("WWW-Authenticate"@, "Bearer"@)));
    assert(""@ =~= Seq::<char>::empty());
}

/// The head of a response, line by line.
#[verifier::rlimit(40)]
proof fn lemma_response_head(status: u16, ctype: Seq<char>, len: nat)
    ensures
        response_head(status, ctype, len) == head_text(
            status_line(status, phrase(status)),
            response_headers(status, ctype, len),
        ),
{
    lemma_literal_ends();
    lemma_literal_labels();
    let first = status_line(status, phrase(status));
    let none = Seq::<(Seq<char>, Seq<char>)>::empty();
    let (a, b, w) = (
        ("Content-Type"@, ctype),
        ("Content-Length"@, decimal(len)),
        ("WWW-Authenticate"@, "Bearer"@),
    );
    let (y, z) = (("Cache-Control"@, "no-store"@), ("Connection"@, "close"@));
    let two = none.push(a).push(b);
    let all = if status == 401 {
        two.push(w)
    } else {
        two
    };
    let middle = if status == 401 {
        header_line(w)
    } else {
        Seq::<char>::empty()
    };
    lemma_header_lines_push(none, a);
    lemma_header_lines_push(none.push(a), b);
    lemma_header_lines_push(two, w);
    lemma_header_lines_push(all, y);
    lemma_header_lines_push(all.push(y), z);
    assert(header_lines(two) =~= header_line(a) + header_line(b));
    assert(header_lines(all) =~= header_line(a) + header_line(b) + middle);
    let text = first + "\r\nContent-Type: "@ + ctype + "\r\nContent-Length: "@ + decimal(len)
        + "\r\n"@ + middle;
    assert(text =~= first + eol() + header_lines(all));
    let tail = header_line(y) + header_line(z) + eol();
    assert(response_head(status, ctype, len) == text + tail);
    assert(header_lines(all.push(y).push(z)) == header_lines(all) + header_line(y) + header_line(z));
    assert(text + tail =~= first + eol() + (header_lines(all) + header_line(y) + header_line(z))
        + eol());
}

proof fn lemma_digits(n: nat)
    ensures
        decimal(n).len() > 0,
        forall|i: int| 0 <= i < decimal(n).len() ==> '0' <= #[trigger] decimal(n)[i] <= '9',
    decreases n,
{
    if n >= 10 {
        lemma_digits(n / 10);
        assert forall|i: int| 0 <= i < decimal(n).len() implies '0' <= #[trigger] decimal(n)[i]
            <= '9' by {
            if i < decimal(n / 10).len() {
                assert(decimal(n)[i] == decimal(n / 10)[i]);
            }
        }
    }
}

proof fn lemma_status_line(status: u16)
    ensures
        on_a_line(status_line(status, phrase(status))),
{
    lemma_digits(status as nat);
    reveal_strlit("HTTP/1.1 ");
    reveal_strlit(" ");
    reveal_strlit("OK");
    reveal_strlit("Accepted");
    reveal_strlit("Bad Request");
    reveal_strlit("Unauthorized");
    reveal_strlit("Not Found");
    reveal_strlit("Conflict");
    let d = decimal(status as nat);
    let line = status_line(status, phrase(status));
    assert(on_a_line(phrase(status)));
    assert forall|i: int| 0 <= i < line.len() implies #[trigger] line[i] != '\r' by {
        if i < 9 {
            assert(line[i] == "HTTP/1.1 "@[i]);
        } else if i < 9 + d.len() {
            assert(line[i] == d[i - 9]);
        } else if i > 9 + d.len() {
            assert(line[i] == phrase(status)[i - 10 - d.len()]);
        }
    }
}

proof fn lemma_content_type_header(value: Seq<char>)
    requires
        on_a_line(value),
        tight(value),
    ensures
        writable(("Content-Type"@, value)),
        "Content-Type"@.len() == 12,
        "content-type"@.len() == 12,
        same_ignoring_case("Content-Type"@, "content-type"@),
{
    reveal_strlit("Content-Type");
    reveal_strlit("content-type");
    law_case_does_not_matter("Content-Type"@, "content-type"@);
}

proof fn lemma_content_length_header(value: Seq<char>)
    requires
        on_a_line(value),
        tight(value),
    ensures
        writable(("Content-Length"@, value)),
        "Content-Length"@.len() == 14,
        "content-length"@.len() == 14,
        same_ignoring_case("Content-Length"@, "content-length"@),
{
    reveal_strlit("Content-Length");
    reveal_strlit("content-length");
    law_case_does_not_matter("Content-Length"@, "content-length"@);
}

proof fn lemma_www_authenticate_header(value: Seq<char>)
    requires
        on_a_line(value),
        tight(value),
    ensures
        writable(("WWW-Authenticate"@, value)),
        "WWW-Authenticate"@.len() == 16,
        "www-authenticate"@.len() == 16,
        same_ignoring_case("WWW-Authenticate"@, "www-authenticate"@),
{
    reveal_strlit("WWW-Authenticate");
    reveal_strlit("www-authenticate");
    law_case_does_not_matter("WWW-Authenticate"@, "www-authenticate"@);
}

proof fn lemma_cache_control_header(value: Seq<char>)
    requires
        on_a_line(value),
        tight(value),
    ensures
        writable(("Cache-Control"@, value)),
        "Cache-Control"@.len() == 13,
        "cache-control"@.len() == 13,
        same_ignoring_case("Cache-Control"@, "cache-control"@),
{
    reveal_strlit("Cache-Control");
    reveal_strlit("cache-control");
    law_case_does_not_matter("Cache-Control"@, "cache-control"@);
}

proof fn lemma_connection_header(value: Seq<char>)
    requires
        on_a_line(value),
        tight(value),
    ensures
        writable(("Connection"@, value)),
        "Connection"@.len() == 10,
        "connection"@.len() == 10,
        same_ignoring_case("Connection"@, "connection"@),
{
    reveal_strlit("Connection");
    reveal_strlit("connection");
    law_case_does_not_matter("Connection"@, "connection"@);
}

proof fn lemma_set_cookie_header(value: Seq<char>)
    requires
        on_a_line(value),
        tight(value),
    ensures
        writable(("Set-Cookie"@, value)),
        "Set-Cookie"@.len() == 10,
        "set-cookie"@.len() == 10,
        same_ignoring_case("Set-Cookie"@, "set-cookie"@),
{
    reveal_strlit("Set-Cookie");
    reveal_strlit("set-cookie");
    law_case_does_not_matter("Set-Cookie"@, "set-cookie"@);
}

proof fn lemma_upgrade_header(value: Seq<char>)
    requires
        on_a_line(value),
        tight(value),
    ensures
        writable(("Upgrade"@, value)),
        "Upgrade"@.len() == 7,
        "upgrade"@.len() == 7,
        same_ignoring_case("Upgrade"@, "upgrade"@),
{
    reveal_strlit("Upgrade");
    reveal_strlit("upgrade");
    law_case_does_not_matter("Upgrade"@, "upgrade"@);
}

proof fn lemma_sec_websocket_accept_header(value: Seq<char>)
    requires
        on_a_line(value),
        tight(value),
    ensures
        writable(("Sec-WebSocket-Accept"@, value)),
        "Sec-WebSocket-Accept"@.len() == 20,
        "sec-websocket-accept"@.len() == 20,
        same_ignoring_case("Sec-WebSocket-Accept"@, "sec-websocket-accept"@),
{
    reveal_strlit("Sec-WebSocket-Accept");
    reveal_strlit("sec-websocket-accept");
    law_case_does_not_matter("Sec-WebSocket-Accept"@, "sec-websocket-accept"@);
}

proof fn lemma_values()
    ensures
        on_a_line("no-store"@) && tight("no-store"@),
        on_a_line("close"@) && tight("close"@),
        on_a_line("Bearer"@) && tight("Bearer"@),
        on_a_line("websocket"@) && tight("websocket"@),
        on_a_line("Upgrade"@) && tight("Upgrade"@),
{
    reveal_strlit("no-store");
    reveal_strlit("close");
    reveal_strlit("Bearer");
    reveal_strlit("websocket");
    reveal_strlit("Upgrade");
}

/// Names of different lengths differ.
proof fn lemma_other_length(a: Seq<char>, b: Seq<char>)
    requires
        a.len() != b.len(),
    ensures
        !same_ignoring_case(a, b),
{
    law_case_does_not_matter(a, b);
}

/// Looking for a name past a header with another.
proof fn lemma_first_named_push(
    hs: Seq<(Seq<char>, Seq<char>)>,
    h: (Seq<char>, Seq<char>),
    name: Seq<char>,
)
    ensures
        first_named(hs.push(h), name) == (match first_named(hs, name) {
            Some(v) => Some(v),
            None => if same_ignoring_case(h.0, name) {
                Some(h.1)
            } else {
                None
            },
        }),
    decreases hs.len(),
{
    if hs.len() == 0 {
        let none = Seq::<(Seq<char>, Seq<char>)>::empty();
        assert(hs.push(h).drop_first() =~= none);
        assert(first_named(none, name) is None);
        assert(hs.push(h)[0] == h);
    } else {
        assert(hs.push(h)[0] == hs[0]);
        lemma_first_named_push(hs.drop_first(), h, name);
        assert(hs.push(h).drop_first() =~= hs.drop_first().push(h));
    }
}

/// The headers of a response, by name.
proof fn lemma_response_headers(status: u16, ctype: Seq<char>, len: nat, name: Seq<char>)
    requires
        on_a_line(ctype),
        tight(ctype),
    ensures
        ({
            let hs = response_headers(status, ctype, len);
            &&& forall|i: int| 0 <= i < hs.len() ==> writable(#[trigger] hs[i])
            &&& first_named(hs, name) == (if same_ignoring_case("Content-Type"@, name) {
                Some(ctype)
            } else if same_ignoring_case("Content-Length"@, name) {
                Some(decimal(len))
            } else if status == 401 && same_ignoring_case("WWW-Authenticate"@, name) {
                Some("Bearer"@)
            } else if same_ignoring_case("Cache-Control"@, name) {
                Some("no-store"@)
            } else if same_ignoring_case("Connection"@, name) {
                Some("close"@)
            } else {
                None
            })
        }),
{
    lemma_digits(len);
    lemma_values();
    lemma_content_type_header(ctype);
    lemma_content_length_header(decimal(len));
    lemma_www_authenticate_header("Bearer"@);
    lemma_cache_control_header("no-store"@);
    lemma_connection_header("close"@);
    let none = Seq::<(Seq<char>, Seq<char>)>::empty();
    let (a, b, w) = (
        ("Content-Type"@, ctype),
        ("Content-Length"@, decimal(len)),
        ("WWW-Authenticate"@, "Bearer"@),
    );
    let (y, z) = (("Cache-Control"@, "no-store"@), ("Connection"@, "close"@));
    let two = none.push(a).push(b);
    let all = if status == 401 {
        two.push(w)
    } else {
        two
    };
    lemma_first_named_push(none, a, name);
    lemma_first_named_push(none.push(a), b, name);
    lemma_first_named_push(two, w, name);
    lemma_first_named_push(all, y, name);
    lemma_first_named_push(all.push(y), z, name);
}

/// What a client reads in the head of a response: the status with its reason on the first line,
/// the type and the length of the body, that nothing is to be stored, that the connection is
/// closed, and, if credentials are missing, which kind is asked for.
#[verifier::rlimit(40)]
pub proof fn law_response_head(status: u16, ctype: Seq<char>, len: nat, body: Seq<char>)
    requires
        on_a_line(ctype),
        tight(ctype),
    ensures
        ({
            let text = response_head(status, ctype, len) + body;
            let line = status_line(status, phrase(status));
            &&& text.take(line.len() as int) == line
            &&& line_end(text) == line.len()
            &&& header_of(text, "content-type"@) == Some(ctype)
            &&& header_of(text, "content-length"@) == Some(decimal(len))
            &&& header_of(text, "cache-control"@) == Some("no-store"@)
            &&& header_of(text, "connection"@) == Some("close"@)
            &&& header_of(text, "www-authenticate"@) == (if status == 401 {
                Some("Bearer"@)
            } else {
                None
            })
        }),
{
    let text = response_head(status, ctype, len) + body;
    let line = status_line(status, phrase(status));
    let hs = response_headers(status, ctype, len);
    lemma_response_head(status, ctype, len);
    lemma_status_line(status);
    lemma_digits(len);
    lemma_values();
    lemma_content_type_header(ctype);
    lemma_content_length_header(decimal(len));
    lemma_www_authenticate_header("Bearer"@);
    lemma_cache_control_header("no-store"@);
    lemma_connection_header("close"@);
    assert(text.take(line.len() as int) =~= line);
    let rest = header_lines(hs) + eol() + body;
    assert(text =~= line + eol() + rest);
    lemma_line_end(line, rest);
    lemma_response_lookup(status, ctype, len, body, "content-type"@);
    lemma_response_lookup(status, ctype, len, body, "content-length"@);
    lemma_response_lookup(status, ctype, len, body, "www-authenticate"@);
    lemma_response_lookup(status, ctype, len, body, "cache-control"@);
    lemma_response_lookup(status, ctype, len, body, "connection"@);
}

proof fn lemma_response_lookup(
    status: u16,
    ctype: Seq<char>,
    len: nat,
    body: Seq<char>,
    name: Seq<char>,
)
    requires
        on_a_line(ctype),
        tight(ctype),
    ensures
        ({
            let found = header_of(response_head(status, ctype, len) + body, name);
            &&& name.len() == 12 ==> found == (if same_ignoring_case("Content-Type"@, name) {
                Some(ctype)
            } else {
                None
            })
            &&& name.len() == 14 ==> found == (if same_ignoring_case("Content-Length"@, name) {
                Some(decimal(len))
            } else {
                None
            })
            &&& name.len() == 16 ==> found == (if status == 401 && same_ignoring_case(
                "WWW-Authenticate"@,
                name,
            ) {
                Some("Bearer"@)
            } else {
                None
            })
            &&& name.len() == 13 ==> found == (if same_ignoring_case("Cache-Control"@, name) {
                Some("no-store"@)
            } else {
                None
            })
            &&& name.len() == 10 ==> found == (if same_ignoring_case("Connection"@, name) {
                Some("close"@)
            } else {
                None
            })
        }),
{
    lemma_response_head(status, ctype, len);
    lemma_status_line(status);
    lemma_response_headers(status, ctype, len, name);
    law_header_lookup(
        status_line(status, phrase(status)),
        response_headers(status, ctype, len),
        body,
        name,
    );
    lemma_digits(len);
    lemma_values();
    lemma_content_type_header(ctype);
    lemma_content_length_header(decimal(len));
    lemma_www_authenticate_header("Bearer"@);
    lemma_cache_control_header("no-store"@);
    lemma_connection_header("close"@);
    law_case_does_not_matter("Content-Type"@, name);
    law_case_does_not_matter("Content-Length"@, name);
    law_case_does_not_matter("WWW-Authenticate"@, name);
    law_case_does_not_matter("Cache-Control"@, name);
    law_case_does_not_matter("Connection"@, name);
}

/// What a client reads in the response to a login or a logout: status 204, and the cookie.
#[verifier::rlimit(40)]
pub proof fn law_session_head(cookie: Seq<char>)
    requires
        on_a_line(cookie),
        tight(cookie),
    ensures
        header_of(session_head(cookie), "set-cookie"@) == Some(cookie),
        header_of(session_head(cookie), "cache-control"@) == Some("no-store"@),
        header_of(session_head(cookie), "connection"@) == Some("close"@),
        begins(session_head(cookie), "HTTP/1.1 204 No Content"@ + eol()),
{
    let first = "HTTP/1.1 204 No Content"@;
    let none = Seq::<(Seq<char>, Seq<char>)>::empty();
    let (a, y, z) = (
        ("Set-Cookie"@, cookie),
        ("Cache-Control"@, "no-store"@),
        ("Connection"@, "close"@),
    );
    let hs = none.push(a).push(y).push(z);
    lemma_values();
    lemma_set_cookie_header(cookie);
    lemma_cache_control_header("no-store"@);
    lemma_connection_header("close"@);
    lemma_literal_ends();
    lemma_header_lines_push(none, a);
    lemma_header_lines_push(none.push(a), y);
    lemma_header_lines_push(none.push(a).push(y), z);
    assert("HTTP/1.1 204 No Content\r\nSet-Cookie: "@ == first + eol() + "Set-Cookie"@ + seq![
        ':',
        ' ',
    ] && on_a_line(first)) by {
        reveal_strlit("HTTP/1.1 204 No Content\r\nSet-Cookie: ");
        reveal_strlit("HTTP/1.1 204 No Content");
        reveal_strlit("Set-Cookie");
        assert("HTTP/1.1 204 No Content\r\nSet-Cookie: "@ =~= first + eol() + "Set-Cookie"@
            + seq![':', ' ']);
    }
    let text = session_head(cookie);
    assert(text =~= head_text(first, hs));
    let body = Seq::<char>::empty();
    assert(text + body =~= text);
    law_header_lookup(first, hs, body, "set-cookie"@);
    law_header_lookup(first, hs, body, "cache-control"@);
    law_header_lookup(first, hs, body, "connection"@);
    lemma_other_length("Set-Cookie"@, "cache-control"@);
    lemma_other_length("Cache-Control"@, "connection"@);
    law_case_does_not_matter("Set-Cookie"@, "connection"@);
    assert(!same_ignoring_case("Set-Cookie"@, "connection"@)) by {
        reveal_strlit("Set-Cookie");
        reveal_strlit("connection");
        assert("Set-Cookie"@[0] == 'S' && "connection"@[0] == 'c');
    }
    lemma_first_named_push(none, a, "cache-control"@);
    lemma_first_named_push(none.push(a), y, "cache-control"@);
    lemma_first_named_push(none.push(a).push(y), z, "cache-control"@);
    lemma_first_named_push(none, a, "connection"@);
    lemma_first_named_push(none.push(a), y, "connection"@);
    lemma_first_named_push(none.push(a).push(y), z, "connection"@);
    let start = first + eol();
    assert(text.take(start.len() as int) =~= start);
}

/// What a client reads in the response that opens a WebSocket: status 101, the upgrade, and the
/// accept key.
#[verifier::rlimit(40)]
pub proof fn law_upgrade_head(accept: Seq<char>)
    requires
        on_a_line(accept),
        tight(accept),
    ensures
        header_of(upgrade_head(accept), "sec-websocket-accept"@) == Some(accept),
        header_of(upgrade_head(accept), "upgrade"@) == Some("websocket"@),
        header_of(upgrade_head(accept), "connection"@) == Some("Upgrade"@),
        begins(upgrade_head(accept), "HTTP/1.1 101 Switching Protocols"@ + eol()),
{
    let first = "HTTP/1.1 101 Switching Protocols"@;
    let none = Seq::<(Seq<char>, Seq<char>)>::empty();
    let (a, b, c) = (
        ("Upgrade"@, "websocket"@),
        ("Connection"@, "Upgrade"@),
        ("Sec-WebSocket-Accept"@, accept),
    );
    let hs = none.push(a).push(b).push(c);
    lemma_values();
    lemma_upgrade_header("websocket"@);
    lemma_connection_header("Upgrade"@);
    lemma_sec_websocket_accept_header(accept);
    lemma_header_lines_push(none, a);
    lemma_header_lines_push(none.push(a), b);
    lemma_header_lines_push(none.push(a).push(b), c);
    lemma_upgrade_literal();
    reveal_strlit("\r\n\r\n");
    assert("\r\n\r\n"@ =~= eol() + eol());
    let text = upgrade_head(accept);
    assert(text =~= head_text(first, hs));
    assert(on_a_line(first)) by {
        reveal_strlit("HTTP/1.1 101 Switching Protocols");
    }
    let body = Seq::<char>::empty();
    assert(text + body =~= text);
    law_header_lookup(first, hs, body, "upgrade"@);
    law_header_lookup(first, hs, body, "connection"@);
    law_header_lookup(first, hs, body, "sec-websocket-accept"@);
    lemma_other_length("Upgrade"@, "connection"@);
    lemma_other_length("Upgrade"@, "sec-websocket-accept"@);
    lemma_other_length("Connection"@, "sec-websocket-accept"@);
    lemma_first_named_push(none, a, "connection"@);
    lemma_first_named_push(none.push(a), b, "connection"@);
    lemma_first_named_push(none.push(a).push(b), c, "connection"@);
    lemma_first_named_push(none, a, "sec-websocket-accept"@);
    lemma_first_named_push(none.push(a), b, "sec-websocket-accept"@);
    lemma_first_named_push(none.push(a).push(b), c, "sec-websocket-accept"@);
    let start = first + eol();
    assert(text.take(start.len() as int) =~= start);
}

proof fn lemma_upgrade_literal()
    ensures
        "HTTP/1.1 101 Switching Protocols\r\nUpgrade: websocket\r\nConnection: Upgrade\r\nSec-WebSocket-Accept: "@
            == "HTTP/1.1 101 Switching Protocols"@ + eol() + header_line(
            ("Upgrade"@, "websocket"@),
        ) + header_line(("Connection"@, "Upgrade"@)) + "Sec-WebSocket-Accept"@ + seq![':', ' '],
{
    reveal_strlit(
        "HTTP/1.1 101 Switching Protocols\r\nUpgrade: websocket\r\nConnection: Upgrade\r\nSec-WebSocket-Accept: ",
    );
    reveal_strlit("HTTP/1.1 101 Switching Protocols");
    reveal_strlit("Upgrade");
    reveal_strlit("websocket");
    reveal_strlit("Connection");
    reveal_strlit("Sec-WebSocket-Accept");
    let t = "HTTP/1.1 101 Switching Protocols"@ + eol() + header_line(("Upgrade"@, "websocket"@))
        + header_line(("Connection"@, "Upgrade"@)) + "Sec-WebSocket-Accept"@ + seq![':', ' '];
    assert("HTTP/1.1 101 Switching Protocols\r\nUpgrade: websocket\r\nConnection: Upgrade\r\nSec-WebSocket-Accept: "@
        =~= t);
}

/// Reading one piece of a list whose pieces are separated by semicolons.
proof fn lemma_piece(lead: Seq<char>, piece: Seq<char>, rest: Seq<char>, p: Seq<char>)
    requires
        lead.len() == 0 || lead == seq![' '],
        piece.len() > 0,
        tight(piece),
        forall|i: int| 0 <= i < piece.len() ==> #[trigger] piece[i] != ';',
    ensures
        cookie_in(lead + piece + seq![';'] + rest, p) == (if begins(piece, p) {
            Some(piece.skip(p.len() as int))
        } else {
            cookie_in(rest, p)
        }),
        cookie_in(lead + piece, p) == (if begins(piece, p) {
            Some(piece.skip(p.len() as int))
        } else {
            None
        }),
{
    let front = lead + piece;
    let s = front + seq![';'] + rest;
    let n = front.len() as int;
    let none = Seq::<char>::empty();
    assert forall|i: int| 0 <= i < n implies front[i] != ';' by {
        if i >= lead.len() {
            assert(front[i] == piece[i - lead.len()]);
        }
    }
    law_index_of(s, ';', n);
    law_index_of(front, ';', n);
    law_trimmed(lead, piece, none);
    assert(lead + piece + none =~= front);
    assert(s.take(n) =~= front);
    assert(front.take(n) =~= front);
    assert(s.skip(n + 1) =~= rest);
}

/// A text that begins with another character does not begin with a text.
proof fn lemma_other_start(a: Seq<char>, p: Seq<char>)
    requires
        a.len() > 0,
        p.len() > 0,
        a[0] != p[0],
    ensures
        !begins(a, p),
{
    if begins(a, p) {
        assert(a.take(p.len() as int)[0] == a[0]);
    }
}

/// What a browser reads in the cookie that a login sets: the token; that scripts are not to see
/// it, that it goes to this site alone, with every path of it, and for a day. A logout empties
/// the cookie and ends it at once.
pub proof fn law_session_cookie(token: Seq<char>)
    requires
        forall|i: int| 0 <= i < token.len() ==> #[trigger] token[i] != ';',
        token.len() > 0 ==> !white(token.last()),
    ensures
        ({
            let c = cookie_text(token, true);
            &&& cookie_in(c, "picodb_session="@) == Some(token)
            &&& cookie_in(c, "HttpOnly"@) == Some(Seq::<char>::empty())
            &&& cookie_in(c, "SameSite="@) == Some("Strict"@)
            &&& cookie_in(c, "Path="@) == Some("/"@)
            &&& cookie_in(c, "Max-Age="@) == Some("86400"@)
        }),
        ({
            let c = cookie_text(token, false);
            &&& cookie_in(c, "picodb_session="@) == Some(Seq::<char>::empty())
            &&& cookie_in(c, "HttpOnly"@) == Some(Seq::<char>::empty())
            &&& cookie_in(c, "SameSite="@) == Some("Strict"@)
            &&& cookie_in(c, "Path="@) == Some("/"@)
            &&& cookie_in(c, "Max-Age="@) == Some("0"@)
        }),
{
    lemma_cookie_texts(token);
    lemma_attributes(token, "86400"@);
    lemma_attributes(seq![], "0"@);
}

/// The cookie of a session: its value, and the attributes with an age.
spec fn session_text(token: Seq<char>, age: Seq<char>) -> Seq<char> {
    "picodb_session="@ + token + seq![';'] + (seq![' '] + "HttpOnly"@ + seq![';'] + (seq![' ']
        + "SameSite=Strict"@ + seq![';'] + (seq![' '] + "Path=/"@ + seq![';'] + (seq![' ']
        + ("Max-Age="@ + age)))))
}

#[verifier::rlimit(40)]
proof fn lemma_cookie_texts(token: Seq<char>)
    ensures
        cookie_text(token, true) == session_text(token, "86400"@),
        cookie_text(token, false) == session_text(seq![], "0"@),
        "86400"@.len() == 5 && "86400"@[0] == '8' && "86400"@[1] == '6' && "86400"@[2] == '4'
            && "86400"@[3] == '0' && "86400"@[4] == '0',
        "0"@.len() == 1 && "0"@[0] == '0',
{
    reveal_strlit("picodb_session=");
    reveal_strlit("; HttpOnly; SameSite=Strict; Path=/; Max-Age=86400");
    reveal_strlit("picodb_session=; HttpOnly; SameSite=Strict; Path=/; Max-Age=0");
    reveal_strlit("HttpOnly");
    reveal_strlit("SameSite=Strict");
    reveal_strlit("Path=/");
    reveal_strlit("Max-Age=");
    reveal_strlit("86400");
    reveal_strlit("0");
    let tail = |age: Seq<char>|
        seq![';'] + (seq![' '] + "HttpOnly"@ + seq![';'] + (seq![' '] + "SameSite=Strict"@ + seq![
            ';',
        ] + (seq![' '] + "Path=/"@ + seq![';'] + (seq![' '] + ("Max-Age="@ + age)))));
    assert("; HttpOnly; SameSite=Strict; Path=/; Max-Age=86400"@ =~= tail("86400"@));
    assert(session_text(token, "86400"@) =~= "picodb_session="@ + token + tail("86400"@));
    assert("picodb_session=; HttpOnly; SameSite=Strict; Path=/; Max-Age=0"@
        =~= "picodb_session="@ + Seq::<char>::empty() + tail("0"@));
    assert(session_text(seq![], "0"@) =~= "picodb_session="@ + Seq::<char>::empty() + tail("0"@));
}

/// The pieces of the cookie of a session.
#[verifier::rlimit(40)]
proof fn lemma_attributes(token: Seq<char>, age: Seq<char>)
    requires
        forall|i: int| 0 <= i < token.len() ==> #[trigger] token[i] != ';',
        token.len() > 0 ==> !white(token.last()),
        age.len() > 0,
        forall|i: int| 0 <= i < age.len() ==> '0' <= #[trigger] age[i] <= '9',
    ensures
        ({
            let c = session_text(token, age);
            &&& cookie_in(c, "picodb_session="@) == Some(token)
            &&& cookie_in(c, "HttpOnly"@) == Some(Seq::<char>::empty())
            &&& cookie_in(c, "SameSite="@) == Some("Strict"@)
            &&& cookie_in(c, "Path="@) == Some("/"@)
            &&& cookie_in(c, "Max-Age="@) == Some(age)
        }),
{
    reveal_strlit("picodb_session=");
    reveal_strlit("HttpOnly");
    reveal_strlit("SameSite=Strict");
    reveal_strlit("SameSite=");
    reveal_strlit("Strict");
    reveal_strlit("Path=/");
    reveal_strlit("Path=");
    reveal_strlit("/");
    reveal_strlit("Max-Age=");
    let none = Seq::<char>::empty();
    let (p1, p2, p3, p4, p5) = (
        "picodb_session="@ + token,
        "HttpOnly"@,
        "SameSite=Strict"@,
        "Path=/"@,
        "Max-Age="@ + age,
    );
    let sp = seq![' '];
    let r4 = sp + p5;
    let r3 = sp + p4 + seq![';'] + r4;
    let r2 = sp + p3 + seq![';'] + r3;
    let r1 = sp + p2 + seq![';'] + r2;
    let c = session_text(token, age);
    assert(c =~= none + p1 + seq![';'] + r1);
    assert(p1[0] == 'p');
    assert(p1.last() == (if token.len() > 0 {
        token.last()
    } else {
        '='
    }));
    assert forall|i: int| 0 <= i < p1.len() implies #[trigger] p1[i] != ';' by {
        if i >= 15 {
            assert(p1[i] == token[i - 15]);
        }
    }
    assert(p5[0] == 'M');
    assert(p5.last() == age.last());
    assert forall|i: int| 0 <= i < p5.len() implies #[trigger] p5[i] != ';' by {
        if i >= 8 {
            assert(p5[i] == age[i - 8]);
        }
    }
    let (q1, q2, q3, q4, q5) = (
        "picodb_session="@,
        "HttpOnly"@,
        "SameSite="@,
        "Path="@,
        "Max-Age="@,
    );
    assert(p1.take(15) =~= q1 && p1.skip(15) =~= token);
    assert(p2.take(8) =~= q2 && p2.skip(8) =~= none);
    assert(p3.take(9) =~= q3 && p3.skip(9) =~= "Strict"@);
    assert(p4.take(5) =~= q4 && p4.skip(5) =~= "/"@);
    assert(p5.take(8) =~= q5 && p5.skip(8) =~= age);
    lemma_piece(none, p1, r1, q1);
    lemma_other_start(p1, q2);
    lemma_piece(none, p1, r1, q2);
    lemma_piece(sp, p2, r2, q2);
    lemma_other_start(p1, q3);
    lemma_other_start(p2, q3);
    lemma_piece(none, p1, r1, q3);
    lemma_piece(sp, p2, r2, q3);
    lemma_piece(sp, p3, r3, q3);
    lemma_other_start(p1, q4);
    lemma_other_start(p2, q4);
    lemma_other_start(p3, q4);
    lemma_piece(none, p1, r1, q4);
    lemma_piece(sp, p2, r2, q4);
    lemma_piece(sp, p3, r3, q4);
    lemma_piece(sp, p4, r4, q4);
    lemma_other_start(p1, q5);
    lemma_other_start(p2, q5);
    lemma_other_start(p3, q5);
    lemma_other_start(p4, q5);
    lemma_piece(none, p1, r1, q5);
    lemma_piece(sp, p2, r2, q5);
    lemma_piece(sp, p3, r3, q5);
    lemma_piece(sp, p4, r4, q5);
    lemma_piece(sp, p5, none, q5);
}

/// A request with complete headers is answered by its route, without the query string, its
/// method and its credentials.
pub proof fn law_request_is_routed(
    auth: Option<Seq<u8>>,
    req: Seq<u8>,
    text: Seq<char>,
    method: Seq<char>,
    target: Seq<char>,
)
    requires
        sub_index(req, seq![13u8, 10u8, 13u8, 10u8]) is Some,
        target_of(req) == Some(target),
        method_of(req) == Some(method),
    ensures
        received_answer_of(auth, req, text) == routed(auth, route_of(target), method, text),
{
    assert(blank_line() =~= seq![13u8, 10u8, 13u8, 10u8]);
}

/// Whether a text is white space on one line.
pub open spec fn blank(t: Seq<char>) -> bool {
    forall|i: int| 0 <= i < t.len() ==> white(#[trigger] t[i]) && t[i] != '\r'
}

/// How a line of headers is read: white space around the name and around the value does not
/// count, and what follows the first colon is the value, colons and all. A line without a
/// colon is passed over. The last line needs no end.
#[verifier::rlimit(40)]
pub proof fn law_header_line(
    first: Seq<char>,
    pads: (Seq<char>, Seq<char>, Seq<char>, Seq<char>),
    name: Seq<char>,
    value: Seq<char>,
    rest: Seq<char>,
    q: Seq<char>,
)
    requires
        on_a_line(first),
        blank(pads.0) && blank(pads.1) && blank(pads.2) && blank(pads.3),
        writable((name, value)),
        name.len() > 0,
    ensures
        ({
            let line = (pads.0 + name + pads.1) + seq![':'] + (pads.2 + value + pads.3);
            let found = same_ignoring_case(name, q);
            &&& header_of(first + eol() + (line + eol() + rest), q) == (if found {
                Some(value)
            } else {
                header_in(rest, q)
            })
            &&& header_of(first + eol() + (name + eol() + rest), q) == header_in(rest, q)
            &&& header_of(first + eol() + line, q) == (if found {
                Some(value)
            } else {
                None
            })
        }),
{
    let label = pads.0 + name + pads.1;
    let more = pads.2 + value + pads.3;
    let line = label + seq![':'] + more;
    let n = label.len() as int;
    assert forall|i: int| 0 <= i < label.len() implies label[i] != ':' && label[i] != '\r' by {
        let k = pads.0.len() as int;
        if i < k {
            assert(label[i] == pads.0[i]);
        } else if i < k + name.len() {
            assert(label[i] == name[i - k]);
        } else {
            assert(label[i] == pads.1[i - k - name.len()]);
        }
    }
    assert forall|i: int| 0 <= i < more.len() implies more[i] != '\r' by {
        let k = pads.2.len() as int;
        if i < k {
            assert(more[i] == pads.2[i]);
        } else if i < k + value.len() {
            assert(more[i] == value[i - k]);
        } else {
            assert(more[i] == pads.3[i - k - value.len()]);
        }
    }
    assert(on_a_line(line)) by {
        assert forall|i: int| 0 <= i < line.len() implies #[trigger] line[i] != '\r' by {
            if i < n {
                assert(line[i] == label[i]);
            } else if i > n {
                assert(line[i] == more[i - n - 1]);
            }
        }
    }
    law_index_of(line, ':', n);
    assert(line.take(n) =~= label);
    assert(line.skip(n + 1) =~= more);
    law_trimmed(pads.0, name, pads.1);
    law_trimmed(pads.2, value, pads.3);
    // The line among others.
    let s = line + eol() + rest;
    lemma_after_first(first, s, q);
    lemma_line_end(line, rest);
    assert(s.take(line.len() as int) =~= line);
    assert(s.skip(line.len() as int + 2) =~= rest);
    // A line without a colon.
    let t = name + eol() + rest;
    lemma_after_first(first, t, q);
    lemma_line_end(name, rest);
    assert(t.take(name.len() as int) =~= name);
    assert(t.skip(name.len() as int + 2) =~= rest);
    law_index_of(name, ':', name.len() as int);
    // The line at the end.
    lemma_after_first(first, line, q);
    lemma_no_line_end(line);
    assert(line.take(line.len() as int) =~= line);
}

/// The first line is no header.
proof fn lemma_after_first(first: Seq<char>, s: Seq<char>, q: Seq<char>)
    requires
        on_a_line(first),
    ensures
        header_of(first + eol() + s, q) == header_in(s, q),
{
    lemma_line_end(first, s);
    assert((first + eol() + s).skip(first.len() as int + 2) =~= s);
}

/// A text without line ends is one line.
proof fn lemma_no_line_end(s: Seq<char>)
    requires
        on_a_line(s),
    ensures
        line_end(s) == s.len(),
    decreases s.len(),
{
    if s.len() >= 2 {
        assert(s[0] != '\r');
        let t = s.drop_first();
        assert forall|i: int| 0 <= i < t.len() implies #[trigger] t[i] != '\r' by {
            assert(s[i + 1] != '\r');
        }
        lemma_no_line_end(t);
    }
}

/// Short first lines: `METHOD TARGET` names both; `METHOD` alone, or one with nothing between the
/// first two spaces, names no target; a line that is no UTF-8, or never ends, names neither.
pub proof fn law_short_request_line(
    line: Seq<u8>,
    method: Seq<char>,
    target: Seq<char>,
    rest: Seq<u8>,
)
    requires
        sub_index(line, seq![13u8, 10u8]) is None,
        forall|i: int| 0 <= i < method.len() ==> #[trigger] method[i] != ' ',
        forall|i: int| 0 <= i < target.len() ==> #[trigger] target[i] != ' ',
    ensures
        ({
            let req = line + seq![13u8, 10u8] + rest;
            &&& valid_utf8(line) && decode_utf8(line) == method ==> method_of(req) == Some(method)
                && target_of(req) is None
            &&& valid_utf8(line) && decode_utf8(line) == method + seq![' '] + target ==> method_of(
                req,
            ) == Some(method) && target_of(req) == (if target.len() > 0 {
                Some(target)
            } else {
                None
            })
            &&& !valid_utf8(line) ==> method_of(req) is None && target_of(req) is None
            &&& method_of(line) is None && target_of(line) is None
        }),
{
    let req = line + seq![13u8, 10u8] + rest;
    assert(crlf() =~= seq![13u8, 10u8]);
    lemma_first_line(line, rest);
    assert(req.take(line.len() as int) =~= line);
    let n = method.len() as int;
    law_index_of(method, ' ', n);
    assert(method.take(n) =~= method);
    let text = method + seq![' '] + target;
    law_index_of(text, ' ', n);
    assert(text.take(n) =~= method);
    assert(text.skip(n + 1) =~= target);
    law_index_of(target, ' ', target.len() as int);
    assert(target.take(target.len() as int) =~= target);
}

/// What is sent: the head, and behind it the body, byte for byte, whose length the head gives.
pub proof fn law_sent(status: u16, ctype: &str, body: &[u8], cookie: &str, accept: &str, r: Vec<u8>)
    ensures
        call_ensures(write_http, (status, ctype, body), r) ==> r@ == encode_utf8(
            response_head(status, ctype@, body@.len()),
        ) + body@,
        call_ensures(write_http_session, (cookie,), r) ==> r@ == encode_utf8(session_head(cookie@)),
        call_ensures(write_upgrade, (accept,), r) ==> r@ == encode_utf8(upgrade_head(accept@)),
{
}

/// How far the headers of a request have arrived: all of them once the empty line is there; more
/// are waited for up to 16 KiB.
pub proof fn law_head_progress(req: &[u8], r: HeadProgress)
    requires
        call_ensures(head_progress, (req,), r),
    ensures
        r == HeadProgress::Complete <==> sub_index(req@, seq![13u8, 10u8, 13u8, 10u8]) is Some,
        r == HeadProgress::TooLarge ==> req@.len() > 16384,
        r == HeadProgress::More ==> req@.len() <= 16384,
{
    assert(blank_line() =~= seq![13u8, 10u8, 13u8, 10u8]);
}

/// What a request with complete headers is answered: what its route is answered, without the query
/// string, for its method and its credentials.
pub proof fn law_answered(
    server: &Server,
    req: &[u8],
    text: &str,
    method: Seq<char>,
    target: Seq<char>,
    r: Reply,
)
    requires
        call_ensures(answer_with, (server, req, text), r),
        target_of(req@) == Some(target),
        method_of(req@) == Some(method),
    ensures
        r@ == routed(server@.auth, route_of(target), method, text@),
{
}

} // verus!
