//! The HTTP side: requests, credentials, routes and responses.
use vstd::prelude::*;
use vstd::utf8::{decode_utf8, encode_utf8, valid_utf8};

use crate::aof::RewriteStatus;
use crate::bytes::{append, bytes_eq, part};
use crate::server::{token_accepted, Server};
use crate::text::{
    begins, decimal, eq_ignoring_case, find, from_chars, index_of, lossy, piece, put_decimal, same,
    same_ignoring_case, strict, strip_prefix, to_chars, trim, trimmed, utf8_lossy, white,
};
use crate::ws::{accept_of, ws_accept};

verus! {

/// The position of the first `needle` in `hay`; none for an empty needle.
pub open spec fn sub_index(hay: Seq<u8>, needle: Seq<u8>) -> Option<int>
    decreases hay.len(),
{
    if needle.len() == 0 || hay.len() < needle.len() {
        None
    } else if hay.take(needle.len() as int) == needle {
        Some(0)
    } else {
        match sub_index(hay.drop_first(), needle) {
            Some(i) => Some(i + 1),
            None => None,
        }
    }
}

/// What is found is an occurrence, and the first one.
pub proof fn law_sub_index(hay: Seq<u8>, needle: Seq<u8>)
    requires
        needle.len() > 0,
    ensures
        match sub_index(hay, needle) {
            Some(i) => 0 <= i <= hay.len() - needle.len() && hay.subrange(i, i + needle.len())
                == needle && forall|j: int|
                0 <= j < i ==> #[trigger] hay.subrange(j, j + needle.len()) != needle,
            None => forall|j: int|
                0 <= j <= hay.len() - needle.len() ==> #[trigger] hay.subrange(
                    j,
                    j + needle.len(),
                ) != needle,
        },
    decreases hay.len(),
{
    let n = needle.len() as int;
    if hay.len() >= n {
        assert(hay.subrange(0, n) =~= hay.take(n));
        if hay.take(n) != needle {
            let rest = hay.drop_first();
            law_sub_index(rest, needle);
            match sub_index(rest, needle) {
                Some(i) => {
                    assert(hay.subrange(i + 1, i + 1 + n) =~= rest.subrange(i, i + n));
                    assert forall|j: int| 0 <= j < i + 1 implies #[trigger] hay.subrange(j, j + n)
                        != needle by {
                        if j > 0 {
                            assert(rest.subrange(j - 1, j - 1 + n) =~= hay.subrange(j, j + n));
                        }
                    }
                },
                None => {
                    assert forall|j: int| 0 <= j <= hay.len() - n implies #[trigger] hay.subrange(
                        j,
                        j + n,
                    ) != needle by {
                        if j > 0 {
                            assert(rest.subrange(j - 1, j - 1 + n) =~= hay.subrange(j, j + n));
                        }
                    }
                },
            }
        }
    }
}

/// Naive substring search; fine for tiny request buffers.
pub fn find_subslice(hay: &[u8], needle: &[u8]) -> (r: Option<usize>)
    ensures
        match r {
            Some(i) => sub_index(hay@, needle@) == Some(i as int) && i + needle@.len()
                <= hay@.len(),
            None => sub_index(hay@, needle@) is None,
        },
{
    if needle.len() == 0 || hay.len() < needle.len() {
        return None;
    }
    let n: usize = needle.len();
    let last: usize = hay.len() - n;
    let mut i: usize = 0;
    assert(hay@.skip(0) =~= hay@);
    while i <= last
        invariant
            n == needle@.len(),
            0 < n,
            last + n == hay@.len(),
            i <= last + 1,
            sub_index(hay@, needle@) == (match sub_index(hay@.skip(i as int), needle@) {
                Some(k) => Some(k + i),
                None => None,
            }),
        decreases last + 1 - i,
    {
        assert(hay@.len() == hay.len());
        let window: &[u8] = part(hay, i, i + n);
        assert(window@ =~= hay@.skip(i as int).take(n as int));
        if bytes_eq(window, needle) {
            return Some(i);
        }
        assert(hay@.skip(i as int).drop_first() =~= hay@.skip(i + 1));
        i += 1;
    }
    None
}

/// Line end: CR LF.
pub open spec fn crlf() -> Seq<u8> {
    seq![13u8, 10u8]
}

/// The empty line that ends the headers.
pub open spec fn blank_line() -> Seq<u8> {
    seq![13u8, 10u8, 13u8, 10u8]
}

/// How far the headers of a request have arrived.
#[derive(Clone, Copy, Debug, PartialEq, Eq, Structural)]
pub enum HeadProgress {
    Complete,
    /// Oversized headers: a bad request.
    TooLarge,
    More,
}

/// Largest size of the headers that is waited for (16 KiB).
pub const MAX_HEAD: usize = 16384;

/// How far the headers of a request have arrived.
pub fn head_progress(req: &[u8]) -> (r: HeadProgress)
    ensures
        r == (if sub_index(req@, blank_line()) is Some {
            HeadProgress::Complete
        } else if req@.len() > MAX_HEAD {
            HeadProgress::TooLarge
        } else {
            HeadProgress::More
        }),
{
    let end: Vec<u8> = vec![13u8, 10u8, 13u8, 10u8];
    assert(end@ =~= blank_line());
    if find_subslice(req, end.as_slice()).is_some() {
        HeadProgress::Complete
    } else if req.len() > MAX_HEAD {
        HeadProgress::TooLarge
    } else {
        HeadProgress::More
    }
}

/// The request line, if it is complete and UTF-8.
pub open spec fn request_line(req: Seq<u8>) -> Option<Seq<char>> {
    match sub_index(req, crlf()) {
        Some(i) if valid_utf8(req.take(i)) => Some(decode_utf8(req.take(i))),
        _ => None,
    }
}

/// The request method: what precedes the first space of the request line.
pub open spec fn method_of(req: Seq<u8>) -> Option<Seq<char>> {
    match request_line(req) {
        Some(line) => Some(line.take(index_of(line, ' '))),
        None => None,
    }
}

/// The request target: what stands between the first space of the request line and the
/// next, if that is anything.
pub open spec fn target_of(req: Seq<u8>) -> Option<Seq<char>> {
    match request_line(req) {
        Some(line) => {
            let i = index_of(line, ' ');
            let rest = line.skip(i + 1);
            let target = rest.take(index_of(rest, ' '));
            if i < line.len() && target.len() > 0 {
                Some(target)
            } else {
                None
            }
        },
        None => None,
    }
}

/// A text or nothing.
pub open spec fn text_view(s: Option<String>) -> Option<Seq<char>> {
    match s {
        Some(t) => Some(t@),
        None => None,
    }
}

/// The characters of the request line, if it is complete and UTF-8.
fn line_chars(req: &[u8]) -> (r: Option<Vec<char>>)
    ensures
        match r {
            Some(line) => request_line(req@) == Some(line@),
            None => request_line(req@) is None,
        },
{
    let end: Vec<u8> = vec![13u8, 10u8];
    assert(end@ =~= crlf());
    match find_subslice(req, end.as_slice()) {
        Some(i) => {
            let bytes: &[u8] = part(req, 0, i);
            assert(bytes@ =~= req@.take(i as int));
            match strict(bytes) {
                Some(line) => Some(to_chars(line)),
                None => None,
            }
        },
        None => None,
    }
}

/// Extract the request method (first token of the request line).
pub fn parse_request_method(req: &[u8]) -> (r: Option<String>)
    ensures
        text_view(r) == method_of(req@),
{
    match line_chars(req) {
        Some(line) => {
            let i: usize = find(line.as_slice(), ' ');
            let method: &[char] = piece(line.as_slice(), 0, i);
            assert(method@ =~= line@.take(i as int));
            Some(from_chars(method))
        },
        None => None,
    }
}

/// Extract the request target (path) from the raw request bytes.
pub fn parse_request_target(req: &[u8]) -> (r: Option<String>)
    ensures
        text_view(r) == target_of(req@),
{
    match line_chars(req) {
        Some(line) => {
            let i: usize = find(line.as_slice(), ' ');
            let len: usize = line.len();
            if i == len {
                return None;
            }
            let rest: &[char] = piece(line.as_slice(), i + 1, len);
            assert(rest@ =~= line@.skip(i + 1));
            let j: usize = find(rest, ' ');
            if j == 0 {
                return None;
            }
            let target: &[char] = piece(rest, 0, j);
            assert(target@ =~= rest@.take(j as int));
            Some(from_chars(target))
        },
        None => None,
    }
}

/// The position of the first line end in a text, or the length of the text if there is
/// none.
pub open spec fn line_end(s: Seq<char>) -> int
    decreases s.len(),
{
    if s.len() < 2 {
        s.len() as int
    } else if s[0] == '\r' && s[1] == '\n' {
        0
    } else {
        1 + line_end(s.drop_first())
    }
}

/// The value of the first header named `name` in the lines of `s`, up to an empty line:
/// names are compared without regard to case, and white space around name and value does
/// not count.
pub open spec fn header_in(s: Seq<char>, name: Seq<char>) -> Option<Seq<char>>
    decreases s.len(),
{
    let end = line_end(s);
    if end <= 0 || end > s.len() {
        None
    } else {
        let line = s.take(end);
        let colon = index_of(line, ':');
        if colon < line.len() && same_ignoring_case(trimmed(line.take(colon)), name) {
            Some(trimmed(line.skip(colon + 1)))
        } else if end + 2 <= s.len() {
            header_in(s.skip(end + 2), name)
        } else {
            None
        }
    }
}

/// The value of a header in the text of a request, whose first line is no header.
pub open spec fn header_of(text: Seq<char>, name: Seq<char>) -> Option<Seq<char>> {
    if line_end(text) + 2 <= text.len() {
        header_in(text.skip(line_end(text) + 2), name)
    } else {
        None
    }
}

/// Finds the first line end at or after `from`.
fn find_line_end(s: &[char], from: usize) -> (r: usize)
    requires
        from <= s@.len(),
    ensures
        r - from == line_end(s@.skip(from as int)),
        from <= r <= s@.len(),
        r < s@.len() ==> r + 2 <= s@.len(),
{
    let mut i: usize = from;
    let len: usize = s.len();
    assert(s@.len() == len);
    while len - i >= 2 && !(s[i] == '\r' && s[i + 1] == '\n')
        invariant
            len == s@.len(),
            from <= i <= len,
            line_end(s@.skip(from as int)) == (i - from) + line_end(s@.skip(i as int)),
        decreases len - i,
    {
        assert(s@.skip(i as int).drop_first() =~= s@.skip(i + 1));
        i += 1;
    }
    if len - i >= 2 {
        i
    } else {
        len
    }
}

/// Case-insensitive HTTP header lookup over the text of a request.
pub fn header_in_text(text: &str, name_lower: &str) -> (r: Option<String>)
    ensures
        text_view(r) == header_of(text@, name_lower@),
{
    let s: Vec<char> = to_chars(text);
    let name: Vec<char> = to_chars(name_lower);
    let len: usize = s.len();
    assert(s@.skip(0) =~= s@);
    let first: usize = find_line_end(s.as_slice(), 0);
    if first == len {
        return None;
    }
    let mut pos: usize = first + 2;
    loop
        invariant
            s@ == text@,
            len == s@.len(),
            name@ == name_lower@,
            pos <= len,
            header_of(text@, name_lower@) == header_in(s@.skip(pos as int), name@),
        decreases len - pos,
    {
        let ghost rest = s@.skip(pos as int);
        let end: usize = find_line_end(s.as_slice(), pos);
        if end == pos {
            return None;
        }
        let line: &[char] = piece(s.as_slice(), pos, end);
        assert(line@ =~= rest.take(end - pos));
        let n: usize = line.len();
        let colon: usize = find(line, ':');
        if colon < n {
            let label: &[char] = trim(piece(line, 0, colon));
            assert(line@.subrange(0, colon as int) =~= line@.take(colon as int));
            if eq_ignoring_case(label, name.as_slice()) {
                let value: &[char] = trim(piece(line, colon + 1, n));
                assert(line@.subrange(colon + 1, n as int) =~= line@.skip(colon + 1));
                return Some(from_chars(value));
            }
        }
        if end == len {
            return None;
        }
        assert(s@.skip(end + 2) =~= rest.skip(end - pos + 2));
        pos = end + 2;
    }
}

/// Case-insensitive HTTP header lookup over the raw request bytes.
pub fn header_value(req: &[u8], name_lower: &str) -> (r: Option<String>)
    ensures
        text_view(r) == header_of(utf8_lossy(req@), name_lower@),
        valid_utf8(req@) ==> text_view(r) == header_of(decode_utf8(req@), name_lower@),
{
    let text: String = lossy(req);
    header_in_text(text.as_str(), name_lower)
}

/// The value of the first cookie that begins with `prefix` in a `Cookie` header.
pub open spec fn cookie_in(header: Seq<char>, prefix: Seq<char>) -> Option<Seq<char>>
    decreases header.len(),
{
    let end = index_of(header, ';');
    let pair = trimmed(header.take(end));
    if begins(pair, prefix) {
        Some(pair.skip(prefix.len() as int))
    } else if 0 <= end < header.len() {
        cookie_in(header.skip(end + 1), prefix)
    } else {
        None
    }
}

/// The value of a cookie in the text of a request.
pub open spec fn cookie_of(text: Seq<char>, name: Seq<char>) -> Option<Seq<char>> {
    match header_of(text, "cookie"@) {
        Some(header) => cookie_in(header, name + "="@),
        None => None,
    }
}

/// The credentials in the text of a request: a bearer token, or else the session cookie.
pub open spec fn token_of(text: Seq<char>) -> Option<Seq<char>> {
    match header_of(text, "authorization"@) {
        Some(h) if begins(h, "Bearer "@) => Some(trimmed(h.skip("Bearer "@.len() as int))),
        Some(h) if begins(h, "bearer "@) => Some(trimmed(h.skip("bearer "@.len() as int))),
        _ => cookie_of(text, "picodb_session"@),
    }
}

/// Reads a single named cookie from the `Cookie` header in the text of a request.
pub fn cookie_in_text(text: &str, name: &str) -> (r: Option<String>)
    ensures
        text_view(r) == cookie_of(text@, name@),
{
    let header: Vec<char> = match header_in_text(text, "cookie") {
        Some(h) => to_chars(h.as_str()),
        None => {
            return None;
        },
    };
    let mut label: String = name.to_owned();
    label.append("=");
    let prefix: Vec<char> = to_chars(label.as_str());
    let len: usize = header.len();
    let mut pos: usize = 0;
    assert(header@.skip(0) =~= header@);
    loop
        invariant
            len == header@.len(),
            pos <= len,
            prefix@ == name@ + "="@,
            cookie_of(text@, name@) == cookie_in(header@.skip(pos as int), prefix@),
        decreases len - pos,
    {
        let rest: &[char] = piece(header.as_slice(), pos, len);
        assert(rest@ =~= header@.skip(pos as int));
        let end: usize = find(rest, ';');
        let pair: &[char] = trim(piece(rest, 0, end));
        assert(rest@.subrange(0, end as int) =~= rest@.take(end as int));
        if let Some(v) = strip_prefix(pair, prefix.as_slice()) {
            return Some(from_chars(v));
        }
        if end == rest.len() {
            return None;
        }
        assert(header@.skip(pos + end + 1) =~= rest@.skip(end + 1));
        pos = pos + end + 1;
    }
}

/// Read a single named cookie from the `Cookie` request header.
pub fn cookie_value(req: &[u8], name: &str) -> (r: Option<String>)
    ensures
        text_view(r) == cookie_of(utf8_lossy(req@), name@),
        valid_utf8(req@) ==> text_view(r) == cookie_of(decode_utf8(req@), name@),
{
    let text: String = lossy(req);
    cookie_in_text(text.as_str(), name)
}

/// Extracts an auth token from the text of a request.
pub fn token_in_text(text: &str) -> (r: Option<String>)
    ensures
        text_view(r) == token_of(text@),
{
    if let Some(header) = header_in_text(text, "authorization") {
        let h: Vec<char> = to_chars(header.as_str());
        let upper: Vec<char> = to_chars("Bearer ");
        let lower: Vec<char> = to_chars("bearer ");
        if let Some(rest) = strip_prefix(h.as_slice(), upper.as_slice()) {
            return Some(from_chars(trim(rest)));
        }
        if let Some(rest) = strip_prefix(h.as_slice(), lower.as_slice()) {
            return Some(from_chars(trim(rest)));
        }
    }
    cookie_in_text(text, "picodb_session")
}

/// Extract an auth token from a request: an `Authorization: Bearer <t>` header
/// (API clients, Prometheus) or the `picodb_session` cookie set by `/login`
/// (browser). The token is deliberately never read from the URL, so it cannot
/// leak into access logs, browser history, or `Referer` headers.
pub fn http_token(req: &[u8]) -> (r: Option<String>)
    ensures
        text_view(r) == token_of(utf8_lossy(req@)),
        valid_utf8(req@) ==> text_view(r) == token_of(decode_utf8(req@)),
{
    let text: String = lossy(req);
    token_in_text(text.as_str())
}

/// The `Set-Cookie` value for the session.
pub open spec fn cookie_text(token: Seq<char>, set: bool) -> Seq<char> {
    if set {
        "picodb_session="@ + token + "; HttpOnly; SameSite=Strict; Path=/; Max-Age=86400"@
    } else {
        "picodb_session=; HttpOnly; SameSite=Strict; Path=/; Max-Age=0"@
    }
}

/// Build the `Set-Cookie` value for the session. `set = true` persists the
/// token for a day; `set = false` clears it (logout). Flags: `HttpOnly` keeps
/// it out of reach of JS/XSS, `SameSite=Strict` blocks cross-site (CSRF) sends.
/// (`Secure` is omitted so it works over plain HTTP; front with TLS in prod.)
pub fn session_cookie(token: &str, set: bool) -> (r: String)
    ensures
        r@ == cookie_text(token@, set),
{
    if set {
        let mut r: String = "picodb_session=".to_owned();
        r.append(token);
        r.append("; HttpOnly; SameSite=Strict; Path=/; Max-Age=86400");
        r
    } else {
        "picodb_session=; HttpOnly; SameSite=Strict; Path=/; Max-Age=0".to_owned()
    }
}

/// The reason phrase of a status.
pub open spec fn reason_of(status: u16) -> Seq<char> {
    if status == 200 {
        "OK"@
    } else if status == 202 {
        "Accepted"@
    } else if status == 400 {
        "Bad Request"@
    } else if status == 401 {
        "Unauthorized"@
    } else if status == 404 {
        "Not Found"@
    } else if status == 409 {
        "Conflict"@
    } else {
        "OK"@
    }
}

/// The head of a response with a body. A 401 advertises Bearer auth so standard clients
/// know how to authenticate.
pub open spec fn response_head(status: u16, ctype: Seq<char>, len: nat) -> Seq<char> {
    "HTTP/1.1 "@ + decimal(status as nat) + " "@ + reason_of(status) + "\r\nContent-Type: "@ + ctype
        + "\r\nContent-Length: "@ + decimal(len) + "\r\n"@ + (if status == 401 {
        "WWW-Authenticate: Bearer\r\n"@
    } else {
        ""@
    }) + "Cache-Control: no-store\r\nConnection: close\r\n\r\n"@
}

fn reason(status: u16) -> (r: &'static str)
    ensures
        r@ == reason_of(status),
{
    if status == 200 {
        "OK"
    } else if status == 202 {
        "Accepted"
    } else if status == 400 {
        "Bad Request"
    } else if status == 401 {
        "Unauthorized"
    } else if status == 404 {
        "Not Found"
    } else if status == 409 {
        "Conflict"
    } else {
        "OK"
    }
}

/// A complete HTTP/1.1 response with an explicit Content-Length and
/// `Connection: close` (one response per connection).
pub fn write_http(status: u16, ctype: &str, body: &[u8]) -> (r: Vec<u8>)
    ensures
        r@ == encode_utf8(response_head(status, ctype@, body@.len())) + body@,
{
    let mut head: String = "HTTP/1.1 ".to_owned();
    put_decimal(&mut head, status as u64);
    head.append(" ");
    head.append(reason(status));
    head.append("\r\nContent-Type: ");
    head.append(ctype);
    head.append("\r\nContent-Length: ");
    put_decimal(&mut head, body.len() as u64);
    head.append("\r\n");
    if status == 401 {
        head.append("WWW-Authenticate: Bearer\r\n");
    } else {
        head.append("");
    }
    head.append("Cache-Control: no-store\r\nConnection: close\r\n\r\n");
    let mut r: Vec<u8> = Vec::new();
    append(&mut r, head.as_str().as_bytes());
    append(&mut r, body);
    assert(r@ =~= encode_utf8(response_head(status, ctype@, body@.len())) + body@);
    r
}

/// The head of a response that sets a cookie.
pub open spec fn session_head(cookie: Seq<char>) -> Seq<char> {
    "HTTP/1.1 204 No Content\r\nSet-Cookie: "@ + cookie
        + "\r\nCache-Control: no-store\r\nConnection: close\r\n\r\n"@
}

/// A 204 response carrying a `Set-Cookie` header (login / logout). No
/// body, so no `Content-Length` is needed.
pub fn write_http_session(cookie: &str) -> (r: Vec<u8>)
    ensures
        r@ == encode_utf8(session_head(cookie@)),
{
    let mut head: String = "HTTP/1.1 204 No Content\r\nSet-Cookie: ".to_owned();
    head.append(cookie);
    head.append("\r\nCache-Control: no-store\r\nConnection: close\r\n\r\n");
    let mut r: Vec<u8> = Vec::new();
    append(&mut r, head.as_str().as_bytes());
    assert(r@ =~= encode_utf8(session_head(cookie@)));
    r
}

/// The response that turns a connection into a WebSocket.
pub open spec fn upgrade_head(accept: Seq<char>) -> Seq<char> {
    "HTTP/1.1 101 Switching Protocols\r\nUpgrade: websocket\r\nConnection: Upgrade\r\nSec-WebSocket-Accept: "@
        + accept + "\r\n\r\n"@
}

/// The response that turns a connection into a WebSocket.
pub fn write_upgrade(accept: &str) -> (r: Vec<u8>)
    ensures
        r@ == encode_utf8(upgrade_head(accept@)),
{
    let mut head: String =
        "HTTP/1.1 101 Switching Protocols\r\nUpgrade: websocket\r\nConnection: Upgrade\r\nSec-WebSocket-Accept: ".to_owned();
    head.append(accept);
    head.append("\r\n\r\n");
    let mut r: Vec<u8> = Vec::new();
    append(&mut r, head.as_str().as_bytes());
    assert(r@ =~= encode_utf8(upgrade_head(accept@)));
    r
}

/// What a request is answered.
pub enum Reply {
    /// The dashboard page.
    Dashboard,
    /// The documentation page.
    Docs,
    /// A plain text.
    Plain(u16, &'static str),
    /// A `Set-Cookie` header with this value.
    Session(String),
    /// The metrics.
    Metrics,
    /// The list of keys.
    Keys,
    /// The outcome of a log rewrite.
    Rewrite,
    /// A WebSocket with this accept key.
    Upgrade(String),
}

/// What a request is answered.
#[verifier::ext_equal]
pub enum ReplyView {
    Dashboard,
    Docs,
    Plain(u16, Seq<char>),
    Session(Seq<char>),
    Metrics,
    Keys,
    Rewrite,
    Upgrade(Seq<char>),
}

impl View for Reply {
    type V = ReplyView;

    open spec fn view(&self) -> ReplyView {
        match self {
            Reply::Dashboard => ReplyView::Dashboard,
            Reply::Docs => ReplyView::Docs,
            Reply::Plain(status, body) => ReplyView::Plain(*status, body@),
            Reply::Session(cookie) => ReplyView::Session(cookie@),
            Reply::Metrics => ReplyView::Metrics,
            Reply::Keys => ReplyView::Keys,
            Reply::Rewrite => ReplyView::Rewrite,
            Reply::Upgrade(accept) => ReplyView::Upgrade(accept@),
        }
    }
}

/// The status and the content type with which a reply is sent. A session cookie and an
/// upgrade have heads of their own, and that of a log rewrite depends on its outcome.
pub open spec fn page_head_of(r: ReplyView) -> Option<(u16, Seq<char>)> {
    match r {
        ReplyView::Dashboard => Some((200, "text/html; charset=utf-8"@)),
        ReplyView::Docs => Some((200, "text/html; charset=utf-8"@)),
        ReplyView::Plain(status, _) => Some((status, "text/plain"@)),
        ReplyView::Metrics => Some((200, "text/plain; version=0.0.4"@)),
        ReplyView::Keys => Some((200, "application/json"@)),
        ReplyView::Session(_) => None,
        ReplyView::Rewrite => None,
        ReplyView::Upgrade(_) => None,
    }
}

/// The status and the content type with which a reply is sent.
pub fn page_head(r: &Reply) -> (h: Option<(u16, &'static str)>)
    ensures
        match h {
            Some(head) => page_head_of(r@) == Some((head.0, head.1@)),
            None => page_head_of(r@) is None,
        },
{
    match r {
        Reply::Dashboard => Some((200, "text/html; charset=utf-8")),
        Reply::Docs => Some((200, "text/html; charset=utf-8")),
        Reply::Plain(status, _) => Some((*status, "text/plain")),
        Reply::Metrics => Some((200, "text/plain; version=0.0.4")),
        Reply::Keys => Some((200, "application/json")),
        Reply::Session(_) => None,
        Reply::Rewrite => None,
        Reply::Upgrade(_) => None,
    }
}

/// Whether credentials open a server: it runs without a secret, or the token is the secret.
pub open spec fn authorized(auth: Option<Seq<u8>>, token: Option<Seq<char>>) -> bool {
    auth is None || (token matches Some(t) && token_accepted(auth, encode_utf8(t)))
}

/// The path of a target, without the query string.
pub open spec fn route_of(target: Seq<char>) -> Seq<char> {
    target.take(index_of(target, '?'))
}

/// What a request for a route is answered, given the text of the request.
pub open spec fn routed(
    auth: Option<Seq<u8>>,
    route: Seq<char>,
    method: Seq<char>,
    text: Seq<char>,
) -> ReplyView {
    let token = token_of(text);
    let ok = authorized(auth, token);
    let post = method == "POST"@;
    let denied = ReplyView::Plain(401, "Unauthorized"@);
    if route == "/ws"@ {
        if !ok {
            denied
        } else {
            match header_of(text, "sec-websocket-key"@) {
                Some(key) => ReplyView::Upgrade(accept_of(key)),
                None => ReplyView::Plain(400, "Bad WebSocket Request"@),
            }
        }
    } else if route == "/"@ {
        ReplyView::Dashboard
    } else if route == "/docs"@ {
        ReplyView::Docs
    } else if route == "/login"@ && post {
        if ok {
            ReplyView::Session(
                cookie_text(
                    match token {
                        Some(t) => t,
                        None => seq![],
                    },
                    true,
                ),
            )
        } else {
            denied
        }
    } else if route == "/logout"@ && post {
        ReplyView::Session(cookie_text(seq![], false))
    } else if route == "/metrics"@ {
        if ok {
            ReplyView::Metrics
        } else {
            denied
        }
    } else if route == "/api/keys"@ {
        if ok {
            ReplyView::Keys
        } else {
            denied
        }
    } else if route == "/aof/rewrite"@ && post {
        if ok {
            ReplyView::Rewrite
        } else {
            denied
        }
    } else {
        ReplyView::Plain(404, "Not Found"@)
    }
}

/// What a request with complete headers is answered. `text` is the request as text.
pub open spec fn answer_of(auth: Option<Seq<u8>>, req: Seq<u8>, text: Seq<char>) -> ReplyView {
    match target_of(req) {
        None => ReplyView::Plain(400, "Bad Request"@),
        Some(target) => routed(
            auth,
            route_of(target),
            match method_of(req) {
                Some(m) => m,
                None => seq![],
            },
            text,
        ),
    }
}

/// Whether characters are those of a literal.
fn is(s: &[char], literal: &str) -> (r: bool)
    ensures
        r == (s@ == literal@),
{
    let l: Vec<char> = to_chars(literal);
    same(s, l.as_slice())
}

/// Answers a request for a route, given the text of the request.
pub fn route_request(server: &Server, route: &[char], method: &[char], text: &str) -> (r: Reply)
    ensures
        r@ == routed(server@.auth, route@, method@, text@),
{
    let token: Option<String> = token_in_text(text);
    let ok: bool = server.auth.is_none() || match &token {
        Some(t) => server.token_ok(t.as_str().as_bytes()),
        None => false,
    };
    let post: bool = is(method, "POST");
    if is(route, "/ws") {
        if !ok {
            return Reply::Plain(401, "Unauthorized");
        }
        match header_in_text(text, "sec-websocket-key") {
            Some(key) => Reply::Upgrade(ws_accept(key.as_str())),
            None => Reply::Plain(400, "Bad WebSocket Request"),
        }
    } else if is(route, "/") {
        Reply::Dashboard
    } else if is(route, "/docs") {
        Reply::Docs
    } else if is(route, "/login") && post {
        if ok {
            let t: String = match token {
                Some(t) => t,
                None => String::new(),
            };
            assert(t@ =~= match token_of(text@) {
                Some(t) => t,
                None => seq![],
            });
            Reply::Session(session_cookie(t.as_str(), true))
        } else {
            Reply::Plain(401, "Unauthorized")
        }
    } else if is(route, "/logout") && post {
        Reply::Session(session_cookie("", false))
    } else if is(route, "/metrics") {
        if ok {
            Reply::Metrics
        } else {
            Reply::Plain(401, "Unauthorized")
        }
    } else if is(route, "/api/keys") {
        if ok {
            Reply::Keys
        } else {
            Reply::Plain(401, "Unauthorized")
        }
    } else if is(route, "/aof/rewrite") && post {
        if ok {
            Reply::Rewrite
        } else {
            Reply::Plain(401, "Unauthorized")
        }
    } else {
        Reply::Plain(404, "Not Found")
    }
}

/// Answers a request with complete headers, given its text. Parses only the request line
/// and the headers it needs, and routes on the path; any malformed input yields a clean 400.
///
/// Data-bearing routes need credentials. `/` (the static shell) stays open so the browser
/// can load and prompt for a token — it exposes no cache data. Credentials come from an
/// `Authorization: Bearer` header (API clients, Prometheus) or the HttpOnly session cookie
/// set by `/login` (browser) — never from the URL.
pub fn answer_with(server: &Server, req: &[u8], text: &str) -> (r: Reply)
    ensures
        r@ == answer_of(server@.auth, req@, text@),
{
    let target: Vec<char> = match parse_request_target(req) {
        Some(t) => to_chars(t.as_str()),
        None => {
            return Reply::Plain(400, "Bad Request");
        },
    };
    let end: usize = find(target.as_slice(), '?');
    let route: &[char] = piece(target.as_slice(), 0, end);
    assert(route@ =~= route_of(target@));
    let method: Vec<char> = match parse_request_method(req) {
        Some(m) => to_chars(m.as_str()),
        None => Vec::new(),
    };
    assert(method@ =~= match method_of(req@) {
        Some(m) => m,
        None => seq![],
    });
    route_request(server, route, method.as_slice(), text)
}

/// Answers a request with complete headers.
pub fn answer(server: &Server, req: &[u8]) -> (r: Reply)
    ensures
        r@ == answer_of(server@.auth, req@, utf8_lossy(req@)),
        valid_utf8(req@) ==> r@ == answer_of(server@.auth, req@, decode_utf8(req@)),
{
    let text: String = lossy(req);
    answer_with(server, req, text.as_str())
}

/// What received bytes are answered once no more are waited for: a request whose headers
/// are not complete is a bad one.
pub open spec fn received_answer_of(
    auth: Option<Seq<u8>>,
    req: Seq<u8>,
    text: Seq<char>,
) -> ReplyView {
    if sub_index(req, blank_line()) is Some {
        answer_of(auth, req, text)
    } else {
        ReplyView::Plain(400, "Bad Request"@)
    }
}

/// Answers what was received, once the headers are complete, have grown too large, or the
/// client has stopped sending.
pub fn answer_received(server: &Server, req: &[u8]) -> (r: Reply)
    ensures
        r@ == received_answer_of(server@.auth, req@, utf8_lossy(req@)),
        valid_utf8(req@) ==> r@ == received_answer_of(server@.auth, req@, decode_utf8(req@)),
{
    match head_progress(req) {
        HeadProgress::Complete => answer(server, req),
        _ => Reply::Plain(400, "Bad Request"),
    }
}

/// What a request to rewrite the log is answered.
pub open spec fn rewrite_answer(status: RewriteStatus) -> (u16, Seq<char>) {
    match status {
        RewriteStatus::Started => (202, "rewrite started\n"@),
        RewriteStatus::AlreadyRunning => (409, "rewrite already in progress\n"@),
        RewriteStatus::TooSoon => (429, "rewrite rate limited\n"@),
        RewriteStatus::Disabled => (409, "AOF disabled\n"@),
    }
}

/// The status code and body for the outcome of a log rewrite.
pub fn rewrite_reply(status: RewriteStatus) -> (r: (u16, &'static str))
    ensures
        (r.0, r.1@) == rewrite_answer(status),
{
    match status {
        RewriteStatus::Started => (202, "rewrite started\n"),
        RewriteStatus::AlreadyRunning => (409, "rewrite already in progress\n"),
        RewriteStatus::TooSoon => (429, "rewrite rate limited\n"),
        RewriteStatus::Disabled => (409, "AOF disabled\n"),
    }
}

/// Without the right credentials no request gets at data: neither metrics nor keys nor a
/// WebSocket nor a session cookie that carries a token, and no log rewrite is started.
pub proof fn law_data_needs_credentials(
    auth: Option<Seq<u8>>,
    route: Seq<char>,
    method: Seq<char>,
    text: Seq<char>,
)
    requires
        !authorized(auth, token_of(text)),
    ensures
        ({
            let r = routed(auth, route, method, text);
            &&& !(r is Metrics) && !(r is Keys) && !(r is Rewrite) && !(r is Upgrade)
            &&& r matches ReplyView::Session(c) ==> c == cookie_text(seq![], false)
        }),
{
}

/// A data route without the right credentials is answered 401, which asks for a bearer
/// token.
pub proof fn law_denied_is_401(
    auth: Option<Seq<u8>>,
    route: Seq<char>,
    method: Seq<char>,
    text: Seq<char>,
)
    requires
        !authorized(auth, token_of(text)),
        route == "/ws"@ || route == "/metrics"@ || route == "/api/keys"@ || method == "POST"@ && (
        route == "/login"@ || route == "/aof/rewrite"@),
    ensures
        routed(auth, route, method, text) == ReplyView::Plain(401, "Unauthorized"@),
{
    reveal_strlit("/");
    reveal_strlit("/ws");
    reveal_strlit("/docs");
    reveal_strlit("/login");
    reveal_strlit("/logout");
    reveal_strlit("/metrics");
    reveal_strlit("/api/keys");
    reveal_strlit("/aof/rewrite");
    assert("/"@.len() == 1);
    assert("/ws"@.len() == 3);
    assert("/docs"@.len() == 5);
    assert("/login"@.len() == 6);
    assert("/logout"@.len() == 7);
    assert("/metrics"@.len() == 8);
    assert("/api/keys"@.len() == 9);
    assert("/aof/rewrite"@.len() == 12);
}

/// White space at the end is all that trimming takes off a text that starts with none.
proof fn lemma_nothing_to_trim(s: Seq<char>)
    requires
        s.len() > 0,
        !white(s[0]),
        !white(s.last()),
    ensures
        trimmed(s) == s,
{
}

/// A text without a separator is one piece.
proof fn lemma_no_separator(s: Seq<char>, c: char)
    requires
        forall|i: int| 0 <= i < s.len() ==> s[i] != c,
    ensures
        index_of(s, c) == s.len(),
    decreases s.len(),
{
    if s.len() > 0 {
        assert forall|i: int| 0 <= i < s.drop_first().len() implies s.drop_first()[i] != c by {
            assert(s.drop_first()[i] == s[i + 1]);
        }
        lemma_no_separator(s.drop_first(), c);
    }
}

/// The cookie that `/login` sets presents the token when the browser sends it back.
pub proof fn law_session_cookie_presents_token(token: Seq<char>)
    requires
        forall|i: int| 0 <= i < token.len() ==> token[i] != ';',
        token.len() > 0 ==> !white(token.last()),
    ensures
        begins(cookie_text(token, true), "picodb_session="@ + token),
        cookie_in("picodb_session="@ + token, "picodb_session"@ + "="@) == Some(token),
{
    reveal_strlit("picodb_session");
    reveal_strlit("picodb_session=");
    reveal_strlit("=");
    let name = "picodb_session="@;
    let pair = name + token;
    let prefix = "picodb_session"@ + "="@;
    assert(prefix =~= name);
    assert(cookie_text(token, true).take(pair.len() as int) =~= pair);
    assert forall|i: int| 0 <= i < pair.len() implies pair[i] != ';' by {
        if i >= name.len() {
            assert(pair[i] == token[i - name.len()]);
        }
    }
    lemma_no_separator(pair, ';');
    assert(pair.take(pair.len() as int) =~= pair);
    assert(name.last() == '=');
    assert(pair[0] == 'p');
    lemma_nothing_to_trim(pair);
    assert(pair.take(prefix.len() as int) =~= prefix);
    assert(pair.skip(prefix.len() as int) =~= token);
}

/// Credentials are never read from the URL: the request line has no bearing on them.
pub proof fn law_token_is_not_in_the_request_line(a: Seq<char>, b: Seq<char>, rest: Seq<char>)
    requires
        line_end(a + seq!['\r', '\n'] + rest) == a.len(),
        line_end(b + seq!['\r', '\n'] + rest) == b.len(),
    ensures
        token_of(a + seq!['\r', '\n'] + rest) == token_of(b + seq!['\r', '\n'] + rest),
{
    let s = a + seq!['\r', '\n'] + rest;
    let t = b + seq!['\r', '\n'] + rest;
    assert(s.skip(a.len() as int + 2) =~= rest);
    assert(t.skip(b.len() as int + 2) =~= rest);
}

} // verus!
