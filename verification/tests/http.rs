//! Requests, credentials, routes, responses, metrics and settings.
use picodb::aof::{Aof, Fsync, RewriteStatus};
use picodb::config::{
    config_aof_fsync, config_aof_path, config_aof_rewrite_min, config_aof_rewrite_min_interval,
    config_bind, config_cap, config_port, config_token, exposed, DEFAULT_PORT_ENGINE,
    DEFAULT_PORT_HTTP,
};
use picodb::http::{
    answer, answer_received, answer_with, cookie_in_text, cookie_value, find_subslice, head_progress, page_head,
    header_in_text, header_value, http_token, parse_request_method, parse_request_target,
    rewrite_reply, route_request, session_cookie, token_in_text, write_http, write_http_session,
    write_upgrade, HeadProgress, Reply,
};
use picodb::protocol::{ACT_GET, ACT_SADD, ACT_SET};
use picodb::render::{
    json_escape_into, json_escape_text, render_api_keys, render_api_keys_at, render_metrics,
    render_metrics_at,
};
use picodb::server::{apply_at, Server};
use picodb::text::{
    eq_ignoring_case, find, from_chars, parse_number, piece, put_decimal, same, strip_prefix,
    to_chars, trim,
};
use std::sync::mpsc::channel;

const REQ: &[u8] = b"GET /api/keys?x=1 HTTP/1.1\r\nHost: h\r\nX-Empty:\r\nCookie: a=1; picodb_session=tok ;b=2\r\nSec-WebSocket-Key: dGhlIHNhbXBsZSBub25jZQ==\r\n\r\nbody: no";

#[test]
fn substrings_are_found_first_come() {
    assert_eq!(find_subslice(b"abcabc", b"bc"), Some(1));
    assert_eq!(find_subslice(b"abc", b"abc"), Some(0));
    assert_eq!(find_subslice(b"aab", b"ab"), Some(1));
    assert_eq!(find_subslice(b"abc", b"x"), None);
    assert_eq!(find_subslice(b"abc", b""), None);
    assert_eq!(find_subslice(b"a", b"ab"), None);
}

#[test]
fn headers_are_read_up_to_a_limit() {
    assert_eq!(head_progress(b"GET / HTTP/1.1\r\n"), HeadProgress::More);
    assert_eq!(head_progress(REQ), HeadProgress::Complete);
    assert_eq!(head_progress(&vec![b'a'; 16384]), HeadProgress::More);
    assert_eq!(head_progress(&vec![b'a'; 16385]), HeadProgress::TooLarge);
    let mut long = vec![b'a'; 20000];
    long.extend(b"\r\n\r\n");
    assert_eq!(head_progress(&long), HeadProgress::Complete);
}

#[test]
fn the_request_line_is_split_at_spaces() {
    assert_eq!(parse_request_method(REQ).unwrap(), "GET");
    assert_eq!(parse_request_target(REQ).unwrap(), "/api/keys?x=1");
    assert_eq!(parse_request_target(b"GET /a\r\n").unwrap(), "/a");
    assert!(parse_request_target(b"GET\r\n").is_none());
    assert!(parse_request_target(b"GET  /a\r\n").is_none());
    assert!(parse_request_target(b"GET /a").is_none());
    assert!(parse_request_method(b"GET /a").is_none());
    assert_eq!(parse_request_method(b"\r\n").unwrap(), "");
    assert!(parse_request_method(b"\xFF\xFE /\r\n").is_none());
    assert!(parse_request_target(b"GET /\xFF \r\n").is_none());
    assert_eq!(parse_request_target("GET /é x\r\n".as_bytes()).unwrap(), "/é");
}

#[test]
fn headers_are_found_without_regard_to_case() {
    assert_eq!(header_value(REQ, "host").unwrap(), "h");
    assert_eq!(header_value(REQ, "x-empty").unwrap(), "");
    assert_eq!(header_value(b"GET / H\r\nhOsT :  x y \r\n\r\n", "host").unwrap(), "x y");
    assert!(header_value(REQ, "body").is_none());
    assert!(header_value(b"Host: first line\r\n\r\n", "host").is_none());
    assert!(header_value(b"", "host").is_none());
    assert_eq!(header_value(b"G\r\nno colon\r\nA: b: c", "a").unwrap(), "b: c");
    assert_eq!(header_in_text("G\r\nA: \u{3000}b\u{a0}\r\nA: c", "a").unwrap(), "b");
}

#[test]
fn bytes_that_are_not_utf8_are_replaced() {
    assert_eq!(header_value(b"G\r\nA: x\xFFy\r\n\r\n", "a").unwrap(), "x\u{FFFD}y");
    let mut s = String::new();
    json_escape_into(&mut s, b"a\xC0b");
    assert_eq!(s, "a\u{FFFD}b");
}

#[test]
fn cookies_are_found_by_name() {
    assert_eq!(cookie_value(REQ, "picodb_session").unwrap(), "tok");
    assert_eq!(cookie_value(REQ, "a").unwrap(), "1");
    assert_eq!(cookie_value(REQ, "b").unwrap(), "2");
    assert!(cookie_value(REQ, "c").is_none());
    assert!(cookie_value(b"G\r\n\r\n", "a").is_none());
    assert_eq!(cookie_in_text("G\r\nCookie: x=", "x").unwrap(), "");
    assert!(cookie_in_text("G\r\nCookie: xy=1", "x").is_none());
}

#[test]
fn bearer_tokens_come_before_cookies() {
    assert_eq!(http_token(REQ).unwrap(), "tok");
    assert_eq!(
        http_token(b"G\r\nAuthorization: Bearer  abc \r\nCookie: picodb_session=x\r\n\r\n").unwrap(),
        "abc"
    );
    assert_eq!(token_in_text("G\r\nauthorization: bearer abc").unwrap(), "abc");
    assert!(token_in_text("G\r\nAuthorization: BEARER abc").is_none());
    assert_eq!(
        token_in_text("G\r\nAuthorization: Basic abc\r\nCookie: picodb_session=x").unwrap(),
        "x"
    );
    assert!(token_in_text("G\r\n").is_none());
}

#[test]
fn tokens_are_never_read_from_the_url() {
    assert!(http_token(b"GET /?token=abc&picodb_session=abc HTTP/1.1\r\nHost: h\r\n\r\n").is_none());
    let rest = "\r\nAuthorization: Bearer abc\r\n\r\n";
    for line in ["GET / HTTP/1.1", "", "Authorization: Bearer xyz", "Cookie: picodb_session=xyz"] {
        assert_eq!(token_in_text(&format!("{line}{rest}")).unwrap(), "abc");
    }
}

#[test]
fn the_session_cookie_presents_its_token() {
    assert_eq!(
        session_cookie("tok", true),
        "picodb_session=tok; HttpOnly; SameSite=Strict; Path=/; Max-Age=86400"
    );
    assert_eq!(
        session_cookie("ignored", false),
        "picodb_session=; HttpOnly; SameSite=Strict; Path=/; Max-Age=0"
    );
    let sent = session_cookie("us:er", true);
    let pair = sent.split(';').next().unwrap();
    let text = format!("G\r\nCookie: {pair}\r\n\r\n");
    assert_eq!(token_in_text(&text).unwrap(), "us:er");
}

#[test]
fn responses_have_exact_heads() {
    assert_eq!(
        write_http(200, "text/plain", b"hi"),
        b"HTTP/1.1 200 OK\r\nContent-Type: text/plain\r\nContent-Length: 2\r\nCache-Control: no-store\r\nConnection: close\r\n\r\nhi".to_vec()
    );
    assert_eq!(
        write_http(401, "text/plain", b"Unauthorized"),
        b"HTTP/1.1 401 Unauthorized\r\nContent-Type: text/plain\r\nContent-Length: 12\r\nWWW-Authenticate: Bearer\r\nCache-Control: no-store\r\nConnection: close\r\n\r\nUnauthorized".to_vec()
    );
    for (code, reason) in [
        (202, "Accepted"),
        (400, "Bad Request"),
        (404, "Not Found"),
        (409, "Conflict"),
        (429, "OK"),
    ] {
        let head = format!("HTTP/1.1 {code} {reason}\r\n");
        assert!(write_http(code, "t", b"").starts_with(head.as_bytes()));
    }
    assert_eq!(
        write_http_session("c"),
        b"HTTP/1.1 204 No Content\r\nSet-Cookie: c\r\nCache-Control: no-store\r\nConnection: close\r\n\r\n".to_vec()
    );
    assert_eq!(
        write_upgrade("k"),
        b"HTTP/1.1 101 Switching Protocols\r\nUpgrade: websocket\r\nConnection: Upgrade\r\nSec-WebSocket-Accept: k\r\n\r\n".to_vec()
    );
}

fn plain(r: Reply) -> (u16, &'static str) {
    match r {
        Reply::Plain(code, body) => (code, body),
        _ => (0, ""),
    }
}

#[test]
fn routes_of_an_open_server() {
    let s = Server::new(0, None);
    let go = |line: &str| answer(&s, format!("{line} HTTP/1.1\r\n\r\n").as_bytes());
    assert!(matches!(go("GET /"), Reply::Dashboard));
    assert!(matches!(go("GET /?a=b"), Reply::Dashboard));
    assert!(matches!(go("GET /docs"), Reply::Docs));
    assert!(matches!(go("GET /metrics"), Reply::Metrics));
    assert!(matches!(go("GET /api/keys?n=1"), Reply::Keys));
    assert!(matches!(go("POST /aof/rewrite"), Reply::Rewrite));
    assert_eq!(plain(go("GET /aof/rewrite")), (404, "Not Found"));
    assert_eq!(plain(go("GET /login")), (404, "Not Found"));
    assert_eq!(plain(go("GET /nothing")), (404, "Not Found"));
    assert_eq!(plain(go("GET")), (404, "Not Found"));
    assert_eq!(plain(go("GET /ws")), (400, "Bad WebSocket Request"));
    match go("POST /login") {
        Reply::Session(c) => assert_eq!(c, session_cookie("", true)),
        _ => panic!(),
    }
    match go("POST /logout") {
        Reply::Session(c) => assert_eq!(c, session_cookie("", false)),
        _ => panic!(),
    }
    assert_eq!(plain(answer(&s, b"nonsense\r\n\r\n")), (400, "Bad Request"));
}

#[test]
fn data_routes_need_credentials() {
    let s = Server::new(0, Some(b"tok".to_vec()));
    for line in ["GET /metrics", "GET /api/keys", "GET /ws", "POST /login", "POST /aof/rewrite"] {
        for auth in ["", "Authorization: Bearer wrong\r\n", "Cookie: picodb_session=t\r\n"] {
            let req = format!("{line} HTTP/1.1\r\n{auth}\r\n");
            assert_eq!(plain(answer(&s, req.as_bytes())), (401, "Unauthorized"));
        }
        let req = format!("{line} HTTP/1.1\r\nAuthorization: Bearer tok\r\n\r\n");
        assert_ne!(plain(answer(&s, req.as_bytes())).0, 401);
    }
    assert!(matches!(answer(&s, b"GET / HTTP/1.1\r\n\r\n"), Reply::Dashboard));
    assert!(matches!(answer(&s, b"GET /docs HTTP/1.1\r\n\r\n"), Reply::Docs));
    assert!(matches!(answer(&s, REQ), Reply::Keys));
    match answer(&s, b"POST /login HTTP/1.1\r\nAuthorization: Bearer tok\r\n\r\n") {
        Reply::Session(c) => assert_eq!(c, session_cookie("tok", true)),
        _ => panic!(),
    }
}

#[test]
fn a_websocket_is_accepted_with_its_key() {
    let s = Server::new(0, None);
    let req = b"GET /ws HTTP/1.1\r\nSec-WebSocket-Key: dGhlIHNhbXBsZSBub25jZQ==\r\n\r\n";
    match answer(&s, req) {
        Reply::Upgrade(a) => assert_eq!(a, "s3pPLMBiTxaQ9kYGzzhZRbK+xOo="),
        _ => panic!(),
    }
    match answer_with(&s, b"GET /ws x\r\n", "G\r\nSec-WebSocket-Key: k") {
        Reply::Upgrade(_) => {}
        _ => panic!(),
    }
    let route = to_chars("/docs");
    assert!(matches!(route_request(&s, &route, &to_chars("GET"), ""), Reply::Docs));
}

#[test]
fn rewrite_outcomes_have_status_codes() {
    assert_eq!(rewrite_reply(RewriteStatus::Started), (202, "rewrite started\n"));
    assert_eq!(rewrite_reply(RewriteStatus::AlreadyRunning), (409, "rewrite already in progress\n"));
    assert_eq!(rewrite_reply(RewriteStatus::TooSoon), (429, "rewrite rate limited\n"));
    assert_eq!(rewrite_reply(RewriteStatus::Disabled), (409, "AOF disabled\n"));
}

#[test]
fn expired_keys_are_not_counted_as_live() {
    let mut s = Server::new(1 << 20, None);
    let mut out = Vec::new();
    apply_at(&mut s, 1000, ACT_SET, b"a", b"v", 5, &mut out);
    apply_at(&mut s, 1000, ACT_SET, b"b", b"v", 0, &mut out);
    assert!(render_metrics_at(&s, 1004, 1).contains("\npicodb_total_keys 2\n"));
    assert!(render_metrics_at(&s, 1005, 1).contains("\npicodb_total_keys 1\n"));
    assert!(render_metrics(&s, 1).contains("\npicodb_total_keys 1\n"));
    assert_eq!(s.cache.len(), 2);
    assert_eq!(s.cache.live_len(1004), 2);
    assert_eq!(s.cache.live_len(1005), 1);
}

#[test]
fn incomplete_headers_are_a_bad_request() {
    let s = Server::new(1 << 20, None);
    for req in [&b""[..], b"GET / HTTP/1.1\r\n", &[b'x'; 20000]] {
        assert!(matches!(answer_received(&s, req), Reply::Plain(400, "Bad Request")));
    }
    assert!(matches!(answer_received(&s, b"GET / HTTP/1.1\r\n\r\n"), Reply::Dashboard));
}

#[test]
fn metrics_are_plain_text() {
    let mut s = Server::new(1 << 20, None);
    let mut out = Vec::new();
    apply_at(&mut s, 1000, ACT_SET, b"k", b"v", 0, &mut out);
    apply_at(&mut s, 1000, ACT_GET, b"k", b"", 0, &mut out);
    assert_eq!(
        render_metrics(&s, 42),
        "# HELP picodb_uptime_seconds Seconds since the server started.\n\
         # TYPE picodb_uptime_seconds counter\n\
         picodb_uptime_seconds 42\n\
         # HELP picodb_memory_usage_bytes Approximate bytes held by the cache.\n\
         # TYPE picodb_memory_usage_bytes gauge\n\
         picodb_memory_usage_bytes 74\n\
         # HELP picodb_total_keys Current number of live keys.\n\
         # TYPE picodb_total_keys gauge\n\
         picodb_total_keys 1\n\
         # HELP picodb_hits_total Total successful GETs.\n\
         # TYPE picodb_hits_total counter\n\
         picodb_hits_total 1\n\
         # HELP picodb_misses_total Total GET misses (absent or expired).\n\
         # TYPE picodb_misses_total counter\n\
         picodb_misses_total 0\n\
         # HELP picodb_aof_enabled Whether append-only persistence is enabled (1/0).\n\
         # TYPE picodb_aof_enabled gauge\n\
         picodb_aof_enabled 0\n"
    );
    let (tx, _rx) = channel();
    s.aof = Some(Aof::new(tx, 99, 30));
    assert!(render_metrics(&s, 42).ends_with(
        "picodb_aof_enabled 1\n\
         # HELP picodb_aof_size_bytes Approximate current AOF size in bytes.\n\
         # TYPE picodb_aof_size_bytes gauge\n\
         picodb_aof_size_bytes 99\n\
         # HELP picodb_aof_rewrites_total Completed AOF rewrites (compactions).\n\
         # TYPE picodb_aof_rewrites_total counter\n\
         picodb_aof_rewrites_total 0\n\
         # HELP picodb_aof_healthy Whether the AOF writer thread is healthy (1/0).\n\
         # TYPE picodb_aof_healthy gauge\n\
         picodb_aof_healthy 1\n\
         # HELP picodb_aof_write_errors_total Total AOF write errors.\n\
         # TYPE picodb_aof_write_errors_total counter\n\
         picodb_aof_write_errors_total 0\n"
    ));
}

#[test]
fn keys_are_listed_as_json() {
    let mut s = Server::new(1 << 20, None);
    assert_eq!(
        render_api_keys_at(&s, 1000, 7),
        "{\"uptime_seconds\":7,\"memory_usage_bytes\":0,\"total_keys\":0,\"hits\":0,\"misses\":0,\
         \"aof_enabled\":false,\"aof_size_bytes\":0,\"aof_healthy\":1,\"keys\":[]}"
    );
    let mut out = Vec::new();
    apply_at(&mut s, 1000, ACT_SET, b"a\"b", b"vv", 60, &mut out);
    apply_at(&mut s, 1000, ACT_SADD, b"s", &[0, 0, 0, 1, b'm'], 0, &mut out);
    let (tx, _rx) = channel();
    s.aof = Some(Aof::new(tx, 5, 30));
    assert_eq!(
        render_api_keys_at(&s, 1010, 7),
        "{\"uptime_seconds\":7,\"memory_usage_bytes\":175,\"total_keys\":2,\"hits\":0,\"misses\":0,\
         \"aof_enabled\":true,\"aof_size_bytes\":5,\"aof_healthy\":1,\"keys\":[\
         {\"key\":\"s\",\"type\":\"set\",\"size\":25,\"count\":1,\"ttl\":null},\
         {\"key\":\"a\\\"b\",\"type\":\"string\",\"size\":2,\"count\":2,\"ttl\":50}]}"
    );
    assert!(render_api_keys(&s, 1).contains("\"total_keys\":2"));
}

#[test]
fn json_escapes() {
    let mut s = String::from("x");
    json_escape_text(&mut s, "a\"\\\n\r\t\u{1}\u{1f} é\u{7f}");
    assert_eq!(s, "xa\\\"\\\\\\n\\r\\t\\u0001\\u001f é\u{7f}");
}

#[test]
fn text_helpers() {
    let s = to_chars(" \tab c\n");
    assert_eq!(from_chars(trim(&s)), "ab c");
    assert_eq!(from_chars(trim(&to_chars(" \r\n "))), "");
    assert_eq!(from_chars(trim(&to_chars("\u{85}x\u{2028}"))), "x");
    assert_eq!(from_chars(trim(&to_chars("\u{200b}x"))), "\u{200b}x");
    for n in 0..0x11_0000u32 {
        if let Some(c) = char::from_u32(n) {
            assert_eq!(trim(&[c]).is_empty(), c.is_whitespace());
        }
    }
    assert_eq!(find(&s, 'b'), 3);
    assert_eq!(find(&s, 'z'), 7);
    assert_eq!(from_chars(piece(&s, 2, 4)), "ab");
    assert!(same(&to_chars("ab"), &to_chars("ab")));
    assert!(!same(&to_chars("ab"), &to_chars("aB")));
    assert!(eq_ignoring_case(&to_chars("aBz"), &to_chars("AbZ")));
    assert!(!eq_ignoring_case(&to_chars("é"), &to_chars("É")));
    assert!(!eq_ignoring_case(&to_chars("[@"), &to_chars("{`")));
    assert_eq!(strip_prefix(&to_chars("abc"), &to_chars("ab")), Some(&['c'][..]));
    assert_eq!(strip_prefix(&to_chars("a"), &to_chars("ab")), None);
}

#[test]
fn numbers_read_back() {
    for n in [0u64, 9, 10, 99, 100, 12345, u64::MAX] {
        let mut s = String::from("n=");
        put_decimal(&mut s, n);
        assert_eq!(s, format!("n={n}"));
        assert_eq!(parse_number(&s[2..], u64::MAX), Some(n));
    }
    assert_eq!(parse_number("+7", 10), Some(7));
    assert_eq!(parse_number("007", 10), Some(7));
    assert_eq!(parse_number("11", 10), None);
    for bad in ["", "+", "-1", " 1", "1 ", "1a", "++1", "18446744073709551616"] {
        assert_eq!(parse_number(bad, u64::MAX), None);
    }
}

#[test]
fn settings_and_their_defaults() {
    assert_eq!(config_cap(None), 52428800);
    assert_eq!(config_cap(Some("1024")), 1024);
    assert_eq!(config_cap(Some("lots")), 52428800);
    assert_eq!(config_bind(None), "127.0.0.1");
    assert_eq!(config_bind(Some("0.0.0.0")), "0.0.0.0");
    assert_eq!(config_port(None, DEFAULT_PORT_ENGINE), 7120);
    assert_eq!(config_port(Some("65536"), DEFAULT_PORT_HTTP), 7121);
    assert_eq!(config_port(Some("80"), 7120), 80);
    assert_eq!(config_aof_path(None), None);
    assert_eq!(config_aof_path(Some("")), None);
    assert_eq!(config_aof_path(Some("x.aof")), Some("x.aof"));
    assert_eq!(config_aof_fsync(None), Fsync::EverySec);
    assert_eq!(config_aof_fsync(Some("never")), Fsync::No);
    assert_eq!(config_aof_rewrite_min(None), 67108864);
    assert_eq!(config_aof_rewrite_min(Some("5")), 5);
    assert_eq!(config_aof_rewrite_min_interval(None), 30);
    assert_eq!(config_aof_rewrite_min_interval(Some("0")), 0);
}

#[test]
fn the_secret_is_the_token_or_user_and_password() {
    assert_eq!(config_token(Some("t"), Some("p"), Some("u")), Some(b"t".to_vec()));
    assert_eq!(config_token(Some(""), Some("p"), Some("u")), Some(b"u:p".to_vec()));
    assert_eq!(config_token(None, Some("p"), None), Some(b"default:p".to_vec()));
    assert_eq!(config_token(None, Some(""), Some("u")), None);
    assert_eq!(config_token(None, None, Some("u")), None);
}

#[test]
fn exposure_without_credentials_is_noticed() {
    assert!(exposed("0.0.0.0", false));
    assert!(!exposed("0.0.0.0", true));
    assert!(!exposed("127.0.0.1", false));
    assert!(!exposed("localhost", false));
}

#[test]
fn replies_are_sent_with_their_status_and_content_type() {
    let html = Some((200, "text/html; charset=utf-8"));
    assert_eq!(page_head(&Reply::Dashboard), html);
    assert_eq!(page_head(&Reply::Docs), html);
    assert_eq!(page_head(&Reply::Plain(404, "Not Found")), Some((404, "text/plain")));
    assert_eq!(page_head(&Reply::Metrics), Some((200, "text/plain; version=0.0.4")));
    assert_eq!(page_head(&Reply::Keys), Some((200, "application/json")));
    assert_eq!(page_head(&Reply::Session(String::new())), None);
    assert_eq!(page_head(&Reply::Rewrite), None);
    assert_eq!(page_head(&Reply::Upgrade(String::new())), None);
}
