//! Configuration: what the values of the environment variables mean. An unset variable is
//! `None`.
use vstd::prelude::*;
use vstd::utf8::encode_utf8;

use crate::aof::{policy_of, Fsync};
use crate::bytes::to_vec;
use crate::text::{decimal, law_number_of_decimal, law_numbers, number_of, parse_number};

verus! {

pub const DEFAULT_PORT_ENGINE: u16 = 7120;

pub const DEFAULT_PORT_HTTP: u16 = 7121;

/// 50 MiB.
pub const DEFAULT_CAP: usize = 52428800;

/// 64 MiB.
pub const DEFAULT_REWRITE_MIN: u64 = 67108864;

/// Seconds.
pub const DEFAULT_REWRITE_INTERVAL: u64 = 30;

/// The number in a setting, or a default if it is unset, no number, or more than `max`.
pub open spec fn number_or(v: Option<&str>, max: nat, default: nat) -> nat {
    match v {
        Some(s) => match number_of(s@, max) {
            Some(n) => n,
            None => default,
        },
        None => default,
    }
}

fn read_number(v: Option<&str>, max: u64, default: u64) -> (r: u64)
    requires
        default <= max,
    ensures
        r == number_or(v, max as nat, default as nat),
        r <= max,
{
    match v {
        Some(s) => match parse_number(s, max) {
            Some(n) => n,
            None => default,
        },
        None => default,
    }
}

/// The RAM cap in bytes (default 50 MiB).
pub fn config_cap(max_bytes: Option<&str>) -> (r: usize)
    ensures
        r == number_or(max_bytes, usize::MAX as nat, DEFAULT_CAP as nat),
{
    read_number(max_bytes, usize::MAX as u64, DEFAULT_CAP as u64) as usize
}

/// The shared auth secret that settings give.
pub open spec fn secret_of(
    token: Option<Seq<char>>,
    password: Option<Seq<char>>,
    username: Option<Seq<char>>,
) -> Option<Seq<u8>> {
    if token matches Some(t) && t.len() > 0 {
        Some(encode_utf8(token->0))
    } else if password matches Some(p) && p.len() > 0 {
        let user = match username {
            Some(u) => u,
            None => "default"@,
        };
        Some(encode_utf8(user + ":"@ + password->0))
    } else {
        None
    }
}

/// The characters of a setting.
pub open spec fn setting(v: Option<&str>) -> Option<Seq<char>> {
    match v {
        Some(s) => Some(s@),
        None => None,
    }
}

/// Resolve the shared auth secret. Priority:
///   1. the token                          -> secret is the token verbatim
///   2. the password (+ optional username, -> secret is "username:password"
///      default "default")
///   3. neither set                        -> auth disabled
/// Clients send this exact string in the AUTH frame / as the HTTP Bearer token.
pub fn config_token(token: Option<&str>, password: Option<&str>, username: Option<&str>) -> (r:
    Option<Vec<u8>>)
    ensures
        match r {
            Some(secret) => secret_of(setting(token), setting(password), setting(username)) == Some(
                secret@,
            ),
            None => secret_of(setting(token), setting(password), setting(username)) is None,
        },
{
    if let Some(t) = token {
        if !is_empty(t) {
            return Some(to_vec(t.as_bytes()));
        }
    }
    if let Some(p) = password {
        if !is_empty(p) {
            let mut secret: String = match username {
                Some(u) => u.to_owned(),
                None => "default".to_owned(),
            };
            secret.append(":");
            secret.append(p);
            return Some(to_vec(secret.as_str().as_bytes()));
        }
    }
    None
}

/// Whether a text has no characters.
fn is_empty(s: &str) -> (r: bool)
    ensures
        r == (s@.len() == 0),
{
    s.unicode_len() == 0
}

/// Address to bind both listeners to. Defaults to loopback (`127.0.0.1`) — the
/// security boundary. Set it to `0.0.0.0` to expose on all interfaces
/// (only do this with a token set, and ideally TLS via a reverse proxy).
pub fn config_bind(bind: Option<&str>) -> (r: String)
    ensures
        r@ == (match bind {
            Some(b) => b@,
            None => "127.0.0.1"@,
        }),
{
    match bind {
        Some(b) => b.to_owned(),
        None => "127.0.0.1".to_owned(),
    }
}

/// Whether clients on other hosts could reach a server that asks for no credentials.
pub fn exposed(bind: &str, auth_enabled: bool) -> (r: bool)
    ensures
        r == (bind@ != "127.0.0.1"@ && bind@ != "localhost"@ && !auth_enabled),
{
    let b: String = bind.to_owned();
    let loopback: String = "127.0.0.1".to_owned();
    let local: String = "localhost".to_owned();
    !(b == loopback) && !(b == local) && !auth_enabled
}

/// Parse a `u16` port, falling back to `default` when unset/invalid.
pub fn config_port(port: Option<&str>, default: u16) -> (r: u16)
    ensures
        r == number_or(port, u16::MAX as nat, default as nat),
{
    read_number(port, u16::MAX as u64, default as u64) as u16
}

/// AOF log path. Unset/empty -> AOF disabled (pure in-memory, the default).
pub fn config_aof_path<'a>(path: Option<&'a str>) -> (r: Option<&'a str>)
    ensures
        r == (match path {
            Some(p) if p@.len() > 0 => Some(p),
            _ => None,
        }),
{
    match path {
        Some(p) => {
            if is_empty(p) {
                None
            } else {
                Some(p)
            }
        },
        None => None,
    }
}

/// Durability policy for the AOF writer (default `everysec`).
pub fn config_aof_fsync(policy: Option<&str>) -> (r: Fsync)
    ensures
        r == (match policy {
            Some(p) => policy_of(p@),
            None => Fsync::EverySec,
        }),
{
    match policy {
        Some(p) => Fsync::parse(p),
        None => Fsync::EverySec,
    }
}

/// Minimum AOF size before an automatic rewrite is considered (default 64 MiB).
pub fn config_aof_rewrite_min(min_bytes: Option<&str>) -> (r: u64)
    ensures
        r == number_or(min_bytes, u64::MAX as nat, DEFAULT_REWRITE_MIN as nat),
{
    read_number(min_bytes, u64::MAX, DEFAULT_REWRITE_MIN)
}

/// Minimum interval in seconds between manual rewrites (default 30). The
/// background auto-compaction task is unaffected by this limit.
pub fn config_aof_rewrite_min_interval(secs: Option<&str>) -> (r: u64)
    ensures
        r == number_or(secs, u64::MAX as nat, DEFAULT_REWRITE_INTERVAL as nat),
{
    read_number(secs, u64::MAX, DEFAULT_REWRITE_INTERVAL)
}

/// A setting that is a number no larger than it may be is taken; one that is unset, no number or
/// too large leaves the default.
pub proof fn law_number_setting(v: &str, n: nat, max: nat, default: nat)
    ensures
        v@ == decimal(n) && n <= max ==> number_or(Some(v), max, default) == n,
        v@ == decimal(n) && n > max ==> number_or(Some(v), max, default) == default,
        (exists|i: int| 0 < i < v@.len() && !('0' <= #[trigger] v@[i] <= '9')) && v@[0] != '+'
            ==> number_or(Some(v), max, default) == default,
        v@.len() == 0 ==> number_or(Some(v), max, default) == default,
        number_or(None, max, default) == default,
{
    if n <= max {
        law_number_of_decimal(n, max);
    } else {
        law_number_of_decimal(n, n);
    }
    if v@.len() > 0 && v@[0] != '+' {
        law_numbers(v@, '0', max);
    }
}

/// The secret: the token, if one is set; otherwise the user and the password, with a colon in
/// between and `default` for a missing user; and none if neither is set. Empty settings count
/// as unset, but for the user.
pub proof fn law_secret(t: Seq<char>, p: Seq<char>, u: Seq<char>)
    ensures
        t.len() > 0 ==> secret_of(Some(t), Some(p), Some(u)) == Some(encode_utf8(t)),
        t.len() > 0 ==> secret_of(Some(t), None, None) == Some(encode_utf8(t)),
        p.len() > 0 ==> secret_of(None, Some(p), Some(u)) == Some(
            encode_utf8(u + seq![':'] + p),
        ),
        p.len() > 0 && t.len() == 0 ==> secret_of(Some(t), Some(p), Some(u)) == Some(
            encode_utf8(u + seq![':'] + p),
        ),
        p.len() > 0 ==> secret_of(None, Some(p), None) == Some(
            encode_utf8("default"@ + seq![':'] + p),
        ),
        t.len() == 0 && p.len() == 0 ==> secret_of(Some(t), Some(p), Some(u)) is None,
        secret_of(None, None, Some(u)) is None,
        secret_of(None, None, None) is None,
{
    reveal_strlit(":");
    assert(":"@ =~= seq![':']);
}

/// The defaults: port 7120 for the engine and 7121 for HTTP, 50 MiB of memory, a log of 64 MiB
/// before it is compacted, and 30 seconds between manual rewrites.
pub proof fn law_defaults()
    ensures
        DEFAULT_PORT_ENGINE == 7120,
        DEFAULT_PORT_HTTP == 7121,
        DEFAULT_CAP == 50 * 1024 * 1024,
        DEFAULT_REWRITE_MIN == 64 * 1024 * 1024,
        DEFAULT_REWRITE_INTERVAL == 30,
{
}

/// Which servers are exposed: those that listen anywhere but on the loopback, by its address or by
/// its name, and ask for no credentials.
pub proof fn law_exposed(bind: &str, auth_enabled: bool, r: bool)
    requires
        call_ensures(exposed, (bind, auth_enabled), r),
    ensures
        r <==> !auth_enabled && bind@ != "127.0.0.1"@ && bind@ != "localhost"@,
{
}

/// What unset settings come down to: the loopback, no log, a fsync every second, and the default
/// numbers; a setting that is there is taken as it is, but for an empty path, which means no
/// log, too.
pub proof fn law_settings(
    v: &str,
    bind: String,
    own: String,
    path: Option<&str>,
    fsync: Fsync,
    cap: usize,
    port: u16,
    default: u16,
    min: u64,
    interval: u64,
)
    ensures
        call_ensures(config_bind, (None::<&str>,), bind) ==> bind@ == "127.0.0.1"@,
        call_ensures(config_bind, (Some(v),), own) ==> own@ == v@,
        call_ensures(config_aof_path, (None::<&str>,), path) ==> path is None,
        call_ensures(config_aof_path, (Some(v),), path) ==> (path is None <==> v@.len() == 0) && (
        path matches Some(p) ==> p@ == v@),
        call_ensures(config_aof_fsync, (None::<&str>,), fsync) ==> fsync == Fsync::EverySec,
        call_ensures(config_aof_fsync, (Some(v),), fsync) ==> fsync == policy_of(v@),
        call_ensures(config_cap, (None::<&str>,), cap) ==> cap == 52428800,
        call_ensures(config_port, (None::<&str>, default), port) ==> port == default,
        call_ensures(config_aof_rewrite_min, (None::<&str>,), min) ==> min == 67108864,
        call_ensures(config_aof_rewrite_min_interval, (None::<&str>,), interval) ==> interval == 30,
{
}

} // verus!
