//! The metrics page and the JSON list of keys.
use vstd::prelude::*;
use vstd::utf8::{decode_utf8, valid_utf8};

use crate::aof::{Aof, AofView};
use crate::clock::{clock_reads, now_secs};
use crate::dump::{info_view, snapshot_of, KeyInfo, KeyInfoView};
use crate::server::{Server, ServerView};
use crate::text::{decimal, lossy, put_decimal, to_chars, utf8_lossy};

verus! {

/// One metric: its help and type lines, and its value.
#[verifier::opaque]
pub open spec fn metric(
    name: Seq<char>,
    help: Seq<char>,
    kind: Seq<char>,
    value: nat,
) -> Seq<char> {
    "# HELP "@ + name + " "@ + help + "\n# TYPE "@ + name + " "@ + kind + "\n"@ + name + " "@
        + decimal(value) + "\n"@
}

/// A truth value as a number.
pub open spec fn bit(b: bool) -> nat {
    if b {
        1
    } else {
        0
    }
}

/// The metrics of the log.
pub open spec fn aof_metrics(a: AofView) -> Seq<char> {
    metric(
        "picodb_aof_size_bytes"@,
        "Approximate current AOF size in bytes."@,
        "gauge"@,
        a.size as nat,
    ) + metric(
        "picodb_aof_rewrites_total"@,
        "Completed AOF rewrites (compactions)."@,
        "counter"@,
        a.rewrites as nat,
    ) + metric(
        "picodb_aof_healthy"@,
        "Whether the AOF writer thread is healthy (1/0)."@,
        "gauge"@,
        bit(a.healthy),
    ) + metric(
        "picodb_aof_write_errors_total"@,
        "Total AOF write errors."@,
        "counter"@,
        a.write_errors as nat,
    )
}

/// The Prometheus plain-text exposition at the time `now`.
pub open spec fn metrics_text(s: ServerView, now: u64, uptime: u64) -> Seq<char> {
    metric(
        "picodb_uptime_seconds"@,
        "Seconds since the server started."@,
        "counter"@,
        uptime as nat,
    ) + metric(
        "picodb_memory_usage_bytes"@,
        "Approximate bytes held by the cache."@,
        "gauge"@,
        s.cache.used(),
    ) + metric(
        "picodb_total_keys"@,
        "Current number of live keys."@,
        "gauge"@,
        snapshot_of(s.cache.entries, now).len(),
    ) + metric("picodb_hits_total"@, "Total successful GETs."@, "counter"@, s.hits as nat) + metric(
        "picodb_misses_total"@,
        "Total GET misses (absent or expired)."@,
        "counter"@,
        s.misses as nat,
    ) + metric(
        "picodb_aof_enabled"@,
        "Whether append-only persistence is enabled (1/0)."@,
        "gauge"@,
        bit(s.aof is Some),
    ) + (match s.aof {
        Some(a) => aof_metrics(a),
        None => seq![],
    })
}

/// Appends a metric.
fn put_metric(out: &mut String, name: &str, help: &str, kind: &str, value: u64)
    ensures
        final(out)@ == old(out)@ + metric(name@, help@, kind@, value as nat),
{
    reveal(metric);
    out.append("# HELP ");
    out.append(name);
    out.append(" ");
    out.append(help);
    out.append("\n# TYPE ");
    out.append(name);
    out.append(" ");
    out.append(kind);
    out.append("\n");
    out.append(name);
    out.append(" ");
    put_decimal(out, value);
    out.append("\n");
    assert(out@ =~= old(out)@ + metric(name@, help@, kind@, value as nat));
}

fn bit_of(b: bool) -> (r: u64)
    ensures
        r == bit(b),
{
    if b {
        1
    } else {
        0
    }
}

/// Appends the metrics of the log.
fn put_aof_metrics(s: &mut String, aof: &Aof)
    ensures
        final(s)@ == old(s)@ + aof_metrics(aof@),
{
    put_metric(
        s,
        "picodb_aof_size_bytes",
        "Approximate current AOF size in bytes.",
        "gauge",
        aof.size,
    );
    put_metric(
        s,
        "picodb_aof_rewrites_total",
        "Completed AOF rewrites (compactions).",
        "counter",
        aof.rewrites,
    );
    put_metric(
        s,
        "picodb_aof_healthy",
        "Whether the AOF writer thread is healthy (1/0).",
        "gauge",
        bit_of(aof.healthy),
    );
    put_metric(
        s,
        "picodb_aof_write_errors_total",
        "Total AOF write errors.",
        "counter",
        aof.write_errors,
    );
    assert(s@ =~= old(s)@ + aof_metrics(aof@));
}

/// Prometheus plain-text exposition at the time `now`, `uptime` seconds after the start.
pub fn render_metrics_at(server: &Server, now: u64, uptime: u64) -> (s: String)
    requires
        server.wf(),
    ensures
        s@ == metrics_text(server@, now, uptime),
{
    let mut s: String = String::new();
    put_metric(
        &mut s,
        "picodb_uptime_seconds",
        "Seconds since the server started.",
        "counter",
        uptime,
    );
    put_metric(
        &mut s,
        "picodb_memory_usage_bytes",
        "Approximate bytes held by the cache.",
        "gauge",
        server.cache.used() as u64,
    );
    put_metric(
        &mut s,
        "picodb_total_keys",
        "Current number of live keys.",
        "gauge",
        server.cache.live_len(now) as u64,
    );
    put_metric(&mut s, "picodb_hits_total", "Total successful GETs.", "counter", server.hits);
    put_metric(
        &mut s,
        "picodb_misses_total",
        "Total GET misses (absent or expired).",
        "counter",
        server.misses,
    );
    put_metric(
        &mut s,
        "picodb_aof_enabled",
        "Whether append-only persistence is enabled (1/0).",
        "gauge",
        bit_of(server.aof.is_some()),
    );
    if let Some(aof) = &server.aof {
        put_aof_metrics(&mut s, aof);
    }
    assert(s@ =~= metrics_text(server@, now, uptime));
    s
}

/// Prometheus plain-text exposition, `uptime` seconds after the start.
pub fn render_metrics(server: &Server, uptime: u64) -> (s: String)
    requires
        server.wf(),
    ensures
        exists|now: u64|
            clock_reads(now) && s@ == #[trigger] metrics_text(server@, now, uptime),
{
    let now: u64 = now_secs();
    render_metrics_at(server, now, uptime)
}

/// A lower-case hexadecimal digit.
pub open spec fn hex_digit(n: nat) -> char {
    if n < 10 {
        (48 + n) as char
    } else {
        (87 + n) as char
    }
}

/// A character within a JSON string.
pub open spec fn escaped_char(c: char) -> Seq<char> {
    if c == '"' {
        seq!['\\', '"']
    } else if c == '\\' {
        seq!['\\', '\\']
    } else if c == '\n' {
        seq!['\\', 'n']
    } else if c == '\r' {
        seq!['\\', 'r']
    } else if c == '\t' {
        seq!['\\', 't']
    } else if (c as u32) < 0x20 {
        seq![
            '\\',
            'u',
            '0',
            '0',
            hex_digit((c as u32 / 16) as nat),
            hex_digit((c as u32 % 16) as nat),
        ]
    } else {
        seq![c]
    }
}

/// A text within a JSON string.
pub open spec fn escaped(s: Seq<char>) -> Seq<char>
    decreases s.len(),
{
    if s.len() == 0 {
        seq![]
    } else {
        escaped(s.drop_last()) + escaped_char(s.last())
    }
}

fn hex_of(n: u32) -> (c: char)
    requires
        n < 16,
    ensures
        c == hex_digit(n as nat),
{
    if n < 10 {
        (48 + n as u8) as char
    } else {
        (87 + n as u8) as char
    }
}

/// Appends a text, escaping per the JSON string spec.
pub fn json_escape_text(out: &mut String, text: &str)
    ensures
        final(out)@ == old(out)@ + escaped(text@),
{
    let chars: Vec<char> = to_chars(text);
    let mut i: usize = 0;
    assert(chars@.take(0) =~= seq![]);
    assert(out@ =~= old(out)@ + escaped(chars@.take(0)));
    while i < chars.len()
        invariant
            i <= chars@.len(),
            out@ == old(out)@ + escaped(chars@.take(i as int)),
        decreases chars@.len() - i,
    {
        let ghost held = out@;
        let c: char = chars[i];
        if c == '"' {
            out.push('\\');
            out.push('"');
        } else if c == '\\' {
            out.push('\\');
            out.push('\\');
        } else if c == '\n' {
            out.push('\\');
            out.push('n');
        } else if c == '\r' {
            out.push('\\');
            out.push('r');
        } else if c == '\t' {
            out.push('\\');
            out.push('t');
        } else if (c as u32) < 0x20 {
            out.push('\\');
            out.push('u');
            out.push('0');
            out.push('0');
            out.push(hex_of(c as u32 / 16));
            out.push(hex_of(c as u32 % 16));
        } else {
            out.push(c);
        }
        assert(out@ =~= held + escaped_char(c));
        assert(chars@.take(i + 1).drop_last() =~= chars@.take(i as int));
        assert(out@ =~= old(out)@ + escaped(chars@.take(i + 1)));
        i += 1;
    }
    assert(chars@.take(i as int) =~= chars@);
}

/// Append `bytes` (as UTF-8 lossy) to `out`, escaping per the JSON string spec.
pub fn json_escape_into(out: &mut String, bytes: &[u8])
    ensures
        final(out)@ == old(out)@ + escaped(utf8_lossy(bytes@)),
        valid_utf8(bytes@) ==> final(out)@ == old(out)@ + escaped(decode_utf8(bytes@)),
{
    let text: String = lossy(bytes);
    json_escape_text(out, text.as_str());
}

/// A key in the JSON list.
pub open spec fn key_json(i: KeyInfoView) -> Seq<char> {
    "{\"key\":\""@ + escaped(utf8_lossy(i.0)) + "\",\"type\":\""@ + i.1 + "\",\"size\":"@ + decimal(
        i.2,
    ) + ",\"count\":"@ + decimal(i.3) + ",\"ttl\":"@ + (match i.4 {
        Some(t) => decimal(t as nat),
        None => "null"@,
    }) + "}"@
}

/// Keys in the JSON list, separated by commas.
pub open spec fn keys_json(s: Seq<KeyInfoView>) -> Seq<char>
    decreases s.len(),
{
    if s.len() == 0 {
        seq![]
    } else if s.len() == 1 {
        key_json(s[0])
    } else {
        keys_json(s.drop_last()) + ","@ + key_json(s.last())
    }
}

/// A truth value in JSON.
pub open spec fn bool_json(b: bool) -> Seq<char> {
    if b {
        "true"@
    } else {
        "false"@
    }
}

/// The JSON for `/api/keys`.
pub open spec fn api_keys_text(s: ServerView, now: u64, uptime: u64) -> Seq<char> {
    "{\"uptime_seconds\":"@ + decimal(uptime as nat) + ",\"memory_usage_bytes\":"@ + decimal(
        s.cache.used(),
    ) + ",\"total_keys\":"@ + decimal(s.cache.entries.len()) + ",\"hits\":"@ + decimal(
        s.hits as nat,
    ) + ",\"misses\":"@ + decimal(s.misses as nat) + ",\"aof_enabled\":"@ + bool_json(s.aof is Some)
        + ",\"aof_size_bytes\":"@ + decimal(
        match s.aof {
            Some(a) => a.size as nat,
            None => 0,
        },
    ) + ",\"aof_healthy\":"@ + decimal(
        match s.aof {
            Some(a) => bit(a.healthy),
            None => 1,
        },
    ) + ",\"keys\":["@ + keys_json(snapshot_of(s.cache.entries, now)) + "]}"@
}

/// Appends a key of the JSON list.
fn put_key(out: &mut String, info: &KeyInfo)
    ensures
        final(out)@ == old(out)@ + key_json(info_view(*info)),
{
    out.append("{\"key\":\"");
    json_escape_into(out, info.0.as_slice());
    out.append("\",\"type\":\"");
    out.append(info.1);
    out.append("\",\"size\":");
    put_decimal(out, info.2 as u64);
    out.append(",\"count\":");
    put_decimal(out, info.3 as u64);
    out.append(",\"ttl\":");
    match info.4 {
        Some(t) => put_decimal(out, t),
        None => out.append("null"),
    }
    out.append("}");
    assert(out@ =~= old(out)@ + key_json(info_view(*info)));
}

/// Appends the keys of the JSON list.
fn put_keys(out: &mut String, entries: &Vec<KeyInfo>)
    ensures
        final(out)@ == old(out)@ + keys_json(entries@.map_values(|i: KeyInfo| info_view(i))),
{
    let ghost all = entries@.map_values(|i: KeyInfo| info_view(i));
    let mut i: usize = 0;
    assert(all.take(0) =~= seq![]);
    assert(out@ =~= old(out)@ + keys_json(all.take(0)));
    while i < entries.len()
        invariant
            i <= entries@.len(),
            all == entries@.map_values(|i: KeyInfo| info_view(i)),
            out@ == old(out)@ + keys_json(all.take(i as int)),
        decreases entries@.len() - i,
    {
        if i > 0 {
            out.append(",");
        }
        put_key(out, &entries[i]);
        assert(all.take(i + 1).drop_last() =~= all.take(i as int));
        assert(out@ =~= old(out)@ + keys_json(all.take(i + 1)));
        i += 1;
    }
    assert(all.take(i as int) =~= all);
}

/// JSON for `/api/keys` at the time `now`. Keys are rendered as UTF-8 (lossy) strings with
/// the mandatory JSON escapes applied.
pub fn render_api_keys_at(server: &Server, now: u64, uptime: u64) -> (s: String)
    requires
        server.wf(),
    ensures
        s@ == api_keys_text(server@, now, uptime),
{
    let entries: Vec<KeyInfo> = server.cache.snapshot(now);
    let (size, healthy): (u64, bool) = match &server.aof {
        Some(a) => (a.size, a.healthy),
        None => (0, true),
    };
    let mut s: String = "{\"uptime_seconds\":".to_owned();
    put_decimal(&mut s, uptime);
    s.append(",\"memory_usage_bytes\":");
    put_decimal(&mut s, server.cache.used() as u64);
    s.append(",\"total_keys\":");
    put_decimal(&mut s, server.cache.len() as u64);
    s.append(",\"hits\":");
    put_decimal(&mut s, server.hits);
    s.append(",\"misses\":");
    put_decimal(&mut s, server.misses);
    s.append(",\"aof_enabled\":");
    if server.aof.is_some() {
        s.append("true");
    } else {
        s.append("false");
    }
    s.append(",\"aof_size_bytes\":");
    put_decimal(&mut s, size);
    s.append(",\"aof_healthy\":");
    put_decimal(&mut s, bit_of(healthy));
    s.append(",\"keys\":[");
    put_keys(&mut s, &entries);
    s.append("]}");
    assert(s@ =~= api_keys_text(server@, now, uptime));
    s
}

/// JSON for `/api/keys`, `uptime` seconds after the start.
pub fn render_api_keys(server: &Server, uptime: u64) -> (s: String)
    requires
        server.wf(),
    ensures
        exists|now: u64|
            clock_reads(now) && s@ == #[trigger] api_keys_text(server@, now, uptime),
{
    let now: u64 = now_secs();
    render_api_keys_at(server, now, uptime)
}

/// The value of a hexadecimal digit.
pub open spec fn hex_value(c: char) -> int {
    if '0' <= c <= '9' {
        c as u32 - 48
    } else {
        c as u32 - 87
    }
}

/// The character that an escape of one letter stands for.
pub open spec fn short_escape(c: char) -> char {
    if c == 'n' {
        '\n'
    } else if c == 'r' {
        '\r'
    } else if c == 't' {
        '\t'
    } else {
        c
    }
}

/// The text of a JSON string, read up to the quote that closes it, and what follows.
pub open spec fn json_string(s: Seq<char>) -> (Seq<char>, Seq<char>)
    decreases s.len(),
{
    if s.len() == 0 || s[0] == '"' {
        (seq![], s)
    } else if s[0] != '\\' {
        let (t, rest) = json_string(s.drop_first());
        (seq![s[0]] + t, rest)
    } else if s.len() >= 6 && s[1] == 'u' {
        let (t, rest) = json_string(s.skip(6));
        (seq![(hex_value(s[4]) * 16 + hex_value(s[5])) as char] + t, rest)
    } else if s.len() >= 2 {
        let (t, rest) = json_string(s.skip(2));
        (seq![short_escape(s[1])] + t, rest)
    } else {
        (seq![], s)
    }
}

/// Reading one escaped character.
proof fn lemma_json_char(c: char, s: Seq<char>)
    ensures
        json_string(escaped_char(c) + s) == (seq![c] + json_string(s).0, json_string(s).1),
{
    let e = escaped_char(c);
    let all = e + s;
    let n = c as u32;
    assert(all[0] == e[0]);
    if e.len() == 1 {
        assert(all.drop_first() =~= s);
    } else if e.len() == 2 {
        assert(all[1] == e[1]);
        assert(all.skip(2) =~= s);
    } else {
        assert(all[1] == 'u');
        assert(all[4] == e[4] && all[5] == e[5]);
        assert(all.skip(6) =~= s);
        assert(hex_value(e[4]) * 16 + hex_value(e[5]) == n);
    }
}

/// The first character comes first.
proof fn lemma_escaped_first(s: Seq<char>)
    requires
        s.len() > 0,
    ensures
        escaped(s) == escaped_char(s[0]) + escaped(s.drop_first()),
    decreases s.len(),
{
    let front = s.drop_last();
    if front.len() == 0 {
        assert(s.drop_first() =~= seq![]);
        assert(front =~= seq![]);
        assert(escaped(s) =~= escaped_char(s[0]) + escaped(s.drop_first()));
    } else {
        lemma_escaped_first(front);
        assert(s.drop_first().drop_last() =~= front.drop_first());
        assert(escaped(s) =~= escaped_char(s[0]) + escaped(s.drop_first()));
    }
}

/// An escaped text between quotes is read back as the text: no character of it closes the
/// string early.
pub proof fn law_json_round_trip(s: Seq<char>, rest: Seq<char>)
    requires
        rest.len() > 0,
        rest[0] == '"',
    ensures
        json_string(escaped(s) + rest) == (s, rest),
    decreases s.len(),
{
    if s.len() == 0 {
        assert(escaped(s) + rest =~= rest);
        assert(s =~= seq![]);
    } else {
        lemma_escaped_first(s);
        let tail = escaped(s.drop_first()) + rest;
        assert(escaped(s) + rest =~= escaped_char(s[0]) + tail);
        lemma_json_char(s[0], tail);
        law_json_round_trip(s.drop_first(), rest);
        assert(seq![s[0]] + s.drop_first() =~= s);
    }
}

/// An escaped text holds no control characters.
pub proof fn law_json_has_no_control_characters(s: Seq<char>)
    ensures
        forall|i: int| 0 <= i < escaped(s).len() ==> (#[trigger] escaped(s)[i]) as u32 >= 0x20,
    decreases s.len(),
{
    if s.len() > 0 {
        let front = escaped(s.drop_last());
        let e = escaped_char(s.last());
        law_json_has_no_control_characters(s.drop_last());
        assert forall|i: int| 0 <= i < escaped(s).len() implies (#[trigger] escaped(s)[i]) as u32
            >= 0x20 by {
            if i < front.len() {
                assert(escaped(s)[i] == front[i]);
            } else {
                assert(escaped(s)[i] == e[i - front.len()]);
            }
        }
    }
}

} // verus!
