//! The JSON list of keys as a JSON reader sees it: each value is found under its name.
use vstd::prelude::*;

use crate::dump::{info_of, snapshot_of, KeyInfoView};
use crate::model::Record;
use crate::render::{
    api_keys_text, bit, bool_json, escaped, json_string, key_json, keys_json, law_json_round_trip,
    render_api_keys_at,
};
use crate::server::{Server, ServerView};
use crate::text::{decimal, law_number_of_decimal, number_of, utf8_lossy};
use crate::value::ValueView;

verus! {

/// What follows the JSON value at the beginning of `s`, `depth` brackets being open.
pub open spec fn after_value(s: Seq<char>, depth: nat) -> Seq<char>
    decreases s.len(),
{
    if s.len() == 0 {
        s
    } else if s[0] == '"' {
        let rest = json_string(s.drop_first()).1;
        if 0 < rest.len() < s.len() {
            after_value(rest.drop_first(), depth)
        } else {
            seq![]
        }
    } else if s[0] == '{' || s[0] == '[' {
        after_value(s.drop_first(), depth + 1)
    } else if s[0] == '}' || s[0] == ']' {
        if depth == 0 {
            s
        } else {
            after_value(s.drop_first(), (depth - 1) as nat)
        }
    } else if s[0] == ',' && depth == 0 {
        s
    } else {
        after_value(s.drop_first(), depth)
    }
}

/// The JSON value at the beginning of `s`.
pub open spec fn first_value(s: Seq<char>) -> Seq<char> {
    s.take(s.len() - after_value(s, 0).len())
}

/// The value under a name among the members of an object.
pub open spec fn member(s: Seq<char>, name: Seq<char>) -> Option<Seq<char>>
    decreases s.len(),
{
    if s.len() == 0 || s[0] != '"' {
        None
    } else {
        let (label, rest) = json_string(s.drop_first());
        if rest.len() < 2 || rest.len() >= s.len() || rest[1] != ':' {
            None
        } else {
            let v = rest.skip(2);
            let after = after_value(v, 0);
            if label == name {
                Some(first_value(v))
            } else if 0 < after.len() < s.len() && after[0] == ',' {
                member(after.drop_first(), name)
            } else {
                None
            }
        }
    }
}

/// The value under a name in a JSON object.
pub open spec fn field(object: Seq<char>, name: Seq<char>) -> Option<Seq<char>> {
    if object.len() > 0 && object[0] == '{' {
        member(object.drop_first(), name)
    } else {
        None
    }
}

/// The values up to the bracket that closes an array.
pub open spec fn values(s: Seq<char>) -> Seq<Seq<char>>
    decreases s.len(),
{
    if s.len() == 0 || s[0] == ']' {
        seq![]
    } else {
        let after = after_value(s, 0);
        if 0 < after.len() < s.len() && after[0] == ',' {
            seq![first_value(s)] + values(after.drop_first())
        } else {
            seq![first_value(s)]
        }
    }
}

/// The values in a JSON array.
pub open spec fn elements(array: Seq<char>) -> Seq<Seq<char>> {
    if array.len() > 0 && array[0] == '[' {
        values(array.drop_first())
    } else {
        seq![]
    }
}

/// The number that a JSON value is.
pub open spec fn number_in(v: Option<Seq<char>>) -> Option<nat> {
    match v {
        Some(text) => number_of(text, u64::MAX as nat),
        None => None,
    }
}

/// The text that a JSON string stands for.
pub open spec fn string_in(v: Option<Seq<char>>) -> Option<Seq<char>> {
    match v {
        Some(text) => if text.len() > 0 && text[0] == '"' && json_string(text.drop_first()).1
            == seq!['"'] {
            Some(json_string(text.drop_first()).0)
        } else {
            None
        },
        None => None,
    }
}

/// Whether a text ends the value before it.
spec fn ends(s: Seq<char>) -> bool {
    s.len() > 0 && (s[0] == ',' || s[0] == '}' || s[0] == ']')
}

/// Whether a text is one JSON value.
spec fn is_value(x: Seq<char>) -> bool {
    forall|rest: Seq<char>| ends(rest) ==> #[trigger] after_value(x + rest, 0) == rest
}

/// Whether a text within brackets leaves as many of them open as it finds.
spec fn neutral(x: Seq<char>) -> bool {
    forall|rest: Seq<char>, d: nat|
        d >= 1 ==> #[trigger] after_value(x + rest, d) == after_value(rest, d)
}

/// Whether a text holds no quotes, brackets and commas.
spec fn plain(x: Seq<char>) -> bool {
    forall|i: int|
        0 <= i < x.len() ==> (#[trigger] x[i]) != '"' && x[i] != '{' && x[i] != '[' && x[i] != '}'
            && x[i] != ']' && x[i] != ','
}

proof fn lemma_skip_plain(x: Seq<char>, rest: Seq<char>, d: nat)
    requires
        plain(x),
    ensures
        after_value(x + rest, d) == after_value(rest, d),
    decreases x.len(),
{
    if x.len() == 0 {
        assert(x + rest =~= rest);
    } else {
        assert(x[0] != '"');
        let t = x.drop_first();
        assert forall|i: int| 0 <= i < t.len() implies (#[trigger] t[i]) != '"' && t[i] != '{'
            && t[i] != '[' && t[i] != '}' && t[i] != ']' && t[i] != ',' by {
            assert(x[i + 1] == t[i]);
        }
        lemma_skip_plain(t, rest, d);
        assert((x + rest).drop_first() =~= t + rest);
    }
}

proof fn lemma_plain(x: Seq<char>)
    requires
        plain(x),
    ensures
        is_value(x),
        neutral(x),
{
    assert forall|rest: Seq<char>| ends(rest) implies #[trigger] after_value(x + rest, 0)
        == rest by {
        lemma_skip_plain(x, rest, 0);
    }
    assert forall|rest: Seq<char>, d: nat| d >= 1 implies #[trigger] after_value(x + rest, d)
        == after_value(rest, d) by {
        lemma_skip_plain(x, rest, d);
    }
}

proof fn lemma_comma()
    ensures
        neutral(seq![',']),
{
    let x = seq![','];
    assert forall|rest: Seq<char>, d: nat| d >= 1 implies #[trigger] after_value(x + rest, d)
        == after_value(rest, d) by {
        assert((x + rest).drop_first() =~= rest);
    }
}

proof fn lemma_neutral_concat(a: Seq<char>, b: Seq<char>)
    requires
        neutral(a),
        neutral(b),
    ensures
        neutral(a + b),
{
    assert forall|rest: Seq<char>, d: nat| d >= 1 implies #[trigger] after_value((a + b) + rest, d)
        == after_value(rest, d) by {
        assert((a + b) + rest =~= a + (b + rest));
        assert(after_value(a + (b + rest), d) == after_value(b + rest, d));
    }
}

/// A text in quotes.
pub open spec fn quoted(t: Seq<char>) -> Seq<char> {
    seq!['"'] + escaped(t) + seq!['"']
}

proof fn lemma_skip_quoted(t: Seq<char>, rest: Seq<char>, d: nat)
    ensures
        after_value(quoted(t) + rest, d) == after_value(rest, d),
{
    let s = quoted(t) + rest;
    let tail = seq!['"'] + rest;
    assert(s.drop_first() =~= escaped(t) + tail);
    law_json_round_trip(t, tail);
    assert(tail.drop_first() =~= rest);
}

proof fn lemma_quoted(t: Seq<char>)
    ensures
        is_value(quoted(t)),
        neutral(quoted(t)),
        string_in(Some(quoted(t))) == Some(t),
{
    let x = quoted(t);
    assert forall|rest: Seq<char>| ends(rest) implies #[trigger] after_value(x + rest, 0)
        == rest by {
        lemma_skip_quoted(t, rest, 0);
    }
    assert forall|rest: Seq<char>, d: nat| d >= 1 implies #[trigger] after_value(x + rest, d)
        == after_value(rest, d) by {
        lemma_skip_quoted(t, rest, d);
    }
    law_json_round_trip(t, seq!['"']);
    assert(x.drop_first() =~= escaped(t) + seq!['"']);
}

proof fn lemma_bracketed(open: char, x: Seq<char>, close: char)
    requires
        neutral(x),
        open == '{' && close == '}' || open == '[' && close == ']',
    ensures
        is_value(seq![open] + x + seq![close]),
        neutral(seq![open] + x + seq![close]),
{
    let t = seq![open] + x + seq![close];
    assert forall|rest: Seq<char>, d: nat| #[trigger]
        after_value(t + rest, d) == after_value(rest, d) by {
        let tail = seq![close] + rest;
        assert((t + rest).drop_first() =~= x + tail);
        assert(after_value(x + tail, d + 1) == after_value(tail, d + 1));
        assert(tail.drop_first() =~= rest);
    }
}

/// Whether a text means itself within quotes.
spec fn bare(t: Seq<char>) -> bool {
    forall|i: int|
        0 <= i < t.len() ==> (#[trigger] t[i]) != '"' && t[i] != '\\' && t[i] as u32 >= 0x20
}

proof fn lemma_bare(t: Seq<char>)
    requires
        bare(t),
    ensures
        escaped(t) == t,
    decreases t.len(),
{
    if t.len() > 0 {
        let front = t.drop_last();
        assert forall|i: int| 0 <= i < front.len() implies (#[trigger] front[i]) != '"' && front[i]
            != '\\' && front[i] as u32 >= 0x20 by {
            assert(t[i] == front[i]);
        }
        lemma_bare(front);
        assert(t[t.len() - 1] != '"');
        assert(escaped(t) =~= t);
    } else {
        assert(escaped(t) =~= t);
    }
}

/// A member of an object.
spec fn pair(f: (Seq<char>, Seq<char>)) -> Seq<char> {
    quoted(f.0) + seq![':'] + f.1
}

/// Members of an object, separated by commas.
spec fn members(fs: Seq<(Seq<char>, Seq<char>)>) -> Seq<char>
    decreases fs.len(),
{
    if fs.len() == 0 {
        seq![]
    } else if fs.len() == 1 {
        pair(fs[0])
    } else {
        pair(fs[0]) + (seq![','] + members(fs.drop_first()))
    }
}

/// A JSON object.
spec fn object(fs: Seq<(Seq<char>, Seq<char>)>) -> Seq<char> {
    seq!['{'] + members(fs) + seq!['}']
}

/// Reading the first member of an object.
proof fn lemma_member(f: (Seq<char>, Seq<char>), rest: Seq<char>, name: Seq<char>)
    requires
        is_value(f.1),
        ends(rest),
    ensures
        member(pair(f) + rest, name) == (if name == f.0 {
            Some(f.1)
        } else if rest[0] == ',' {
            member(rest.drop_first(), name)
        } else {
            None
        }),
{
    let s = pair(f) + rest;
    let v = f.1 + rest;
    let tail = seq!['"', ':'] + v;
    assert(s.drop_first() =~= escaped(f.0) + tail);
    law_json_round_trip(f.0, tail);
    assert(tail.skip(2) =~= v);
    assert(after_value(v, 0) == rest);
    assert(first_value(v) =~= f.1);
}

/// Reading a member of an object.
proof fn lemma_members(fs: Seq<(Seq<char>, Seq<char>)>, i: int)
    requires
        0 <= i < fs.len(),
        forall|j: int| 0 <= j < fs.len() ==> is_value((#[trigger] fs[j]).1),
        forall|j: int| 0 <= j < i ==> (#[trigger] fs[j]).0 != fs[i].0,
    ensures
        member(members(fs) + seq!['}'], fs[i].0) == Some(fs[i].1),
    decreases fs.len(),
{
    let close = seq!['}'];
    assert(is_value(fs[0].1));
    if fs.len() == 1 {
        lemma_member(fs[0], close, fs[i].0);
    } else {
        let later = fs.drop_first();
        let rest = seq![','] + members(later) + close;
        assert(members(fs) + close =~= pair(fs[0]) + rest);
        lemma_member(fs[0], rest, fs[i].0);
        assert(rest.drop_first() =~= members(later) + close);
        if i > 0 {
            assert(fs[0].0 != fs[i].0);
            assert forall|j: int| 0 <= j < later.len() implies is_value((#[trigger] later[j]).1) by {
                assert(is_value(fs[j + 1].1));
            }
            assert forall|j: int| 0 <= j < i - 1 implies (#[trigger] later[j]).0 != fs[i].0 by {
                assert(fs[j + 1].0 != fs[i].0);
            }
            assert(later[i - 1] == fs[i]);
            lemma_members(later, i - 1);
        }
    }
}

proof fn lemma_field(fs: Seq<(Seq<char>, Seq<char>)>, i: int)
    requires
        0 <= i < fs.len(),
        forall|j: int| 0 <= j < fs.len() ==> is_value((#[trigger] fs[j]).1),
        forall|j: int| 0 <= j < i ==> (#[trigger] fs[j]).0 != fs[i].0,
    ensures
        field(object(fs), fs[i].0) == Some(fs[i].1),
{
    lemma_members(fs, i);
    assert(object(fs).drop_first() =~= members(fs) + seq!['}']);
}

proof fn lemma_neutral_members(fs: Seq<(Seq<char>, Seq<char>)>)
    requires
        forall|j: int| 0 <= j < fs.len() ==> neutral((#[trigger] fs[j]).1),
    ensures
        neutral(members(fs)),
    decreases fs.len(),
{
    if fs.len() == 0 {
        lemma_plain(members(fs));
    } else {
        assert(neutral(fs[0].1));
        lemma_quoted(fs[0].0);
        lemma_plain(seq![':']);
        lemma_neutral_concat(quoted(fs[0].0), seq![':']);
        lemma_neutral_concat(quoted(fs[0].0) + seq![':'], fs[0].1);
        if fs.len() > 1 {
            let later = fs.drop_first();
            assert forall|j: int| 0 <= j < later.len() implies neutral((#[trigger] later[j]).1) by {
                assert(neutral(fs[j + 1].1));
            }
            lemma_neutral_members(later);
            lemma_comma();
            lemma_neutral_concat(seq![','], members(later));
            lemma_neutral_concat(pair(fs[0]), seq![','] + members(later));
        }
    }
}

proof fn lemma_decimal(n: nat)
    ensures
        plain(decimal(n)),
        is_value(decimal(n)),
        neutral(decimal(n)),
        n <= u64::MAX ==> number_in(Some(decimal(n))) == Some(n),
{
    lemma_digits(n);
    lemma_plain(decimal(n));
    if n <= u64::MAX {
        law_number_of_decimal(n, u64::MAX as nat);
    }
}

proof fn lemma_digits(n: nat)
    ensures
        forall|i: int| 0 <= i < decimal(n).len() ==> '0' <= #[trigger] decimal(n)[i] <= '9',
    decreases n,
{
    if n >= 10 {
        lemma_digits(n / 10);
        assert forall|i: int| 0 <= i < decimal(n).len() implies '0' <= #[trigger] decimal(n)[i]
            <= '9' by {
            if i < decimal(n / 10).len() {
                assert(decimal(n)[i] == decimal(n / 10)[i]);
            }
        }
    }
}

/// How a member of an object is introduced.
spec fn label(name: Seq<char>) -> Seq<char> {
    quoted(name) + seq![':']
}

/// One more member in front.
proof fn lemma_step(
    p: Seq<char>,
    lit: Seq<char>,
    f: (Seq<char>, Seq<char>),
    tail: Seq<char>,
    mark: char,
)
    requires
        lit == seq![mark] + label(f.0),
    ensures
        (p + lit + f.1) + tail == p + (seq![mark] + (pair(f) + tail)),
{
    assert((p + lit + f.1) + tail =~= p + (seq![mark] + (pair(f) + tail)));
}

proof fn lemma_members_step(fs: Seq<(Seq<char>, Seq<char>)>, k: int, close: Seq<char>)
    requires
        0 <= k < fs.len() - 1,
    ensures
        members(fs.skip(k)) + close == pair(fs[k]) + (seq![','] + (members(fs.skip(k + 1))
            + close)),
{
    let t = fs.skip(k);
    assert(t.drop_first() =~= fs.skip(k + 1));
    assert(t[0] == fs[k]);
    assert(members(t) + close =~= pair(fs[k]) + (seq![','] + (members(fs.skip(k + 1)) + close)));
}

proof fn lemma_members_last(fs: Seq<(Seq<char>, Seq<char>)>, close: Seq<char>)
    requires
        fs.len() > 0,
    ensures
        members(fs.skip(fs.len() - 1)) + close == pair(fs.last()) + close,
{
    let t = fs.skip(fs.len() - 1);
    assert(t[0] == fs.last());
}

/// The members of the page, in order.
spec fn page_members(s: ServerView, now: u64, uptime: u64) -> Seq<(Seq<char>, Seq<char>)> {
    seq![
        ("uptime_seconds"@, decimal(uptime as nat)),
        ("memory_usage_bytes"@, decimal(s.cache.used())),
        ("total_keys"@, decimal(s.cache.entries.len())),
        ("hits"@, decimal(s.hits as nat)),
        ("misses"@, decimal(s.misses as nat)),
        ("aof_enabled"@, bool_json(s.aof is Some)),
        (
            "aof_size_bytes"@,
            decimal(
                match s.aof {
                    Some(a) => a.size as nat,
                    None => 0,
                },
            ),
        ),
        (
            "aof_healthy"@,
            decimal(
                match s.aof {
                    Some(a) => bit(a.healthy),
                    None => 1,
                },
            ),
        ),
        ("keys"@, seq!['['] + keys_json(snapshot_of(s.cache.entries, now)) + seq![']']),
    ]
}

proof fn lemma_label_uptime_seconds()
    ensures
        "{\"uptime_seconds\":"@ == seq!['{'] + label("uptime_seconds"@),
{
    reveal_strlit("{\"uptime_seconds\":");
    reveal_strlit("uptime_seconds");
    lemma_bare("uptime_seconds"@);
    assert("{\"uptime_seconds\":"@ =~= seq!['{'] + label("uptime_seconds"@));
}

proof fn lemma_label_memory_usage_bytes()
    ensures
        ",\"memory_usage_bytes\":"@ == seq![','] + label("memory_usage_bytes"@),
{
    reveal_strlit(",\"memory_usage_bytes\":");
    reveal_strlit("memory_usage_bytes");
    lemma_bare("memory_usage_bytes"@);
    assert(",\"memory_usage_bytes\":"@ =~= seq![','] + label("memory_usage_bytes"@));
}

proof fn lemma_label_total_keys()
    ensures
        ",\"total_keys\":"@ == seq![','] + label("total_keys"@),
{
    reveal_strlit(",\"total_keys\":");
    reveal_strlit("total_keys");
    lemma_bare("total_keys"@);
    assert(",\"total_keys\":"@ =~= seq![','] + label("total_keys"@));
}

proof fn lemma_label_hits()
    ensures
        ",\"hits\":"@ == seq![','] + label("hits"@),
{
    reveal_strlit(",\"hits\":");
    reveal_strlit("hits");
    lemma_bare("hits"@);
    assert(",\"hits\":"@ =~= seq![','] + label("hits"@));
}

proof fn lemma_label_misses()
    ensures
        ",\"misses\":"@ == seq![','] + label("misses"@),
{
    reveal_strlit(",\"misses\":");
    reveal_strlit("misses");
    lemma_bare("misses"@);
    assert(",\"misses\":"@ =~= seq![','] + label("misses"@));
}

proof fn lemma_label_aof_enabled()
    ensures
        ",\"aof_enabled\":"@ == seq![','] + label("aof_enabled"@),
{
    reveal_strlit(",\"aof_enabled\":");
    reveal_strlit("aof_enabled");
    lemma_bare("aof_enabled"@);
    assert(",\"aof_enabled\":"@ =~= seq![','] + label("aof_enabled"@));
}

proof fn lemma_label_aof_size_bytes()
    ensures
        ",\"aof_size_bytes\":"@ == seq![','] + label("aof_size_bytes"@),
{
    reveal_strlit(",\"aof_size_bytes\":");
    reveal_strlit("aof_size_bytes");
    lemma_bare("aof_size_bytes"@);
    assert(",\"aof_size_bytes\":"@ =~= seq![','] + label("aof_size_bytes"@));
}

proof fn lemma_label_aof_healthy()
    ensures
        ",\"aof_healthy\":"@ == seq![','] + label("aof_healthy"@),
{
    reveal_strlit(",\"aof_healthy\":");
    reveal_strlit("aof_healthy");
    lemma_bare("aof_healthy"@);
    assert(",\"aof_healthy\":"@ =~= seq![','] + label("aof_healthy"@));
}

proof fn lemma_label_keys()
    ensures
        ",\"keys\":["@ == seq![','] + label("keys"@) + seq!['['],
{
    reveal_strlit(",\"keys\":[");
    reveal_strlit("keys");
    lemma_bare("keys"@);
    assert(",\"keys\":["@ =~= seq![','] + label("keys"@) + seq!['[']);
}

/// The page is a JSON object.
#[verifier::rlimit(40)]
proof fn lemma_page(s: ServerView, now: u64, uptime: u64)
    ensures
        api_keys_text(s, now, uptime) == object(page_members(s, now, uptime)),
{
    let fs = page_members(s, now, uptime);
    let close = seq!['}'];
    let none = Seq::<char>::empty();
    lemma_label_uptime_seconds();
    lemma_label_memory_usage_bytes();
    lemma_label_total_keys();
    lemma_label_hits();
    lemma_label_misses();
    lemma_label_aof_enabled();
    lemma_label_aof_size_bytes();
    lemma_label_aof_healthy();
    lemma_label_keys();
    let p1 = none + "{\"uptime_seconds\":"@ + fs[0].1;
    let p2 = p1 + ",\"memory_usage_bytes\":"@ + fs[1].1;
    let p3 = p2 + ",\"total_keys\":"@ + fs[2].1;
    let p4 = p3 + ",\"hits\":"@ + fs[3].1;
    let p5 = p4 + ",\"misses\":"@ + fs[4].1;
    let p6 = p5 + ",\"aof_enabled\":"@ + fs[5].1;
    let p7 = p6 + ",\"aof_size_bytes\":"@ + fs[6].1;
    let p8 = p7 + ",\"aof_healthy\":"@ + fs[7].1;
    let keys = keys_json(snapshot_of(s.cache.entries, now));
    reveal_strlit("]}");
    assert(none + "{\"uptime_seconds\":"@ =~= "{\"uptime_seconds\":"@);
    assert(api_keys_text(s, now, uptime) == p8 + ",\"keys\":["@ + keys + "]}"@);
    let lit = seq![','] + label("keys"@);
    assert(p8 + ",\"keys\":["@ + keys + "]}"@ =~= (p8 + lit + fs[8].1) + close);
    lemma_step(p8, lit, fs[8], close, ',');
    lemma_members_last(fs, close);
    lemma_step(p7, ",\"aof_healthy\":"@, fs[7], seq![','] + (members(fs.skip(8)) + close), ',');
    lemma_members_step(fs, 7, close);
    lemma_step(p6, ",\"aof_size_bytes\":"@, fs[6], seq![','] + (members(fs.skip(7)) + close), ',');
    lemma_members_step(fs, 6, close);
    lemma_step(p5, ",\"aof_enabled\":"@, fs[5], seq![','] + (members(fs.skip(6)) + close), ',');
    lemma_members_step(fs, 5, close);
    lemma_step(p4, ",\"misses\":"@, fs[4], seq![','] + (members(fs.skip(5)) + close), ',');
    lemma_members_step(fs, 4, close);
    lemma_step(p3, ",\"hits\":"@, fs[3], seq![','] + (members(fs.skip(4)) + close), ',');
    lemma_members_step(fs, 3, close);
    lemma_step(p2, ",\"total_keys\":"@, fs[2], seq![','] + (members(fs.skip(3)) + close), ',');
    lemma_members_step(fs, 2, close);
    lemma_step(p1, ",\"memory_usage_bytes\":"@, fs[1], seq![','] + (members(fs.skip(2)) + close), ',');
    lemma_members_step(fs, 1, close);
    lemma_step(none, "{\"uptime_seconds\":"@, fs[0], seq![','] + (members(fs.skip(1)) + close), '{');
    lemma_members_step(fs, 0, close);
    assert(fs.skip(0) =~= fs);
    assert(none + (seq!['{'] + (members(fs) + close)) =~= object(fs));
}

/// The members of a key's object, in order.
spec fn key_members(i: KeyInfoView) -> Seq<(Seq<char>, Seq<char>)> {
    seq![
        ("key"@, quoted(utf8_lossy(i.0))),
        ("type"@, quoted(i.1)),
        ("size"@, decimal(i.2)),
        ("count"@, decimal(i.3)),
        (
            "ttl"@,
            match i.4 {
                Some(t) => decimal(t as nat),
                None => "null"@,
            },
        ),
    ]
}

proof fn lemma_label_key()
    ensures
        "{\"key\":\""@ == (seq!['{'] + label("key"@)) + seq!['"'],
{
    reveal_strlit("{\"key\":\"");
    reveal_strlit("key");
    lemma_bare("key"@);
    assert("{\"key\":\""@ =~= (seq!['{'] + label("key"@)) + seq!['"']);
}

proof fn lemma_label_type()
    ensures
        "\",\"type\":\""@ == seq!['"'] + (seq![','] + label("type"@)) + seq!['"'],
{
    reveal_strlit("\",\"type\":\"");
    reveal_strlit("type");
    lemma_bare("type"@);
    assert("\",\"type\":\""@ =~= seq!['"'] + (seq![','] + label("type"@)) + seq!['"']);
}

proof fn lemma_label_size()
    ensures
        "\",\"size\":"@ == seq!['"'] + (seq![','] + label("size"@)),
{
    reveal_strlit("\",\"size\":");
    reveal_strlit("size");
    lemma_bare("size"@);
    assert("\",\"size\":"@ =~= seq!['"'] + (seq![','] + label("size"@)));
}

proof fn lemma_label_count()
    ensures
        ",\"count\":"@ == (seq![','] + label("count"@)),
{
    reveal_strlit(",\"count\":");
    reveal_strlit("count");
    lemma_bare("count"@);
    assert(",\"count\":"@ =~= (seq![','] + label("count"@)));
}

proof fn lemma_label_ttl()
    ensures
        ",\"ttl\":"@ == (seq![','] + label("ttl"@)),
{
    reveal_strlit(",\"ttl\":");
    reveal_strlit("ttl");
    lemma_bare("ttl"@);
    assert(",\"ttl\":"@ =~= (seq![','] + label("ttl"@)));
}

/// A key of the list is a JSON object.
#[verifier::rlimit(40)]
proof fn lemma_key(i: KeyInfoView)
    requires
        bare(i.1),
    ensures
        key_json(i) == object(key_members(i)),
{
    let fs = key_members(i);
    let close = seq!['}'];
    let none = Seq::<char>::empty();
    lemma_label_key();
    lemma_label_type();
    lemma_label_size();
    lemma_label_count();
    lemma_label_ttl();
    lemma_bare(i.1);
    let (a, b, c) = (
        seq!['{'] + label("key"@),
        seq![','] + label("type"@),
        seq![','] + label("size"@),
    );
    let p1 = none + a + fs[0].1;
    let p2 = p1 + b + fs[1].1;
    let p3 = p2 + c + fs[2].1;
    let p4 = p3 + ",\"count\":"@ + fs[3].1;
    let p5 = p4 + ",\"ttl\":"@ + fs[4].1;
    reveal_strlit("}");
    assert("}"@ =~= close);
    let e = escaped(utf8_lossy(i.0));
    let q1 = "{\"key\":\""@ + e;
    let q2 = q1 + "\",\"type\":\""@ + i.1;
    let q3 = q2 + "\",\"size\":"@ + fs[2].1;
    assert(q1 + seq!['"'] =~= p1);
    assert(q2 + seq!['"'] =~= (q1 + seq!['"']) + b + fs[1].1);
    assert(q3 =~= (q2 + seq!['"']) + c + fs[2].1);
    assert(key_json(i) == p5 + close);
    lemma_step(p4, ",\"ttl\":"@, fs[4], close, ',');
    lemma_members_last(fs, close);
    lemma_step(p3, ",\"count\":"@, fs[3], seq![','] + (members(fs.skip(4)) + close), ',');
    lemma_members_step(fs, 3, close);
    lemma_step(p2, c, fs[2], seq![','] + (members(fs.skip(3)) + close), ',');
    lemma_members_step(fs, 2, close);
    lemma_step(p1, b, fs[1], seq![','] + (members(fs.skip(2)) + close), ',');
    lemma_members_step(fs, 1, close);
    lemma_step(none, a, fs[0], seq![','] + (members(fs.skip(1)) + close), '{');
    lemma_members_step(fs, 0, close);
    assert(fs.skip(0) =~= fs);
    assert(none + (seq!['{'] + (members(fs) + close)) =~= object(fs));
}

/// The values in a key's object.
proof fn lemma_key_values(i: KeyInfoView)
    ensures
        forall|j: int|
            0 <= j < 5 ==> is_value((#[trigger] key_members(i)[j]).1) && neutral(
                key_members(i)[j].1,
            ),
        string_in(Some(key_members(i)[0].1)) == Some(utf8_lossy(i.0)),
        string_in(Some(key_members(i)[1].1)) == Some(i.1),
{
    lemma_quoted(utf8_lossy(i.0));
    lemma_quoted(i.1);
    lemma_decimal(i.2);
    lemma_decimal(i.3);
    match i.4 {
        Some(t) => lemma_decimal(t as nat),
        None => {
            reveal_strlit("null");
            lemma_plain("null"@);
        },
    }
}

/// What a JSON reader finds in the object of a key: its text, its type, its size and element
/// count, and the seconds it has left, or null if it does not expire.
#[verifier::rlimit(40)]
pub proof fn law_key_object(i: KeyInfoView)
    requires
        i.1 == "string"@ || i.1 == "hash"@ || i.1 == "list"@ || i.1 == "set"@,
        i.2 <= u64::MAX,
        i.3 <= u64::MAX,
    ensures
        string_in(field(key_json(i), "key"@)) == Some(utf8_lossy(i.0)),
        string_in(field(key_json(i), "type"@)) == Some(i.1),
        number_in(field(key_json(i), "size"@)) == Some(i.2),
        number_in(field(key_json(i), "count"@)) == Some(i.3),
        i.4 matches Some(t) ==> number_in(field(key_json(i), "ttl"@)) == Some(t as nat),
        i.4 is None ==> field(key_json(i), "ttl"@) == Some("null"@),
{
    lemma_kind(i);
    lemma_key(i);
    lemma_key_values(i);
    lemma_decimal(i.2);
    lemma_decimal(i.3);
    if let Some(t) = i.4 {
        lemma_decimal(t as nat);
    }
    let fs = key_members(i);
    reveal_strlit("key");
    reveal_strlit("type");
    reveal_strlit("size");
    reveal_strlit("count");
    reveal_strlit("ttl");
    assert("key"@[0] != "ttl"@[0]);
    assert("type"@[0] != "size"@[0]);
    assert("key"@.len() == 3 && "type"@.len() == 4 && "size"@.len() == 4 && "count"@.len() == 5
        && "ttl"@.len() == 3);
    lemma_field(fs, 0);
    lemma_field(fs, 1);
    lemma_field(fs, 2);
    lemma_field(fs, 3);
    lemma_field(fs, 4);
}

/// The names of the types mean themselves within quotes.
proof fn lemma_kind(i: KeyInfoView)
    requires
        named(i),
    ensures
        bare(i.1),
{
    reveal_strlit("string");
    reveal_strlit("hash");
    reveal_strlit("list");
    reveal_strlit("set");
}

/// Whether a listed key has one of the type names.
spec fn named(i: KeyInfoView) -> bool {
    i.1 == "string"@ || i.1 == "hash"@ || i.1 == "list"@ || i.1 == "set"@
}

/// A key's object is one JSON value.
proof fn lemma_key_value(i: KeyInfoView)
    requires
        named(i),
    ensures
        is_value(key_json(i)),
        neutral(key_json(i)),
        key_json(i).len() > 0,
        key_json(i)[0] == '{',
{
    lemma_kind(i);
    lemma_key(i);
    lemma_key_values(i);
    lemma_neutral_members(key_members(i));
    lemma_bracketed('{', members(key_members(i)), '}');
}

/// The first key of the list comes first.
proof fn lemma_keys_first(s: Seq<KeyInfoView>)
    requires
        s.len() > 1,
    ensures
        keys_json(s) == key_json(s[0]) + (seq![','] + keys_json(s.drop_first())),
    decreases s.len(),
{
    reveal_strlit(",");
    assert(","@ =~= seq![',']);
    let front = s.drop_last();
    if s.len() == 2 {
        assert(keys_json(front) == key_json(s[0]));
        assert(s.drop_first()[0] == s[1]);
        assert(keys_json(s) =~= key_json(s[0]) + (seq![','] + keys_json(s.drop_first())));
    } else {
        lemma_keys_first(front);
        assert(front.drop_first() =~= s.drop_first().drop_last());
        assert(keys_json(s) =~= key_json(s[0]) + (seq![','] + keys_json(s.drop_first())));
    }
}

proof fn lemma_keys(s: Seq<KeyInfoView>)
    requires
        forall|i: int| 0 <= i < s.len() ==> named(#[trigger] s[i]),
    ensures
        neutral(keys_json(s)),
        values(keys_json(s) + seq![']']) == s.map_values(|i: KeyInfoView| key_json(i)),
    decreases s.len(),
{
    let close = seq![']'];
    let all = s.map_values(|i: KeyInfoView| key_json(i));
    if s.len() == 0 {
        lemma_plain(keys_json(s));
        assert(keys_json(s) + close =~= close);
        assert(values(close) =~= all);
    } else {
        assert(named(s[0]));
        lemma_key_value(s[0]);
        let first = key_json(s[0]);
        if s.len() == 1 {
            assert(after_value(first + close, 0) == close);
            assert(first_value(first + close) =~= first);
            assert(values(first + close) =~= all);
        } else {
            let later = s.drop_first();
            assert forall|i: int| 0 <= i < later.len() implies named(#[trigger] later[i]) by {
                assert(named(s[i + 1]));
            }
            lemma_keys_first(s);
            lemma_keys(later);
            lemma_comma();
            lemma_neutral_concat(seq![','], keys_json(later));
            lemma_neutral_concat(first, seq![','] + keys_json(later));
            let rest = seq![','] + keys_json(later) + close;
            assert(keys_json(s) + close =~= first + rest);
            assert(after_value(first + rest, 0) == rest);
            assert(first_value(first + rest) =~= first);
            assert(rest.drop_first() =~= keys_json(later) + close);
            assert(seq![first] + later.map_values(|i: KeyInfoView| key_json(i)) =~= all);
        }
    }
}

/// Listed keys have one of the type names.
proof fn lemma_named(s: Seq<(Seq<u8>, Record)>, now: u64)
    ensures
        forall|i: int|
            0 <= i < snapshot_of(s, now).len() ==> named(#[trigger] snapshot_of(s, now)[i]),
    decreases s.len(),
{
    if s.len() > 0 {
        let earlier = snapshot_of(s.drop_last(), now);
        lemma_named(s.drop_last(), now);
        assert(named(info_of(s.last(), now)));
        assert forall|i: int| 0 <= i < snapshot_of(s, now).len() implies named(
            #[trigger] snapshot_of(s, now)[i],
        ) by {
            if i < earlier.len() {
                assert(snapshot_of(s, now)[i] == earlier[i]);
                assert(named(earlier[i]));
            }
        }
    }
}

/// The values in the page.
proof fn lemma_page_values(s: ServerView, now: u64, uptime: u64)
    ensures
        forall|j: int| 0 <= j < 9 ==> is_value((#[trigger] page_members(s, now, uptime)[j]).1),
{
    lemma_decimal(uptime as nat);
    lemma_decimal(s.cache.used());
    lemma_decimal(s.cache.entries.len());
    lemma_decimal(s.hits as nat);
    lemma_decimal(s.misses as nat);
    lemma_decimal(0);
    lemma_decimal(1);
    if let Some(a) = s.aof {
        lemma_decimal(a.size as nat);
    }
    reveal_strlit("true");
    reveal_strlit("false");
    lemma_plain("true"@);
    lemma_plain("false"@);
    lemma_named(s.cache.entries, now);
    lemma_keys(snapshot_of(s.cache.entries, now));
    lemma_bracketed('[', keys_json(snapshot_of(s.cache.entries, now)), ']');
}

/// The names of the members differ.
#[verifier::rlimit(40)]
proof fn lemma_page_names(s: ServerView, now: u64, uptime: u64)
    ensures
        forall|i: int, j: int|
            0 <= j < i < 9 ==> (#[trigger] page_members(s, now, uptime)[j]).0 != (
            #[trigger] page_members(s, now, uptime)[i]).0,
{
    reveal_strlit("uptime_seconds");
    reveal_strlit("memory_usage_bytes");
    reveal_strlit("total_keys");
    reveal_strlit("hits");
    reveal_strlit("misses");
    reveal_strlit("aof_enabled");
    reveal_strlit("aof_size_bytes");
    reveal_strlit("aof_healthy");
    reveal_strlit("keys");
    assert("uptime_seconds"@.len() == 14 && "memory_usage_bytes"@.len() == 18
        && "total_keys"@.len() == 10 && "hits"@.len() == 4 && "misses"@.len() == 6
        && "aof_enabled"@.len() == 11 && "aof_size_bytes"@.len() == 14 && "aof_healthy"@.len()
        == 11 && "keys"@.len() == 4);
    assert("uptime_seconds"@[0] != "aof_size_bytes"@[0]);
    assert("hits"@[0] != "keys"@[0]);
    assert("aof_enabled"@[4] != "aof_healthy"@[4]);
}

/// What a JSON reader finds on the page: under each name the server's own figure.
#[verifier::rlimit(40)]
pub proof fn law_api_keys_fields(s: ServerView, now: u64, uptime: u64)
    requires
        s.cache.used() <= u64::MAX,
        s.cache.entries.len() <= u64::MAX,
    ensures
        ({
            let page = api_keys_text(s, now, uptime);
            &&& number_in(field(page, "uptime_seconds"@)) == Some(uptime as nat)
            &&& number_in(field(page, "memory_usage_bytes"@)) == Some(s.cache.used())
            &&& number_in(field(page, "total_keys"@)) == Some(s.cache.entries.len())
            &&& number_in(field(page, "hits"@)) == Some(s.hits as nat)
            &&& number_in(field(page, "misses"@)) == Some(s.misses as nat)
            &&& s.aof is Some ==> field(page, "aof_enabled"@) == Some("true"@)
            &&& s.aof is None ==> field(page, "aof_enabled"@) == Some("false"@)
            &&& s.aof matches Some(log) ==> number_in(field(page, "aof_size_bytes"@)) == Some(
                log.size as nat,
            ) && number_in(field(page, "aof_healthy"@)) == Some(
                if log.healthy {
                    1nat
                } else {
                    0nat
                },
            )
            &&& s.aof is None ==> number_in(field(page, "aof_size_bytes"@)) == Some(0nat)
                && number_in(field(page, "aof_healthy"@)) == Some(1nat)
        }),
{
    let fs = page_members(s, now, uptime);
    lemma_page(s, now, uptime);
    lemma_page_values(s, now, uptime);
    lemma_page_names(s, now, uptime);
    lemma_decimal(uptime as nat);
    lemma_decimal(s.cache.used());
    lemma_decimal(s.cache.entries.len());
    lemma_decimal(s.hits as nat);
    lemma_decimal(s.misses as nat);
    lemma_decimal(0);
    lemma_decimal(1);
    if let Some(a) = s.aof {
        lemma_decimal(a.size as nat);
    }
    lemma_field(fs, 0);
    lemma_field(fs, 1);
    lemma_field(fs, 2);
    lemma_field(fs, 3);
    lemma_field(fs, 4);
    lemma_field(fs, 5);
    lemma_field(fs, 6);
    lemma_field(fs, 7);
}

/// The list on the page holds an object for each key that is live, in order, and no other.
pub proof fn law_api_keys_list(s: ServerView, now: u64, uptime: u64)
    ensures
        ({
            let listed = elements(field(api_keys_text(s, now, uptime), "keys"@)->0);
            let live = s.cache.entries.filter(|e: (Seq<u8>, Record)| !e.1.expired(now));
            &&& field(api_keys_text(s, now, uptime), "keys"@) is Some
            &&& listed.len() == live.len()
            &&& forall|i: int|
                0 <= i < live.len() ==> #[trigger] listed[i] == key_json(info_of(live[i], now))
        }),
{
    let fs = page_members(s, now, uptime);
    let shown = snapshot_of(s.cache.entries, now);
    lemma_page(s, now, uptime);
    lemma_page_values(s, now, uptime);
    lemma_page_names(s, now, uptime);
    lemma_field(fs, 8);
    lemma_named(s.cache.entries, now);
    lemma_keys(shown);
    assert(fs[8].1.drop_first() =~= keys_json(shown) + seq![']']);
    lemma_live(s.cache.entries, now);
}

/// The snapshot shows the live records in order.
proof fn lemma_live(s: Seq<(Seq<u8>, Record)>, now: u64)
    ensures
        snapshot_of(s, now) == s.filter(|e: (Seq<u8>, Record)| !e.1.expired(now)).map_values(
            |e: (Seq<u8>, Record)| info_of(e, now),
        ),
    decreases s.len(),
{
    reveal(Seq::filter);
    let f = |e: (Seq<u8>, Record)| !e.1.expired(now);
    if s.len() > 0 {
        lemma_live(s.drop_last(), now);
    }
    assert(snapshot_of(s, now) =~= s.filter(f).map_values(
        |e: (Seq<u8>, Record)| info_of(e, now),
    ));
}

/// What is listed of a record: its key, the name of its type, the bytes and elements that it
/// holds, and the seconds until it expires.
pub proof fn law_listed_record(key: Seq<u8>, r: Record, now: u64)
    requires
        !r.expired(now),
    ensures
        ({
            let i = info_of((key, r), now);
            &&& i.0 == key
            &&& match r.value {
                ValueView::Str(v) => i.1 == "string"@ && i.2 == v.len() && i.3 == v.len(),
                ValueView::Hash(h) => i.1 == "hash"@ && i.3 == h.len(),
                ValueView::List(l) => i.1 == "list"@ && i.3 == l.len(),
                ValueView::Members(m) => i.1 == "set"@ && i.3 == m.len(),
            }
            &&& i.2 == r.value.bytes()
            &&& r.expires_at is None ==> i.4 is None
            &&& r.expires_at matches Some(t) ==> i.4 is Some && now + i.4->0 == t
        }),
{
}

/// What a client of `/api/keys` reads in the page that is rendered: the server's own counts.
pub proof fn law_rendered_counts(server: &Server, now: u64, uptime: u64, page: String)
    requires
        call_ensures(render_api_keys_at, (server, now, uptime), page),
        server@.cache.used() <= u64::MAX,
        server@.cache.entries.len() <= u64::MAX,
    ensures
        number_in(field(page@, "uptime_seconds"@)) == Some(uptime as nat),
        number_in(field(page@, "memory_usage_bytes"@)) == Some(server@.cache.used()),
        number_in(field(page@, "total_keys"@)) == Some(server@.cache.entries.len()),
        number_in(field(page@, "hits"@)) == Some(server.hits as nat),
        number_in(field(page@, "misses"@)) == Some(server.misses as nat),
{
    law_api_keys_fields(server@, now, uptime);
}

} // verus!
