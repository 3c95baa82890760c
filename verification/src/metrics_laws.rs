//! The metrics page as a Prometheus reader sees it: each sample is found under its name.
use vstd::prelude::*;

use crate::aof::AofView;
use crate::dump::snapshot_of;
use crate::render::{aof_metrics, bit, metric, metrics_text, render_metrics_at};
use crate::server::{Server, ServerView};
use crate::text::{begins, decimal, index_of, law_index_of, law_number_of_decimal, number_of};

verus! {

/// What follows `name` and a space on the first line of a text that begins so.
pub open spec fn sample(text: Seq<char>, name: Seq<char>) -> Option<Seq<char>>
    decreases text.len(),
{
    let end = index_of(text, '\n');
    let line = text.take(end);
    if text.len() == 0 {
        None
    } else if begins(line, name + " "@) {
        Some(line.skip(name.len() as int + 1))
    } else if 0 <= end < text.len() {
        sample(text.skip(end + 1), name)
    } else {
        None
    }
}

/// Whether a text is a word: neither empty nor a comment, without spaces and line ends.
spec fn word(w: Seq<char>) -> bool {
    &&& w.len() > 0
    &&& w[0] != '#'
    &&& forall|i: int| 0 <= i < w.len() ==> (#[trigger] w[i]) != ' ' && w[i] != '\n'
}

/// Whether a text is all on one line.
spec fn one_line(t: Seq<char>) -> bool {
    forall|i: int| 0 <= i < t.len() ==> (#[trigger] t[i]) != '\n'
}

/// Reading one line.
proof fn lemma_line(line: Seq<char>, rest: Seq<char>, q: Seq<char>)
    requires
        one_line(line),
        line.len() > 0,
    ensures
        sample(line + seq!['\n'] + rest, q) == (if begins(line, q + " "@) {
            Some(line.skip(q.len() as int + 1))
        } else {
            sample(rest, q)
        }),
{
    let text = line + seq!['\n'] + rest;
    law_index_of(text, '\n', line.len() as int);
    assert(text.take(line.len() as int) =~= line);
    assert(text.skip(line.len() as int + 1) =~= rest);
}

/// A line that is a word and more begins with another word only if the words are the same.
proof fn lemma_same_word(w: Seq<char>, q: Seq<char>, more: Seq<char>)
    requires
        word(w),
        word(q),
    ensures
        begins(w + seq![' '] + more, q + seq![' ']) <==> w == q,
        w == q ==> (w + seq![' '] + more).skip(q.len() as int + 1) == more,
{
    let line = w + seq![' '] + more;
    let p = q + seq![' '];
    let n = p.len() as int;
    if w == q {
        assert(line.take(n) =~= p);
        assert(line.skip(n) =~= more);
    } else if begins(line, p) {
        assert(line.take(n)[q.len() as int] == ' ');
        assert(line[q.len() as int] == ' ');
        if q.len() < w.len() {
            assert(w[q.len() as int] == ' ');
        } else if w.len() < q.len() {
            assert(line.take(n)[w.len() as int] == line[w.len() as int]);
            assert(q[w.len() as int] == ' ');
        } else {
            assert forall|i: int| 0 <= i < w.len() implies w[i] == q[i] by {
                assert(line.take(n)[i] == line[i]);
            }
            assert(w =~= q);
        }
    }
}

/// A line that starts with another character does not begin with a text.
proof fn lemma_other_start(line: Seq<char>, q: Seq<char>, i: int)
    requires
        0 <= i < q.len(),
        i < line.len() ==> line[i] != q[i],
    ensures
        !begins(line, q),
{
    if begins(line, q) {
        assert(line.take(q.len() as int)[i] == q[i]);
    }
}

/// Reading one metric.
#[verifier::rlimit(30)]
proof fn lemma_metric(
    name: Seq<char>,
    help: Seq<char>,
    kind: Seq<char>,
    value: nat,
    rest: Seq<char>,
    q: Seq<char>,
)
    requires
        word(name),
        word(q),
        one_line(help),
        word(kind),
    ensures
        sample(metric(name, help, kind, value) + rest, q) == (if q == name {
            Some(decimal(value))
        } else {
            sample(rest, q)
        }),
        sample(metric(name, help, kind, value) + rest, "# TYPE "@ + q) == (if q == name {
            Some(kind)
        } else {
            sample(rest, "# TYPE "@ + q)
        }),
{
    reveal(metric);
    reveal_strlit("# HELP ");
    reveal_strlit("\n# TYPE ");
    reveal_strlit("# TYPE ");
    reveal_strlit(" ");
    reveal_strlit("\n");
    assert(" "@ =~= seq![' ']);
    lemma_digits(value);
    let l1 = "# HELP "@ + name + seq![' '] + help;
    let l2 = "# TYPE "@ + name + seq![' '] + kind;
    let l3 = name + seq![' '] + decimal(value);
    let r3 = rest;
    let r2 = l3 + seq!['\n'] + r3;
    let r1 = l2 + seq!['\n'] + r2;
    assert(metric(name, help, kind, value) + rest =~= l1 + seq!['\n'] + r1);
    lemma_one_lines(name, help, kind, decimal(value));
    let t = "# TYPE "@ + q;
    lemma_line(l1, r1, q);
    lemma_line(l2, r2, q);
    lemma_line(l3, r3, q);
    lemma_line(l1, r1, t);
    lemma_line(l2, r2, t);
    lemma_line(l3, r3, t);
    let (qs, ts) = (q + " "@, t + " "@);
    assert(qs[0] == q[0]);
    assert(ts[0] == '#' && ts[2] == 'T');
    lemma_other_start(l1, qs, 0);
    lemma_other_start(l2, qs, 0);
    lemma_other_start(l1, ts, 2);
    assert(l3[0] == name[0]);
    lemma_other_start(l3, ts, 0);
    lemma_same_word(name, q, decimal(value));
    lemma_same_word(name, q, kind);
    let tail = name + seq![' '] + kind;
    assert(l2 =~= "# TYPE "@ + tail);
    assert(ts =~= "# TYPE "@ + (q + seq![' ']));
    lemma_begins_after("# TYPE "@, tail, q + seq![' ']);
    assert(q == name ==> l2.skip(t.len() as int + 1) =~= tail.skip(q.len() as int + 1));
}

/// A beginning that two texts share does not count.
proof fn lemma_begins_after(head: Seq<char>, a: Seq<char>, b: Seq<char>)
    ensures
        begins(head + a, head + b) <==> begins(a, b),
{
    let n = b.len() as int;
    if begins(head + a, head + b) {
        assert forall|i: int| 0 <= i < n implies #[trigger] a[i] == b[i] by {
            assert((head + a).take(head.len() + n)[head.len() + i] == (head + b)[head.len() + i]);
        }
        assert(a.take(n) =~= b);
    }
    if begins(a, b) {
        assert forall|i: int| 0 <= i < n implies #[trigger] a[i] == b[i] by {
            assert(a.take(n)[i] == b[i]);
        }
        assert((head + a).take(head.len() + n) =~= head + b);
    }
}

proof fn lemma_one_lines(name: Seq<char>, help: Seq<char>, kind: Seq<char>, digits: Seq<char>)
    requires
        word(name),
        one_line(help),
        word(kind),
        one_line(digits),
    ensures
        one_line("# HELP "@ + name + seq![' '] + help),
        one_line("# TYPE "@ + name + seq![' '] + kind),
        one_line(name + seq![' '] + digits),
{
    reveal_strlit("# HELP ");
    reveal_strlit("# TYPE ");
}

proof fn lemma_digits(n: nat)
    ensures
        one_line(decimal(n)),
    decreases n,
{
    if n >= 10 {
        lemma_digits(n / 10);
        assert forall|i: int| 0 <= i < decimal(n).len() implies (#[trigger] decimal(n)[i])
            != '\n' by {
            if i < decimal(n / 10).len() {
                assert(decimal(n)[i] == decimal(n / 10)[i]);
            }
        }
    }
}

proof fn lemma_uptime_seconds()
    ensures
        word("picodb_uptime_seconds"@),
        one_line("Seconds since the server started."@),
        word("counter"@),
{
    reveal_strlit("picodb_uptime_seconds");
    reveal_strlit("Seconds since the server started.");
    reveal_strlit("counter");
}

proof fn lemma_memory_usage_bytes()
    ensures
        word("picodb_memory_usage_bytes"@),
        one_line("Approximate bytes held by the cache."@),
        word("gauge"@),
{
    reveal_strlit("picodb_memory_usage_bytes");
    reveal_strlit("Approximate bytes held by the cache.");
    reveal_strlit("gauge");
}

proof fn lemma_total_keys()
    ensures
        word("picodb_total_keys"@),
        one_line("Current number of live keys."@),
        word("gauge"@),
{
    reveal_strlit("picodb_total_keys");
    reveal_strlit("Current number of live keys.");
    reveal_strlit("gauge");
}

proof fn lemma_hits_total()
    ensures
        word("picodb_hits_total"@),
        one_line("Total successful GETs."@),
        word("counter"@),
{
    reveal_strlit("picodb_hits_total");
    reveal_strlit("Total successful GETs.");
    reveal_strlit("counter");
}

proof fn lemma_misses_total()
    ensures
        word("picodb_misses_total"@),
        one_line("Total GET misses (absent or expired)."@),
        word("counter"@),
{
    reveal_strlit("picodb_misses_total");
    reveal_strlit("Total GET misses (absent or expired).");
    reveal_strlit("counter");
}

proof fn lemma_aof_enabled()
    ensures
        word("picodb_aof_enabled"@),
        one_line("Whether append-only persistence is enabled (1/0)."@),
        word("gauge"@),
{
    reveal_strlit("picodb_aof_enabled");
    reveal_strlit("Whether append-only persistence is enabled (1/0).");
    reveal_strlit("gauge");
}

proof fn lemma_aof_size_bytes()
    ensures
        word("picodb_aof_size_bytes"@),
        one_line("Approximate current AOF size in bytes."@),
        word("gauge"@),
{
    reveal_strlit("picodb_aof_size_bytes");
    reveal_strlit("Approximate current AOF size in bytes.");
    reveal_strlit("gauge");
}

proof fn lemma_aof_rewrites_total()
    ensures
        word("picodb_aof_rewrites_total"@),
        one_line("Completed AOF rewrites (compactions)."@),
        word("counter"@),
{
    reveal_strlit("picodb_aof_rewrites_total");
    reveal_strlit("Completed AOF rewrites (compactions).");
    reveal_strlit("counter");
}

proof fn lemma_aof_healthy()
    ensures
        word("picodb_aof_healthy"@),
        one_line("Whether the AOF writer thread is healthy (1/0)."@),
        word("gauge"@),
{
    reveal_strlit("picodb_aof_healthy");
    reveal_strlit("Whether the AOF writer thread is healthy (1/0).");
    reveal_strlit("gauge");
}

proof fn lemma_aof_write_errors_total()
    ensures
        word("picodb_aof_write_errors_total"@),
        one_line("Total AOF write errors."@),
        word("counter"@),
{
    reveal_strlit("picodb_aof_write_errors_total");
    reveal_strlit("Total AOF write errors.");
    reveal_strlit("counter");
}

/// Metrics one after the other: name, help, kind and value of each.
spec fn page(ms: Seq<(Seq<char>, Seq<char>, Seq<char>, nat)>) -> Seq<char>
    decreases ms.len(),
{
    if ms.len() == 0 {
        seq![]
    } else {
        let m = ms[0];
        metric(m.0, m.1, m.2, m.3) + page(ms.drop_first())
    }
}

/// Whether a metric can be read.
spec fn readable(m: (Seq<char>, Seq<char>, Seq<char>, nat)) -> bool {
    word(m.0) && one_line(m.1) && word(m.2)
}

/// Reading a metric among others.
proof fn lemma_page(ms: Seq<(Seq<char>, Seq<char>, Seq<char>, nat)>, i: int)
    requires
        0 <= i < ms.len(),
        forall|j: int| 0 <= j < ms.len() ==> readable(#[trigger] ms[j]),
        forall|j: int| 0 <= j < i ==> (#[trigger] ms[j]).0 != ms[i].0,
    ensures
        sample(page(ms), ms[i].0) == Some(decimal(ms[i].3)),
        sample(page(ms), "# TYPE "@ + ms[i].0) == Some(ms[i].2),
    decreases ms.len(),
{
    let m = ms[0];
    let later = ms.drop_first();
    assert(readable(ms[0]) && readable(ms[i]));
    lemma_metric(m.0, m.1, m.2, m.3, page(later), ms[i].0);
    if i > 0 {
        assert(ms[0].0 != ms[i].0);
        assert forall|j: int| 0 <= j < later.len() implies readable(#[trigger] later[j]) by {
            assert(readable(ms[j + 1]));
        }
        assert forall|j: int| 0 <= j < i - 1 implies (#[trigger] later[j]).0 != ms[i].0 by {
            assert(ms[j + 1].0 != ms[i].0);
        }
        assert(later[i - 1] == ms[i]);
        lemma_page(later, i - 1);
    }
}

proof fn lemma_page_concat(
    a: Seq<(Seq<char>, Seq<char>, Seq<char>, nat)>,
    b: Seq<(Seq<char>, Seq<char>, Seq<char>, nat)>,
)
    ensures
        page(a + b) == page(a) + page(b),
    decreases a.len(),
{
    if a.len() == 0 {
        assert(a + b =~= b);
        assert(page(a) + page(b) =~= page(b));
    } else {
        lemma_page_concat(a.drop_first(), b);
        assert((a + b).drop_first() =~= a.drop_first() + b);
        assert(page(a + b) =~= page(a) + page(b));
    }
}

proof fn lemma_page_push(
    a: Seq<(Seq<char>, Seq<char>, Seq<char>, nat)>,
    m: (Seq<char>, Seq<char>, Seq<char>, nat),
)
    ensures
        page(a.push(m)) == page(a) + metric(m.0, m.1, m.2, m.3),
{
    let one = seq![m];
    lemma_page_concat(a, one);
    assert(a + one =~= a.push(m));
    assert(one.drop_first() =~= seq![]);
    assert(page(one) =~= metric(m.0, m.1, m.2, m.3) + page(seq![]));
    assert(page(one) =~= metric(m.0, m.1, m.2, m.3));
}

/// The metrics that are always there.
spec fn server_metrics(s: ServerView, now: u64, uptime: u64) -> Seq<
    (Seq<char>, Seq<char>, Seq<char>, nat),
> {
    Seq::empty().push(
        (
            "picodb_uptime_seconds"@,
            "Seconds since the server started."@,
            "counter"@,
            uptime as nat,
        ),
    ).push(
        (
            "picodb_memory_usage_bytes"@,
            "Approximate bytes held by the cache."@,
            "gauge"@,
            s.cache.used(),
        ),
    ).push(
        (
            "picodb_total_keys"@,
            "Current number of live keys."@,
            "gauge"@,
            snapshot_of(s.cache.entries, now).len(),
        ),
    ).push(
        (
            "picodb_hits_total"@,
            "Total successful GETs."@,
            "counter"@,
            s.hits as nat,
        ),
    ).push(
        (
            "picodb_misses_total"@,
            "Total GET misses (absent or expired)."@,
            "counter"@,
            s.misses as nat,
        ),
    ).push(
        (
            "picodb_aof_enabled"@,
            "Whether append-only persistence is enabled (1/0)."@,
            "gauge"@,
            bit(s.aof is Some),
        ),
    )
}

/// The metrics of a log.
spec fn log_metrics(a: AofView) -> Seq<(Seq<char>, Seq<char>, Seq<char>, nat)> {
    Seq::empty().push(
        (
            "picodb_aof_size_bytes"@,
            "Approximate current AOF size in bytes."@,
            "gauge"@,
            a.size as nat,
        ),
    ).push(
        (
            "picodb_aof_rewrites_total"@,
            "Completed AOF rewrites (compactions)."@,
            "counter"@,
            a.rewrites as nat,
        ),
    ).push(
        (
            "picodb_aof_healthy"@,
            "Whether the AOF writer thread is healthy (1/0)."@,
            "gauge"@,
            bit(a.healthy),
        ),
    ).push(
        (
            "picodb_aof_write_errors_total"@,
            "Total AOF write errors."@,
            "counter"@,
            a.write_errors as nat,
        ),
    )
}

#[verifier::rlimit(40)]
proof fn lemma_server_page(s: ServerView, now: u64, uptime: u64)
    ensures
        metrics_text(s, now, uptime) == page(server_metrics(s, now, uptime)) + (match s.aof {
            Some(a) => aof_metrics(a),
            None => seq![],
        }),
{
    let m0 = Seq::<(Seq<char>, Seq<char>, Seq<char>, nat)>::empty();
    let m1 = m0.push(
        (
            "picodb_uptime_seconds"@,
            "Seconds since the server started."@,
            "counter"@,
            uptime as nat,
        ),
    );
    lemma_page_push(m0, m1.last());
    let m2 = m1.push(
        (
            "picodb_memory_usage_bytes"@,
            "Approximate bytes held by the cache."@,
            "gauge"@,
            s.cache.used(),
        ),
    );
    lemma_page_push(m1, m2.last());
    let m3 = m2.push(
        (
            "picodb_total_keys"@,
            "Current number of live keys."@,
            "gauge"@,
            snapshot_of(s.cache.entries, now).len(),
        ),
    );
    lemma_page_push(m2, m3.last());
    let m4 = m3.push(
        (
            "picodb_hits_total"@,
            "Total successful GETs."@,
            "counter"@,
            s.hits as nat,
        ),
    );
    lemma_page_push(m3, m4.last());
    let m5 = m4.push(
        (
            "picodb_misses_total"@,
            "Total GET misses (absent or expired)."@,
            "counter"@,
            s.misses as nat,
        ),
    );
    lemma_page_push(m4, m5.last());
    let m6 = m5.push(
        (
            "picodb_aof_enabled"@,
            "Whether append-only persistence is enabled (1/0)."@,
            "gauge"@,
            bit(s.aof is Some),
        ),
    );
    lemma_page_push(m5, m6.last());
    let first = m1.last();
    assert(page(m0) + metric(first.0, first.1, first.2, first.3) =~= metric(
        first.0,
        first.1,
        first.2,
        first.3,
    ));
}

proof fn lemma_log_page(a: AofView)
    ensures
        aof_metrics(a) == page(log_metrics(a)),
{
    let m0 = Seq::<(Seq<char>, Seq<char>, Seq<char>, nat)>::empty();
    let m1 = m0.push(
        (
            "picodb_aof_size_bytes"@,
            "Approximate current AOF size in bytes."@,
            "gauge"@,
            a.size as nat,
        ),
    );
    lemma_page_push(m0, m1.last());
    let m2 = m1.push(
        (
            "picodb_aof_rewrites_total"@,
            "Completed AOF rewrites (compactions)."@,
            "counter"@,
            a.rewrites as nat,
        ),
    );
    lemma_page_push(m1, m2.last());
    let m3 = m2.push(
        (
            "picodb_aof_healthy"@,
            "Whether the AOF writer thread is healthy (1/0)."@,
            "gauge"@,
            bit(a.healthy),
        ),
    );
    lemma_page_push(m2, m3.last());
    let m4 = m3.push(
        (
            "picodb_aof_write_errors_total"@,
            "Total AOF write errors."@,
            "counter"@,
            a.write_errors as nat,
        ),
    );
    lemma_page_push(m3, m4.last());
    let first = m1.last();
    assert(page(m0) + metric(first.0, first.1, first.2, first.3) =~= metric(
        first.0,
        first.1,
        first.2,
        first.3,
    ));
}

proof fn lemma_readable(s: ServerView, now: u64, uptime: u64, a: AofView)
    ensures
        forall|i: int| 0 <= i < 6 ==> readable(#[trigger] server_metrics(s, now, uptime)[i]),
        forall|i: int| 0 <= i < 4 ==> readable(#[trigger] log_metrics(a)[i]),
{
    lemma_uptime_seconds();
    lemma_memory_usage_bytes();
    lemma_total_keys();
    lemma_hits_total();
    lemma_misses_total();
    lemma_aof_enabled();
    lemma_aof_size_bytes();
    lemma_aof_rewrites_total();
    lemma_aof_healthy();
    lemma_aof_write_errors_total();
}

#[verifier::rlimit(40)]
proof fn lemma_names()
    ensures
        "picodb_uptime_seconds"@ != "picodb_memory_usage_bytes"@,
        "picodb_uptime_seconds"@ != "picodb_total_keys"@,
        "picodb_uptime_seconds"@ != "picodb_hits_total"@,
        "picodb_uptime_seconds"@ != "picodb_misses_total"@,
        "picodb_uptime_seconds"@ != "picodb_aof_enabled"@,
        "picodb_uptime_seconds"@ != "picodb_aof_size_bytes"@,
        "picodb_uptime_seconds"@ != "picodb_aof_rewrites_total"@,
        "picodb_uptime_seconds"@ != "picodb_aof_healthy"@,
        "picodb_uptime_seconds"@ != "picodb_aof_write_errors_total"@,
        "picodb_memory_usage_bytes"@ != "picodb_total_keys"@,
        "picodb_memory_usage_bytes"@ != "picodb_hits_total"@,
        "picodb_memory_usage_bytes"@ != "picodb_misses_total"@,
        "picodb_memory_usage_bytes"@ != "picodb_aof_enabled"@,
        "picodb_memory_usage_bytes"@ != "picodb_aof_size_bytes"@,
        "picodb_memory_usage_bytes"@ != "picodb_aof_rewrites_total"@,
        "picodb_memory_usage_bytes"@ != "picodb_aof_healthy"@,
        "picodb_memory_usage_bytes"@ != "picodb_aof_write_errors_total"@,
        "picodb_total_keys"@ != "picodb_hits_total"@,
        "picodb_total_keys"@ != "picodb_misses_total"@,
        "picodb_total_keys"@ != "picodb_aof_enabled"@,
        "picodb_total_keys"@ != "picodb_aof_size_bytes"@,
        "picodb_total_keys"@ != "picodb_aof_rewrites_total"@,
        "picodb_total_keys"@ != "picodb_aof_healthy"@,
        "picodb_total_keys"@ != "picodb_aof_write_errors_total"@,
        "picodb_hits_total"@ != "picodb_misses_total"@,
        "picodb_hits_total"@ != "picodb_aof_enabled"@,
        "picodb_hits_total"@ != "picodb_aof_size_bytes"@,
        "picodb_hits_total"@ != "picodb_aof_rewrites_total"@,
        "picodb_hits_total"@ != "picodb_aof_healthy"@,
        "picodb_hits_total"@ != "picodb_aof_write_errors_total"@,
        "picodb_misses_total"@ != "picodb_aof_enabled"@,
        "picodb_misses_total"@ != "picodb_aof_size_bytes"@,
        "picodb_misses_total"@ != "picodb_aof_rewrites_total"@,
        "picodb_misses_total"@ != "picodb_aof_healthy"@,
        "picodb_misses_total"@ != "picodb_aof_write_errors_total"@,
        "picodb_aof_enabled"@ != "picodb_aof_size_bytes"@,
        "picodb_aof_enabled"@ != "picodb_aof_rewrites_total"@,
        "picodb_aof_enabled"@ != "picodb_aof_healthy"@,
        "picodb_aof_enabled"@ != "picodb_aof_write_errors_total"@,
        "picodb_aof_size_bytes"@ != "picodb_aof_rewrites_total"@,
        "picodb_aof_size_bytes"@ != "picodb_aof_healthy"@,
        "picodb_aof_size_bytes"@ != "picodb_aof_write_errors_total"@,
        "picodb_aof_rewrites_total"@ != "picodb_aof_healthy"@,
        "picodb_aof_rewrites_total"@ != "picodb_aof_write_errors_total"@,
        "picodb_aof_healthy"@ != "picodb_aof_write_errors_total"@,
{
    reveal_strlit("picodb_uptime_seconds");
    reveal_strlit("picodb_memory_usage_bytes");
    reveal_strlit("picodb_total_keys");
    reveal_strlit("picodb_hits_total");
    reveal_strlit("picodb_misses_total");
    reveal_strlit("picodb_aof_enabled");
    reveal_strlit("picodb_aof_size_bytes");
    reveal_strlit("picodb_aof_rewrites_total");
    reveal_strlit("picodb_aof_healthy");
    reveal_strlit("picodb_aof_write_errors_total");
    assert("picodb_uptime_seconds"@.len() == 21);
    assert("picodb_memory_usage_bytes"@.len() == 25);
    assert("picodb_total_keys"@.len() == 17);
    assert("picodb_hits_total"@.len() == 17);
    assert("picodb_misses_total"@.len() == 19);
    assert("picodb_aof_enabled"@.len() == 18);
    assert("picodb_aof_size_bytes"@.len() == 21);
    assert("picodb_aof_rewrites_total"@.len() == 25);
    assert("picodb_aof_healthy"@.len() == 18);
    assert("picodb_aof_write_errors_total"@.len() == 29);
    assert("picodb_uptime_seconds"@[7] != "picodb_aof_size_bytes"@[7]);
    assert("picodb_memory_usage_bytes"@[7] != "picodb_aof_rewrites_total"@[7]);
    assert("picodb_total_keys"@[7] != "picodb_hits_total"@[7]);
    assert("picodb_aof_enabled"@[11] != "picodb_aof_healthy"@[11]);
}

/// The number in a sample.
pub open spec fn figure(text: Seq<char>, name: Seq<char>) -> Option<nat> {
    match sample(text, name) {
        Some(v) => number_of(v, u64::MAX as nat),
        None => None,
    }
}

/// What a reader of the metrics finds: under each name the server's own figure, and that
/// totals are counters and the rest are gauges.
#[verifier::rlimit(40)]
pub proof fn law_metrics(s: ServerView, now: u64, uptime: u64)
    requires
        s.cache.used() <= u64::MAX,
        snapshot_of(s.cache.entries, now).len() <= u64::MAX,
    ensures
        ({
            let text = metrics_text(s, now, uptime);
            let kind = |name: Seq<char>| sample(text, "# TYPE "@ + name);
            &&& figure(text, "picodb_uptime_seconds"@) == Some(uptime as nat)
            &&& figure(text, "picodb_memory_usage_bytes"@) == Some(s.cache.used())
            &&& figure(text, "picodb_total_keys"@) == Some(
                snapshot_of(s.cache.entries, now).len(),
            )
            &&& figure(text, "picodb_hits_total"@) == Some(s.hits as nat)
            &&& figure(text, "picodb_misses_total"@) == Some(s.misses as nat)
            &&& figure(text, "picodb_aof_enabled"@) == Some(
                if s.aof is Some {
                    1nat
                } else {
                    0nat
                },
            )
            &&& kind("picodb_uptime_seconds"@) == Some("counter"@)
            &&& kind("picodb_memory_usage_bytes"@) == Some("gauge"@)
            &&& kind("picodb_total_keys"@) == Some("gauge"@)
            &&& kind("picodb_hits_total"@) == Some("counter"@)
            &&& kind("picodb_misses_total"@) == Some("counter"@)
            &&& kind("picodb_aof_enabled"@) == Some("gauge"@)
            &&& s.aof matches Some(a) ==> {
                &&& figure(text, "picodb_aof_size_bytes"@) == Some(a.size as nat)
                &&& figure(text, "picodb_aof_rewrites_total"@) == Some(a.rewrites as nat)
                &&& figure(text, "picodb_aof_healthy"@) == Some(
                    if a.healthy {
                        1nat
                    } else {
                        0nat
                    },
                )
                &&& figure(text, "picodb_aof_write_errors_total"@) == Some(a.write_errors as nat)
                &&& kind("picodb_aof_size_bytes"@) == Some("gauge"@)
                &&& kind("picodb_aof_rewrites_total"@) == Some("counter"@)
                &&& kind("picodb_aof_healthy"@) == Some("gauge"@)
                &&& kind("picodb_aof_write_errors_total"@) == Some("counter"@)
            }
        }),
{
    let text = metrics_text(s, now, uptime);
    let front = server_metrics(s, now, uptime);
    let a = s.aof->0;
    let back = if s.aof is Some {
        log_metrics(a)
    } else {
        seq![]
    };
    let all = front + back;
    lemma_server_page(s, now, uptime);
    lemma_log_page(a);
    lemma_page_concat(front, back);
    assert(text == page(all));
    lemma_readable(s, now, uptime, a);
    assert forall|i: int| 0 <= i < all.len() implies readable(#[trigger] all[i]) by {
        if i >= 6 {
            assert(all[i] == back[i - 6]);
        } else {
            assert(all[i] == front[i]);
        }
    }
    lemma_names();
    lemma_figures(s, now, uptime);
    lemma_page(all, 0);
    lemma_page(all, 1);
    lemma_page(all, 2);
    lemma_page(all, 3);
    lemma_page(all, 4);
    lemma_page(all, 5);
    if s.aof is Some {
        lemma_page(all, 6);
        lemma_page(all, 7);
        lemma_page(all, 8);
        lemma_page(all, 9);
    }
}

proof fn lemma_figures(s: ServerView, now: u64, uptime: u64)
    requires
        s.cache.used() <= u64::MAX,
        snapshot_of(s.cache.entries, now).len() <= u64::MAX,
    ensures
        ({
            let read = |n: nat| number_of(decimal(n), u64::MAX as nat);
            &&& read(uptime as nat) == Some(uptime as nat)
            &&& read(s.cache.used()) == Some(s.cache.used())
            &&& read(snapshot_of(s.cache.entries, now).len()) == Some(
                snapshot_of(s.cache.entries, now).len(),
            )
            &&& read(s.hits as nat) == Some(s.hits as nat)
            &&& read(s.misses as nat) == Some(s.misses as nat)
            &&& read(0) == Some(0nat)
            &&& read(1) == Some(1nat)
            &&& s.aof matches Some(a) ==> read(a.size as nat) == Some(a.size as nat) && read(
                a.rewrites as nat,
            ) == Some(a.rewrites as nat) && read(a.write_errors as nat) == Some(
                a.write_errors as nat,
            )
        }),
{
    let max = u64::MAX as nat;
    law_number_of_decimal(uptime as nat, max);
    law_number_of_decimal(s.cache.used(), max);
    law_number_of_decimal(snapshot_of(s.cache.entries, now).len(), max);
    law_number_of_decimal(s.hits as nat, max);
    law_number_of_decimal(s.misses as nat, max);
    law_number_of_decimal(0, max);
    law_number_of_decimal(1, max);
    if let Some(a) = s.aof {
        law_number_of_decimal(a.size as nat, max);
        law_number_of_decimal(a.rewrites as nat, max);
        law_number_of_decimal(a.write_errors as nat, max);
    }
}

/// What a reader finds in the metrics that are rendered: the server's own counts.
pub proof fn law_rendered_metrics(server: &Server, now: u64, uptime: u64, text: String)
    requires
        call_ensures(render_metrics_at, (server, now, uptime), text),
        server@.cache.used() <= u64::MAX,
        snapshot_of(server@.cache.entries, now).len() <= u64::MAX,
    ensures
        figure(text@, "picodb_uptime_seconds"@) == Some(uptime as nat),
        figure(text@, "picodb_memory_usage_bytes"@) == Some(server@.cache.used()),
        figure(text@, "picodb_total_keys"@) == Some(snapshot_of(server@.cache.entries, now).len()),
        figure(text@, "picodb_hits_total"@) == Some(server.hits as nat),
        figure(text@, "picodb_misses_total"@) == Some(server.misses as nat),
{
    law_metrics(server@, now, uptime);
}

} // verus!
