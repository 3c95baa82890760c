//! Replay as a second run: a log of writes alone goes through the same evictions again.
use vstd::prelude::*;

use crate::aof::file_after;
use crate::bytemap::{distinct_keys, has_key, lemma_position, lemma_position_at, position};
use crate::cache_laws::{
    law_fitted, law_no_eviction, law_sound, lemma_with_front, lemma_without, sound,
};
use crate::effects::{effect, expiry};
use crate::engine::head_of;
use crate::log_laws::{
    changed, deletes, enforces_cap, evictions, fits, front_record, in_range, lemma_carries_over,
    lemma_collection_effect, lemma_collection_runs, lemma_file_replayed, lemma_front_again,
    lemma_log_mutates, lemma_new_file, lemma_refreshed, lemma_refreshed_mirrors, lemma_served_all,
    lemma_unfitted, log_entry, log_of, log_one, ran_all, ran_one, sent_since, served_all, timely,
    unfitted, writer_takes_all, Step,
};
use crate::model::{dropped, fitted, record_sizes, size_of_entry, used_bytes, CacheView, Record};
use crate::protocol::{framable, mutating, Request, ACT_DEL, ACT_FLUSH, ACT_PUBLISH, ACT_SET};
use crate::replay::{lapsed, magic, records, relative_ttl, replayed};
use crate::replay_laws::{
    lemma_recalled_concat, lemma_recalled_single, recalled, recalled_all, refreshed,
};
use crate::server::{Answers, ServerView};
use crate::store_laws::law_command_spares_others;
use crate::sums::{lemma_total_push, lemma_total_take};

verus! {

/// Live records of two listings, one after the other.
proof fn lemma_refreshed_concat(
    a: Seq<(Seq<u8>, Record)>,
    b: Seq<(Seq<u8>, Record)>,
    now: u64,
)
    ensures
        refreshed(a + b, now) == refreshed(a, now) + refreshed(b, now),
        refreshed(b, now).len() <= b.len(),
    decreases b.len(),
{
    if b.len() == 0 {
        assert(a + b =~= a);
        assert(refreshed(a, now) + refreshed(b, now) =~= refreshed(a, now));
    } else {
        lemma_refreshed_concat(a, b.drop_last(), now);
        assert((a + b).drop_last() =~= a + b.drop_last());
        assert((a + b).last() == b.last());
        assert(refreshed(a + b, now) =~= refreshed(a, now) + refreshed(b, now));
    }
}

/// A single record, if it is live.
proof fn lemma_refreshed_single(e: (Seq<u8>, Record), now: u64)
    ensures
        refreshed(seq![e], now) == (if e.1.expired(now) {
            Seq::<(Seq<u8>, Record)>::empty()
        } else {
            seq![(e.0, Record { last_accessed: now, ..e.1 })]
        }),
{
    let one = seq![e];
    assert(one.drop_last() =~= seq![]);
    assert(refreshed(one.drop_last(), now) =~= seq![]);
    assert(one.last() == e);
    assert(refreshed(one, now) =~= (if e.1.expired(now) {
        Seq::<(Seq<u8>, Record)>::empty()
    } else {
        seq![(e.0, Record { last_accessed: now, ..e.1 })]
    }));
}

/// Live records take up no more than all records.
proof fn lemma_refreshed_used(s: Seq<(Seq<u8>, Record)>, now: u64)
    ensures
        used_bytes(refreshed(s, now)) <= used_bytes(s),
    decreases s.len(),
{
    if s.len() > 0 {
        let t = s.drop_last();
        let q = refreshed(t, now);
        let size = size_of_entry(s.last().0, s.last().1.value);
        lemma_refreshed_used(t, now);
        assert(record_sizes(s) =~= record_sizes(t).push(size));
        lemma_total_push(record_sizes(t), size);
        if !s.last().1.expired(now) {
            assert(record_sizes(refreshed(s, now)) =~= record_sizes(q).push(size));
            lemma_total_push(record_sizes(q), size);
        }
    } else {
        assert(refreshed(s, now) =~= s);
    }
}

/// A beginning of a listing takes up no more than the listing.
proof fn lemma_take_used(s: Seq<(Seq<u8>, Record)>, n: int)
    requires
        0 <= n <= s.len(),
    ensures
        used_bytes(s.take(n)) <= used_bytes(s),
{
    assert(record_sizes(s.take(n)) =~= record_sizes(s).take(n));
    lemma_total_take(record_sizes(s), n);
}

/// Leaving out a key on both sides.
proof fn lemma_refreshed_without(c: CacheView, d: CacheView, key: Seq<u8>, now: u64)
    requires
        distinct_keys(c.entries),
        d.entries == refreshed(c.entries, now),
    ensures
        d.without(key).entries == refreshed(c.without(key).entries, now),
        c.live(key, now) is None ==> d.without(key).entries == d.entries,
{
    let s = c.entries;
    let r = d.entries;
    lemma_refreshed(s, now);
    lemma_position(s, key);
    lemma_position(r, key);
    if has_key(r, key) {
        let i = position(r, key);
        let j = choose|j: int|
            0 <= j < s.len() && r[i] == (
                (#[trigger] s[j]).0,
                Record { last_accessed: now, ..s[j].1 },
            ) && !s[j].1.expired(now);
        lemma_position_at(s, j);
    }
    if has_key(s, key) {
        let p = position(s, key);
        let e = s[p];
        let a = s.take(p);
        let b = s.skip(p + 1);
        assert(s =~= (a + seq![e]) + b);
        assert(c.without(key).entries =~= a + b);
        lemma_refreshed_concat(a + seq![e], b, now);
        lemma_refreshed_concat(a, seq![e], now);
        lemma_refreshed_concat(a, b, now);
        lemma_refreshed_single(e, now);
        let x = refreshed(a, now);
        let y = refreshed(b, now);
        if e.1.expired(now) {
            assert(r =~= x + y);
        } else {
            let shown = (e.0, Record { last_accessed: now, ..e.1 });
            assert(r =~= (x + seq![shown]) + y);
            assert(r[x.len() as int] == shown);
            lemma_position_at(r, x.len() as int);
            assert(r.remove(x.len() as int) =~= x + y);
        }
    }
}

/// Putting a record in front on both sides: on the live side only if it is live.
proof fn lemma_refreshed_front(c: CacheView, d: CacheView, key: Seq<u8>, p: Record, now: u64)
    requires
        distinct_keys(c.entries),
        d.entries == refreshed(c.entries, now),
    ensures
        refreshed(c.with_front(key, p).entries, now) == (if p.expired(now) {
            d.without(key).entries
        } else {
            d.with_front(key, Record { last_accessed: now, ..p }).entries
        }),
{
    lemma_refreshed_without(c, d, key, now);
    lemma_refreshed_concat(seq![(key, p)], c.without(key).entries, now);
    lemma_refreshed_single((key, p), now);
    assert(Seq::<(Seq<u8>, Record)>::empty() + d.without(key).entries =~= d.without(key).entries);
}

/// Whether the keys of a cache are no longer than its cap.
pub open spec fn keys_fit(d: CacheView) -> bool {
    forall|k: Seq<u8>| #[trigger] has_key(d.entries, k) ==> k.len() <= d.cap
}

/// What is dropped of all records leaves at least what is dropped of the live ones.
#[verifier::rlimit(40)]
#[verifier::spinoff_prover]
proof fn lemma_live_part_stays(
    a: Seq<(Seq<u8>, Record)>,
    cap: nat,
    room: nat,
    key: Seq<u8>,
    now: u64,
)
    requires
        distinct_keys(a),
        a.len() > 0,
        a[0].0 == key,
        !a[0].1.expired(now),
        cap <= room,
    ensures
        ({
            let live = refreshed(a, now);
            let m = fitted(live, room, Some(key)).len() as int;
            &&& fitted(live, room, Some(key)) == live.take(m)
            &&& refreshed(fitted(a, cap, Some(key)), now).len() <= m <= live.len()
        }),
{
    let live = refreshed(a, now);
    law_fitted(a, cap, Some(key));
    law_fitted(live, room, Some(key));
    let n = fitted(a, cap, Some(key)).len() as int;
    let m = fitted(live, room, Some(key)).len() as int;
    let kept = refreshed(a.take(n), now);
    assert(a =~= a.take(n) + a.skip(n));
    lemma_refreshed_concat(a.take(n), a.skip(n), now);
    lemma_refreshed_concat(Seq::empty(), a.take(n), now);
    lemma_refreshed(a, now);
    assert(has_key(live, a[0].0));
    if m < kept.len() {
        assert(live.take(m + 1) =~= kept.take(m + 1));
        lemma_take_used(kept, m + 1);
        lemma_refreshed_used(a.take(n), now);
        if n > 1 {
            assert(a[0].0 != a[n - 1].0);
        }
    }
}

/// Replaying the deletes of what was dropped leaves the live part of what was kept.
proof fn lemma_trim(
    a: Seq<(Seq<u8>, Record)>,
    cap: nat,
    keep: Option<Seq<u8>>,
    d: CacheView,
    m: int,
    now: u64,
)
    requires
        distinct_keys(a),
        refreshed(fitted(a, cap, keep), now).len() <= m <= refreshed(a, now).len(),
        d.entries == refreshed(a, now).take(m),
        d.evicted.len() == 0,
        keys_fit(d),
    ensures
        ({
            let f = recalled_all(d, deletes(dropped(a, cap, keep)), now);
            &&& f.entries == refreshed(fitted(a, cap, keep), now)
            &&& f.evicted.len() == 0
            &&& f.cap == d.cap
            &&& keys_fit(f)
        }),
    decreases a.len(),
{
    let keys = dropped(a, cap, keep);
    let rs = deletes(keys);
    let all = refreshed(a, now);
    if used_bytes(a) > cap && a.len() > 1 && keep != Some(a.last().0) {
        let t = a.drop_last();
        let e = a.last();
        let n = a.len() - 1;
        let rest = refreshed(t, now);
        let later = dropped(t, cap, keep);
        let g = recalled(d, rs[0], now);
        assert(keys[0] == e.0);
        assert(rs.drop_first() =~= deletes(later));
        assert(distinct_keys(t)) by {
            assert forall|i: int, j: int| 0 <= i < j < t.len() implies (#[trigger] t[i]).0 != (
            #[trigger] t[j]).0 by {
                assert(a[i].0 != a[j].0);
            }
        }
        lemma_refreshed(t, now);
        lemma_refreshed(a, now);
        assert(!has_key(rest, e.0)) by {
            if has_key(rest, e.0) {
                lemma_position(rest, e.0);
                let i = position(rest, e.0);
                let j = choose|j: int|
                    0 <= j < t.len() && rest[i] == (
                        (#[trigger] t[j]).0,
                        Record { last_accessed: now, ..t[j].1 },
                    ) && !t[j].1.expired(now);
                assert(a[j] == t[j]);
                assert(a[j].0 != a[n].0);
            }
        }
        let m2 = if m > rest.len() {
            rest.len() as int
        } else {
            m
        };
        if m > rest.len() {
            assert(d.entries =~= all);
            assert(all[rest.len() as int].0 == e.0);
            lemma_position_at(all, rest.len() as int);
            assert(has_key(d.entries, e.0));
            assert(all.remove(rest.len() as int) =~= rest);
            assert(g.entries =~= rest.take(m2));
        } else {
            assert(d.entries =~= rest.take(m));
            assert(!has_key(d.entries, e.0)) by {
                if has_key(d.entries, e.0) {
                    lemma_position(d.entries, e.0);
                    let i = position(d.entries, e.0);
                    assert(rest[i].0 == e.0);
                }
            }
            assert(g.entries =~= rest.take(m2));
        }
        assert(keys_fit(g)) by {
            assert forall|k: Seq<u8>| #[trigger] has_key(g.entries, k) implies k.len()
                <= g.cap by {
                lemma_position(g.entries, k);
                let i = position(g.entries, k);
                assert(g.entries[i] == all[i]);
                assert(d.entries[i] == all[i]);
                assert(has_key(d.entries, k));
            }
        }
        law_fitted(t, cap, keep);
        let x = fitted(t, cap, keep).len() as int;
        assert(t =~= t.take(x) + t.skip(x));
        lemma_refreshed_concat(t.take(x), t.skip(x), now);
        lemma_trim(t, cap, keep, g, m2, now);
    } else {
        assert(rs =~= seq![]);
        assert(d.entries =~= all);
    }
}

/// A running cache, and one that holds what is live of it at `now`, in the same order of
/// recency, with at least the same cap.
pub open spec fn reruns(c: CacheView, d: CacheView, now: u64) -> bool {
    &&& sound(c)
    &&& c.evicted.len() == 0 && d.evicted.len() == 0
    &&& c.cap <= d.cap
    &&& d.entries == refreshed(c.entries, now)
    &&& keys_fit(d)
}

/// What a replayed command on a string or a collection leaves, before the deletes of what
/// the running server evicted.
proof fn lemma_rerun_write(c: CacheView, d: CacheView, s: Step, now: u64) -> (m: int)
    requires
        reruns(c, d, now),
        s.at <= now,
        in_range(s),
        mutating(s.action),
        effect(c, s.at, s.action, s.key, s.value, s.ttl).done,
        enforces_cap(c, s),
        fits(d.cap, log_entry(s), now),
    ensures
        ({
            let a = unfitted(c, s).entries;
            let e = recalled(d, log_entry(s), now);
            &&& refreshed(fitted(a, c.cap, Some(s.key)), now).len() <= m <= refreshed(a, now).len()
            &&& e.entries == refreshed(a, now).take(m)
            &&& e.evicted.len() == 0
            &&& e.cap == d.cap
        }),
{
    let key = s.key;
    let r = log_entry(s);
    let p = front_record(c, s);
    let a = unfitted(c, s).entries;
    let e = recalled(d, r, now);
    let live = refreshed(a, now);
    lemma_with_front(c, key, p);
    lemma_refreshed_front(c, d, key, p, now);
    lemma_refreshed_mirrors(c, d, now);
    lemma_unfitted(c, s);
    if s.action == ACT_SET && lapsed(r, now) {
        law_fitted(a, c.cap, Some(key));
        let n = fitted(a, c.cap, Some(key)).len() as int;
        assert(a =~= a.take(n) + a.skip(n));
        lemma_refreshed_concat(a.take(n), a.skip(n), now);
        assert(live.take(live.len() as int) =~= live);
        live.len() as int
    } else {
        let q = Record { last_accessed: now, ..p };
        let b = d.with_front(key, q);
        lemma_live_part_stays(a, c.cap, d.cap, key, now);
        let m = fitted(live, d.cap, Some(key)).len() as int;
        assert(b.fit(Some(key)).entries == live.take(m));
        if s.action == ACT_SET {
            assert(expiry(now, relative_ttl(r, now)) == expiry(s.at, s.ttl));
        } else {
            lemma_collection_effect(c, s.at, s.action, key, s.value, s.ttl);
            lemma_carries_over(c, d, key, s.at, now);
            assert(c.live(key, s.at) == d.live(key, now));
            lemma_collection_runs(c, s.at, d, now, s.action, key, s.value, s.ttl);
            lemma_collection_effect(d, now, s.action, key, s.value, 0);
            lemma_with_front(d, key, q);
        }
        m
    }
}

/// What a replayed command leaves where nothing has to be dropped.
proof fn lemma_rerun_other(c: CacheView, d: CacheView, s: Step, now: u64)
    requires
        reruns(c, d, now),
        s.at <= now,
        mutating(s.action),
        effect(c, s.at, s.action, s.key, s.value, s.ttl).done,
        !enforces_cap(c, s),
        fits(d.cap, log_entry(s), now),
    ensures
        ({
            let e = recalled(d, log_entry(s), now);
            &&& e.entries == refreshed(ran_one(c, s).entries, now)
            &&& e.evicted.len() == 0
            &&& e.cap == d.cap
        }),
{
    let key = s.key;
    lemma_refreshed_mirrors(c, d, now);
    lemma_refreshed_without(c, d, key, now);
    if s.action == ACT_DEL || s.action == ACT_FLUSH {
    } else {
        lemma_collection_effect(c, s.at, s.action, key, s.value, s.ttl);
        lemma_carries_over(c, d, key, s.at, now);
        assert(c.live(key, s.at) == d.live(key, now));
        lemma_collection_runs(c, s.at, d, now, s.action, key, s.value, s.ttl);
        lemma_collection_effect(d, now, s.action, key, s.value, 0);
        match changed(c.live(key, s.at), s.action, s.value) {
            Some(v) => {
                let p = Record { value: v, expires_at: None, last_accessed: s.at };
                let q = Record { value: v, expires_at: None, last_accessed: now };
                lemma_with_front(c, key, p);
                lemma_with_front(d, key, q);
                lemma_front_again(c, key, p, p);
                lemma_front_again(d, key, q, q);
            },
            None => {
                lemma_position(c.entries, key);
                lemma_position(d.entries, key);
                assert(d.looked_up(key, now).entries == d.entries);
            },
        }
    }
}

/// A replayed command brings in no key but its own.
proof fn lemma_rerun_keys(d: CacheView, s: Step, now: u64)
    requires
        sound(d),
        keys_fit(d),
        fits(d.cap, log_entry(s), now),
        mutating(s.action),
    ensures
        keys_fit(recalled(d, log_entry(s), now)),
{
    let r = log_entry(s);
    let ttl = relative_ttl(r, now);
    let e = recalled(d, r, now);
    law_no_eviction(d, now, r.action, r.key, r.value, ttl);
    lemma_without(d, r.key);
    assert forall|k: Seq<u8>| #[trigger] has_key(e.entries, k) implies k.len() <= e.cap by {
        if lapsed(r, now) {
            lemma_position(e.entries, k);
            lemma_position(d.entries, r.key);
            let i = position(e.entries, k);
            let j = if has_key(d.entries, r.key) && i >= position(d.entries, r.key) {
                i + 1
            } else {
                i
            };
            assert(d.entries[j] == e.entries[i]);
            assert(has_key(d.entries, k));
        } else if k != r.key {
            law_command_spares_others(d, now, r.action, r.key, r.value, ttl, k);
            assert(e.record(k) is Some);
            assert(has_key(d.entries, k));
        }
    }
}

/// Replaying what was logged of a write does to the live part what the write did to the
/// whole, evictions included.
pub proof fn law_rerun_command(c: CacheView, d: CacheView, s: Step, now: u64)
    requires
        reruns(c, d, now),
        s.at <= now,
        in_range(s),
        mutating(s.action),
        effect(c, s.at, s.action, s.key, s.value, s.ttl).done,
        fits(d.cap, log_entry(s), now),
    ensures
        reruns(ran_one(c, s), recalled_all(d, log_one(c, s), now), now),
{
    let r = log_entry(s);
    let own = seq![r];
    let keys = evictions(c, s);
    let e = recalled(d, r, now);
    law_sound(c, s.at, s.action, s.key, s.value, s.ttl);
    law_no_eviction(c, s.at, s.action, s.key, s.value, s.ttl);
    lemma_refreshed_mirrors(c, d, now);
    lemma_rerun_keys(d, s, now);
    lemma_unfitted(c, s);
    if enforces_cap(c, s) {
        let a = unfitted(c, s).entries;
        let m = lemma_rerun_write(c, d, s, now);
        lemma_trim(a, c.cap, Some(s.key), e, m, now);
    } else {
        lemma_rerun_other(c, d, s, now);
        assert(deletes(keys) =~= seq![]);
        assert(recalled_all(e, deletes(keys), now) == e);
    }
    lemma_recalled_concat(d, own, deletes(keys), now);
    lemma_recalled_single(d, r, now);
    assert(log_one(c, s) =~= own + deletes(keys));
}

/// Whether a run consists of commands that change stored data and ran, and whose bodies fit
/// a cache of `cap` bytes, but for SETs that have expired by `now`.
pub open spec fn only_writes(c: CacheView, steps: Seq<Step>, cap: nat, now: u64) -> bool
    decreases steps.len(),
{
    steps.len() > 0 ==> {
        let s = steps[0];
        &&& mutating(s.action)
        &&& effect(c, s.at, s.action, s.key, s.value, s.ttl).done
        &&& fits(cap, log_entry(s), now)
        &&& only_writes(ran_one(c, s), steps.drop_first(), cap, now)
    }
}

/// Replaying the log of writes goes through the same states as the run, evictions included:
/// it ends with the records that are live at that time, with their expiry and in their order
/// of recency.
pub proof fn law_rerun(c: CacheView, d: CacheView, steps: Seq<Step>, now: u64)
    requires
        reruns(c, d, now),
        timely(steps, now),
        only_writes(c, steps, d.cap, now),
    ensures
        reruns(ran_all(c, steps), recalled_all(d, log_of(c, steps), now), now),
    decreases steps.len(),
{
    if steps.len() > 0 {
        let s = steps[0];
        let rest = steps.drop_first();
        let e = ran_one(c, s);
        let first = log_one(c, s);
        assert(forall|i: int| 0 <= i < rest.len() ==> #[trigger] rest[i] == steps[i + 1]);
        law_rerun_command(c, d, s, now);
        lemma_recalled_cap(d, first, now);
        law_rerun(e, recalled_all(d, first, now), rest, now);
        lemma_recalled_concat(d, first, log_of(e, rest), now);
    }
}

/// Replay keeps the cap.
proof fn lemma_recalled_cap(d: CacheView, rs: Seq<Request>, now: u64)
    ensures
        recalled_all(d, rs, now).cap == d.cap,
    decreases rs.len(),
{
    if rs.len() > 0 {
        lemma_recalled_cap(recalled(d, rs[0], now), rs.drop_first(), now);
    }
}

/// A restart after any number of evictions: the frames that a run of writes hands to the
/// writer, replayed on a fresh server with at least the same cap, bring back exactly the
/// records that are live at that time, with their expiry and in their order of recency. A
/// tail torn by a crash does no harm.
pub proof fn law_restart_reruns(
    s: ServerView,
    steps: Seq<Step>,
    answers: Seq<Answers>,
    replaced: Seq<bool>,
    fresh: ServerView,
    torn: Seq<u8>,
    now: u64,
    later: Seq<Answers>,
)
    requires
        s.cache.entries.len() == 0,
        s.cache.evicted.len() == 0,
        s.aof matches Some(aof) && aof.healthy,
        writer_takes_all(s.cache, steps, answers),
        timely(steps, now),
        only_writes(s.cache, steps, fresh.cache.cap, now),
        forall|i: int|
            0 <= i < log_of(s.cache, steps).len() ==> framable(
                #[trigger] log_of(s.cache, steps)[i],
            ),
        fresh.cache.entries.len() == 0,
        fresh.cache.evicted.len() == 0,
        s.cache.cap <= fresh.cache.cap,
        fresh.aof is None,
        !(head_of(torn) is Whole),
    ensures
        ({
            let t = served_all(s, steps, answers);
            let file = file_after(magic(), sent_since(s, t), replaced);
            replayed(fresh, records(file + torn), now, later).0.cache.entries == refreshed(
                t.cache.entries,
                now,
            )
        }),
{
    let rs = log_of(s.cache, steps);
    lemma_served_all(s, steps, answers);
    lemma_log_mutates(s.cache, steps);
    assert forall|i: int| 0 <= i < rs.len() implies (#[trigger] rs[i]).action != ACT_PUBLISH by {
        assert(mutating(rs[i].action));
    }
    lemma_new_file(s, served_all(s, steps, answers), rs, replaced, torn);
    lemma_file_replayed(fresh, rs, torn, now, later);
    assert(fresh.cache.entries =~= refreshed(s.cache.entries, now));
    assert(reruns(s.cache, fresh.cache, now));
    law_rerun(s.cache, fresh.cache, steps, now);
}

} // verus!
