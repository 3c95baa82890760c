//! The commands on stored data: what each does to the cache and what it replies.
use vstd::prelude::*;
use vstd::utf8::encode_utf8;

use crate::bytemap::{
    bound, distinct_keys, has_key, lemma_distinct, lemma_position, position, unbound, value_of,
};
use crate::bytes::signed64;
use crate::model::{CacheView, Record};
use crate::protocol::{
    args_of, array_reply, bulk_reply, int_reply, ACT_DEL, ACT_FLUSH, ACT_GET, ACT_HDEL, ACT_HGET,
    ACT_HGETALL, ACT_HLEN, ACT_HSET, ACT_LLEN, ACT_LPOP, ACT_LPUSH, ACT_LRANGE, ACT_RPOP, ACT_RPUSH,
    ACT_SADD, ACT_SCARD, ACT_SET, ACT_SISMEMBER, ACT_SMEMBERS, ACT_SREM, ACT_TYPE, RSP_ERROR,
    RSP_MISSING, RSP_OK,
};
use crate::sums::{
    lemma_total_concat, lemma_total_push, lemma_total_reverse, lemma_total_swap_remove,
    lemma_total_update, total,
};
use crate::value::{item_sizes, member_sizes, pair_sizes, ValueView};

verus! {

/// What a command does.
#[verifier::ext_equal]
pub struct Effect {
    /// The cache afterwards.
    pub cache: CacheView,
    /// The reply.
    pub reply: Seq<u8>,
    /// False if the command was turned down before it ran (malformed arguments, or a
    /// write to a value of another type); such a command is never logged.
    pub done: bool,
    /// Counts as a successful GET.
    pub hit: bool,
    /// Counts as a GET of an absent or expired key.
    pub miss: bool,
}

/// A command that ran.
pub open spec fn ran(cache: CacheView, reply: Seq<u8>) -> Effect {
    Effect { cache, reply, done: true, hit: false, miss: false }
}

/// A command that was turned down.
pub open spec fn refused(cache: CacheView) -> Effect {
    Effect { cache, reply: seq![RSP_ERROR], done: false, hit: false, miss: false }
}

/// The expiry time of a record stored at `now` (2^64 wraps around).
pub open spec fn expiry(now: u64, ttl: u32) -> Option<u64> {
    if ttl == 0 {
        None
    } else if now + ttl > u64::MAX {
        Some((now + ttl - 18446744073709551616) as u64)
    } else {
        Some((now + ttl) as u64)
    }
}

/// SET: stores a string, with an expiry if a TTL is given.
pub open spec fn set_effect(
    c: CacheView,
    now: u64,
    key: Seq<u8>,
    value: Seq<u8>,
    ttl: u32,
) -> Effect {
    ran(c.stored(key, ValueView::Str(value), expiry(now, ttl), now), seq![RSP_OK])
}

/// GET: a hit on a live string, an error on another type, a miss otherwise.
pub open spec fn get_effect(c: CacheView, now: u64, key: Seq<u8>) -> Effect {
    let after = c.looked_up(key, now);
    match c.live(key, now) {
        Some(ValueView::Str(s)) => Effect { hit: true, ..ran(after, bulk_reply(s)) },
        Some(_) => ran(after, seq![RSP_ERROR]),
        None => Effect { miss: true, ..ran(after, seq![RSP_MISSING]) },
    }
}

/// DEL: removes a key of any type; an expired one counts as missing.
pub open spec fn del_effect(c: CacheView, now: u64, key: Seq<u8>) -> Effect {
    ran(
        c.without(key),
        if c.live(key, now) is Some {
            seq![RSP_OK]
        } else {
            seq![RSP_MISSING]
        },
    )
}

/// TYPE: names the type of a live value.
pub open spec fn type_effect(c: CacheView, now: u64, key: Seq<u8>) -> Effect {
    ran(
        c.looked_up(key, now),
        match c.live(key, now) {
            Some(v) => bulk_reply(encode_utf8(v.kind_name())),
            None => bulk_reply(encode_utf8("none"@)),
        },
    )
}

/// The cache in which a write to a collection under `key` takes place: the key
/// looked up, or created with an empty collection.
pub open spec fn opened(c: CacheView, now: u64, key: Seq<u8>, empty: ValueView) -> CacheView {
    if c.live(key, now) is Some {
        c.looked_up(key, now)
    } else {
        c.looked_up(key, now).with_front(
            key,
            Record { value: empty, expires_at: None, last_accessed: now },
        )
    }
}

/// HSET: binds a field; replies 1 if it is new, 0 if it is updated.
pub open spec fn hset_effect(c: CacheView, now: u64, key: Seq<u8>, value: Seq<u8>) -> Effect {
    match args_of(value) {
        Some(args) if args.len() == 2 => {
            let base = opened(c, now, key, ValueView::Hash(seq![]));
            match base.entries[0].1.value {
                ValueView::Hash(h) => ran(
                    base.revalued(key, ValueView::Hash(bound(h, args[0], args[1]))).settled(key),
                    int_reply(
                        if has_key(h, args[0]) {
                            0
                        } else {
                            1
                        },
                    ),
                ),
                _ => refused(base),
            }
        },
        _ => refused(c),
    }
}

/// HGET: the value of a field.
pub open spec fn hget_effect(c: CacheView, now: u64, key: Seq<u8>, value: Seq<u8>) -> Effect {
    match args_of(value) {
        Some(args) if args.len() == 1 => ran(
            c.looked_up(key, now),
            match c.live(key, now) {
                Some(ValueView::Hash(h)) => match value_of(h, args[0]) {
                    Some(v) => bulk_reply(v),
                    None => seq![RSP_MISSING],
                },
                Some(_) => seq![RSP_ERROR],
                None => seq![RSP_MISSING],
            },
        ),
        _ => refused(c),
    }
}

/// HDEL: removes a field; replies whether it was there.
pub open spec fn hdel_effect(c: CacheView, now: u64, key: Seq<u8>, value: Seq<u8>) -> Effect {
    match args_of(value) {
        Some(args) if args.len() == 1 => {
            let base = c.looked_up(key, now);
            match c.live(key, now) {
                Some(ValueView::Hash(h)) => ran(
                    base.revalued(key, ValueView::Hash(unbound(h, args[0]))).settled(key),
                    int_reply(
                        if has_key(h, args[0]) {
                            1
                        } else {
                            0
                        },
                    ),
                ),
                Some(_) => refused(base),
                None => ran(base, int_reply(0)),
            }
        },
        _ => refused(c),
    }
}

/// Fields and values in turn.
pub open spec fn pair_items(h: Seq<(Seq<u8>, Seq<u8>)>) -> Seq<Seq<u8>>
    decreases h.len(),
{
    if h.len() == 0 {
        seq![]
    } else {
        pair_items(h.drop_last()).push(h.last().0).push(h.last().1)
    }
}

/// HGETALL: all fields with their values.
pub open spec fn hgetall_effect(c: CacheView, now: u64, key: Seq<u8>) -> Effect {
    ran(
        c.looked_up(key, now),
        match c.live(key, now) {
            Some(ValueView::Hash(h)) => array_reply(2 * h.len() as int, pair_items(h)),
            Some(_) => seq![RSP_ERROR],
            None => array_reply(0, seq![]),
        },
    )
}

/// HLEN: the number of fields.
pub open spec fn hlen_effect(c: CacheView, now: u64, key: Seq<u8>) -> Effect {
    ran(
        c.looked_up(key, now),
        match c.live(key, now) {
            Some(ValueView::Hash(h)) => int_reply(h.len() as int),
            Some(_) => seq![RSP_ERROR],
            None => int_reply(0),
        },
    )
}

/// A list after items are pushed, one by one, at one end.
pub open spec fn pushed(l: Seq<Seq<u8>>, args: Seq<Seq<u8>>, front: bool) -> Seq<Seq<u8>> {
    if front {
        args.reverse() + l
    } else {
        l + args
    }
}

/// LPUSH (at the front) and RPUSH: pushes items; replies with the new length.
pub open spec fn push_effect(
    c: CacheView,
    now: u64,
    key: Seq<u8>,
    value: Seq<u8>,
    front: bool,
) -> Effect {
    match args_of(value) {
        Some(args) if args.len() > 0 => {
            let base = opened(c, now, key, ValueView::List(seq![]));
            match base.entries[0].1.value {
                ValueView::List(l) => ran(
                    base.revalued(key, ValueView::List(pushed(l, args, front))).settled(key),
                    int_reply((l.len() + args.len()) as int),
                ),
                _ => refused(base),
            }
        },
        _ => refused(c),
    }
}

/// LPOP (at the front) and RPOP: takes an item off.
pub open spec fn pop_effect(c: CacheView, now: u64, key: Seq<u8>, front: bool) -> Effect {
    let base = c.looked_up(key, now);
    match c.live(key, now) {
        Some(ValueView::List(l)) => if l.len() == 0 {
            ran(base, seq![RSP_MISSING])
        } else {
            ran(
                base.revalued(
                    key,
                    ValueView::List(
                        if front {
                            l.drop_first()
                        } else {
                            l.drop_last()
                        },
                    ),
                ).settled(key),
                bulk_reply(
                    if front {
                        l[0]
                    } else {
                        l.last()
                    },
                ),
            )
        },
        Some(_) => refused(base),
        None => ran(base, seq![RSP_MISSING]),
    }
}

/// LLEN: the number of items.
pub open spec fn llen_effect(c: CacheView, now: u64, key: Seq<u8>) -> Effect {
    ran(
        c.looked_up(key, now),
        match c.live(key, now) {
            Some(ValueView::List(l)) => int_reply(l.len() as int),
            Some(_) => seq![RSP_ERROR],
            None => int_reply(0),
        },
    )
}

/// The items from `start` to `stop`, both included; negative positions count from
/// the end, and positions beyond either end are cut off.
pub open spec fn list_range(l: Seq<Seq<u8>>, start: int, stop: int) -> Seq<Seq<u8>> {
    let n = l.len() as int;
    let s = if start < 0 {
        if n + start < 0 {
            0
        } else {
            n + start
        }
    } else {
        start
    };
    let e = if stop < 0 {
        n + stop
    } else if stop < n {
        stop
    } else {
        n - 1
    };
    if s > e || s >= n {
        seq![]
    } else {
        l.subrange(s, e + 1)
    }
}

/// LRANGE: the items between two positions.
pub open spec fn lrange_effect(c: CacheView, now: u64, key: Seq<u8>, value: Seq<u8>) -> Effect {
    if value.len() != 16 {
        refused(c)
    } else {
        ran(
            c.looked_up(key, now),
            match c.live(key, now) {
                Some(ValueView::List(l)) => {
                    let r = list_range(
                        l,
                        signed64(value.subrange(0, 8)),
                        signed64(value.subrange(8, 16)),
                    );
                    array_reply(r.len() as int, r)
                },
                Some(_) => seq![RSP_ERROR],
                None => array_reply(0, seq![]),
            },
        )
    }
}

/// A set after members are added one by one.
pub open spec fn with_members(s: Seq<(Seq<u8>, ())>, args: Seq<Seq<u8>>) -> Seq<(Seq<u8>, ())>
    decreases args.len(),
{
    if args.len() == 0 {
        s
    } else {
        bound(with_members(s, args.drop_last()), args.last(), ())
    }
}

/// A set after members are removed one by one.
pub open spec fn without_members(s: Seq<(Seq<u8>, ())>, args: Seq<Seq<u8>>) -> Seq<(Seq<u8>, ())>
    decreases args.len(),
{
    if args.len() == 0 {
        s
    } else {
        unbound(without_members(s, args.drop_last()), args.last())
    }
}

/// SADD: adds members; replies how many are new.
pub open spec fn sadd_effect(c: CacheView, now: u64, key: Seq<u8>, value: Seq<u8>) -> Effect {
    match args_of(value) {
        Some(args) if args.len() > 0 => {
            let base = opened(c, now, key, ValueView::Members(seq![]));
            match base.entries[0].1.value {
                ValueView::Members(s) => ran(
                    base.revalued(key, ValueView::Members(with_members(s, args))).settled(key),
                    int_reply(with_members(s, args).len() - s.len()),
                ),
                _ => refused(base),
            }
        },
        _ => refused(c),
    }
}

/// SREM: removes members; replies how many were there.
pub open spec fn srem_effect(c: CacheView, now: u64, key: Seq<u8>, value: Seq<u8>) -> Effect {
    match args_of(value) {
        Some(args) if args.len() > 0 => {
            let base = c.looked_up(key, now);
            match c.live(key, now) {
                Some(ValueView::Members(s)) => ran(
                    base.revalued(key, ValueView::Members(without_members(s, args))).settled(key),
                    int_reply(s.len() - without_members(s, args).len()),
                ),
                Some(_) => refused(base),
                None => ran(base, int_reply(0)),
            }
        },
        _ => refused(c),
    }
}

/// SISMEMBER: whether a member is there.
pub open spec fn sismember_effect(c: CacheView, now: u64, key: Seq<u8>, value: Seq<u8>) -> Effect {
    match args_of(value) {
        Some(args) if args.len() == 1 => ran(
            c.looked_up(key, now),
            match c.live(key, now) {
                Some(ValueView::Members(s)) => int_reply(
                    if has_key(s, args[0]) {
                        1
                    } else {
                        0
                    },
                ),
                Some(_) => seq![RSP_ERROR],
                None => int_reply(0),
            },
        ),
        _ => refused(c),
    }
}

/// The members of a set.
pub open spec fn member_items(s: Seq<(Seq<u8>, ())>) -> Seq<Seq<u8>> {
    s.map_values(|e: (Seq<u8>, ())| e.0)
}

/// SMEMBERS: all members.
pub open spec fn smembers_effect(c: CacheView, now: u64, key: Seq<u8>) -> Effect {
    ran(
        c.looked_up(key, now),
        match c.live(key, now) {
            Some(ValueView::Members(s)) => array_reply(s.len() as int, member_items(s)),
            Some(_) => seq![RSP_ERROR],
            None => array_reply(0, seq![]),
        },
    )
}

/// SCARD: the number of members.
pub open spec fn scard_effect(c: CacheView, now: u64, key: Seq<u8>) -> Effect {
    ran(
        c.looked_up(key, now),
        match c.live(key, now) {
            Some(ValueView::Members(s)) => int_reply(s.len() as int),
            Some(_) => seq![RSP_ERROR],
            None => int_reply(0),
        },
    )
}

/// What a command on stored data does.
pub open spec fn effect(
    c: CacheView,
    now: u64,
    action: u8,
    key: Seq<u8>,
    value: Seq<u8>,
    ttl: u32,
) -> Effect {
    if action == ACT_SET {
        set_effect(c, now, key, value, ttl)
    } else if action == ACT_GET {
        get_effect(c, now, key)
    } else if action == ACT_DEL {
        del_effect(c, now, key)
    } else if action == ACT_FLUSH {
        ran(c.flushed(), seq![RSP_OK])
    } else if action == ACT_TYPE {
        type_effect(c, now, key)
    } else if action == ACT_HSET {
        hset_effect(c, now, key, value)
    } else if action == ACT_HGET {
        hget_effect(c, now, key, value)
    } else if action == ACT_HDEL {
        hdel_effect(c, now, key, value)
    } else if action == ACT_HGETALL {
        hgetall_effect(c, now, key)
    } else if action == ACT_HLEN {
        hlen_effect(c, now, key)
    } else if action == ACT_LPUSH || action == ACT_RPUSH {
        push_effect(c, now, key, value, action == ACT_LPUSH)
    } else if action == ACT_LPOP || action == ACT_RPOP {
        pop_effect(c, now, key, action == ACT_LPOP)
    } else if action == ACT_LLEN {
        llen_effect(c, now, key)
    } else if action == ACT_LRANGE {
        lrange_effect(c, now, key, value)
    } else if action == ACT_SADD {
        sadd_effect(c, now, key, value)
    } else if action == ACT_SREM {
        srem_effect(c, now, key, value)
    } else if action == ACT_SISMEMBER {
        sismember_effect(c, now, key, value)
    } else if action == ACT_SMEMBERS {
        smembers_effect(c, now, key)
    } else if action == ACT_SCARD {
        scard_effect(c, now, key)
    } else {
        ran(c, seq![RSP_ERROR])
    }
}

/// The size of a hash grows by at most the new field.
pub proof fn lemma_bound_size(h: Seq<(Seq<u8>, Seq<u8>)>, f: Seq<u8>, v: Seq<u8>)
    ensures
        total(pair_sizes(bound(h, f, v))) <= total(pair_sizes(h)) + f.len() + v.len() + 24,
{
    let size = (f.len() + v.len() + 24) as nat;
    lemma_position(h, f);
    if has_key(h, f) {
        let i = position(h, f);
        assert(pair_sizes(bound(h, f, v)) =~= pair_sizes(h).update(i, size));
        lemma_total_update(pair_sizes(h), i, size);
    } else {
        assert(pair_sizes(bound(h, f, v)) =~= pair_sizes(h).push(size));
        lemma_total_push(pair_sizes(h), size);
    }
}

/// The size of a hash does not grow by a removal.
pub proof fn lemma_unbound_size(h: Seq<(Seq<u8>, Seq<u8>)>, f: Seq<u8>)
    ensures
        total(pair_sizes(unbound(h, f))) <= total(pair_sizes(h)),
{
    lemma_position(h, f);
    if has_key(h, f) {
        let i = position(h, f);
        let sizes = pair_sizes(h);
        assert(pair_sizes(unbound(h, f)) =~= sizes.update(i, sizes.last()).drop_last());
        lemma_total_swap_remove(sizes, i);
    }
}

/// A hash of `n` fields has an accounted size of at least `24 * n`.
pub proof fn lemma_pairs_count(h: Seq<(Seq<u8>, Seq<u8>)>)
    ensures
        24 * h.len() <= total(pair_sizes(h)),
    decreases h.len(),
{
    if h.len() > 0 {
        lemma_pairs_count(h.drop_last());
        assert(pair_sizes(h).drop_last() =~= pair_sizes(h.drop_last()));
    }
}

/// The size of a list after items are pushed.
pub proof fn lemma_pushed_size(l: Seq<Seq<u8>>, args: Seq<Seq<u8>>, front: bool)
    ensures
        total(item_sizes(pushed(l, args, front))) == total(item_sizes(l)) + total(item_sizes(args)),
    decreases args.len(),
{
    let sizes = item_sizes(args);
    if front {
        lemma_total_reverse(sizes);
        assert(item_sizes(pushed(l, args, front)) =~= sizes.reverse() + item_sizes(l));
        lemma_total_concat(sizes.reverse(), item_sizes(l));
    } else {
        assert(item_sizes(pushed(l, args, front)) =~= item_sizes(l) + sizes);
        lemma_total_concat(item_sizes(l), sizes);
    }
}

/// The size of a set after members are added or removed.
pub proof fn lemma_members_size(s: Seq<(Seq<u8>, ())>, args: Seq<Seq<u8>>)
    requires
        distinct_keys(s),
    ensures
        distinct_keys(with_members(s, args)),
        distinct_keys(without_members(s, args)),
        total(member_sizes(with_members(s, args))) <= total(member_sizes(s)) + total(
            item_sizes(args),
        ),
        total(member_sizes(without_members(s, args))) <= total(member_sizes(s)),
        s.len() <= with_members(s, args).len() <= s.len() + args.len(),
        args.len() > 0 ==> with_members(s, args).len() > 0,
        without_members(s, args).len() <= s.len() <= without_members(s, args).len() + args.len(),
    decreases args.len(),
{
    if args.len() > 0 {
        let rest = args.drop_last();
        let arg = args.last();
        lemma_members_size(s, rest);
        assert(item_sizes(args).drop_last() =~= item_sizes(rest));
        let more = with_members(s, rest);
        let m = member_sizes(more);
        lemma_position(more, arg);
        lemma_distinct(more, arg, ());
        if has_key(more, arg) {
            assert(member_sizes(bound(more, arg, ())) =~= m);
        } else {
            let size = (arg.len() + 24) as nat;
            assert(member_sizes(bound(more, arg, ())) =~= m.push(size));
            lemma_total_push(m, size);
        }
        let less = without_members(s, rest);
        let l = member_sizes(less);
        lemma_position(less, arg);
        lemma_distinct(less, arg, ());
        if has_key(less, arg) {
            let i = position(less, arg);
            assert(member_sizes(unbound(less, arg)) =~= l.update(i, l.last()).drop_last());
            lemma_total_swap_remove(l, i);
        }
    }
}

} // verus!
