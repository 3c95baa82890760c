//! Execution of the commands on stored data.
use std::collections::VecDeque;
use vstd::prelude::*;

use crate::bytemap::{lemma_position, ByteMap};
use crate::bytes::{get_be64_signed, lemma_be32_low, put_be64, to_vec};
use crate::cache_laws::{lemma_looked_up, lemma_with_front};
use crate::effects::{
    del_effect, effect, get_effect, hdel_effect, hget_effect, hgetall_effect, hlen_effect,
    hset_effect, lemma_bound_size, lemma_members_size, lemma_pairs_count, lemma_pushed_size,
    lemma_unbound_size, list_range, llen_effect, lrange_effect, member_items, opened, pair_items,
    pop_effect, push_effect, pushed, sadd_effect, scard_effect, set_effect, sismember_effect,
    smembers_effect, srem_effect, type_effect, with_members, without_members,
};
use crate::lru::LruCache;
use crate::model::{CacheView, Record, ENTRY_OVERHEAD};
use crate::protocol::{
    args_of, arr_header, arr_item, array_reply, int_reply, items_bytes, lemma_args_size,
    lemma_items_bytes_push, mutating, parse_args, reply_bulk, reply_int, slices_view, ACT_DEL,
    ACT_FLUSH, ACT_GET, ACT_HDEL, ACT_HGET, ACT_HGETALL, ACT_HLEN, ACT_HSET, ACT_LLEN, ACT_LPOP,
    ACT_LPUSH, ACT_LRANGE, ACT_RPOP, ACT_RPUSH, ACT_SADD, ACT_SCARD, ACT_SET, ACT_SISMEMBER,
    ACT_SMEMBERS, ACT_SREM, ACT_TYPE, RSP_ERROR, RSP_MISSING, RSP_OK,
};
use crate::sums::{lemma_total_push, lemma_total_remove, total};
use crate::value::{
    item_sizes, items_view, lemma_pairs_view, member_sizes, pair_sizes, pairs_view, Value,
    ValueView,
};

verus! {

/// The most that a command can add to the accounted bytes still fits the counter.
pub open spec fn room_for(c: CacheView, key: Seq<u8>, value: Seq<u8>) -> bool {
    c.used() + key.len() + ENTRY_OVERHEAD + 7 * value.len() <= usize::MAX
}

/// Appends an integer reply that holds a count.
pub fn reply_count(out: &mut Vec<u8>, n: usize)
    ensures
        final(out)@ == old(out)@ + int_reply(n as int),
{
    out.push(RSP_OK);
    put_be64(out, n as u64);
    assert(out@ =~= old(out)@ + int_reply(n as int));
}

/// Appends the head of an array reply of `n` items.
pub fn arr_header_count(out: &mut Vec<u8>, n: usize)
    ensures
        final(out)@ == old(out)@ + array_reply(n as int, seq![]),
{
    proof {
        lemma_be32_low(n as int);
    }
    arr_header(out, (n as u64 % 4294967296) as u32);
}

/// SET.
pub fn cmd_set(
    cache: &mut LruCache,
    now: u64,
    key: &[u8],
    value: &[u8],
    ttl: u32,
    out: &mut Vec<u8>,
)
    requires
        old(cache).wf(),
        room_for(old(cache)@, key@, value@),
    ensures
        final(cache).wf(),
        final(cache)@ == set_effect(old(cache)@, now, key@, value@, ttl).cache,
        final(out)@ == old(out)@ + set_effect(old(cache)@, now, key@, value@, ttl).reply,
{
    let expires_at: Option<u64> = if ttl > 0 {
        Some(now.wrapping_add(ttl as u64))
    } else {
        None
    };
    cache.set(to_vec(key), Value::Str(to_vec(value)), expires_at, now);
    out.push(RSP_OK);
    assert(out@ =~= old(out)@ + seq![RSP_OK]);
}

/// GET. Returns (hit, miss).
pub fn cmd_get(cache: &mut LruCache, now: u64, key: &[u8], out: &mut Vec<u8>) -> (r: (bool, bool))
    requires
        old(cache).wf(),
    ensures
        final(cache).wf(),
        ({
            let e = get_effect(old(cache)@, now, key@);
            &&& final(cache)@ == e.cache
            &&& final(out)@ == old(out)@ + e.reply
            &&& r.0 == e.hit
            &&& r.1 == e.miss
        }),
{
    match cache.live_idx(key, now) {
        Some(idx) => match cache.value_ref(idx) {
            Value::Str(s) => {
                reply_bulk(out, s.as_slice());
                (true, false)
            },
            _ => {
                out.push(RSP_ERROR);
                assert(out@ =~= old(out)@ + seq![RSP_ERROR]);
                (false, false)
            },
        },
        None => {
            out.push(RSP_MISSING);
            assert(out@ =~= old(out)@ + seq![RSP_MISSING]);
            (false, true)
        },
    }
}

/// DEL.
pub fn cmd_del(cache: &mut LruCache, now: u64, key: &[u8], out: &mut Vec<u8>)
    requires
        old(cache).wf(),
    ensures
        final(cache).wf(),
        final(cache)@ == del_effect(old(cache)@, now, key@).cache,
        final(out)@ == old(out)@ + del_effect(old(cache)@, now, key@).reply,
{
    let status: u8 = if cache.del(key, now) {
        RSP_OK
    } else {
        RSP_MISSING
    };
    out.push(status);
    assert(out@ =~= old(out)@ + seq![status]);
}

/// TYPE.
pub fn cmd_type(cache: &mut LruCache, now: u64, key: &[u8], out: &mut Vec<u8>)
    requires
        old(cache).wf(),
    ensures
        final(cache).wf(),
        final(cache)@ == type_effect(old(cache)@, now, key@).cache,
        final(out)@ == old(out)@ + type_effect(old(cache)@, now, key@).reply,
{
    match cache.live_idx(key, now) {
        Some(idx) => reply_bulk(out, cache.value_ref(idx).kind_name().as_bytes()),
        None => reply_bulk(out, "none".as_bytes()),
    }
}

/// Appends an error reply.
fn refuse(out: &mut Vec<u8>)
    ensures
        final(out)@ == old(out)@ + seq![RSP_ERROR],
{
    out.push(RSP_ERROR);
    assert(out@ =~= old(out)@ + seq![RSP_ERROR]);
}

/// HSET. Returns false if the command was turned down.
pub fn cmd_hset(cache: &mut LruCache, now: u64, key: &[u8], value: &[u8], out: &mut Vec<u8>) -> (r:
    bool)
    requires
        old(cache).wf(),
        room_for(old(cache)@, key@, value@),
    ensures
        final(cache).wf(),
        ({
            let e = hset_effect(old(cache)@, now, key@, value@);
            &&& final(cache)@ == e.cache
            &&& final(out)@ == old(out)@ + e.reply
            &&& r == e.done
        }),
{
    let args = match parse_args(value) {
        Some(args) => args,
        None => {
            refuse(out);
            return false;
        },
    };
    if args.len() != 2 {
        refuse(out);
        return false;
    }
    proof {
        lemma_args_size(value@);
        let a = slices_view(args@);
        assert(item_sizes(a) =~= Seq::<nat>::empty().push((a[0].len() + 24) as nat).push(
            (a[1].len() + 24) as nat,
        ));
        lemma_total_push(Seq::empty(), (a[0].len() + 24) as nat);
        lemma_total_push(
            Seq::<nat>::empty().push((a[0].len() + 24) as nat),
            (a[1].len() + 24) as nat,
        );
    }
    let field: Vec<u8> = to_vec(args[0]);
    let val: Vec<u8> = to_vec(args[1]);
    let ghost c0 = cache@;
    let idx: usize = match cache.live_idx(key, now) {
        Some(i) => {
            if !matches!(cache.value_ref(i), Value::Hash(_)) {
                refuse(out);
                return false;
            }
            i
        },
        None => {
            let empty: Value = Value::Hash(ByteMap::new());
            assert(empty@ =~= ValueView::Hash(seq![]));
            assert(pair_sizes(seq![]) =~= seq![]);
            cache.create(to_vec(key), empty, None, now)
        },
    };
    let was: usize = cache.node_size(idx);
    let ghost c1 = cache@;
    assert(c1 == opened(c0, now, key@, ValueView::Hash(seq![])));
    let is_new: bool = match cache.value_mut(idx) {
        Value::Hash(h) => {
            proof {
                lemma_pairs_view(h@, field@, val);
                lemma_bound_size(pairs_view(h@), field@, val@);
            }
            h.insert(field, val).is_none()
        },
        _ => false,
    };
    cache.commit(idx, was);
    if is_new {
        reply_int(out, 1);
    } else {
        reply_int(out, 0);
    }
    true
}

/// HGET. Returns false if the command was turned down.
pub fn cmd_hget(cache: &mut LruCache, now: u64, key: &[u8], value: &[u8], out: &mut Vec<u8>) -> (r:
    bool)
    requires
        old(cache).wf(),
    ensures
        final(cache).wf(),
        ({
            let e = hget_effect(old(cache)@, now, key@, value@);
            &&& final(cache)@ == e.cache
            &&& final(out)@ == old(out)@ + e.reply
            &&& r == e.done
        }),
{
    let args = match parse_args(value) {
        Some(args) => args,
        None => {
            refuse(out);
            return false;
        },
    };
    if args.len() != 1 {
        refuse(out);
        return false;
    }
    match cache.live_idx(key, now) {
        Some(idx) => match cache.value_ref(idx) {
            Value::Hash(h) => {
                proof {
                    lemma_pairs_view(h@, args@[0]@, arbitrary());
                }
                match h.get(args[0]) {
                    Some(v) => reply_bulk(out, v.as_slice()),
                    None => reply_missing(out),
                }
            },
            _ => refuse(out),
        },
        None => reply_missing(out),
    }
    true
}

/// Appends the reply for absent data.
fn reply_missing(out: &mut Vec<u8>)
    ensures
        final(out)@ == old(out)@ + seq![RSP_MISSING],
{
    out.push(RSP_MISSING);
    assert(out@ =~= old(out)@ + seq![RSP_MISSING]);
}

/// HDEL. Returns false if the command was turned down.
pub fn cmd_hdel(cache: &mut LruCache, now: u64, key: &[u8], value: &[u8], out: &mut Vec<u8>) -> (r:
    bool)
    requires
        old(cache).wf(),
    ensures
        final(cache).wf(),
        ({
            let e = hdel_effect(old(cache)@, now, key@, value@);
            &&& final(cache)@ == e.cache
            &&& final(out)@ == old(out)@ + e.reply
            &&& r == e.done
        }),
{
    let args = match parse_args(value) {
        Some(args) => args,
        None => {
            refuse(out);
            return false;
        },
    };
    if args.len() != 1 {
        refuse(out);
        return false;
    }
    match cache.live_idx(key, now) {
        Some(idx) => {
            if !matches!(cache.value_ref(idx), Value::Hash(_)) {
                refuse(out);
                return false;
            }
            let was: usize = cache.node_size(idx);
            let removed: bool = match cache.value_mut(idx) {
                Value::Hash(h) => {
                    proof {
                        lemma_pairs_view(h@, args@[0]@, arbitrary());
                        lemma_unbound_size(pairs_view(h@), args@[0]@);
                    }
                    h.remove(args[0]).is_some()
                },
                _ => false,
            };
            cache.commit(idx, was);
            if removed {
                reply_int(out, 1);
            } else {
                reply_int(out, 0);
            }
        },
        None => reply_int(out, 0),
    }
    true
}

/// HGETALL.
pub fn cmd_hgetall(cache: &mut LruCache, now: u64, key: &[u8], out: &mut Vec<u8>)
    requires
        old(cache).wf(),
    ensures
        final(cache).wf(),
        final(cache)@ == hgetall_effect(old(cache)@, now, key@).cache,
        final(out)@ == old(out)@ + hgetall_effect(old(cache)@, now, key@).reply,
{
    match cache.live_idx(key, now) {
        Some(idx) => {
            let size: usize = cache.node_size(idx);
            match cache.value_ref(idx) {
                Value::Hash(h) => {
                    let ghost pairs = pairs_view(h@);
                    proof {
                        lemma_pairs_count(pairs);
                    }
                    arr_header_count(out, h.len() * 2);
                    let ghost head = out@;
                    let mut i: usize = 0;
                    assert(pairs.take(0) =~= seq![]);
                    assert(out@ =~= head + items_bytes(pair_items(pairs.take(0))));
                    while i < h.len()
                        invariant
                            i <= h@.len(),
                            pairs == pairs_view(h@),
                            out@ == head + items_bytes(pair_items(pairs.take(i as int))),
                        decreases h@.len() - i,
                    {
                        let ghost p = pairs.take(i as int);
                        let ghost n = pairs.take(i + 1);
                        arr_item(out, h.key_at(i).as_slice());
                        arr_item(out, h.value_at(i).as_slice());
                        proof {
                            let items = pair_items(p);
                            let (f, v) = pairs[i as int];
                            assert(n.drop_last() =~= p);
                            lemma_items_bytes_push(items, f);
                            lemma_items_bytes_push(items.push(f), v);
                            assert(out@ =~= head + items_bytes(pair_items(n)));
                        }
                        i += 1;
                    }
                    assert(pairs.take(i as int) =~= pairs);
                    assert(out@ =~= old(out)@ + array_reply(
                        2 * pairs.len() as int,
                        pair_items(pairs),
                    ));
                },
                _ => refuse(out),
            }
        },
        None => arr_header(out, 0),
    }
}

/// HLEN.
pub fn cmd_hlen(cache: &mut LruCache, now: u64, key: &[u8], out: &mut Vec<u8>)
    requires
        old(cache).wf(),
    ensures
        final(cache).wf(),
        final(cache)@ == hlen_effect(old(cache)@, now, key@).cache,
        final(out)@ == old(out)@ + hlen_effect(old(cache)@, now, key@).reply,
{
    match cache.live_idx(key, now) {
        Some(idx) => match cache.value_ref(idx) {
            Value::Hash(h) => reply_count(out, h.len()),
            _ => refuse(out),
        },
        None => reply_int(out, 0),
    }
}

/// LLEN.
pub fn cmd_llen(cache: &mut LruCache, now: u64, key: &[u8], out: &mut Vec<u8>)
    requires
        old(cache).wf(),
    ensures
        final(cache).wf(),
        final(cache)@ == llen_effect(old(cache)@, now, key@).cache,
        final(out)@ == old(out)@ + llen_effect(old(cache)@, now, key@).reply,
{
    match cache.live_idx(key, now) {
        Some(idx) => match cache.value_ref(idx) {
            Value::List(l) => reply_count(out, l.len()),
            _ => refuse(out),
        },
        None => reply_int(out, 0),
    }
}

/// SCARD.
pub fn cmd_scard(cache: &mut LruCache, now: u64, key: &[u8], out: &mut Vec<u8>)
    requires
        old(cache).wf(),
    ensures
        final(cache).wf(),
        final(cache)@ == scard_effect(old(cache)@, now, key@).cache,
        final(out)@ == old(out)@ + scard_effect(old(cache)@, now, key@).reply,
{
    match cache.live_idx(key, now) {
        Some(idx) => match cache.value_ref(idx) {
            Value::Members(s) => reply_count(out, s.len()),
            _ => refuse(out),
        },
        None => reply_int(out, 0),
    }
}

/// SMEMBERS.
pub fn cmd_smembers(cache: &mut LruCache, now: u64, key: &[u8], out: &mut Vec<u8>)
    requires
        old(cache).wf(),
    ensures
        final(cache).wf(),
        final(cache)@ == smembers_effect(old(cache)@, now, key@).cache,
        final(out)@ == old(out)@ + smembers_effect(old(cache)@, now, key@).reply,
{
    match cache.live_idx(key, now) {
        Some(idx) => match cache.value_ref(idx) {
            Value::Members(s) => {
                let ghost items = member_items(s@);
                arr_header_count(out, s.len());
                let ghost head = out@;
                let mut i: usize = 0;
                assert(items.take(0) =~= seq![]);
                assert(out@ =~= head + items_bytes(items.take(0)));
                while i < s.len()
                    invariant
                        i <= s@.len(),
                        items == member_items(s@),
                        out@ == head + items_bytes(items.take(i as int)),
                    decreases s@.len() - i,
                {
                    arr_item(out, s.key_at(i).as_slice());
                    proof {
                        let p = items.take(i as int);
                        assert(items.take(i + 1) =~= p.push(items[i as int]));
                        lemma_items_bytes_push(p, items[i as int]);
                        assert(out@ =~= head + items_bytes(items.take(i + 1)));
                    }
                    i += 1;
                }
                assert(items.take(i as int) =~= items);
                assert(out@ =~= old(out)@ + array_reply(items.len() as int, items));
            },
            _ => refuse(out),
        },
        None => arr_header(out, 0),
    }
}

/// SISMEMBER. Returns false if the command was turned down.
pub fn cmd_sismember(
    cache: &mut LruCache,
    now: u64,
    key: &[u8],
    value: &[u8],
    out: &mut Vec<u8>,
) -> (r: bool)
    requires
        old(cache).wf(),
    ensures
        final(cache).wf(),
        ({
            let e = sismember_effect(old(cache)@, now, key@, value@);
            &&& final(cache)@ == e.cache
            &&& final(out)@ == old(out)@ + e.reply
            &&& r == e.done
        }),
{
    let args = match parse_args(value) {
        Some(args) => args,
        None => {
            refuse(out);
            return false;
        },
    };
    if args.len() != 1 {
        refuse(out);
        return false;
    }
    match cache.live_idx(key, now) {
        Some(idx) => match cache.value_ref(idx) {
            Value::Members(s) => {
                if s.contains_key(args[0]) {
                    reply_int(out, 1);
                } else {
                    reply_int(out, 0);
                }
            },
            _ => refuse(out),
        },
        None => reply_int(out, 0),
    }
    true
}

/// Pushes each item in turn at one end of a list.
fn push_all(l: &mut VecDeque<Vec<u8>>, args: &Vec<&[u8]>, front: bool)
    ensures
        items_view(final(l)@) == pushed(items_view(old(l)@), slices_view(args@), front),
{
    let ghost before = items_view(l@);
    let ghost all = slices_view(args@);
    let mut i: usize = 0;
    assert(items_view(l@) =~= pushed(before, all.take(0), front));
    while i < args.len()
        invariant
            i <= args@.len(),
            all == slices_view(args@),
            items_view(l@) == pushed(before, all.take(i as int), front),
        decreases args@.len() - i,
    {
        let ghost held = l@;
        let item: Vec<u8> = to_vec(args[i]);
        if front {
            l.push_front(item);
            assert(items_view(l@) =~= seq![item@] + items_view(held));
        } else {
            l.push_back(item);
            assert(items_view(l@) =~= items_view(held).push(item@));
        }
        assert(items_view(l@) =~= pushed(before, all.take(i + 1), front));
        i += 1;
    }
    assert(all.take(i as int) =~= all);
}

/// LPUSH (at the front) and RPUSH. Returns false if the command was turned down.
pub fn cmd_push(
    cache: &mut LruCache,
    now: u64,
    key: &[u8],
    value: &[u8],
    front: bool,
    out: &mut Vec<u8>,
) -> (r: bool)
    requires
        old(cache).wf(),
        room_for(old(cache)@, key@, value@),
    ensures
        final(cache).wf(),
        ({
            let e = push_effect(old(cache)@, now, key@, value@, front);
            &&& final(cache)@ == e.cache
            &&& final(out)@ == old(out)@ + e.reply
            &&& r == e.done
        }),
{
    let args = match parse_args(value) {
        Some(args) => args,
        None => {
            refuse(out);
            return false;
        },
    };
    if args.len() == 0 {
        refuse(out);
        return false;
    }
    proof {
        lemma_args_size(value@);
    }
    let ghost c0 = cache@;
    let idx: usize = match cache.live_idx(key, now) {
        Some(i) => {
            if !matches!(cache.value_ref(i), Value::List(_)) {
                refuse(out);
                return false;
            }
            i
        },
        None => {
            let empty: Value = Value::List(VecDeque::new());
            assert(empty@ =~= ValueView::List(seq![]));
            assert(item_sizes(seq![]) =~= seq![]);
            cache.create(to_vec(key), empty, None, now)
        },
    };
    let was: usize = cache.node_size(idx);
    assert(cache@ == opened(c0, now, key@, ValueView::List(seq![])));
    let len: usize = match cache.value_mut(idx) {
        Value::List(l) => {
            proof {
                lemma_pushed_size(items_view(l@), slices_view(args@), front);
            }
            push_all(l, &args, front);
            l.len()
        },
        _ => 0,
    };
    cache.commit(idx, was);
    reply_count(out, len);
    true
}

/// LPOP (at the front) and RPOP. Returns false if the command was turned down.
pub fn cmd_pop(cache: &mut LruCache, now: u64, key: &[u8], front: bool, out: &mut Vec<u8>) -> (r:
    bool)
    requires
        old(cache).wf(),
    ensures
        final(cache).wf(),
        ({
            let e = pop_effect(old(cache)@, now, key@, front);
            &&& final(cache)@ == e.cache
            &&& final(out)@ == old(out)@ + e.reply
            &&& r == e.done
        }),
{
    match cache.live_idx(key, now) {
        Some(idx) => {
            let empty: bool = match cache.value_ref(idx) {
                Value::List(l) => l.len() == 0,
                _ => {
                    refuse(out);
                    return false;
                },
            };
            if empty {
                reply_missing(out);
                return true;
            }
            let was: usize = cache.node_size(idx);
            let popped: Option<Vec<u8>> = match cache.value_mut(idx) {
                Value::List(l) => pop_end(l, front),
                _ => None,
            };
            match popped {
                Some(v) => {
                    reply_bulk(out, v.as_slice());
                    cache.commit(idx, was);
                },
                None => reply_missing(out),
            }
        },
        None => reply_missing(out),
    }
    true
}

/// Takes an item off one end of a list.
fn pop_end(l: &mut VecDeque<Vec<u8>>, front: bool) -> (r: Option<Vec<u8>>)
    ensures
        ({
            let items = items_view(old(l)@);
            match r {
                Some(v) => items.len() > 0 && v@ == (if front {
                    items[0]
                } else {
                    items.last()
                }) && items_view(final(l)@) == (if front {
                    items.drop_first()
                } else {
                    items.drop_last()
                }) && total(item_sizes(items_view(final(l)@))) <= total(item_sizes(items)),
                None => items.len() == 0 && final(l)@ == old(l)@,
            }
        }),
{
    let ghost items = items_view(l@);
    let r: Option<Vec<u8>> = if front {
        l.pop_front()
    } else {
        l.pop_back()
    };
    proof {
        let sizes = item_sizes(items);
        if items.len() > 0 {
            if front {
                assert(items_view(l@) =~= items.drop_first());
                assert(item_sizes(items_view(l@)) =~= sizes.remove(0));
                lemma_total_remove(sizes, 0);
            } else {
                assert(items_view(l@) =~= items.drop_last());
                assert(item_sizes(items_view(l@)) =~= sizes.drop_last());
            }
        }
    }
    r
}

/// LRANGE. Returns false if the command was turned down.
pub fn cmd_lrange(
    cache: &mut LruCache,
    now: u64,
    key: &[u8],
    value: &[u8],
    out: &mut Vec<u8>,
) -> (r: bool)
    requires
        old(cache).wf(),
    ensures
        final(cache).wf(),
        ({
            let e = lrange_effect(old(cache)@, now, key@, value@);
            &&& final(cache)@ == e.cache
            &&& final(out)@ == old(out)@ + e.reply
            &&& r == e.done
        }),
{
    if value.len() != 16 {
        refuse(out);
        return false;
    }
    let start: i64 = get_be64_signed(value, 0);
    let stop: i64 = get_be64_signed(value, 8);
    match cache.live_idx(key, now) {
        Some(idx) => match cache.value_ref(idx) {
            Value::List(l) => reply_range(l, start, stop, out),
            _ => refuse(out),
        },
        None => arr_header(out, 0),
    }
    true
}

/// Appends the array reply with the items of `l` from `start` to `stop`.
fn reply_range(l: &VecDeque<Vec<u8>>, start: i64, stop: i64, out: &mut Vec<u8>)
    ensures
        ({
            let r = list_range(items_view(l@), start as int, stop as int);
            final(out)@ == old(out)@ + array_reply(r.len() as int, r)
        }),
{
    let n: i128 = l.len() as i128;
    let s: i128 = if start < 0 {
        if n + (start as i128) < 0 {
            0
        } else {
            n + start as i128
        }
    } else {
        start as i128
    };
    let e: i128 = if stop < 0 {
        n + stop as i128
    } else if (stop as i128) < n {
        stop as i128
    } else {
        n - 1
    };
    let ghost items = list_range(items_view(l@), start as int, stop as int);
    if s > e || s >= n {
        arr_header(out, 0);
        return;
    }
    let first: usize = s as usize;
    let count: usize = (e - s + 1) as usize;
    arr_header_count(out, count);
    let ghost head = out@;
    let mut i: usize = 0;
    assert(items.take(0) =~= seq![]);
    assert(out@ =~= head + items_bytes(items.take(0)));
    while i < count
        invariant
            i <= count,
            first + count <= l@.len(),
            items == items_view(l@).subrange(first as int, first + count),
            out@ == head + items_bytes(items.take(i as int)),
        decreases count - i,
    {
        assert(l@.len() == l.len());
        arr_item(out, l[first + i].as_slice());
        proof {
            let p = items.take(i as int);
            assert(items.take(i + 1) =~= p.push(items[i as int]));
            lemma_items_bytes_push(p, items[i as int]);
            assert(out@ =~= head + items_bytes(items.take(i + 1)));
        }
        i += 1;
    }
    assert(items.take(i as int) =~= items);
    assert(out@ =~= old(out)@ + array_reply(items.len() as int, items));
}

/// Adds each member in turn; returns how many are new.
fn add_all(s: &mut ByteMap<()>, args: &Vec<&[u8]>) -> (r: usize)
    requires
        old(s).wf(),
    ensures
        final(s).wf(),
        final(s)@ == with_members(old(s)@, slices_view(args@)),
        r == final(s)@.len() - old(s)@.len(),
{
    let ghost before = s@;
    let ghost all = slices_view(args@);
    let mut added: usize = 0;
    let mut i: usize = 0;
    assert(all.take(0) =~= seq![]);
    while i < args.len()
        invariant
            s.wf(),
            i <= args@.len(),
            added <= i,
            all == slices_view(args@),
            s@ == with_members(before, all.take(i as int)),
            added == s@.len() - before.len(),
        decreases args@.len() - i,
    {
        proof {
            assert(all.take(i + 1).drop_last() =~= all.take(i as int));
            lemma_position(s@, all[i as int]);
        }
        if s.insert(to_vec(args[i]), ()).is_none() {
            added += 1;
        }
        i += 1;
    }
    assert(all.take(i as int) =~= all);
    added
}

/// Removes each member in turn; returns how many were there.
fn remove_all(s: &mut ByteMap<()>, args: &Vec<&[u8]>) -> (r: usize)
    requires
        old(s).wf(),
    ensures
        final(s).wf(),
        final(s)@ == without_members(old(s)@, slices_view(args@)),
        r == old(s)@.len() - final(s)@.len(),
{
    let ghost before = s@;
    let ghost all = slices_view(args@);
    let mut removed: usize = 0;
    let mut i: usize = 0;
    assert(all.take(0) =~= seq![]);
    while i < args.len()
        invariant
            s.wf(),
            i <= args@.len(),
            removed <= i,
            all == slices_view(args@),
            s@ == without_members(before, all.take(i as int)),
            removed == before.len() - s@.len(),
        decreases args@.len() - i,
    {
        proof {
            assert(all.take(i + 1).drop_last() =~= all.take(i as int));
            lemma_position(s@, all[i as int]);
        }
        if s.remove(args[i]).is_some() {
            removed += 1;
        }
        i += 1;
    }
    assert(all.take(i as int) =~= all);
    removed
}

/// SADD. Returns false if the command was turned down.
pub fn cmd_sadd(cache: &mut LruCache, now: u64, key: &[u8], value: &[u8], out: &mut Vec<u8>) -> (r:
    bool)
    requires
        old(cache).wf(),
        room_for(old(cache)@, key@, value@),
    ensures
        final(cache).wf(),
        ({
            let e = sadd_effect(old(cache)@, now, key@, value@);
            &&& final(cache)@ == e.cache
            &&& final(out)@ == old(out)@ + e.reply
            &&& r == e.done
        }),
{
    let args = match parse_args(value) {
        Some(args) => args,
        None => {
            refuse(out);
            return false;
        },
    };
    if args.len() == 0 {
        refuse(out);
        return false;
    }
    proof {
        lemma_args_size(value@);
    }
    let ghost c0 = cache@;
    let idx: usize = match cache.live_idx(key, now) {
        Some(i) => {
            if !matches!(cache.value_ref(i), Value::Members(_)) {
                refuse(out);
                return false;
            }
            i
        },
        None => {
            let empty: Value = Value::Members(ByteMap::new());
            assert(empty@ =~= ValueView::Members(seq![]));
            assert(member_sizes(seq![]) =~= seq![]);
            cache.create(to_vec(key), empty, None, now)
        },
    };
    let was: usize = cache.node_size(idx);
    assert(cache@ == opened(c0, now, key@, ValueView::Members(seq![])));
    let added: usize = match cache.value_mut(idx) {
        Value::Members(s) => {
            proof {
                s.lemma_wf();
                lemma_members_size(s@, slices_view(args@));
            }
            add_all(s, &args)
        },
        _ => 0,
    };
    cache.commit(idx, was);
    reply_count(out, added);
    true
}

/// SREM. Returns false if the command was turned down.
pub fn cmd_srem(cache: &mut LruCache, now: u64, key: &[u8], value: &[u8], out: &mut Vec<u8>) -> (r:
    bool)
    requires
        old(cache).wf(),
    ensures
        final(cache).wf(),
        ({
            let e = srem_effect(old(cache)@, now, key@, value@);
            &&& final(cache)@ == e.cache
            &&& final(out)@ == old(out)@ + e.reply
            &&& r == e.done
        }),
{
    let args = match parse_args(value) {
        Some(args) => args,
        None => {
            refuse(out);
            return false;
        },
    };
    if args.len() == 0 {
        refuse(out);
        return false;
    }
    match cache.live_idx(key, now) {
        Some(idx) => {
            if !matches!(cache.value_ref(idx), Value::Members(_)) {
                refuse(out);
                return false;
            }
            let was: usize = cache.node_size(idx);
            let removed: usize = match cache.value_mut(idx) {
                Value::Members(s) => {
                    proof {
                        s.lemma_wf();
                        lemma_members_size(s@, slices_view(args@));
                    }
                    remove_all(s, &args)
                },
                _ => 0,
            };
            cache.commit(idx, was);
            reply_count(out, removed);
        },
        None => reply_int(out, 0),
    }
    true
}

/// How a command went.
pub struct Outcome {
    /// False if the command was turned down before it ran.
    pub done: bool,
    /// A successful GET.
    pub hit: bool,
    /// A GET of an absent or expired key.
    pub miss: bool,
}

/// Whether a value payload is made up of arguments, of which there are `n`, or any number
/// but none.
fn takes_args(value: &[u8], n: Option<usize>) -> (r: bool)
    ensures
        r == (args_of(value@) matches Some(args) && (match n {
            Some(n) => args.len() == n,
            None => args.len() > 0,
        })),
{
    match parse_args(value) {
        Some(args) => match n {
            Some(n) => args.len() == n,
            None => args.len() > 0,
        },
        None => false,
    }
}

/// Whether a command that changes stored data would run, rather than be turned down.
pub fn would_run(cache: &LruCache, now: u64, action: u8, key: &[u8], value: &[u8]) -> (r: bool)
    requires
        cache.wf(),
        mutating(action),
    ensures
        forall|ttl: u32| r == #[trigger] effect(cache@, now, action, key@, value@, ttl).done,
{
    let held: Option<&Value> = cache.peek(key, now);
    proof {
        lemma_opened_value(cache@, now, key@, ValueView::Hash(seq![]));
        lemma_opened_value(cache@, now, key@, ValueView::List(seq![]));
        lemma_opened_value(cache@, now, key@, ValueView::Members(seq![]));
    }
    if action == ACT_HSET {
        takes_args(value, Some(2)) && matches!(held, None | Some(Value::Hash(_)))
    } else if action == ACT_HDEL {
        takes_args(value, Some(1)) && matches!(held, None | Some(Value::Hash(_)))
    } else if action == ACT_LPUSH || action == ACT_RPUSH {
        takes_args(value, None) && matches!(held, None | Some(Value::List(_)))
    } else if action == ACT_LPOP || action == ACT_RPOP {
        matches!(held, None | Some(Value::List(_)))
    } else if action == ACT_SADD || action == ACT_SREM {
        takes_args(value, None) && matches!(held, None | Some(Value::Members(_)))
    } else {
        true
    }
}

/// The value that a write to a collection finds.
proof fn lemma_opened_value(c: CacheView, now: u64, key: Seq<u8>, empty: ValueView)
    ensures
        opened(c, now, key, empty).entries[0].1.value == (match c.live(key, now) {
            Some(v) => v,
            None => empty,
        }),
{
    lemma_looked_up(c, key, now);
    lemma_with_front(
        c.looked_up(key, now),
        key,
        Record { value: empty, expires_at: None, last_accessed: now },
    );
}

/// Runs a command on stored data, appending its reply bytes to `out`.
pub fn execute(
    cache: &mut LruCache,
    now: u64,
    action: u8,
    key: &[u8],
    value: &[u8],
    ttl: u32,
    out: &mut Vec<u8>,
) -> (r: Outcome)
    requires
        old(cache).wf(),
        room_for(old(cache)@, key@, value@),
    ensures
        final(cache).wf(),
        ({
            let e = effect(old(cache)@, now, action, key@, value@, ttl);
            &&& final(cache)@ == e.cache
            &&& final(out)@ == old(out)@ + e.reply
            &&& r.done == e.done
            &&& r.hit == e.hit
            &&& r.miss == e.miss
        }),
{
    let mut done: bool = true;
    let mut hit: bool = false;
    let mut miss: bool = false;
    if action == ACT_SET {
        cmd_set(cache, now, key, value, ttl, out);
    } else if action == ACT_GET {
        let r: (bool, bool) = cmd_get(cache, now, key, out);
        hit = r.0;
        miss = r.1;
    } else if action == ACT_DEL {
        cmd_del(cache, now, key, out);
    } else if action == ACT_FLUSH {
        cache.flush();
        out.push(RSP_OK);
        assert(out@ =~= old(out)@ + seq![RSP_OK]);
    } else if action == ACT_TYPE {
        cmd_type(cache, now, key, out);
    } else if action == ACT_HSET {
        done = cmd_hset(cache, now, key, value, out);
    } else if action == ACT_HGET {
        done = cmd_hget(cache, now, key, value, out);
    } else if action == ACT_HDEL {
        done = cmd_hdel(cache, now, key, value, out);
    } else if action == ACT_HGETALL {
        cmd_hgetall(cache, now, key, out);
    } else if action == ACT_HLEN {
        cmd_hlen(cache, now, key, out);
    } else if action == ACT_LPUSH || action == ACT_RPUSH {
        done = cmd_push(cache, now, key, value, action == ACT_LPUSH, out);
    } else if action == ACT_LPOP || action == ACT_RPOP {
        done = cmd_pop(cache, now, key, action == ACT_LPOP, out);
    } else if action == ACT_LLEN {
        cmd_llen(cache, now, key, out);
    } else if action == ACT_LRANGE {
        done = cmd_lrange(cache, now, key, value, out);
    } else if action == ACT_SADD {
        done = cmd_sadd(cache, now, key, value, out);
    } else if action == ACT_SREM {
        done = cmd_srem(cache, now, key, value, out);
    } else if action == ACT_SISMEMBER {
        done = cmd_sismember(cache, now, key, value, out);
    } else if action == ACT_SMEMBERS {
        cmd_smembers(cache, now, key, out);
    } else if action == ACT_SCARD {
        cmd_scard(cache, now, key, out);
    } else {
        refuse(out);
    }
    Outcome { done, hit, miss }
}

} // verus!
