//! What a client reads out of the replies: each read command against the data itself.
use vstd::prelude::*;
use vstd::utf8::{encode_utf8, is_ascii_chars_encode_utf8};

use crate::bytes::{be32, be64, law_num32_of_be32, law_signed64_of_be64, num32, signed64};
use crate::commands::{execute, Outcome};
use crate::effects::{effect, list_range, member_items, pair_items};
use crate::lru::LruCache;
use crate::model::CacheView;
use crate::protocol::{
    args_of, array_reply, bulk_reply, int_reply, items_bytes, law_args_of_items,
};
use crate::pubsub::delivery_frame;
use crate::value::ValueView;

verus! {

/// The number in a reply.
pub open spec fn int_in(reply: Seq<u8>) -> Option<int> {
    if reply.len() == 9 && reply[0] == 0x00 {
        Some(signed64(reply.skip(1)))
    } else {
        None
    }
}

/// The data in a reply.
pub open spec fn bulk_in(reply: Seq<u8>) -> Option<Seq<u8>> {
    if reply.len() >= 5 && reply[0] == 0x00 && num32(reply.subrange(1, 5)) == reply.len() - 5 {
        Some(reply.skip(5))
    } else {
        None
    }
}

/// The items of the array in a reply: as many as it says, and nothing after them.
pub open spec fn array_in(reply: Seq<u8>) -> Option<Seq<Seq<u8>>> {
    if reply.len() >= 5 && reply[0] == 0x00 {
        match args_of(reply.skip(5)) {
            Some(items) if items.len() == num32(reply.subrange(1, 5)) => Some(items),
            _ => None,
        }
    } else {
        None
    }
}

/// A client reads a number back.
pub proof fn law_int_reply(n: int)
    requires
        -9223372036854775808 <= n < 9223372036854775808,
    ensures
        int_in(int_reply(n)) == Some(n),
{
    law_signed64_of_be64(n);
    assert(int_reply(n).skip(1) =~= be64(n));
}

/// A client reads data back.
pub proof fn law_bulk_reply(data: Seq<u8>)
    requires
        data.len() <= 0xFFFF_FFFF,
    ensures
        bulk_in(bulk_reply(data)) == Some(data),
{
    let r = bulk_reply(data);
    law_num32_of_be32(data.len() as int);
    assert(r.subrange(1, 5) =~= be32(data.len() as int));
    assert(r.skip(5) =~= data);
}

/// A client reads items back.
pub proof fn law_array_reply(items: Seq<Seq<u8>>)
    requires
        items.len() <= 0xFFFF_FFFF,
        forall|i: int| 0 <= i < items.len() ==> (#[trigger] items[i]).len() <= 0xFFFF_FFFF,
    ensures
        array_in(array_reply(items.len() as int, items)) == Some(items),
{
    let r = array_reply(items.len() as int, items);
    law_num32_of_be32(items.len() as int);
    law_args_of_items(items);
    assert(r.subrange(1, 5) =~= be32(items.len() as int));
    assert(r.skip(5) =~= items_bytes(items));
}

/// The value field of an LRANGE: the two positions, as signed 64-bit numbers.
pub open spec fn positions(start: int, stop: int) -> Seq<u8> {
    be64(start) + be64(stop)
}

/// Whether a number is a signed 64-bit one.
pub open spec fn is_i64(n: int) -> bool {
    -9223372036854775808 <= n < 9223372036854775808
}

/// The positions as the command reads them.
proof fn lemma_positions(start: int, stop: int)
    requires
        is_i64(start),
        is_i64(stop),
    ensures
        positions(start, stop).len() == 16,
        signed64(positions(start, stop).subrange(0, 8)) == start,
        signed64(positions(start, stop).subrange(8, 16)) == stop,
{
    law_signed64_of_be64(start);
    law_signed64_of_be64(stop);
    assert(positions(start, stop).subrange(0, 8) =~= be64(start));
    assert(positions(start, stop).subrange(8, 16) =~= be64(stop));
}

/// The reply to an LRANGE on a list.
proof fn lemma_lrange(
    c: CacheView,
    now: u64,
    key: Seq<u8>,
    l: Seq<Seq<u8>>,
    start: int,
    stop: int,
    ttl: u32,
)
    requires
        c.live(key, now) == Some(ValueView::List(l)),
        is_i64(start),
        is_i64(stop),
    ensures
        effect(c, now, 0x24, key, positions(start, stop), ttl).reply == array_reply(
            list_range(l, start, stop).len() as int,
            list_range(l, start, stop),
        ),
{
    lemma_positions(start, stop);
}

/// LRANGE from position `i` to position `j` of a list returns exactly the `j - i + 1` items in
/// between, the ends included, in the order of the list.
#[verifier::rlimit(40)]
pub proof fn law_lrange_items(
    c: CacheView,
    now: u64,
    key: Seq<u8>,
    l: Seq<Seq<u8>>,
    i: int,
    j: int,
    ttl: u32,
)
    requires
        c.live(key, now) == Some(ValueView::List(l)),
        0 <= i <= j < l.len(),
        l.len() <= 0xFFFF_FFFF,
        forall|m: int| 0 <= m < l.len() ==> (#[trigger] l[m]).len() <= 0xFFFF_FFFF,
    ensures
        ({
            let reply = effect(c, now, 0x24, key, positions(i, j), ttl).reply;
            &&& array_in(reply) matches Some(items) && items.len() == j - i + 1 && forall|m: int|
                0 <= m <= j - i ==> #[trigger] items[m] == l[i + m]
        }),
{
    lemma_lrange(c, now, key, l, i, j, ttl);
    let items = l.subrange(i, j + 1);
    assert(forall|m: int| 0 <= m < items.len() ==> #[trigger] items[m] == l[i + m]);
    law_array_reply(items);
}

/// LRANGE counts negative positions from the end of the list: `-k` stands for the position
/// `n - k` of a list of `n` items, as the first position and as the last.
#[verifier::rlimit(40)]
pub proof fn law_lrange_from_the_end(
    c: CacheView,
    now: u64,
    key: Seq<u8>,
    l: Seq<Seq<u8>>,
    k: int,
    other: int,
    ttl: u32,
)
    requires
        c.live(key, now) == Some(ValueView::List(l)),
        1 <= k <= l.len(),
        l.len() < 9223372036854775808,
        is_i64(other),
    ensures
        effect(c, now, 0x24, key, positions(other, -k), ttl).reply == effect(
            c,
            now,
            0x24,
            key,
            positions(other, l.len() - k),
            ttl,
        ).reply,
        effect(c, now, 0x24, key, positions(-k, other), ttl).reply == effect(
            c,
            now,
            0x24,
            key,
            positions(l.len() - k, other),
            ttl,
        ).reply,
{
    lemma_lrange(c, now, key, l, other, -k, ttl);
    lemma_lrange(c, now, key, l, other, l.len() - k, ttl);
    lemma_lrange(c, now, key, l, -k, other, ttl);
    lemma_lrange(c, now, key, l, l.len() - k, other, ttl);
}

/// Where a range is cut off.
proof fn lemma_cut_off(l: Seq<Seq<u8>>, start: int, stop: int)
    ensures
        ({
            let n = l.len() as int;
            &&& stop >= n ==> list_range(l, start, stop) == list_range(l, start, n - 1)
            &&& start < -n ==> list_range(l, start, stop) == list_range(l, 0, stop)
            &&& start >= n || stop < -n || (0 <= stop < start) || (stop < start < 0)
                ==> list_range(l, start, stop) == Seq::<Seq<u8>>::empty()
        }),
{
}

/// LRANGE cuts positions off at the ends of the list: a last position beyond the end is the
/// last item, a first position before the beginning is the first item.
#[verifier::rlimit(40)]
pub proof fn law_lrange_is_cut_off(
    c: CacheView,
    now: u64,
    key: Seq<u8>,
    l: Seq<Seq<u8>>,
    start: int,
    stop: int,
    ttl: u32,
)
    requires
        c.live(key, now) == Some(ValueView::List(l)),
        l.len() < 9223372036854775808,
        is_i64(start),
        is_i64(stop),
    ensures
        stop >= l.len() ==> effect(c, now, 0x24, key, positions(start, stop), ttl).reply == effect(
            c,
            now,
            0x24,
            key,
            positions(start, l.len() - 1),
            ttl,
        ).reply,
        start < -l.len() ==> effect(c, now, 0x24, key, positions(start, stop), ttl).reply
            == effect(c, now, 0x24, key, positions(0, stop), ttl).reply,
{
    lemma_lrange(c, now, key, l, start, stop, ttl);
    lemma_lrange(c, now, key, l, start, l.len() - 1, ttl);
    lemma_lrange(c, now, key, l, 0, stop, ttl);
    lemma_cut_off(l, start, stop);
}

/// LRANGE over a range that lies outside the list, or whose ends are the wrong way round,
/// replies with an array of no items.
pub proof fn law_lrange_outside(
    c: CacheView,
    now: u64,
    key: Seq<u8>,
    l: Seq<Seq<u8>>,
    start: int,
    stop: int,
    ttl: u32,
)
    requires
        c.live(key, now) == Some(ValueView::List(l)),
        is_i64(start),
        is_i64(stop),
        start >= l.len() || stop < -l.len() || (0 <= stop < start) || (stop < start < 0),
    ensures
        array_in(effect(c, now, 0x24, key, positions(start, stop), ttl).reply) == Some(
            Seq::<Seq<u8>>::empty(),
        ),
{
    lemma_lrange(c, now, key, l, start, stop, ttl);
    lemma_cut_off(l, start, stop);
    law_array_reply(seq![]);
}

/// What the commands that ask for the whole of a list, a hash or a set, or for its size,
/// reply about a live key: a client reads out of the reply what is stored, no more and no
/// less, and nothing but an error for a key of another type.
#[verifier::rlimit(40)]
pub proof fn law_reads_show_the_data(
    c: CacheView,
    now: u64,
    key: Seq<u8>,
    value: Seq<u8>,
    ttl: u32,
)
    requires
        c.live(key, now) matches Some(v) && v.count() <= 0x7FFF_FFFF,
        c.live(key, now) matches Some(ValueView::Hash(h)) ==> forall|i: int|
            0 <= i < h.len() ==> (#[trigger] h[i]).0.len() <= 0xFFFF_FFFF && h[i].1.len()
                <= 0xFFFF_FFFF,
        c.live(key, now) matches Some(ValueView::Members(s)) ==> forall|i: int|
            0 <= i < s.len() ==> (#[trigger] s[i]).0.len() <= 0xFFFF_FFFF,
    ensures
        ({
            let reply = |action: u8| effect(c, now, action, key, value, ttl).reply;
            let error = seq![0xFFu8];
            match c.live(key, now)->0 {
                ValueView::Str(v) => {
                    &&& bulk_in(reply(0x02)) == Some(v)
                    &&& reply(0x13) == error && reply(0x14) == error
                    &&& reply(0x25) == error
                    &&& reply(0x32) == error && reply(0x34) == error
                },
                ValueView::Hash(h) => {
                    &&& int_in(reply(0x14)) == Some(h.len() as int)
                    &&& array_in(reply(0x13)) matches Some(items) && items.len() == 2 * h.len()
                        && forall|i: int|
                        0 <= i < h.len() ==> items[2 * i] == (#[trigger] h[i]).0 && items[2 * i + 1]
                            == h[i].1
                    &&& reply(0x02) == error && reply(0x25) == error
                    &&& reply(0x32) == error && reply(0x34) == error
                },
                ValueView::List(l) => {
                    &&& int_in(reply(0x25)) == Some(l.len() as int)
                    &&& reply(0x02) == error
                    &&& reply(0x13) == error && reply(0x14) == error
                    &&& reply(0x32) == error && reply(0x34) == error
                },
                ValueView::Members(s) => {
                    &&& int_in(reply(0x34)) == Some(s.len() as int)
                    &&& array_in(reply(0x32)) matches Some(items) && items.len() == s.len()
                        && forall|i: int| 0 <= i < s.len() ==> #[trigger] items[i] == s[i].0
                    &&& reply(0x02) == error && reply(0x25) == error
                    &&& reply(0x13) == error && reply(0x14) == error
                },
            }
        }),
{
    match c.live(key, now)->0 {
        ValueView::Str(v) => {
            law_bulk_reply(v);
        },
        ValueView::Hash(h) => {
            law_int_reply(h.len() as int);
            lemma_pair_items(h);
            law_array_reply(pair_items(h));
        },
        ValueView::List(l) => {
            law_int_reply(l.len() as int);
        },
        ValueView::Members(s) => {
            law_int_reply(s.len() as int);
            law_array_reply(member_items(s));
        },
    }
}

/// The fields and values in turn, by position.
proof fn lemma_pair_items(h: Seq<(Seq<u8>, Seq<u8>)>)
    requires
        forall|i: int|
            0 <= i < h.len() ==> (#[trigger] h[i]).0.len() <= 0xFFFF_FFFF && h[i].1.len()
                <= 0xFFFF_FFFF,
    ensures
        pair_items(h).len() == 2 * h.len(),
        forall|i: int|
            0 <= i < h.len() ==> pair_items(h)[2 * i] == (#[trigger] h[i]).0 && pair_items(h)[2 * i
                + 1] == h[i].1,
        forall|i: int|
            0 <= i < pair_items(h).len() ==> (#[trigger] pair_items(h)[i]).len() <= 0xFFFF_FFFF,
    decreases h.len(),
{
    if h.len() > 0 {
        let front = h.drop_last();
        assert(forall|i: int| 0 <= i < front.len() ==> #[trigger] front[i] == h[i]);
        lemma_pair_items(front);
        assert forall|i: int| 0 <= i < h.len() implies pair_items(h)[2 * i] == (#[trigger] h[i]).0
            && pair_items(h)[2 * i + 1] == h[i].1 by {
            if i < front.len() {
                assert(front[i] == h[i]);
            }
        }
        assert forall|i: int| 0 <= i < pair_items(h).len() implies (
        #[trigger] pair_items(h)[i]).len() <= 0xFFFF_FFFF by {
            if i < 2 * front.len() {
                assert(pair_items(h)[i] == pair_items(front)[i]);
            }
        }
    }
}

/// What reads reply about a key that is absent or has expired: a GET or an HGET that data is
/// missing, a request for a size or a membership zero, a request for items no items.
pub proof fn law_reads_of_nothing(c: CacheView, now: u64, key: Seq<u8>, value: Seq<u8>, ttl: u32)
    requires
        c.live(key, now) is None,
    ensures
        ({
            let reply = |action: u8| effect(c, now, action, key, value, ttl).reply;
            let one = args_of(value) matches Some(args) && args.len() == 1;
            &&& reply(0x02) == seq![0x44u8]
            &&& one ==> reply(0x11) == seq![0x44u8] && int_in(reply(0x33)) == Some(0int)
            &&& int_in(reply(0x14)) == Some(0int)
            &&& int_in(reply(0x25)) == Some(0int)
            &&& int_in(reply(0x34)) == Some(0int)
            &&& array_in(reply(0x13)) == Some(Seq::<Seq<u8>>::empty())
            &&& array_in(reply(0x32)) == Some(Seq::<Seq<u8>>::empty())
            &&& value.len() == 16 ==> array_in(reply(0x24)) == Some(Seq::<Seq<u8>>::empty())
            &&& bulk_in(reply(0x08)) == Some(encode_utf8("none"@))
        }),
{
    law_int_reply(0);
    law_array_reply(seq![]);
    reveal_strlit("none");
    is_ascii_chars_encode_utf8("none"@);
    law_bulk_reply(encode_utf8("none"@));
}

/// TYPE names what is stored under a live key.
pub proof fn law_type_names_the_value(
    c: CacheView,
    now: u64,
    key: Seq<u8>,
    value: Seq<u8>,
    ttl: u32,
)
    requires
        c.live(key, now) is Some,
    ensures
        ({
            let name = bulk_in(effect(c, now, 0x08, key, value, ttl).reply);
            match c.live(key, now)->0 {
                ValueView::Str(_) => name == Some(encode_utf8("string"@)),
                ValueView::Hash(_) => name == Some(encode_utf8("hash"@)),
                ValueView::List(_) => name == Some(encode_utf8("list"@)),
                ValueView::Members(_) => name == Some(encode_utf8("set"@)),
            }
        }),
{
    reveal_strlit("string");
    is_ascii_chars_encode_utf8("string"@);
    reveal_strlit("hash");
    is_ascii_chars_encode_utf8("hash"@);
    reveal_strlit("list");
    is_ascii_chars_encode_utf8("list"@);
    reveal_strlit("set");
    is_ascii_chars_encode_utf8("set"@);
    law_bulk_reply(encode_utf8("string"@));
    law_bulk_reply(encode_utf8("hash"@));
    law_bulk_reply(encode_utf8("list"@));
    law_bulk_reply(encode_utf8("set"@));
}

/// What a subscriber is sent of a published payload: the payload, as data with its length in
/// front.
pub proof fn law_delivery(payload: &[u8], f: Vec<u8>)
    requires
        call_ensures(delivery_frame, (payload,), f),
        payload@.len() <= 0xFFFF_FFFF,
    ensures
        bulk_in(f@) == Some(payload@),
{
    law_bulk_reply(payload@);
}

/// What a client reads in the reply to an LRANGE that is carried out: exactly the items from
/// position `i` to position `j` of the list.
#[verifier::rlimit(40)]
pub proof fn law_executed_lrange(
    now: u64,
    key: &[u8],
    value: &[u8],
    ttl: u32,
    l: Seq<Seq<u8>>,
    i: int,
    j: int,
)
    requires
        0 <= i <= j < l.len(),
        l.len() <= 0xFFFF_FFFF,
        forall|m: int| 0 <= m < l.len() ==> (#[trigger] l[m]).len() <= 0xFFFF_FFFF,
        value@ == positions(i, j),
    ensures
        forall|cache: &mut LruCache, out: &mut Vec<u8>, r: Outcome| #[trigger]
            call_ensures(execute, (cache, now, 0x24u8, key, value, ttl, out), r)
                && cache@.live(key@, now) == Some(ValueView::List(l)) ==> ({
                let reply = final(out)@.skip(out@.len() as int);
                &&& final(out)@.take(out@.len() as int) == out@
                &&& array_in(reply) matches Some(items) && items.len() == j - i + 1 && forall|m: int|
                    0 <= m <= j - i ==> #[trigger] items[m] == l[i + m]
            }),
{
    assert forall|cache: &mut LruCache, out: &mut Vec<u8>, r: Outcome| #[trigger]
        call_ensures(execute, (cache, now, 0x24u8, key, value, ttl, out), r) && cache@.live(
            key@,
            now,
        ) == Some(ValueView::List(l)) implies ({
        let reply = final(out)@.skip(out@.len() as int);
        &&& final(out)@.take(out@.len() as int) == out@
        &&& array_in(reply) matches Some(items) && items.len() == j - i + 1 && forall|m: int|
            0 <= m <= j - i ==> #[trigger] items[m] == l[i + m]
    }) by {
        law_lrange_items(cache@, now, key@, l, i, j, ttl);
        let e = effect(cache@, now, 0x24, key@, value@, ttl);
        assert(final(out)@ == out@ + e.reply);
        assert(final(out)@.skip(out@.len() as int) =~= e.reply);
        assert(final(out)@.take(out@.len() as int) =~= out@);
    }
}

} // verus!
