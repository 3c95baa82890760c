//! Listings of the cache: the dashboard's snapshot and the frames that recreate
//! the live dataset.
use vstd::prelude::*;

use crate::effects::member_items;
use crate::model::Record;
use crate::protocol::{
    arr_item, encode_frame, item_bytes, items_bytes, lemma_items_bytes_push, request_bytes, Request,
    ACT_HSET, ACT_RPUSH, ACT_SADD, ACT_SET,
};
use crate::value::{items_view, pairs_view, Value, ValueView};

verus! {

/// What the dashboard shows of a key: (key, type, size_bytes, element_count, ttl).
pub type KeyInfo = (Vec<u8>, &'static str, usize, usize, Option<u64>);

/// The view of `KeyInfo`.
pub type KeyInfoView = (Seq<u8>, Seq<char>, nat, nat, Option<u64>);

pub open spec fn info_view(i: KeyInfo) -> KeyInfoView {
    (i.0@, i.1@, i.2 as nat, i.3 as nat, i.4)
}

/// What the dashboard shows of a live record.
pub open spec fn info_of(e: (Seq<u8>, Record), now: u64) -> KeyInfoView {
    (
        e.0,
        e.1.value.kind_name(),
        e.1.value.bytes(),
        e.1.value.count(),
        match e.1.expires_at {
            Some(t) => Some((t - now) as u64),
            None => None,
        },
    )
}

/// What the dashboard shows: every record that is live at `now`, in order.
pub open spec fn snapshot_of(s: Seq<(Seq<u8>, Record)>, now: u64) -> Seq<KeyInfoView>
    decreases s.len(),
{
    if s.len() == 0 {
        seq![]
    } else {
        let earlier = snapshot_of(s.drop_last(), now);
        if s.last().1.expired(now) {
            earlier
        } else {
            earlier.push(info_of(s.last(), now))
        }
    }
}

/// The absolute expiry as a frame carries it: the low 32 bits, or zero for none.
pub open spec fn absolute_ttl(expires_at: Option<u64>) -> u32 {
    match expires_at {
        Some(t) => (t % 4294967296) as u32,
        None => 0,
    }
}

/// The requests that recreate a value under a key. Collections carry no TTL.
pub open spec fn value_requests(key: Seq<u8>, value: ValueView, ttl: u32) -> Seq<Request> {
    match value {
        ValueView::Str(v) => seq![Request { action: ACT_SET, key, value: v, ttl }],
        ValueView::Hash(h) => h.map_values(
            |e: (Seq<u8>, Seq<u8>)|
                Request {
                    action: ACT_HSET,
                    key,
                    value: items_bytes(seq![e.0, e.1]),
                    ttl: 0,
                },
        ),
        ValueView::List(l) => if l.len() == 0 {
            seq![]
        } else {
            seq![Request { action: ACT_RPUSH, key, value: items_bytes(l), ttl: 0 }]
        },
        ValueView::Members(s) => if s.len() == 0 {
            seq![]
        } else {
            seq![Request { action: ACT_SADD, key, value: items_bytes(member_items(s)), ttl: 0 }]
        },
    }
}

/// The requests that recreate a record; none if it has expired at `now`.
pub open spec fn record_requests(e: (Seq<u8>, Record), now: u64) -> Seq<Request> {
    if e.1.expired(now) {
        seq![]
    } else {
        value_requests(e.0, e.1.value, absolute_ttl(e.1.expires_at))
    }
}

/// The requests that recreate the live dataset, from the last record to the first.
pub open spec fn dump_requests(s: Seq<(Seq<u8>, Record)>, now: u64) -> Seq<Request>
    decreases s.len(),
{
    if s.len() == 0 {
        seq![]
    } else {
        record_requests(s.last(), now) + dump_requests(s.drop_last(), now)
    }
}

/// The frames of requests.
pub open spec fn frames_of(rs: Seq<Request>) -> Seq<Seq<u8>> {
    rs.map_values(|r: Request| request_bytes(r))
}

/// The frames that recreate the live dataset.
pub open spec fn dump_of(s: Seq<(Seq<u8>, Record)>, now: u64) -> Seq<Seq<u8>> {
    frames_of(dump_requests(s, now))
}

/// The items of a sequence, appended one after the other.
proof fn lemma_items_of_two(a: Seq<u8>, b: Seq<u8>)
    ensures
        items_bytes(seq![a, b]) == item_bytes(a) + item_bytes(b),
{
    let e = Seq::<Seq<u8>>::empty();
    lemma_items_bytes_push(e, a);
    lemma_items_bytes_push(e.push(a), b);
    assert(e.push(a).push(b) =~= seq![a, b]);
    assert(items_bytes(e) =~= seq![]);
    assert(items_bytes(seq![a, b]) =~= item_bytes(a) + item_bytes(b));
}

/// The encoding of a non-empty list of items is not empty.
pub proof fn lemma_items_not_empty(items: Seq<Seq<u8>>)
    ensures
        items_bytes(items).len() == 0 <==> items.len() == 0,
{
    if items.len() > 0 {
        lemma_items_bytes_push(items.drop_last(), items.last());
        assert(items.drop_last().push(items.last()) =~= items);
    }
}

/// Appends the frames that recreate `value` under `key`.
pub fn put_value_frames(out: &mut Vec<Vec<u8>>, key: &[u8], value: &Value, ttl: u32)
    ensures
        items_view(final(out)@) == items_view(old(out)@) + frames_of(
            value_requests(key@, value@, ttl),
        ),
{
    let ghost start = items_view(out@);
    match value {
        Value::Str(v) => {
            out.push(encode_frame(ACT_SET, key, v.as_slice(), ttl));
            assert(items_view(out@) =~= start + frames_of(value_requests(key@, value@, ttl)));
        },
        Value::Hash(h) => {
            let ghost frames = frames_of(value_requests(key@, value@, ttl));
            let mut i: usize = 0;
            assert(items_view(out@) =~= start + frames.take(0));
            while i < h.len()
                invariant
                    i <= h@.len(),
                    frames == frames_of(
                        value_requests(key@, ValueView::Hash(pairs_view(h@)), ttl),
                    ),
                    items_view(out@) == start + frames.take(i as int),
                decreases h@.len() - i,
            {
                let ghost held = items_view(out@);
                let mut args: Vec<u8> = Vec::new();
                arr_item(&mut args, h.key_at(i).as_slice());
                arr_item(&mut args, h.value_at(i).as_slice());
                proof {
                    let e = pairs_view(h@)[i as int];
                    lemma_items_of_two(e.0, e.1);
                    assert(args@ =~= items_bytes(seq![e.0, e.1]));
                    assert(frames.take(i + 1) =~= frames.take(i as int).push(frames[i as int]));
                }
                out.push(encode_frame(ACT_HSET, key, args.as_slice(), 0));
                assert(items_view(out@) =~= held.push(frames[i as int]));
                assert(items_view(out@) =~= start + frames.take(i + 1));
                i += 1;
            }
            assert(frames.take(i as int) =~= frames);
        },
        Value::List(l) => {
            let ghost items = items_view(l@);
            let mut args: Vec<u8> = Vec::new();
            let mut i: usize = 0;
            assert(items.take(0) =~= seq![]);
            assert(args@ =~= items_bytes(items.take(0)));
            while i < l.len()
                invariant
                    i <= l@.len(),
                    items == items_view(l@),
                    args@ == items_bytes(items.take(i as int)),
                decreases l@.len() - i,
            {
                arr_item(&mut args, l[i].as_slice());
                proof {
                    lemma_items_bytes_push(items.take(i as int), items[i as int]);
                    assert(items.take(i + 1) =~= items.take(i as int).push(items[i as int]));
                }
                i += 1;
            }
            proof {
                assert(items.take(i as int) =~= items);
                lemma_items_not_empty(items);
            }
            if args.len() > 0 {
                out.push(encode_frame(ACT_RPUSH, key, args.as_slice(), 0));
            }
            assert(items_view(out@) =~= start + frames_of(value_requests(key@, value@, ttl)));
        },
        Value::Members(s) => {
            let ghost items = member_items(s@);
            let mut args: Vec<u8> = Vec::new();
            let mut i: usize = 0;
            assert(items.take(0) =~= seq![]);
            assert(args@ =~= items_bytes(items.take(0)));
            while i < s.len()
                invariant
                    i <= s@.len(),
                    items == member_items(s@),
                    args@ == items_bytes(items.take(i as int)),
                decreases s@.len() - i,
            {
                arr_item(&mut args, s.key_at(i).as_slice());
                proof {
                    lemma_items_bytes_push(items.take(i as int), items[i as int]);
                    assert(items.take(i + 1) =~= items.take(i as int).push(items[i as int]));
                }
                i += 1;
            }
            proof {
                assert(items.take(i as int) =~= items);
                lemma_items_not_empty(items);
            }
            if args.len() > 0 {
                out.push(encode_frame(ACT_SADD, key, args.as_slice(), 0));
            }
            assert(items_view(out@) =~= start + frames_of(value_requests(key@, value@, ttl)));
        },
    }
}

} // verus!
