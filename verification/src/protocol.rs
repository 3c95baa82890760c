//! The binary wire protocol.
//!
//! A request frame:
//! ```text
//!  offset  size  field
//!  ------  ----  ---------------------------------------------------------
//!    0      1    Action Type
//!    1      2    Key Length    u16, big-endian
//!    3      4    Value Length  u32, big-endian
//!    7      4    TTL seconds   u32, big-endian  (0 = no expiry)
//!   11      K    Key Data      (K = Key Length bytes)
//!   11+K    V    Value Data    (V = Value Length bytes)
//! ```
//! The fixed header is exactly **11 bytes**; the body length is `K + V`.
//!
//! Response frames:
//! ```text
//!  [0x00]                       Success (SET / DEL / FLUSH / AUTH / PUBLISH / SUBSCRIBE ack)
//!  [0x00][len u32 BE][value]    Success for GET (length-prefixed, self-delimiting)
//!  [0x44]                       Missing (key not found / expired on GET or DEL)  ('D')
//!  [0x41]                       Auth required / invalid token  ('A')
//!  [0x45]                       Log write failed  ('E')
//!  [0xFF]                       System / parse error
//! ```
use vstd::prelude::*;

use crate::bytes::{
    append, be16, be32, be64, get_be16, get_be32, law_be32_of_num32, law_be64_layout,
    law_fields_are_big_endian, law_most_significant_byte_first, law_num16_of_be16,
    law_num32_of_be32, num16, num32, part, put_be16, put_be32, put_be64_signed,
};
use crate::sums::{lemma_total_concat, lemma_total_push, total};
use crate::value::item_sizes;

verus! {

/// Fixed request header: 1 (action) + 2 (key len) + 4 (value len) + 4 (ttl).
pub const HEADER_LEN: usize = 11;

pub const ACT_SET: u8 = 0x01;

pub const ACT_GET: u8 = 0x02;

pub const ACT_DEL: u8 = 0x03;

pub const ACT_FLUSH: u8 = 0x04;

pub const ACT_SUBSCRIBE: u8 = 0x05;

pub const ACT_PUBLISH: u8 = 0x06;

/// Authenticate: token carried in the key field.
pub const ACT_AUTH: u8 = 0x07;

/// Report the value type of a key.
pub const ACT_TYPE: u8 = 0x08;

/// args: field, value -> int (1 new / 0 updated)
pub const ACT_HSET: u8 = 0x10;

/// args: field -> bulk | missing
pub const ACT_HGET: u8 = 0x11;

/// args: field -> int (1 / 0)
pub const ACT_HDEL: u8 = 0x12;

/// (no args) -> array [field, value]…
pub const ACT_HGETALL: u8 = 0x13;

/// (no args) -> int
pub const ACT_HLEN: u8 = 0x14;

/// args: item… -> int (new length)
pub const ACT_LPUSH: u8 = 0x20;

/// args: item… -> int (new length)
pub const ACT_RPUSH: u8 = 0x21;

/// (no args) -> bulk | missing
pub const ACT_LPOP: u8 = 0x22;

/// (no args) -> bulk | missing
pub const ACT_RPOP: u8 = 0x23;

/// value = start i64 BE + stop i64 BE (16 bytes) -> array
pub const ACT_LRANGE: u8 = 0x24;

/// (no args) -> int
pub const ACT_LLEN: u8 = 0x25;

/// args: member… -> int (added count)
pub const ACT_SADD: u8 = 0x30;

/// args: member… -> int (removed count)
pub const ACT_SREM: u8 = 0x31;

/// (no args) -> array [member]…
pub const ACT_SMEMBERS: u8 = 0x32;

/// args: member -> int (0 / 1)
pub const ACT_SISMEMBER: u8 = 0x33;

/// (no args) -> int
pub const ACT_SCARD: u8 = 0x34;

pub const RSP_OK: u8 = 0x00;

/// 'D': data missing.
pub const RSP_MISSING: u8 = 0x44;

/// 'A': auth required / invalid token.
pub const RSP_AUTH: u8 = 0x41;

pub const RSP_ERROR: u8 = 0xFF;

/// 'E': log write failed (writer thread dead).
pub const RSP_AOF_ERROR: u8 = 0x45;

/// Hard upper bound on a single frame body (`key + value`).
pub const MAX_FRAME_BODY: usize = 67108864;

/// The bytes of a frame.
pub open spec fn frame_bytes(action: u8, key: Seq<u8>, value: Seq<u8>, ttl: u32) -> Seq<u8> {
    seq![action] + be16(key.len() as int) + be32(value.len() as int) + be32(ttl as int) + key
        + value
}

/// A request frame.
#[verifier::ext_equal]
pub struct Request {
    pub action: u8,
    pub key: Seq<u8>,
    pub value: Seq<u8>,
    pub ttl: u32,
}

/// The frame of a request.
pub open spec fn request_bytes(r: Request) -> Seq<u8> {
    frame_bytes(r.action, r.key, r.value, r.ttl)
}

/// Whether a request can be framed: the key length fits its field, and the body is not
/// longer than any frame may be.
pub open spec fn framable(r: Request) -> bool {
    r.key.len() <= 0xFFFF && r.key.len() + r.value.len() <= MAX_FRAME_BODY
}

/// Encode a full request frame (11-byte header + key + value); the inverse of
/// `decode_header`.
pub fn encode_frame(action: u8, key: &[u8], value: &[u8], ttl: u32) -> (f: Vec<u8>)
    ensures
        f@ == frame_bytes(action, key@, value@, ttl),
{
    let mut f: Vec<u8> = Vec::new();
    f.push(action);
    put_be16(&mut f, key.len() as u64);
    put_be32(&mut f, value.len() as u64);
    put_be32(&mut f, ttl as u64);
    append(&mut f, key);
    append(&mut f, value);
    assert(f@ =~= frame_bytes(action, key@, value@, ttl));
    f
}

/// The key length in a header.
pub open spec fn header_klen(b: Seq<u8>) -> nat {
    num16(b.subrange(1, 3))
}

/// The value length in a header.
pub open spec fn header_vlen(b: Seq<u8>) -> nat {
    num32(b.subrange(3, 7))
}

/// The TTL field of a header.
pub open spec fn header_ttl(b: Seq<u8>) -> nat {
    num32(b.subrange(7, 11))
}

/// Decode the 11-byte header at the start of `b`. Returns (action, klen, vlen, ttl).
pub fn decode_header(b: &[u8]) -> (r: (u8, usize, usize, u32))
    requires
        b@.len() >= HEADER_LEN,
    ensures
        r.0 == b@[0],
        r.1 == header_klen(b@),
        r.2 == header_vlen(b@),
        r.3 == header_ttl(b@),
        r.1 <= 0xFFFF,
        r.2 <= 0xFFFF_FFFF,
{
    let action: u8 = b[0];
    let klen: usize = get_be16(b, 1) as usize;
    let vlen: usize = get_be32(b, 3) as usize;
    let ttl: u32 = get_be32(b, 7);
    (action, klen, vlen, ttl)
}

/// Decoding the header of an encoded frame gives back the action, the lengths and
/// the TTL field, if the lengths fit their fields; the body is the key and the value.
pub proof fn law_decode_of_encode(action: u8, key: Seq<u8>, value: Seq<u8>, ttl: u32)
    requires
        key.len() <= 0xFFFF,
        value.len() <= 0xFFFF_FFFF,
    ensures
        ({
            let f = frame_bytes(action, key, value, ttl);
            &&& f.len() == HEADER_LEN + key.len() + value.len()
            &&& f[0] == action
            &&& header_klen(f) == key.len()
            &&& header_vlen(f) == value.len()
            &&& header_ttl(f) == ttl
            &&& f.subrange(HEADER_LEN as int, HEADER_LEN + key.len()) == key
            &&& f.subrange(HEADER_LEN + key.len(), f.len() as int) == value
        }),
{
    let f = frame_bytes(action, key, value, ttl);
    law_num16_of_be16(key.len() as int);
    law_num32_of_be32(value.len() as int);
    law_num32_of_be32(ttl as int);
    assert(f.subrange(1, 3) =~= be16(key.len() as int));
    assert(f.subrange(3, 7) =~= be32(value.len() as int));
    assert(f.subrange(7, 11) =~= be32(ttl as int));
    assert(f.subrange(HEADER_LEN as int, HEADER_LEN + key.len()) =~= key);
    assert(f.subrange(HEADER_LEN + key.len(), f.len() as int) =~= value);
}

/// The bytes of a frame, one by one: the action; the length of the key in two bytes, that of
/// the value in four and the TTL in four, each with the most significant byte first; then the
/// key and the value.
#[verifier::rlimit(40)]
pub proof fn law_frame_layout(action: u8, key: Seq<u8>, value: Seq<u8>, ttl: u32)
    requires
        key.len() <= 0xFFFF,
        value.len() <= 0xFFFF_FFFF,
    ensures
        ({
            let f = frame_bytes(action, key, value, ttl);
            let k = key.len() as int;
            &&& f.len() == 11 + k + value.len()
            &&& f[0] == action
            &&& f[1] * 0x100 + f[2] == k
            &&& f[3] * 0x100_0000 + f[4] * 0x1_0000 + f[5] * 0x100 + f[6] == value.len()
            &&& f[7] * 0x100_0000 + f[8] * 0x1_0000 + f[9] * 0x100 + f[10] == ttl
            &&& f.subrange(11, 11 + k) == key
            &&& f.skip(11 + k) == value
        }),
{
    let f = frame_bytes(action, key, value, ttl);
    let (n, t) = (value.len() as int, ttl as int);
    law_most_significant_byte_first(key.len() as int);
    law_most_significant_byte_first(n);
    law_most_significant_byte_first(t);
    assert(f[3] == be32(n)[0] && f[4] == be32(n)[1] && f[5] == be32(n)[2] && f[6] == be32(n)[3]);
    assert(f[7] == be32(t)[0] && f[8] == be32(t)[1] && f[9] == be32(t)[2] && f[10] == be32(t)[3]);
    assert(f[1] == be16(key.len() as int)[0] && f[2] == be16(key.len() as int)[1]);
    assert(f.subrange(11, 11 + key.len() as int) =~= key);
    assert(f.skip(11 + key.len() as int) =~= value);
}

/// A length-prefixed item.
pub open spec fn item_bytes(data: Seq<u8>) -> Seq<u8> {
    be32(data.len() as int) + data
}

/// Length-prefixed items, one after the other.
pub open spec fn items_bytes(items: Seq<Seq<u8>>) -> Seq<u8>
    decreases items.len(),
{
    if items.len() == 0 {
        seq![]
    } else {
        items_bytes(items.drop_last()) + item_bytes(items.last())
    }
}

/// An integer reply.
pub open spec fn int_reply(n: int) -> Seq<u8> {
    seq![RSP_OK] + be64(n)
}

/// A bulk reply.
pub open spec fn bulk_reply(data: Seq<u8>) -> Seq<u8> {
    seq![RSP_OK] + item_bytes(data)
}

/// An array reply of `count` items.
pub open spec fn array_reply(count: int, items: Seq<Seq<u8>>) -> Seq<u8> {
    seq![RSP_OK] + be32(count) + items_bytes(items)
}

/// The bytes of a reply with a number: a zero byte, and eight bytes in two's complement.
pub proof fn law_int_reply_layout(n: int)
    requires
        -9223372036854775808 <= n < 9223372036854775808,
    ensures
        int_reply(n).len() == 9,
        int_reply(n)[0] == 0x00,
        int_reply(n).skip(1) == be64(n),
        n >= 0 ==> int_reply(n)[1] < 0x80,
        n < 0 ==> int_reply(n)[1] >= 0x80,
{
    law_be64_layout(n);
    let b = be64(n);
    assert(int_reply(n).skip(1) =~= b);
    assert(int_reply(n)[1] == b[0]);
    assert(b[0] < 0x80 <==> n >= 0);
}

/// The bytes of a reply with data: a zero byte, the length in four bytes with the most significant
/// first, and the data.
pub proof fn law_bulk_reply_layout(data: Seq<u8>)
    requires
        data.len() <= 0xFFFF_FFFF,
    ensures
        ({
            let r = bulk_reply(data);
            &&& r.len() == 5 + data.len()
            &&& r[0] == 0x00
            &&& r[1] * 0x100_0000 + r[2] * 0x1_0000 + r[3] * 0x100 + r[4] == data.len()
            &&& r.skip(5) == data
        }),
{
    let l = data.len() as int;
    let r = bulk_reply(data);
    let b = be32(l);
    law_most_significant_byte_first(l);
    assert(r[1] == b[0] && r[2] == b[1] && r[3] == b[2] && r[4] == b[3]);
    assert(r.skip(5) =~= data);
}

/// The bytes of a reply with items: a zero byte and the number of items, in four bytes with the
/// most significant first. One item more is appended, with its length in front.
pub proof fn law_array_reply_layout(items: Seq<Seq<u8>>, data: Seq<u8>)
    requires
        data.len() <= 0xFFFF_FFFF,
        items.len() < 0xFFFF_FFFF,
    ensures
        ({
            let count = items.len() as int;
            let r = array_reply(count, items);
            let more = array_reply(count + 1, items.push(data));
            let item = more.skip(r.len() as int);
            &&& r[0] == 0x00
            &&& r[1] * 0x100_0000 + r[2] * 0x1_0000 + r[3] * 0x100 + r[4] == count
            &&& more.len() == r.len() + 4 + data.len()
            &&& more.subrange(5, r.len() as int) == r.skip(5)
            &&& item[0] * 0x100_0000 + item[1] * 0x1_0000 + item[2] * 0x100 + item[3] == data.len()
            &&& item.skip(4) == data
        }),
{
    let count = items.len() as int;
    let r = array_reply(count, items);
    let more = array_reply(count + 1, items.push(data));
    lemma_items_bytes_push(items, data);
    law_most_significant_byte_first(count);
    law_most_significant_byte_first(data.len() as int);
    lemma_array_layout(be32(count), be32(count + 1), items_bytes(items), item_bytes(data));
    let c = be32(count);
    assert(r[1] == c[0] && r[2] == c[1] && r[3] == c[2] && r[4] == c[3]);
    assert(item_bytes(data).skip(4) =~= data);
}

/// An array with one item more.
proof fn lemma_array_layout(c: Seq<u8>, d: Seq<u8>, items: Seq<u8>, item: Seq<u8>)
    requires
        c.len() == 4,
        d.len() == 4,
    ensures
        ({
            let r = seq![RSP_OK] + c + items;
            let more = seq![RSP_OK] + d + (items + item);
            &&& more.len() == r.len() + item.len()
            &&& more.subrange(5, r.len() as int) == r.skip(5)
            &&& more.skip(r.len() as int) == item
        }),
{
    let r = seq![RSP_OK] + c + items;
    let more = seq![RSP_OK] + d + (items + item);
    assert(more.subrange(5, r.len() as int) =~= r.skip(5));
    assert(more.skip(r.len() as int) =~= item);
}

/// Appends an integer reply.
pub fn reply_int(out: &mut Vec<u8>, n: i64)
    ensures
        final(out)@ == old(out)@ + int_reply(n as int),
{
    out.push(RSP_OK);
    put_be64_signed(out, n);
    assert(out@ =~= old(out)@ + int_reply(n as int));
}

/// Appends a bulk reply.
pub fn reply_bulk(out: &mut Vec<u8>, data: &[u8])
    ensures
        final(out)@ == old(out)@ + bulk_reply(data@),
{
    out.push(RSP_OK);
    put_be32(out, data.len() as u64);
    append(out, data);
    assert(out@ =~= old(out)@ + bulk_reply(data@));
}

/// Appends the head of an array reply; `count` items follow.
pub fn arr_header(out: &mut Vec<u8>, count: u32)
    ensures
        final(out)@ == old(out)@ + array_reply(count as int, seq![]),
{
    out.push(RSP_OK);
    put_be32(out, count as u64);
    assert(out@ =~= old(out)@ + array_reply(count as int, seq![]));
}

/// Appends a length-prefixed item.
pub fn arr_item(out: &mut Vec<u8>, data: &[u8])
    ensures
        final(out)@ == old(out)@ + item_bytes(data@),
{
    put_be32(out, data.len() as u64);
    append(out, data);
    assert(out@ =~= old(out)@ + item_bytes(data@));
}

/// The length-prefixed arguments that make up `v`, if it is made up of such.
pub open spec fn args_of(v: Seq<u8>) -> Option<Seq<Seq<u8>>>
    decreases v.len(),
{
    if v.len() == 0 {
        Some(seq![])
    } else if v.len() < 4 {
        None
    } else {
        let l = num32(v.subrange(0, 4)) as int;
        if v.len() - 4 < l {
            None
        } else {
            match args_of(v.skip(4 + l)) {
                Some(rest) => Some(seq![v.subrange(4, 4 + l)] + rest),
                None => None,
            }
        }
    }
}

/// The contents of borrowed slices.
pub open spec fn slices_view(s: Seq<&[u8]>) -> Seq<Seq<u8>> {
    s.map_values(|a: &[u8]| a@)
}

/// Split a value payload into length-prefixed args: [len u32 BE][bytes]…
pub fn parse_args<'a>(v: &'a [u8]) -> (r: Option<Vec<&'a [u8]>>)
    ensures
        match r {
            Some(args) => args_of(v@) == Some(slices_view(args@)),
            None => args_of(v@) is None,
        },
{
    let mut args: Vec<&'a [u8]> = Vec::new();
    let mut pos: usize = 0;
    assert(v@.skip(0) =~= v@);
    assert(slices_view(args@) =~= seq![]);
    assert(args_of(v@) matches Some(all) ==> seq![] + all =~= all);
    while pos < v.len()
        invariant
            pos <= v@.len(),
            args_of(v@) == (match args_of(v@.skip(pos as int)) {
                Some(rest) => Some(slices_view(args@) + rest),
                None => None,
            }),
        decreases v@.len() - pos,
    {
        let ghost s = v@.skip(pos as int);
        let ghost parsed = slices_view(args@);
        if v.len() - pos < 4 {
            return None;
        }
        let l: usize = get_be32(v, pos) as usize;
        assert(s.subrange(0, 4) =~= v@.subrange(pos as int, pos + 4));
        if v.len() - pos - 4 < l {
            return None;
        }
        let arg: &'a [u8] = part(v, pos + 4, pos + 4 + l);
        args.push(arg);
        proof {
            assert(s.subrange(4, 4 + l) =~= arg@);
            assert(s.skip(4 + l) =~= v@.skip(pos + 4 + l));
            assert(slices_view(args@) =~= parsed.push(arg@));
            if let Some(rest) = args_of(s.skip(4 + l)) {
                assert(parsed + (seq![arg@] + rest) =~= parsed.push(arg@) + rest);
            }
        }
        pos = pos + 4 + l;
    }
    assert(v@.skip(pos as int) =~= seq![]);
    assert(slices_view(args@) + seq![] =~= slices_view(args@));
    Some(args)
}

/// Splitting what was written item by item gives back the items, if each length
/// fits its field.
pub proof fn law_args_of_items(items: Seq<Seq<u8>>)
    requires
        forall|i: int| 0 <= i < items.len() ==> (#[trigger] items[i]).len() <= 0xFFFF_FFFF,
    ensures
        args_of(items_bytes(items)) == Some(items),
    decreases items.len(),
{
    if items.len() > 0 {
        let rest = items.drop_first();
        law_args_of_items(rest);
        lemma_items_bytes_first(items);
        lemma_args_of_first(items[0], items_bytes(rest));
        assert(seq![items[0]] + rest =~= items);
    } else {
        assert(items =~= seq![]);
    }
}

/// What splits into items is what writing these items one by one gives: no other payload
/// splits into the same.
pub proof fn law_items_of_args(v: Seq<u8>)
    ensures
        args_of(v) matches Some(items) ==> v == items_bytes(items) && forall|i: int|
            0 <= i < items.len() ==> (#[trigger] items[i]).len() <= 0xFFFF_FFFF,
    decreases v.len(),
{
    if v.len() == 0 {
        assert(v =~= items_bytes(seq![]));
    } else if v.len() >= 4 {
        let l = num32(v.subrange(0, 4)) as int;
        if v.len() - 4 >= l {
            let rest = v.skip(4 + l);
            law_items_of_args(rest);
            if let Some(later) = args_of(rest) {
                let first = v.subrange(4, 4 + l);
                let items = seq![first] + later;
                law_be32_of_num32(v.subrange(0, 4));
                assert(items.drop_first() =~= later);
                lemma_items_bytes_first(items);
                assert(v =~= item_bytes(first) + rest);
                assert forall|i: int| 0 <= i < items.len() implies (#[trigger] items[i]).len()
                    <= 0xFFFF_FFFF by {
                    if i > 0 {
                        assert(items[i] == later[i - 1]);
                    }
                }
            }
        }
    }
}

/// Splitting off the first of a series of written items.
proof fn lemma_args_of_first(first: Seq<u8>, rest: Seq<u8>)
    requires
        first.len() <= 0xFFFF_FFFF,
    ensures
        args_of(item_bytes(first) + rest) == (match args_of(rest) {
            Some(args) => Some(seq![first] + args),
            None => None,
        }),
{
    let v = item_bytes(first) + rest;
    let head = be32(first.len() as int);
    let l = first.len() as int;
    law_num32_of_be32(l);
    assert(head.len() == 4);
    assert(v.subrange(0, 4) =~= head);
    assert(v.subrange(4, 4 + l) =~= first);
    assert(v.skip(4 + l) =~= rest);
    assert(num32(v.subrange(0, 4)) == l);
}

/// The first of a series of written items.
pub proof fn lemma_items_bytes_first(items: Seq<Seq<u8>>)
    requires
        items.len() > 0,
    ensures
        items_bytes(items) == item_bytes(items[0]) + items_bytes(items.drop_first()),
    decreases items.len(),
{
    if items.len() == 1 {
        assert(items.drop_last() =~= seq![]);
        assert(items.drop_first() =~= seq![]);
        assert(items_bytes(items) =~= item_bytes(items[0]) + items_bytes(items.drop_first()));
    } else {
        lemma_items_bytes_first(items.drop_last());
        assert(items.drop_last().drop_first() =~= items.drop_first().drop_last());
        assert(items_bytes(items) =~= item_bytes(items[0]) + items_bytes(items.drop_first()));
    }
}

/// One more written item.
pub proof fn lemma_items_bytes_push(items: Seq<Seq<u8>>, item: Seq<u8>)
    ensures
        items_bytes(items.push(item)) == items_bytes(items) + item_bytes(item),
{
    assert(items.push(item).drop_last() =~= items);
}

/// The accounted size of arguments is at most seven times what they take on the wire.
pub proof fn lemma_args_size(v: Seq<u8>)
    ensures
        args_of(v) matches Some(args) ==> total(item_sizes(args)) <= 7 * v.len() && args.len()
            <= v.len(),
    decreases v.len(),
{
    if v.len() >= 4 {
        let l = num32(v.subrange(0, 4)) as int;
        if v.len() - 4 >= l {
            lemma_args_size(v.skip(4 + l));
            if let Some(rest) = args_of(v.skip(4 + l)) {
                let arg = v.subrange(4, 4 + l);
                let args = seq![arg] + rest;
                assert(item_sizes(args) =~= item_sizes(seq![arg]) + item_sizes(rest));
                lemma_total_concat(item_sizes(seq![arg]), item_sizes(rest));
                assert(item_sizes(seq![arg]) =~= Seq::<nat>::empty().push((l + 24) as nat));
                lemma_total_push(seq![], (l + 24) as nat);
            }
        }
    } else {
        assert(item_sizes(seq![]) =~= seq![]);
    }
}

/// The actions that change stored state.
pub open spec fn mutating(action: u8) -> bool {
    action == ACT_SET || action == ACT_DEL || action == ACT_FLUSH || action == ACT_HSET || action
        == ACT_HDEL || action == ACT_LPUSH || action == ACT_RPUSH || action == ACT_LPOP || action
        == ACT_RPOP || action == ACT_SADD || action == ACT_SREM
}

/// True for the commands that change stored state — the ones the AOF must record.
/// Read-only commands and PUB/SUB are excluded.
pub fn is_mutating(action: u8) -> (r: bool)
    ensures
        r == mutating(action),
{
    action == ACT_SET || action == ACT_DEL || action == ACT_FLUSH || action == ACT_HSET || action
        == ACT_HDEL || action == ACT_LPUSH || action == ACT_RPUSH || action == ACT_LPOP || action
        == ACT_RPOP || action == ACT_SADD || action == ACT_SREM
}

/// What is written and read of a frame, byte by byte: the header of a frame that was encoded says
/// what was encoded, and the header of any frame is read by its bytes.
#[verifier::rlimit(40)]
pub proof fn law_headers(
    action: u8,
    key: &[u8],
    value: &[u8],
    ttl: u32,
    f: Vec<u8>,
    b: &[u8],
    h: (u8, usize, usize, u32),
)
    ensures
        call_ensures(encode_frame, (action, key, value, ttl), f) && key@.len() <= 0xFFFF
            && value@.len() <= 0xFFFF_FFFF ==> ({
            &&& f@.len() == 11 + key@.len() + value@.len()
            &&& f@[0] == action
            &&& f@[1] * 0x100 + f@[2] == key@.len()
            &&& f@[3] * 0x100_0000 + f@[4] * 0x1_0000 + f@[5] * 0x100 + f@[6] == value@.len()
            &&& f@[7] * 0x100_0000 + f@[8] * 0x1_0000 + f@[9] * 0x100 + f@[10] == ttl
            &&& f@.skip(11) == key@ + value@
        }),
        call_ensures(decode_header, (b,), h) && b@.len() >= 11 ==> ({
            &&& h.0 == b@[0]
            &&& h.1 == b@[1] * 0x100 + b@[2]
            &&& h.2 == b@[3] * 0x100_0000 + b@[4] * 0x1_0000 + b@[5] * 0x100 + b@[6]
            &&& h.3 == b@[7] * 0x100_0000 + b@[8] * 0x1_0000 + b@[9] * 0x100 + b@[10]
        }),
{
    if key@.len() <= 0xFFFF && value@.len() <= 0xFFFF_FFFF {
        law_frame_layout(action, key@, value@, ttl);
        assert(frame_bytes(action, key@, value@, ttl).skip(11) =~= key@ + value@);
    }
    if b@.len() >= 11 {
        let (k, v, t) = (b@.subrange(1, 3), b@.subrange(3, 7), b@.subrange(7, 11));
        law_fields_are_big_endian(k);
        law_fields_are_big_endian(v);
        law_fields_are_big_endian(t);
        assert(k[0] == b@[1] && k[1] == b@[2]);
        assert(v[0] == b@[3] && v[1] == b@[4] && v[2] == b@[5] && v[3] == b@[6]);
        assert(t[0] == b@[7] && t[1] == b@[8] && t[2] == b@[9] && t[3] == b@[10]);
    }
}

} // verus!
