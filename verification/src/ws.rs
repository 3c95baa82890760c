//! WebSocket frames and handshake (RFC 6455).
use vstd::prelude::*;
use vstd::utf8::encode_utf8;

use crate::base64::{base64, base64_of, law_base64_round_trip, unbase64};
use crate::bytes::{
    append, be16, be64, get_be16, get_be64, law_be64_layout, law_fields_are_big_endian,
    law_most_significant_byte_first, law_num16_of_be16, law_num64_of_be64, num16, num64, part,
    put_be16, put_be64, to_vec,
};
use crate::protocol::MAX_FRAME_BODY;
use crate::sha1::{law_digest_len, sha1, sha1_of};
use crate::text::{from_chars, law_trimmed, to_chars, trim, trimmed, white};

verus! {

pub const WS_TEXT: u8 = 0x1;

pub const WS_BIN: u8 = 0x2;

pub const WS_CLOSE: u8 = 0x8;

pub const WS_PING: u8 = 0x9;

pub const WS_PONG: u8 = 0xA;

/// The text that the handshake appends to the client's key.
pub open spec fn handshake_suffix() -> Seq<char> {
    "258EAFA5-E914-47DA-95CA-C5AB0DC85B11"@
}

/// The accept key for a client's key.
pub open spec fn accept_of(client_key: Seq<char>) -> Seq<char> {
    base64_of(sha1_of(encode_utf8(trimmed(client_key)) + encode_utf8(handshake_suffix())))
}

/// Compute `Sec-WebSocket-Accept` from the client's `Sec-WebSocket-Key`.
pub fn ws_accept(client_key: &str) -> (r: String)
    ensures
        r@ == accept_of(client_key@),
{
    let key: Vec<char> = to_chars(client_key);
    let bare: String = from_chars(trim(key.as_slice()));
    let mut buf: Vec<u8> = to_vec(bare.as_str().as_bytes());
    append(&mut buf, "258EAFA5-E914-47DA-95CA-C5AB0DC85B11".as_bytes());
    let digest: [u8; 20] = sha1(buf.as_slice());
    base64(digest.as_slice())
}

/// The accept key of the handshake (RFC 6455 §4.2.2): decoding it gives the SHA-1 digest of
/// all of the client's key, followed by the fixed 36 characters. White space around the key
/// does not count.
#[verifier::spinoff_prover]
#[verifier::rlimit(40)]
pub proof fn law_accept_key(before: Seq<char>, key: Seq<char>, after: Seq<char>)
    requires
        key.len() > 0 ==> !white(key[0]) && !white(key.last()),
        forall|i: int| 0 <= i < before.len() ==> white(#[trigger] before[i]),
        forall|i: int| 0 <= i < after.len() ==> white(#[trigger] after[i]),
    ensures
        unbase64(accept_of(key)) == sha1_of(
            encode_utf8(key) + encode_utf8("258EAFA5-E914-47DA-95CA-C5AB0DC85B11"@),
        ),
        accept_of(key).len() == 28,
        accept_of(before + key + after) == accept_of(key),
{
    let hashed = encode_utf8(key) + encode_utf8("258EAFA5-E914-47DA-95CA-C5AB0DC85B11"@);
    law_trimmed(before, key, after);
    law_digest_len(hashed);
    law_base64_round_trip(sha1_of(hashed));
}

/// The length field of a frame: 7, 16 or 64 bits.
pub open spec fn ws_length(len: nat) -> Seq<u8> {
    if len < 126 {
        seq![len as u8]
    } else if len <= 0xFFFF {
        seq![126u8] + be16(len as int)
    } else {
        seq![127u8] + be64(len as int)
    }
}

/// A server→client frame: FIN set, not masked.
pub open spec fn ws_frame(opcode: u8, payload: Seq<u8>) -> Seq<u8> {
    seq![(128 + opcode % 16) as u8] + ws_length(payload.len()) + payload
}

/// Build a server→client WebSocket frame: FIN set, **never masked**, with the
/// 7 / 16 / 64-bit length encoding per RFC 6455 §5.2.
pub fn encode_ws(opcode: u8, payload: &[u8]) -> (f: Vec<u8>)
    ensures
        f@ == ws_frame(opcode, payload@),
{
    let mut f: Vec<u8> = Vec::new();
    f.push(128 + opcode % 16);
    let len: usize = payload.len();
    if len < 126 {
        f.push(len as u8);
    } else if len <= 0xFFFF {
        f.push(126);
        put_be16(&mut f, len as u64);
    } else {
        f.push(127);
        put_be64(&mut f, len as u64);
    }
    append(&mut f, payload);
    assert(f@ =~= ws_frame(opcode, payload@));
    f
}

/// The number of bytes of an extended length.
pub open spec fn extension(b: Seq<u8>) -> int {
    if b[1] % 128 == 126 {
        2
    } else if b[1] % 128 == 127 {
        8
    } else {
        0
    }
}

/// Whether a frame is masked.
pub open spec fn masked(b: Seq<u8>) -> bool {
    b[1] >= 128
}

/// The length of a frame's payload.
pub open spec fn payload_len(b: Seq<u8>) -> nat {
    if b[1] % 128 == 126 {
        num16(b.subrange(2, 4))
    } else if b[1] % 128 == 127 {
        num64(b.subrange(2, 10))
    } else {
        (b[1] % 128) as nat
    }
}

/// The length of a frame's header.
pub open spec fn ws_head_len(b: Seq<u8>) -> int {
    2 + extension(b) + (if masked(b) {
        4int
    } else {
        0
    })
}

/// How far a frame has arrived.
#[derive(Clone, Copy, Debug, PartialEq, Eq, Structural)]
pub enum WsProgress {
    /// So many more bytes are needed to see further.
    Need(usize),
    /// The frame advertises an absurd length.
    TooLong,
    /// The frame is there.
    Whole,
}

/// How far the frame in `b` has arrived.
pub open spec fn ws_progress(b: Seq<u8>) -> WsProgress {
    if b.len() < 2 {
        WsProgress::Need((2 - b.len()) as usize)
    } else if b.len() < 2 + extension(b) {
        WsProgress::Need((2 + extension(b) - b.len()) as usize)
    } else if payload_len(b) > MAX_FRAME_BODY {
        WsProgress::TooLong
    } else if b.len() < ws_head_len(b) {
        WsProgress::Need((ws_head_len(b) - b.len()) as usize)
    } else if b.len() < ws_head_len(b) + payload_len(b) {
        WsProgress::Need((ws_head_len(b) + payload_len(b) - b.len()) as usize)
    } else {
        WsProgress::Whole
    }
}

/// How far the frame in `b` has arrived: the reader asks for the two bytes of the fixed
/// header, the extended length, the mask and the payload in turn.
pub fn ws_read(b: &[u8]) -> (r: WsProgress)
    ensures
        r == ws_progress(b@),
{
    let n: usize = b.len();
    if n < 2 {
        return WsProgress::Need(2 - n);
    }
    let short: u8 = b[1] % 128;
    let ext: usize = if short == 126 {
        2
    } else if short == 127 {
        8
    } else {
        0
    };
    if n < 2 + ext {
        return WsProgress::Need(2 + ext - n);
    }
    let len: u64 = if short == 126 {
        get_be16(b, 2) as u64
    } else if short == 127 {
        get_be64(b, 2)
    } else {
        short as u64
    };
    if len > MAX_FRAME_BODY as u64 {
        return WsProgress::TooLong;
    }
    let head: usize = if b[1] >= 128 {
        2 + ext + 4
    } else {
        2 + ext
    };
    if n < head {
        return WsProgress::Need(head - n);
    }
    if n < head + len as usize {
        return WsProgress::Need(head + len as usize - n);
    }
    WsProgress::Whole
}

/// A payload with its mask applied.
pub open spec fn unmasked(payload: Seq<u8>, mask: Seq<u8>) -> Seq<u8> {
    Seq::new(payload.len(), |i: int| payload[i] ^ mask[i % 4])
}

/// The payload of a frame.
pub open spec fn ws_payload(b: Seq<u8>) -> Seq<u8> {
    let head = ws_head_len(b);
    let raw = b.subrange(head, head + payload_len(b));
    if masked(b) {
        unmasked(raw, b.subrange(head - 4, head))
    } else {
        raw
    }
}

/// The opcode and payload of a frame that has arrived. Client frames are masked; the mask
/// is taken off.
pub fn ws_message(b: &[u8]) -> (r: (u8, Vec<u8>))
    requires
        ws_progress(b@) == WsProgress::Whole,
    ensures
        r.0 == b@[0] % 16,
        r.1@ == ws_payload(b@),
{
    let short: u8 = b[1] % 128;
    let (ext, len): (usize, usize) = if short == 126 {
        (2, get_be16(b, 2) as usize)
    } else if short == 127 {
        (8, get_be64(b, 2) as usize)
    } else {
        (0, short as usize)
    };
    let head: usize = if b[1] >= 128 {
        2 + ext + 4
    } else {
        2 + ext
    };
    let raw: &[u8] = part(b, head, head + len);
    if b[1] >= 128 {
        let mask: &[u8] = part(b, head - 4, head);
        let mut out: Vec<u8> = Vec::new();
        let mut i: usize = 0;
        while i < len
            invariant
                i <= len,
                raw@.len() == len,
                mask@.len() == 4,
                out@ == unmasked(raw@, mask@).take(i as int),
            decreases len - i,
        {
            out.push(raw[i] ^ mask[i % 4]);
            assert(out@ =~= unmasked(raw@, mask@).take(i + 1));
            i += 1;
        }
        assert(out@ =~= unmasked(raw@, mask@));
        (b[0] % 16, out)
    } else {
        (b[0] % 16, to_vec(raw))
    }
}

/// What a client's frame asks for.
pub enum WsEvent {
    /// End the connection.
    Close,
    /// Answer with a pong that carries the payload.
    Ping(Vec<u8>),
    /// Subscribe to a channel.
    Subscribe(Vec<u8>),
    /// Nothing.
    Ignore,
}

/// What a client's frame asks for.
#[verifier::ext_equal]
pub enum WsEventView {
    Close,
    Ping(Seq<u8>),
    Subscribe(Seq<u8>),
    Ignore,
}

impl View for WsEvent {
    type V = WsEventView;

    open spec fn view(&self) -> WsEventView {
        match self {
            WsEvent::Close => WsEventView::Close,
            WsEvent::Ping(p) => WsEventView::Ping(p@),
            WsEvent::Subscribe(c) => WsEventView::Subscribe(c@),
            WsEvent::Ignore => WsEventView::Ignore,
        }
    }
}

/// A text/binary frame naming a channel is a subscribe request; pongs and reserved opcodes
/// are ignored.
pub open spec fn ws_event_of(opcode: u8, payload: Seq<u8>) -> WsEventView {
    if opcode == WS_CLOSE {
        WsEventView::Close
    } else if opcode == WS_PING {
        WsEventView::Ping(payload)
    } else if (opcode == WS_TEXT || opcode == WS_BIN) && payload.len() > 0 {
        WsEventView::Subscribe(payload)
    } else {
        WsEventView::Ignore
    }
}

/// What a client's frame asks for.
pub fn ws_event(opcode: u8, payload: Vec<u8>) -> (r: WsEvent)
    ensures
        r@ == ws_event_of(opcode, payload@),
{
    if opcode == WS_CLOSE {
        WsEvent::Close
    } else if opcode == WS_PING {
        WsEvent::Ping(payload)
    } else if (opcode == WS_TEXT || opcode == WS_BIN) && payload.len() > 0 {
        WsEvent::Subscribe(payload)
    } else {
        WsEvent::Ignore
    }
}

/// The frame that answers what a client asks for: a pong carries the payload of the ping,
/// and a close is returned.
pub open spec fn ws_answer_of(e: WsEventView) -> Option<Seq<u8>> {
    match e {
        WsEventView::Ping(p) => Some(ws_frame(WS_PONG, p)),
        WsEventView::Close => Some(ws_frame(WS_CLOSE, seq![])),
        _ => None,
    }
}

/// The frame that answers what a client asks for, if there is one.
pub fn ws_answer(e: &WsEvent) -> (r: Option<Vec<u8>>)
    ensures
        match r {
            Some(f) => ws_answer_of(e@) == Some(f@),
            None => ws_answer_of(e@) is None,
        },
{
    match e {
        WsEvent::Ping(p) => Some(encode_ws(WS_PONG, p.as_slice())),
        WsEvent::Close => {
            let none: Vec<u8> = Vec::new();
            assert(none@ =~= seq![]);
            Some(encode_ws(WS_CLOSE, none.as_slice()))
        },
        _ => None,
    }
}

/// The frame that carries a published payload to a subscriber.
pub fn ws_delivery(payload: &[u8]) -> (f: Vec<u8>)
    ensures
        f@ == ws_frame(WS_BIN, payload@),
{
    encode_ws(WS_BIN, payload)
}

/// The frame that carries the statistics.
pub fn ws_stats(json: &str) -> (f: Vec<u8>)
    ensures
        f@ == ws_frame(WS_TEXT, encode_utf8(json@)),
{
    encode_ws(WS_TEXT, json.as_bytes())
}

/// The bytes of a server frame: FIN and the opcode; a length of 7 bits, or of 16 bits after 126,
/// or of 64 bits after 127, most significant byte first, the shortest that will do, and no
/// mask; then the payload.
#[verifier::rlimit(40)]
pub proof fn law_ws_frame_layout(opcode: u8, payload: Seq<u8>)
    requires
        payload.len() < 0x8000_0000_0000_0000,
    ensures
        ({
            let f = ws_frame(opcode, payload);
            let n = payload.len();
            &&& f[0] == 0x80 + opcode % 16
            &&& n < 126 ==> f.len() == 2 + n && f[1] == n && f.skip(2) == payload
            &&& 126 <= n < 0x1_0000 ==> f.len() == 4 + n && f[1] == 126 && f[2] * 0x100 + f[3] == n
                && f.skip(4) == payload
            &&& 0x1_0000 <= n ==> f.len() == 10 + n && f[1] == 127 && (f[2] * 0x100_0000 + f[3]
                * 0x1_0000 + f[4] * 0x100 + f[5]) * 0x1_0000_0000 + f[6] * 0x100_0000 + f[7]
                * 0x1_0000 + f[8] * 0x100 + f[9] == n && f.skip(10) == payload
        }),
{
    let f = ws_frame(opcode, payload);
    let n = payload.len() as int;
    assert(f[0] == (128 + opcode % 16) as u8);
    if n < 126 {
        assert(f.skip(2) =~= payload);
    } else if n < 0x1_0000 {
        law_most_significant_byte_first(n);
        assert(f.skip(4) =~= payload);
    } else {
        law_be64_layout(n);
        let b = be64(n);
        assert(f[2] == b[0] && f[3] == b[1] && f[4] == b[2] && f[5] == b[3]);
        assert(f[6] == b[4] && f[7] == b[5] && f[8] == b[6] && f[9] == b[7]);
        assert(f.skip(10) =~= payload);
    }
}

/// A client's frame that has not arrived in full is waited for: the reader asks for at least
/// one byte more, and never for more than the frame has.
#[verifier::rlimit(40)]
pub proof fn law_torn_frame_is_waited_for(opcode: u8, payload: Seq<u8>, mask: Seq<u8>, n: int)
    requires
        payload.len() <= MAX_FRAME_BODY,
        mask.len() == 4,
        0 <= n < client_frame(opcode, payload, mask).len(),
    ensures
        ws_progress(client_frame(opcode, payload, mask).take(n)) matches WsProgress::Need(k) && 0
            < k <= client_frame(opcode, payload, mask).len() - n,
{
    let f = client_frame(opcode, payload, mask);
    let b = f.take(n);
    law_client_frame_round_trip(opcode, payload, mask);
    assert(f.len() == ws_head_len(f) + payload_len(f)) by {
        let length = ws_length(payload.len());
        assert(f[1] == (128 + length[0]) as u8);
        assert(f.len() == 1 + length.len() + 4 + payload.len());
        if payload.len() < 126 {
        } else if payload.len() <= 0xFFFF {
            law_num16_of_be16(payload.len() as int);
            assert(f.subrange(2, 4) =~= be16(payload.len() as int));
        } else {
            law_num64_of_be64(payload.len() as int);
            assert(f.subrange(2, 10) =~= be64(payload.len() as int));
        }
    }
    if n >= 2 {
        assert(b[1] == f[1]);
        if n >= 2 + extension(f) {
            if extension(f) == 2 {
                assert(b.subrange(2, 4) =~= f.subrange(2, 4));
            }
            if extension(f) == 8 {
                assert(b.subrange(2, 10) =~= f.subrange(2, 10));
            }
        }
    }
}

/// What a client sends and what it is sent back: a close (8) is answered by a close, a ping
/// (9) by a pong (10) that carries the same payload; a text (1) or a binary frame (2) names
/// a channel to subscribe to, if it holds anything; all else is passed over in silence.
pub proof fn law_ws_conversation(opcode: u8, payload: Seq<u8>)
    requires
        payload.len() <= MAX_FRAME_BODY,
    ensures
        ({
            let e = ws_event_of(opcode, payload);
            let reply = ws_answer_of(e);
            &&& opcode == 8 <==> e == WsEventView::Close
            &&& opcode == 9 <==> e is Ping
            &&& (opcode == 1 || opcode == 2) && payload.len() > 0 <==> e is Subscribe
            &&& e matches WsEventView::Subscribe(channel) ==> channel == payload
            &&& opcode == 8 ==> reply == Some(seq![0x88u8, 0x00u8])
            &&& opcode == 9 ==> (reply matches Some(f) && f[0] == 0x8A && ws_payload(f) == payload)
            &&& opcode != 8 && opcode != 9 ==> reply is None
        }),
{
    law_ws_round_trip(10, payload);
    assert(ws_frame(8, seq![]) =~= seq![0x88u8, 0x00u8]);
}

/// Masking twice with the same mask gives back the payload.
pub proof fn law_unmask_undoes_mask(payload: Seq<u8>, mask: Seq<u8>)
    requires
        mask.len() == 4,
    ensures
        unmasked(unmasked(payload, mask), mask) == payload,
{
    assert forall|i: int| 0 <= i < payload.len() implies #[trigger] unmasked(
        unmasked(payload, mask),
        mask,
    )[i] == payload[i] by {
        let x = payload[i];
        let m = mask[i % 4];
        assert((x ^ m) ^ m == x) by (bit_vector);
    }
    assert(unmasked(unmasked(payload, mask), mask) =~= payload);
}

/// A frame built by the server is read back as the opcode and payload it was built from.
pub proof fn law_ws_round_trip(opcode: u8, payload: Seq<u8>)
    requires
        payload.len() <= MAX_FRAME_BODY,
    ensures
        ws_progress(ws_frame(opcode, payload)) == WsProgress::Whole,
        ws_frame(opcode, payload)[0] % 16 == opcode % 16,
        ws_payload(ws_frame(opcode, payload)) == payload,
        !masked(ws_frame(opcode, payload)),
        ws_frame(opcode, payload)[0] >= 128,
{
    let f = ws_frame(opcode, payload);
    let n = payload.len();
    assert(f[0] == (128 + opcode % 16) as u8);
    if n < 126 {
        assert(f[1] == n);
    } else if n <= 0xFFFF {
        assert(f[1] == 126);
        law_num16_of_be16(n as int);
        assert(f.subrange(2, 4) =~= be16(n as int));
    } else {
        assert(f[1] == 127);
        law_num64_of_be64(n as int);
        assert(f.subrange(2, 10) =~= be64(n as int));
    }
    let head = ws_head_len(f);
    assert(payload_len(f) == n);
    assert(f.subrange(head, head + payload_len(f)) =~= payload);
}

/// A frame as a client sends it: masked.
pub open spec fn client_frame(opcode: u8, payload: Seq<u8>, mask: Seq<u8>) -> Seq<u8> {
    let length = ws_length(payload.len());
    seq![(128 + opcode % 16) as u8, (128 + length[0]) as u8] + length.skip(1) + mask + unmasked(
        payload,
        mask,
    )
}

/// A frame sent by a client is read as the opcode and payload that it was built from,
/// whatever the mask.
pub proof fn law_client_frame_round_trip(opcode: u8, payload: Seq<u8>, mask: Seq<u8>)
    requires
        payload.len() <= MAX_FRAME_BODY,
        mask.len() == 4,
    ensures
        ws_progress(client_frame(opcode, payload, mask)) == WsProgress::Whole,
        client_frame(opcode, payload, mask)[0] % 16 == opcode % 16,
        ws_payload(client_frame(opcode, payload, mask)) == payload,
        masked(client_frame(opcode, payload, mask)),
{
    let f = client_frame(opcode, payload, mask);
    let n = payload.len();
    let length = ws_length(n);
    assert(f[0] == (128 + opcode % 16) as u8);
    assert(f[1] == (128 + length[0]) as u8);
    if n < 126 {
        assert(length[0] == n);
    } else if n <= 0xFFFF {
        assert(length[0] == 126);
        law_num16_of_be16(n as int);
        assert(f.subrange(2, 4) =~= be16(n as int));
    } else {
        assert(length[0] == 127);
        law_num64_of_be64(n as int);
        assert(f.subrange(2, 10) =~= be64(n as int));
    }
    let head = ws_head_len(f);
    assert(payload_len(f) == n);
    assert(f.subrange(head - 4, head) =~= mask);
    assert(f.subrange(head, head + n) =~= unmasked(payload, mask));
    law_unmask_undoes_mask(payload, mask);
}

/// How a client's payload is read, byte by byte: each byte with the one of the four bytes of the
/// mask whose turn it is; the mask stands between the length and the payload.
pub proof fn law_payload_byte(b: Seq<u8>, i: int)
    requires
        b.len() >= 2,
        ws_progress(b) == WsProgress::Whole,
        0 <= i < payload_len(b),
    ensures
        ({
            let head = 2 + (if b[1] % 128 == 126 {
                2int
            } else if b[1] % 128 == 127 {
                8
            } else {
                0
            });
            &&& ws_payload(b).len() == payload_len(b)
            &&& b[1] >= 128 ==> ws_payload(b)[i] == b[head + 4 + i] ^ b[head + i % 4]
            &&& b[1] < 128 ==> ws_payload(b)[i] == b[head + i]
        }),
{
    let head = ws_head_len(b);
    let raw = b.subrange(head, head + payload_len(b));
    if b[1] >= 128 {
        let mask = b.subrange(head - 4, head);
        assert(raw[i] == b[head + i]);
        assert(mask[i % 4] == b[head - 4 + i % 4]);
    }
}

/// A frame that announces more than 64 MiB is refused as soon as its length is there; no other
/// frame is.
pub proof fn law_ws_too_long(b: Seq<u8>)
    requires
        b.len() >= 10,
    ensures
        ws_progress(b) == WsProgress::TooLong <==> b[1] % 128 == 127 && (b[2] * 0x100_0000 + b[3]
            * 0x1_0000 + b[4] * 0x100 + b[5]) * 0x1_0000_0000 + b[6] * 0x100_0000 + b[7] * 0x1_0000
            + b[8] * 0x100 + b[9] > 0x400_0000,
{
    let s = b.subrange(2, 10);
    let (x, y) = (s.subrange(0, 4), s.subrange(4, 8));
    law_fields_are_big_endian(x);
    law_fields_are_big_endian(y);
    law_fields_are_big_endian(b.subrange(2, 4));
    assert(x[0] == b[2] && x[1] == b[3] && x[2] == b[4] && x[3] == b[5]);
    assert(y[0] == b[6] && y[1] == b[7] && y[2] == b[8] && y[3] == b[9]);
}

/// What is pushed to a WebSocket: a published payload in a binary frame, the statistics in a text
/// frame.
pub proof fn law_pushes(payload: &[u8], f: Vec<u8>, json: &str, g: Vec<u8>)
    requires
        call_ensures(ws_delivery, (payload,), f),
        call_ensures(ws_stats, (json,), g),
        payload@.len() <= MAX_FRAME_BODY,
        encode_utf8(json@).len() <= MAX_FRAME_BODY,
    ensures
        f@[0] == 0x82,
        ws_payload(f@) == payload@,
        g@[0] == 0x81,
        ws_payload(g@) == encode_utf8(json@),
{
    law_ws_round_trip(2, payload@);
    law_ws_round_trip(1, encode_utf8(json@));
}

/// What a client checks in the handshake: the accept key that it is sent for its key decodes to
/// the digest of the whole key and the fixed characters.
#[verifier::spinoff_prover]
#[verifier::rlimit(40)]
pub proof fn law_handshake(key: &str, r: String)
    requires
        call_ensures(ws_accept, (key,), r),
        key@.len() > 0 ==> !white(key@[0]) && !white(key@.last()),
    ensures
        unbase64(r@) == sha1_of(
            encode_utf8(key@) + encode_utf8("258EAFA5-E914-47DA-95CA-C5AB0DC85B11"@),
        ),
{
    law_accept_key(seq![], key@, seq![]);
}

} // verus!
