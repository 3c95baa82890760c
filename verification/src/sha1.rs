//! SHA-1 (RFC 3174), which the WebSocket handshake needs.
use vstd::prelude::*;

use crate::bytes::{
    be32, be64, get_be32, law_fields_are_big_endian, law_num64_of_be64, num32, num64, part,
    put_be32, put_be64, to_vec,
};

verus! {

/// The circular left shift of RFC 3174 by `n` bits, 0 < n < 32.
pub open spec fn rotl(x: u32, n: u32) -> u32 {
    (x << n) | (x >> ((32 - n) as u32))
}

/// Addition modulo 2^32.
pub open spec fn plus(a: u32, b: u32) -> u32 {
    ((a + b) % 4294967296) as u32
}

/// The message padded to whole blocks of 64 bytes: a one bit, zeros, and the length in bits.
pub open spec fn padded(msg: Seq<u8>) -> Seq<u8> {
    let n = msg.len() as int + 1;
    msg.push(0x80) + Seq::new(((120 - n % 64) % 64) as nat, |i: int| 0u8) + be64(
        (8 * msg.len()) as int % 18446744073709551616,
    )
}

/// Word `t` of the schedule of a block: the sixteen words of the block, then mixtures of
/// earlier words.
pub open spec fn word(block: Seq<u8>, t: int) -> u32
    decreases t,
{
    if t < 16 {
        num32(block.subrange(4 * t, 4 * t + 4)) as u32
    } else {
        rotl(
            word(block, t - 3) ^ word(block, t - 8) ^ word(block, t - 14) ^ word(block, t - 16),
            1,
        )
    }
}

/// The five words of the state.
#[verifier::ext_equal]
pub struct State {
    pub a: u32,
    pub b: u32,
    pub c: u32,
    pub d: u32,
    pub e: u32,
}

/// The logical function of round `t`.
pub open spec fn mix(t: int, b: u32, c: u32, d: u32) -> u32 {
    if t < 20 {
        (b & c) | ((!b) & d)
    } else if t < 40 {
        b ^ c ^ d
    } else if t < 60 {
        (b & c) | (b & d) | (c & d)
    } else {
        b ^ c ^ d
    }
}

/// The constant of round `t`.
pub open spec fn round_constant(t: int) -> u32 {
    if t < 20 {
        0x5A827999
    } else if t < 40 {
        0x6ED9EBA1
    } else if t < 60 {
        0x8F1BBCDC
    } else {
        0xCA62C1D6
    }
}

/// The state after round `t`.
pub open spec fn round(s: State, t: int, w: u32) -> State {
    State {
        a: plus(plus(plus(plus(rotl(s.a, 5), mix(t, s.b, s.c, s.d)), s.e), round_constant(t)), w),
        b: s.a,
        c: rotl(s.b, 30),
        d: s.c,
        e: s.d,
    }
}

/// The state after the first `n` rounds on a block.
pub open spec fn rounds(s: State, block: Seq<u8>, n: nat) -> State
    decreases n,
{
    if n == 0 {
        s
    } else {
        round(rounds(s, block, (n - 1) as nat), n - 1, word(block, n - 1))
    }
}

/// The state after a block.
pub open spec fn absorbed(s: State, block: Seq<u8>) -> State {
    let r = rounds(s, block, 80);
    State {
        a: plus(s.a, r.a),
        b: plus(s.b, r.b),
        c: plus(s.c, r.c),
        d: plus(s.d, r.d),
        e: plus(s.e, r.e),
    }
}

/// The state at the start.
pub open spec fn initial() -> State {
    State { a: 0x67452301, b: 0xEFCDAB89, c: 0x98BADCFE, d: 0x10325476, e: 0xC3D2E1F0 }
}

/// The state after the first `n` blocks.
pub open spec fn digested(data: Seq<u8>, n: nat) -> State
    decreases n,
{
    if n == 0 {
        initial()
    } else {
        absorbed(digested(data, (n - 1) as nat), data.subrange(64 * (n - 1), 64 * (n as int)))
    }
}

/// The SHA-1 digest of a message.
pub open spec fn sha1_of(msg: Seq<u8>) -> Seq<u8> {
    let data = padded(msg);
    state_bytes(digested(data, data.len() / 64))
}

fn rotate(x: u32, n: u32) -> (r: u32)
    requires
        0 < n < 32,
    ensures
        r == rotl(x, n),
{
    (x << n) | (x >> (32 - n))
}

/// The schedule of a block.
fn schedule(block: &[u8]) -> (w: Vec<u32>)
    requires
        block@.len() == 64,
    ensures
        w@.len() == 80,
        forall|t: int| 0 <= t < 80 ==> #[trigger] w@[t] == word(block@, t),
{
    let mut w: Vec<u32> = Vec::new();
    let mut t: usize = 0;
    while t < 16
        invariant
            t <= 16,
            block@.len() == 64,
            w@.len() == t,
            forall|i: int| 0 <= i < t ==> #[trigger] w@[i] == word(block@, i),
        decreases 16 - t,
    {
        w.push(get_be32(block, t * 4));
        t += 1;
    }
    while t < 80
        invariant
            16 <= t <= 80,
            w@.len() == t,
            forall|i: int| 0 <= i < t ==> #[trigger] w@[i] == word(block@, i),
        decreases 80 - t,
    {
        w.push(rotate(w[t - 3] ^ w[t - 8] ^ w[t - 14] ^ w[t - 16], 1));
        t += 1;
    }
    w
}

/// Addition modulo 2^32.
fn plus32(a: u32, b: u32) -> (r: u32)
    ensures
        r == plus(a, b),
{
    a.wrapping_add(b)
}

/// One round.
fn do_round(s: &State, t: usize, w: u32) -> (r: State)
    ensures
        r == round(*s, t as int, w),
{
    let (f, k): (u32, u32) = if t < 20 {
        ((s.b & s.c) | ((!s.b) & s.d), 0x5A827999u32)
    } else if t < 40 {
        (s.b ^ s.c ^ s.d, 0x6ED9EBA1u32)
    } else if t < 60 {
        ((s.b & s.c) | (s.b & s.d) | (s.c & s.d), 0x8F1BBCDCu32)
    } else {
        (s.b ^ s.c ^ s.d, 0xCA62C1D6u32)
    };
    let a: u32 = plus32(plus32(plus32(plus32(rotate(s.a, 5), f), s.e), k), w);
    State { a, b: s.a, c: rotate(s.b, 30), d: s.c, e: s.d }
}

/// Takes a block into the state.
fn absorb(s: &State, block: &[u8]) -> (r: State)
    requires
        block@.len() == 64,
    ensures
        r == absorbed(*s, block@),
{
    let w: Vec<u32> = schedule(block);
    let mut v: State = State { a: s.a, b: s.b, c: s.c, d: s.d, e: s.e };
    let mut i: usize = 0;
    while i < 80
        invariant
            i <= 80,
            w@.len() == 80,
            forall|t: int| 0 <= t < 80 ==> #[trigger] w@[t] == word(block@, t),
            v == rounds(*s, block@, i as nat),
        decreases 80 - i,
    {
        v = do_round(&v, i, w[i]);
        i += 1;
    }
    State {
        a: plus32(s.a, v.a),
        b: plus32(s.b, v.b),
        c: plus32(s.c, v.c),
        d: plus32(s.d, v.d),
        e: plus32(s.e, v.e),
    }
}

/// The message padded to whole blocks.
fn pad(msg: &[u8]) -> (data: Vec<u8>)
    ensures
        data@ == padded(msg@),
{
    let mut data: Vec<u8> = to_vec(msg);
    data.push(0x80);
    let ghost start = data@;
    let ghost n = start.len() as int;
    let ghost zeros = (120 - n % 64) % 64;
    let ghost mut done: int = 0;
    assert(data@ =~= start + Seq::new(0, |i: int| 0u8));
    while data.len() % 64 != 56
        invariant
            n == start.len(),
            zeros == (120 - n % 64) % 64,
            0 <= done <= zeros,
            data@ == start + Seq::new(done as nat, |i: int| 0u8),
        decreases zeros - done,
    {
        data.push(0);
        proof {
            done = done + 1;
            assert(data@ =~= start + Seq::new(done as nat, |i: int| 0u8));
        }
    }
    assert(done == zeros);
    let bits: u64 = (msg.len() as u64).wrapping_mul(8);
    put_be64(&mut data, bits);
    assert(data@ =~= padded(msg@));
    data
}

/// The digest that a state stands for.
pub open spec fn state_bytes(s: State) -> Seq<u8> {
    be32(s.a as int) + be32(s.b as int) + be32(s.c as int) + be32(s.d as int) + be32(s.e as int)
}

/// Five words of four bytes each, appended one after the other.
proof fn lemma_state_bytes(a: Seq<u8>, b: Seq<u8>, c: Seq<u8>, d: Seq<u8>, e: Seq<u8>)
    requires
        a.len() == 4,
        b.len() == 4,
        c.len() == 4,
        d.len() == 4,
        e.len() == 4,
    ensures
        Seq::<u8>::empty() + a + b + c + d + e == a + b + c + d + e,
        (a + b + c + d + e).len() == 20,
{
    assert(Seq::<u8>::empty() + a =~= a);
}

/// Writes out a state.
fn put_state(s: &State) -> (r: [u8; 20])
    ensures
        r@ == state_bytes(*s),
{
    let mut out: Vec<u8> = Vec::new();
    put_be32(&mut out, s.a as u64);
    put_be32(&mut out, s.b as u64);
    put_be32(&mut out, s.c as u64);
    put_be32(&mut out, s.d as u64);
    put_be32(&mut out, s.e as u64);
    proof {
        lemma_state_bytes(
            be32(s.a as int),
            be32(s.b as int),
            be32(s.c as int),
            be32(s.d as int),
            be32(s.e as int),
        );
    }
    twenty(&out)
}

fn twenty(out: &Vec<u8>) -> (r: [u8; 20])
    requires
        out@.len() == 20,
    ensures
        r@ == out@,
{
    let r: [u8; 20] = [
        out[0], out[1], out[2], out[3], out[4], out[5], out[6], out[7], out[8], out[9], out[10],
        out[11], out[12], out[13], out[14], out[15], out[16], out[17], out[18], out[19],
    ];
    assert(r@ =~= out@);
    r
}

/// RFC 3174 SHA-1. Only needed to compute the handshake accept key.
pub fn sha1(msg: &[u8]) -> (r: [u8; 20])
    ensures
        r@ == sha1_of(msg@),
{
    let data: Vec<u8> = pad(msg);
    let mut s: State = State {
        a: 0x67452301,
        b: 0xEFCDAB89,
        c: 0x98BADCFE,
        d: 0x10325476,
        e: 0xC3D2E1F0,
    };
    let count: usize = data.len() / 64;
    let mut i: usize = 0;
    while i < count
        invariant
            i <= count,
            64 * count <= data@.len(),
            s == digested(data@, i as nat),
        decreases count - i,
    {
        assert(data@.len() == data.len());
        s = absorb(&s, part(data.as_slice(), 64 * i, 64 * (i + 1)));
        i += 1;
    }
    put_state(&s)
}

/// A digest has 20 bytes.
pub proof fn law_digest_len(msg: Seq<u8>)
    ensures
        sha1_of(msg).len() == 20,
{
    let s = digested(padded(msg), padded(msg).len() / 64);
    lemma_state_bytes(
        be32(s.a as int),
        be32(s.b as int),
        be32(s.c as int),
        be32(s.d as int),
        be32(s.e as int),
    );
}

/// Each block of 64 bytes is absorbed in turn: what a message has in front of a block counts
/// by its state alone, and what follows does not count.
pub proof fn law_blocks_in_turn(data: Seq<u8>, block: Seq<u8>, rest: Seq<u8>)
    requires
        data.len() % 64 == 0,
        block.len() == 64,
    ensures
        digested(data + block + rest, data.len() / 64 + 1) == absorbed(
            digested(data, data.len() / 64),
            block,
        ),
{
    let n = data.len() / 64;
    let all = data + block + rest;
    assert(all.subrange(64 * n as int, 64 * (n + 1) as int) =~= block);
    lemma_digested_prefix(data, block + rest, n);
    assert(data + (block + rest) =~= all);
}

proof fn lemma_digested_prefix(data: Seq<u8>, rest: Seq<u8>, n: nat)
    requires
        64 * n <= data.len(),
    ensures
        digested(data + rest, n) == digested(data, n),
    decreases n,
{
    if n > 0 {
        let m = (n - 1) as nat;
        lemma_digested_prefix(data, rest, m);
        assert((data + rest).subrange(64 * m as int, 64 * n as int) =~= data.subrange(
            64 * m as int,
            64 * n as int,
        ));
    }
}

/// Padding with any eight bytes at the end.
proof fn lemma_padded(msg: Seq<u8>, zeros: Seq<u8>, bits: Seq<u8>)
    requires
        bits.len() == 8,
        zeros.len() == (120 - (msg.len() as int + 1) % 64) % 64,
    ensures
        ({
            let p = msg.push(0x80) + zeros + bits;
            &&& p.len() % 64 == 0
            &&& p.take(msg.len() as int) == msg
            &&& msg.len() < p.len() <= msg.len() + 72
        }),
{
    let p = msg.push(0x80) + zeros + bits;
    assert(p.len() == msg.len() + 1 + zeros.len() + 8);
    assert(p.take(msg.len() as int) =~= msg);
}

/// The padded message consists of whole blocks and begins with the message.
pub proof fn law_padded(msg: Seq<u8>)
    ensures
        padded(msg).len() % 64 == 0,
        padded(msg).take(msg.len() as int) == msg,
        msg.len() < padded(msg).len() <= msg.len() + 72,
{
    let n = msg.len() as int + 1;
    lemma_padded(
        msg,
        Seq::new(((120 - n % 64) % 64) as nat, |i: int| 0u8),
        be64((8 * msg.len()) as int % 18446744073709551616),
    );
}

/// What follows the message in its last blocks: the byte 0x80, zeros, and at the end the length of
/// the message in bits as a 64-bit number.
#[verifier::rlimit(40)]
pub proof fn law_padding(msg: Seq<u8>)
    ensures
        padded(msg)[msg.len() as int] == 0x80,
        forall|i: int| msg.len() < i < padded(msg).len() - 8 ==> #[trigger] padded(msg)[i] == 0,
        8 * msg.len() < 0x1_0000_0000_0000_0000 ==> num64(
            padded(msg).skip(padded(msg).len() - 8),
        ) == 8 * msg.len(),
{
    let n = msg.len() as int + 1;
    let bits = (8 * msg.len()) as int % 18446744073709551616;
    law_num64_of_be64(bits);
    lemma_padding(msg, Seq::new(((120 - n % 64) % 64) as nat, |i: int| 0u8), be64(bits));
}

/// Padding with zeros and any eight bytes.
proof fn lemma_padding(msg: Seq<u8>, zeros: Seq<u8>, bits: Seq<u8>)
    requires
        bits.len() == 8,
        forall|i: int| 0 <= i < zeros.len() ==> zeros[i] == 0,
    ensures
        ({
            let p = msg.push(0x80) + zeros + bits;
            &&& p[msg.len() as int] == 0x80
            &&& forall|i: int| msg.len() < i < p.len() - 8 ==> #[trigger] p[i] == 0
            &&& p.skip(p.len() - 8) == bits
        }),
{
    let p = msg.push(0x80) + zeros + bits;
    assert(p.skip(p.len() - 8) =~= bits);
    assert forall|i: int| msg.len() < i < p.len() - 8 implies #[trigger] p[i] == 0 by {
        assert(p[i] == zeros[i - msg.len() - 1]);
    }
}

/// Adding up modulo 2^32 step by step.
proof fn lemma_plus(x: int, y: int)
    requires
        0 <= x,
        0 <= y,
    ensures
        (x % 0x1_0000_0000 + y) % 0x1_0000_0000 == (x + y) % 0x1_0000_0000,
{
    let q = x / 0x1_0000_0000;
    assert(x == q * 0x1_0000_0000 + x % 0x1_0000_0000);
}

/// The sum of five words.
proof fn lemma_sum(a: u32, b: u32, c: u32, d: u32, e: u32)
    ensures
        plus(plus(plus(plus(a, b), c), d), e) == (a + b + c + d + e) % 0x1_0000_0000,
{
    lemma_plus(a + b, c as int);
    lemma_plus(a + b + c, d as int);
    lemma_plus(a + b + c + d, e as int);
}

/// One step of RFC 3174 §6.1: the new first word is the sum, modulo 2^32, of the old one turned
/// left by five bits, the function of this step, the fifth word, the word of the schedule and
/// the constant of this step; the others move on, the second one turned left by 30 bits.
#[verifier::rlimit(40)]
pub proof fn law_round(s: State, t: int, w: u32)
    requires
        0 <= t < 80,
    ensures
        ({
            let r = round(s, t, w);
            let f = if t < 20 {
                (s.b & s.c) | ((!s.b) & s.d)
            } else if 40 <= t < 60 {
                (s.b & s.c) | (s.b & s.d) | (s.c & s.d)
            } else {
                s.b ^ s.c ^ s.d
            };
            let k: int = if t < 20 {
                0x5A827999
            } else if t < 40 {
                0x6ED9EBA1
            } else if t < 60 {
                0x8F1BBCDC
            } else {
                0xCA62C1D6
            };
            let turned = (s.a << 5u32) | (s.a >> 27u32);
            &&& r.a == (turned + f + s.e + w + k) % 0x1_0000_0000
            &&& r.b == s.a
            &&& r.c == (s.b << 30u32) | (s.b >> 2u32)
            &&& r.d == s.c
            &&& r.e == s.d
        }),
{
    lemma_sum(rotl(s.a, 5), mix(t, s.b, s.c, s.d), s.e, round_constant(t), w);
}

/// The schedule of RFC 3174 §6.1: sixteen words of the block, most significant byte first, then
/// the exclusive or of four earlier words, turned left by one bit.
pub proof fn law_schedule(block: Seq<u8>, t: int)
    requires
        block.len() == 64,
        0 <= t < 80,
    ensures
        t < 16 ==> word(block, t) == block[4 * t] * 0x100_0000 + block[4 * t + 1] * 0x1_0000
            + block[4 * t + 2] * 0x100 + block[4 * t + 3],
        t >= 16 ==> ({
            let x = word(block, t - 3) ^ word(block, t - 8) ^ word(block, t - 14) ^ word(
                block,
                t - 16,
            );
            word(block, t) == (x << 1u32) | (x >> 31u32)
        }),
{
    if t < 16 {
        law_fields_are_big_endian(block.subrange(4 * t, 4 * t + 4));
    }
}

/// A block takes eighty steps, after which each word of the state is added to what it was; the
/// digest is the state after the last block, each word with its most significant byte first.
#[verifier::rlimit(40)]
pub proof fn law_digest(s: State, block: Seq<u8>, n: nat, msg: Seq<u8>)
    ensures
        rounds(s, block, 0) == s,
        rounds(s, block, n + 1) == round(rounds(s, block, n), n as int, word(block, n as int)),
        ({
            let (r, u) = (rounds(s, block, 80), absorbed(s, block));
            &&& u.a == (s.a + r.a) % 0x1_0000_0000
            &&& u.b == (s.b + r.b) % 0x1_0000_0000
            &&& u.c == (s.c + r.c) % 0x1_0000_0000
            &&& u.d == (s.d + r.d) % 0x1_0000_0000
            &&& u.e == (s.e + r.e) % 0x1_0000_0000
        }),
        digested(msg, 0) == (State {
            a: 0x67452301,
            b: 0xEFCDAB89,
            c: 0x98BADCFE,
            d: 0x10325476,
            e: 0xC3D2E1F0,
        }),
        ({
            let u = digested(padded(msg), padded(msg).len() / 64);
            sha1_of(msg) == be32(u.a as int) + be32(u.b as int) + be32(u.c as int) + be32(
                u.d as int,
            ) + be32(u.e as int)
        }),
{
}

} // verus!
