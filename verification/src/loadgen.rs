//! The requests of the load generator.
use vstd::prelude::*;
use vstd::utf8::{encode_utf8, is_ascii_chars, is_ascii_chars_encode_utf8};

use crate::bytes::append;
use crate::engine::{frame_len, head_of, law_request_of_frame, lemma_head_prefix, requests};
use crate::protocol::{encode_frame, frame_bytes, ACT_SET};
use crate::text::{decimal, digits_value, law_number_of_decimal, number_of, put_decimal};

verus! {

/// A request frame.
pub fn frame(action: u8, key: &[u8], val: &[u8], ttl: u32) -> (b: Vec<u8>)
    ensures
        b@ == frame_bytes(action, key@, val@, ttl),
{
    encode_frame(action, key, val, ttl)
}

/// A number in decimal notation, filled up with zeros to at least eight digits.
pub open spec fn eight_digits(n: nat) -> Seq<char> {
    let d = decimal(n);
    if d.len() < 8 {
        Seq::new((8 - d.len()) as nat, |i: int| '0') + d
    } else {
        d
    }
}

/// The payload that the load generator stores: 64 times the letter x.
pub open spec fn payload() -> Seq<u8> {
    Seq::new(64, |i: int| 0x78u8)
}

/// The SET of the key with the number `n`.
pub open spec fn numbered_set(n: nat) -> Seq<u8> {
    frame_bytes(ACT_SET, encode_utf8("key"@ + eight_digits(n)), payload(), 0)
}

/// The SETs of the first `n` keys, one after the other.
pub open spec fn batch_of(n: nat) -> Seq<u8>
    decreases n,
{
    if n == 0 {
        seq![]
    } else {
        batch_of((n - 1) as nat) + numbered_set((n - 1) as nat)
    }
}

/// The key with the number `n`.
fn numbered_key(n: usize) -> (r: String)
    ensures
        r@ == "key"@ + eight_digits(n as nat),
{
    let mut digits: String = String::new();
    put_decimal(&mut digits, n as u64);
    assert(digits@ =~= decimal(n as nat));
    let mut r: String = "key".to_owned();
    let mut have: usize = digits.as_str().unicode_len();
    let ghost len = have as int;
    let ghost zeros = |k: int| Seq::new(k as nat, |i: int| '0');
    assert(r@ =~= "key"@ + zeros(0));
    while have < 8
        invariant
            len <= have,
            have <= 8 || have == len,
            zeros == (|k: int| Seq::new(k as nat, |i: int| '0')),
            r@ == "key"@ + zeros(have - len),
        decreases 8 - have,
    {
        r.push('0');
        have += 1;
        assert(r@ =~= "key"@ + zeros(have - len));
    }
    r.append(digits.as_str());
    assert(r@ =~= "key"@ + eight_digits(n as nat));
    r
}

/// The batch of pipelined SETs that a connection sends: keys numbered from zero, each with
/// the same payload.
pub fn batch_frames(batch: usize) -> (b: Vec<u8>)
    ensures
        b@ == batch_of(batch as nat),
{
    let mut value: Vec<u8> = Vec::new();
    let mut k: usize = 0;
    while k < 64
        invariant
            k <= 64,
            value@ == payload().take(k as int),
        decreases 64 - k,
    {
        value.push(0x78);
        k += 1;
        assert(value@ =~= payload().take(k as int));
    }
    assert(value@ =~= payload());
    let mut b: Vec<u8> = Vec::new();
    let mut i: usize = 0;
    while i < batch
        invariant
            i <= batch,
            value@ == payload(),
            b@ == batch_of(i as nat),
        decreases batch - i,
    {
        let key: String = numbered_key(i);
        let f: Vec<u8> = frame(ACT_SET, key.as_str().as_bytes(), value.as_slice(), 0);
        append(&mut b, f.as_slice());
        i += 1;
    }
    b
}

/// A batch is what it says: so many requests, each a SET without expiry of a key that ends in the
/// request's number, of at least eight digits, to 64 times the letter x.
pub proof fn law_batch(n: nat)
    requires
        n <= u64::MAX,
    ensures
        ({
            let rs = requests(batch_of(n));
            &&& rs.len() == n
            &&& forall|i: int|
                0 <= i < n ==> ({
                    let r = #[trigger] rs[i];
                    &&& r.action == 0x01
                    &&& r.ttl == 0
                    &&& r.key == encode_utf8("key"@ + eight_digits(i as nat))
                    &&& r.value == Seq::new(64, |j: int| 0x78u8)
                })
        }),
    decreases n,
{
    let none = Seq::<u8>::empty();
    if n == 0 {
        assert(requests(none) =~= seq![]);
    } else {
        let m = (n - 1) as nat;
        law_batch(m);
        law_numbered(m);
        let key = encode_utf8("key"@ + eight_digits(m));
        let f = numbered_set(m);
        law_request_of_frame(0x01, key, payload(), 0, none);
        assert(f + none =~= f);
        assert(requests(none) =~= seq![]);
        lemma_requests_concat(batch_of(m), f, m);
    }
}

/// The number of a key: its digits, filled up with zeros on the left to eight, and its value.
pub proof fn law_numbered(n: nat)
    requires
        n <= u64::MAX,
    ensures
        8 <= eight_digits(n).len() <= 20,
        number_of(eight_digits(n), u64::MAX as nat) == Some(n),
        n < 100000000 ==> eight_digits(n).len() == 8,
        encode_utf8("key"@ + eight_digits(n)).len() == 3 + eight_digits(n).len(),
{
    let d = decimal(n);
    lemma_decimal_len(n, 20);
    if n < 100000000 {
        lemma_decimal_len(n, 8);
    }
    law_number_of_decimal(n, u64::MAX as nat);
    let zeros = Seq::new((8 - d.len()) as nat, |i: int| '0');
    if d.len() < 8 {
        lemma_leading_zeros(zeros, d);
    }
    lemma_digits(n);
    reveal_strlit("key");
    let text = "key"@ + eight_digits(n);
    assert forall|i: int| 0 <= i < text.len() implies (#[trigger] text[i] as u32) < 128 by {
        let e = eight_digits(n);
        if i >= 3 {
            assert(text[i] == e[i - 3]);
            if d.len() < 8 && i - 3 >= 8 - d.len() {
                assert(e[i - 3] == d[i - 3 - (8 - d.len())]);
            }
        }
    }
    assert(is_ascii_chars(text));
    is_ascii_chars_encode_utf8(text);
}

/// How many digits a number has.
proof fn lemma_decimal_len(n: nat, k: nat)
    requires
        k == 20 && n <= u64::MAX || k == 8 && n < 100000000,
    ensures
        0 < decimal(n).len() <= k,
{
    reveal_with_fuel(decimal, 21);
}

/// Leading zeros do not change a number.
proof fn lemma_leading_zeros(zeros: Seq<char>, d: Seq<char>)
    requires
        d.len() > 0,
        forall|i: int| 0 <= i < zeros.len() ==> zeros[i] == '0',
    ensures
        digits_value(zeros + d) == digits_value(d),
    decreases d.len(),
{
    if d.len() == 1 {
        lemma_zeros(zeros);
        assert((zeros + d).drop_last() =~= zeros);
        assert(d.drop_last() =~= seq![]);
    } else {
        lemma_leading_zeros(zeros, d.drop_last());
        assert((zeros + d).drop_last() =~= zeros + d.drop_last());
    }
}

proof fn lemma_zeros(zeros: Seq<char>)
    requires
        forall|i: int| 0 <= i < zeros.len() ==> zeros[i] == '0',
    ensures
        digits_value(zeros) == Some(0nat),
    decreases zeros.len(),
{
    if zeros.len() > 0 {
        lemma_zeros(zeros.drop_last());
        assert(zeros.last() == '0');
    }
}

proof fn lemma_digits(n: nat)
    ensures
        forall|i: int| 0 <= i < decimal(n).len() ==> '0' <= #[trigger] decimal(n)[i] <= '9',
    decreases n,
{
    if n >= 10 {
        lemma_digits(n / 10);
        assert forall|i: int| 0 <= i < decimal(n).len() implies '0' <= #[trigger] decimal(n)[i]
            <= '9' by {
            if i < decimal(n / 10).len() {
                assert(decimal(n)[i] == decimal(n / 10)[i]);
            }
        }
    }
}

/// One request more at the end of a batch.
proof fn lemma_requests_concat(b: Seq<u8>, f: Seq<u8>, n: nat)
    requires
        b == batch_of(n),
        n <= u64::MAX,
    ensures
        requests(b + f) == requests(b) + requests(f),
{
    lemma_whole(b, n);
    lemma_requests_of(b, f);
}

/// Whether bytes are complete requests and nothing else.
spec fn complete(b: Seq<u8>) -> bool
    decreases b.len(),
{
    b.len() == 0 || (head_of(b) is Whole && complete(b.skip(frame_len(b) as int)))
}

proof fn lemma_requests_of(b: Seq<u8>, f: Seq<u8>)
    requires
        complete(b),
    ensures
        requests(b + f) == requests(b) + requests(f),
    decreases b.len(),
{
    if b.len() == 0 {
        assert(b + f =~= f);
        assert(requests(b) + requests(f) =~= requests(f));
    } else {
        let rest = b.skip(frame_len(b) as int);
        lemma_head_prefix(b, f);
        lemma_requests_of(rest, f);
        assert(requests(b + f) =~= requests(b) + requests(f));
    }
}

proof fn lemma_whole(b: Seq<u8>, n: nat)
    requires
        b == batch_of(n),
        n <= u64::MAX,
    ensures
        complete(b),
    decreases n,
{
    if n > 0 {
        let m = (n - 1) as nat;
        let f = numbered_set(m);
        let none = Seq::<u8>::empty();
        law_numbered(m);
        law_request_of_frame(
            0x01,
            encode_utf8("key"@ + eight_digits(m)),
            payload(),
            0,
            none,
        );
        assert(f + none =~= f);
        assert(complete(none));
        assert(complete(f));
        lemma_whole(batch_of(m), m);
        lemma_complete_concat(batch_of(m), f);
    }
}

proof fn lemma_complete_concat(a: Seq<u8>, b: Seq<u8>)
    requires
        complete(a),
        complete(b),
    ensures
        complete(a + b),
    decreases a.len(),
{
    if a.len() == 0 {
        assert(a + b =~= b);
    } else {
        lemma_head_prefix(a, b);
        lemma_complete_concat(a.skip(frame_len(a) as int), b);
    }
}

} // verus!
