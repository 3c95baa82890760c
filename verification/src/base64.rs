//! Base64 (RFC 4648) with `=` padding.
use vstd::prelude::*;

verus! {

/// The character for a six-bit value.
pub open spec fn letter(n: int) -> char {
    if n < 26 {
        (65 + n) as char
    } else if n < 52 {
        (71 + n) as char
    } else if n < 62 {
        (n - 4) as char
    } else if n == 62 {
        '+'
    } else {
        '/'
    }
}

/// The number that up to three bytes stand for, as if followed by zeros.
pub open spec fn triple(d: Seq<u8>) -> int {
    let b1 = if d.len() > 1 {
        d[1] as int
    } else {
        0
    };
    let b2 = if d.len() > 2 {
        d[2] as int
    } else {
        0
    };
    d[0] * 65536 + b1 * 256 + b2
}

/// The four characters for up to three bytes.
pub open spec fn quad(d: Seq<u8>) -> Seq<char> {
    let n = triple(d);
    seq![
        letter(n / 262144),
        letter((n / 4096) % 64),
        if d.len() > 1 {
            letter((n / 64) % 64)
        } else {
            '='
        },
        if d.len() > 2 {
            letter(n % 64)
        } else {
            '='
        },
    ]
}

/// The base64 encoding of bytes.
pub open spec fn base64_of(data: Seq<u8>) -> Seq<char>
    decreases data.len(),
{
    if data.len() == 0 {
        seq![]
    } else if data.len() <= 3 {
        quad(data)
    } else {
        quad(data.take(3)) + base64_of(data.skip(3))
    }
}

/// The alphabet of RFC 4648.
pub proof fn law_alphabet(n: int)
    requires
        0 <= n < 64,
    ensures
        letter(n) == "ABCDEFGHIJKLMNOPQRSTUVWXYZabcdefghijklmnopqrstuvwxyz0123456789+/"@[n],
{
    reveal_strlit("ABCDEFGHIJKLMNOPQRSTUVWXYZabcdefghijklmnopqrstuvwxyz0123456789+/");
}

fn letter_of(n: u32) -> (c: char)
    requires
        n < 64,
    ensures
        c == letter(n as int),
{
    if n < 26 {
        (65 + n) as u8 as char
    } else if n < 52 {
        (71 + n) as u8 as char
    } else if n < 62 {
        (n - 4) as u8 as char
    } else if n == 62 {
        '+'
    } else {
        '/'
    }
}

/// Standard base64 encoder (with `=` padding).
pub fn base64(data: &[u8]) -> (out: String)
    ensures
        out@ == base64_of(data@),
{
    let mut out: String = String::new();
    let mut i: usize = 0;
    assert(data@.skip(0) =~= data@);
    assert(out@ + base64_of(data@.skip(0)) =~= base64_of(data@));
    while i < data.len()
        invariant
            i <= data@.len(),
            out@ + base64_of(data@.skip(i as int)) == base64_of(data@),
        decreases data@.len() - i,
    {
        let ghost rest = data@.skip(i as int);
        let ghost held = out@;
        assert(data@.len() == data.len());
        let left: usize = data.len() - i;
        let b0: u32 = data[i] as u32;
        let b1: u32 = if left > 1 {
            data[i + 1] as u32
        } else {
            0
        };
        let b2: u32 = if left > 2 {
            data[i + 2] as u32
        } else {
            0
        };
        let n: u32 = b0 * 65536 + b1 * 256 + b2;
        let ghost chunk = if left <= 3 {
            rest
        } else {
            rest.take(3)
        };
        assert(n == triple(chunk));
        out.push(letter_of(n / 262144));
        out.push(letter_of((n / 4096) % 64));
        out.push(
            if left > 1 {
                letter_of((n / 64) % 64)
            } else {
                '='
            },
        );
        out.push(
            if left > 2 {
                letter_of(n % 64)
            } else {
                '='
            },
        );
        assert(out@ =~= held + quad(chunk));
        if left > 3 {
            i += 3;
            assert(data@.skip(i as int) =~= rest.skip(3));
            assert(out@ + base64_of(data@.skip(i as int)) =~= held + base64_of(rest));
        } else {
            i = data.len();
            assert(data@.skip(i as int) =~= seq![]);
            assert(out@ + base64_of(data@.skip(i as int)) =~= held + base64_of(rest));
        }
    }
    assert(data@.skip(i as int) =~= seq![]);
    assert(out@ + base64_of(data@.skip(i as int)) =~= out@);
    out
}

/// The six-bit value of a character.
pub open spec fn sextet(c: char) -> int {
    let n = c as int;
    if 65 <= n < 91 {
        n - 65
    } else if 97 <= n < 123 {
        n - 71
    } else if 48 <= n < 58 {
        n + 4
    } else if c == '+' {
        62
    } else {
        63
    }
}

/// The bytes that four characters stand for.
pub open spec fn unquad(q: Seq<char>) -> Seq<u8> {
    let n = sextet(q[0]) * 262144 + sextet(q[1]) * 4096;
    if q[2] == '=' {
        seq![(n / 65536) as u8]
    } else if q[3] == '=' {
        let m = n + sextet(q[2]) * 64;
        seq![(m / 65536) as u8, ((m / 256) % 256) as u8]
    } else {
        let m = n + sextet(q[2]) * 64 + sextet(q[3]);
        seq![(m / 65536) as u8, ((m / 256) % 256) as u8, (m % 256) as u8]
    }
}

/// The bytes that a base64 text stands for.
pub open spec fn unbase64(s: Seq<char>) -> Seq<u8>
    decreases s.len(),
{
    if s.len() < 4 {
        seq![]
    } else {
        unquad(s.take(4)) + unbase64(s.skip(4))
    }
}

proof fn lemma_sextet(n: int)
    requires
        0 <= n < 64,
    ensures
        sextet(letter(n)) == n,
        letter(n) != '=',
{
}

/// A 24-bit number from its four groups of six bits.
proof fn lemma_sextets(n: int)
    requires
        0 <= n < 16777216,
    ensures
        (n / 262144) * 262144 + ((n / 4096) % 64) * 4096 + ((n / 64) % 64) * 64 + n % 64 == n,
        0 <= n / 262144 < 64,
{
    let a = n / 64;
    let b = a / 64;
    assert(n == a * 64 + n % 64);
    assert(a == b * 64 + a % 64);
    assert(b == n / 4096);
    let c = b / 64;
    assert(b == c * 64 + b % 64);
    assert(c == n / 262144);
}

/// The bytes of a 24-bit number.
proof fn lemma_octets(b0: int, b1: int, b2: int)
    requires
        0 <= b0 < 256,
        0 <= b1 < 256,
        0 <= b2 < 256,
    ensures
        ({
            let n = b0 * 65536 + b1 * 256 + b2;
            &&& n / 65536 == b0
            &&& (n / 256) % 256 == b1
            &&& n % 256 == b2
            &&& b2 == 0 ==> n % 64 == 0
            &&& b1 == 0 && b2 == 0 ==> (n / 64) % 64 == 0
        }),
{
}

proof fn lemma_unquad(d: Seq<u8>)
    requires
        1 <= d.len() <= 3,
    ensures
        unquad(quad(d)) == d,
{
    let n = triple(d);
    let b1 = if d.len() > 1 {
        d[1] as int
    } else {
        0
    };
    let b2 = if d.len() > 2 {
        d[2] as int
    } else {
        0
    };
    lemma_octets(d[0] as int, b1, b2);
    lemma_sextets(n);
    let (s0, s1, s2, s3) = (n / 262144, (n / 4096) % 64, (n / 64) % 64, n % 64);
    lemma_sextet(s0);
    lemma_sextet(s1);
    lemma_sextet(s2);
    lemma_sextet(s3);
    lemma_unquad_of(d, n, s0, s1, s2, s3);
}

proof fn lemma_unquad_of(d: Seq<u8>, n: int, s0: int, s1: int, s2: int, s3: int)
    requires
        1 <= d.len() <= 3,
        quad(d) == seq![
            letter(s0),
            letter(s1),
            if d.len() > 1 {
                letter(s2)
            } else {
                '='
            },
            if d.len() > 2 {
                letter(s3)
            } else {
                '='
            },
        ],
        sextet(letter(s0)) == s0,
        sextet(letter(s1)) == s1,
        sextet(letter(s2)) == s2,
        sextet(letter(s3)) == s3,
        letter(s2) != '=',
        letter(s3) != '=',
        s0 * 262144 + s1 * 4096 + s2 * 64 + s3 == n,
        n / 65536 == d[0],
        d.len() > 1 ==> (n / 256) % 256 == d[1],
        d.len() > 2 ==> n % 256 == d[2],
        d.len() <= 2 ==> s3 == 0,
        d.len() <= 1 ==> s2 == 0,
    ensures
        unquad(quad(d)) == d,
{
    assert(unquad(quad(d)) =~= d);
}

/// Decoding an encoded text gives back the bytes; the text has four characters for every
/// three bytes begun.
pub proof fn law_base64_round_trip(data: Seq<u8>)
    ensures
        unbase64(base64_of(data)) == data,
        base64_of(data).len() == (data.len() + 2) / 3 * 4,
    decreases data.len(),
{
    if data.len() == 0 {
    } else if data.len() <= 3 {
        lemma_unquad(data);
        assert(quad(data).take(4) =~= quad(data));
        assert(quad(data).skip(4) =~= seq![]);
        assert(unbase64(seq![]) =~= seq![]);
        assert(unbase64(quad(data)) =~= data);
    } else {
        let q = quad(data.take(3));
        let rest = base64_of(data.skip(3));
        lemma_unquad(data.take(3));
        law_base64_round_trip(data.skip(3));
        assert((q + rest).take(4) =~= q);
        assert((q + rest).skip(4) =~= rest);
        assert(data.take(3) + data.skip(3) =~= data);
    }
}

/// How bytes are cut into groups of six bits: three bytes make four characters, and a last one or
/// two bytes make two or three, filled up with equals signs.
pub proof fn law_groups(a: u8, b: u8, c: u8, rest: Seq<u8>)
    ensures
        base64_of(seq![a, b, c] + rest) == seq![
            letter(a as int / 4),
            letter((a as int % 4) * 16 + b as int / 16),
            letter((b as int % 16) * 4 + c as int / 64),
            letter(c as int % 64),
        ] + base64_of(rest),
        base64_of(seq![a, b]) == seq![
            letter(a as int / 4),
            letter((a as int % 4) * 16 + b as int / 16),
            letter((b as int % 16) * 4),
            '=',
        ],
        base64_of(seq![a]) == seq![letter(a as int / 4), letter((a as int % 4) * 16), '=', '='],
        base64_of(seq![]) == Seq::<char>::empty(),
{
    let (x, y, z) = (a as int, b as int, c as int);
    lemma_groups(x, y, z);
    lemma_groups(x, y, 0);
    lemma_groups(x, 0, 0);
    let three = seq![a, b, c];
    let all = three + rest;
    if rest.len() == 0 {
        assert(all =~= three);
        assert(base64_of(rest) =~= seq![]);
    } else {
        assert(all.take(3) =~= three);
        assert(all.skip(3) =~= rest);
    }
    assert(triple(three) == x * 65536 + y * 256 + z);
    assert(triple(seq![a, b]) == x * 65536 + y * 256);
    assert(triple(seq![a]) == x * 65536);
    assert(quad(three) =~= seq![
        letter(x / 4),
        letter((x % 4) * 16 + y / 16),
        letter((y % 16) * 4 + z / 64),
        letter(z % 64),
    ]);
    assert(base64_of(all) =~= quad(three) + base64_of(rest));
}

proof fn lemma_groups(x: int, y: int, z: int)
    requires
        0 <= x < 256,
        0 <= y < 256,
        0 <= z < 256,
    ensures
        ({
            let n = x * 65536 + y * 256 + z;
            &&& n / 262144 == x / 4
            &&& (n / 4096) % 64 == (x % 4) * 16 + y / 16
            &&& (n / 64) % 64 == (y % 16) * 4 + z / 64
            &&& n % 64 == z % 64
        }),
{
    let n = x * 65536 + y * 256 + z;
    let (p, q) = ((x % 4) * 16 + y / 16, (y % 16) * 4 + z / 64);
    let m = (x / 4) * 4096 + p * 64 + q;
    assert(x == 4 * (x / 4) + x % 4);
    assert(y == 16 * (y / 16) + y % 16);
    assert(z == 64 * (z / 64) + z % 64);
    assert(n == m * 64 + z % 64);
    assert(n / 64 == m && n % 64 == z % 64);
    assert(m / 64 == (x / 4) * 64 + p && m % 64 == q);
    assert(n / 4096 == m / 64);
    assert(n / 262144 == (m / 64) / 64);
}

} // verus!
