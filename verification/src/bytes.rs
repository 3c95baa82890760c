//! Byte-string helpers: comparison, copying and big-endian integers.
use vstd::prelude::*;
use vstd::slice::{slice_subrange, slice_to_vec};

verus! {

/// The low byte of `n`.
pub open spec fn low_byte(n: int) -> u8 {
    (n % 256) as u8
}

/// The low 16 bits of `n`, big-endian.
pub open spec fn be16(n: int) -> Seq<u8> {
    seq![low_byte(n / 256), low_byte(n)]
}

/// The low 32 bits of `n`, big-endian.
pub open spec fn be32(n: int) -> Seq<u8> {
    be16(n / 65536) + be16(n)
}

/// The low 64 bits of `n` (two's complement for a negative `n`), big-endian.
pub open spec fn be64(n: int) -> Seq<u8> {
    be32(n / 4294967296) + be32(n)
}

/// The number that two big-endian bytes stand for.
pub open spec fn num16(s: Seq<u8>) -> nat {
    (s[0] * 256 + s[1]) as nat
}

/// The number that four big-endian bytes stand for.
pub open spec fn num32(s: Seq<u8>) -> nat {
    num16(s.subrange(0, 2)) * 65536 + num16(s.subrange(2, 4))
}

/// The number that eight big-endian bytes stand for.
pub open spec fn num64(s: Seq<u8>) -> nat {
    num32(s.subrange(0, 4)) * 4294967296 + num32(s.subrange(4, 8))
}

/// The signed number that eight big-endian two's-complement bytes stand for.
pub open spec fn signed64(s: Seq<u8>) -> int {
    if num64(s) < 9223372036854775808 {
        num64(s) as int
    } else {
        num64(s) - 18446744073709551616
    }
}

/// Numbers are written with the most significant byte first: each byte weighs 256 times what
/// the next one does.
pub proof fn law_most_significant_byte_first(n: int)
    ensures
        ({
            let (a, b) = (be16(n), be32(n));
            &&& a.len() == 2
            &&& a[0] * 0x100 + a[1] == n % 0x1_0000
            &&& b.len() == 4
            &&& b[0] * 0x100_0000 + b[1] * 0x1_0000 + b[2] * 0x100 + b[3] == n % 0x1_0000_0000
        }),
{
    let b = be32(n);
    let hi = n / 65536;
    assert(b[0] == low_byte(hi / 256) && b[1] == low_byte(hi));
    assert(b[2] == low_byte(n / 256) && b[3] == low_byte(n));
    assert(b[0] * 256 + b[1] == hi % 65536);
    assert(b[2] * 256 + b[3] == n % 65536);
}

/// Signed 64-bit numbers are written in two's complement with the most significant byte first.
pub proof fn law_be64_layout(n: int)
    requires
        -9223372036854775808 <= n < 9223372036854775808,
    ensures
        ({
            let s = be64(n);
            let high = s[0] * 0x100_0000 + s[1] * 0x1_0000 + s[2] * 0x100 + s[3];
            let low = s[4] * 0x100_0000 + s[5] * 0x1_0000 + s[6] * 0x100 + s[7];
            &&& s.len() == 8
            &&& high * 0x1_0000_0000 + low == (if n < 0 {
                n + 0x1_0000_0000_0000_0000
            } else {
                n
            })
        }),
{
    let s = be64(n);
    let (x, y) = (be32(n / 4294967296), be32(n));
    law_most_significant_byte_first(n / 4294967296);
    law_most_significant_byte_first(n);
    assert(s.subrange(0, 4) =~= x && s.subrange(4, 8) =~= y);
    assert(s[0] == x[0] && s[1] == x[1] && s[2] == x[2] && s[3] == x[3]);
    assert(s[4] == y[0] && s[5] == y[1] && s[6] == y[2] && s[7] == y[3]);
}

/// Fields are read with the most significant byte first, and a signed one in two's complement.
pub proof fn law_fields_are_big_endian(s: Seq<u8>)
    ensures
        s.len() == 2 ==> num16(s) == s[0] * 0x100 + s[1],
        s.len() == 4 ==> num32(s) == s[0] * 0x100_0000 + s[1] * 0x1_0000 + s[2] * 0x100 + s[3],
        s.len() == 8 ==> ({
            let high = s[0] * 0x100_0000 + s[1] * 0x1_0000 + s[2] * 0x100 + s[3];
            let low = s[4] * 0x100_0000 + s[5] * 0x1_0000 + s[6] * 0x100 + s[7];
            let n = high * 0x1_0000_0000 + low;
            signed64(s) == (if s[0] < 0x80 {
                n
            } else {
                n - 0x1_0000_0000_0000_0000
            })
        }),
    decreases s.len(),
{
    if s.len() == 4 {
        assert(s.subrange(0, 2)[1] == s[1] && s.subrange(2, 4)[1] == s[3]);
    }
    if s.len() == 8 {
        law_fields_are_big_endian(s.subrange(0, 4));
        law_fields_are_big_endian(s.subrange(4, 8));
        assert(s.subrange(4, 8)[3] == s[7] && s.subrange(4, 8)[2] == s[6]);
    }
}

/// Reading back a big-endian 16-bit field gives the number that was written,
/// reduced modulo 2^16.
pub proof fn law_num16_of_be16(n: int)
    requires
        0 <= n,
    ensures
        num16(be16(n)) == n % 65536,
{
}

/// Reading back a big-endian 32-bit field gives the number that was written,
/// reduced modulo 2^32.
pub proof fn law_num32_of_be32(n: int)
    requires
        0 <= n,
    ensures
        num32(be32(n)) == n % 4294967296,
{
    let s = be32(n);
    assert(s.subrange(0, 2) =~= be16(n / 65536));
    assert(s.subrange(2, 4) =~= be16(n));
    law_num16_of_be16(n);
    law_num16_of_be16(n / 65536);
}

/// A big-endian 32-bit field is the one that writing its number gives.
pub proof fn law_be32_of_num32(s: Seq<u8>)
    requires
        s.len() == 4,
    ensures
        be32(num32(s) as int) == s,
        num32(s) <= 0xFFFF_FFFF,
{
    let hi = num16(s.subrange(0, 2)) as int;
    let lo = num16(s.subrange(2, 4)) as int;
    let n = num32(s) as int;
    assert(hi == s[0] * 256 + s[1]);
    assert(lo == s[2] * 256 + s[3]);
    assert(n / 65536 == hi);
    assert(low_byte(hi / 256) == s[0]);
    assert(low_byte(hi) == s[1]);
    assert(low_byte(n / 256) == s[2]);
    assert(low_byte(n) == s[3]);
    assert(be32(n) =~= s);
}

/// Reading back a big-endian 64-bit field gives the number that was written,
/// reduced modulo 2^64.
pub proof fn law_num64_of_be64(n: int)
    requires
        0 <= n,
    ensures
        num64(be64(n)) == n % 18446744073709551616,
{
    let s = be64(n);
    assert(s.subrange(0, 4) =~= be32(n / 4294967296));
    assert(s.subrange(4, 8) =~= be32(n));
    law_num32_of_be32(n);
    law_num32_of_be32(n / 4294967296);
    lemma_split64(n);
}

/// A number modulo 2^64 from its two 32-bit halves.
proof fn lemma_split64(n: int)
    requires
        0 <= n,
    ensures
        ((n / 4294967296) % 4294967296) * 4294967296 + n % 4294967296 == n % 18446744073709551616,
{
    let hi = n / 4294967296;
    let q = hi / 4294967296;
    assert(n == hi * 4294967296 + n % 4294967296);
    assert(hi == q * 4294967296 + hi % 4294967296);
    assert(n == q * 18446744073709551616 + (hi % 4294967296) * 4294967296 + n % 4294967296);
}

/// A signed 64-bit number survives being written and read back.
pub proof fn law_signed64_of_be64(n: int)
    requires
        -9223372036854775808 <= n < 9223372036854775808,
    ensures
        signed64(be64(n)) == n,
{
    if n < 0 {
        lemma_be64_wraps(n);
        law_num64_of_be64(n + 18446744073709551616);
    } else {
        law_num64_of_be64(n);
    }
}

proof fn lemma_be16_wraps(n: int, k: int)
    ensures
        be16(n + k * 65536) == be16(n),
{
    assert((n + k * 65536) / 256 == n / 256 + k * 256);
}

proof fn lemma_be32_wraps(n: int, k: int)
    ensures
        be32(n + k * 4294967296) == be32(n),
{
    lemma_be16_wraps(n, k * 65536);
    assert((n + k * 4294967296) / 65536 == n / 65536 + k * 65536);
    lemma_be16_wraps(n / 65536, k);
}

/// Only the low 32 bits count.
pub proof fn lemma_be32_low(n: int)
    ensures
        be32(n % 4294967296) == be32(n),
{
    lemma_be32_wraps(n % 4294967296, n / 4294967296);
}

/// Adding 2^64 leaves the low 64 bits alone.
proof fn lemma_be64_wraps(n: int)
    ensures
        be64(n + 18446744073709551616) == be64(n),
{
    lemma_be32_wraps(n, 4294967296);
    assert((n + 18446744073709551616) / 4294967296 == n / 4294967296 + 4294967296);
    lemma_be32_wraps(n / 4294967296, 1);
}

/// Appends the low 16 bits of `n`, big-endian.
pub fn put_be16(out: &mut Vec<u8>, n: u64)
    ensures
        final(out)@ == old(out)@ + be16(n as int),
{
    out.push(((n / 256) % 256) as u8);
    out.push((n % 256) as u8);
    assert(out@ =~= old(out)@ + be16(n as int));
}

/// Appends the low 32 bits of `n`, big-endian.
pub fn put_be32(out: &mut Vec<u8>, n: u64)
    ensures
        final(out)@ == old(out)@ + be32(n as int),
{
    put_be16(out, n / 65536);
    put_be16(out, n);
    assert(out@ =~= old(out)@ + be32(n as int));
}

/// Appends `n`, big-endian.
pub fn put_be64(out: &mut Vec<u8>, n: u64)
    ensures
        final(out)@ == old(out)@ + be64(n as int),
{
    put_be32(out, n / 4294967296);
    put_be32(out, n);
    assert(out@ =~= old(out)@ + be64(n as int));
}

/// Appends `n` as eight big-endian two's-complement bytes.
pub fn put_be64_signed(out: &mut Vec<u8>, n: i64)
    ensures
        final(out)@ == old(out)@ + be64(n as int),
{
    if n >= 0 {
        put_be64(out, n as u64);
    } else {
        proof {
            lemma_be64_wraps(n as int);
        }
        let m: u64 = (n + 9223372036854775807i64 + 1i64) as u64 + 9223372036854775808u64;
        put_be64(out, m);
    }
}

/// Reads two big-endian bytes at `at`.
pub fn get_be16(b: &[u8], at: usize) -> (r: u16)
    requires
        at + 2 <= b@.len(),
    ensures
        r == num16(b@.subrange(at as int, at + 2)),
{
    (b[at] as u16) * 256 + b[at + 1] as u16
}

/// Reads four big-endian bytes at `at`.
pub fn get_be32(b: &[u8], at: usize) -> (r: u32)
    requires
        at + 4 <= b@.len(),
    ensures
        r == num32(b@.subrange(at as int, at + 4)),
{
    assert(b@.len() == b.len());
    let hi: u16 = get_be16(b, at);
    let lo: u16 = get_be16(b, at + 2);
    proof {
        let s = b@.subrange(at as int, at + 4);
        assert(s.subrange(0, 2) =~= b@.subrange(at as int, at + 2));
        assert(s.subrange(2, 4) =~= b@.subrange(at + 2, at + 4));
    }
    (hi as u32) * 65536 + lo as u32
}

/// Reads eight big-endian bytes at `at`.
pub fn get_be64(b: &[u8], at: usize) -> (r: u64)
    requires
        at + 8 <= b@.len(),
    ensures
        r == num64(b@.subrange(at as int, at + 8)),
{
    assert(b@.len() == b.len());
    let hi: u32 = get_be32(b, at);
    let lo: u32 = get_be32(b, at + 4);
    proof {
        let s = b@.subrange(at as int, at + 8);
        assert(s.subrange(0, 4) =~= b@.subrange(at as int, at + 4));
        assert(s.subrange(4, 8) =~= b@.subrange(at + 4, at + 8));
    }
    (hi as u64) * 4294967296 + lo as u64
}

/// Reads eight big-endian two's-complement bytes at `at`.
pub fn get_be64_signed(b: &[u8], at: usize) -> (r: i64)
    requires
        at + 8 <= b@.len(),
    ensures
        r == signed64(b@.subrange(at as int, at + 8)),
{
    let u: u64 = get_be64(b, at);
    if u < 9223372036854775808 {
        u as i64
    } else {
        (u - 9223372036854775808) as i64 - 9223372036854775807 - 1
    }
}

/// Byte-string equality.
pub fn bytes_eq(a: &[u8], b: &[u8]) -> (r: bool)
    ensures
        r == (a@ == b@),
{
    if a.len() != b.len() {
        return false;
    }
    let mut i: usize = 0;
    while i < a.len()
        invariant
            a@.len() == b@.len(),
            i <= a@.len(),
            forall|j: int| 0 <= j < i ==> a@[j] == b@[j],
        decreases a@.len() - i,
    {
        if a[i] != b[i] {
            return false;
        }
        i += 1;
    }
    assert(a@ =~= b@);
    true
}

/// A fresh copy of `s`.
pub fn to_vec(s: &[u8]) -> (r: Vec<u8>)
    ensures
        r@ == s@,
{
    slice_to_vec(s)
}

/// Appends the bytes of `s`.
pub fn append(out: &mut Vec<u8>, s: &[u8])
    ensures
        final(out)@ == old(out)@ + s@,
{
    out.extend_from_slice(s);
    assert(out@ =~= old(out)@ + s@);
}

/// The bytes of `s` from `i` up to `j`.
pub fn part(s: &[u8], i: usize, j: usize) -> (r: &[u8])
    requires
        i <= j <= s@.len(),
    ensures
        r@ == s@.subrange(i as int, j as int),
{
    slice_subrange(s, i, j)
}

} // verus!
