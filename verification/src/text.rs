//! Text helpers: slices of characters, decimal numbers and UTF-8.
use vstd::prelude::*;
use vstd::slice::slice_subrange;
use vstd::utf8::{decode_utf8, valid_utf8};

verus! {

/// `String::push`: appends a character.
pub assume_specification[ std::string::String::push ](s: &mut String, c: char)
    ensures
        final(s)@ == old(s)@.push(c),
;

/// What `String::from_utf8_lossy` makes of bytes.
pub uninterp spec fn utf8_lossy(b: Seq<u8>) -> Seq<char>;

/// `String::from_utf8_lossy`: the text of the bytes, with U+FFFD in place of whatever is
/// not UTF-8. Valid UTF-8 is decoded as it is; how invalid sequences are replaced is left
/// to the name.
#[verifier::external_body]
pub(crate) fn lossy(b: &[u8]) -> (r: String)
    ensures
        r@ == utf8_lossy(b@),
        valid_utf8(b@) ==> r@ == decode_utf8(b@),
{
    String::from_utf8_lossy(b).into_owned()
}

/// `std::str::from_utf8`: the text of the bytes, or nothing if they are not UTF-8.
#[verifier::external_body]
pub(crate) fn strict(b: &[u8]) -> (r: Option<&str>)
    ensures
        match r {
            Some(s) => valid_utf8(b@) && s@ == decode_utf8(b@),
            None => !valid_utf8(b@),
        },
{
    std::str::from_utf8(b).ok()
}

/// The characters of a text.
pub fn to_chars(s: &str) -> (r: Vec<char>)
    ensures
        r@ == s@,
{
    let mut r: Vec<char> = Vec::new();
    for c in it: s.chars()
        invariant
            r@ == it.seq().take(it.index()),
            it.seq() == s@,
    {
        r.push(c);
        assert(r@ =~= it.seq().take(it.index() + 1));
    }
    assert(r@ =~= s@);
    r
}

/// The text of characters.
pub fn from_chars(s: &[char]) -> (r: String)
    ensures
        r@ == s@,
{
    let mut r: String = String::new();
    let mut i: usize = 0;
    while i < s.len()
        invariant
            i <= s@.len(),
            r@ == s@.take(i as int),
        decreases s@.len() - i,
    {
        r.push(s[i]);
        assert(r@ =~= s@.take(i + 1));
        i += 1;
    }
    assert(s@.take(i as int) =~= s@);
    r
}

/// The characters of `s` from `i` up to `j`.
pub fn piece(s: &[char], i: usize, j: usize) -> (r: &[char])
    requires
        i <= j <= s@.len(),
    ensures
        r@ == s@.subrange(i as int, j as int),
{
    slice_subrange(s, i, j)
}

/// Whether a character has the Unicode property White_Space.
pub open spec fn white(c: char) -> bool {
    let n = c as u32;
    ||| 0x9 <= n <= 0xD
    ||| n == 0x20
    ||| n == 0x85
    ||| n == 0xA0
    ||| n == 0x1680
    ||| 0x2000 <= n <= 0x200A
    ||| n == 0x2028
    ||| n == 0x2029
    ||| n == 0x202F
    ||| n == 0x205F
    ||| n == 0x3000
}

fn is_white(c: char) -> (r: bool)
    ensures
        r == white(c),
{
    let n: u32 = c as u32;
    (0x9 <= n && n <= 0xD) || n == 0x20 || n == 0x85 || n == 0xA0 || n == 0x1680 || (0x2000 <= n
        && n <= 0x200A) || n == 0x2028 || n == 0x2029 || n == 0x202F || n == 0x205F || n == 0x3000
}

/// `s` without white space at the start.
pub open spec fn trimmed_start(s: Seq<char>) -> Seq<char>
    decreases s.len(),
{
    if s.len() > 0 && white(s[0]) {
        trimmed_start(s.drop_first())
    } else {
        s
    }
}

/// `s` without white space at the end.
pub open spec fn trimmed_end(s: Seq<char>) -> Seq<char>
    decreases s.len(),
{
    if s.len() > 0 && white(s.last()) {
        trimmed_end(s.drop_last())
    } else {
        s
    }
}

/// `s` without white space at either end.
pub open spec fn trimmed(s: Seq<char>) -> Seq<char> {
    trimmed_end(trimmed_start(s))
}

/// Strips white space from both ends.
pub fn trim(s: &[char]) -> (r: &[char])
    ensures
        r@ == trimmed(s@),
{
    let mut i: usize = 0;
    let mut j: usize = s.len();
    assert(s@.subrange(0, j as int) =~= s@);
    while i < j && is_white(s[i])
        invariant
            i <= j,
            j == s@.len(),
            trimmed_start(s@) == trimmed_start(s@.subrange(i as int, j as int)),
        decreases j - i,
    {
        assert(s@.subrange(i as int, j as int).drop_first() =~= s@.subrange(i + 1, j as int));
        i += 1;
    }
    assert(trimmed_start(s@) =~= s@.subrange(i as int, j as int));
    while i < j && is_white(s[j - 1])
        invariant
            i <= j <= s@.len(),
            trimmed(s@) == trimmed_end(s@.subrange(i as int, j as int)),
        decreases j - i,
    {
        assert(s@.subrange(i as int, j as int).drop_last() =~= s@.subrange(i as int, j - 1));
        j -= 1;
    }
    piece(s, i, j)
}

/// A text that neither begins nor ends with white space has nothing to strip, and white space
/// put around a text is stripped again, all of it and nothing else.
pub proof fn law_trimmed(before: Seq<char>, s: Seq<char>, after: Seq<char>)
    requires
        forall|i: int| 0 <= i < before.len() ==> white(#[trigger] before[i]),
        forall|i: int| 0 <= i < after.len() ==> white(#[trigger] after[i]),
        s.len() > 0 ==> !white(s[0]) && !white(s.last()),
    ensures
        trimmed(s) == s,
        trimmed(before + s + after) == s,
{
    let t = before + s + after;
    lemma_trimmed_start(before, s + after);
    assert(before + (s + after) =~= t);
    if s.len() > 0 {
        assert((s + after)[0] == s[0]);
        assert(trimmed_start(s + after) == s + after);
        lemma_trimmed_end(s, after);
        assert(trimmed_end(s) == s);
    } else {
        assert(s + after =~= after);
        let none = Seq::<char>::empty();
        assert(after + none =~= after);
        lemma_trimmed_start(after, none);
        assert(trimmed_start(none) == none);
        assert(trimmed_end(none) == none);
        assert(s =~= none);
    }
}

proof fn lemma_trimmed_start(before: Seq<char>, s: Seq<char>)
    requires
        forall|i: int| 0 <= i < before.len() ==> white(#[trigger] before[i]),
    ensures
        trimmed_start(before + s) == trimmed_start(s),
    decreases before.len(),
{
    if before.len() == 0 {
        assert(before + s =~= s);
    } else {
        let rest = before.drop_first();
        assert forall|i: int| 0 <= i < rest.len() implies white(#[trigger] rest[i]) by {
            assert(white(before[i + 1]));
        }
        lemma_trimmed_start(rest, s);
        assert(white(before[0]));
        assert((before + s).drop_first() =~= rest + s);
    }
}

proof fn lemma_trimmed_end(s: Seq<char>, after: Seq<char>)
    requires
        forall|i: int| 0 <= i < after.len() ==> white(#[trigger] after[i]),
    ensures
        trimmed_end(s + after) == trimmed_end(s),
    decreases after.len(),
{
    if after.len() == 0 {
        assert(s + after =~= s);
    } else {
        let rest = after.drop_last();
        assert forall|i: int| 0 <= i < rest.len() implies white(#[trigger] rest[i]) by {
            assert(white(after[i]));
        }
        lemma_trimmed_end(s, rest);
        assert(white(after[after.len() - 1]));
        assert((s + after).drop_last() =~= s + rest);
    }
}

/// Every text is white space around what stripping leaves of it, which neither begins nor ends
/// with white space.
pub proof fn law_trimmed_is_inside(s: Seq<char>) -> (ends: (int, int))
    ensures
        0 <= ends.0 <= ends.1 <= s.len(),
        trimmed(s) == s.subrange(ends.0, ends.1),
        forall|i: int| 0 <= i < ends.0 || ends.1 <= i < s.len() ==> white(#[trigger] s[i]),
        ends.0 < ends.1 ==> !white(s[ends.0]) && !white(s[ends.1 - 1]),
{
    let i = lemma_first_dark(s);
    let t = s.skip(i);
    let j = lemma_last_dark(t);
    assert(t.take(j) =~= s.subrange(i, i + j));
    assert forall|k: int| i + j <= k < s.len() implies white(#[trigger] s[k]) by {
        assert(white(t[k - i]));
    }
    if j > 0 {
        assert(s[i + j - 1] == t[j - 1]);
        assert(s[i] == t[0]);
    }
    (i, i + j)
}

proof fn lemma_first_dark(s: Seq<char>) -> (i: int)
    ensures
        0 <= i <= s.len(),
        trimmed_start(s) == s.skip(i),
        forall|k: int| 0 <= k < i ==> white(#[trigger] s[k]),
        i < s.len() ==> !white(s[i]),
    decreases s.len(),
{
    if s.len() > 0 && white(s[0]) {
        let rest = s.drop_first();
        let i = lemma_first_dark(rest);
        assert(rest.skip(i) =~= s.skip(i + 1));
        assert forall|k: int| 0 <= k < i + 1 implies white(#[trigger] s[k]) by {
            if k > 0 {
                assert(white(rest[k - 1]));
            }
        }
        if i < rest.len() {
            assert(rest[i] == s[i + 1]);
        }
        i + 1
    } else {
        assert(s.skip(0) =~= s);
        0
    }
}

proof fn lemma_last_dark(s: Seq<char>) -> (j: int)
    ensures
        0 <= j <= s.len(),
        trimmed_end(s) == s.take(j),
        forall|k: int| j <= k < s.len() ==> white(#[trigger] s[k]),
        j > 0 ==> !white(s[j - 1]),
    decreases s.len(),
{
    if s.len() > 0 && white(s.last()) {
        let rest = s.drop_last();
        let j = lemma_last_dark(rest);
        assert(rest.take(j) =~= s.take(j));
        assert forall|k: int| j <= k < s.len() implies white(#[trigger] s[k]) by {
            if k < rest.len() {
                assert(white(rest[k]));
            }
        }
        if j > 0 {
            assert(rest[j - 1] == s[j - 1]);
        }
        j
    } else {
        assert(s.take(s.len() as int) =~= s);
        s.len() as int
    }
}

/// The lower-case form of an ASCII letter; any other character stays.
pub open spec fn lower(c: char) -> char {
    if 'A' <= c <= 'Z' {
        (c as u32 + 32) as char
    } else {
        c
    }
}

/// Equality up to the case of ASCII letters.
pub open spec fn same_ignoring_case(a: Seq<char>, b: Seq<char>) -> bool {
    a.map_values(|c: char| lower(c)) == b.map_values(|c: char| lower(c))
}

/// Texts are compared character by character: the same one, or the same ASCII letter in
/// another case.
pub proof fn law_case_does_not_matter(a: Seq<char>, b: Seq<char>)
    ensures
        same_ignoring_case(a, b) <==> a.len() == b.len() && forall|i: int|
            #![trigger a[i]]
            0 <= i < a.len() ==> a[i] == b[i] || ('A' <= a[i] <= 'Z' && b[i] as u32 == a[i] as u32
                + 32) || ('A' <= b[i] <= 'Z' && a[i] as u32 == b[i] as u32 + 32),
{
    let x = a.map_values(|c: char| lower(c));
    let y = b.map_values(|c: char| lower(c));
    if same_ignoring_case(a, b) {
        assert(x.len() == y.len());
        assert forall|i: int| #![trigger a[i]] 0 <= i < a.len() implies a[i] == b[i] || ('A' <= a[i]
            <= 'Z' && b[i] as u32 == a[i] as u32 + 32) || ('A' <= b[i] <= 'Z' && a[i] as u32
            == b[i] as u32 + 32) by {
            assert(x[i] == lower(a[i]) && y[i] == lower(b[i]));
        }
    }
    if a.len() == b.len() && forall|i: int|
        #![trigger a[i]]
        0 <= i < a.len() ==> a[i] == b[i] || ('A' <= a[i] <= 'Z' && b[i] as u32 == a[i] as u32 + 32)
            || ('A' <= b[i] <= 'Z' && a[i] as u32 == b[i] as u32 + 32) {
        assert forall|i: int| 0 <= i < x.len() implies x[i] == y[i] by {
            assert(a[i] == a[i]);
        }
        assert(x =~= y);
    }
}

fn to_lower(c: char) -> (r: char)
    ensures
        r == lower(c),
{
    if 'A' <= c && c <= 'Z' {
        (c as u8 + 32) as char
    } else {
        c
    }
}

/// Whether two texts are equal up to the case of ASCII letters.
pub fn eq_ignoring_case(a: &[char], b: &[char]) -> (r: bool)
    ensures
        r == same_ignoring_case(a@, b@),
{
    let ghost x = a@.map_values(|c: char| lower(c));
    let ghost y = b@.map_values(|c: char| lower(c));
    if a.len() != b.len() {
        assert(x.len() != y.len());
        return false;
    }
    let mut i: usize = 0;
    while i < a.len()
        invariant
            i <= a@.len(),
            a@.len() == b@.len(),
            x == a@.map_values(|c: char| lower(c)),
            y == b@.map_values(|c: char| lower(c)),
            forall|k: int| 0 <= k < i ==> x[k] == y[k],
        decreases a@.len() - i,
    {
        if to_lower(a[i]) != to_lower(b[i]) {
            assert(x[i as int] != y[i as int]);
            return false;
        }
        i += 1;
    }
    assert(x =~= y);
    true
}

/// Whether two texts are equal.
pub fn same(a: &[char], b: &[char]) -> (r: bool)
    ensures
        r == (a@ == b@),
{
    if a.len() != b.len() {
        return false;
    }
    let mut i: usize = 0;
    while i < a.len()
        invariant
            i <= a@.len(),
            a@.len() == b@.len(),
            forall|k: int| 0 <= k < i ==> a@[k] == b@[k],
        decreases a@.len() - i,
    {
        if a[i] != b[i] {
            return false;
        }
        i += 1;
    }
    assert(a@ =~= b@);
    true
}

/// Whether `s` begins with `p`.
pub open spec fn begins(s: Seq<char>, p: Seq<char>) -> bool {
    p.len() <= s.len() && s.take(p.len() as int) == p
}

/// What follows `p` at the beginning of `s`.
pub fn strip_prefix<'a>(s: &'a [char], p: &[char]) -> (r: Option<&'a [char]>)
    ensures
        match r {
            Some(t) => begins(s@, p@) && t@ == s@.skip(p@.len() as int),
            None => !begins(s@, p@),
        },
{
    if s.len() < p.len() {
        return None;
    }
    let n: usize = p.len();
    let front: &[char] = piece(s, 0, n);
    assert(front@ =~= s@.take(n as int));
    if same(front, p) {
        let len: usize = s.len();
        let rest: &[char] = piece(s, n, len);
        assert(rest@ =~= s@.skip(n as int));
        Some(rest)
    } else {
        None
    }
}

/// The position of the first `c` in `s`, or the length of `s` if there is none.
pub open spec fn index_of(s: Seq<char>, c: char) -> int
    decreases s.len(),
{
    if s.len() == 0 || s[0] == c {
        0
    } else {
        1 + index_of(s.drop_first(), c)
    }
}

/// What is found is the first `c`: it stands there, or at the end if there is none, and not
/// before.
pub proof fn law_index_of(s: Seq<char>, c: char, i: int)
    ensures
        index_of(s, c) == i <==> 0 <= i <= s.len() && (i < s.len() ==> s[i] == c) && forall|
            k: int,
        |
            0 <= k < i ==> s[k] != c,
    decreases s.len(),
{
    if s.len() == 0 || s[0] == c {
    } else {
        let rest = s.drop_first();
        law_index_of(rest, c, i - 1);
        law_index_of(rest, c, index_of(rest, c));
        if 0 < i <= s.len() {
            if forall|k: int| 0 <= k < i ==> s[k] != c {
                assert forall|k: int| 0 <= k < i - 1 implies rest[k] != c by {
                    assert(s[k + 1] != c);
                }
            }
            if forall|k: int| 0 <= k < i - 1 ==> rest[k] != c {
                assert forall|k: int| 0 <= k < i implies s[k] != c by {
                    if k > 0 {
                        assert(rest[k - 1] != c);
                    }
                }
            }
        }
    }
}

/// Finds the first `c` in `s`; the length of `s` if there is none.
pub fn find(s: &[char], c: char) -> (r: usize)
    ensures
        r == index_of(s@, c),
        r <= s@.len(),
        r < s@.len() ==> s@[r as int] == c,
        forall|k: int| 0 <= k < r ==> s@[k] != c,
{
    let mut i: usize = 0;
    assert(s@.skip(0) =~= s@);
    while i < s.len() && s[i] != c
        invariant
            i <= s@.len(),
            index_of(s@, c) == i + index_of(s@.skip(i as int), c),
            forall|k: int| 0 <= k < i ==> s@[k] != c,
        decreases s@.len() - i,
    {
        assert(s@.skip(i as int).drop_first() =~= s@.skip(i + 1));
        i += 1;
    }
    i
}

/// A decimal digit.
pub open spec fn digit(n: nat) -> char {
    (48 + n) as char
}

/// A number in decimal notation.
pub open spec fn decimal(n: nat) -> Seq<char>
    decreases n,
{
    if n < 10 {
        seq![digit(n)]
    } else {
        decimal(n / 10).push(digit(n % 10))
    }
}

/// Appends a number in decimal notation.
pub fn put_decimal(out: &mut String, n: u64)
    ensures
        final(out)@ == old(out)@ + decimal(n as nat),
    decreases n,
{
    if n >= 10 {
        put_decimal(out, n / 10);
    }
    out.push((48 + (n % 10) as u8) as char);
    assert(out@ =~= old(out)@ + decimal(n as nat));
}

/// The value of a sequence of decimal digits; `None` if a character is none.
pub open spec fn digits_value(s: Seq<char>) -> Option<nat>
    decreases s.len(),
{
    if s.len() == 0 {
        Some(0)
    } else {
        match digits_value(s.drop_last()) {
            Some(n) if '0' <= s.last() <= '9' => Some((n * 10 + (s.last() as u32 - 48)) as nat),
            _ => None,
        }
    }
}

/// The number that a text stands for: digits, at least one, after an optional plus sign,
/// and not more than `max`.
pub open spec fn number_of(s: Seq<char>, max: nat) -> Option<nat> {
    let digits = if s.len() > 0 && s[0] == '+' {
        s.drop_first()
    } else {
        s
    };
    if digits.len() == 0 {
        None
    } else {
        match digits_value(digits) {
            Some(n) if n <= max => Some(n),
            _ => None,
        }
    }
}

/// A prefix of a text that is no number, or too large a one, makes the whole so.
proof fn lemma_digits_prefix(s: Seq<char>, i: int)
    requires
        0 <= i <= s.len(),
    ensures
        digits_value(s.take(i)) is None ==> digits_value(s) is None,
        digits_value(s.take(i)) matches Some(n) ==> (digits_value(s) matches Some(m) ==> n <= m),
    decreases s.len() - i,
{
    if i < s.len() {
        lemma_digits_prefix(s, i + 1);
        assert(s.take(i + 1).drop_last() =~= s.take(i));
    } else {
        assert(s.take(i) =~= s);
    }
}

/// Parses an unsigned number that is not more than `max`.
pub fn parse_number(s: &str, max: u64) -> (r: Option<u64>)
    ensures
        match r {
            Some(n) => number_of(s@, max as nat) == Some(n as nat),
            None => number_of(s@, max as nat) is None,
        },
{
    let all: Vec<char> = to_chars(s);
    let len: usize = all.len();
    let start: usize = if len > 0 && all[0] == '+' {
        1
    } else {
        0
    };
    let digits: &[char] = piece(all.as_slice(), start, len);
    let ghost d = if s@.len() > 0 && s@[0] == '+' {
        s@.drop_first()
    } else {
        s@
    };
    assert(digits@ =~= d);
    if digits.len() == 0 {
        return None;
    }
    let mut n: u64 = 0;
    let mut i: usize = 0;
    assert(d.take(0) =~= seq![]);
    while i < digits.len()
        invariant
            digits@ == d,
            i <= d.len(),
            digits_value(d.take(i as int)) == Some(n as nat),
            d.len() > 0,
            d == (if s@.len() > 0 && s@[0] == '+' {
                s@.drop_first()
            } else {
                s@
            }),
            n <= max,
        decreases d.len() - i,
    {
        let c: char = digits[i];
        proof {
            assert(d.take(i + 1).drop_last() =~= d.take(i as int));
            lemma_digits_prefix(d, i + 1);
        }
        if c < '0' || c > '9' {
            return None;
        }
        let value: u128 = n as u128 * 10 + (c as u32 - 48) as u128;
        if value > max as u128 {
            return None;
        }
        n = value as u64;
        i += 1;
    }
    assert(d.take(i as int) =~= d);
    Some(n)
}

/// Reading back a number in decimal notation gives the number.
pub proof fn law_number_of_decimal(n: nat, max: nat)
    requires
        n <= max,
    ensures
        number_of(decimal(n), max) == Some(n),
{
    lemma_digits_of_decimal(n);
}

proof fn lemma_digits_of_decimal(n: nat)
    ensures
        digits_value(decimal(n)) == Some(n),
        decimal(n).len() > 0,
        decimal(n)[0] != '+',
    decreases n,
{
    if n < 10 {
        assert(decimal(n).drop_last() =~= Seq::<char>::empty());
        assert(digits_value(Seq::<char>::empty()) == Some(0nat));
    } else {
        lemma_digits_of_decimal(n / 10);
        assert(decimal(n).drop_last() =~= decimal(n / 10));
    }
}

/// What a number looks like: at least one character, each a decimal digit, after an optional plus
/// sign. One digit more makes it ten times what it was, plus the digit.
pub proof fn law_numbers(s: Seq<char>, c: char, max: nat)
    requires
        s.len() > 0,
        s[0] != '+',
    ensures
        number_of(seq![], max) is None,
        number_of(seq!['+'], max) is None,
        number_of(seq!['+'] + s, max) == number_of(s, max),
        (exists|i: int| 0 <= i < s.len() && !('0' <= #[trigger] s[i] <= '9')) ==> number_of(s, max)
            is None,
        number_of(s, max) matches Some(n) ==> n <= max,
        '0' <= c <= '9' ==> number_of(seq![c], max) == (if c as u32 - 48 <= max {
            Some((c as u32 - 48) as nat)
        } else {
            None
        }),
        '0' <= c <= '9' && number_of(s, max) is Some ==> ({
            let n = 10 * number_of(s, max)->0 + (c as u32 - 48) as nat;
            number_of(s.push(c), max) == (if n <= max {
                Some(n)
            } else {
                None
            })
        }),
{
    let none = Seq::<char>::empty();
    assert(seq!['+'].drop_first() =~= none);
    assert((seq!['+'] + s).drop_first() =~= s);
    assert(s.push(c).drop_last() =~= s);
    assert(seq![c].drop_last() =~= none);
    assert(digits_value(none) == Some(0nat));
    lemma_all_digits(s);
}

/// A text with a value consists of digits.
proof fn lemma_all_digits(s: Seq<char>)
    ensures
        digits_value(s) is Some ==> forall|i: int|
            0 <= i < s.len() ==> '0' <= #[trigger] s[i] <= '9',
    decreases s.len(),
{
    if s.len() > 0 {
        let front = s.drop_last();
        lemma_all_digits(front);
        if digits_value(s) is Some {
            assert forall|i: int| 0 <= i < s.len() implies '0' <= #[trigger] s[i] <= '9' by {
                if i < front.len() {
                    assert(s[i] == front[i]);
                }
            }
        }
    }
}

/// Decimal notation: a single digit stands for itself, and a further digit is written behind.
/// So no number begins with a zero but zero itself.
pub proof fn law_decimal(n: nat, d: nat)
    requires
        d < 10,
    ensures
        decimal(d) == seq![(48 + d) as char],
        n > 0 ==> decimal(10 * n + d) == decimal(n) + seq![(48 + d) as char],
        n > 0 ==> decimal(n)[0] != '0',
    decreases n,
{
    if n > 0 {
        let m = 10 * n + d;
        assert(m / 10 == n && m % 10 == d);
        assert(decimal(m) =~= decimal(n) + seq![(48 + d) as char]);
        lemma_no_leading_zero(n);
    }
}

proof fn lemma_no_leading_zero(n: nat)
    requires
        n > 0,
    ensures
        decimal(n).len() > 0,
        decimal(n)[0] != '0',
    decreases n,
{
    if n >= 10 {
        lemma_no_leading_zero(n / 10);
    }
}

/// White space is what Unicode calls so: among the ASCII characters the tabulators, line ends, form
/// feed and space; the next line and the no-break space; the spaces of fixed width and the
/// separators of lines and paragraphs; and the spaces of Ogham, of mathematics and of the East.
pub proof fn law_white_space(c: char)
    ensures
        white(c) <==> ({
            ||| c == '\t' || c == '\n' || c as u32 == 0x0B || c as u32 == 0x0C || c == '\r' || c
                == ' '
            ||| c as u32 == 0x85 || c as u32 == 0xA0
            ||| 0x2000 <= c as u32 <= 0x200A || c as u32 == 0x202F
            ||| c as u32 == 0x2028 || c as u32 == 0x2029
            ||| c as u32 == 0x1680 || c as u32 == 0x205F || c as u32 == 0x3000
        }),
{
}

} // verus!
