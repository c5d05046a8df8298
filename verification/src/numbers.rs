//! Numbers in decimal text and in bytes.

use crate::text::chars_of;
use vstd::prelude::*;

verus! {

pub open spec fn is_digit(c: char) -> bool {
    '0' <= c <= '9'
}

/// The number that a text of digits names.
pub open spec fn digits_value(s: Seq<char>) -> Option<nat>
    decreases s.len(),
{
    if s.len() == 0 || !is_digit(s.last()) {
        None
    } else {
        let digit = (s.last() as u32 - 48) as nat;
        if s.len() == 1 {
            Some(digit)
        } else {
            match digits_value(s.drop_last()) {
                Some(n) => Some(n * 10 + digit),
                None => None,
            }
        }
    }
}

/// The number that a text names: digits, after a plus sign or without one.
pub open spec fn unsigned_value(s: Seq<char>) -> Option<nat> {
    if s.len() > 0 && s[0] == '+' {
        digits_value(s.skip(1))
    } else {
        digits_value(s)
    }
}

/// The number that a text names: digits, after a sign or without one.
pub open spec fn signed_value(s: Seq<char>) -> Option<int> {
    if s.len() > 0 && s[0] == '-' {
        match digits_value(s.skip(1)) {
            Some(n) => Some(-(n as int)),
            None => None,
        }
    } else {
        match unsigned_value(s) {
            Some(n) => Some(n as int),
            None => None,
        }
    }
}

/// The unsigned number of at most `max` that a text names.
pub open spec fn bounded_value(s: Seq<char>, max: nat) -> Option<nat> {
    match unsigned_value(s) {
        Some(n) => if n <= max {
            Some(n)
        } else {
            None
        },
        None => None,
    }
}

/// The number of 32 bits with a sign that a text names.
pub open spec fn i32_value(s: Seq<char>) -> Option<int> {
    match signed_value(s) {
        Some(n) => if i32::MIN <= n <= i32::MAX {
            Some(n)
        } else {
            None
        },
        None => None,
    }
}

pub open spec fn digit_char(n: nat) -> char {
    (48 + n) as u8 as char
}

/// The digits of a number.
pub open spec fn decimal(n: nat) -> Seq<char>
    decreases n,
{
    if n < 10 {
        seq![digit_char(n)]
    } else {
        decimal(n / 10).push(digit_char(n % 10))
    }
}

/// The digits of a number, after a minus sign where it is negative.
pub open spec fn signed_decimal(n: int) -> Seq<char> {
    if n < 0 {
        seq!['-'] + decimal((-n) as nat)
    } else {
        decimal(n as nat)
    }
}

/// The digits of a number name the number.
pub proof fn lemma_decimal(n: nat)
    ensures
        digits_value(decimal(n)) == Some(n),
        decimal(n).len() > 0,
        forall|i: int| 0 <= i < decimal(n).len() ==> is_digit(#[trigger] decimal(n)[i]),
        unsigned_value(decimal(n)) == Some(n),
        signed_value(decimal(n)) == Some(n as int),
    decreases n,
{
    if n >= 10 {
        lemma_decimal(n / 10);
        let head = decimal(n / 10);
        assert(decimal(n).drop_last() =~= head);
        assert forall|i: int| 0 <= i < decimal(n).len() implies is_digit(
            #[trigger] decimal(n)[i],
        ) by {
            if i < head.len() {
                assert(decimal(n)[i] == head[i]);
            }
        }
    }
    assert(is_digit(decimal(n)[0]));
}

pub proof fn lemma_signed_decimal(n: int)
    ensures
        signed_value(signed_decimal(n)) == Some(n),
        signed_decimal(n).len() > 0,
        forall|i: int|
            0 <= i < signed_decimal(n).len() ==> is_digit(#[trigger] signed_decimal(n)[i])
                || signed_decimal(n)[i] == '-',
{
    if n < 0 {
        let m = (-n) as nat;
        lemma_decimal(m);
        assert(signed_decimal(n).skip(1) =~= decimal(m));
        assert forall|i: int| 0 <= i < signed_decimal(n).len() implies is_digit(
            #[trigger] signed_decimal(n)[i],
        ) || signed_decimal(n)[i] == '-' by {
            if i > 0 {
                assert(signed_decimal(n)[i] == decimal(m)[i - 1]);
            }
        }
    } else {
        lemma_decimal(n as nat);
    }
}

/// A digit more only makes a number larger.
proof fn lemma_digits_grow(s: Seq<char>, i: int)
    requires
        0 < i <= s.len(),
    ensures
        digits_value(s) is Some ==> digits_value(s.take(i)) is Some && digits_value(s.take(i))->0
            <= digits_value(s)->0,
    decreases s.len() - i,
{
    if i == s.len() {
        assert(s.take(i) =~= s);
    } else {
        lemma_digits_grow(s, i + 1);
        assert(s.take(i + 1).drop_last() =~= s.take(i));
    }
}

/// Reads digits.
fn parse_digits(chars: &[char], from: usize, max: u64) -> (r: Option<u64>)
    requires
        from <= chars@.len(),
    ensures
        r is Some <==> digits_value(chars@.skip(from as int)) is Some && digits_value(
            chars@.skip(from as int),
        )->0 <= max,
        r matches Some(n) ==> digits_value(chars@.skip(from as int)) == Some(n as nat),
{
    let ghost s = chars@.skip(from as int);
    let mut value: u64 = 0;
    let mut i: usize = from;
    if i >= chars.len() {
        return None;
    }
    while i < chars.len()
        invariant
            from <= i <= chars@.len(),
            s == chars@.skip(from as int),
            i > from ==> digits_value(s.take(i - from)) == Some(value as nat),
            i == from ==> value == 0,
            value <= max,
        decreases chars@.len() - i,
    {
        let c: char = chars[i];
        proof {
            let next = s.take(i - from + 1);
            assert(next.drop_last() =~= s.take(i - from));
            assert(next.last() == c);
            lemma_digits_grow(s, i - from + 1);
        }
        if !('0' <= c && c <= '9') {
            return None;
        }
        let digit: u64 = (c as u32 - 48) as u64;
        if value > max / 10 {
            assert(value * 10 > max) by (nonlinear_arith)
                requires
                    value > max / 10,
            ;
            return None;
        }
        let scaled: u64 = value * 10;
        if digit > max - scaled {
            return None;
        }
        value = scaled + digit;
        i += 1;
    }
    assert(s.take(i - from) =~= s);
    Some(value)
}

/// The number of at most `max` that the text names.
pub fn parse_bounded(text: &str, max: u64) -> (r: Option<u64>)
    ensures
        r is Some <==> bounded_value(text@, max as nat) is Some,
        r matches Some(n) ==> bounded_value(text@, max as nat) == Some(n as nat),
{
    let chars = chars_of(text);
    let start: usize = if chars.len() > 0 && chars[0] == '+' {
        1
    } else {
        0
    };
    assert(chars@.skip(0) =~= chars@);
    parse_digits(chars.as_slice(), start, max)
}

pub fn parse_u64(text: &str) -> (r: Option<u64>)
    ensures
        r is Some <==> bounded_value(text@, u64::MAX as nat) is Some,
        r matches Some(n) ==> bounded_value(text@, u64::MAX as nat) == Some(n as nat),
{
    parse_bounded(text, u64::MAX)
}

pub fn parse_u32(text: &str) -> (r: Option<u32>)
    ensures
        r is Some <==> bounded_value(text@, u32::MAX as nat) is Some,
        r matches Some(n) ==> bounded_value(text@, u32::MAX as nat) == Some(n as nat),
{
    match parse_bounded(text, u32::MAX as u64) {
        Some(n) => Some(n as u32),
        None => None,
    }
}

pub fn parse_i32(text: &str) -> (r: Option<i32>)
    ensures
        r is Some <==> i32_value(text@) is Some,
        r matches Some(n) ==> i32_value(text@) == Some(n as int),
{
    let chars = chars_of(text);
    assert(chars@.skip(0) =~= chars@);
    if chars.len() > 0 && chars[0] == '-' {
        match parse_digits(chars.as_slice(), 1, 0x8000_0000) {
            Some(n) => if n == 0x8000_0000 {
                Some(i32::MIN)
            } else {
                Some(-(n as i32))
            },
            None => None,
        }
    } else {
        match parse_bounded(text, 0x7fff_ffff) {
            Some(n) => Some(n as i32),
            None => None,
        }
    }
}

/// The digits of a number.
pub fn render_u64(n: u64) -> (r: String)
    ensures
        r@ == decimal(n as nat),
    decreases n,
{
    if n < 10 {
        let mut out = String::new();
        out.push((48u8 + n as u8) as char);
        assert(out@ =~= decimal(n as nat));
        out
    } else {
        let mut out = render_u64(n / 10);
        out.push((48u8 + (n % 10) as u8) as char);
        out
    }
}

pub fn render_i32(n: i32) -> (r: String)
    ensures
        r@ == signed_decimal(n as int),
{
    if n < 0 {
        let digits = render_u64((-(n as i64)) as u64);
        let mut out = String::new();
        out.push('-');
        out.append(&digits);
        assert(out@ =~= signed_decimal(n as int));
        out
    } else {
        render_u64(n as u64)
    }
}

/// The four bytes of a number, the highest first.
pub open spec fn be_bytes(n: u32) -> Seq<u8> {
    seq![
        (n / 0x100_0000) as u8,
        ((n / 0x1_0000) % 0x100) as u8,
        ((n / 0x100) % 0x100) as u8,
        (n % 0x100) as u8,
    ]
}

/// The number that four bytes make up, the highest first.
pub open spec fn be_value(b: Seq<u8>) -> u32 {
    (b[0] * 0x100_0000 + b[1] * 0x1_0000 + b[2] * 0x100 + b[3]) as u32
}

pub proof fn lemma_be_round_trip(n: u32)
    ensures
        be_value(be_bytes(n)) == n,
        be_bytes(n).len() == 4,
{
}

/// Appends the four bytes of a number.
pub fn push_be(out: &mut Vec<u8>, n: u32)
    ensures
        final(out)@ == old(out)@ + be_bytes(n),
{
    out.push((n / 0x100_0000) as u8);
    out.push(((n / 0x1_0000) % 0x100) as u8);
    out.push(((n / 0x100) % 0x100) as u8);
    out.push((n % 0x100) as u8);
    assert(out@ =~= old(out)@ + be_bytes(n));
}

/// The number that the four bytes at `at` make up.
pub fn be_at(bytes: &[u8], at: usize) -> (r: u32)
    requires
        at + 4 <= bytes@.len(),
    ensures
        r == be_value(bytes@.subrange(at as int, at + 4)),
{
    bytes[at] as u32 * 0x100_0000 + bytes[at + 1] as u32 * 0x1_0000 + bytes[at + 2] as u32 * 0x100
        + bytes[at + 3] as u32
}

/// The two bytes of a number, the highest first.
pub open spec fn be16_bytes(n: u16) -> Seq<u8> {
    seq![(n / 0x100) as u8, (n % 0x100) as u8]
}

/// The number that two bytes make up, the highest first.
pub open spec fn be16_value(b: Seq<u8>) -> u16 {
    (b[0] * 0x100 + b[1]) as u16
}

pub proof fn lemma_be16_round_trip(n: u16)
    ensures
        be16_value(be16_bytes(n)) == n,
        be16_bytes(n).len() == 2,
{
}

/// Four bytes are those of the number that they make up.
pub proof fn lemma_be_bytes_of_value(b: Seq<u8>)
    requires
        b.len() == 4,
    ensures
        be_bytes(be_value(b)) == b,
{
    lemma_be_parts(b[0], b[1], b[2], b[3]);
    assert(be_bytes(be_value(b)) =~= b);
}

proof fn lemma_be_parts(a: u8, b: u8, c: u8, d: u8)
    ensures
        ({
            let n = (a * 0x100_0000 + b * 0x1_0000 + c * 0x100 + d) as u32;
            &&& (n / 0x100_0000) as u8 == a
            &&& ((n / 0x1_0000) % 0x100) as u8 == b
            &&& ((n / 0x100) % 0x100) as u8 == c
            &&& (n % 0x100) as u8 == d
        }),
{
    let n = a * 0x100_0000 + b * 0x1_0000 + c * 0x100 + d;
    assert(0 <= n <= u32::MAX);
    assert(n / 0x100_0000 == a);
    assert(n / 0x1_0000 == a * 0x100 + b);
    assert((a * 0x100 + b) % 0x100 == b);
    assert(n / 0x100 == a * 0x1_0000 + b * 0x100 + c);
    assert((a * 0x1_0000 + b * 0x100 + c) % 0x100 == c);
    assert(n % 0x100 == d);
}

pub proof fn lemma_be16_bytes_of_value(b: Seq<u8>)
    requires
        b.len() == 2,
    ensures
        be16_bytes(be16_value(b)) == b,
{
    lemma_be16_parts(b[0], b[1]);
    assert(be16_bytes(be16_value(b)) =~= b);
}

proof fn lemma_be16_parts(a: u8, b: u8)
    ensures
        ({
            let n = (a * 0x100 + b) as u16;
            &&& (n / 0x100) as u8 == a
            &&& (n % 0x100) as u8 == b
        }),
{
}

/// Appends the two bytes of a number.
pub fn push_be16(out: &mut Vec<u8>, n: u16)
    ensures
        final(out)@ == old(out)@ + be16_bytes(n),
{
    out.push((n / 0x100) as u8);
    out.push((n % 0x100) as u8);
    assert(out@ =~= old(out)@ + be16_bytes(n));
}

/// The number that the two bytes at `at` make up.
pub fn be16_at(bytes: &[u8], at: usize) -> (r: u16)
    requires
        at + 2 <= bytes@.len(),
    ensures
        r == be16_value(bytes@.subrange(at as int, at + 2)),
{
    bytes[at] as u16 * 0x100 + bytes[at + 1] as u16
}

} // verus!
