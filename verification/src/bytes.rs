//! Byte strings, as programs are given them for arguments and environment entries.

use crate::file_argument_translation::text_from_utf8;
use vstd::prelude::*;
use vstd::utf8::{decode_utf8, encode_utf8, valid_utf8};

verus! {

/// The byte strings that a sequence of vectors holds.
pub open spec fn byte_views(v: Seq<Vec<u8>>) -> Seq<Seq<u8>> {
    Seq::new(v.len(), |i: int| v[i]@)
}

pub proof fn lemma_byte_views_push(v: Seq<Vec<u8>>, x: Vec<u8>)
    ensures
        byte_views(v.push(x)) == byte_views(v).push(x@),
{
    assert(byte_views(v.push(x)) =~= byte_views(v).push(x@));
}

/// A copy of the bytes.
pub fn copy_bytes(bytes: &[u8]) -> (r: Vec<u8>)
    ensures
        r@ == bytes@,
{
    let mut out: Vec<u8> = Vec::new();
    push_bytes(&mut out, bytes);
    assert(out@ =~= bytes@);
    out
}

/// Appends the bytes.
pub fn push_bytes(out: &mut Vec<u8>, bytes: &[u8])
    ensures
        final(out)@ == old(out)@ + bytes@,
{
    let ghost start = out@;
    let mut i: usize = 0;
    assert(start + bytes@.take(0) =~= start);
    while i < bytes.len()
        invariant
            i <= bytes@.len(),
            out@ == start + bytes@.take(i as int),
        decreases bytes@.len() - i,
    {
        out.push(bytes[i]);
        assert((start + bytes@.take(i as int)).push(bytes@[i as int]) =~= start + bytes@.take(
            i + 1,
        ));
        i += 1;
    }
    assert(bytes@.take(i as int) =~= bytes@);
}

/// The bytes `from..to`.
pub fn slice_bytes(bytes: &[u8], from: usize, to: usize) -> (r: Vec<u8>)
    requires
        from <= to <= bytes@.len(),
    ensures
        r@ == bytes@.subrange(from as int, to as int),
{
    let mut out: Vec<u8> = Vec::new();
    let mut i: usize = from;
    while i < to
        invariant
            from <= i <= to <= bytes@.len(),
            out@ == bytes@.subrange(from as int, i as int),
        decreases to - i,
    {
        out.push(bytes[i]);
        i += 1;
        assert(out@ =~= bytes@.subrange(from as int, i as int));
    }
    out
}

/// Whether two byte strings are the same.
pub fn bytes_eq(a: &[u8], b: &[u8]) -> (r: bool)
    ensures
        r == (a@ == b@),
{
    if a.len() != b.len() {
        return false;
    }
    let mut i: usize = 0;
    while i < a.len()
        invariant
            i <= a@.len() == b@.len(),
            forall|j: int| 0 <= j < i ==> a@[j] == b@[j],
        decreases a@.len() - i,
    {
        if a[i] != b[i] {
            return false;
        }
        i += 1;
    }
    assert(a@ =~= b@);
    true
}

/// Whether the byte occurs.
pub fn contains_byte(bytes: &[u8], byte: u8) -> (r: bool)
    ensures
        r == bytes@.contains(byte),
{
    let mut i: usize = 0;
    while i < bytes.len()
        invariant
            i <= bytes@.len(),
            forall|j: int| 0 <= j < i ==> bytes@[j] != byte,
        decreases bytes@.len() - i,
    {
        if bytes[i] == byte {
            return true;
        }
        i += 1;
    }
    false
}

/// The bytes of a text.
pub fn text_bytes(text: &str) -> (r: Vec<u8>)
    ensures
        r@ == encode_utf8(text@),
{
    copy_bytes(text.as_bytes())
}

/// The text that the bytes encode, if they encode one.
pub open spec fn text_in(bytes: Seq<u8>) -> Option<Seq<char>> {
    if valid_utf8(bytes) {
        Some(decode_utf8(bytes))
    } else {
        None
    }
}

/// The text that the bytes encode, if they encode one.
pub fn bytes_text(bytes: &[u8]) -> (r: Option<String>)
    ensures
        r is Some <==> text_in(bytes@) is Some,
        r matches Some(text) ==> text_in(bytes@) == Some(text@),
{
    text_from_utf8(copy_bytes(bytes))
}

/// The bytes of a text encode it.
pub proof fn lemma_text_in(text: Seq<char>)
    ensures
        text_in(encode_utf8(text)) == Some(text),
{
    vstd::utf8::encode_utf8_valid_utf8(text);
    vstd::utf8::encode_utf8_decode_utf8(text);
}

/// The position of the first `byte`, or the length.
pub open spec fn first_byte(bytes: Seq<u8>, byte: u8) -> nat
    decreases bytes.len(),
{
    if bytes.len() == 0 || bytes[0] == byte {
        0
    } else {
        1 + first_byte(bytes.skip(1), byte)
    }
}

pub proof fn lemma_first_byte(bytes: Seq<u8>, byte: u8)
    ensures
        first_byte(bytes, byte) <= bytes.len(),
        first_byte(bytes, byte) < bytes.len() <==> bytes.contains(byte),
        first_byte(bytes, byte) < bytes.len() ==> bytes[first_byte(bytes, byte) as int] == byte,
        forall|j: int| 0 <= j < first_byte(bytes, byte) ==> bytes[j] != byte,
    decreases bytes.len(),
{
    if bytes.len() != 0 && bytes[0] != byte {
        let rest = bytes.skip(1);
        lemma_first_byte(rest, byte);
        assert forall|j: int| 0 <= j < first_byte(bytes, byte) implies bytes[j] != byte by {
            if j > 0 {
                assert(bytes[j] == rest[j - 1]);
            }
        }
        if bytes.contains(byte) {
            let j = choose|j: int| 0 <= j < bytes.len() && bytes[j] == byte;
            assert(rest[j - 1] == byte);
        }
        if first_byte(rest, byte) < rest.len() {
            assert(bytes[first_byte(rest, byte) as int + 1] == byte);
        }
    } else if bytes.len() != 0 {
        assert(bytes[0] == byte);
    }
}

/// The position of the first `byte`, or the length.
pub fn find_byte(bytes: &[u8], byte: u8) -> (r: usize)
    ensures
        r == first_byte(bytes@, byte),
        r <= bytes@.len(),
{
    let mut i: usize = 0;
    while i < bytes.len() && bytes[i] != byte
        invariant
            i <= bytes@.len(),
            forall|j: int| 0 <= j < i ==> bytes@[j] != byte,
        decreases bytes@.len() - i,
    {
        i += 1;
    }
    proof {
        lemma_first_byte(bytes@, byte);
        let f = first_byte(bytes@, byte) as int;
        if f < i {
            assert(bytes@[f] != byte);
        } else if i < f {
            assert(bytes@[i as int] != byte);
        }
    }
    i
}

/// The bytes of two texts one after the other.
pub proof fn lemma_encode_concat(a: Seq<char>, b: Seq<char>)
    ensures
        encode_utf8(a + b) == encode_utf8(a) + encode_utf8(b),
    decreases a.len(),
{
    if a.len() == 0 {
        assert(a + b =~= b);
        assert(encode_utf8(a) + encode_utf8(b) =~= encode_utf8(b));
    } else {
        assert((a + b).drop_first() =~= a.drop_first() + b);
        lemma_encode_concat(a.drop_first(), b);
        assert(encode_utf8(a + b) =~= encode_utf8(a) + encode_utf8(b));
    }
}

/// An ASCII character is one byte; the bytes of any other are all beyond ASCII.
pub proof fn lemma_encode_char(c: char)
    ensures
        (c as u32) < 0x80 ==> vstd::utf8::encode_scalar(c as u32) == seq![c as u8] && c as u8
            == c as u32,
        (c as u32) >= 0x80 ==> forall|i: int|
            0 <= i < vstd::utf8::encode_scalar(c as u32).len() ==> #[trigger]
                vstd::utf8::encode_scalar(c as u32)[i] >= 0x80,
        vstd::utf8::encode_scalar(c as u32).len() > 0,
{
    let n = c as u32;
    if n < 0x80 {
        assert(vstd::utf8::leading_byte_width_1(n) == n as u8) by (bit_vector)
            requires
                n < 0x80,
        ;
        assert(vstd::utf8::encode_scalar(n) =~= seq![c as u8]);
    } else {
        assert(vstd::utf8::leading_byte_width_2(n) >= 0x80) by (bit_vector);
        assert(vstd::utf8::leading_byte_width_3(n) >= 0x80) by (bit_vector);
        assert(vstd::utf8::leading_byte_width_4(n) >= 0x80) by (bit_vector);
        assert(vstd::utf8::last_continuation_byte(n) >= 0x80) by (bit_vector);
        assert(vstd::utf8::second_last_continuation_byte(n) >= 0x80) by (bit_vector);
        assert(vstd::utf8::third_last_continuation_byte(n) >= 0x80) by (bit_vector);
    }
}

proof fn lemma_same_code(a: char, b: char)
    ensures
        a as u32 == b as u32 ==> a == b,
{
}

/// An ASCII byte occurs in the bytes of a text if and only if its character occurs in the text.
pub proof fn lemma_encode_contains(text: Seq<char>, c: char)
    requires
        (c as u32) < 0x80,
    ensures
        encode_utf8(text).contains(c as u8) <==> text.contains(c),
        text.len() > 0 ==> encode_utf8(text).len() > 0 && (encode_utf8(text)[0] == c as u8
            <==> text[0] == c),
    decreases text.len(),
{
    if text.len() > 0 {
        let first = vstd::utf8::encode_scalar(text[0] as u32);
        let rest = text.drop_first();
        lemma_encode_contains(rest, c);
        lemma_encode_char(text[0]);
        lemma_same_code(text[0], c);
        let n = text[0] as u32;
        let m = c as u32;
        assert(m < 0x80 && c as u8 == m);
        if n < 0x80 {
            assert(text[0] as u8 == n);
            assert(first.len() == 1 && first[0] == n);
        }
        assert(first.contains(c as u8) ==> text[0] == c) by {
            if first.contains(c as u8) {
                let i = choose|i: int| 0 <= i < first.len() && first[i] == c as u8;
                assert(n < 0x80);
                assert(n == m);
            }
        }
        let bytes = encode_utf8(text);
        assert(bytes == first + encode_utf8(rest));
        assert(bytes[0] == first[0]);
        if first[0] == c as u8 {
            assert(first.contains(c as u8));
        }
        if bytes.contains(c as u8) {
            let i = choose|i: int| 0 <= i < bytes.len() && bytes[i] == c as u8;
            if i < first.len() {
                assert(first[i] == c as u8);
                assert(first.contains(c as u8));
                assert(text[0] == c);
            } else {
                assert(encode_utf8(rest)[i - first.len()] == c as u8);
                assert(rest.contains(c));
                let j = choose|j: int| 0 <= j < rest.len() && rest[j] == c;
                assert(text[j + 1] == c);
            }
        }
        if text.contains(c) {
            let j = choose|j: int| 0 <= j < text.len() && text[j] == c;
            if j == 0 {
                assert(bytes[0] == c as u8);
            } else {
                assert(rest[j - 1] == c);
                assert(encode_utf8(rest).contains(c as u8));
                let k = choose|k: int|
                    0 <= k < encode_utf8(rest).len() && encode_utf8(rest)[k] == c as u8;
                assert(bytes[first.len() + k] == c as u8);
            }
        }
    }
}

/// Whether the bytes hold the pattern at a place.
pub open spec fn matches_at(bytes: Seq<u8>, pattern: Seq<u8>, at: int) -> bool {
    0 <= at && at + pattern.len() <= bytes.len() && bytes.subrange(at, at + pattern.len())
        == pattern
}

/// The first place from `from` on where the bytes hold the pattern.
pub open spec fn first_match(bytes: Seq<u8>, pattern: Seq<u8>, from: int) -> Option<int>
    decreases bytes.len() + 1 - from,
{
    if from + pattern.len() > bytes.len() {
        None
    } else if matches_at(bytes, pattern, from) {
        Some(from)
    } else {
        first_match(bytes, pattern, from + 1)
    }
}

/// The first place where the bytes hold the pattern.
pub fn find_bytes(bytes: &[u8], pattern: &[u8]) -> (r: Option<usize>)
    ensures
        r is Some <==> first_match(bytes@, pattern@, 0) is Some,
        r matches Some(i) ==> first_match(bytes@, pattern@, 0) == Some(i as int) && i
            + pattern@.len() <= bytes@.len(),
{
    let n: usize = pattern.len();
    if n > bytes.len() {
        return None;
    }
    let total: usize = bytes.len();
    let last: usize = total - n;
    let mut i: usize = 0;
    while i <= last
        invariant
            n == pattern@.len(),
            total == bytes@.len(),
            last + n == total,
            i <= last + 1,
            first_match(bytes@, pattern@, 0) == first_match(bytes@, pattern@, i as int),
        decreases last + 1 - i,
    {
        let piece = slice_bytes(bytes, i, i + n);
        if bytes_eq(piece.as_slice(), pattern) {
            return Some(i);
        }
        if i == last {
            assert(first_match(bytes@, pattern@, i + 1) is None);
            return None;
        }
        i += 1;
    }
    None
}

/// The text in the bytes `from..to`, if there is one.
pub open spec fn text_between(bytes: Seq<u8>, from: int, to: int) -> Option<Seq<char>> {
    if 0 <= from <= to <= bytes.len() {
        text_in(bytes.subrange(from, to))
    } else {
        None
    }
}

/// The text in the bytes `from..to`, if there is one.
pub fn text_at(bytes: &[u8], from: usize, to: usize) -> (r: Option<String>)
    ensures
        r is Some <==> text_between(bytes@, from as int, to as int) is Some,
        r matches Some(text) ==> text_between(bytes@, from as int, to as int) == Some(text@),
{
    if from <= to && to <= bytes.len() {
        let piece = slice_bytes(bytes, from, to);
        bytes_text(piece.as_slice())
    } else {
        None
    }
}

} // verus!
