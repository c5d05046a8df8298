//! Numbers in hexadecimal text.

use vstd::prelude::*;

verus! {

pub open spec fn hex_char(n: nat) -> char {
    if n < 10 {
        (48 + n) as char
    } else {
        (87 + n) as char
    }
}

/// The hexadecimal digits of a number.
pub open spec fn hexadecimal(n: nat) -> Seq<char>
    decreases n,
{
    if n < 16 {
        seq![hex_char(n)]
    } else {
        hexadecimal(n / 16).push(hex_char(n % 16))
    }
}

/// The hexadecimal digits of a number.
pub fn render_hex(n: u128) -> (r: String)
    ensures
        r@ == hexadecimal(n as nat),
    decreases n,
{
    let digit: u8 = (n % 16) as u8;
    let c: char = if digit < 10 {
        (48u8 + digit) as char
    } else {
        (87u8 + digit) as char
    };
    if n < 16 {
        let mut out = String::new();
        out.push(c);
        assert(out@ =~= hexadecimal(n as nat));
        out
    } else {
        let mut out = render_hex(n / 16);
        out.push(c);
        out
    }
}

/// The value of a hexadecimal digit.
spec fn hex_value(c: char) -> nat {
    if c <= '9' {
        (c as u32 - 48) as nat
    } else {
        (c as u32 - 87) as nat
    }
}

spec fn hex_number(s: Seq<char>) -> nat
    decreases s.len(),
{
    if s.len() == 0 {
        0
    } else {
        hex_number(s.drop_last()) * 16 + hex_value(s.last())
    }
}

proof fn lemma_hex_number(n: nat)
    ensures
        hex_number(hexadecimal(n)) == n,
    decreases n,
{
    let d = n % 16;
    assert(hex_value(hex_char(d)) == d);
    if n >= 16 {
        lemma_hex_number(n / 16);
        assert(hexadecimal(n).drop_last() =~= hexadecimal(n / 16));
        assert(n == (n / 16) * 16 + n % 16);
    } else {
        assert(hexadecimal(n).drop_last() =~= Seq::<char>::empty());
        assert(hex_number(Seq::<char>::empty()) == 0);
    }
}

/// Different numbers have different digits, and no digit is a hyphen or a slash.
pub proof fn lemma_hexadecimal(n: nat, m: nat)
    ensures
        hexadecimal(n) == hexadecimal(m) ==> n == m,
        hexadecimal(n).len() > 0,
        forall|i: int|
            0 <= i < hexadecimal(n).len() ==> (#[trigger] hexadecimal(n)[i]) != '-'
                && hexadecimal(n)[i] != '/',
    decreases n,
{
    lemma_hex_number(n);
    lemma_hex_number(m);
    if n >= 16 {
        lemma_hexadecimal(n / 16, m);
        let head = hexadecimal(n / 16);
        assert forall|i: int| 0 <= i < hexadecimal(n).len() implies (
        #[trigger] hexadecimal(n)[i]) != '-' && hexadecimal(n)[i] != '/' by {
            if i < head.len() {
                assert(hexadecimal(n)[i] == head[i]);
            }
        }
    }
}

} // verus!
