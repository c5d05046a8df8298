//! Which numbers digits stand for.

use crate::hexadecimal::{hex_char, hexadecimal};
use crate::numbers::{
    bounded_value, decimal, digit_char, digits_value, i32_value, lemma_decimal, signed_decimal,
    signed_value, unsigned_value,
};
use vstd::prelude::*;

verus! {

/// The digit that stands for a number below sixteen.
pub open spec fn digit_of(n: nat) -> char {
    if n == 0 {
        '0'
    } else if n == 1 {
        '1'
    } else if n == 2 {
        '2'
    } else if n == 3 {
        '3'
    } else if n == 4 {
        '4'
    } else if n == 5 {
        '5'
    } else if n == 6 {
        '6'
    } else if n == 7 {
        '7'
    } else if n == 8 {
        '8'
    } else if n == 9 {
        '9'
    } else if n == 10 {
        'a'
    } else if n == 11 {
        'b'
    } else if n == 12 {
        'c'
    } else if n == 13 {
        'd'
    } else if n == 14 {
        'e'
    } else {
        'f'
    }
}

/// A text names a number if and only if it is made of digits and not empty; a digit more makes the
/// number ten times as large, and adds what the digit stands for.
pub proof fn lemma_numbers_digit_by_digit(s: Seq<char>, n: nat, k: nat)
    requires
        k < 10,
    ensures
        digits_value(s) is Some <==> s.len() > 0 && forall|i: int|
            0 <= i < s.len() ==> '0' <= #[trigger] s[i] <= '9',
        digits_value(seq![digit_of(k)]) == Some(k),
        digits_value(s) == Some(n) ==> digits_value(s.push(digit_of(k))) == Some(10 * n + k),
    decreases s.len(),
{
    let one = seq![digit_of(k)];
    assert(one.last() == digit_of(k));
    assert(s.push(digit_of(k)).drop_last() =~= s);
    if s.len() > 0 {
        let head = s.drop_last();
        lemma_numbers_digit_by_digit(head, n, k);
        if digits_value(s) is Some {
            assert forall|i: int| 0 <= i < s.len() implies '0' <= #[trigger] s[i] <= '9' by {
                if i < head.len() {
                    assert(head[i] == s[i]);
                }
            }
        }
        if forall|i: int| 0 <= i < s.len() ==> '0' <= #[trigger] s[i] <= '9' {
            assert('0' <= s[s.len() - 1] <= '9');
            assert forall|i: int| 0 <= i < head.len() implies '0' <= #[trigger] head[i] <= '9' by {
                assert(head[i] == s[i]);
            }
        }
    }
}

/// A plus sign before a number changes nothing, and a minus sign its sign where there can be one. No
/// number above the greatest that is asked for is taken.
pub proof fn lemma_signs_of_numbers(s: Seq<char>, n: nat, max: nat)
    requires
        digits_value(s) == Some(n),
    ensures
        unsigned_value(s) == Some(n),
        unsigned_value(seq!['+'] + s) == Some(n),
        unsigned_value(seq!['-'] + s) is None,
        signed_value(s) == Some(n as int),
        signed_value(seq!['+'] + s) == Some(n as int),
        signed_value(seq!['-'] + s) == Some(-(n as int)),
        bounded_value(s, max) == (if n <= max {
            Some(n)
        } else {
            None
        }),
        i32_value(s) == (if n <= 2147483647 {
            Some(n as int)
        } else {
            None
        }),
        i32_value(seq!['-'] + s) == (if n <= 2147483648 {
            Some(-(n as int))
        } else {
            None
        }),
{
    lemma_numbers_digit_by_digit(s, n, 0);
    assert('0' <= s[0] <= '9');
    assert((seq!['+'] + s).skip(1) =~= s);
    assert((seq!['-'] + s).skip(1) =~= s);
    lemma_numbers_digit_by_digit(seq!['-'] + s, n, 0);
    let t = seq!['-'] + s;
    assert(t[0] == '-');
    assert(!('0' <= t[0] <= '9'));
}

/// A number is written with the digits that name it, without a zero before them.
pub proof fn lemma_how_numbers_are_written(n: nat, k: nat)
    requires
        k < 10,
    ensures
        decimal(k) == seq![digit_of(k)],
        n > 0 ==> decimal(10 * n + k) == decimal(n).push(digit_of(k)),
        n > 0 ==> decimal(n)[0] != '0',
        n > 0 ==> signed_decimal(-(n as int)) == seq!['-'] + decimal(n),
        signed_decimal(n as int) == decimal(n),
    decreases n,
{
    assert(digit_char(k) == digit_of(k));
    let m = 10 * n + k;
    assert(m / 10 == n && m % 10 == k);
    if n >= 10 {
        lemma_how_numbers_are_written(n / 10, k);
        lemma_decimal(n / 10);
        assert(decimal(n)[0] == decimal(n / 10)[0]);
    } else if n > 0 {
        assert(digit_char(n) != '0');
    }
}

/// To the base of sixteen the letters up to `f` stand for the numbers from ten on.
pub proof fn lemma_how_numbers_are_written_to_sixteen(n: nat, k: nat)
    requires
        k < 16,
    ensures
        hexadecimal(k) == seq![digit_of(k)],
        n > 0 ==> hexadecimal(16 * n + k) == hexadecimal(n).push(digit_of(k)),
{
    assert(hex_char(k) == digit_of(k));
    let m = 16 * n + k;
    assert(m / 16 == n && m % 16 == k);
}

} // verus!
