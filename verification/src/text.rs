//! Numbers as text: the decimal of ports and counters, and the hexadecimal of
//! a device address.

use vstd::prelude::*;
use vstd::string::*;

verus! {

/// The character of a digit below sixteen, lower case.
pub open spec fn digit(d: nat) -> char {
    if d < 10 {
        (0x30 + d) as char
    } else {
        (0x61 + d - 10) as char
    }
}

/// `n` in decimal, without leading zeros.
pub open spec fn decimal(n: nat) -> Seq<char>
    decreases n,
{
    if n < 10 {
        seq![digit(n)]
    } else {
        decimal(n / 10).push(digit(n % 10))
    }
}

/// The lowest `width` hexadecimal digits of `n`, zeros leading.
pub open spec fn hexadecimal(n: nat, width: nat) -> Seq<char>
    decreases width,
{
    if width == 0 {
        seq![]
    } else {
        hexadecimal(n / 16, (width - 1) as nat).push(digit(n % 16))
    }
}

/// Append the digit `d`.
fn append_digit(out: &mut String, d: u8)
    requires
        d < 16,
    ensures
        final(out)@ == old(out)@.push(digit(d as nat)),
{
    let text: &str = match d {
        0 => "0",
        1 => "1",
        2 => "2",
        3 => "3",
        4 => "4",
        5 => "5",
        6 => "6",
        7 => "7",
        8 => "8",
        9 => "9",
        10 => "a",
        11 => "b",
        12 => "c",
        13 => "d",
        14 => "e",
        _ => "f",
    };
    proof {
        reveal_strlit("0");
        reveal_strlit("1");
        reveal_strlit("2");
        reveal_strlit("3");
        reveal_strlit("4");
        reveal_strlit("5");
        reveal_strlit("6");
        reveal_strlit("7");
        reveal_strlit("8");
        reveal_strlit("9");
        reveal_strlit("a");
        reveal_strlit("b");
        reveal_strlit("c");
        reveal_strlit("d");
        reveal_strlit("e");
        reveal_strlit("f");
        assert(text@ =~= seq![digit(d as nat)]);
        assert(out@ + text@ =~= out@.push(digit(d as nat)));
    }
    out.append(text);
}

/// Append `n` in decimal.
pub fn append_decimal(out: &mut String, n: u32)
    ensures
        final(out)@ == old(out)@ + decimal(n as nat),
    decreases n,
{
    let ghost before = out@;
    if n < 10 {
        append_digit(out, n as u8);
        assert(out@ =~= before + decimal(n as nat));
    } else {
        append_decimal(out, n / 10);
        append_digit(out, (n % 10) as u8);
        assert(out@ =~= before + decimal(n as nat));
    }
}

/// Append the lowest `width` hexadecimal digits of `n`.
pub fn append_hexadecimal(out: &mut String, n: u32, width: u8)
    ensures
        final(out)@ == old(out)@ + hexadecimal(n as nat, width as nat),
    decreases width,
{
    let ghost before = out@;
    if width > 0 {
        append_hexadecimal(out, n / 16, width - 1);
        append_digit(out, (n % 16) as u8);
    }
    assert(out@ =~= before + hexadecimal(n as nat, width as nat));
}

/// A number in decimal is its tenth part in decimal, then its last digit; below
/// ten it is one digit. Digits follow one another from zero on.
pub proof fn decimals_end_with_their_last_digit(n: nat, d: nat)
    requires
        d < 10,
    ensures
        decimal(d) == seq![(0x30 + d) as char],
        n > 0 ==> decimal(10 * n + d) == decimal(n).push((0x30 + d) as char),
{
    if n > 0 {
        assert((10 * n + d) / 10 == n && (10 * n + d) % 10 == d);
    }
}

/// A number in hexadecimal ends with its last digit, zero to nine and then from
/// `a` on, and is as long as it was asked to be.
pub proof fn hexadecimals_end_with_their_last_digit(n: nat, d: nat, width: nat)
    requires
        d < 16,
    ensures
        hexadecimal(n, 0).len() == 0,
        hexadecimal(16 * n + d, width + 1) == hexadecimal(n, width).push(
            if d < 10 {
                (0x30 + d) as char
            } else {
                (0x57 + d) as char
            },
        ),
        hexadecimal(n, width).len() == width,
    decreases width,
{
    assert((16 * n + d) / 16 == n && (16 * n + d) % 16 == d);
    if width > 0 {
        hexadecimals_end_with_their_last_digit(n / 16, n % 16, (width - 1) as nat);
    }
}

/// Different numbers have different decimals.
pub proof fn decimals_tell_numbers_apart(a: nat, b: nat)
    requires
        a != b,
    ensures
        decimal(a) != decimal(b),
    decreases a,
{
    lemma_decimal_len(a);
    lemma_decimal_len(b);
    lemma_decimal_end(a);
    lemma_decimal_end(b);
    if a >= 10 && b >= 10 {
        if a / 10 != b / 10 {
            decimals_tell_numbers_apart(a / 10, b / 10);
            assert(decimal(a).drop_last() =~= decimal(a / 10));
            assert(decimal(b).drop_last() =~= decimal(b / 10));
        }
    }
}

/// Numbers below ten, and no others, are one digit.
proof fn lemma_decimal_len(n: nat)
    ensures
        n < 10 <==> decimal(n).len() == 1,
        decimal(n).len() >= 1,
    decreases n,
{
    if n >= 10 {
        lemma_decimal_len(n / 10);
    }
}

/// A decimal ends with its last digit.
proof fn lemma_decimal_end(n: nat)
    ensures
        decimal(n).len() >= 1,
        decimal(n).last() == (0x30 + n % 10) as char,
{
    lemma_decimal_len(n);
}

} // verus!
