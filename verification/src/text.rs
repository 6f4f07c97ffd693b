//! Numbers as text.

use vstd::prelude::*;
use vstd::string::StringExecFns;

verus! {

/// The digit `d`, below sixteen, as text.
pub open spec fn digit(d: nat) -> Seq<char> {
    if d == 0 {
        "0"@
    } else if d == 1 {
        "1"@
    } else if d == 2 {
        "2"@
    } else if d == 3 {
        "3"@
    } else if d == 4 {
        "4"@
    } else if d == 5 {
        "5"@
    } else if d == 6 {
        "6"@
    } else if d == 7 {
        "7"@
    } else if d == 8 {
        "8"@
    } else if d == 9 {
        "9"@
    } else if d == 10 {
        "a"@
    } else if d == 11 {
        "b"@
    } else if d == 12 {
        "c"@
    } else if d == 13 {
        "d"@
    } else if d == 14 {
        "e"@
    } else {
        "f"@
    }
}

/// `n` in decimal.
pub open spec fn decimal(n: nat) -> Seq<char>
    decreases n,
{
    if n < 10 {
        digit(n)
    } else {
        decimal(n / 10) + digit(n % 10)
    }
}

/// The hexadecimal digits of `n`, most significant first.
pub open spec fn hex_digits(n: nat) -> Seq<char>
    decreases n,
{
    if n < 16 {
        digit(n)
    } else {
        hex_digits(n / 16) + digit(n % 16)
    }
}

/// `n` in hexadecimal, behind the prefix `0x`.
pub open spec fn hexadecimal(n: nat) -> Seq<char> {
    "0x"@ + hex_digits(n)
}

/// `n` in decimal, behind a minus sign if it is negative.
pub open spec fn signed_decimal(n: int) -> Seq<char> {
    if n < 0 {
        "-"@ + decimal((-n) as nat)
    } else {
        decimal(n as nat)
    }
}

fn append_digit(text: &mut String, d: u64)
    requires
        d < 16,
    ensures
        final(text)@ == old(text)@ + digit(d as nat),
{
    if d == 0 {
        text.append("0");
    } else if d == 1 {
        text.append("1");
    } else if d == 2 {
        text.append("2");
    } else if d == 3 {
        text.append("3");
    } else if d == 4 {
        text.append("4");
    } else if d == 5 {
        text.append("5");
    } else if d == 6 {
        text.append("6");
    } else if d == 7 {
        text.append("7");
    } else if d == 8 {
        text.append("8");
    } else if d == 9 {
        text.append("9");
    } else if d == 10 {
        text.append("a");
    } else if d == 11 {
        text.append("b");
    } else if d == 12 {
        text.append("c");
    } else if d == 13 {
        text.append("d");
    } else if d == 14 {
        text.append("e");
    } else {
        text.append("f");
    }
}

/// Appends `n` in decimal.
pub fn append_decimal(text: &mut String, n: u64)
    ensures
        final(text)@ == old(text)@ + decimal(n as nat),
    decreases n,
{
    if n < 10 {
        append_digit(text, n);
    } else {
        append_decimal(text, n / 10);
        append_digit(text, n % 10);
        proof {
            assert(old(text)@ + decimal((n / 10) as nat) + digit((n % 10) as nat) =~= old(text)@
                + (decimal((n / 10) as nat) + digit((n % 10) as nat)));
        }
    }
}

fn append_hex_digits(text: &mut String, n: u64)
    ensures
        final(text)@ == old(text)@ + hex_digits(n as nat),
    decreases n,
{
    if n < 16 {
        append_digit(text, n);
    } else {
        append_hex_digits(text, n / 16);
        append_digit(text, n % 16);
        proof {
            assert(old(text)@ + hex_digits((n / 16) as nat) + digit((n % 16) as nat) =~= old(
                text,
            )@ + (hex_digits((n / 16) as nat) + digit((n % 16) as nat)));
        }
    }
}

/// Appends `n` in hexadecimal, behind the prefix `0x`.
pub fn append_hexadecimal(text: &mut String, n: u64)
    ensures
        final(text)@ == old(text)@ + hexadecimal(n as nat),
{
    text.append("0x");
    append_hex_digits(text, n);
    proof {
        assert(old(text)@ + "0x"@ + hex_digits(n as nat) =~= old(text)@ + ("0x"@ + hex_digits(
            n as nat,
        )));
    }
}

/// Appends `n` in decimal, behind a minus sign if it is negative.
pub fn append_signed_decimal(text: &mut String, n: i64)
    ensures
        final(text)@ == old(text)@ + signed_decimal(n as int),
{
    if n < 0 {
        text.append("-");
        let magnitude: u64 = if n == i64::MIN {
            0x8000_0000_0000_0000
        } else {
            (-n) as u64
        };
        append_decimal(text, magnitude);
        proof {
            assert(old(text)@ + "-"@ + decimal(magnitude as nat) =~= old(text)@ + ("-"@ + decimal(
                magnitude as nat,
            )));
        }
    } else {
        append_decimal(text, n as u64);
    }
}


/// A digit is one character, and that character is not the letter `i`.
pub proof fn lemma_digit_is_one_character(d: nat)
    ensures
        digit(d).len() == 1,
        digit(d)[0] != 'i',
{
    reveal_strlit("0");
    reveal_strlit("1");
    reveal_strlit("2");
    reveal_strlit("3");
    reveal_strlit("4");
    reveal_strlit("5");
    reveal_strlit("6");
    reveal_strlit("7");
    reveal_strlit("8");
    reveal_strlit("9");
    reveal_strlit("a");
    reveal_strlit("b");
    reveal_strlit("c");
    reveal_strlit("d");
    reveal_strlit("e");
    reveal_strlit("f");
}

} // verus!
