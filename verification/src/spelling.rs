//! Inputs as they are put together: the spellings of a number in each radix,
//! parts joined by dots, and what to look for in an input that has no address.

use crate::grammar::{is_digit, BIG_X, DOT, SMALL_X, ZERO};
use crate::scan::prefix_len;
use vstd::prelude::*;

verus! {

/// `parts` joined by single dots.
pub open spec fn dotted(parts: Seq<Seq<u8>>) -> Seq<u8>
    decreases parts.len(),
{
    if parts.len() == 0 {
        Seq::empty()
    } else if parts.len() == 1 {
        parts[0]
    } else {
        parts[0] + seq![DOT] + dotted(parts.skip(1))
    }
}

/// The byte that writes the digit `d`, with capital letters where `upper`.
pub open spec fn digit_byte(d: nat, upper: bool) -> u8 {
    if d < 10 {
        (0x30 + d) as u8
    } else if upper {
        (0x41 + d - 10) as u8
    } else {
        (0x61 + d - 10) as u8
    }
}

/// The digits of `n` in `radix`, most significant first and without leading
/// zeros.
pub open spec fn numeral(n: nat, radix: nat, upper: bool) -> Seq<u8>
    decreases n,
    when radix >= 2
{
    if n < radix {
        seq![digit_byte(n, upper)]
    } else {
        proof {
            assert(n / radix < n) by (nonlinear_arith)
                requires
                    2 <= radix <= n,
            ;
        }
        numeral(n / radix, radix, upper).push(digit_byte(n % radix, upper))
    }
}

/// The decimal spelling of `n`.
pub open spec fn decimal(n: nat) -> Seq<u8> {
    numeral(n, 10, false)
}

/// The octal spelling of `n`: `0`, then the digits.
pub open spec fn octal(n: nat) -> Seq<u8> {
    seq![ZERO] + numeral(n, 8, false)
}

/// The hexadecimal spelling of `n`: `0x` and small letters, or `0X` and
/// capital letters where `upper`.
pub open spec fn hexadecimal(n: nat, upper: bool) -> Seq<u8> {
    seq![
        ZERO,
        if upper {
            BIG_X
        } else {
            SMALL_X
        },
    ] + numeral(n, 16, upper)
}

/// The dotted decimal form of the address whose octets are `a`, `b`, `c` and `d`,
/// from the left.
pub open spec fn dotted_quad(a: u8, b: u8, c: u8, d: u8) -> Seq<u8> {
    dotted(seq![decimal(a as nat), decimal(b as nat), decimal(c as nat), decimal(d as nat)])
}

/// `k` bytes `0`.
pub open spec fn zeros(k: nat) -> Seq<u8> {
    Seq::new(k, |i: int| ZERO)
}

/// The octal or hexadecimal spelling `p` with `k` more zeros in front of its
/// digits, behind its prefix.
pub open spec fn with_zeros(p: Seq<u8>, k: nat) -> Seq<u8> {
    let n = prefix_len(p) as int;
    p.take(n) + zeros(k) + p.skip(n)
}

/// The number of dots in `s`.
pub open spec fn dots(s: Seq<u8>) -> nat
    decreases s.len(),
{
    if s.len() == 0 {
        0
    } else {
        dots(s.drop_last()) + if s.last() == DOT {
            1nat
        } else {
            0nat
        }
    }
}

/// Whether a part of `s` is empty: `s` is empty, begins or ends with a dot, or
/// holds two dots in a row.
pub open spec fn has_empty_part(s: Seq<u8>) -> bool {
    ||| s.len() == 0
    ||| s[0] == DOT
    ||| s.last() == DOT
    ||| exists|i: int| 0 <= i < s.len() - 1 && #[trigger] s[i] == DOT && s[i + 1] == DOT
}

/// Whether `b` may occur inside a part: a hexadecimal digit, `x` or `X`.
pub open spec fn part_byte(b: u8) -> bool {
    is_digit(b, 16) || b == SMALL_X || b == BIG_X
}

} // verus!
