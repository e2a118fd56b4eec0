//! The address grammar: what a digit is worth, which numbers the parts of an
//! input stand for, and what address those numbers pack into.

use vstd::prelude::*;

verus! {

/// ASCII `.`, which separates the parts of an address.
pub const DOT: u8 = 0x2e;

/// ASCII `0`, which opens an octal or hexadecimal part.
pub const ZERO: u8 = 0x30;

/// ASCII `x`, which after a leading `0` selects hexadecimal.
pub const SMALL_X: u8 = 0x78;

/// ASCII `X`, which after a leading `0` selects hexadecimal.
pub const BIG_X: u8 = 0x58;

/// The largest value a part may hold: everything that fits in 32 bits.
pub const PART_MAX: u64 = 0xffff_ffff;

/// The value of byte `b` read as a digit in `radix`, for any radix up to 36:
/// `0`-`9` are worth 0-9, letters of either case are worth 10-35, and a byte
/// is a digit only if its worth is below the radix.
pub open spec fn digit_value(b: u8, radix: nat) -> Option<nat> {
    let worth: nat = if 0x30 <= b <= 0x39 {
        (b - 0x30) as nat
    } else if 0x61 <= b <= 0x7a {
        (b - 0x61 + 10) as nat
    } else if 0x41 <= b <= 0x5a {
        (b - 0x41 + 10) as nat
    } else {
        36
    };
    if worth < radix {
        Some(worth)
    } else {
        None
    }
}

/// Whether `b` is a digit in `radix`.
pub open spec fn is_digit(b: u8, radix: nat) -> bool {
    digit_value(b, radix) is Some
}

/// Every byte of `d` is a digit in `radix`.
pub open spec fn all_digits(d: Seq<u8>, radix: nat) -> bool {
    forall|i: int| 0 <= i < d.len() ==> is_digit(#[trigger] d[i], radix)
}

/// The number that the digits `d` spell in `radix`, most significant first.
pub open spec fn digits_value(d: Seq<u8>, radix: nat) -> nat
    decreases d.len(),
{
    if d.len() == 0 {
        0
    } else {
        let last = match digit_value(d.last(), radix) {
            Some(worth) => worth,
            None => 0,
        };
        digits_value(d.drop_last(), radix) * radix + last
    }
}

/// The number that `p` spells, where `p` is a spelling: `0x` or `0X` and at
/// least one hexadecimal digit; `0` and any number of octal digits; or decimal
/// digits of which the first is not `0`.
pub open spec fn spelling_value(p: Seq<u8>) -> Option<nat> {
    if p.len() == 0 {
        None
    } else if p[0] != ZERO {
        if all_digits(p, 10) {
            Some(digits_value(p, 10))
        } else {
            None
        }
    } else if p.len() >= 2 && (p[1] == SMALL_X || p[1] == BIG_X) {
        if p.len() >= 3 && all_digits(p.skip(2), 16) {
            Some(digits_value(p.skip(2), 16))
        } else {
            None
        }
    } else if all_digits(p.skip(1), 8) {
        Some(digits_value(p.skip(1), 8))
    } else {
        None
    }
}

/// Whether `p` is `0x` or `0X` and nothing more.
pub open spec fn bare_hex_prefix(p: Seq<u8>) -> bool {
    p.len() == 2 && p[0] == ZERO && (p[1] == SMALL_X || p[1] == BIG_X)
}

/// The number that `p` stands for when it is written as a part of an input,
/// before a dot (`followed`) or at the end of the input: the number that `p`
/// spells, and 0 where a hexadecimal prefix without digits stands before a
/// dot. At the end of the input such a prefix stands for nothing.
pub open spec fn written_value(p: Seq<u8>, followed: bool) -> Option<nat> {
    if followed && bare_hex_prefix(p) {
        Some(0)
    } else {
        spelling_value(p)
    }
}

/// The index of the first dot of `s`; the length of `s` where it has no dot.
pub open spec fn first_dot(s: Seq<u8>) -> nat
    decreases s.len(),
{
    if s.len() == 0 || s[0] == DOT {
        0
    } else {
        1 + first_dot(s.skip(1))
    }
}

/// The parts of `s`: what stands before its first dot, between each dot and
/// the next, and behind its last dot. An input without a dot is one part.
pub open spec fn fields(s: Seq<u8>) -> Seq<Seq<u8>>
    decreases s.len(),
{
    let n = first_dot(s) as int;
    if n >= s.len() {
        seq![s]
    } else {
        seq![s.take(n)] + fields(s.skip(n + 1))
    }
}

/// The numbers that `parts` stand for, in their order, where each part stands
/// for a number; all parts but the last are taken as written before a dot.
pub open spec fn written_values(parts: Seq<Seq<u8>>) -> Option<Seq<nat>> {
    if forall|k: int|
        0 <= k < parts.len() ==> written_value(#[trigger] parts[k], k < parts.len() - 1) is Some {
        Some(
            Seq::new(parts.len(), |k: int| written_value(parts[k], k < parts.len() - 1).unwrap()),
        )
    } else {
        None
    }
}

/// The weight of the octet at index `part`, the leftmost being index 0.
pub open spec fn place(part: nat) -> nat {
    if part == 0 {
        0x100_0000
    } else if part == 1 {
        0x1_0000
    } else if part == 2 {
        0x100
    } else {
        1
    }
}

/// The bound on a final part at index `part`: it fills the `32 - 8 * part`
/// bits that the parts before it left open.
pub open spec fn terminal_limit(part: nat) -> nat {
    256 * place(part)
}

/// The address that one to four numbers denote, given in the order in which
/// they are written: each number but the last is one octet, from the left, and
/// the last fills all the octets that remain.
pub open spec fn address_of_values(v: Seq<nat>) -> Option<nat> {
    if v.len() == 1 && v[0] < 0x1_0000_0000 {
        Some(v[0])
    } else if v.len() == 2 && v[0] < 256 && v[1] < 0x100_0000 {
        Some(v[0] * 0x100_0000 + v[1])
    } else if v.len() == 3 && v[0] < 256 && v[1] < 256 && v[2] < 0x1_0000 {
        Some(v[0] * 0x100_0000 + v[1] * 0x1_0000 + v[2])
    } else if v.len() == 4 && v[0] < 256 && v[1] < 256 && v[2] < 256 && v[3] < 256 {
        Some(v[0] * 0x100_0000 + v[1] * 0x1_0000 + v[2] * 0x100 + v[3])
    } else {
        None
    }
}

/// The address that `input` denotes, octet 0 in bits 31-24 and octet 3 in bits
/// 7-0: the parts of `input` stand for numbers, and the numbers pack into the
/// address. `None` when `input` is no address.
pub open spec fn address(input: Seq<u8>) -> Option<nat> {
    match written_values(fields(input)) {
        Some(values) => address_of_values(values),
        None => None,
    }
}

/// The four octets of the address `v`, leftmost first.
pub open spec fn octets(v: nat) -> Seq<u8> {
    seq![
        (v / 0x100_0000) as u8,
        ((v / 0x1_0000) % 256) as u8,
        ((v / 0x100) % 256) as u8,
        (v % 256) as u8,
    ]
}

} // verus!
