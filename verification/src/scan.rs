//! The steps of a scan from left to right: how far the part under the cursor
//! reaches, what it is worth, and what the scan reads from there to the end.

use crate::grammar::{
    digits_value, is_digit, place, terminal_limit, BIG_X, DOT, PART_MAX, SMALL_X, ZERO,
};
use vstd::prelude::*;

verus! {

/// The index of the first byte of `s`, at or after `from`, that is no digit in
/// `radix`; the length of `s` when every byte from `from` on is a digit.
pub open spec fn run_end(s: Seq<u8>, radix: nat, from: nat) -> nat
    decreases s.len() - from,
{
    if from < s.len() && is_digit(s[from as int], radix) {
        run_end(s, radix, from + 1)
    } else {
        from
    }
}

/// How many bytes at the head of `s` are digits in `radix`.
pub open spec fn digits_len(s: Seq<u8>, radix: nat) -> nat {
    run_end(s, radix, 0)
}

/// How many bytes of radix prefix open the part at the head of `rest`:
/// two for `0x` or `0X`, one for any other leading `0`, none otherwise.
pub open spec fn prefix_len(rest: Seq<u8>) -> nat {
    if rest.len() == 0 || rest[0] != ZERO {
        0
    } else if rest.len() >= 2 && (rest[1] == SMALL_X || rest[1] == BIG_X) {
        2
    } else {
        1
    }
}

/// The radix of the part at the head of `rest`. There is none when `rest` is
/// empty or begins with a dot, nor when `rest` is a hexadecimal prefix and
/// nothing more.
pub open spec fn radix_of(rest: Seq<u8>) -> Option<nat> {
    if rest.len() == 0 || rest[0] == DOT {
        None
    } else if prefix_len(rest) == 2 {
        if rest.len() == 2 {
            None
        } else {
            Some(16)
        }
    } else if prefix_len(rest) == 1 {
        Some(8)
    } else {
        Some(10)
    }
}

/// The digits of the part at the head of `rest`: the longest run of digits in
/// the part's radix that follows its prefix.
pub open spec fn part_digits(rest: Seq<u8>) -> Seq<u8> {
    match radix_of(rest) {
        Some(radix) => {
            let body = rest.skip(prefix_len(rest) as int);
            body.take(digits_len(body, radix) as int)
        },
        None => Seq::empty(),
    }
}

/// How many bytes the part at the head of `rest` occupies, prefix and digits.
pub open spec fn part_len(rest: Seq<u8>) -> nat {
    prefix_len(rest) + part_digits(rest).len()
}

/// The value of the part at the head of `rest`. A part has a value when it has
/// a radix, its digits spell no more than `PART_MAX`, and it is followed by a
/// dot or by the end of the input.
pub open spec fn part_value(rest: Seq<u8>) -> Option<nat> {
    match radix_of(rest) {
        None => None,
        Some(radix) => {
            let value = digits_value(part_digits(rest), radix);
            let stop = part_len(rest);
            if value <= PART_MAX && (stop == rest.len() || rest[stop as int] == DOT) {
                Some(value)
            } else {
                None
            }
        },
    }
}

/// Where the scan of a part without a value leaves off, counted from the
/// part's first byte: behind the prefix when the part has no radix; on the
/// first digit that carries the value past `PART_MAX`; else on the byte behind
/// the digits, which is neither a dot nor the end.
pub open spec fn gives_up_at(rest: Seq<u8>, k: nat) -> bool {
    match radix_of(rest) {
        None => k == prefix_len(rest),
        Some(radix) => {
            let digits = part_digits(rest);
            let seen = k - prefix_len(rest);
            if digits_value(digits, radix) <= PART_MAX {
                k == part_len(rest)
            } else {
                &&& prefix_len(rest) <= k < part_len(rest)
                &&& digits_value(digits.take(seen), radix) <= PART_MAX
                &&& digits_value(digits.take(seen + 1), radix) > PART_MAX
            }
        },
    }
}

/// The last-part rule: a value `v` that ends the address at index `part` is
/// accepted when the input ends behind it and it fits the bits left open.
pub open spec fn terminal_value(v: nat, part: nat, end: bool) -> Option<nat> {
    if end && v < terminal_limit(part) {
        Some(v)
    } else {
        None
    }
}

/// `high + low`, where there is a `low`.
pub open spec fn above(high: nat, low: Option<nat>) -> Option<nat> {
    match low {
        Some(l) => Some(high + l),
        None => None,
    }
}

/// The address that `rest` denotes when its first part stands at index `part`.
/// A part that reaches the end of the input, that is 256 or more, or that
/// stands at index 3 is final and falls under the last-part rule; any other
/// part is one octet, and the input behind its dot supplies the lower ones.
pub open spec fn address_from(rest: Seq<u8>, part: nat) -> Option<nat>
    decreases 3 - part,
{
    match part_value(rest) {
        None => None,
        Some(x) => {
            let stop = part_len(rest);
            if part >= 3 || x >= 256 || stop == rest.len() {
                terminal_value(x, part, stop == rest.len())
            } else {
                above(x * place(part), address_from(rest.skip((stop + 1) as int), part + 1))
            }
        },
    }
}

} // verus!
