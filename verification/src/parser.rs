//! The scanner: a cursor over the input bytes that reads an address part by
//! part, in one pass from left to right.

use crate::grammar::{
    address, digit_value, digits_value, is_digit, terminal_limit, BIG_X, DOT, PART_MAX, SMALL_X,
    ZERO,
};
use crate::laws::law_scan_reads_address;
use crate::lemmas::{
    lemma_digits_value_grows, lemma_leading_zeros_width, lemma_or_is_sum, lemma_push_octet,
    lemma_run_is_digits,
};
use crate::scan::{
    above, address_from, digits_len, gives_up_at, part_digits, part_len, part_value, prefix_len,
    radix_of, run_end, terminal_value,
};
use vstd::prelude::*;

verus! {

/// The one error of this library: the input is no IPv4 address.
#[derive(Debug, Clone, Copy, PartialEq, Eq, Structural)]
pub struct NotAnIp;

impl NotAnIp {
    /// The text that describes the error.
    pub fn message(&self) -> (text: &'static str)
        ensures
            text@ == "Not an IPv4 address"@,
    {
        "Not an IPv4 address"
    }
}

/// Reads one byte as a digit in `radix`.
pub fn digit(b: u8, radix: u32) -> (r: Option<u32>)
    requires
        radix <= 36,
    ensures
        match r {
            Some(d) => digit_value(b, radix as nat) == Some(d as nat),
            None => digit_value(b, radix as nat) is None,
        },
{
    let worth: u32 = if 0x30 <= b && b <= 0x39 {
        (b - 0x30) as u32
    } else if 0x61 <= b && b <= 0x7a {
        (b - 0x61) as u32 + 10
    } else if 0x41 <= b && b <= 0x5a {
        (b - 0x41) as u32 + 10
    } else {
        36
    };
    if worth < radix {
        Some(worth)
    } else {
        None
    }
}

/// A cursor over the bytes of one input.
pub struct IpParser<'a> {
    /// The input.
    s: &'a [u8],
    /// The index of the byte to read next.
    i: usize,
}

impl<'a> IpParser<'a> {
    /// The cursor never leaves the input: it stands on a byte or at the end.
    #[verifier::type_invariant]
    closed spec fn in_bounds(self) -> bool {
        self.i <= self.s@.len()
    }

    /// The bytes that the cursor runs over.
    pub closed spec fn input(self) -> Seq<u8> {
        self.s@
    }

    /// The index of the byte that the cursor stands on.
    pub closed spec fn position(self) -> nat {
        self.i as nat
    }

    /// The bytes from the cursor to the end of the input.
    pub open spec fn remaining(self) -> Seq<u8> {
        self.input().skip(self.position() as int)
    }

    /// A cursor on the first byte of `s`, or at the end where `s` is empty.
    pub fn new(s: &'a [u8]) -> (p: Self)
        ensures
            p.input() == s@,
            p.position() == 0,
    {
        Self { s, i: 0 }
    }

    /// The byte under the cursor.
    pub fn c(&self) -> (b: u8)
        requires
            self.position() < self.input().len(),
        ensures
            b == self.input()[self.position() as int],
    {
        self.s[self.i]
    }

    /// Moves the cursor one byte on.
    pub fn next(&mut self)
        requires
            old(self).position() < old(self).input().len(),
        ensures
            final(self).input() == old(self).input(),
            final(self).position() == old(self).position() + 1,
            final(self).position() <= final(self).input().len(),
    {
        assert(self.i < self.s.len());
        self.i += 1;
    }

    /// Whether the cursor stands at the end of the input.
    pub fn end(&self) -> (b: bool)
        ensures
            b == (self.position() == self.input().len()),
            self.position() <= self.input().len(),
    {
        proof {
            use_type_invariant(self);
        }
        self.s.len() == self.i
    }

    /// Finds the radix of the part under the cursor and moves the cursor behind
    /// the part's prefix.
    pub fn radix(&mut self) -> (r: Result<u32, NotAnIp>)
        ensures
            final(self).input() == old(self).input(),
            final(self).position() == old(self).position() + prefix_len(old(self).remaining()),
            final(self).position() <= final(self).input().len(),
            match r {
                Ok(radix) => radix_of(old(self).remaining()) == Some(radix as nat),
                Err(_) => radix_of(old(self).remaining()) is None,
            },
    {
        if self.end() || self.c() == DOT {
            Err(NotAnIp)
        } else if self.c() == ZERO {
            self.next();
            if !self.end() && (self.c() == SMALL_X || self.c() == BIG_X) {
                self.next();
                if self.end() {
                    Err(NotAnIp)
                } else {
                    Ok(16)
                }
            } else {
                Ok(8)
            }
        } else {
            Ok(10)
        }
    }

    /// Reads the part under the cursor: its prefix, then its digits, for as
    /// long as their value stays within `PART_MAX`. A part that has a value
    /// leaves the cursor on the dot behind it or at the end of the input.
    pub fn value(&mut self) -> (r: Result<u32, NotAnIp>)
        ensures
            final(self).input() == old(self).input(),
            old(self).position() <= final(self).position() <= final(self).input().len(),
            match r {
                Ok(x) => {
                    &&& part_value(old(self).remaining()) == Some(x as nat)
                    &&& final(self).position() == old(self).position() + part_len(
                        old(self).remaining(),
                    )
                },
                Err(_) => {
                    &&& part_value(old(self).remaining()) is None
                    &&& gives_up_at(
                        old(self).remaining(),
                        (final(self).position() - old(self).position()) as nat,
                    )
                },
            },
    {
        let ghost input = self.input();
        let ghost rest = self.remaining();
        let ghost start = self.position();
        let radix = match self.radix() {
            Ok(radix) => radix,
            Err(e) => {
                return Err(e);
            },
        };
        let ghost body = rest.skip(prefix_len(rest) as int);
        let ghost from = self.position();
        if self.end() {
            assert(body.len() == 0);
            assert(body.take(0) =~= Seq::<u8>::empty());
            return Ok(0);
        }
        let mut v: u64 = 0;
        assert(body.take(0) =~= Seq::<u8>::empty());
        loop
            invariant
                self.input() == input,
                input == old(self).input(),
                start == old(self).position(),
                input.len() == start + prefix_len(rest) + body.len(),
                from == start + prefix_len(rest),
                from <= self.position() < input.len(),
                rest == input.skip(start as int),
                body == rest.skip(prefix_len(rest) as int),
                radix == 8 || radix == 10 || radix == 16,
                radix_of(rest) == Some(radix as nat),
                v <= PART_MAX,
                run_end(body, radix as nat, (self.position() - from) as nat) == digits_len(
                    body,
                    radix as nat,
                ),
                v == digits_value(body.take(self.position() - from), radix as nat),
            ensures
                !is_digit(input[self.position() as int], radix as nat),
            decreases input.len() - self.position(),
        {
            let ghost k = self.position() - from;
            assert(body[k] == input[self.position() as int]);
            match digit(self.c(), radix) {
                None => {
                    break ;
                },
                Some(x) => {
                    proof {
                        assert(body.take(k + 1).drop_last() =~= body.take(k));
                        assert(v * radix <= PART_MAX * 16) by (nonlinear_arith)
                            requires
                                v <= PART_MAX,
                                radix <= 16,
                        ;
                        lemma_run_is_digits(body, radix as nat, (k + 1) as nat);
                    }
                    v = v * (radix as u64) + (x as u64);
                    if v > PART_MAX {
                        proof {
                            let digits = part_digits(rest);
                            assert(digits.take(k) =~= body.take(k));
                            assert(digits.take(k + 1) =~= body.take(k + 1));
                            lemma_digits_value_grows(digits, radix as nat, (k + 1) as nat);
                        }
                        return Err(NotAnIp);
                    }
                    self.next();
                    if self.end() {
                        return Ok(v as u32);
                    }
                },
            }
        }
        let ghost k = self.position() - from;
        assert(body[k] == input[self.position() as int]);
        assert(rest[prefix_len(rest) + k] == input[self.position() as int]);
        if self.c() == DOT {
            Ok(v as u32)
        } else {
            Err(NotAnIp)
        }
    }

    /// The last-part rule: the value `v` of a final part at index `part` is
    /// the low end of the address when the input has ended and `v` has at least
    /// `8 * part` leading zero bits.
    pub fn last_part(v: u32, part: u32, end: bool) -> (r: Result<u32, NotAnIp>)
        requires
            part <= 3,
        ensures
            match r {
                Ok(x) => x == v && terminal_value(v as nat, part as nat, end) == Some(v as nat),
                Err(_) => terminal_value(v as nat, part as nat, end) is None,
            },
    {
        if end {
            proof {
                lemma_leading_zeros_width(v, part);
            }
            if v.leading_zeros() < part * 8 {
                Err(NotAnIp)
            } else {
                Ok(v)
            }
        } else {
            Err(NotAnIp)
        }
    }

    /// Reads `ip` as an address: up to three parts that are one octet each and
    /// are followed by a dot, then a final part that fills the bits left open.
    pub fn parse(ip: &[u8]) -> (r: Result<u32, NotAnIp>)
        ensures
            match r {
                Ok(v) => address(ip@) == Some(v as nat),
                Err(_) => address(ip@) is None,
            },
    {
        let mut cursor = IpParser::new(ip);
        let mut v: u32 = 0;
        proof {
            law_scan_reads_address(ip@);
            assert(ip@.skip(0) =~= ip@);
        }
        for part in 0u32..3
            invariant
                cursor.input() == ip@,
                cursor.position() <= ip@.len(),
                v as nat % terminal_limit(part as nat) == 0,
                address(ip@) == above(v as nat, address_from(cursor.remaining(), part as nat)),
        {
            let ghost rest = cursor.remaining();
            let x = match cursor.value() {
                Ok(x) => x,
                Err(e) => {
                    return Err(e);
                },
            };
            let end = cursor.end();
            if x >= 256 || end {
                return match Self::last_part(x, part, end) {
                    Ok(low) => {
                        proof {
                            lemma_or_is_sum(v, low, part);
                        }
                        Ok(v | low)
                    },
                    Err(e) => Err(e),
                };
            }
            proof {
                lemma_push_octet(v, x, part);
                assert(rest.skip((part_len(rest) + 1) as int) =~= ip@.skip(
                    (cursor.position() + 1) as int,
                ));
            }
            cursor.next();
            v |= x << (24 - (part * 8));
        }
        let x = match cursor.value() {
            Ok(x) => x,
            Err(e) => {
                return Err(e);
            },
        };
        match Self::last_part(x, 3, cursor.end()) {
            Ok(low) => {
                proof {
                    lemma_or_is_sum(v, low, 3);
                }
                Ok(v | low)
            },
            Err(e) => Err(e),
        }
    }
}

} // verus!
