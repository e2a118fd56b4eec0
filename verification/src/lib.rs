//! Recognizer and decoder for the permissive IPv4 address syntax used in URLs:
//! one to four dot-separated parts, each written in decimal, octal (leading
//! `0`) or hexadecimal (leading `0x`/`0X`), where the final part fills all the
//! address bits that the preceding parts left open.

pub mod grammar;
pub mod laws;
pub mod lemmas;
pub mod parser;
pub mod scan;
pub mod spelling;

pub use parser::{digit, IpParser, NotAnIp};

use grammar::{address, octets};
use vstd::prelude::*;

verus! {

/// Splits an address into its four octets, leftmost first.
pub fn to_octets(v: u32) -> (o: [u8; 4])
    ensures
        o@ == octets(v as nat),
{
    assert(v >> 24u32 == v / 0x100_0000u32 && v >> 24u32 < 256) by (bit_vector);
    assert((v >> 16u32) & 0xffu32 == (v / 0x1_0000u32) % 256u32) by (bit_vector);
    assert((v >> 8u32) & 0xffu32 == (v / 0x100u32) % 256u32) by (bit_vector);
    assert(v & 0xffu32 == v % 256u32) by (bit_vector);
    let o = [
        (v >> 24) as u8,
        ((v >> 16) & 0xff) as u8,
        ((v >> 8) & 0xff) as u8,
        (v & 0xff) as u8,
    ];
    assert(o@ =~= octets(v as nat));
    o
}

/// Determines whether `ip` holds an IPv4 address in the syntax of URLs.
pub fn is_ipv4(ip: &[u8]) -> (b: bool)
    ensures
        b == address(ip@).is_some(),
{
    IpParser::parse(ip).is_ok()
}

/// Reads `ip` as an IPv4 address in the syntax of URLs and gives its four
/// octets, leftmost first.
pub fn parse(ip: &[u8]) -> (r: Result<[u8; 4], NotAnIp>)
    ensures
        match r {
            Ok(o) => address(ip@) matches Some(v) && o@ == octets(v),
            Err(_) => address(ip@) is None,
        },
{
    match IpParser::parse(ip) {
        Ok(v) => Ok(to_octets(v)),
        Err(e) => Err(e),
    }
}

} // verus!
