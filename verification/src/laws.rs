//! What holds of every input: the general statements about the addresses that
//! inputs denote, each proved from the definitions of the grammar.

use crate::grammar::{
    address, address_of_values, digits_value, fields, is_digit, octets, spelling_value,
    terminal_limit, written_value, written_values, DOT, PART_MAX, ZERO,
};
use crate::lemmas::{
    lemma_accepted_shape, lemma_address_from_dotted, lemma_address_from_fits,
    lemma_dotted_fields, lemma_fields_dotted, lemma_octets_of_quad,
    lemma_packed_is_address_of_values, lemma_quad_of_octets, lemma_radix_spellings,
    lemma_written_form, lemma_written_has_no_dot, lemma_zeros_in_front,
};
use crate::scan::{address_from, prefix_len};
use crate::spelling::{
    decimal, dots, dotted, dotted_quad, has_empty_part, hexadecimal, octal, part_byte, with_zeros,
    zeros,
};
use vstd::prelude::*;

verus! {

/// A scan from the first byte of an input reads the address that the input
/// denotes, or fails where the input denotes none.
pub proof fn law_scan_reads_address(input: Seq<u8>)
    ensures
        address_from(input, 0) == address(input),
{
    let parts = fields(input);
    lemma_dotted_fields(input);
    match written_values(parts) {
        Some(values) => {
            lemma_address_from_dotted(parts, values, 0);
            lemma_packed_is_address_of_values(values);
        },
        None => {
            if address_from(input, 0) is Some {
                let form = lemma_written_form(input, 0);
                assert forall|k: int, i: int|
                    0 <= k < form.0.len() && 0 <= i < form.0[k].len() implies #[trigger] form.0[k][i]
                    != DOT by {
                    lemma_written_has_no_dot(form.0[k], k < form.0.len() - 1);
                }
                lemma_fields_dotted(form.0);
                assert(parts == form.0);
                assert(written_values(parts) is Some);
            }
        },
    }
}

/// Parts joined by single dots denote the address that the numbers they stand
/// for pack into: every number but the last is one octet, the last fills the
/// octets that remain, and there is an address only if each number fits its
/// place.
pub proof fn law_dotted_spellings(parts: Seq<Seq<u8>>, values: Seq<nat>)
    requires
        parts.len() == values.len(),
        forall|k: int|
            0 <= k < parts.len() ==> written_value(#[trigger] parts[k], k < parts.len() - 1)
                == Some(values[k]),
    ensures
        address(dotted(parts)) == address_of_values(values),
{
    law_scan_reads_address(dotted(parts));
    if parts.len() >= 1 {
        lemma_address_from_dotted(parts, values, 0);
        lemma_packed_is_address_of_values(values);
    }
}

/// Spellings joined by dots denote an address exactly when there are one to
/// four of them, every number but the last is below 256, and the last is below
/// the bound of its place: 2^32, 2^24, 2^16 or 2^8. So a number at the bound
/// is refused where the number just below it is taken, and no part may be 2^32
/// or more.
pub proof fn law_part_bounds(parts: Seq<Seq<u8>>, values: Seq<nat>)
    requires
        parts.len() == values.len(),
        forall|k: int|
            0 <= k < parts.len() ==> written_value(#[trigger] parts[k], k < parts.len() - 1)
                == Some(values[k]),
    ensures
        address(dotted(parts)) is Some <==> {
            &&& 1 <= values.len() <= 4
            &&& forall|k: int| 0 <= k < values.len() - 1 ==> values[k] < 256
            &&& values.last() < terminal_limit((values.len() - 1) as nat)
        },
        (exists|k: int| 0 <= k < values.len() && values[k] > PART_MAX) ==> address(dotted(parts))
            is None,
{
    law_dotted_spellings(parts, values);
}

/// The dotted decimal form of four octets denotes the address with exactly
/// those octets, in their order.
pub proof fn law_dotted_quad(a: u8, b: u8, c: u8, d: u8)
    ensures
        address(dotted_quad(a, b, c, d)) == Some(
            (a * 0x100_0000 + b * 0x1_0000 + c * 0x100 + d) as nat,
        ),
        octets((a * 0x100_0000 + b * 0x1_0000 + c * 0x100 + d) as nat) == seq![a, b, c, d],
{
    let parts = seq![decimal(a as nat), decimal(b as nat), decimal(c as nat), decimal(d as nat)];
    let values = seq![a as nat, b as nat, c as nat, d as nat];
    assert forall|k: int| 0 <= k < parts.len() implies written_value(
        #[trigger] parts[k],
        k < parts.len() - 1,
    ) == Some(values[k]) by {
        lemma_radix_spellings(values[k], false);
    }
    law_dotted_spellings(parts, values);
    lemma_octets_of_quad(a, b, c, d);
}

/// The last part takes up the octets that remain: where the last two of
/// several spellings are replaced by one spelling of the number that the two
/// denote together, the address stays the same.
pub proof fn law_last_part_absorbs(parts: Seq<Seq<u8>>, values: Seq<nat>, merged: Seq<u8>)
    requires
        parts.len() == values.len(),
        forall|k: int|
            0 <= k < parts.len() ==> written_value(#[trigger] parts[k], k < parts.len() - 1)
                == Some(values[k]),
        parts.len() >= 2,
        address(dotted(parts)) is Some,
        spelling_value(merged) == Some(
            values[values.len() - 2] * terminal_limit((values.len() - 1) as nat) + values.last(),
        ),
    ensures
        address(dotted(parts.take(parts.len() - 2).push(merged))) == address(dotted(parts)),
{
    let n = parts.len() as int;
    let number = values[n - 2] * terminal_limit((n - 1) as nat) + values[n - 1];
    let shorter = parts.take(n - 2).push(merged);
    let shorter_values = values.take(n - 2).push(number);
    law_dotted_spellings(parts, values);
    assert forall|k: int| 0 <= k < shorter.len() implies written_value(
        #[trigger] shorter[k],
        k < shorter.len() - 1,
    ) == Some(shorter_values[k]) by {
        if k < n - 2 {
            assert(shorter[k] == parts[k]);
            assert(shorter_values[k] == values[k]);
        }
    }
    law_dotted_spellings(shorter, shorter_values);
    assert(shorter_values.last() == number);
    if n == 4 {
        assert(shorter_values[0] == values[0] && shorter_values[1] == values[1]);
    } else if n == 3 {
        assert(shorter_values[0] == values[0]);
    }
}

/// A number has a decimal, an octal and a hexadecimal spelling, the last in
/// small or in capital letters.
pub proof fn law_radix_spellings(n: nat, upper: bool)
    ensures
        spelling_value(decimal(n)) == Some(n),
        spelling_value(octal(n)) == Some(n),
        spelling_value(hexadecimal(n, upper)) == Some(n),
{
    lemma_radix_spellings(n, upper);
}

/// The radix in which a number is spelled does not matter: inputs whose parts
/// spell the same numbers, part by part, denote the same address or none.
pub proof fn law_radix_equivalence(first: Seq<Seq<u8>>, second: Seq<Seq<u8>>)
    requires
        first.len() == second.len(),
        forall|k: int|
            0 <= k < first.len() ==> written_value(#[trigger] first[k], k < first.len() - 1)
                is Some && written_value(first[k], k < first.len() - 1) == written_value(
                second[k],
                k < first.len() - 1,
            ),
    ensures
        address(dotted(first)) == address(dotted(second)),
{
    let values = Seq::new(
        first.len(),
        |k: int| written_value(first[k], k < first.len() - 1).unwrap(),
    );
    law_dotted_spellings(first, values);
    assert forall|k: int| 0 <= k < second.len() implies written_value(
        #[trigger] second[k],
        k < second.len() - 1,
    ) == Some(values[k]) by {
        assert(written_value(first[k], k < first.len() - 1) is Some);
    }
    law_dotted_spellings(second, values);
}

/// Every address fits in 32 bits.
pub proof fn law_address_fits(input: Seq<u8>)
    requires
        address(input) is Some,
    ensures
        address(input).unwrap() <= PART_MAX,
{
    law_scan_reads_address(input);
    lemma_address_from_fits(input, 0);
}

/// Reading is stable: the dotted decimal form of an address that some input
/// denotes is read as that same address.
pub proof fn law_reparse_dotted_quad(input: Seq<u8>)
    requires
        address(input) is Some,
    ensures
        ({
            let v = address(input).unwrap();
            let o = octets(v);
            address(dotted_quad(o[0], o[1], o[2], o[3])) == Some(v)
        }),
{
    law_address_fits(input);
    let o = octets(address(input).unwrap());
    lemma_quad_of_octets(address(input).unwrap());
    law_dotted_quad(o[0], o[1], o[2], o[3]);
}

/// Every input that denotes an address is written as one to four parts
/// joined by single dots, and denotes the address that the numbers they stand
/// for pack into. The parts and the numbers are the result.
pub proof fn law_written_form(input: Seq<u8>) -> (form: (Seq<Seq<u8>>, Seq<nat>))
    requires
        address(input) is Some,
    ensures
        dotted(form.0) == input,
        form.0.len() == form.1.len(),
        1 <= form.0.len() <= 4,
        forall|k: int|
            0 <= k < form.0.len() ==> written_value(#[trigger] form.0[k], k < form.0.len() - 1)
                == Some(form.1[k]),
        address_of_values(form.1) == address(input),
{
    law_scan_reads_address(input);
    let form = lemma_written_form(input, 0);
    law_dotted_spellings(form.0, form.1);
    form
}

/// Zeros in front of the digits of an octal or hexadecimal spelling are read
/// and change nothing: the spelling with `k` more of them spells the same
/// number.
pub proof fn law_leading_zeros(p: Seq<u8>, k: nat)
    requires
        spelling_value(p) is Some,
        p[0] == ZERO,
    ensures
        spelling_value(with_zeros(p, k)) == spelling_value(p),
{
    let n = prefix_len(p) as int;
    let d = p.skip(n);
    let q = with_zeros(p, k);
    let radix: nat = if n == 2 {
        16
    } else {
        8
    };
    lemma_zeros_in_front(k, d, radix);
    assert(q[0] == p[0]);
    assert(q.skip(n) =~= zeros(k) + d);
    if n == 2 {
        assert(q[1] == p[1]);
    } else if q.len() >= 2 {
        assert(q[1] == q.skip(n)[0]);
        assert(is_digit(q.skip(n)[0], 8));
    }
}

/// An input of nothing but zeros denotes the address 0, however many they
/// are, and the same zeros with a `1` behind them denote the address 1.
pub proof fn law_all_zeros(k: nat)
    requires
        k >= 1,
    ensures
        address(zeros(k)) == Some(0nat),
        address(zeros(k).push(0x31)) == Some(1nat),
{
    let zero = seq![ZERO];
    assert(zero.skip(1) =~= Seq::<u8>::empty());
    law_leading_zeros(zero, (k - 1) as nat);
    assert(with_zeros(zero, (k - 1) as nat) =~= zeros(k));
    law_dotted_spellings(seq![zeros(k)], seq![0nat]);

    let one = seq![ZERO, 0x31u8];
    assert(one.skip(1) =~= seq![0x31u8]);
    assert(seq![0x31u8].drop_last() =~= Seq::<u8>::empty());
    assert(digits_value(Seq::<u8>::empty(), 8) == 0);
    assert(digits_value(seq![0x31u8], 8) == 1);
    law_leading_zeros(one, (k - 1) as nat);
    assert(with_zeros(one, (k - 1) as nat) =~= zeros(k).push(0x31));
    law_dotted_spellings(seq![zeros(k).push(0x31)], seq![1nat]);
}

/// An input with an empty part denotes no address: not the empty input, nor
/// one that begins or ends with a dot, nor one with two dots in a row.
pub proof fn law_rejects_empty_part(input: Seq<u8>)
    requires
        has_empty_part(input),
    ensures
        address(input) is None,
{
    law_scan_reads_address(input);
    if address(input) is Some {
        lemma_accepted_shape(input, 0);
    }
}

/// An input of more than four parts denotes no address: it may hold three dots
/// and no more.
pub proof fn law_rejects_fifth_part(input: Seq<u8>)
    requires
        dots(input) >= 4,
    ensures
        address(input) is None,
{
    law_scan_reads_address(input);
    if address(input) is Some {
        lemma_accepted_shape(input, 0);
    }
}

/// An input that holds, at any index `i`, a byte that is neither a dot nor a
/// hexadecimal digit nor `x` nor `X` denotes no address.
pub proof fn law_rejects_foreign_byte(input: Seq<u8>, i: int)
    requires
        0 <= i < input.len(),
        input[i] != DOT,
        !part_byte(input[i]),
    ensures
        address(input) is None,
{
    law_scan_reads_address(input);
    if address(input) is Some {
        lemma_accepted_shape(input, 0);
        assert(part_byte(input[i]) || input[i] == DOT);
    }
}

/// An input that does not end with a hexadecimal digit denotes no address: so
/// it is with `0x` or `0X` and nothing behind, at the end of any input.
pub proof fn law_rejects_open_end(input: Seq<u8>)
    requires
        input.len() == 0 || !is_digit(input.last(), 16),
    ensures
        address(input) is None,
{
    law_scan_reads_address(input);
    if address(input) is Some {
        lemma_accepted_shape(input, 0);
    }
}

} // verus!
