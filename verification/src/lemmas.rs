//! Facts about digit runs and about packing octets that the scanner's proofs
//! rest on.

use crate::grammar::{
    address, address_of_values, all_digits, digits_value, fields, first_dot, is_digit, octets,
    place, spelling_value, terminal_limit, written_value, DOT, PART_MAX, ZERO,
};
use crate::scan::{
    above, address_from, digits_len, part_len, part_value, prefix_len, radix_of, run_end,
    terminal_value,
};
use crate::spelling::{
    decimal, digit_byte, dots, dotted, hexadecimal, numeral, octal, part_byte, zeros,
};
use vstd::arithmetic::div_mod::{
    lemma_fundamental_div_mod, lemma_fundamental_div_mod_converse, lemma_small_mod,
};
use vstd::prelude::*;
use vstd::std_specs::bits::{axiom_u32_leading_zeros, u32_leading_zeros};

verus! {

/// Reading further digits never lowers the value read so far.
pub proof fn lemma_digits_value_grows(d: Seq<u8>, radix: nat, n: nat)
    requires
        radix >= 1,
        n <= d.len(),
    ensures
        digits_value(d.take(n as int), radix) <= digits_value(d, radix),
    decreases d.len(),
{
    if n == d.len() {
        assert(d.take(n as int) =~= d);
    } else {
        lemma_digits_value_grows(d.drop_last(), radix, n);
        assert(d.drop_last().take(n as int) =~= d.take(n as int));
        let head = digits_value(d.drop_last(), radix);
        assert(head * radix >= head) by (nonlinear_arith)
            requires
                radix >= 1,
                head >= 0,
        ;
    }
}

/// A value has fewer than `8 * part` leading zero bits exactly when it does not
/// fit the bits that a final part at index `part` may fill.
pub proof fn lemma_leading_zeros_width(v: u32, part: u32)
    requires
        part <= 3,
    ensures
        u32_leading_zeros(v) < part * 8 <==> v >= terminal_limit(part as nat),
{
    axiom_u32_leading_zeros(v);
    let zeros = u32_leading_zeros(v);
    if part > 0 {
        let width: u32 = (32 - 8 * part) as u32;
        assert((1u32 << width) == terminal_limit(part as nat)) by {
            assert((1u32 << 24u32) == 0x100_0000u32) by (bit_vector);
            assert((1u32 << 16u32) == 0x1_0000u32) by (bit_vector);
            assert((1u32 << 8u32) == 0x100u32) by (bit_vector);
        }
        if zeros < part * 8 {
            let top: u32 = (31 - zeros) as u32;
            assert((v >> top) & 1u32 != 0u32);
            assert(v >= (1u32 << width)) by (bit_vector)
                requires
                    width <= top < 32,
                    (v >> top) & 1u32 != 0u32,
            ;
        } else {
            let used: u32 = (32 - zeros) as u32;
            assert(v >> used == 0u32);
            assert(v < (1u32 << width)) by (bit_vector)
                requires
                    used <= width < 32,
                    v >> used == 0u32,
            ;
        }
    }
}

/// Joining an octet to the address at index `part` adds the octet times that
/// place's weight, and leaves open exactly the bits below that place.
pub proof fn lemma_push_octet(high: u32, x: u32, part: u32)
    requires
        part < 3,
        x < 256,
        high as nat % terminal_limit(part as nat) == 0,
    ensures
        high | (x << ((24 - part * 8) as u32)) == high + x * place(part as nat),
        (high + x * place(part as nat)) as nat % terminal_limit((part + 1) as nat) == 0,
{
    if part == 0 {
        assert(high == 0) by {
            lemma_small_mod(high as nat, 0x1_0000_0000);
        }
        let sum: u32 = 0u32 | (x << 24u32);
        assert(sum == x * 0x100_0000) by (bit_vector)
            requires
                x < 256,
                sum == 0u32 | (x << 24u32),
        ;
        assert(sum % 0x100_0000u32 == 0) by (bit_vector)
            requires
                sum == 0u32 | (x << 24u32),
        ;
    } else if part == 1 {
        let sum: u32 = high | (x << 16u32);
        assert(sum == high + x * 0x1_0000) by (bit_vector)
            requires
                x < 256,
                high % 0x100_0000u32 == 0,
                sum == high | (x << 16u32),
        ;
        assert(sum % 0x1_0000u32 == 0) by (bit_vector)
            requires
                high % 0x100_0000u32 == 0,
                sum == high | (x << 16u32),
        ;
    } else {
        let sum: u32 = high | (x << 8u32);
        assert(sum == high + x * 0x100) by (bit_vector)
            requires
                x < 256,
                high % 0x1_0000u32 == 0,
                sum == high | (x << 8u32),
        ;
        assert(sum % 0x100u32 == 0) by (bit_vector)
            requires
                high % 0x1_0000u32 == 0,
                sum == high | (x << 8u32),
        ;
    }
}

/// Where `high` holds only bits above those of a final part at index `part`,
/// and `low` fits below them, joining the two is adding them.
pub proof fn lemma_or_is_sum(high: u32, low: u32, part: u32)
    requires
        part <= 3,
        high as nat % terminal_limit(part as nat) == 0,
        low < terminal_limit(part as nat),
    ensures
        high | low == high + low,
{
    if part == 0 {
        assert(high == 0) by {
            lemma_small_mod(high as nat, 0x1_0000_0000);
        }
        assert(0u32 | low == low) by (bit_vector);
    } else if part == 1 {
        assert(high | low == high + low) by (bit_vector)
            requires
                high % 0x100_0000u32 == 0,
                low < 0x100_0000u32,
        ;
    } else if part == 2 {
        assert(high | low == high + low) by (bit_vector)
            requires
                high % 0x1_0000u32 == 0,
                low < 0x1_0000u32,
        ;
    } else {
        assert(high | low == high + low) by (bit_vector)
            requires
                high % 0x100u32 == 0,
                low < 0x100u32,
        ;
    }
}

/// A digit run that starts at `from` ends at `end` when every byte between the
/// two is a digit and the byte at `end`, if there is one, is none.
pub proof fn lemma_run_end_is(s: Seq<u8>, radix: nat, from: nat, end: nat)
    requires
        from <= end <= s.len(),
        forall|i: int| from <= i < end ==> is_digit(#[trigger] s[i], radix),
        end == s.len() || !is_digit(s[end as int], radix),
    ensures
        run_end(s, radix, from) == end,
    decreases end - from,
{
    if from < end {
        lemma_run_end_is(s, radix, from + 1, end);
    }
}

/// What is written before a dot or at the end of the input is read as one
/// part: the part ends where the writing ends, and it has the value that the
/// writing stands for unless that is above `PART_MAX`.
pub proof fn lemma_part_of_written(p: Seq<u8>, tail: Seq<u8>)
    requires
        written_value(p, tail.len() > 0) is Some,
        tail.len() == 0 || tail[0] == DOT,
    ensures
        part_len(p + tail) == p.len(),
        part_value(p + tail) == if written_value(p, tail.len() > 0).unwrap() <= PART_MAX {
            written_value(p, tail.len() > 0)
        } else {
            None
        },
{
    let rest = p + tail;
    let n = prefix_len(p);
    assert(rest[0] == p[0]);
    if p.len() >= 2 {
        assert(rest[1] == p[1]);
    } else if tail.len() > 0 {
        assert(rest[1] == tail[0]);
    }
    assert(prefix_len(rest) == n);
    let d = p.skip(n as int);
    let body = rest.skip(n as int);
    assert(body =~= d + tail);
    if n == 0 {
        assert(d =~= p);
        assert(is_digit(p[0], 10));
    }
    let radix: nat = if n == 2 {
        16
    } else if n == 1 {
        8
    } else {
        10
    };
    assert(radix_of(rest) == Some(radix));
    assert(all_digits(d, radix));
    assert forall|i: int| 0 <= i < d.len() implies is_digit(#[trigger] body[i], radix) by {
        assert(body[i] == d[i]);
    }
    if tail.len() > 0 {
        assert(body[d.len() as int] == tail[0]);
        assert(rest[p.len() as int] == tail[0]);
    }
    lemma_run_end_is(body, radix, 0, d.len());
    assert(body.take(d.len() as int) =~= d);
}

/// The address that the numbers `v` denote when the first of them stands at
/// index `part`: `address_of_values`, told one number at a time.
pub open spec fn packed(v: Seq<nat>, part: nat) -> Option<nat>
    decreases v.len(),
{
    if v.len() == 0 {
        None
    } else if v.len() == 1 {
        terminal_value(v[0], part, true)
    } else if part >= 3 || v[0] >= 256 {
        None
    } else {
        above(v[0] * place(part), packed(v.skip(1), part + 1))
    }
}

/// From index 0, `packed` is `address_of_values`.
pub proof fn lemma_packed_is_address_of_values(v: Seq<nat>)
    ensures
        packed(v, 0) == address_of_values(v),
{
    reveal_with_fuel(packed, 5);
    if v.len() >= 2 {
        let v1 = v.skip(1);
        assert(v1[0] == v[1]);
        if v.len() >= 3 {
            let v2 = v1.skip(1);
            assert(v2[0] == v[2]);
            if v.len() >= 4 {
                let v3 = v2.skip(1);
                assert(v3[0] == v[3]);
                if v.len() >= 5 {
                    assert(v3.skip(1).len() >= 1);
                }
            }
        }
    }
}

/// Spellings joined by dots are read part by part, each part being one
/// spelling, and denote what their values pack into.
pub proof fn lemma_address_from_dotted(parts: Seq<Seq<u8>>, values: Seq<nat>, part: nat)
    requires
        parts.len() >= 1,
        parts.len() == values.len(),
        forall|k: int|
            0 <= k < parts.len() ==> written_value(#[trigger] parts[k], k < parts.len() - 1)
                == Some(values[k]),
    ensures
        address_from(dotted(parts), part) == packed(values, part),
    decreases parts.len(),
{
    let p = parts[0];
    assert(written_value(p, 0 < parts.len() - 1) == Some(values[0]));
    if parts.len() == 1 {
        lemma_part_of_written(p, Seq::empty());
        assert(p + Seq::<u8>::empty() =~= p);
    } else {
        let below = parts.skip(1);
        let tail = seq![DOT] + dotted(below);
        lemma_part_of_written(p, tail);
        let rest = dotted(parts);
        assert(rest =~= p + tail);
        assert(rest.skip((p.len() + 1) as int) =~= dotted(below));
        assert forall|k: int| 0 <= k < below.len() implies written_value(
            #[trigger] below[k],
            k < below.len() - 1,
        ) == Some(values.skip(1)[k]) by {
            assert(below[k] == parts[k + 1]);
        }
        lemma_address_from_dotted(below, values.skip(1), part + 1);
    }
}

/// The digits of `n` in `radix` are digits in that radix and spell `n`, and
/// the first of them is `0` only when `n` is 0.
pub proof fn lemma_numeral_digits(n: nat, radix: nat, upper: bool)
    requires
        2 <= radix <= 36,
    ensures
        numeral(n, radix, upper).len() >= 1,
        all_digits(numeral(n, radix, upper), radix),
        digits_value(numeral(n, radix, upper), radix) == n,
        numeral(n, radix, upper)[0] == ZERO <==> n == 0,
    decreases n,
{
    let d = numeral(n, radix, upper);
    if n < radix {
        assert(d.drop_last() =~= Seq::<u8>::empty());
        assert(d.last() == digit_byte(n, upper));
        assert(digits_value(d.drop_last(), radix) == 0);
        assert(digits_value(d, radix) == 0 * radix + n);
    } else {
        let high = n / radix;
        let low = n % radix;
        assert(0 < high < n && low < radix && n == high * radix + low) by (nonlinear_arith)
            requires
                2 <= radix <= n,
                high == n / radix,
                low == n % radix,
        ;
        lemma_numeral_digits(high, radix, upper);
        let head = numeral(high, radix, upper);
        assert(d.drop_last() =~= head);
        assert(d.last() == digit_byte(low, upper));
        assert(d[0] == head[0]);
        assert forall|i: int| 0 <= i < d.len() implies is_digit(#[trigger] d[i], radix) by {
            if i < head.len() {
                assert(d[i] == head[i]);
            }
        }
    }
}

/// The decimal, the octal and the hexadecimal spelling of `n` are spellings of
/// `n`.
pub proof fn lemma_radix_spellings(n: nat, upper: bool)
    ensures
        spelling_value(decimal(n)) == Some(n),
        spelling_value(octal(n)) == Some(n),
        spelling_value(hexadecimal(n, upper)) == Some(n),
{
    lemma_numeral_digits(n, 10, false);
    if n == 0 {
        assert(decimal(n).skip(1) =~= Seq::<u8>::empty());
    }
    lemma_numeral_digits(n, 8, false);
    assert(octal(n).skip(1) =~= numeral(n, 8, false));
    assert(is_digit(octal(n)[1], 8)) by {
        assert(octal(n)[1] == numeral(n, 8, false)[0]);
    }
    lemma_numeral_digits(n, 16, upper);
    assert(hexadecimal(n, upper).skip(2) =~= numeral(n, 16, upper));
}

/// An address read from index `part` on fits the bits that are open there.
pub proof fn lemma_address_from_fits(rest: Seq<u8>, part: nat)
    requires
        address_from(rest, part) is Some,
    ensures
        address_from(rest, part).unwrap() < terminal_limit(part),
    decreases 3 - part,
{
    let x = part_value(rest).unwrap();
    let stop = part_len(rest);
    if !(part >= 3 || x >= 256 || stop == rest.len()) {
        let below = address_from(rest.skip((stop + 1) as int), part + 1);
        assert(address_from(rest, part) == above(x * place(part), below));
        lemma_address_from_fits(rest.skip((stop + 1) as int), part + 1);
        assert(terminal_limit(part + 1) == place(part));
        assert(x * place(part) <= 255 * place(part)) by (nonlinear_arith)
            requires
                x <= 255,
        ;
    }
}

/// The octets of the address packed from `a`, `b`, `c` and `d` are these four.
pub proof fn lemma_octets_of_quad(a: u8, b: u8, c: u8, d: u8)
    ensures
        octets((a * 0x100_0000 + b * 0x1_0000 + c * 0x100 + d) as nat) == seq![a, b, c, d],
{
    let v = a * 0x100_0000 + b * 0x1_0000 + c * 0x100 + d;
    lemma_fundamental_div_mod_converse(v, 0x100_0000, a as int, b * 0x1_0000 + c * 0x100 + d);
    lemma_fundamental_div_mod_converse(v, 0x1_0000, a * 0x100 + b, c * 0x100 + d);
    lemma_fundamental_div_mod_converse(a * 0x100 + b, 256, a as int, b as int);
    lemma_fundamental_div_mod_converse(v, 0x100, a * 0x1_0000 + b * 0x100 + c, d as int);
    lemma_fundamental_div_mod_converse(a * 0x1_0000 + b * 0x100 + c, 256, a * 0x100 + b, c as int);
    lemma_fundamental_div_mod_converse(v, 256, a * 0x1_0000 + b * 0x100 + c, d as int);
    assert(octets(v as nat) =~= seq![a, b, c, d]);
}

/// An address below 2^32 is packed from its own octets.
pub proof fn lemma_quad_of_octets(v: nat)
    requires
        v <= PART_MAX,
    ensures
        ({
            let o = octets(v);
            v == o[0] * 0x100_0000 + o[1] * 0x1_0000 + o[2] * 0x100 + o[3]
        }),
{
    let w = v as int;
    lemma_fundamental_div_mod(w, 0x100_0000);
    lemma_fundamental_div_mod(w, 0x1_0000);
    lemma_fundamental_div_mod(w, 0x100);
    lemma_fundamental_div_mod(w / 0x1_0000, 256);
    lemma_fundamental_div_mod(w / 0x100, 256);
}

/// Zeros in front of digits do not change the number that the digits spell,
/// and are digits themselves.
pub proof fn lemma_zeros_in_front(k: nat, d: Seq<u8>, radix: nat)
    requires
        radix >= 1,
    ensures
        digits_value(zeros(k) + d, radix) == digits_value(d, radix),
        all_digits(d, radix) ==> all_digits(zeros(k) + d, radix),
    decreases d.len(), k,
{
    let all = zeros(k) + d;
    if d.len() > 0 {
        lemma_zeros_in_front(k, d.drop_last(), radix);
        assert(all.drop_last() =~= zeros(k) + d.drop_last());
        assert(all.last() == d.last());
    } else if k > 0 {
        lemma_zeros_in_front((k - 1) as nat, d, radix);
        assert(all.drop_last() =~= zeros((k - 1) as nat) + d);
        assert(all.last() == ZERO);
        assert(digits_value(all.drop_last(), radix) == 0);
        assert(digits_value(all, radix) == 0 * radix + 0);
    } else {
        assert(all =~= d);
    }
    if all_digits(d, radix) {
        assert forall|i: int| 0 <= i < all.len() implies is_digit(#[trigger] all[i], radix) by {
            if i >= k {
                assert(all[i] == d[i - k]);
            }
        }
    }
}

/// The bytes of a digit run are digits, and the byte behind it, if there is
/// one, is none.
pub proof fn lemma_run_is_digits(s: Seq<u8>, radix: nat, from: nat)
    requires
        from <= s.len(),
    ensures
        from <= run_end(s, radix, from) <= s.len(),
        forall|i: int| from <= i < run_end(s, radix, from) ==> is_digit(#[trigger] s[i], radix),
        run_end(s, radix, from) == s.len() || !is_digit(s[run_end(s, radix, from) as int], radix),
    decreases s.len() - from,
{
    if from < s.len() && is_digit(s[from as int], radix) {
        lemma_run_is_digits(s, radix, from + 1);
    }
}

/// What a part that has a value is made of: at least one byte, none of them a
/// dot; behind it a dot or the end of the input; and it is what stands for
/// its value when written there.
pub proof fn lemma_part_shape(rest: Seq<u8>)
    requires
        part_value(rest) is Some,
    ensures
        1 <= part_len(rest) <= rest.len(),
        forall|i: int| 0 <= i < part_len(rest) ==> part_byte(#[trigger] rest[i]),
        part_len(rest) == rest.len() || rest[part_len(rest) as int] == DOT,
        part_len(rest) == rest.len() ==> is_digit(rest.last(), 16),
        written_value(rest.take(part_len(rest) as int), part_len(rest) < rest.len()) == part_value(
            rest,
        ),
{
    let radix = radix_of(rest).unwrap();
    let n = prefix_len(rest);
    let body = rest.skip(n as int);
    let m = digits_len(body, radix);
    let stop = part_len(rest);
    lemma_run_is_digits(body, radix, 0);
    assert(body.take(m as int).len() == m);
    assert(stop == n + m);
    let p = rest.take(stop as int);
    assert forall|i: int| 0 <= i < stop implies part_byte(#[trigger] rest[i]) by {
        if i >= n {
            assert(rest[i] == body[i - n]);
            assert(is_digit(body[i - n], radix));
        }
    }
    assert(p.skip(n as int) =~= body.take(m as int));
    assert forall|i: int| 0 <= i < m implies is_digit(#[trigger] p.skip(n as int)[i], radix) by {
        assert(is_digit(body[i], radix));
    }
    if n == 0 {
        assert(p.skip(0) =~= p);
    }
    if n == 1 && m >= 1 {
        assert(p[1] == body[0]);
        assert(is_digit(body[0], 8));
    }
    if stop == rest.len() && m >= 1 {
        assert(rest.last() == body[m - 1]);
        assert(is_digit(body[m - 1], radix));
    }
}

/// What is written before the first byte of `b` has no dots: the dots of
/// `a + b` are those of `a` and those of `b`.
pub proof fn lemma_dots_concat(a: Seq<u8>, b: Seq<u8>)
    ensures
        dots(a + b) == dots(a) + dots(b),
    decreases b.len(),
{
    if b.len() == 0 {
        assert(a + b =~= a);
    } else {
        lemma_dots_concat(a, b.drop_last());
        assert((a + b).drop_last() =~= a + b.drop_last());
    }
}

/// Bytes that may occur inside a part hold no dot.
pub proof fn lemma_no_dots(s: Seq<u8>)
    requires
        forall|i: int| 0 <= i < s.len() ==> part_byte(#[trigger] s[i]),
    ensures
        dots(s) == 0,
    decreases s.len(),
{
    if s.len() > 0 {
        assert(part_byte(s[s.len() - 1]));
        assert forall|i: int| 0 <= i < s.drop_last().len() implies part_byte(
            #[trigger] s.drop_last()[i],
        ) by {
            assert(part_byte(s[i]));
        }
        lemma_no_dots(s.drop_last());
    }
}

/// What an input that denotes an address from index `part` on is made of:
/// bytes of parts and dots, no dot at either end, no two dots in a row, a
/// hexadecimal digit at the end, and no more dots than there are places left.
pub proof fn lemma_accepted_shape(rest: Seq<u8>, part: nat)
    requires
        part <= 3,
        address_from(rest, part) is Some,
    ensures
        rest.len() > 0,
        rest[0] != DOT,
        is_digit(rest.last(), 16),
        forall|i: int| 0 <= i < rest.len() ==> part_byte(#[trigger] rest[i]) || rest[i] == DOT,
        forall|i: int| 0 <= i < rest.len() - 1 ==> !(#[trigger] rest[i] == DOT && rest[i + 1] == DOT),
        dots(rest) + part <= 3,
    decreases 3 - part,
{
    let x = part_value(rest).unwrap();
    let stop = part_len(rest) as int;
    lemma_part_shape(rest);
    assert(part_byte(rest[0]));
    if part >= 3 || x >= 256 || stop == rest.len() {
        lemma_no_dots(rest);
    } else {
        let tail = rest.skip(stop + 1);
        lemma_accepted_shape(tail, part + 1);
        assert(rest.last() == tail.last());
        assert forall|i: int| 0 <= i < rest.len() implies part_byte(#[trigger] rest[i]) || rest[i]
            == DOT by {
            if i > stop {
                assert(rest[i] == tail[i - stop - 1]);
            }
        }
        assert forall|i: int| 0 <= i < rest.len() - 1 implies !(#[trigger] rest[i] == DOT && rest[i
            + 1] == DOT) by {
            if i < stop {
                assert(part_byte(rest[i]));
            } else if i == stop {
                assert(rest[i + 1] == tail[0]);
            } else {
                assert(rest[i] == tail[i - stop - 1]);
                assert(rest[i + 1] == tail[i - stop]);
            }
        }
        let head = rest.take(stop);
        assert forall|i: int| 0 <= i < head.len() implies part_byte(#[trigger] head[i]) by {
            assert(part_byte(rest[i]));
        }
        lemma_no_dots(head);
        assert(rest =~= head + seq![DOT] + tail);
        lemma_dots_concat(head + seq![DOT], tail);
        lemma_dots_concat(head, seq![DOT]);
        assert(dots(seq![DOT]) == 1) by {
            assert(seq![DOT].drop_last() =~= Seq::<u8>::empty());
            assert(dots(Seq::<u8>::empty()) == 0);
        }
    }
}

/// The parts that an input with an address is written in, and the numbers they
/// stand for.
pub proof fn lemma_written_form(rest: Seq<u8>, part: nat) -> (form: (Seq<Seq<u8>>, Seq<nat>))
    requires
        address_from(rest, part) is Some,
    ensures
        dotted(form.0) == rest,
        form.0.len() == form.1.len(),
        form.0.len() >= 1,
        forall|k: int|
            0 <= k < form.0.len() ==> written_value(#[trigger] form.0[k], k < form.0.len() - 1)
                == Some(form.1[k]),
    decreases 3 - part,
{
    let x = part_value(rest).unwrap();
    let stop = part_len(rest) as int;
    lemma_part_shape(rest);
    let p = rest.take(stop);
    if part >= 3 || x >= 256 || stop == rest.len() {
        assert(p =~= rest);
        (seq![p], seq![x])
    } else {
        let tail = rest.skip(stop + 1);
        let below = lemma_written_form(tail, part + 1);
        let parts = seq![p] + below.0;
        let values = seq![x] + below.1;
        assert(parts.skip(1) =~= below.0);
        assert(rest =~= p + seq![DOT] + tail);
        assert forall|k: int| 0 <= k < parts.len() implies written_value(
            #[trigger] parts[k],
            k < parts.len() - 1,
        ) == Some(values[k]) by {
            if k > 0 {
                assert(parts[k] == below.0[k - 1]);
                assert(values[k] == below.1[k - 1]);
            }
        }
        (parts, values)
    }
}

/// The first dot stands at `n` where no byte before `n` is a dot and the byte
/// at `n`, if there is one, is a dot.
pub proof fn lemma_first_dot_is(s: Seq<u8>, n: nat)
    requires
        n <= s.len(),
        forall|i: int| 0 <= i < n ==> #[trigger] s[i] != DOT,
        n == s.len() || s[n as int] == DOT,
    ensures
        first_dot(s) == n,
    decreases s.len(),
{
    if n > 0 {
        assert(s[0] != DOT);
        let t = s.skip(1);
        assert forall|i: int| 0 <= i < n - 1 implies #[trigger] t[i] != DOT by {
            assert(s[i + 1] != DOT);
        }
        lemma_first_dot_is(t, (n - 1) as nat);
    }
}

/// The first dot stands inside the input or at its end, and the byte there,
/// if there is one, is a dot.
pub proof fn lemma_first_dot(s: Seq<u8>)
    ensures
        first_dot(s) <= s.len(),
        first_dot(s) == s.len() || s[first_dot(s) as int] == DOT,
    decreases s.len(),
{
    if !(s.len() == 0 || s[0] == DOT) {
        lemma_first_dot(s.skip(1));
    }
}

/// Joining the parts of an input by dots gives the input back.
pub proof fn lemma_dotted_fields(s: Seq<u8>)
    ensures
        fields(s).len() >= 1,
        dotted(fields(s)) == s,
    decreases s.len(),
{
    let n = first_dot(s) as int;
    lemma_first_dot(s);
    if n < s.len() {
        let tail = s.skip(n + 1);
        lemma_dotted_fields(tail);
        assert(fields(s).skip(1) =~= fields(tail));
        assert(s =~= s.take(n) + seq![DOT] + tail);
    }
}

/// Parts that hold no dot are the parts of what they are joined to.
pub proof fn lemma_fields_dotted(parts: Seq<Seq<u8>>)
    requires
        parts.len() >= 1,
        forall|k: int, i: int|
            0 <= k < parts.len() && 0 <= i < parts[k].len() ==> #[trigger] parts[k][i] != DOT,
    ensures
        fields(dotted(parts)) == parts,
    decreases parts.len(),
{
    let s = dotted(parts);
    let p = parts[0];
    if parts.len() == 1 {
        lemma_first_dot_is(s, s.len());
        assert(fields(s) =~= parts);
    } else {
        let below = parts.skip(1);
        assert forall|k: int, i: int|
            0 <= k < below.len() && 0 <= i < below[k].len() implies #[trigger] below[k][i]
            != DOT by {
            assert(below[k][i] == parts[k + 1][i]);
        }
        lemma_fields_dotted(below);
        assert(s =~= p + seq![DOT] + dotted(below));
        assert forall|i: int| 0 <= i < p.len() implies #[trigger] s[i] != DOT by {
            assert(s[i] == parts[0][i]);
        }
        lemma_first_dot_is(s, p.len());
        assert(s.take(p.len() as int) =~= p);
        assert(s.skip((p.len() + 1) as int) =~= dotted(below));
        assert(fields(s) =~= parts);
    }
}

/// What stands for a number holds no dot.
pub proof fn lemma_written_has_no_dot(p: Seq<u8>, followed: bool)
    requires
        written_value(p, followed) is Some,
    ensures
        forall|i: int| 0 <= i < p.len() ==> #[trigger] p[i] != DOT,
{
    assert forall|i: int| 0 <= i < p.len() implies #[trigger] p[i] != DOT by {
        let n = prefix_len(p);
        if i >= n {
            assert(p[i] == p.skip(n as int)[i - n]);
            if n == 0 {
                assert(p.skip(0) =~= p);
            }
        }
    }
}

} // verus!
