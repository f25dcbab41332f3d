//! What the ASCII filters give back of encoded bytes.

use crate::ascii_filters::{
    a85_bytes, a85_decoded, a85_digit, big_endian, four_zeros, group_value, hex_bytes, hex_decoded,
    hex_value, is_a85_digit, is_a85_group, nibble, payload, A85_END, A85_ZEROS, HEX_END,
};
use crate::bytes::is_space;
use vstd::prelude::*;

verus! {

/// Nothing after the end marker is read.
pub proof fn law_end_marker_ends(data: Seq<u8>, end: u8, tail: Seq<u8>)
    ensures
        payload(data + seq![end] + tail, end) == payload(data, end),
    decreases data.len(),
{
    let all = data + seq![end] + tail;
    if data.len() > 0 {
        assert(all[0] == data[0]);
        assert(all.drop_first() =~= data.drop_first() + seq![end] + tail);
        law_end_marker_ends(data.drop_first(), end, tail);
    } else {
        assert(all[0] == end);
    }
}

/// White space makes no difference, wherever it stands.
pub proof fn law_white_space_ignored(before: Seq<u8>, space: u8, after: Seq<u8>, end: u8)
    requires
        is_space(space),
        !is_space(end),
    ensures
        payload(before + seq![space] + after, end) == payload(before + after, end),
    decreases before.len(),
{
    let all = before + seq![space] + after;
    let less = before + after;
    if before.len() > 0 {
        assert(all[0] == before[0]);
        assert(less[0] == before[0]);
        assert(all.drop_first() =~= before.drop_first() + seq![space] + after);
        assert(less.drop_first() =~= before.drop_first() + after);
        law_white_space_ignored(before.drop_first(), space, after, end);
    } else {
        assert(all[0] == space);
        assert(all.drop_first() =~= less);
    }
}

/// A text without its white space.
pub open spec fn spaceless(text: Seq<u8>) -> Seq<u8>
    decreases text.len(),
{
    if text.len() == 0 {
        Seq::empty()
    } else if is_space(text[0]) {
        spaceless(text.drop_first())
    } else {
        seq![text[0]] + spaceless(text.drop_first())
    }
}

/// A text without the end marker is all payload, but for its white space.
proof fn lemma_payload_of_text(text: Seq<u8>, end: u8)
    requires
        forall|i: int| 0 <= i < spaceless(text).len() ==> #[trigger] spaceless(text)[i] != end,
        !is_space(end),
    ensures
        payload(text, end) == spaceless(text),
    decreases text.len(),
{
    if text.len() > 0 {
        let rest = text.drop_first();
        let all = spaceless(text);
        if !is_space(text[0]) {
            assert(all[0] == text[0]);
            assert forall|i: int| 0 <= i < spaceless(rest).len() implies #[trigger] spaceless(
                rest,
            )[i] != end by {
                assert(all[i + 1] == spaceless(rest)[i]);
            }
        }
        lemma_payload_of_text(rest, end);
    }
}

/// A text in which there is no white space is the same without it.
proof fn lemma_spaceless_stays(text: Seq<u8>)
    requires
        forall|i: int| 0 <= i < text.len() ==> !is_space(#[trigger] text[i]),
    ensures
        spaceless(text) == text,
    decreases text.len(),
{
    if text.len() > 0 {
        let rest = text.drop_first();
        assert forall|i: int| 0 <= i < rest.len() implies !is_space(#[trigger] rest[i]) by {
            assert(rest[i] == text[i + 1]);
        }
        lemma_spaceless_stays(rest);
        assert(!is_space(text[0]));
        assert(seq![text[0]] + rest =~= text);
    } else {
        assert(text =~= Seq::empty());
    }
}

/// Whether a byte is the hexadecimal digit of a value below 16, in either case.
pub open spec fn is_hex_char(b: u8, v: int) -> bool {
    if v < 10 {
        b == v + 0x30
    } else {
        b == v - 10 + 0x41 || b == v - 10 + 0x61
    }
}

/// Whether digits spell bytes: two for each, the higher first. A last digit that is 0
/// may be missing.
pub open spec fn are_hex_digits(digits: Seq<u8>, bytes: Seq<u8>) -> bool {
    &&& digits.len() == 2 * bytes.len() || (digits.len() == 2 * bytes.len() - 1
        && bytes.last() as int % 16 == 0)
    &&& forall|i: int|
        0 <= i < digits.len() ==> is_hex_char(
            #[trigger] digits[i],
            if i % 2 == 0 {
                bytes[i / 2] as int / 16
            } else {
                bytes[i / 2] as int % 16
            },
        )
}

/// Whether a text is one of bytes in hexadecimal: their digits, in either case, with
/// white space anywhere.
pub open spec fn is_hex_text(text: Seq<u8>, bytes: Seq<u8>) -> bool {
    are_hex_digits(spaceless(text), bytes)
}

/// The upper-case hexadecimal digit of a value below 16.
pub open spec fn hex_char(v: int) -> u8 {
    if v < 10 {
        (v + 0x30) as u8
    } else {
        (v - 10 + 0x41) as u8
    }
}

/// Two hexadecimal digits for each byte.
pub open spec fn hex_encoded(bytes: Seq<u8>) -> Seq<u8> {
    Seq::new(
        bytes.len() * 2,
        |i: int|
            if i % 2 == 0 {
                hex_char(bytes[i / 2] as int / 16)
            } else {
                hex_char(bytes[i / 2] as int % 16)
            },
    )
}

/// All bytes can be written in hexadecimal.
pub proof fn law_hex_encodable(bytes: Seq<u8>)
    ensures
        is_hex_text(hex_encoded(bytes), bytes),
{
    lemma_spaceless_stays(hex_encoded(bytes));
}

/// Decoding gives back hexadecimally encoded bytes: whatever the case of the digits,
/// with white space anywhere between them, with `>` at the end and anything behind
/// it, or without.
pub proof fn law_hex_round_trip(text: Seq<u8>, bytes: Seq<u8>, tail: Seq<u8>)
    requires
        is_hex_text(text, bytes),
    ensures
        hex_decoded(text) == Some(bytes),
        hex_decoded(text + seq![HEX_END] + tail) == Some(bytes),
{
    let digits = spaceless(text);
    law_end_marker_ends(text, HEX_END, tail);
    assert forall|i: int| 0 <= i < digits.len() implies #[trigger] digits[i] != HEX_END
        && hex_value(digits[i]) == Some(
        if i % 2 == 0 {
            bytes[i / 2] as int / 16
        } else {
            bytes[i / 2] as int % 16
        },
    ) by {
        assert(is_hex_char(
            digits[i],
            if i % 2 == 0 {
                bytes[i / 2] as int / 16
            } else {
                bytes[i / 2] as int % 16
            },
        ));
    }
    lemma_payload_of_text(text, HEX_END);
    assert forall|i: int| 0 <= i < bytes.len() implies hex_bytes(digits)[i] == bytes[i] by {
        assert((2 * i) / 2 == i && (2 * i + 1) / 2 == i);
        assert((2 * i) % 2 == 0 && (2 * i + 1) % 2 == 1);
        assert(nibble(digits, 2 * i) == bytes[i] as int / 16);
        assert(nibble(digits, 2 * i + 1) == bytes[i] as int % 16);
    }
    assert(hex_bytes(digits) =~= bytes);
}

/// The `i`-th byte, 0 past the end.
pub open spec fn byte_or_zero(bytes: Seq<u8>, i: int) -> int {
    if i < bytes.len() {
        bytes[i] as int
    } else {
        0
    }
}

/// Up to four bytes as a number, the highest first.
pub open spec fn four_byte_value(bytes: Seq<u8>) -> int {
    byte_or_zero(bytes, 0) * 0x100_0000 + byte_or_zero(bytes, 1) * 0x1_0000 + byte_or_zero(bytes, 2)
        * 0x100 + byte_or_zero(bytes, 3)
}

/// The five ASCII85 digits of a number.
pub open spec fn a85_digits(v: int) -> Seq<u8> {
    let q1 = v / 85;
    let q2 = q1 / 85;
    let q3 = q2 / 85;
    let q4 = q3 / 85;
    seq![
        (q4 + 0x21) as u8,
        (q3 % 85 + 0x21) as u8,
        (q2 % 85 + 0x21) as u8,
        (q1 % 85 + 0x21) as u8,
        (v % 85 + 0x21) as u8,
    ]
}

/// Bytes in ASCII85: five digits, or a `z` for zeros, for each four bytes, and
/// `n + 1` digits for the last `n < 4`.
pub open spec fn a85_encoded(bytes: Seq<u8>) -> Seq<u8>
    decreases bytes.len(),
{
    if bytes.len() == 0 {
        Seq::empty()
    } else if bytes.len() < 4 {
        a85_digits(four_byte_value(bytes)).take(bytes.len() as int + 1)
    } else if bytes.take(4) == four_zeros() {
        seq![A85_ZEROS] + a85_encoded(bytes.skip(4))
    } else {
        a85_digits(four_byte_value(bytes.take(4))) + a85_encoded(bytes.skip(4))
    }
}

proof fn lemma_digits_in_range(v: int)
    requires
        0 <= v <= 0xffff_ffff,
    ensures
        a85_digits(v).len() == 5,
        forall|i: int| 0 <= i < 5 ==> is_a85_digit(#[trigger] a85_digits(v)[i]),
{
}

/// The digits of a number, with the last `k` of them turned into `u`, spell the
/// number rounded up to the end of its block of `85^k`.
proof fn lemma_group_of_digits(v: int, n: int)
    requires
        0 <= v <= 0xffff_ffff,
        2 <= n <= 5,
    ensures
        ({
            let w = group_value(a85_digits(v).take(n));
            &&& n == 5 ==> w == v
            &&& n == 4 ==> w == v / 85 * 85 + 84
            &&& n == 3 ==> w == v / 85 / 85 * 7225 + 7224
            &&& n == 2 ==> w == v / 85 / 85 / 85 * 614125 + 614124
        }),
{
    let d = a85_digits(v);
    let g = d.take(n);
    lemma_digits_in_range(v);
    let q1 = v / 85;
    let q2 = q1 / 85;
    let q3 = q2 / 85;
    let q4 = q3 / 85;
    assert(v == q1 * 85 + v % 85);
    assert(q1 == q2 * 85 + q1 % 85);
    assert(q2 == q3 * 85 + q2 % 85);
    assert(q3 == q4 * 85 + q3 % 85);
    let d0 = a85_digit(g, 0);
    let d1 = a85_digit(g, 1);
    let d2 = a85_digit(g, 2);
    let d3 = a85_digit(g, 3);
    let d4 = a85_digit(g, 4);
    assert(d0 == q4) by {
        assert(g[0] == d[0]);
    }
    assert(d1 == q3 % 85) by {
        assert(g[1] == d[1]);
    }
    assert(n >= 3 ==> d2 == q2 % 85) by {
        if n >= 3 {
            assert(g[2] == d[2]);
        }
    }
    assert(n >= 4 ==> d3 == q1 % 85) by {
        if n >= 4 {
            assert(g[3] == d[3]);
        }
    }
    assert(n >= 5 ==> d4 == v % 85) by {
        if n >= 5 {
            assert(g[4] == d[4]);
        }
    }
    assert(d0 * 85 + d1 == q3);
    assert(group_value(g) == ((q3 * 85 + d2) * 85 + d3) * 85 + d4) by {
        reveal(group_value);
    }
}

proof fn lemma_big_endian_of_value(b0: u8, b1: u8, b2: u8, b3: u8, extra: int, n: int)
    requires
        1 <= n <= 4,
        n <= 3 ==> b3 == 0,
        n <= 2 ==> b2 == 0,
        n <= 1 ==> b1 == 0,
        0 <= extra,
        n == 4 ==> extra == 0,
        n == 3 ==> extra < 0x100,
        n == 2 ==> extra < 0x1_0000,
        n == 1 ==> extra < 0x100_0000,
    ensures
        ({
            let w = b0 * 0x100_0000 + b1 * 0x1_0000 + b2 * 0x100 + b3 + extra;
            &&& w <= 0xffff_ffff
            &&& big_endian(w).take(n) == seq![b0, b1, b2, b3].take(n)
        }),
{
    let low2 = b2 * 0x100 + b3 + extra;
    let low3 = b1 * 0x1_0000 + low2;
    let w = b0 * 0x100_0000 + low3;
    assert(n >= 3 ==> 0 <= low2 < 0x1_0000);
    assert(n >= 2 ==> 0 <= low3 < 0x100_0000);
    assert(0 <= low3 < 0x100_0000);
    assert(w / 0x100_0000 == b0);
    if n >= 2 {
        assert(0 <= low2 < 0x1_0000);
        assert(w / 0x1_0000 == b0 * 0x100 + b1);
    }
    if n >= 3 {
        assert(w / 0x100 == b0 * 0x1_0000 + b1 * 0x100 + b2);
    }
    reveal(big_endian);
    let full = big_endian(w);
    let want = seq![b0, b1, b2, b3];
    assert(full[0] == b0);
    assert(n >= 2 ==> full[1] == b1);
    assert(n >= 3 ==> full[2] == b2);
    assert(n >= 4 ==> full[3] == b3);
    assert(full.take(n) =~= want.take(n));
}

proof fn lemma_full_group(bytes: Seq<u8>)
    requires
        bytes.len() == 4,
    ensures
        is_a85_group(a85_digits(four_byte_value(bytes))),
        big_endian(group_value(a85_digits(four_byte_value(bytes)))) == bytes,
{
    let v = four_byte_value(bytes);
    lemma_big_endian_of_value(bytes[0], bytes[1], bytes[2], bytes[3], 0, 4);
    lemma_digits_in_range(v);
    lemma_group_of_digits(v, 5);
    assert(a85_digits(v).take(5) =~= a85_digits(v));
    assert(seq![bytes[0], bytes[1], bytes[2], bytes[3]].take(4) =~= bytes);
    assert(big_endian(v).take(4) =~= big_endian(v)) by {
        reveal(big_endian);
    }
}

proof fn lemma_last_group(bytes: Seq<u8>)
    requires
        0 < bytes.len() < 4,
    ensures
        ({
            let g = a85_digits(four_byte_value(bytes)).take(bytes.len() as int + 1);
            &&& is_a85_group(g)
            &&& big_endian(group_value(g)).take(bytes.len() as int) == bytes
        }),
{
    let v = four_byte_value(bytes);
    let n = bytes.len() as int;
    let d = a85_digits(v);
    let g = d.take(n + 1);
    let b1 = byte_or_zero(bytes, 1) as u8;
    let b2 = byte_or_zero(bytes, 2) as u8;
    assert(0 <= v <= 0xffff_ffff);
    lemma_digits_in_range(v);
    lemma_group_of_digits(v, n + 1);
    let w = group_value(g);
    assert forall|i: int| 0 <= i < g.len() implies is_a85_digit(#[trigger] g[i]) by {
        assert(g[i] == d[i]);
    }
    let q1 = v / 85;
    let q2 = q1 / 85;
    let q3 = q2 / 85;
    assert(v == q1 * 85 + v % 85);
    assert(q1 == q2 * 85 + q1 % 85);
    assert(q2 == q3 * 85 + q2 % 85);
    lemma_big_endian_of_value(bytes[0], b1, b2, 0, w - v, n);
    assert(seq![bytes[0], b1, b2, 0u8].take(n) =~= bytes);
}

/// Whether groups of digits stand for bytes: five digits for each four bytes, or a `z`
/// where these are zeros, and `n + 1` digits for the last `n < 4`.
pub open spec fn are_a85_groups(s: Seq<u8>, bytes: Seq<u8>) -> bool
    decreases bytes.len(),
{
    if bytes.len() == 0 {
        s.len() == 0
    } else if bytes.len() < 4 {
        s == a85_digits(four_byte_value(bytes)).take(bytes.len() as int + 1)
    } else {
        ||| bytes.take(4) == four_zeros() && s.len() >= 1 && s[0] == A85_ZEROS && are_a85_groups(
            s.skip(1),
            bytes.skip(4),
        )
        ||| s.len() >= 5 && s.take(5) == a85_digits(four_byte_value(bytes.take(4)))
            && are_a85_groups(s.skip(5), bytes.skip(4))
    }
}

/// Whether a text is one of bytes in ASCII85, with white space anywhere.
pub open spec fn is_a85_text(text: Seq<u8>, bytes: Seq<u8>) -> bool {
    are_a85_groups(spaceless(text), bytes)
}

proof fn lemma_a85_groups_plain(s: Seq<u8>, bytes: Seq<u8>, i: int)
    requires
        are_a85_groups(s, bytes),
        0 <= i < s.len(),
    ensures
        is_a85_digit(s[i]) || s[i] == A85_ZEROS,
    decreases bytes.len(),
{
    if bytes.len() < 4 {
        lemma_digits_in_range(four_byte_value(bytes));
        assert(s[i] == a85_digits(four_byte_value(bytes))[i]);
    } else if bytes.take(4) == four_zeros() && s[0] == A85_ZEROS && are_a85_groups(
        s.skip(1),
        bytes.skip(4),
    ) {
        if i > 0 {
            lemma_a85_groups_plain(s.skip(1), bytes.skip(4), i - 1);
        }
    } else {
        let v = four_byte_value(bytes.take(4));
        lemma_digits_in_range(v);
        if i < 5 {
            assert(s[i] == s.take(5)[i]);
        } else {
            lemma_a85_groups_plain(s.skip(5), bytes.skip(4), i - 5);
        }
    }
}

proof fn lemma_a85_bytes_of_groups(s: Seq<u8>, bytes: Seq<u8>)
    requires
        are_a85_groups(s, bytes),
    ensures
        a85_bytes(s) == Some(bytes),
    decreases bytes.len(),
{
    if bytes.len() == 0 {
        assert(bytes =~= Seq::empty());
    } else if bytes.len() < 4 {
        lemma_last_group(bytes);
        lemma_digits_in_range(four_byte_value(bytes));
        assert(s[0] == a85_digits(four_byte_value(bytes))[0]);
        assert(is_a85_digit(s[0]));
        assert(s.take(s.len() as int) =~= s);
        assert(s.skip(s.len() as int) =~= Seq::<u8>::empty());
        assert(a85_bytes(Seq::empty()) == Some(Seq::<u8>::empty()));
        assert(bytes + Seq::<u8>::empty() =~= bytes);
    } else {
        let rest = bytes.skip(4);
        assert(bytes.take(4) + rest =~= bytes);
        if bytes.take(4) == four_zeros() && s[0] == A85_ZEROS && are_a85_groups(s.skip(1), rest) {
            lemma_a85_bytes_of_groups(s.skip(1), rest);
        } else {
            let v = four_byte_value(bytes.take(4));
            lemma_a85_bytes_of_groups(s.skip(5), rest);
            lemma_full_group(bytes.take(4));
            lemma_digits_in_range(v);
            assert(s[0] == s.take(5)[0]);
            assert(is_a85_digit(a85_digits(v)[0]));
            assert(bytes.take(4).take(4) =~= bytes.take(4));
        }
    }
}

proof fn lemma_a85_encoded_groups(bytes: Seq<u8>)
    ensures
        are_a85_groups(a85_encoded(bytes), bytes),
    decreases bytes.len(),
{
    let s = a85_encoded(bytes);
    if bytes.len() >= 4 {
        let rest = bytes.skip(4);
        lemma_a85_encoded_groups(rest);
        if bytes.take(4) == four_zeros() {
            assert(s.skip(1) =~= a85_encoded(rest));
        } else {
            assert(s.take(5) =~= a85_digits(four_byte_value(bytes.take(4))));
            assert(s.skip(5) =~= a85_encoded(rest));
        }
    }
}

/// All bytes can be written in ASCII85.
pub proof fn law_a85_encodable(bytes: Seq<u8>)
    ensures
        is_a85_text(a85_encoded(bytes), bytes),
{
    let s = a85_encoded(bytes);
    lemma_a85_encoded_groups(bytes);
    assert forall|i: int| 0 <= i < s.len() implies !is_space(#[trigger] s[i]) by {
        lemma_a85_groups_plain(s, bytes, i);
    }
    lemma_spaceless_stays(s);
}

/// Decoding gives back ASCII85-encoded bytes: whether four zeros are written as `z` or
/// in digits, with white space anywhere, with `~` at the end and anything behind it,
/// or without.
pub proof fn law_a85_round_trip(text: Seq<u8>, bytes: Seq<u8>, tail: Seq<u8>)
    requires
        is_a85_text(text, bytes),
    ensures
        a85_decoded(text) == Some(bytes),
        a85_decoded(text + seq![A85_END] + tail) == Some(bytes),
{
    let s = spaceless(text);
    law_end_marker_ends(text, A85_END, tail);
    assert forall|i: int| 0 <= i < s.len() implies #[trigger] s[i] != A85_END by {
        lemma_a85_groups_plain(s, bytes, i);
    }
    lemma_payload_of_text(text, A85_END);
    lemma_a85_bytes_of_groups(s, bytes);
}

/// The bytes of a text that count as white space: tab, line feed, form feed, carriage
/// return and space.
pub open spec fn is_spacing(b: u8) -> bool {
    b == 0x09 || b == 0x0a || b == 0x0c || b == 0x0d || b == 0x20
}

/// What a hexadecimal text stands for is settled before its first `>`, and by other
/// bytes than white space.
pub proof fn law_hex_markers(before: Seq<u8>, b: u8, after: Seq<u8>)
    ensures
        hex_decoded(before + seq![0x3eu8] + after) == hex_decoded(before),
        is_spacing(b) ==> hex_decoded(before + seq![b] + after) == hex_decoded(before + after),
{
    law_end_marker_ends(before, 0x3e, after);
    if is_spacing(b) {
        law_white_space_ignored(before, b, after, 0x3e);
    }
}

/// What an ASCII85 text stands for is settled before its first `~`, and by other bytes
/// than white space.
pub proof fn law_a85_markers(before: Seq<u8>, b: u8, after: Seq<u8>)
    ensures
        a85_decoded(before + seq![0x7eu8] + after) == a85_decoded(before),
        is_spacing(b) ==> a85_decoded(before + seq![b] + after) == a85_decoded(before + after),
{
    law_end_marker_ends(before, 0x7e, after);
    if is_spacing(b) {
        law_white_space_ignored(before, b, after, 0x7e);
    }
}

/// Whether a byte is a hexadecimal digit: `0` to `9`, `A` to `F` or `a` to `f`.
pub open spec fn is_hex_letter(b: u8) -> bool {
    0x30 <= b <= 0x39 || 0x41 <= b <= 0x46 || 0x61 <= b <= 0x66
}

proof fn lemma_payload_contains(before: Seq<u8>, b: u8, after: Seq<u8>, end: u8)
    requires
        !before.contains(end),
        b != end,
        !is_space(b),
    ensures
        payload(before + seq![b] + after, end).contains(b),
    decreases before.len(),
{
    let all = before + seq![b] + after;
    let p = payload(all, end);
    if before.len() > 0 {
        let rest = before.drop_first();
        assert forall|i: int| 0 <= i < rest.len() implies rest[i] != end by {
            assert(rest[i] == before[i + 1]);
        }
        assert(before[0] != end);
        lemma_payload_contains(rest, b, after, end);
        assert(all.drop_first() =~= rest + seq![b] + after);
        let q = payload(rest + seq![b] + after, end);
        let i = choose|i: int| 0 <= i < q.len() && q[i] == b;
        if is_space(all[0]) {
            assert(p[i] == b);
        } else {
            assert(p[i + 1] == b);
        }
    } else {
        assert(all[0] == b);
        assert(p[0] == b);
    }
}

/// A byte before the end of a hexadecimal text that is neither a digit nor white space
/// spoils it.
pub proof fn law_hex_spoilt(before: Seq<u8>, b: u8, after: Seq<u8>)
    requires
        !before.contains(0x3e),
        b != 0x3e,
        !is_spacing(b),
        !is_hex_letter(b),
    ensures
        hex_decoded(before + seq![b] + after) is None,
{
    lemma_payload_contains(before, b, after, 0x3e);
    let digits = payload(before + seq![b] + after, 0x3e);
    let i = choose|i: int| 0 <= i < digits.len() && digits[i] == b;
    assert(hex_value(digits[i]) is None);
}

proof fn lemma_a85_needs_digits(s: Seq<u8>, i: int)
    requires
        0 <= i < s.len(),
        !(0x21 <= s[i] <= 0x75),
        s[i] != 0x7a,
    ensures
        a85_bytes(s) is None,
    decreases s.len(),
{
    if s[0] == A85_ZEROS {
        assert(s.skip(1)[i - 1] == s[i]);
        lemma_a85_needs_digits(s.skip(1), i - 1);
    } else {
        let n = if s.len() < 5 {
            s.len() as int
        } else {
            5
        };
        if i < n {
            assert(s.take(n)[i] == s[i]);
            assert(!is_a85_digit(s.take(n)[i]));
        } else {
            assert(s.skip(n)[i - n] == s[i]);
            lemma_a85_needs_digits(s.skip(n), i - n);
        }
    }
}

/// A byte before the end of an ASCII85 text that is neither one of `!` to `u`, nor `z`,
/// nor white space spoils it.
pub proof fn law_a85_spoilt(before: Seq<u8>, b: u8, after: Seq<u8>)
    requires
        !before.contains(0x7e),
        b != 0x7e,
        !is_spacing(b),
        !(0x21 <= b <= 0x75),
        b != 0x7a,
    ensures
        a85_decoded(before + seq![b] + after) is None,
{
    lemma_payload_contains(before, b, after, 0x7e);
    let s = payload(before + seq![b] + after, 0x7e);
    let i = choose|i: int| 0 <= i < s.len() && s[i] == b;
    lemma_a85_needs_digits(s, i);
}

proof fn lemma_payload_plain(text: Seq<u8>, rest: Seq<u8>, end: u8)
    requires
        forall|i: int| 0 <= i < text.len() ==> #[trigger] text[i] != end && !is_space(text[i]),
    ensures
        payload(text + rest, end) == text + payload(rest, end),
    decreases text.len(),
{
    let all = text + rest;
    if text.len() > 0 {
        let more = text.drop_first();
        assert forall|i: int| 0 <= i < more.len() implies #[trigger] more[i] != end && !is_space(
            more[i],
        ) by {
            assert(more[i] == text[i + 1]);
        }
        lemma_payload_plain(more, rest, end);
        assert(all.drop_first() =~= more + rest);
        assert(all[0] == text[0]);
        assert(seq![text[0]] + (more + payload(rest, end)) =~= text + payload(rest, end));
    } else {
        assert(all =~= rest);
        assert(text + payload(rest, end) =~= payload(rest, end));
    }
}

/// The value of five ASCII85 digits, the first the highest.
pub open spec fn value_of_five(g: Seq<u8>) -> int {
    (g[0] - 33) * 52200625 + (g[1] - 33) * 614125 + (g[2] - 33) * 7225 + (g[3] - 33) * 85 + (g[4]
        - 33)
}

/// Whether four bytes are those of a number, the highest first.
pub open spec fn are_bytes_of(b: Seq<u8>, v: int) -> bool {
    b.len() == 4 && v == b[0] * 0x100_0000 + b[1] * 0x1_0000 + b[2] * 0x100 + b[3]
}

proof fn lemma_bytes_of(bytes: Seq<u8>, v: int)
    requires
        are_bytes_of(bytes, v),
    ensures
        big_endian(v) == bytes,
        0 <= v <= 0xffff_ffff,
{
    reveal(crate::ascii_filters::big_endian);
    let b0 = bytes[0] as int;
    let b1 = bytes[1] as int;
    let b2 = bytes[2] as int;
    let b3 = bytes[3] as int;
    assert(v / 0x100_0000 == b0);
    assert(v / 0x1_0000 == b0 * 0x100 + b1);
    assert(v / 0x100 == b0 * 0x1_0000 + b1 * 0x100 + b2);
    assert(big_endian(v) =~= bytes);
}

proof fn lemma_value_of_five(g: Seq<u8>, five: Seq<u8>)
    requires
        1 <= g.len() <= 5,
        five.len() == 5,
        forall|i: int| 0 <= i < 5 ==> #[trigger] five[i] == (if i < g.len() {
            g[i]
        } else {
            0x75
        }),
    ensures
        group_value(g) == value_of_five(five),
{
    reveal(crate::ascii_filters::group_value);
    assert(five[0] - 33 == a85_digit(g, 0));
    assert(five[1] - 33 == a85_digit(g, 1));
    assert(five[2] - 33 == a85_digit(g, 2));
    assert(five[3] - 33 == a85_digit(g, 3));
    assert(five[4] - 33 == a85_digit(g, 4));
}

/// Five digits in front of an ASCII85 text are the four bytes of their value in base 85 in
/// front of what the text stands for. A value of more than four bytes spoils it.
pub proof fn law_a85_group(g: Seq<u8>, rest: Seq<u8>, bytes: Seq<u8>)
    requires
        g.len() == 5,
        forall|i: int| 0 <= i < 5 ==> 0x21 <= #[trigger] g[i] <= 0x75,
    ensures
        value_of_five(g) > 0xffff_ffff ==> a85_decoded(g + rest) is None,
        are_bytes_of(bytes, value_of_five(g)) ==> a85_decoded(g + rest) == (match a85_decoded(rest) {
            Some(more) => Some(bytes + more),
            None => None,
        }),
{
    assert forall|i: int| 0 <= i < g.len() implies #[trigger] g[i] != 0x7e && !is_space(g[i]) by {
        assert(0x21 <= g[i] <= 0x75);
    }
    lemma_payload_plain(g, rest, 0x7e);
    let s = payload(g + rest, 0x7e);
    assert(s.take(5) =~= g);
    assert(s.skip(5) =~= payload(rest, 0x7e));
    assert(0x21 <= g[0] <= 0x75);
    assert(s[0] == g[0]);
    lemma_value_of_five(g, g);
    assert(forall|i: int| 0 <= i < g.len() ==> is_a85_digit(#[trigger] g[i]));
    if are_bytes_of(bytes, value_of_five(g)) {
        lemma_bytes_of(bytes, value_of_five(g));
        assert(bytes.take(4) =~= bytes);
    }
}

/// A `z` in front of an ASCII85 text is four zero bytes in front of what the text stands
/// for.
pub proof fn law_a85_zeros(rest: Seq<u8>)
    ensures
        a85_decoded(seq![0x7au8] + rest) == (match a85_decoded(rest) {
            Some(more) => Some(seq![0u8, 0u8, 0u8, 0u8] + more),
            None => None,
        }),
{
    let z = seq![0x7au8];
    lemma_payload_plain(z, rest, 0x7e);
    let s = payload(z + rest, 0x7e);
    assert(s.skip(1) =~= payload(rest, 0x7e));
}

/// Less than five digits at the end of an ASCII85 text are one byte less than digits: the
/// first bytes of five digits of which the missing ones are `u`.
pub proof fn law_a85_last_digits(g: Seq<u8>, bytes: Seq<u8>)
    requires
        1 <= g.len() < 5,
        forall|i: int| 0 <= i < g.len() ==> 0x21 <= #[trigger] g[i] <= 0x75,
        are_bytes_of(
            bytes,
            value_of_five(g + Seq::new((5 - g.len()) as nat, |i: int| 0x75u8)),
        ),
    ensures
        a85_decoded(g) == Some(bytes.take(g.len() - 1)),
{
    let us = Seq::new((5 - g.len()) as nat, |i: int| 0x75u8);
    let five = g + us;
    assert forall|i: int| 0 <= i < g.len() implies #[trigger] g[i] != 0x7e && !is_space(g[i]) by {
        assert(0x21 <= g[i] <= 0x75);
    }
    lemma_payload_plain(g, Seq::empty(), 0x7e);
    assert(g + Seq::<u8>::empty() =~= g);
    assert(payload(g, 0x7e) =~= g);
    assert(g.take(g.len() as int) =~= g);
    assert(0x21 <= g[0] <= 0x75);
    lemma_value_of_five(g, five);
    lemma_bytes_of(bytes, value_of_five(five));
    assert(forall|i: int| 0 <= i < g.len() ==> is_a85_digit(#[trigger] g[i]));
    let rest = g.skip(g.len() as int);
    assert(rest.len() == 0);
    assert(a85_bytes(rest) == Some(Seq::<u8>::empty()));
    assert(bytes.take(g.len() - 1) + Seq::<u8>::empty() =~= bytes.take(g.len() - 1));
}

} // verus!
