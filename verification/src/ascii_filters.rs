//! The ASCIIHex and ASCII85 stream filters.

use crate::bytes::{bytes_of, is_ascii_space, is_space};
use vstd::prelude::*;

verus! {

/// `>`, which ends ASCIIHex data.
pub const HEX_END: u8 = 0x3e;

/// `~`, which ends ASCII85 data.
pub const A85_END: u8 = 0x7e;

/// `z`, which stands for four zero bytes in ASCII85 data.
pub const A85_ZEROS: u8 = 0x7a;

/// The bytes before the first `end`, without white space.
pub open spec fn payload(data: Seq<u8>, end: u8) -> Seq<u8>
    decreases data.len(),
{
    if data.len() == 0 || data[0] == end {
        Seq::empty()
    } else if is_space(data[0]) {
        payload(data.drop_first(), end)
    } else {
        seq![data[0]] + payload(data.drop_first(), end)
    }
}

/// One byte on.
proof fn lemma_payload_step(data: Seq<u8>, end: u8, i: int)
    requires
        0 <= i < data.len(),
    ensures
        data[i] == end ==> payload(data.skip(i), end) == Seq::<u8>::empty(),
        data[i] != end && is_space(data[i]) ==> payload(data.skip(i), end) == payload(
            data.skip(i + 1),
            end,
        ),
        data[i] != end && !is_space(data[i]) ==> payload(data.skip(i), end) == seq![data[i]]
            + payload(data.skip(i + 1), end),
{
    assert(data.skip(i).drop_first() =~= data.skip(i + 1));
}

// ASCIIHex
/// The value of a hexadecimal digit.
pub open spec fn hex_value(b: u8) -> Option<int> {
    if 0x30 <= b <= 0x39 {
        Some(b - 0x30)
    } else if 0x61 <= b <= 0x66 {
        Some(b - 0x61 + 10)
    } else if 0x41 <= b <= 0x46 {
        Some(b - 0x41 + 10)
    } else {
        None
    }
}

/// The value of the `i`-th digit, 0 past the end.
pub open spec fn nibble(digits: Seq<u8>, i: int) -> int {
    if i < digits.len() {
        hex_value(digits[i])->0
    } else {
        0
    }
}

/// The bytes that hexadecimal digits spell; a missing last digit is 0.
pub open spec fn hex_bytes(digits: Seq<u8>) -> Seq<u8> {
    Seq::new(
        (digits.len() + 1) / 2,
        |i: int| (nibble(digits, 2 * i) * 16 + nibble(digits, 2 * i + 1)) as u8,
    )
}

/// The bytes that ASCIIHex data stand for: those of the digits before the first
/// `>`, white space ignored; nothing if anything else occurs there.
pub open spec fn hex_decoded(data: Seq<u8>) -> Option<Seq<u8>> {
    let digits = payload(data, HEX_END);
    if forall|i: int| 0 <= i < digits.len() ==> hex_value(#[trigger] digits[i]) is Some {
        Some(hex_bytes(digits))
    } else {
        None
    }
}

/// The value of a hexadecimal digit, in either case.
pub fn hex_digit(b: u8) -> (r: Option<u8>)
    ensures
        match r {
            Some(v) => hex_value(b) == Some(v as int) && v < 16,
            None => hex_value(b) is None,
        },
{
    if 0x30 <= b && b <= 0x39 {
        Some(b - 0x30)
    } else if 0x61 <= b && b <= 0x66 {
        Some(b - 0x61 + 10)
    } else if 0x41 <= b && b <= 0x46 {
        Some(b - 0x41 + 10)
    } else {
        None
    }
}

/// Decodes an ASCIIHex-encoded byte stream. White space is ignored, `>` ends.
pub fn ascii_hex_decode(data: &[u8]) -> (r: Option<Vec<u8>>)
    ensures
        bytes_of(r) == hex_decoded(data@),
{
    let mut out: Vec<u8> = Vec::new();
    let mut high: Option<u8> = None;
    let mut i: usize = 0;
    let mut done = false;
    let ghost mut seen: Seq<u8> = Seq::empty();
    assert(data@.skip(0) =~= data@);
    assert(seen + payload(data@, HEX_END) =~= payload(data@, HEX_END));
    while i < data.len() && !done
        invariant
            i <= data@.len(),
            payload(data@, HEX_END) == seen + payload(data@.skip(i as int), HEX_END),
            done ==> payload(data@.skip(i as int), HEX_END) == Seq::<u8>::empty(),
            forall|j: int| 0 <= j < seen.len() ==> hex_value(#[trigger] seen[j]) is Some,
            out@.len() == seen.len() / 2,
            forall|j: int|
                0 <= j < out@.len() ==> #[trigger] out@[j] == (nibble(seen, 2 * j) * 16 + nibble(
                    seen,
                    2 * j + 1,
                )) as u8,
            match high {
                Some(v) => seen.len() % 2 == 1 && v < 16 && hex_value(seen.last()) == Some(
                    v as int,
                ),
                None => seen.len() % 2 == 0,
            },
        decreases data@.len() - i, !done as int,
    {
        let b: u8 = data[i];
        proof {
            lemma_payload_step(data@, HEX_END, i as int);
        }
        if b == HEX_END {
            done = true;
        } else if is_ascii_space(b) {
            i = i + 1;
        } else {
            let ghost next = seen.push(b);
            let ghost rest = payload(data@.skip(i + 1), HEX_END);
            assert(seen + (seq![b] + rest) =~= next + rest);
            match hex_digit(b) {
                None => {
                    assert((next + rest)[seen.len() as int] == b);
                    return None;
                },
                Some(v) => {
                    match high {
                        Some(hi) => {
                            let ghost old_out = out@;
                            out.push(hi * 16 + v);
                            high = None;
                            assert forall|j: int| 0 <= j < out@.len() implies #[trigger] out@[j]
                                == (nibble(next, 2 * j) * 16 + nibble(next, 2 * j + 1)) as u8 by {
                                if j < old_out.len() {
                                    assert(out@[j] == old_out[j]);
                                    assert(next[2 * j] == seen[2 * j]);
                                    assert(next[2 * j + 1] == seen[2 * j + 1]);
                                } else {
                                    assert(2 * j == seen.len() - 1);
                                    assert(next[2 * j] == seen.last());
                                    assert(next[2 * j + 1] == b);
                                }
                            }
                        },
                        None => {
                            high = Some(v);
                            assert forall|j: int| 0 <= j < out@.len() implies #[trigger] out@[j]
                                == (nibble(next, 2 * j) * 16 + nibble(next, 2 * j + 1)) as u8 by {
                                assert(next[2 * j] == seen[2 * j]);
                                assert(next[2 * j + 1] == seen[2 * j + 1]);
                            }
                        },
                    }
                },
            }
            proof {
                seen = next;
            }
            i = i + 1;
        }
    }
    assert(payload(data@.skip(i as int), HEX_END) =~= Seq::<u8>::empty());
    assert(payload(data@, HEX_END) =~= seen);
    if let Some(hi) = high {
        out.push(hi * 16);
        assert(2 * (out@.len() - 1) == seen.len() - 1);
    }
    assert(out@ =~= hex_bytes(seen));
    Some(out)
}

// ASCII85
/// Whether a byte is one of the digits `!` to `u`.
pub open spec fn is_a85_digit(b: u8) -> bool {
    0x21 <= b <= 0x75
}

/// The value of the `i`-th digit of a group; past its end, that of `u`.
pub open spec fn a85_digit(group: Seq<u8>, i: int) -> int {
    if i < group.len() {
        group[i] - 0x21
    } else {
        84
    }
}

/// A group of one to five digits as a number in base 85.
#[verifier::opaque]
pub open spec fn group_value(group: Seq<u8>) -> int {
    (((a85_digit(group, 0) * 85 + a85_digit(group, 1)) * 85 + a85_digit(group, 2)) * 85
        + a85_digit(group, 3)) * 85 + a85_digit(group, 4)
}

/// Whether a group holds only digits and its value fits in four bytes.
pub open spec fn is_a85_group(group: Seq<u8>) -> bool {
    &&& forall|i: int| 0 <= i < group.len() ==> is_a85_digit(#[trigger] group[i])
    &&& group_value(group) <= 0xffff_ffff
}

/// The four bytes of a number, the highest first.
#[verifier::opaque]
pub open spec fn big_endian(v: int) -> Seq<u8> {
    seq![
        (v / 0x100_0000) as u8,
        (v / 0x1_0000 % 0x100) as u8,
        (v / 0x100 % 0x100) as u8,
        (v % 0x100) as u8,
    ]
}

/// `front` followed by what `rest` holds, if it holds something.
pub open spec fn prepend(front: Seq<u8>, rest: Option<Seq<u8>>) -> Option<Seq<u8>> {
    match rest {
        Some(r) => Some(front + r),
        None => None,
    }
}

pub open spec fn four_zeros() -> Seq<u8> {
    seq![0u8, 0u8, 0u8, 0u8]
}

/// The bytes of the groups that `s` consists of: a `z` stands for four zero
/// bytes, five digits for four bytes, and the last `n < 5` digits for `n - 1`.
pub open spec fn a85_bytes(s: Seq<u8>) -> Option<Seq<u8>>
    decreases s.len(),
{
    if s.len() == 0 {
        Some(Seq::empty())
    } else if s[0] == A85_ZEROS {
        prepend(four_zeros(), a85_bytes(s.skip(1)))
    } else {
        let n = if s.len() < 5 {
            s.len() as int
        } else {
            5
        };
        if is_a85_group(s.take(n)) {
            prepend(big_endian(group_value(s.take(n))).take(n - 1), a85_bytes(s.skip(n)))
        } else {
            None
        }
    }
}

/// The bytes that ASCII85 data stand for: those of the groups before the first
/// `~`, white space ignored.
pub open spec fn a85_decoded(data: Seq<u8>) -> Option<Seq<u8>> {
    a85_bytes(payload(data, A85_END))
}

proof fn lemma_group_value_bound(group: Seq<u8>)
    requires
        forall|i: int| 0 <= i < group.len() ==> is_a85_digit(#[trigger] group[i]),
    ensures
        0 <= group_value(group) < 4_437_053_125,
{
    reveal(group_value);
    if group.len() > 0 {
        assert(is_a85_digit(group[0]));
    }
    if group.len() > 1 {
        assert(is_a85_digit(group[1]));
    }
    if group.len() > 2 {
        assert(is_a85_digit(group[2]));
    }
    if group.len() > 3 {
        assert(is_a85_digit(group[3]));
    }
    if group.len() > 4 {
        assert(is_a85_digit(group[4]));
    }
}

/// The four bytes of a group, or nothing where its value does not fit.
fn decode_group(group: &Vec<u8>) -> (r: Option<[u8; 4]>)
    requires
        group@.len() <= 5,
        forall|i: int| 0 <= i < group@.len() ==> is_a85_digit(#[trigger] group@[i]),
    ensures
        match r {
            Some(bytes) => is_a85_group(group@) && bytes@ == big_endian(group_value(group@)),
            None => !is_a85_group(group@),
        },
{
    proof {
        lemma_group_value_bound(group@);
        reveal(group_value);
        reveal(big_endian);
    }
    let mut value: u64 = 0;
    let mut i: usize = 0;
    let ghost mut partial: Seq<int> = seq![0int];
    while i < 5
        invariant
            i <= 5,
            group@.len() <= 5,
            forall|j: int| 0 <= j < group@.len() ==> is_a85_digit(#[trigger] group@[j]),
            partial.len() == i + 1,
            partial[0] == 0,
            partial[i as int] == value,
            i >= 1 ==> partial[1] == a85_digit(group@, 0),
            i >= 2 ==> partial[2] == partial[1] * 85 + a85_digit(group@, 1),
            i >= 3 ==> partial[3] == partial[2] * 85 + a85_digit(group@, 2),
            i >= 4 ==> partial[4] == partial[3] * 85 + a85_digit(group@, 3),
            i >= 5 ==> partial[5] == partial[4] * 85 + a85_digit(group@, 4),
            i == 1 ==> value < 85,
            i == 2 ==> value < 7225,
            i == 3 ==> value < 614125,
            i == 4 ==> value < 52200625,
        decreases 5 - i,
    {
        let digit: u64 = if i < group.len() {
            assert(is_a85_digit(group@[i as int]));
            (group[i] - 0x21) as u64
        } else {
            84
        };
        assert(digit == a85_digit(group@, i as int));
        assert(digit <= 84);
        assert(value <= 52200624);
        value = value * 85 + digit;
        proof {
            partial = partial.push(value as int);
        }
        i = i + 1;
    }
    assert(value == group_value(group@));
    if value > 0xffff_ffff {
        return None;
    }
    let bytes: [u8; 4] = [
        (value / 0x100_0000) as u8,
        (value / 0x1_0000 % 0x100) as u8,
        (value / 0x100 % 0x100) as u8,
        (value % 0x100) as u8,
    ];
    assert(bytes@ =~= big_endian(group_value(group@)));
    Some(bytes)
}

proof fn lemma_prepend_twice(a: Seq<u8>, b: Seq<u8>, rest: Option<Seq<u8>>)
    ensures
        prepend(a, prepend(b, rest)) == prepend(a + b, rest),
        prepend(Seq::empty(), rest) == rest,
{
    match rest {
        Some(r) => {
            assert(a + (b + r) =~= a + b + r);
            assert(Seq::<u8>::empty() + r =~= r);
        },
        None => {},
    }
}

proof fn lemma_a85_zeros(rest: Seq<u8>)
    ensures
        a85_bytes(seq![A85_ZEROS] + rest) == prepend(four_zeros(), a85_bytes(rest)),
{
    assert((seq![A85_ZEROS] + rest).skip(1) =~= rest);
}

proof fn lemma_a85_full_group(group: Seq<u8>, rest: Seq<u8>)
    requires
        group.len() == 5,
        forall|j: int| 0 <= j < group.len() ==> is_a85_digit(#[trigger] group[j]),
    ensures
        a85_bytes(group + rest) == if is_a85_group(group) {
            prepend(big_endian(group_value(group)), a85_bytes(rest))
        } else {
            None
        },
{
    let s = group + rest;
    assert(s.take(5) =~= group);
    assert(s.skip(5) =~= rest);
    assert(s[0] == group[0]);
    assert(is_a85_digit(group[0]));
    reveal(big_endian);
    assert(big_endian(group_value(group)).take(4) =~= big_endian(group_value(group)));
}

proof fn lemma_a85_bad_byte(group: Seq<u8>, b: u8, rest: Seq<u8>)
    requires
        group.len() < 5,
        forall|j: int| 0 <= j < group.len() ==> is_a85_digit(#[trigger] group[j]),
        !is_a85_digit(b),
        b != A85_ZEROS || group.len() > 0,
    ensures
        a85_bytes(group + (seq![b] + rest)) is None,
{
    let s = group + (seq![b] + rest);
    let n = if s.len() < 5 {
        s.len() as int
    } else {
        5
    };
    assert(s.take(n)[group.len() as int] == b);
    assert(!is_a85_digit(s.take(n)[group.len() as int]));
    if group.len() > 0 {
        assert(is_a85_digit(group[0]));
        assert(s[0] == group[0]);
    }
}

proof fn lemma_a85_last_group(group: Seq<u8>)
    requires
        0 < group.len() < 5,
        forall|j: int| 0 <= j < group.len() ==> is_a85_digit(#[trigger] group[j]),
    ensures
        a85_bytes(group) == if is_a85_group(group) {
            Some(big_endian(group_value(group)).take(group.len() - 1))
        } else {
            None
        },
{
    let n = group.len() as int;
    assert(group.take(n) =~= group);
    assert(group.skip(n) =~= Seq::<u8>::empty());
    assert(is_a85_digit(group[0]));
    assert(a85_bytes(Seq::empty()) == Some(Seq::<u8>::empty()));
    let part = big_endian(group_value(group)).take(n - 1);
    assert(part + Seq::<u8>::empty() =~= part);
}

/// Decodes an ASCII85-encoded byte stream. White space is ignored, `~>` ends.
pub fn ascii85_decode(data: &[u8]) -> (r: Option<Vec<u8>>)
    ensures
        bytes_of(r) == a85_decoded(data@),
{
    let mut out: Vec<u8> = Vec::new();
    let mut group: Vec<u8> = Vec::new();
    let mut i: usize = 0;
    let mut done = false;
    proof {
        let all = payload(data@, A85_END);
        assert(data@.skip(0) =~= data@);
        assert(group@ + all =~= all);
        lemma_prepend_twice(out@, out@, a85_bytes(all));
    }
    while i < data.len() && !done
        invariant
            i <= data@.len(),
            group@.len() < 5,
            forall|j: int| 0 <= j < group@.len() ==> is_a85_digit(#[trigger] group@[j]),
            done ==> payload(data@.skip(i as int), A85_END) == Seq::<u8>::empty(),
            a85_decoded(data@) == prepend(
                out@,
                a85_bytes(group@ + payload(data@.skip(i as int), A85_END)),
            ),
        decreases data@.len() - i, !done as int,
    {
        let b: u8 = data[i];
        let ghost rest = payload(data@.skip(i + 1), A85_END);
        let ghost old_out = out@;
        let ghost before = group@;
        proof {
            lemma_payload_step(data@, A85_END, i as int);
        }
        if b == A85_END {
            done = true;
        } else if is_ascii_space(b) {
            i = i + 1;
        } else if b == A85_ZEROS && group.len() == 0 {
            out.push(0);
            out.push(0);
            out.push(0);
            out.push(0);
            i = i + 1;
            proof {
                assert(before + (seq![b] + rest) =~= seq![b] + rest);
                assert(before + rest =~= rest);
                assert(out@ =~= old_out + four_zeros());
                lemma_a85_zeros(rest);
                lemma_prepend_twice(old_out, four_zeros(), a85_bytes(rest));
            }
        } else if b < 0x21 || b > 0x75 {
            proof {
                lemma_a85_bad_byte(before, b, rest);
            }
            return None;
        } else {
            group.push(b);
            i = i + 1;
            assert(before + (seq![b] + rest) =~= group@ + rest);
            if group.len() == 5 {
                let ghost g = group@;
                proof {
                    lemma_a85_full_group(g, rest);
                }
                match decode_group(&group) {
                    None => {
                        return None;
                    },
                    Some(bytes) => {
                        out.push(bytes[0]);
                        out.push(bytes[1]);
                        out.push(bytes[2]);
                        out.push(bytes[3]);
                        group.clear();
                        proof {
                            assert(out@ =~= old_out + bytes@);
                            assert(group@ + rest =~= rest);
                            lemma_prepend_twice(old_out, bytes@, a85_bytes(rest));
                        }
                    },
                }
            }
        }
    }
    assert(payload(data@.skip(i as int), A85_END) =~= Seq::<u8>::empty());
    assert(group@ + Seq::<u8>::empty() =~= group@);
    if group.len() > 0 {
        let ghost old_out = out@;
        let n: usize = group.len();
        proof {
            lemma_a85_last_group(group@);
        }
        match decode_group(&group) {
            None => {
                return None;
            },
            Some(bytes) => {
                let mut k: usize = 0;
                assert(bytes@.take(0) =~= Seq::<u8>::empty());
                assert(old_out + Seq::<u8>::empty() =~= old_out);
                while k < n - 1
                    invariant
                        k <= n - 1,
                        1 <= n <= 4,
                        out@ == old_out + bytes@.take(k as int),
                    decreases n - k,
                {
                    out.push(bytes[k]);
                    assert(out@ =~= old_out + bytes@.take(k + 1));
                    k = k + 1;
                }
            },
        }
    } else {
        assert(group@ =~= Seq::<u8>::empty());
        assert(out@ + Seq::<u8>::empty() =~= out@);
    }
    Some(out)
}

} // verus!
