//! Inline images in content streams: which content streams can be parsed.
//!
//! The dictionary of an inline image stands between `BI` and `ID`. The parser
//! computes the size of the image from its width, height, bits and color space,
//! and needs the color space to be there and the size to be in range. So the
//! operations of a content stream are stepped over first, as the parser takes
//! them, and the dictionaries of its inline images looked at.

use crate::ascii_filters::{hex_digit, hex_value};
use crate::bytes::spells;
use vstd::prelude::*;
use vstd::utf8::{encode_utf8, is_ascii_chars_encode_utf8};

verus! {

/// Classes of bytes.
#[derive(Clone, Copy, Debug, PartialEq, Eq, Structural)]
pub enum ByteClass {
    /// What may stand between operators and their operands.
    Blank,
    /// What may stand between the parts of an object.
    White,
    Digit,
    /// What a name is made of, but for escapes.
    Name,
    /// What an operator is made of.
    Operator,
    /// What a hexadecimal string is made of.
    Hex,
    /// What a line is made of.
    Line,
}

pub open spec fn is_blank_byte(b: u8) -> bool {
    b == 0x20 || b == 0x09 || b == 0x0d || b == 0x0a
}

pub open spec fn is_white_byte(b: u8) -> bool {
    is_blank_byte(b) || b == 0 || b == 0x0c
}

/// The delimiters `( ) < > [ ] { } / %`
pub open spec fn is_delimiter(b: u8) -> bool {
    b == 0x28 || b == 0x29 || b == 0x3c || b == 0x3e || b == 0x5b || b == 0x5d || b == 0x7b || b
        == 0x7d || b == 0x2f || b == 0x25
}

pub open spec fn in_class(class: ByteClass, b: u8) -> bool {
    match class {
        ByteClass::Blank => is_blank_byte(b),
        ByteClass::White => is_white_byte(b),
        ByteClass::Digit => 0x30 <= b <= 0x39,
        ByteClass::Name => !is_white_byte(b) && !is_delimiter(b) && b != 0x23,
        ByteClass::Operator => 0x41 <= b <= 0x5a || 0x61 <= b <= 0x7a || b == 0x2a || b == 0x27
            || b == 0x22,
        ByteClass::Hex => is_white_byte(b) || hex_value(b) is Some,
        ByteClass::Line => b != 0x0d && b != 0x0a,
    }
}

/// Where a run of bytes of a class ends that starts at `p`.
pub open spec fn run_end(class: ByteClass, data: Seq<u8>, p: int) -> int
    decreases data.len() - p,
{
    if 0 <= p < data.len() && in_class(class, data[p]) {
        run_end(class, data, p + 1)
    } else {
        p
    }
}

/// A run ends no earlier than it starts, and within the data.
pub proof fn lemma_run_end(class: ByteClass, data: Seq<u8>, p: int)
    requires
        0 <= p <= data.len(),
    ensures
        p <= run_end(class, data, p) <= data.len(),
    decreases data.len() - p,
{
    if p < data.len() && in_class(class, data[p]) {
        lemma_run_end(class, data, p + 1);
    }
}

/// Whether a byte stands at `p`.
pub open spec fn is_at(data: Seq<u8>, p: int, b: u8) -> bool {
    0 <= p < data.len() && data[p] == b
}

/// Whether a text stands at `p`.
pub open spec fn stands_at(data: Seq<u8>, p: int, text: Seq<char>) -> bool {
    let bytes = encode_utf8(text);
    p + bytes.len() <= data.len() && data.subrange(p, p + bytes.len()) == bytes
}

/// Where a line end at `p` ends.
pub open spec fn line_end(data: Seq<u8>, p: int) -> Option<int> {
    if is_at(data, p, 0x0d) && is_at(data, p + 1, 0x0a) {
        Some(p + 2)
    } else if is_at(data, p, 0x0d) || is_at(data, p, 0x0a) {
        Some(p + 1)
    } else {
        None
    }
}

/// Where a comment at `p` ends, the end of its line included.
pub open spec fn comment_end(data: Seq<u8>, p: int) -> Option<int> {
    if is_at(data, p, 0x25) {
        line_end(data, run_end(ByteClass::Line, data, p + 1))
    } else {
        None
    }
}

/// A comment ends after its start, and within the data.
pub proof fn lemma_comment_end(data: Seq<u8>, p: int)
    ensures
        comment_end(data, p) matches Some(q) ==> p < q <= data.len(),
{
    if is_at(data, p, 0x25) {
        lemma_run_end(ByteClass::Line, data, p + 1);
    }
}

/// Where the comments at `p` end.
pub open spec fn comments_end(data: Seq<u8>, p: int) -> int
    decreases data.len() - p,
{
    match comment_end(data, p) {
        Some(q) => {
            proof {
                lemma_comment_end(data, p);
            }
            comments_end(data, q)
        },
        None => p,
    }
}

/// Where the white space and the comments at `p` end.
pub open spec fn space_end(data: Seq<u8>, p: int) -> int
    decreases data.len() - p,
{
    let w = run_end(ByteClass::White, data, p);
    match comment_end(data, w) {
        Some(q) => {
            proof {
                lemma_run_end(ByteClass::White, data, p);
                lemma_comment_end(data, w);
            }
            if p < 0 {
                p
            } else {
                space_end(data, q)
            }
        },
        None => w,
    }
}

pub proof fn lemma_comments_end(data: Seq<u8>, p: int)
    requires
        0 <= p <= data.len(),
    ensures
        p <= comments_end(data, p) <= data.len(),
    decreases data.len() - p,
{
    lemma_comment_end(data, p);
    if let Some(q) = comment_end(data, p) {
        lemma_comments_end(data, q);
    }
}

pub proof fn lemma_space_end(data: Seq<u8>, p: int)
    requires
        0 <= p <= data.len(),
    ensures
        p <= space_end(data, p) <= data.len(),
    decreases data.len() - p,
{
    lemma_run_end(ByteClass::White, data, p);
    let w = run_end(ByteClass::White, data, p);
    lemma_comment_end(data, w);
    if let Some(q) = comment_end(data, w) {
        lemma_space_end(data, q);
    }
}

/// Whether a byte of a name is written in hexadecimal at `p`.
pub open spec fn is_escape(data: Seq<u8>, p: int) -> bool {
    &&& is_at(data, p, 0x23)
    &&& p + 2 < data.len()
    &&& hex_value(data[p + 1]) is Some
    &&& hex_value(data[p + 2]) is Some
}

/// Where a name ends whose bytes go on at `p`.
pub open spec fn name_end(data: Seq<u8>, p: int) -> int
    decreases data.len() - p,
{
    if is_escape(data, p) {
        name_end(data, p + 3)
    } else if 0 <= p < data.len() && in_class(ByteClass::Name, data[p]) {
        name_end(data, p + 1)
    } else {
        p
    }
}

/// The bytes of a name that go on at `p`.
pub open spec fn name_text(data: Seq<u8>, p: int) -> Seq<u8>
    decreases data.len() - p,
{
    if is_escape(data, p) {
        seq![(hex_value(data[p + 1])->0 * 16 + hex_value(data[p + 2])->0) as u8] + name_text(
            data,
            p + 3,
        )
    } else if 0 <= p < data.len() && in_class(ByteClass::Name, data[p]) {
        seq![data[p]] + name_text(data, p + 1)
    } else {
        Seq::empty()
    }
}

pub proof fn lemma_name_end(data: Seq<u8>, p: int)
    requires
        0 <= p <= data.len(),
    ensures
        p <= name_end(data, p) <= data.len(),
    decreases data.len() - p,
{
    if is_escape(data, p) {
        lemma_name_end(data, p + 3);
    } else if p < data.len() && in_class(ByteClass::Name, data[p]) {
        lemma_name_end(data, p + 1);
    }
}

/// How deep parentheses may nest in a string.
pub const MAX_NESTING: usize = 100;

/// Where a literal string ends that goes on at `p`, within `depth` parentheses of
/// its own.
pub open spec fn string_end(data: Seq<u8>, p: int, depth: int) -> Option<int>
    decreases data.len() - p,
{
    if p < 0 || p >= data.len() {
        None
    } else if data[p] == 0x5c {
        if p + 1 < data.len() {
            string_end(data, p + 2, depth)
        } else {
            None
        }
    } else if data[p] == 0x28 {
        if depth < MAX_NESTING {
            string_end(data, p + 1, depth + 1)
        } else {
            None
        }
    } else if data[p] == 0x29 {
        if depth == 0 {
            Some(p + 1)
        } else {
            string_end(data, p + 1, depth - 1)
        }
    } else {
        string_end(data, p + 1, depth)
    }
}

pub proof fn lemma_string_end(data: Seq<u8>, p: int, depth: int)
    ensures
        string_end(data, p, depth) matches Some(q) ==> p < q <= data.len(),
    decreases data.len() - p,
{
    if 0 <= p < data.len() {
        if data[p] == 0x5c {
            if p + 1 < data.len() {
                lemma_string_end(data, p + 2, depth);
            }
        } else if data[p] == 0x28 {
            lemma_string_end(data, p + 1, depth + 1);
        } else if data[p] == 0x29 {
            lemma_string_end(data, p + 1, depth - 1);
        } else {
            lemma_string_end(data, p + 1, depth);
        }
    }
}

/// Where a hexadecimal string at `p` ends.
pub open spec fn hex_string_end(data: Seq<u8>, p: int) -> Option<int> {
    let q = run_end(ByteClass::Hex, data, p + 1);
    if is_at(data, p, 0x3c) && is_at(data, q, 0x3e) {
        Some(q + 1)
    } else {
        None
    }
}

/// The number that the digits from `p` up to `q` spell.
pub open spec fn digits_value(data: Seq<u8>, p: int, q: int) -> int
    decreases q - p,
{
    if q <= p {
        0
    } else {
        digits_value(data, p, q - 1) * 10 + (data[q - 1] - 0x30)
    }
}

/// Where the digits of a number at `p` may start.
pub open spec fn after_sign(data: Seq<u8>, p: int) -> int {
    if is_at(data, p, 0x2b) || is_at(data, p, 0x2d) {
        p + 1
    } else {
        p
    }
}

/// Where a number with a point at `p` ends.
pub open spec fn real_end(data: Seq<u8>, p: int) -> Option<int> {
    let from = after_sign(data, p);
    let d = run_end(ByteClass::Digit, data, from);
    let e = run_end(ByteClass::Digit, data, d + 1);
    if is_at(data, d, 0x2e) && (d > from || e > d + 1) {
        Some(e)
    } else {
        None
    }
}

/// The integer at `p`, where there is one in range.
pub open spec fn integer_at(data: Seq<u8>, p: int) -> Option<i64> {
    let from = after_sign(data, p);
    let d = run_end(ByteClass::Digit, data, from);
    let n = if is_at(data, p, 0x2d) {
        -digits_value(data, from, d)
    } else {
        digits_value(data, from, d)
    };
    if d > from && i64::MIN <= n <= i64::MAX {
        Some(n as i64)
    } else {
        None
    }
}

/// Where a reference at `p` ends: an object number, a generation number, and `R`.
pub open spec fn reference_end(data: Seq<u8>, p: int) -> Option<int> {
    let d = run_end(ByteClass::Digit, data, p);
    let s = space_end(data, d);
    let e = run_end(ByteClass::Digit, data, s);
    let t = space_end(data, e);
    if d > p && digits_value(data, p, d) <= u32::MAX && e > s && digits_value(data, s, e)
        <= u16::MAX && is_at(data, t, 0x52) {
        Some(t + 1)
    } else {
        None
    }
}

/// A value in the dictionary of an inline image, as far as its size may depend on
/// it.
pub enum EntryValue {
    Boolean(bool),
    Integer(i64),
    Name(Vec<u8>),
    Other,
}

/// What an `EntryValue` holds.
pub enum EntryView {
    Boolean(bool),
    Integer(i64),
    Name(Seq<u8>),
    Other,
}

impl View for EntryValue {
    type V = EntryView;

    open spec fn view(&self) -> EntryView {
        match self {
            EntryValue::Boolean(b) => EntryView::Boolean(*b),
            EntryValue::Integer(n) => EntryView::Integer(*n),
            EntryValue::Name(n) => EntryView::Name(n@),
            EntryValue::Other => EntryView::Other,
        }
    }
}

/// An object in a content stream: its value, and where it ends.
pub struct Found {
    pub value: EntryView,
    pub end: int,
}

/// An object of no interest, where it ends at all.
pub open spec fn other(end: Option<int>) -> Option<Found> {
    match end {
        Some(end) => Some(Found { value: EntryView::Other, end }),
        None => None,
    }
}

/// The object at `p` that is neither an array nor a dictionary. Among the operands
/// of an operator there are no references.
pub open spec fn atom_at(data: Seq<u8>, p: int, references: bool) -> Option<Found> {
    if stands_at(data, p, "null"@) {
        other(Some(p + encode_utf8("null"@).len()))
    } else if stands_at(data, p, "true"@) {
        Some(Found { value: EntryView::Boolean(true), end: p + encode_utf8("true"@).len() })
    } else if stands_at(data, p, "false"@) {
        Some(Found { value: EntryView::Boolean(false), end: p + encode_utf8("false"@).len() })
    } else if references && reference_end(data, p) is Some {
        other(reference_end(data, p))
    } else if real_end(data, p) is Some {
        other(real_end(data, p))
    } else if integer_at(data, p) is Some {
        Some(
            Found {
                value: EntryView::Integer(integer_at(data, p)->0),
                end: run_end(ByteClass::Digit, data, after_sign(data, p)),
            },
        )
    } else if is_at(data, p, 0x2f) {
        Some(Found { value: EntryView::Name(name_text(data, p + 1)), end: name_end(data, p + 1) })
    } else if is_at(data, p, 0x28) {
        other(string_end(data, p + 1, 0))
    } else {
        other(hex_string_end(data, p))
    }
}

/// The lengths of the keywords that are objects.
pub proof fn lemma_keywords()
    ensures
        encode_utf8("null"@).len() == 4,
        encode_utf8("true"@).len() == 4,
        encode_utf8("false"@).len() == 5,
        encode_utf8("BI"@).len() == 2,
        encode_utf8("ID"@).len() == 2,
        encode_utf8("EI"@).len() == 2,
{
    reveal_strlit("null");
    reveal_strlit("true");
    reveal_strlit("false");
    reveal_strlit("BI");
    reveal_strlit("ID");
    reveal_strlit("EI");
    reveal_with_fuel(encode_utf8, 6);
}

pub proof fn lemma_atom_end(data: Seq<u8>, p: int, references: bool)
    requires
        0 <= p <= data.len(),
    ensures
        atom_at(data, p, references) matches Some(found) ==> p < found.end <= data.len(),
{
    lemma_keywords();
    lemma_run_end(ByteClass::Digit, data, p);
    let d = run_end(ByteClass::Digit, data, p);
    lemma_space_end(data, d);
    lemma_run_end(ByteClass::Digit, data, space_end(data, d));
    lemma_space_end(data, run_end(ByteClass::Digit, data, space_end(data, d)));
    lemma_run_end(ByteClass::Digit, data, after_sign(data, p));
    let f = run_end(ByteClass::Digit, data, after_sign(data, p));
    if f < data.len() {
        lemma_run_end(ByteClass::Digit, data, f + 1);
    }
    if p < data.len() {
        lemma_name_end(data, p + 1);
        lemma_string_end(data, p + 1, 0);
        lemma_run_end(ByteClass::Hex, data, p + 1);
    }
}

/// Arrays and dictionaries.
#[derive(Clone, Copy, Debug, PartialEq, Eq, Structural)]
pub enum Bracket {
    Array,
    Dictionary,
}

/// Whether two bytes of a kind stand at `p`.
pub open spec fn is_twice_at(data: Seq<u8>, p: int, b: u8) -> bool {
    is_at(data, p, b) && is_at(data, p + 1, b)
}

/// What opens at `p`, and where that ends.
pub open spec fn opening(data: Seq<u8>, p: int) -> Option<(Bracket, int)> {
    if is_at(data, p, 0x5b) {
        Some((Bracket::Array, p + 1))
    } else if is_twice_at(data, p, 0x3c) {
        Some((Bracket::Dictionary, p + 2))
    } else {
        None
    }
}

/// Where the innermost of the open brackets closes, if that is at `p`.
pub open spec fn closing(data: Seq<u8>, p: int, open: Bracket) -> Option<int> {
    match open {
        Bracket::Array => if is_at(data, p, 0x5d) {
            Some(p + 1)
        } else {
            None
        },
        Bracket::Dictionary => if is_twice_at(data, p, 0x3e) {
            Some(p + 2)
        } else {
            None
        },
    }
}

/// Where a value may start in the innermost of the open brackets at `p`: behind a
/// key in a dictionary, at once in an array.
pub open spec fn value_start(data: Seq<u8>, p: int, open: Bracket) -> Option<int> {
    match open {
        Bracket::Array => Some(p),
        Bracket::Dictionary => if is_at(data, p, 0x2f) {
            Some(space_end(data, name_end(data, p + 1)))
        } else {
            None
        },
    }
}

pub proof fn lemma_value_start(data: Seq<u8>, p: int, open: Bracket)
    requires
        0 <= p <= data.len(),
    ensures
        value_start(data, p, open) matches Some(v) ==> p <= v <= data.len(),
{
    if p < data.len() {
        lemma_name_end(data, p + 1);
        lemma_space_end(data, name_end(data, p + 1));
    }
}

/// Where all of the open brackets are closed, the innermost last, whose contents go
/// on at `p`.
pub open spec fn nested_end(data: Seq<u8>, p: int, open: Seq<Bracket>) -> Option<int>
    decreases data.len() - p,
{
    if p < 0 || p >= data.len() || open.len() == 0 {
        None
    } else {
        match closing(data, p, open.last()) {
            Some(q) => {
                proof {
                    lemma_space_end(data, q);
                }
                if open.len() == 1 {
                    Some(q)
                } else {
                    nested_end(data, space_end(data, q), open.drop_last())
                }
            },
            None => match value_start(data, p, open.last()) {
                Some(v) => {
                    proof {
                        lemma_value_start(data, p, open.last());
                        lemma_atom_end(data, v, true);
                    }
                    match (atom_at(data, v, true), opening(data, v)) {
                        (Some(found), _) => {
                            proof {
                                lemma_space_end(data, found.end);
                            }
                            nested_end(data, space_end(data, found.end), open)
                        },
                        (None, Some((bracket, q))) => {
                            proof {
                                lemma_space_end(data, q);
                            }
                            nested_end(data, space_end(data, q), open.push(bracket))
                        },
                        (None, None) => None,
                    }
                },
                None => None,
            },
        }
    }
}

pub proof fn lemma_nested_end(data: Seq<u8>, p: int, open: Seq<Bracket>)
    ensures
        nested_end(data, p, open) matches Some(q) ==> p < q <= data.len(),
    decreases data.len() - p,
{
    if 0 <= p < data.len() && open.len() > 0 {
        if let Some(q) = closing(data, p, open.last()) {
            lemma_space_end(data, q);
            lemma_nested_end(data, space_end(data, q), open.drop_last());
        } else if let Some(v) = value_start(data, p, open.last()) {
            lemma_value_start(data, p, open.last());
            lemma_atom_end(data, v, true);
            if let Some(found) = atom_at(data, v, true) {
                lemma_space_end(data, found.end);
                lemma_nested_end(data, space_end(data, found.end), open);
            } else if let Some((bracket, q)) = opening(data, v) {
                lemma_space_end(data, q);
                lemma_nested_end(data, space_end(data, q), open.push(bracket));
            }
        }
    }
}

/// The object at `p`.
pub open spec fn object_at(data: Seq<u8>, p: int, references: bool) -> Option<Found> {
    match (atom_at(data, p, references), opening(data, p)) {
        (Some(found), _) => Some(found),
        (None, Some((bracket, q))) => other(nested_end(data, space_end(data, q), seq![bracket])),
        (None, None) => None,
    }
}

pub proof fn lemma_object_end(data: Seq<u8>, p: int, references: bool)
    requires
        0 <= p <= data.len(),
    ensures
        object_at(data, p, references) matches Some(found) ==> p < found.end <= data.len(),
{
    lemma_atom_end(data, p, references);
    if let Some((bracket, q)) = opening(data, p) {
        lemma_space_end(data, q);
        lemma_nested_end(data, space_end(data, q), seq![bracket]);
    }
}

/// Where the operands at `p` end.
pub open spec fn operands_end(data: Seq<u8>, p: int) -> int
    decreases data.len() - p,
{
    if p < 0 || p > data.len() {
        p
    } else {
        match object_at(data, p, false) {
            Some(found) => {
                proof {
                    lemma_object_end(data, p, false);
                    lemma_run_end(ByteClass::Blank, data, found.end);
                }
                operands_end(data, run_end(ByteClass::Blank, data, found.end))
            },
            None => p,
        }
    }
}

pub proof fn lemma_operands_end(data: Seq<u8>, p: int)
    requires
        0 <= p <= data.len(),
    ensures
        p <= operands_end(data, p) <= data.len(),
    decreases data.len() - p,
{
    if let Some(found) = object_at(data, p, false) {
        lemma_object_end(data, p, false);
        lemma_run_end(ByteClass::Blank, data, found.end);
        lemma_operands_end(data, run_end(ByteClass::Blank, data, found.end));
    }
}

/// Entries of a dictionary, in their order, and where they end.
pub struct Entries {
    pub list: Seq<(Seq<u8>, EntryView)>,
    pub end: int,
}

/// The entries at `p`, behind some others.
pub open spec fn entries_at(data: Seq<u8>, p: int, before: Seq<(Seq<u8>, EntryView)>) -> Entries
    decreases data.len() - p,
{
    if !is_at(data, p, 0x2f) {
        Entries { list: before, end: p }
    } else {
        let v = space_end(data, name_end(data, p + 1));
        match object_at(data, v, true) {
            Some(found) => {
                proof {
                    lemma_name_end(data, p + 1);
                    lemma_space_end(data, name_end(data, p + 1));
                    lemma_object_end(data, v, true);
                    lemma_space_end(data, found.end);
                }
                entries_at(
                    data,
                    space_end(data, found.end),
                    before.push((name_text(data, p + 1), found.value)),
                )
            },
            None => Entries { list: before, end: p },
        }
    }
}

pub proof fn lemma_entries_end(data: Seq<u8>, p: int, before: Seq<(Seq<u8>, EntryView)>)
    requires
        0 <= p <= data.len(),
    ensures
        p <= entries_at(data, p, before).end <= data.len(),
    decreases data.len() - p,
{
    if is_at(data, p, 0x2f) {
        lemma_name_end(data, p + 1);
        let v = space_end(data, name_end(data, p + 1));
        lemma_space_end(data, name_end(data, p + 1));
        lemma_object_end(data, v, true);
        if let Some(found) = object_at(data, v, true) {
            lemma_space_end(data, found.end);
            lemma_entries_end(
                data,
                space_end(data, found.end),
                before.push((name_text(data, p + 1), found.value)),
            );
        }
    }
}

/// The value of the last entry with a key.
pub open spec fn last_value(list: Seq<(Seq<u8>, EntryView)>, key: Seq<char>) -> Option<EntryView>
    decreases list.len(),
{
    if list.len() == 0 {
        None
    } else if list.last().0 == encode_utf8(key) {
        Some(list.last().1)
    } else {
        last_value(list.drop_last(), key)
    }
}

/// The value of a key in its short form, or else in its long form.
pub open spec fn either_value(
    list: Seq<(Seq<u8>, EntryView)>,
    short: Seq<char>,
    long: Seq<char>,
) -> Option<EntryView> {
    match last_value(list, short) {
        Some(value) => Some(value),
        None => last_value(list, long),
    }
}

/// What a color space tells of the components of a pixel.
#[derive(Clone, Copy, Debug, PartialEq, Eq, Structural)]
pub enum Components {
    Count(usize),
    /// The color space is not supported.
    Unknown,
    /// There is no color space.
    Missing,
}

/// The components of the color space with a name.
pub open spec fn named_components(name: Seq<u8>) -> Components {
    if name == encode_utf8("DeviceGray"@) || name == encode_utf8("Gray"@) {
        Components::Count(1)
    } else if name == encode_utf8("DeviceRGB"@) || name == encode_utf8("RGB"@) {
        Components::Count(3)
    } else if name == encode_utf8("DeviceRGBA"@) || name == encode_utf8("RGBA"@) || name
        == encode_utf8("DeviceCMYK"@) || name == encode_utf8("CMYK"@) {
        Components::Count(4)
    } else {
        Components::Unknown
    }
}

/// The components of a pixel of an image. A mask has one, and no color space.
pub open spec fn image_components(list: Seq<(Seq<u8>, EntryView)>) -> Components {
    match (either_value(list, "IM"@, "ImageMask"@), either_value(list, "CS"@, "ColorSpace"@)) {
        (Some(EntryView::Boolean(true)), _) => Components::Count(1),
        (_, Some(EntryView::Name(name))) => named_components(name),
        (_, Some(_)) => Components::Unknown,
        (_, None) => Components::Missing,
    }
}

/// What the entries of an image tell of its data.
#[derive(Clone, Copy, Debug, PartialEq, Eq, Structural)]
pub enum DataSize {
    Bytes(usize),
    /// The image is not supported: the parser reports an error.
    Unsupported,
    /// The parser must not be asked: the color space is missing, or the bytes of the
    /// image cannot be counted.
    Unreadable,
}

/// The size of the data of an image of `width` times `height` pixels, each of so
/// many components of so many bits; every row is filled up to full bytes.
pub open spec fn counted(width: usize, height: usize, bits: usize, components: usize) -> DataSize {
    let pixel = components * bits;
    let row = width * pixel;
    let bytes = height * ((row + 7) / 8);
    if pixel <= usize::MAX && row <= usize::MAX && bytes <= usize::MAX {
        DataSize::Bytes(bytes as usize)
    } else {
        DataSize::Unreadable
    }
}

/// The size of the data of an image. Negative numbers wrap around, as conversions
/// to unsigned numbers do.
pub open spec fn data_size(list: Seq<(Seq<u8>, EntryView)>) -> DataSize {
    match (
        either_value(list, "W"@, "Width"@),
        either_value(list, "H"@, "Height"@),
        either_value(list, "BPC"@, "BitsPerComponent"@),
    ) {
        (
            Some(EntryView::Integer(w)),
            Some(EntryView::Integer(h)),
            Some(EntryView::Integer(b)),
        ) => match image_components(list) {
            Components::Count(n) => {
                let size = counted(w as usize, h as usize, b as usize, n);
                if size is Bytes && either_value(list, "F"@, "Filter"@) is Some {
                    DataSize::Unsupported
                } else {
                    size
                }
            },
            Components::Unknown => DataSize::Unsupported,
            Components::Missing => DataSize::Unreadable,
        },
        _ => DataSize::Unsupported,
    }
}

/// Whether the operations from `p` on can be parsed, up to where the parser stops.
pub open spec fn readable_from(data: Seq<u8>, p: int) -> bool
    decreases data.len() - p,
{
    let c = comments_end(data, p);
    if p < 0 || p > data.len() {
        true
    } else if stands_at(data, c, "BI"@) {
        let found = entries_at(
            data,
            run_end(ByteClass::Blank, data, c + encode_utf8("BI"@).len()),
            Seq::empty(),
        );
        let d = run_end(ByteClass::Blank, data, found.end + encode_utf8("ID"@).len());
        stands_at(data, found.end, "ID"@) ==> match data_size(found.list) {
            DataSize::Bytes(n) => {
                let e = run_end(ByteClass::Blank, data, d + n);
                proof {
                    lemma_keywords();
                    lemma_comments_end(data, p);
                    lemma_run_end(ByteClass::Blank, data, c + 2);
                    lemma_entries_end(
                        data,
                        run_end(ByteClass::Blank, data, c + 2),
                        Seq::empty(),
                    );
                    lemma_run_end(ByteClass::Blank, data, found.end + 2);
                    if d + n <= data.len() {
                        lemma_run_end(ByteClass::Blank, data, d + n);
                    }
                    if d + n <= data.len() && stands_at(data, e, "EI"@) {
                        lemma_run_end(ByteClass::Blank, data, e + 2);
                    }
                }
                d + n <= data.len() && stands_at(data, e, "EI"@) ==> readable_from(
                    data,
                    run_end(ByteClass::Blank, data, e + encode_utf8("EI"@).len()),
                )
            },
            DataSize::Unsupported => true,
            DataSize::Unreadable => false,
        }
    } else {
        let o = operands_end(data, c);
        let e = run_end(ByteClass::Operator, data, o);
        proof {
            lemma_comments_end(data, p);
            lemma_operands_end(data, c);
            lemma_run_end(ByteClass::Operator, data, o);
            lemma_run_end(ByteClass::Blank, data, e);
        }
        e > o ==> readable_from(data, run_end(ByteClass::Blank, data, e))
    }
}

/// Whether every inline image of a content stream, up to where the parser stops,
/// has a color space where it needs one, and a size that can be counted.
pub open spec fn images_readable(data: Seq<u8>) -> bool {
    readable_from(data, run_end(ByteClass::Blank, data, 0))
}

proof fn lemma_no_images_from(data: Seq<u8>, p: int)
    requires
        0 <= p <= data.len(),
        forall|i: int| 0 <= i <= data.len() ==> !#[trigger] stands_at(data, i, "BI"@),
    ensures
        readable_from(data, p),
    decreases data.len() - p,
{
    let c = comments_end(data, p);
    lemma_comments_end(data, p);
    assert(!stands_at(data, c, "BI"@));
    let o = operands_end(data, c);
    lemma_operands_end(data, c);
    let e = run_end(ByteClass::Operator, data, o);
    lemma_run_end(ByteClass::Operator, data, o);
    lemma_run_end(ByteClass::Blank, data, e);
    if e > o {
        lemma_no_images_from(data, run_end(ByteClass::Blank, data, e));
    }
}

/// Content that nowhere holds the letters `BI` can always be parsed.
pub proof fn law_no_images_readable(data: Seq<u8>)
    requires
        forall|i: int| 0 <= i <= data.len() ==> !#[trigger] stands_at(data, i, "BI"@),
    ensures
        images_readable(data),
{
    lemma_run_end(ByteClass::Blank, data, 0);
    lemma_no_images_from(data, run_end(ByteClass::Blank, data, 0));
}

/// A string, from its opening parenthesis to its closing one, is one operand: what it
/// holds, the letters `BI` among it, starts no image.
pub proof fn law_strings_are_operands(data: Seq<u8>, p: int)
    requires
        is_at(data, p, 0x28),
        string_end(data, p + 1, 0) is Some,
    ensures
        operands_end(data, p) == operands_end(
            data,
            run_end(ByteClass::Blank, data, string_end(data, p + 1, 0)->0),
        ),
{
    lemma_not_keyword(data, p);
    assert(run_end(ByteClass::Digit, data, p) == p);
    assert(after_sign(data, p) == p);
}

/// A parenthesis starts no keyword.
proof fn lemma_not_keyword(data: Seq<u8>, p: int)
    requires
        is_at(data, p, 0x28),
    ensures
        !stands_at(data, p, "null"@),
        !stands_at(data, p, "true"@),
        !stands_at(data, p, "false"@),
{
    reveal_strlit("null");
    reveal_strlit("true");
    reveal_strlit("false");
    is_ascii_chars_encode_utf8("null"@);
    is_ascii_chars_encode_utf8("true"@);
    is_ascii_chars_encode_utf8("false"@);
    assert("null"@[0] == 'n' && "true"@[0] == 't' && "false"@[0] == 'f');
    if stands_at(data, p, "null"@) {
        assert(data.subrange(p, p + encode_utf8("null"@).len())[0] == data[p]);
    }
    if stands_at(data, p, "true"@) {
        assert(data.subrange(p, p + encode_utf8("true"@).len())[0] == data[p]);
    }
    if stands_at(data, p, "false"@) {
        assert(data.subrange(p, p + encode_utf8("false"@).len())[0] == data[p]);
    }
}

fn is_in_class(class: ByteClass, b: u8) -> (r: bool)
    ensures
        r == in_class(class, b),
{
    let blank = b == 0x20 || b == 0x09 || b == 0x0d || b == 0x0a;
    let white = blank || b == 0 || b == 0x0c;
    let delimiter = b == 0x28 || b == 0x29 || b == 0x3c || b == 0x3e || b == 0x5b || b == 0x5d || b
        == 0x7b || b == 0x7d || b == 0x2f || b == 0x25;
    match class {
        ByteClass::Blank => blank,
        ByteClass::White => white,
        ByteClass::Digit => 0x30 <= b && b <= 0x39,
        ByteClass::Name => !white && !delimiter && b != 0x23,
        ByteClass::Operator => (0x41 <= b && b <= 0x5a) || (0x61 <= b && b <= 0x7a) || b == 0x2a
            || b == 0x27 || b == 0x22,
        ByteClass::Hex => white || hex_digit(b).is_some(),
        ByteClass::Line => b != 0x0d && b != 0x0a,
    }
}

fn find_run_end(class: ByteClass, data: &Vec<u8>, p: usize) -> (r: usize)
    requires
        p <= data@.len(),
    ensures
        r == run_end(class, data@, p as int),
        p <= r <= data@.len(),
{
    let mut q: usize = p;
    while q < data.len() && is_in_class(class, data[q])
        invariant
            p <= q <= data@.len(),
            run_end(class, data@, p as int) == run_end(class, data@, q as int),
        decreases data@.len() - q,
    {
        q = q + 1;
    }
    q
}

fn has_byte(data: &Vec<u8>, p: usize, b: u8) -> (r: bool)
    ensures
        r == is_at(data@, p as int, b),
        r ==> p < data@.len() <= usize::MAX,
{
    p < data.len() && data[p] == b
}

fn has_twice(data: &Vec<u8>, p: usize, b: u8) -> (r: bool)
    ensures
        r == is_twice_at(data@, p as int, b),
        r ==> p + 2 <= data@.len() <= usize::MAX,
{
    p < data.len() && data.len() - p >= 2 && data[p] == b && data[p + 1] == b
}

fn stands(data: &Vec<u8>, p: usize, text: &str) -> (r: bool)
    requires
        p <= data@.len(),
    ensures
        r == stands_at(data@, p as int, text@),
        r ==> p + encode_utf8(text@).len() <= data@.len() <= usize::MAX,
{
    let bytes = text.as_bytes();
    if data.len() - p < bytes.len() {
        return false;
    }
    let len: usize = data.len();
    let mut i: usize = 0;
    while i < bytes.len()
        invariant
            len == data@.len(),
            i <= bytes@.len(),
            bytes@ == encode_utf8(text@),
            p + bytes@.len() <= len,
            forall|j: int| 0 <= j < i ==> data@[p + j] == bytes@[j],
        decreases bytes@.len() - i,
    {
        if data[p + i] != bytes[i] {
            assert(data@.subrange(p as int, p + bytes@.len())[i as int] != bytes@[i as int]);
            return false;
        }
        i = i + 1;
    }
    assert(data@.subrange(p as int, p + bytes@.len()) =~= bytes@);
    true
}

/// A position that may be there.
pub open spec fn position(p: Option<usize>) -> Option<int> {
    match p {
        Some(p) => Some(p as int),
        None => None,
    }
}

fn find_comment_end(data: &Vec<u8>, p: usize) -> (r: Option<usize>)
    ensures
        position(r) == comment_end(data@, p as int),
{
    proof {
        lemma_comment_end(data@, p as int);
    }
    if has_byte(data, p, 0x25) {
        let e: usize = find_run_end(ByteClass::Line, data, p + 1);
        if has_byte(data, e, 0x0d) {
            if has_byte(data, e + 1, 0x0a) {
                Some(e + 2)
            } else {
                Some(e + 1)
            }
        } else if has_byte(data, e, 0x0a) {
            Some(e + 1)
        } else {
            None
        }
    } else {
        None
    }
}

fn find_comments_end(data: &Vec<u8>, p: usize) -> (r: usize)
    requires
        p <= data@.len(),
    ensures
        r == comments_end(data@, p as int),
        p <= r <= data@.len(),
{
    let mut q: usize = p;
    loop
        invariant
            p <= q <= data@.len(),
            comments_end(data@, p as int) == comments_end(data@, q as int),
        decreases data@.len() - q,
    {
        proof {
            lemma_comment_end(data@, q as int);
        }
        match find_comment_end(data, q) {
            Some(e) => {
                q = e;
            },
            None => {
                return q;
            },
        }
    }
}

fn find_space_end(data: &Vec<u8>, p: usize) -> (r: usize)
    requires
        p <= data@.len(),
    ensures
        r == space_end(data@, p as int),
        p <= r <= data@.len(),
{
    let mut q: usize = p;
    loop
        invariant
            p <= q <= data@.len(),
            space_end(data@, p as int) == space_end(data@, q as int),
        decreases data@.len() - q,
    {
        let w: usize = find_run_end(ByteClass::White, data, q);
        proof {
            lemma_comment_end(data@, w as int);
        }
        match find_comment_end(data, w) {
            Some(e) => {
                q = e;
            },
            None => {
                return w;
            },
        }
    }
}

/// Reads a name whose bytes go on at `p`.
fn read_name(data: &Vec<u8>, p: usize) -> (r: (Vec<u8>, usize))
    requires
        p <= data@.len(),
    ensures
        r.0@ == name_text(data@, p as int),
        r.1 == name_end(data@, p as int),
        p <= r.1 <= data@.len(),
{
    let mut text: Vec<u8> = Vec::new();
    let mut q: usize = p;
    assert(text@ + name_text(data@, p as int) =~= name_text(data@, p as int));
    loop
        invariant
            p <= q <= data@.len(),
            name_end(data@, p as int) == name_end(data@, q as int),
            name_text(data@, p as int) == text@ + name_text(data@, q as int),
        decreases data@.len() - q,
    {
        let ghost before = text@;
        if q >= data.len() {
            assert(text@ + Seq::<u8>::empty() =~= text@);
            return (text, q);
        }
        if data[q] == 0x23 {
            let digits = if data.len() - q > 2 {
                (hex_digit(data[q + 1]), hex_digit(data[q + 2]))
            } else {
                (None, None)
            };
            match digits {
                (Some(high), Some(low)) => {
                    text.push(high * 16 + low);
                    assert(before + (seq![(high * 16 + low) as u8] + name_text(data@, q + 3))
                        =~= text@ + name_text(data@, q + 3));
                    q = q + 3;
                },
                _ => {
                    assert(!is_escape(data@, q as int));
                    assert(text@ + Seq::<u8>::empty() =~= text@);
                    return (text, q);
                },
            }
        } else if is_in_class(ByteClass::Name, data[q]) {
            text.push(data[q]);
            assert(before + (seq![data@[q as int]] + name_text(data@, q + 1)) =~= text@ + name_text(
                data@,
                q + 1,
            ));
            q = q + 1;
        } else {
            assert(text@ + Seq::<u8>::empty() =~= text@);
            return (text, q);
        }
    }
}

fn find_string_end(data: &Vec<u8>, p: usize) -> (r: Option<usize>)
    requires
        p <= data@.len(),
    ensures
        position(r) == string_end(data@, p as int, 0),
{
    let len: usize = data.len();
    let mut q: usize = p;
    let mut depth: usize = 0;
    while q < len
        invariant
            len == data@.len(),
            q <= len,
            depth <= MAX_NESTING,
            string_end(data@, p as int, 0) == string_end(data@, q as int, depth as int),
        decreases len - q,
    {
        let b: u8 = data[q];
        if b == 0x5c {
            if len - q < 2 {
                return None;
            }
            q = q + 2;
        } else if b == 0x28 {
            if depth >= MAX_NESTING {
                return None;
            }
            depth = depth + 1;
            q = q + 1;
        } else if b == 0x29 {
            q = q + 1;
            if depth == 0 {
                return Some(q);
            }
            depth = depth - 1;
        } else {
            q = q + 1;
        }
    }
    None
}

/// Digits spell no less for having more behind them.
proof fn lemma_digits_grow(data: Seq<u8>, p: int, i: int, q: int)
    requires
        0 <= p <= i <= q <= data.len(),
        forall|k: int| p <= k < q ==> in_class(ByteClass::Digit, #[trigger] data[k]),
    ensures
        0 <= digits_value(data, p, i) <= digits_value(data, p, q),
    decreases q - p,
{
    if i < q {
        lemma_digits_grow(data, p, i, q - 1);
        assert(in_class(ByteClass::Digit, data[q - 1]));
    } else if p < q {
        lemma_digits_grow(data, p, i - 1, q - 1);
        assert(in_class(ByteClass::Digit, data[q - 1]));
    }
}

/// The digits that a run is made of.
proof fn lemma_run_digits(data: Seq<u8>, p: int, q: int, i: int)
    requires
        0 <= p <= i < q,
        q == run_end(ByteClass::Digit, data, p),
    ensures
        i < data.len(),
        in_class(ByteClass::Digit, data[i]),
    decreases i - p,
{
    if p < i {
        lemma_run_digits(data, p + 1, q, i);
    }
}

/// Reads the digits from `p` up to `q`, unless they spell more than a limit.
fn read_digits(data: &Vec<u8>, p: usize, q: usize, limit: u64) -> (r: Option<u64>)
    requires
        p <= q <= data@.len(),
        q == run_end(ByteClass::Digit, data@, p as int),
    ensures
        match r {
            Some(n) => n == digits_value(data@, p as int, q as int) && n <= limit,
            None => digits_value(data@, p as int, q as int) > limit,
        },
{
    assert forall|k: int| p <= k < q implies in_class(ByteClass::Digit, #[trigger] data@[k]) by {
        lemma_run_digits(data@, p as int, q as int, k);
    }
    let mut n: u64 = 0;
    let mut i: usize = p;
    while i < q
        invariant
            p <= i <= q <= data@.len(),
            forall|k: int| p <= k < q ==> in_class(ByteClass::Digit, #[trigger] data@[k]),
            n == digits_value(data@, p as int, i as int),
            n <= limit,
        decreases q - i,
    {
        assert(in_class(ByteClass::Digit, data@[i as int]));
        let next: u128 = n as u128 * 10 + (data[i] - 0x30) as u128;
        i = i + 1;
        if next > limit as u128 {
            proof {
                lemma_digits_grow(data@, p as int, i as int, q as int);
            }
            return None;
        }
        n = next as u64;
    }
    Some(n)
}

fn find_after_sign(data: &Vec<u8>, p: usize) -> (r: usize)
    requires
        p <= data@.len(),
    ensures
        r == after_sign(data@, p as int),
        p <= r <= data@.len(),
{
    if has_byte(data, p, 0x2b) || has_byte(data, p, 0x2d) {
        p + 1
    } else {
        p
    }
}

fn find_real_end(data: &Vec<u8>, p: usize) -> (r: Option<usize>)
    requires
        p <= data@.len(),
    ensures
        position(r) == real_end(data@, p as int),
{
    let from: usize = find_after_sign(data, p);
    let d: usize = find_run_end(ByteClass::Digit, data, from);
    if has_byte(data, d, 0x2e) {
        let e: usize = find_run_end(ByteClass::Digit, data, d + 1);
        if d > from || e > d + 1 {
            return Some(e);
        }
    }
    None
}

fn read_integer(data: &Vec<u8>, p: usize) -> (r: Option<i64>)
    requires
        p <= data@.len(),
    ensures
        r == integer_at(data@, p as int),
{
    let from: usize = find_after_sign(data, p);
    let d: usize = find_run_end(ByteClass::Digit, data, from);
    if d <= from {
        return None;
    }
    let negative = has_byte(data, p, 0x2d);
    let limit: u64 = if negative {
        0x8000_0000_0000_0000
    } else {
        0x7fff_ffff_ffff_ffff
    };
    match read_digits(data, from, d, limit) {
        Some(n) => Some(
            if negative {
                (-(n as i128)) as i64
            } else {
                n as i64
            },
        ),
        None => None,
    }
}

fn find_reference_end(data: &Vec<u8>, p: usize) -> (r: Option<usize>)
    requires
        p <= data@.len(),
    ensures
        position(r) == reference_end(data@, p as int),
{
    let d: usize = find_run_end(ByteClass::Digit, data, p);
    if d <= p {
        return None;
    }
    let s: usize = find_space_end(data, d);
    let e: usize = find_run_end(ByteClass::Digit, data, s);
    if e <= s {
        return None;
    }
    let t: usize = find_space_end(data, e);
    if !has_byte(data, t, 0x52) || read_digits(data, p, d, u32::MAX as u64).is_none()
        || read_digits(data, s, e, u16::MAX as u64).is_none() {
        return None;
    }
    Some(t + 1)
}

/// What is found where there is an object.
pub open spec fn found_view(found: Option<(EntryValue, usize)>) -> Option<Found> {
    match found {
        Some((value, end)) => Some(Found { value: value@, end: end as int }),
        None => None,
    }
}

fn as_other(end: Option<usize>) -> (r: Option<(EntryValue, usize)>)
    ensures
        found_view(r) == other(position(end)),
{
    match end {
        Some(end) => Some((EntryValue::Other, end)),
        None => None,
    }
}

fn find_atom(data: &Vec<u8>, p: usize, references: bool) -> (r: Option<(EntryValue, usize)>)
    requires
        p <= data@.len(),
    ensures
        found_view(r) == atom_at(data@, p as int, references),
        r matches Some((_, end)) ==> p < end <= data@.len(),
{
    proof {
        lemma_keywords();
        lemma_atom_end(data@, p as int, references);
    }
    if stands(data, p, "null") {
        return Some((EntryValue::Other, p + 4));
    }
    if stands(data, p, "true") {
        return Some((EntryValue::Boolean(true), p + 4));
    }
    if stands(data, p, "false") {
        return Some((EntryValue::Boolean(false), p + 5));
    }
    if references {
        let end = find_reference_end(data, p);
        if end.is_some() {
            return as_other(end);
        }
    }
    let end = find_real_end(data, p);
    if end.is_some() {
        return as_other(end);
    }
    if let Some(n) = read_integer(data, p) {
        let from: usize = find_after_sign(data, p);
        return Some((EntryValue::Integer(n), find_run_end(ByteClass::Digit, data, from)));
    }
    if has_byte(data, p, 0x2f) {
        let (name, end) = read_name(data, p + 1);
        Some((EntryValue::Name(name), end))
    } else if has_byte(data, p, 0x28) {
        as_other(find_string_end(data, p + 1))
    } else if has_byte(data, p, 0x3c) {
        let q: usize = find_run_end(ByteClass::Hex, data, p + 1);
        if has_byte(data, q, 0x3e) {
            Some((EntryValue::Other, q + 1))
        } else {
            None
        }
    } else {
        None
    }
}

fn find_opening(data: &Vec<u8>, p: usize) -> (r: Option<(Bracket, usize)>)
    requires
        p <= data@.len(),
    ensures
        match r {
            Some((bracket, q)) => opening(data@, p as int) == Some((bracket, q as int)) && p < q
                <= data@.len(),
            None => opening(data@, p as int) is None,
        },
{
    if has_byte(data, p, 0x5b) {
        Some((Bracket::Array, p + 1))
    } else if has_twice(data, p, 0x3c) {
        Some((Bracket::Dictionary, p + 2))
    } else {
        None
    }
}

fn find_closing(data: &Vec<u8>, p: usize, open: Bracket) -> (r: Option<usize>)
    requires
        p <= data@.len(),
    ensures
        position(r) == closing(data@, p as int, open),
        r matches Some(q) ==> p < q <= data@.len(),
{
    match open {
        Bracket::Array => if has_byte(data, p, 0x5d) {
            Some(p + 1)
        } else {
            None
        },
        Bracket::Dictionary => if has_twice(data, p, 0x3e) {
            Some(p + 2)
        } else {
            None
        },
    }
}

fn find_value_start(data: &Vec<u8>, p: usize, open: Bracket) -> (r: Option<usize>)
    requires
        p <= data@.len(),
    ensures
        position(r) == value_start(data@, p as int, open),
        r matches Some(v) ==> p <= v <= data@.len(),
{
    match open {
        Bracket::Array => Some(p),
        Bracket::Dictionary => if has_byte(data, p, 0x2f) {
            let (_, end) = read_name(data, p + 1);
            Some(find_space_end(data, end))
        } else {
            None
        },
    }
}

fn find_nested_end(data: &Vec<u8>, p: usize, first: Bracket) -> (r: Option<usize>)
    requires
        p <= data@.len(),
    ensures
        position(r) == nested_end(data@, p as int, seq![first]),
{
    let mut open: Vec<Bracket> = Vec::new();
    open.push(first);
    let mut q: usize = p;
    assert(open@ =~= seq![first]);
    while q < data.len()
        invariant
            q <= data@.len(),
            open@.len() > 0,
            nested_end(data@, p as int, seq![first]) == nested_end(data@, q as int, open@),
        decreases data@.len() - q,
    {
        let ghost stack = open@;
        let depth: usize = open.len();
        let innermost = open[depth - 1];
        match find_closing(data, q, innermost) {
            Some(e) => {
                if depth == 1 {
                    return Some(e);
                }
                open.pop();
                assert(open@ =~= stack.drop_last());
                q = find_space_end(data, e);
            },
            None => {
                let v: usize = match find_value_start(data, q, innermost) {
                    Some(v) => v,
                    None => {
                        return None;
                    },
                };
                match find_atom(data, v, true) {
                    Some((_, end)) => {
                        q = find_space_end(data, end);
                    },
                    None => match find_opening(data, v) {
                        Some((bracket, e)) => {
                            open.push(bracket);
                            q = find_space_end(data, e);
                        },
                        None => {
                            return None;
                        },
                    },
                }
            },
        }
    }
    None
}

fn find_object(data: &Vec<u8>, p: usize, references: bool) -> (r: Option<(EntryValue, usize)>)
    requires
        p <= data@.len(),
    ensures
        found_view(r) == object_at(data@, p as int, references),
        r matches Some((_, end)) ==> p < end <= data@.len(),
{
    proof {
        lemma_object_end(data@, p as int, references);
    }
    match find_atom(data, p, references) {
        Some(found) => Some(found),
        None => match find_opening(data, p) {
            Some((bracket, q)) => {
                let from: usize = find_space_end(data, q);
                as_other(find_nested_end(data, from, bracket))
            },
            None => None,
        },
    }
}

fn find_operands_end(data: &Vec<u8>, p: usize) -> (r: usize)
    requires
        p <= data@.len(),
    ensures
        r == operands_end(data@, p as int),
        p <= r <= data@.len(),
{
    let mut q: usize = p;
    loop
        invariant
            p <= q <= data@.len(),
            operands_end(data@, p as int) == operands_end(data@, q as int),
        decreases data@.len() - q,
    {
        match find_object(data, q, false) {
            Some((_, end)) => {
                q = find_run_end(ByteClass::Blank, data, end);
            },
            None => {
                return q;
            },
        }
    }
}

/// What entries hold.
pub open spec fn entry_views(list: Seq<(Vec<u8>, EntryValue)>) -> Seq<(Seq<u8>, EntryView)> {
    Seq::new(list.len(), |i: int| (list[i].0@, list[i].1@))
}

fn read_entries(data: &Vec<u8>, p: usize) -> (r: (Vec<(Vec<u8>, EntryValue)>, usize))
    requires
        p <= data@.len(),
    ensures
        entry_views(r.0@) == entries_at(data@, p as int, Seq::empty()).list,
        r.1 == entries_at(data@, p as int, Seq::empty()).end,
        p <= r.1 <= data@.len(),
{
    let mut list: Vec<(Vec<u8>, EntryValue)> = Vec::new();
    let mut q: usize = p;
    assert(entry_views(list@) =~= Seq::empty());
    loop
        invariant
            p <= q <= data@.len(),
            entries_at(data@, p as int, Seq::empty()) == entries_at(
                data@,
                q as int,
                entry_views(list@),
            ),
        decreases data@.len() - q,
    {
        if !has_byte(data, q, 0x2f) {
            return (list, q);
        }
        let (name, end) = read_name(data, q + 1);
        let v: usize = find_space_end(data, end);
        match find_object(data, v, true) {
            Some((value, e)) => {
                let ghost before = list@;
                let ghost one = (name@, value@);
                list.push((name, value));
                assert(entry_views(list@) =~= entry_views(before).push(one));
                q = find_space_end(data, e);
            },
            None => {
                return (list, q);
            },
        }
    }
}

/// The value that an optional reference points to.
pub open spec fn value_view(value: Option<&EntryValue>) -> Option<EntryView> {
    match value {
        Some(value) => Some(value@),
        None => None,
    }
}

fn find_last<'a>(list: &'a Vec<(Vec<u8>, EntryValue)>, key: &str) -> (r: Option<&'a EntryValue>)
    ensures
        value_view(r) == last_value(entry_views(list@), key@),
{
    let ghost views = entry_views(list@);
    let mut i: usize = list.len();
    assert(views.take(i as int) =~= views);
    while i > 0
        invariant
            i <= list@.len(),
            views == entry_views(list@),
            last_value(views, key@) == last_value(views.take(i as int), key@),
        decreases i,
    {
        assert(views.take(i as int).last() == views[i - 1]);
        assert(views.take(i as int).drop_last() =~= views.take(i - 1));
        i = i - 1;
        if spells(list[i].0.as_slice(), key) {
            return Some(&list[i].1);
        }
    }
    None
}

fn find_either<'a>(list: &'a Vec<(Vec<u8>, EntryValue)>, short: &str, long: &str) -> (r: Option<
    &'a EntryValue,
>)
    ensures
        value_view(r) == either_value(entry_views(list@), short@, long@),
{
    match find_last(list, short) {
        Some(value) => Some(value),
        None => find_last(list, long),
    }
}

fn find_components(list: &Vec<(Vec<u8>, EntryValue)>) -> (r: Components)
    ensures
        r == image_components(entry_views(list@)),
{
    if let Some(EntryValue::Boolean(true)) = find_either(list, "IM", "ImageMask") {
        return Components::Count(1);
    }
    match find_either(list, "CS", "ColorSpace") {
        Some(EntryValue::Name(name)) => {
            let n = name.as_slice();
            if spells(n, "DeviceGray") || spells(n, "Gray") {
                Components::Count(1)
            } else if spells(n, "DeviceRGB") || spells(n, "RGB") {
                Components::Count(3)
            } else if spells(n, "DeviceRGBA") || spells(n, "RGBA") || spells(n, "DeviceCMYK")
                || spells(n, "CMYK") {
                Components::Count(4)
            } else {
                Components::Unknown
            }
        },
        Some(_) => Components::Unknown,
        None => Components::Missing,
    }
}

fn count_bytes(width: usize, height: usize, bits: usize, components: usize) -> (r: DataSize)
    ensures
        r == counted(width, height, bits, components),
{
    let pixel: usize = match components.checked_mul(bits) {
        Some(n) => n,
        None => {
            return DataSize::Unreadable;
        },
    };
    let row: usize = match width.checked_mul(pixel) {
        Some(n) => n,
        None => {
            return DataSize::Unreadable;
        },
    };
    let row_bytes: usize = row / 8 + if row % 8 > 0 {
        1
    } else {
        0
    };
    assert(row_bytes == (row + 7) / 8);
    match height.checked_mul(row_bytes) {
        Some(n) => DataSize::Bytes(n),
        None => DataSize::Unreadable,
    }
}

/// The size of the data of an inline image, by the entries of its dictionary.
fn find_data_size(list: &Vec<(Vec<u8>, EntryValue)>) -> (r: DataSize)
    ensures
        r == data_size(entry_views(list@)),
{
    match (
        find_either(list, "W", "Width"),
        find_either(list, "H", "Height"),
        find_either(list, "BPC", "BitsPerComponent"),
    ) {
        (
            Some(EntryValue::Integer(w)),
            Some(EntryValue::Integer(h)),
            Some(EntryValue::Integer(b)),
        ) => match find_components(list) {
            Components::Count(n) => {
                let size = count_bytes(
                    #[verifier::truncate]
                    (*w as usize),
                    #[verifier::truncate]
                    (*h as usize),
                    #[verifier::truncate]
                    (*b as usize),
                    n,
                );
                match size {
                    DataSize::Bytes(_) => if find_either(list, "F", "Filter").is_some() {
                        DataSize::Unsupported
                    } else {
                        size
                    },
                    _ => size,
                }
            },
            Components::Unknown => DataSize::Unsupported,
            Components::Missing => DataSize::Unreadable,
        },
        _ => DataSize::Unsupported,
    }
}

/// Whether the inline images of a content stream can be parsed.
pub fn check_images(data: &Vec<u8>) -> (r: bool)
    ensures
        r == images_readable(data@),
{
    let len: usize = data.len();
    let mut p: usize = find_run_end(ByteClass::Blank, data, 0);
    loop
        invariant
            len == data@.len(),
            p <= len,
            images_readable(data@) == readable_from(data@, p as int),
        decreases len - p,
    {
        proof {
            lemma_keywords();
        }
        let c: usize = find_comments_end(data, p);
        if stands(data, c, "BI") {
            let from: usize = find_run_end(ByteClass::Blank, data, c + 2);
            let (list, end) = read_entries(data, from);
            if !stands(data, end, "ID") {
                return true;
            }
            let d: usize = find_run_end(ByteClass::Blank, data, end + 2);
            match find_data_size(&list) {
                DataSize::Bytes(n) => {
                    if n > len - d {
                        return true;
                    }
                    let e: usize = find_run_end(ByteClass::Blank, data, d + n);
                    if !stands(data, e, "EI") {
                        return true;
                    }
                    p = find_run_end(ByteClass::Blank, data, e + 2);
                },
                DataSize::Unsupported => {
                    return true;
                },
                DataSize::Unreadable => {
                    return false;
                },
            }
        } else {
            let o: usize = find_operands_end(data, c);
            let e: usize = find_run_end(ByteClass::Operator, data, o);
            if e <= o {
                return true;
            }
            p = find_run_end(ByteClass::Blank, data, e);
        }
    }
}

} // verus!
