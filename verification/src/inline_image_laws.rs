//! Laws of inline images: how much data they have, and which content can be parsed.

use crate::ascii_filters::hex_value;
use crate::comment_laws::{is_literal_string, is_rest_of_string};
use crate::inline_images::{
    comments_end, data_size, digits_value, entries_at, images_readable, in_class, integer_at,
    lemma_comments_end, lemma_entries_end, lemma_keywords, lemma_operands_end, lemma_run_end,
    name_end, name_text, operands_end, readable_from, run_end, stands_at, string_end, ByteClass,
    DataSize, EntryView,
};
use vstd::prelude::*;
use vstd::utf8::{encode_utf8, encode_utf8_decode_utf8};

verus! {

/// Whether a value is that of the last entry with a key.
pub open spec fn is_last_value(
    list: Seq<(Seq<u8>, EntryView)>,
    key: Seq<char>,
    value: EntryView,
) -> bool {
    exists|k: int|
        0 <= k < list.len() && #[trigger] list[k] == (encode_utf8(key), value) && forall|i: int|
            k < i < list.len() ==> (#[trigger] list[i]).0 != encode_utf8(key)
}

pub open spec fn has_no_entry(list: Seq<(Seq<u8>, EntryView)>, key: Seq<char>) -> bool {
    forall|i: int| 0 <= i < list.len() ==> (#[trigger] list[i]).0 != encode_utf8(key)
}

/// Whether a value stands under the short key, or under the long one where the short one is
/// missing.
pub open spec fn has_value(
    list: Seq<(Seq<u8>, EntryView)>,
    short: Seq<char>,
    long: Seq<char>,
    value: EntryView,
) -> bool {
    is_last_value(list, short, value) || (has_no_entry(list, short) && is_last_value(
        list,
        long,
        value,
    ))
}

pub open spec fn has_neither(
    list: Seq<(Seq<u8>, EntryView)>,
    short: Seq<char>,
    long: Seq<char>,
) -> bool {
    has_no_entry(list, short) && has_no_entry(list, long)
}

proof fn lemma_last_value(list: Seq<(Seq<u8>, EntryView)>, key: Seq<char>, value: EntryView)
    ensures
        is_last_value(list, key, value) ==> crate::inline_images::last_value(list, key) == Some(
            value,
        ),
        has_no_entry(list, key) ==> crate::inline_images::last_value(list, key) is None,
    decreases list.len(),
{
    let k = encode_utf8(key);
    if list.len() > 0 {
        let front = list.drop_last();
        lemma_last_value(front, key, value);
        let n = list.len() - 1;
        assert(list[n] == list.last());
        if has_no_entry(list, key) {
            assert forall|i: int| 0 <= i < front.len() implies (#[trigger] front[i]).0 != k by {
                assert(front[i] == list[i]);
            }
        }
        if is_last_value(list, key, value) {
            let m = choose|m: int|
                0 <= m < list.len() && #[trigger] list[m] == (k, value) && forall|i: int|
                    m < i < list.len() ==> (#[trigger] list[i]).0 != k;
            if m < n {
                assert(list[n].0 != k);
                assert(front[m] == (k, value));
                assert forall|i: int| m < i < front.len() implies (#[trigger] front[i]).0 != k by {
                    assert(front[i] == list[i]);
                }
            }
        }
    }
}

proof fn lemma_either(
    list: Seq<(Seq<u8>, EntryView)>,
    short: Seq<char>,
    long: Seq<char>,
    value: EntryView,
)
    ensures
        has_value(list, short, long, value) ==> crate::inline_images::either_value(
            list,
            short,
            long,
        ) == Some(value),
        has_neither(list, short, long) ==> crate::inline_images::either_value(list, short, long)
            is None,
{
    lemma_last_value(list, short, value);
    lemma_last_value(list, long, value);
}

/// Whether the pixels of an image have so many components: one in a mask and in gray, three
/// in RGB, four in CMYK and in RGB with an alpha channel. A mask needs no color space.
pub open spec fn has_components(list: Seq<(Seq<u8>, EntryView)>, n: usize) -> bool {
    let masked = has_value(list, "IM"@, "ImageMask"@, EntryView::Boolean(true));
    ||| masked && n == 1
    ||| has_neither(list, "IM"@, "ImageMask"@) && exists|name: Seq<u8>|
        #[trigger] has_value(list, "CS"@, "ColorSpace"@, EntryView::Name(name))
            && is_count_of_color(name, n)
}

pub open spec fn is_count_of_color(name: Seq<u8>, n: usize) -> bool {
    ||| n == 1 && (name == encode_utf8("DeviceGray"@) || name == encode_utf8("Gray"@))
    ||| n == 3 && (name == encode_utf8("DeviceRGB"@) || name == encode_utf8("RGB"@))
    ||| n == 4 && (name == encode_utf8("DeviceCMYK"@) || name == encode_utf8("CMYK"@))
    ||| n == 4 && (name == encode_utf8("DeviceRGBA"@) || name == encode_utf8("RGBA"@))
}

proof fn lemma_color_names_differ()
    ensures
        ({
            let g = encode_utf8("DeviceGray"@);
            let h = encode_utf8("Gray"@);
            let r = encode_utf8("DeviceRGB"@);
            let s = encode_utf8("RGB"@);
            let c = encode_utf8("DeviceCMYK"@);
            let d = encode_utf8("CMYK"@);
            let a = encode_utf8("DeviceRGBA"@);
            let b = encode_utf8("RGBA"@);
            &&& r != g && r != h && s != g && s != h
            &&& c != g && c != h && c != r && c != s
            &&& d != g && d != h && d != r && d != s
            &&& a != g && a != h && a != r && a != s
            &&& b != g && b != h && b != r && b != s
        }),
{
    reveal_strlit("DeviceGray");
    reveal_strlit("Gray");
    reveal_strlit("DeviceRGB");
    reveal_strlit("RGB");
    reveal_strlit("DeviceCMYK");
    reveal_strlit("CMYK");
    reveal_strlit("DeviceRGBA");
    reveal_strlit("RGBA");
    encode_utf8_decode_utf8("DeviceGray"@);
    encode_utf8_decode_utf8("Gray"@);
    encode_utf8_decode_utf8("DeviceRGB"@);
    encode_utf8_decode_utf8("RGB"@);
    encode_utf8_decode_utf8("DeviceCMYK"@);
    encode_utf8_decode_utf8("CMYK"@);
    encode_utf8_decode_utf8("DeviceRGBA"@);
    encode_utf8_decode_utf8("RGBA"@);
    assert("DeviceGray"@.len() == 10 && "DeviceGray"@[6] == 'G');
    assert("Gray"@.len() == 4 && "Gray"@[0] == 'G');
    assert("DeviceRGB"@.len() == 9);
    assert("RGB"@.len() == 3);
    assert("DeviceCMYK"@.len() == 10 && "DeviceCMYK"@[6] == 'C');
    assert("CMYK"@.len() == 4 && "CMYK"@[0] == 'C');
    assert("DeviceRGBA"@.len() == 10 && "DeviceRGBA"@[6] == 'R');
    assert("RGBA"@.len() == 4 && "RGBA"@[0] == 'R');
}

proof fn lemma_components(list: Seq<(Seq<u8>, EntryView)>, n: usize)
    requires
        has_components(list, n),
    ensures
        crate::inline_images::image_components(list) == crate::inline_images::Components::Count(n),
{
    lemma_either(list, "IM"@, "ImageMask"@, EntryView::Boolean(true));
    lemma_color_names_differ();
    if !has_value(list, "IM"@, "ImageMask"@, EntryView::Boolean(true)) {
        let name = choose|name: Seq<u8>|
            #[trigger] has_value(list, "CS"@, "ColorSpace"@, EntryView::Name(name))
                && is_count_of_color(name, n);
        lemma_either(list, "CS"@, "ColorSpace"@, EntryView::Name(name));
    }
}

/// The data of an inline image without filters are its rows, each filled up to full bytes,
/// where these can be counted; one that has a filter is not supported. The entries go by
/// short names or long ones.
pub proof fn law_data_size(
    list: Seq<(Seq<u8>, EntryView)>,
    width: i64,
    height: i64,
    bits: i64,
    n: usize,
    row: int,
    filter: EntryView,
)
    requires
        has_value(list, "W"@, "Width"@, EntryView::Integer(width)),
        has_value(list, "H"@, "Height"@, EntryView::Integer(height)),
        has_value(list, "BPC"@, "BitsPerComponent"@, EntryView::Integer(bits)),
        has_components(list, n),
        0 <= width <= 0x7fff_ffff,
        0 <= height <= 0x7fff_ffff,
        0 <= bits <= 32,
        8 * row >= width * (n * bits),
        8 * row < width * (n * bits) + 8,
        width * (n * bits) <= usize::MAX,
    ensures
        ({
            let size = data_size(list);
            &&& has_neither(list, "F"@, "Filter"@) && height * row <= usize::MAX ==> (size
                matches DataSize::Bytes(k) && k == height * row)
            &&& height * row > usize::MAX ==> size is Unreadable
            &&& has_value(list, "F"@, "Filter"@, filter) && height * row <= usize::MAX ==> size
                is Unsupported
        }),
{
    lemma_either(list, "W"@, "Width"@, EntryView::Integer(width));
    lemma_either(list, "H"@, "Height"@, EntryView::Integer(height));
    lemma_either(list, "BPC"@, "BitsPerComponent"@, EntryView::Integer(bits));
    lemma_either(list, "F"@, "Filter"@, filter);
    lemma_components(list, n);
    assert(width as usize == width && height as usize == height && bits as usize == bits);
    let pixel = n * bits;
    let all = width * pixel;
    assert(n <= 4);
    assert(0 <= pixel <= 128) by (nonlinear_arith)
        requires
            pixel == n * bits,
            0 <= n <= 4,
            0 <= bits <= 32,
    ;
    assert((all + 7) / 8 == row);
}

/// Without a color space, and without being a mask, an image cannot be read; with a color
/// space that has no known name it is not supported; nor is it without its width, its
/// height or its bits.
pub proof fn law_images_without(
    list: Seq<(Seq<u8>, EntryView)>,
    width: i64,
    height: i64,
    bits: i64,
    name: Seq<u8>,
)
    ensures
        has_neither(list, "W"@, "Width"@) ==> data_size(list) is Unsupported,
        has_neither(list, "H"@, "Height"@) ==> data_size(list) is Unsupported,
        has_neither(list, "BPC"@, "BitsPerComponent"@) ==> data_size(list) is Unsupported,
        has_value(list, "W"@, "Width"@, EntryView::Integer(width)) && has_value(
            list,
            "H"@,
            "Height"@,
            EntryView::Integer(height),
        ) && has_value(list, "BPC"@, "BitsPerComponent"@, EntryView::Integer(bits)) && has_neither(
            list,
            "IM"@,
            "ImageMask"@,
        ) ==> {
            &&& has_neither(list, "CS"@, "ColorSpace"@) ==> data_size(list) is Unreadable
            &&& has_value(list, "CS"@, "ColorSpace"@, EntryView::Name(name)) && (forall|n: usize|
                !#[trigger] is_count_of_color(name, n)) ==> data_size(list) is Unsupported
        },
{
    lemma_either(list, "W"@, "Width"@, EntryView::Integer(width));
    lemma_either(list, "H"@, "Height"@, EntryView::Integer(height));
    lemma_either(list, "BPC"@, "BitsPerComponent"@, EntryView::Integer(bits));
    lemma_either(list, "IM"@, "ImageMask"@, EntryView::Boolean(true));
    lemma_either(list, "CS"@, "ColorSpace"@, EntryView::Name(name));
    assert(is_count_of_color(name, 1) || is_count_of_color(name, 3) || is_count_of_color(name, 4)
        || !(name == encode_utf8("DeviceGray"@) || name == encode_utf8("Gray"@) || name
        == encode_utf8("DeviceRGB"@) || name == encode_utf8("RGB"@) || name == encode_utf8(
        "DeviceCMYK"@,
    ) || name == encode_utf8("CMYK"@) || name == encode_utf8("DeviceRGBA"@) || name == encode_utf8(
        "RGBA"@,
    )));
}

/// Whether an image stands at a place whose data must not be asked for.
pub open spec fn is_unreadable_at(data: Seq<u8>, c: int) -> bool {
    let found = entries_at(data, run_end(ByteClass::Blank, data, c + 2), Seq::empty());
    &&& 0 <= c <= data.len()
    &&& stands_at(data, c, "BI"@)
    &&& stands_at(data, found.end, "ID"@)
    &&& data_size(found.list) is Unreadable
}

proof fn lemma_unreadable(data: Seq<u8>, p: int)
    requires
        0 <= p <= data.len(),
        !readable_from(data, p),
    ensures
        exists|c: int| #[trigger] is_unreadable_at(data, c),
    decreases data.len() - p,
{
    lemma_keywords();
    lemma_comments_end(data, p);
    let c = comments_end(data, p);
    if stands_at(data, c, "BI"@) {
        let q = run_end(ByteClass::Blank, data, c + 2);
        lemma_run_end(ByteClass::Blank, data, c + 2);
        let found = entries_at(data, q, Seq::empty());
        lemma_entries_end(data, q, Seq::empty());
        if data_size(found.list) is Unreadable {
            assert(is_unreadable_at(data, c));
        } else if let DataSize::Bytes(n) = data_size(found.list) {
            let d = run_end(ByteClass::Blank, data, found.end + 2);
            lemma_run_end(ByteClass::Blank, data, found.end + 2);
            let e = run_end(ByteClass::Blank, data, d + n);
            lemma_run_end(ByteClass::Blank, data, d + n);
            lemma_run_end(ByteClass::Blank, data, e + 2);
            lemma_unreadable(data, run_end(ByteClass::Blank, data, e + 2));
        }
    } else {
        let o = operands_end(data, c);
        lemma_operands_end(data, c);
        let e = run_end(ByteClass::Operator, data, o);
        lemma_run_end(ByteClass::Operator, data, o);
        lemma_run_end(ByteClass::Blank, data, e);
        lemma_unreadable(data, run_end(ByteClass::Blank, data, e));
    }
}

/// Content is kept from the parser only for an image in it whose data must not be asked for.
pub proof fn law_kept_from_the_parser(data: Seq<u8>)
    requires
        !images_readable(data),
    ensures
        exists|c: int| #[trigger] is_unreadable_at(data, c),
{
    lemma_run_end(ByteClass::Blank, data, 0);
    lemma_unreadable(data, run_end(ByteClass::Blank, data, 0));
}

/// Content that starts with such an image is kept from the parser.
pub proof fn law_unreadable_at_once(data: Seq<u8>)
    requires
        is_unreadable_at(data, 0),
    ensures
        !images_readable(data),
{
    lemma_keywords();
    reveal_strlit("BI");
    vstd::utf8::is_ascii_chars_encode_utf8("BI"@);
    assert("BI"@.len() == 2 && "BI"@[0] == 'B');
    assert(data.subrange(0, encode_utf8("BI"@).len() as int)[0] == data[0]);
    assert(data[0] == 0x42);
    assert(run_end(ByteClass::Blank, data, 0) == 0);
    assert(comments_end(data, 0) == 0);
}

/// What the classes of bytes hold. Blanks are tab, line feed, carriage return and space; null
/// and form feed are white besides. Names are made of what is neither white nor one of
/// `( ) < > [ ] { } / % #`, operators of letters, the asterisk and both quotes.
pub proof fn law_classes(b: u8)
    ensures
        in_class(ByteClass::Blank, b) <==> b == 9 || b == 10 || b == 13 || b == 32,
        in_class(ByteClass::White, b) <==> b == 0 || b == 9 || b == 10 || b == 12 || b == 13 || b
            == 32,
        in_class(ByteClass::Digit, b) <==> 48 <= b <= 57,
        in_class(ByteClass::Name, b) <==> b != 0 && b != 9 && b != 10 && b != 12 && b != 13 && b
            != 32 && b != 40 && b != 41 && b != 60 && b != 62 && b != 91 && b != 93 && b != 123
            && b != 125 && b != 47 && b != 37 && b != 35,
        in_class(ByteClass::Operator, b) <==> 65 <= b <= 90 || 97 <= b <= 122 || b == 42 || b == 39
            || b == 34,
        in_class(ByteClass::Hex, b) <==> b == 0 || b == 9 || b == 10 || b == 12 || b == 13 || b
            == 32 || 48 <= b <= 57 || 65 <= b <= 70 || 97 <= b <= 102,
        in_class(ByteClass::Line, b) <==> b != 10 && b != 13,
{
}

/// A run ends at the first byte that is not of its class, or with the data.
pub proof fn law_runs(class: ByteClass, data: Seq<u8>, p: int)
    requires
        0 <= p <= data.len(),
    ensures
        ({
            let q = run_end(class, data, p);
            &&& p <= q <= data.len()
            &&& forall|i: int| p <= i < q ==> in_class(class, #[trigger] data[i])
            &&& q < data.len() ==> !in_class(class, data[q])
        }),
    decreases data.len() - p,
{
    if p < data.len() && in_class(class, data[p]) {
        law_runs(class, data, p + 1);
    }
}

proof fn lemma_string_found(
    before: Seq<u8>,
    s: Seq<u8>,
    after: Seq<u8>,
    open: nat,
)
    requires
        is_rest_of_string(s, open),
        1 <= open,
        open + s.len() <= 102,
    ensures
        string_end(before + s + after, before.len() as int, open - 1) == Some(
            (before.len() + s.len()) as int,
        ),
    decreases s.len(),
{
    let data = before + s + after;
    let p = before.len() as int;
    assert(data[p] == s[0]);
    if s[0] == 0x5c {
        let more = before + s.take(2);
        assert(more + s.skip(2) + after =~= data);
        lemma_string_found(more, s.skip(2), after, open);
    } else {
        let more = before + s.take(1);
        assert(more + s.skip(1) + after =~= data);
        if s[0] == 0x28 {
            lemma_string_found(more, s.skip(1), after, open + 1);
        } else if s[0] == 0x29 {
            if open > 1 {
                lemma_string_found(more, s.skip(1), after, (open - 1) as nat);
            }
        } else {
            lemma_string_found(more, s.skip(1), after, open);
        }
    }
}

/// A literal string of no more than a hundred bytes is found whole, wherever it stands and
/// whatever follows it: nested and escaped parentheses do not end it.
pub proof fn law_strings_found(before: Seq<u8>, s: Seq<u8>, after: Seq<u8>)
    requires
        is_literal_string(s),
        s.len() <= 100,
    ensures
        string_end(before + s + after, (before.len() + 1) as int, 0) == Some(
            (before.len() + s.len()) as int,
        ),
{
    let more = before + s.take(1);
    assert(more + s.skip(1) + after =~= before + s + after);
    lemma_string_found(more, s.skip(1), after, 1);
}

/// A string whose parentheses nest deeper than a hundred levels has no end.
pub proof fn law_deep_strings(data: Seq<u8>, p: int, depth: int)
    requires
        0 <= p < data.len(),
        data[p] == 0x28,
    ensures
        depth >= 100 ==> string_end(data, p, depth) is None,
        depth < 100 ==> string_end(data, p, depth) == string_end(data, p + 1, depth + 1),
{
}

/// The number that the digits of a text stand for.
pub open spec fn number_of(digits: Seq<u8>) -> int
    decreases digits.len(),
{
    if digits.len() == 0 {
        0
    } else {
        number_of(digits.drop_last()) * 10 + (digits.last() - 48)
    }
}

proof fn lemma_number_read(data: Seq<u8>, p: int, q: int)
    requires
        0 <= p <= q <= data.len(),
    ensures
        digits_value(data, p, q) == number_of(data.subrange(p, q)),
    decreases q - p,
{
    if p < q {
        lemma_number_read(data, p, q - 1);
        assert(data.subrange(p, q).drop_last() =~= data.subrange(p, q - 1));
        assert(data.subrange(p, q).last() == data[q - 1]);
    }
}

/// Digits up to the first byte that is none are an integer, negative behind a minus sign,
/// where it fits in 64 bits.
pub proof fn law_integers_read(data: Seq<u8>, p: int, q: int)
    requires
        0 <= p < q <= data.len(),
        forall|i: int| p <= i < q ==> 48 <= #[trigger] data[i] <= 57,
        q < data.len() ==> !(48 <= data[q] <= 57),
        number_of(data.subrange(p, q)) <= 0x7fff_ffff_ffff_ffff,
    ensures
        integer_at(data, p) matches Some(n) && n == number_of(data.subrange(p, q)),
        p > 0 && data[p - 1] == 0x2b ==> (integer_at(data, p - 1) matches Some(n) && n == number_of(
            data.subrange(p, q),
        )),
        p > 0 && data[p - 1] == 0x2d ==> (integer_at(data, p - 1) matches Some(n) && n
            == -number_of(data.subrange(p, q))),
{
    lemma_number_read(data, p, q);
    lemma_digit_run(data, p, q);
    assert(48 <= data[p] <= 57);
    lemma_not_negative(data.subrange(p, q));
}

proof fn lemma_not_negative(digits: Seq<u8>)
    requires
        forall|i: int| 0 <= i < digits.len() ==> 48 <= #[trigger] digits[i] <= 57,
    ensures
        number_of(digits) >= 0,
    decreases digits.len(),
{
    if digits.len() > 0 {
        let front = digits.drop_last();
        assert forall|i: int| 0 <= i < front.len() implies 48 <= #[trigger] front[i] <= 57 by {
            assert(front[i] == digits[i]);
        }
        lemma_not_negative(front);
        assert(digits.last() == digits[digits.len() - 1]);
    }
}

proof fn lemma_digit_run(data: Seq<u8>, p: int, q: int)
    requires
        0 <= p <= q <= data.len(),
        forall|i: int| p <= i < q ==> 48 <= #[trigger] data[i] <= 57,
        q < data.len() ==> !(48 <= data[q] <= 57),
    ensures
        run_end(ByteClass::Digit, data, p) == q,
    decreases q - p,
{
    if p < q {
        assert(48 <= data[p] <= 57);
        lemma_digit_run(data, p + 1, q);
    }
}

/// A name goes on with each byte of its class, and with the byte that two hexadecimal digits
/// behind a number sign stand for; it ends with anything else.
pub proof fn law_names_read(data: Seq<u8>, p: int)
    requires
        0 <= p <= data.len(),
    ensures
        ({
            let plain = p < data.len() && in_class(ByteClass::Name, data[p]);
            let coded = p + 2 < data.len() && data[p] == 35 && hex_value(data[p + 1]) is Some
                && hex_value(data[p + 2]) is Some;
            &&& plain ==> name_text(data, p) == seq![data[p]] + name_text(data, p + 1) && name_end(
                data,
                p,
            ) == name_end(data, p + 1)
            &&& coded ==> name_end(data, p) == name_end(data, p + 3) && name_text(data, p) == seq![
                (hex_value(data[p + 1])->0 * 16 + hex_value(data[p + 2])->0) as u8,
            ] + name_text(data, p + 3)
            &&& !plain && !coded ==> name_text(data, p).len() == 0 && name_end(data, p) == p
        }),
{
}

} // verus!
