//! Laws of decoded streams and of the content of a page.

use crate::ascii_filter_laws::{
    a85_digits, are_a85_groups, four_byte_value, is_a85_text, spaceless,
};
use crate::ascii_filters::{four_zeros, A85_ZEROS};
use crate::bytes::is_space;
use crate::document::{object_at, page_content_ids};
use crate::object::{entry, integer_entry, ObjectId, ObjectView};
use crate::streams::{
    a85_sums_fit, at_least_or, chain_decoded, decompressed, filter_decoded, filter_fits, joined_streams,
    one_decoded, page_content, stream_filters, stream_params, unpredicted,
    DecodeParams,
};
use vstd::prelude::*;
use vstd::utf8::encode_utf8;

verus! {

/// Whether a filter is one of those that are decoded: there are three.
pub open spec fn is_one_of_three(filter: Seq<u8>) -> bool {
    ||| filter == encode_utf8("FlateDecode"@)
    ||| filter == encode_utf8("LZWDecode"@)
    ||| filter == encode_utf8("ASCII85Decode"@)
}

/// Whether parameters are those that a stream gives its filters: the integers under their
/// names, and nothing where it has no dictionary of them.
pub open spec fn are_params_of(p: DecodeParams, dict: Seq<(Seq<u8>, ObjectView)>) -> bool {
    match entry(dict, "DecodeParms"@) {
        Some(ObjectView::Dictionary(d)) => {
            &&& p.predictor == integer_entry(d, "Predictor"@)
            &&& p.columns == integer_entry(d, "Columns"@)
            &&& p.colors == integer_entry(d, "Colors"@)
            &&& p.bits == integer_entry(d, "BitsPerComponent"@)
            &&& p.early_change == integer_entry(d, "EarlyChange"@)
        },
        _ => p.predictor is None && p.columns is None && p.colors is None && p.bits is None
            && p.early_change is None,
    }
}

/// Whether a stream has one filter: its only one, or alone in an array.
pub open spec fn has_one_filter(dict: Seq<(Seq<u8>, ObjectView)>, filter: Seq<u8>) -> bool {
    ||| entry(dict, "Filter"@) == Some(ObjectView::Name(filter))
    ||| entry(dict, "Filter"@) == Some(ObjectView::Array(seq![ObjectView::Name(filter)]))
}

/// A stream with one filter is what that filter makes of its content, with its own
/// parameters; `unpredicted` leaves the predictor out and keeps the others. A filter that
/// is not among the three decodes nothing.
pub proof fn law_one_filter(
    dict: Seq<(Seq<u8>, ObjectView)>,
    content: Seq<u8>,
    filter: Seq<u8>,
    p: DecodeParams,
)
    requires
        has_one_filter(dict, filter),
        are_params_of(p, dict),
    ensures
        ({
            let q = DecodeParams { predictor: None, ..p };
            &&& !is_one_of_three(filter) ==> decompressed(dict, content) is None && unpredicted(
                dict,
                content,
            ) is None
            &&& is_one_of_three(filter) && filter_fits(filter, p, content) ==> decompressed(
                dict,
                content,
            ) == filter_decoded(filter, p, content)
            &&& is_one_of_three(filter) && filter_fits(filter, q, content) ==> unpredicted(
                dict,
                content,
            ) == filter_decoded(filter, q, content)
        }),
{
    let q = DecodeParams { predictor: None, ..p };
    assert(stream_params(dict) == p);
    let one = seq![ObjectView::Name(filter)];
    let names = Seq::new(one.len(), |i: int| one[i]->Name_0);
    assert(names =~= seq![filter]);
    assert(stream_filters(dict) == Some(seq![filter]));
    lemma_chain_of_one(filter, p, content);
    lemma_chain_of_one(filter, q, content);
}

proof fn lemma_chain_of_one(filter: Seq<u8>, p: DecodeParams, data: Seq<u8>)
    ensures
        chain_decoded(seq![filter], p, data) == one_decoded(filter, p, data),
{
    let chain = seq![filter];
    assert(chain[0] == filter);
    reveal_with_fuel(chain_decoded, 2);
    assert(chain.drop_first().len() == 0);
}

/// Whether the filters of a stream are the names of an array.
pub open spec fn has_filters(dict: Seq<(Seq<u8>, ObjectView)>, names: Seq<Seq<u8>>) -> bool {
    entry(dict, "Filter"@) == Some(
        ObjectView::Array(Seq::new(names.len(), |i: int| ObjectView::Name(names[i]))),
    )
}

/// Filters are applied one after the other, from the first: a stream with more than one is
/// what the others make of what the first leaves, with the same parameters.
pub proof fn law_filters_one_by_one(
    both: Seq<(Seq<u8>, ObjectView)>,
    first: Seq<(Seq<u8>, ObjectView)>,
    others: Seq<(Seq<u8>, ObjectView)>,
    filter: Seq<u8>,
    names: Seq<Seq<u8>>,
    content: Seq<u8>,
)
    requires
        names.len() > 0,
        has_filters(both, seq![filter] + names),
        has_filters(first, seq![filter]),
        has_filters(others, names),
        entry(first, "DecodeParms"@) == entry(both, "DecodeParms"@),
        entry(others, "DecodeParms"@) == entry(both, "DecodeParms"@),
    ensures
        decompressed(both, content) == (match decompressed(first, content) {
            Some(left) => decompressed(others, left),
            None => None,
        }),
        unpredicted(both, content) == (match unpredicted(first, content) {
            Some(left) => unpredicted(others, left),
            None => None,
        }),
{
    let p = stream_params(both);
    let q = DecodeParams { predictor: None, ..p };
    let all = seq![filter] + names;
    lemma_filters(both, all);
    lemma_filters(first, seq![filter]);
    lemma_filters(others, names);
    assert(all[0] == filter);
    assert(all.drop_first() =~= names);
    lemma_chain_of_one(filter, p, content);
    lemma_chain_of_one(filter, q, content);
}

proof fn lemma_filters(dict: Seq<(Seq<u8>, ObjectView)>, names: Seq<Seq<u8>>)
    requires
        has_filters(dict, names),
    ensures
        stream_filters(dict) == Some(names),
{
    let objects = Seq::new(names.len(), |i: int| ObjectView::Name(names[i]));
    assert(Seq::new(objects.len(), |i: int| objects[i]->Name_0) =~= names);
}

/// A stream without filters cannot be decoded, nor one whose array of filters holds
/// anything but names; with an empty array it is empty.
pub proof fn law_without_filters(dict: Seq<(Seq<u8>, ObjectView)>, content: Seq<u8>)
    ensures
        entry(dict, "Filter"@) is None ==> decompressed(dict, content) is None && unpredicted(
            dict,
            content,
        ) is None,
        (entry(dict, "Filter"@) matches Some(ObjectView::Array(a)) && a.len() == 0)
            ==> decompressed(dict, content) == Some(Seq::<u8>::empty()),
        (entry(dict, "Filter"@) matches Some(ObjectView::Array(a)) && exists|i: int|
            0 <= i < a.len() && !((#[trigger] a[i]) is Name)) ==> decompressed(dict, content)
            is None && unpredicted(dict, content) is None,
{
}

/// The content of a page is what its content streams hold, one after the other: decoded
/// where they can be, as they are stored where not. What is no stream adds nothing.
pub proof fn law_page_content(
    doc: lopdf::Document,
    page: ObjectId,
    ids: Seq<ObjectId>,
    id: ObjectId,
)
    ensures
        page_content(doc, page) == joined_streams(doc, page_content_ids(doc, page)),
        joined_streams(doc, Seq::empty()) == Seq::<u8>::empty(),
        object_at(doc, id) matches Some(ObjectView::Stream(dict, content)) ==> joined_streams(
            doc,
            ids.push(id),
        ) == joined_streams(doc, ids) + (match decompressed(dict, content) {
            Some(data) => data,
            None => content,
        }),
        !(object_at(doc, id) matches Some(ObjectView::Stream(dict, content))) ==> joined_streams(
            doc,
            ids.push(id),
        ) == joined_streams(doc, ids),
{
    assert(ids.push(id).drop_last() =~= ids);
}

/// Filters with parameters are applied unless a predictor of 10 to 15 has rows too long to
/// be counted: without such a predictor, and with rows of an ordinary length, nothing
/// stands against it.
pub proof fn law_rows_that_fit(filter: Seq<u8>, p: DecodeParams, data: Seq<u8>)
    requires
        filter != encode_utf8("ASCII85Decode"@),
    ensures
        p.predictor is None ==> filter_fits(filter, p, data),
        p.predictor matches Some(n) ==> (n < 10 || n > 15 ==> filter_fits(filter, p, data)),
        (p.colors matches Some(c) ==> c <= 32) && (p.bits matches Some(b) ==> b <= 32) && (
        p.columns matches Some(n) ==> n <= 0x100_0000) ==> filter_fits(filter, p, data),
{
    let colors = at_least_or(p.colors, 1);
    let bits = at_least_or(p.bits, 8);
    let columns = at_least_or(p.columns, 1);
    if (p.colors matches Some(c) ==> c <= 32) && (p.bits matches Some(b) ==> b <= 32) && (
    p.columns matches Some(n) ==> n <= 0x100_0000) {
        assert(colors * bits <= 1024) by (nonlinear_arith)
            requires
                1 <= colors <= 32,
                8 <= bits <= 32,
        ;
        let pixel = colors * bits / 8;
        assert(colors * bits >= 0) by (nonlinear_arith)
            requires
                1 <= colors,
                8 <= bits,
        ;
        assert(0 <= pixel <= 128);
        assert(pixel * columns <= 0x8000_0000) by (nonlinear_arith)
            requires
                0 <= pixel <= 128,
                1 <= columns <= 0x100_0000,
        ;
    }
}

proof fn lemma_sums_of_spaceless(text: Seq<u8>, value: int, count: int)
    ensures
        a85_sums_fit(text, value, count) == a85_sums_fit(spaceless(text), value, count),
    decreases text.len(),
{
    if text.len() > 0 {
        let rest = text.drop_first();
        if is_space(text[0]) {
            lemma_sums_of_spaceless(rest, value, count);
        } else {
            let s = spaceless(text);
            assert(s[0] == text[0]);
            assert(s.drop_first() =~= spaceless(rest));
            if text[0] == 0x7a {
                lemma_sums_of_spaceless(rest, value, count);
            } else if 0x21 <= text[0] <= 0x75 {
                let sum = 85 * value + (text[0] - 0x21);
                lemma_sums_of_spaceless(rest, sum, count + 1);
                lemma_sums_of_spaceless(rest, 0, 0);
            }
        }
    }
}

proof fn lemma_sums_of_groups(s: Seq<u8>, bytes: Seq<u8>)
    requires
        are_a85_groups(s, bytes),
    ensures
        a85_sums_fit(s, 0, 0),
    decreases bytes.len(),
{
    if bytes.len() == 0 {
    } else if bytes.len() < 4 {
        let v = four_byte_value(bytes);
        let n = bytes.len() as int + 1;
        lemma_digits(v);
        assert(0 <= v <= 0xffff_ff00);
        assert(s =~= a85_digits(v).take(n));
        lemma_sums_of_digits(s, v);
    } else if bytes.take(4) == four_zeros() && s.len() >= 1 && s[0] == A85_ZEROS && are_a85_groups(
        s.skip(1),
        bytes.skip(4),
    ) {
        lemma_sums_of_groups(s.skip(1), bytes.skip(4));
        assert(s.drop_first() =~= s.skip(1));
    } else {
        let four = bytes.take(4);
        let v = four_byte_value(four);
        lemma_digits(v);
        lemma_sums_of_groups(s.skip(5), bytes.skip(4));
        assert(s.take(5) == a85_digits(v));
        lemma_sums_of_five(s, v);
    }
}

proof fn lemma_digits(v: int)
    requires
        0 <= v <= 0xffff_ffff,
    ensures
        ({
            let d = a85_digits(v);
            &&& d.len() == 5
            &&& forall|i: int| 0 <= i < 5 ==> 0x21 <= #[trigger] d[i] <= 0x75
            &&& d[0] - 0x21 == v / 85 / 85 / 85 / 85
            &&& d[1] - 0x21 == v / 85 / 85 / 85 % 85
            &&& d[2] - 0x21 == v / 85 / 85 % 85
            &&& d[3] - 0x21 == v / 85 % 85
            &&& d[4] - 0x21 == v % 85
        }),
{
}

proof fn lemma_sums_of_five(s: Seq<u8>, v: int)
    requires
        0 <= v <= 0xffff_ffff,
        s.len() >= 5,
        s.take(5) == a85_digits(v),
        a85_sums_fit(s.skip(5), 0, 0),
    ensures
        a85_sums_fit(s, 0, 0),
{
    lemma_digits(v);
    let d = a85_digits(v);
    assert(s[0] == s.take(5)[0] && s[1] == s.take(5)[1] && s[2] == s.take(5)[2] && s[3] == s.take(
        5,
    )[3] && s[4] == s.take(5)[4]);
    let s1 = s.drop_first();
    let s2 = s1.drop_first();
    let s3 = s2.drop_first();
    let s4 = s3.drop_first();
    assert(s1[0] == s[1] && s2[0] == s[2] && s3[0] == s[3] && s4[0] == s[4]);
    assert(s4.drop_first() =~= s.skip(5));
    assert(0x21 <= d[0] <= 0x75 && 0x21 <= d[1] <= 0x75 && 0x21 <= d[2] <= 0x75 && 0x21 <= d[3]
        <= 0x75 && 0x21 <= d[4] <= 0x75);
    let q1 = v / 85;
    let q2 = q1 / 85;
    let q3 = q2 / 85;
    let q4 = q3 / 85;
    assert(85 * q4 + q3 % 85 == q3 && 85 * q3 + q2 % 85 == q2 && 85 * q2 + q1 % 85 == q1 && 85 * q1
        + v % 85 == v);
    assert(a85_sums_fit(s4, q1, 4));
    assert(a85_sums_fit(s3, q2, 3));
    assert(a85_sums_fit(s2, q3, 2));
    assert(a85_sums_fit(s1, q4, 1));
}

proof fn lemma_sums_of_digits(s: Seq<u8>, v: int)
    requires
        0 <= v <= 0xffff_ff00,
        2 <= s.len() <= 4,
        s == a85_digits(v).take(s.len() as int),
    ensures
        a85_sums_fit(s, 0, 0),
{
    lemma_digits(v);
    let d = a85_digits(v);
    assert(0x21 <= d[0] <= 0x75 && 0x21 <= d[1] <= 0x75 && 0x21 <= d[2] <= 0x75 && 0x21 <= d[3]
        <= 0x75);
    let s1 = s.drop_first();
    let s2 = s1.drop_first();
    assert(s[0] == d[0] && s[1] == d[1] && s1[0] == s[1]);
    let q1 = v / 85;
    let q2 = q1 / 85;
    let q3 = q2 / 85;
    let q4 = q3 / 85;
    assert(85 * q4 + q3 % 85 == q3 && 85 * q3 + q2 % 85 == q2 && 85 * q2 + q1 % 85 == q1);
    if s.len() == 2 {
        assert(a85_sums_fit(s2, q3, 2));
    } else {
        assert(s[2] == d[2] && s2[0] == s[2]);
        let s3 = s2.drop_first();
        if s.len() == 3 {
            assert(a85_sums_fit(s3, q2, 3));
        } else {
            assert(s[3] == d[3] && s3[0] == s[3]);
            let s4 = s3.drop_first();
            assert(s4.len() == 0);
            assert(85 * q1 <= v);
            assert(a85_sums_fit(s4, q1, 4));
            assert(a85_sums_fit(s3, q2, 3));
        }
        assert(a85_sums_fit(s2, q3, 2));
    }
    assert(a85_sums_fit(s1, q4, 1));
}

/// Every ASCII85 text of some bytes is decoded: none of its sums is out of range.
pub proof fn law_encoded_texts_fit(
    p: DecodeParams,
    text: Seq<u8>,
    bytes: Seq<u8>,
)
    requires
        is_a85_text(text, bytes),
    ensures
        filter_fits(encode_utf8("ASCII85Decode"@), p, text),
{
    lemma_sums_of_spaceless(text, 0, 0);
    lemma_sums_of_groups(spaceless(text), bytes);
}

} // verus!
