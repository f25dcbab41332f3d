//! Laws of the filters in front of a JPEG file.

use crate::ascii_filter_laws::{
    is_a85_text, is_hex_text, law_a85_round_trip, law_hex_round_trip,
};
use crate::ascii_filters::{a85_decoded, hex_decoded, A85_END, HEX_END};
use crate::filters::{
    inflated, is_supported, jpeg_data, jpeg_filters, names_among, pre_jpeg_decoded, unwrapped,
};
use crate::object::{entry, ObjectView};
use vstd::prelude::*;
use vstd::utf8::{encode_utf8, encode_utf8_decode_utf8};

verus! {

pub open spec fn hex_name() -> Seq<u8> {
    encode_utf8("ASCIIHexDecode"@)
}

pub open spec fn a85_name() -> Seq<u8> {
    encode_utf8("ASCII85Decode"@)
}

pub open spec fn dct_name() -> Seq<u8> {
    encode_utf8("DCTDecode"@)
}

pub open spec fn flate_name() -> Seq<u8> {
    encode_utf8("FlateDecode"@)
}

/// Whether data hold a text: they are the text, or the text, an end marker and
/// anything behind it.
pub open spec fn holds_text(data: Seq<u8>, text: Seq<u8>, end: u8, tail: Seq<u8>) -> bool {
    data == text || data == text + seq![end] + tail
}

/// Whether data are bytes in an encoding that a filter undoes: any text of them in
/// hexadecimal or ASCII85, with or without the end marker, or what inflates to them.
pub open spec fn is_layer(filter: Seq<u8>, data: Seq<u8>, bytes: Seq<u8>) -> bool {
    ||| filter == hex_name() && exists|text: Seq<u8>, tail: Seq<u8>|
        is_hex_text(text, bytes) && #[trigger] holds_text(data, text, HEX_END, tail)
    ||| filter == a85_name() && exists|text: Seq<u8>, tail: Seq<u8>|
        is_a85_text(text, bytes) && #[trigger] holds_text(data, text, A85_END, tail)
    ||| filter == flate_name() && inflated(data) == Some(bytes)
}

proof fn lemma_names_differ()
    ensures
        hex_name() != dct_name(),
        a85_name() != dct_name(),
        a85_name() != hex_name(),
        hex_name() != flate_name(),
        a85_name() != flate_name(),
        dct_name() != flate_name(),
{
    reveal_strlit("ASCIIHexDecode");
    reveal_strlit("ASCII85Decode");
    reveal_strlit("DCTDecode");
    reveal_strlit("FlateDecode");
    encode_utf8_decode_utf8("ASCIIHexDecode"@);
    encode_utf8_decode_utf8("ASCII85Decode"@);
    encode_utf8_decode_utf8("DCTDecode"@);
    encode_utf8_decode_utf8("FlateDecode"@);
    assert("ASCIIHexDecode"@.len() == 14);
    assert("ASCII85Decode"@.len() == 13);
    assert("DCTDecode"@.len() == 9);
    assert("FlateDecode"@.len() == 11);
}

proof fn lemma_layer(filter: Seq<u8>, data: Seq<u8>, bytes: Seq<u8>)
    requires
        is_layer(filter, data, bytes),
    ensures
        pre_jpeg_decoded(filter, data) == Some(bytes),
        filter != dct_name(),
        is_supported(filter),
{
    lemma_names_differ();
    if filter == hex_name() {
        let (text, tail) = choose|text: Seq<u8>, tail: Seq<u8>|
            is_hex_text(text, bytes) && #[trigger] holds_text(data, text, HEX_END, tail);
        law_hex_round_trip(text, bytes, tail);
    } else if filter == a85_name() {
        let (text, tail) = choose|text: Seq<u8>, tail: Seq<u8>|
            is_a85_text(text, bytes) && #[trigger] holds_text(data, text, A85_END, tail);
        law_a85_round_trip(text, bytes, tail);
    }
}

proof fn lemma_unwrapped(filters: Seq<Seq<u8>>, layers: Seq<Seq<u8>>)
    requires
        layers.len() == filters.len() + 1,
        forall|i: int|
            0 <= i < filters.len() ==> is_layer(
                #[trigger] filters[i],
                layers[i],
                layers[i + 1],
            ),
    ensures
        unwrapped(filters.push(dct_name()), layers[0]) == Some(layers.last()),
    decreases filters.len(),
{
    let all = filters.push(dct_name());
    if filters.len() > 0 {
        let rest = filters.drop_first();
        let inner = layers.drop_first();
        assert forall|i: int| 0 <= i < rest.len() implies is_layer(
            #[trigger] rest[i],
            inner[i],
            inner[i + 1],
        ) by {
            assert(is_layer(filters[i + 1], layers[i + 1], layers[i + 2]));
        }
        lemma_unwrapped(rest, inner);
        assert(is_layer(filters[0], layers[0], layers[1]));
        lemma_layer(filters[0], layers[0], layers[1]);
        assert(all[0] == filters[0]);
        assert(all.drop_first() =~= rest.push(dct_name()));
        assert(inner.last() == layers.last());
    } else {
        assert(all[0] == dct_name());
    }
}

/// A JPEG file in any layers of hexadecimal, base-85 and zlib encodings is found again,
/// byte for byte, by filters that name them from the outside in and DCTDecode last.
pub proof fn law_jpeg_unwrapped(filters: Seq<Seq<u8>>, layers: Seq<Seq<u8>>)
    requires
        layers.len() == filters.len() + 1,
        forall|i: int|
            0 <= i < filters.len() ==> is_layer(
                #[trigger] filters[i],
                layers[i],
                layers[i + 1],
            ),
    ensures
        jpeg_data(filters.push(dct_name()), layers[0]) == Some(layers.last()),
{
    lemma_unwrapped(filters, layers);
    let all = filters.push(dct_name());
    assert forall|i: int| 0 <= i < all.len() implies is_supported(#[trigger] all[i]) by {
        if i < filters.len() {
            assert(all[i] == filters[i]);
            assert(is_layer(filters[i], layers[i], layers[i + 1]));
            lemma_layer(filters[i], layers[i], layers[i + 1]);
        }
    }
}

/// Any filter that is not supported spoils the chain, wherever it stands.
pub proof fn law_unsupported_spoils(filters: Seq<Seq<u8>>, data: Seq<u8>, i: int)
    requires
        0 <= i < filters.len(),
        !is_supported(filters[i]),
    ensures
        jpeg_data(filters, data) is None,
{
}

/// Whether a filter may stand in the chain of a JPEG file: there are four.
pub open spec fn is_one_of_four(filter: Seq<u8>) -> bool {
    ||| filter == encode_utf8("FlateDecode"@)
    ||| filter == encode_utf8("ASCIIHexDecode"@)
    ||| filter == encode_utf8("ASCII85Decode"@)
    ||| filter == encode_utf8("DCTDecode"@)
}

/// Data come only of chains of the four filters.
pub proof fn law_no_other_filters(filters: Seq<Seq<u8>>, data: Seq<u8>, i: int)
    requires
        0 <= i < filters.len(),
        jpeg_data(filters, data) is Some,
    ensures
        is_one_of_four(filters[i]),
{
    assert(is_supported(filters[i]));
}

/// Each filter in front undoes its own encoding, and no other: hexadecimal, base 85, or
/// zlib. `DCTDecode` undoes nothing.
pub proof fn law_filters_by_name(data: Seq<u8>)
    ensures
        ({
            let dct = encode_utf8("DCTDecode"@);
            let hex = encode_utf8("ASCIIHexDecode"@);
            let a85 = encode_utf8("ASCII85Decode"@);
            let flate = encode_utf8("FlateDecode"@);
            &&& jpeg_data(seq![dct], data) == Some(data)
            &&& jpeg_data(seq![hex], data) == hex_decoded(data)
            &&& jpeg_data(seq![a85], data) == a85_decoded(data)
            &&& jpeg_data(seq![flate], data) == inflated(data)
            &&& jpeg_data(Seq::empty(), data) == Some(data)
        }),
{
    lemma_names_differ();
    lemma_chain_of_one(dct_name(), data);
    lemma_chain_of_one(hex_name(), data);
    lemma_chain_of_one(a85_name(), data);
    lemma_chain_of_one(flate_name(), data);
}

proof fn lemma_chain_of_one(filter: Seq<u8>, data: Seq<u8>)
    requires
        is_supported(filter),
    ensures
        jpeg_data(seq![filter], data) == (if filter == dct_name() {
            Some(data)
        } else {
            pre_jpeg_decoded(filter, data)
        }),
{
    let chain = seq![filter];
    assert(chain[0] == filter);
    assert(forall|i: int| 0 <= i < chain.len() ==> is_supported(#[trigger] chain[i]));
    reveal_with_fuel(unwrapped, 2);
    assert(chain.drop_first().len() == 0);
}

/// Filters are applied one after the other: the first to the data, the others to what it
/// leaves; where it fails, the chain fails.
pub proof fn law_filters_in_order(first: Seq<u8>, others: Seq<Seq<u8>>, data: Seq<u8>)
    requires
        first != encode_utf8("DCTDecode"@),
        forall|i: int| 0 <= i < others.len() ==> is_one_of_four(#[trigger] others[i]),
    ensures
        jpeg_data(seq![first] + others, data) == (match jpeg_data(seq![first], data) {
            Some(left) => jpeg_data(others, left),
            None => None,
        }),
{
    let all = seq![first] + others;
    assert(all[0] == first);
    assert(all.drop_first() =~= others);
    assert(forall|i: int| 0 <= i < others.len() ==> is_supported(#[trigger] others[i]));
    if is_supported(first) {
        lemma_chain_of_one(first, data);
        assert forall|i: int| 0 <= i < all.len() implies is_supported(#[trigger] all[i]) by {
            if i > 0 {
                assert(all[i] == others[i - 1]);
            }
        }
    } else {
        assert(!is_supported(seq![first][0]));
        assert(!is_supported(all[0]));
    }
}

/// Nothing behind `DCTDecode` is applied: what it stands before is the JPEG file.
pub proof fn law_dct_ends(others: Seq<Seq<u8>>, data: Seq<u8>)
    requires
        forall|i: int| 0 <= i < others.len() ==> is_one_of_four(#[trigger] others[i]),
    ensures
        jpeg_data(seq![encode_utf8("DCTDecode"@)] + others, data) == Some(data),
{
    let all = seq![dct_name()] + others;
    assert(all[0] == dct_name());
    assert forall|i: int| 0 <= i < all.len() implies is_supported(#[trigger] all[i]) by {
        if i > 0 {
            assert(all[i] == others[i - 1]);
        }
    }
}

/// The filters of a stream are the one that it names, or the names in an array, in their
/// order; what is no name there does not count.
pub proof fn law_filters_of_a_stream(
    dict: Seq<(Seq<u8>, ObjectView)>,
    name: Seq<u8>,
    objects: Seq<ObjectView>,
    o: ObjectView,
)
    ensures
        entry(dict, "Filter"@) == Some(ObjectView::Name(name)) ==> jpeg_filters(dict) == Some(
            seq![name],
        ),
        entry(dict, "Filter"@) == Some(ObjectView::Array(objects)) ==> jpeg_filters(dict) == Some(
            names_among(objects),
        ),
        !(entry(dict, "Filter"@) matches Some(ObjectView::Name(n))) && !(entry(dict, "Filter"@)
            matches Some(ObjectView::Array(a))) ==> jpeg_filters(dict) is None,
        names_among(Seq::empty()) == Seq::<Seq<u8>>::empty(),
        names_among(objects.push(ObjectView::Name(name))) == names_among(objects).push(name),
        !(o is Name) ==> names_among(objects.push(o)) == names_among(objects),
{
    assert(objects.push(ObjectView::Name(name)).drop_last() =~= objects);
    assert(objects.push(o).drop_last() =~= objects);
}

} // verus!
