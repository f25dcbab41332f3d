//! The filters in front of a JPEG file.

use crate::ascii_filters::{a85_decoded, ascii85_decode, ascii_hex_decode, hex_decoded};
use crate::bytes::{bytes_of, spells};
use crate::object::{entry, object_views, ObjectView, PdfObject, PdfStream};
use vstd::prelude::*;
use vstd::utf8::encode_utf8;

verus! {

/// The bytes of names.
pub open spec fn name_bytes(names: Seq<Vec<u8>>) -> Seq<Seq<u8>> {
    Seq::new(names.len(), |i: int| names[i]@)
}

/// The names among some objects, in their order.
pub open spec fn names_among(objects: Seq<ObjectView>) -> Seq<Seq<u8>>
    decreases objects.len(),
{
    if objects.len() == 0 {
        Seq::empty()
    } else {
        match objects.last() {
            ObjectView::Name(n) => names_among(objects.drop_last()).push(n),
            _ => names_among(objects.drop_last()),
        }
    }
}

fn collect_names(objects: &Vec<PdfObject>) -> (names: Vec<Vec<u8>>)
    ensures
        name_bytes(names@) == names_among(object_views(objects@)),
{
    let ghost views = object_views(objects@);
    let mut names: Vec<Vec<u8>> = Vec::new();
    let mut i: usize = 0;
    assert(name_bytes(names@) =~= names_among(views.take(0)));
    while i < objects.len()
        invariant
            i <= objects@.len(),
            views == object_views(objects@),
            name_bytes(names@) == names_among(views.take(i as int)),
        decreases objects@.len() - i,
    {
        assert(views.take(i + 1).drop_last() =~= views.take(i as int));
        assert(views.take(i + 1).last() == objects@[i as int]@);
        if let PdfObject::Name(n) = &objects[i] {
            let name: Vec<u8> = n.clone();
            assert(name@ =~= n@);
            let ghost before = names@;
            names.push(name);
            assert(name_bytes(names@) =~= name_bytes(before).push(n@));
        }
        i = i + 1;
    }
    assert(views.take(i as int) =~= views);
    names
}

/// Decompresses a zlib stream with `flate2::read::ZlibDecoder`, read to its end.
///
/// Claimed: the result is a function of the data, under the name `inflated`;
/// `None` where the decoder reports an error.
#[verifier::external_body]
pub(crate) fn inflate(data: &Vec<u8>) -> (r: Option<Vec<u8>>)
    ensures
        bytes_of(r) == inflated(data@),
{
    let mut out: Vec<u8> = Vec::new();
    let mut decoder = flate2::read::ZlibDecoder::new(&data[..]);
    match std::io::Read::read_to_end(&mut decoder, &mut out) {
        Ok(_) => Some(out),
        Err(_) => None,
    }
}

/// What `flate2::read::ZlibDecoder` makes of some bytes.
pub uninterp spec fn inflated(data: Seq<u8>) -> Option<Seq<u8>>;

/// The filters of a stream that may hold a JPEG file.
pub open spec fn jpeg_filters(dict: Seq<(Seq<u8>, ObjectView)>) -> Option<Seq<Seq<u8>>> {
    match entry(dict, "Filter"@) {
        Some(ObjectView::Name(n)) => Some(seq![n]),
        Some(ObjectView::Array(a)) => Some(names_among(a)),
        _ => None,
    }
}

/// One filter in front of the JPEG file; `None` where it fails or is not supported.
pub open spec fn pre_jpeg_decoded(filter: Seq<u8>, data: Seq<u8>) -> Option<Seq<u8>> {
    if filter == encode_utf8("FlateDecode"@) {
        inflated(data)
    } else if filter == encode_utf8("ASCIIHexDecode"@) {
        hex_decoded(data)
    } else if filter == encode_utf8("ASCII85Decode"@) {
        a85_decoded(data)
    } else {
        None
    }
}

/// The filters that may stand in the chain of a JPEG file.
pub open spec fn is_supported(filter: Seq<u8>) -> bool {
    filter == encode_utf8("FlateDecode"@) || filter == encode_utf8("ASCIIHexDecode"@) || filter
        == encode_utf8("ASCII85Decode"@) || filter == encode_utf8("DCTDecode"@)
}

/// The data after the filters up to the first `DCTDecode`.
pub open spec fn unwrapped(filters: Seq<Seq<u8>>, data: Seq<u8>) -> Option<Seq<u8>>
    decreases filters.len(),
{
    if filters.len() == 0 || filters[0] == encode_utf8("DCTDecode"@) {
        Some(data)
    } else {
        match pre_jpeg_decoded(filters[0], data) {
            Some(decoded) => unwrapped(filters.drop_first(), decoded),
            None => None,
        }
    }
}

/// The data after the filters up to the first `DCTDecode`; `None` where any filter
/// of the chain is not supported.
pub open spec fn jpeg_data(filters: Seq<Seq<u8>>, data: Seq<u8>) -> Option<Seq<u8>> {
    if forall|i: int| 0 <= i < filters.len() ==> is_supported(#[trigger] filters[i]) {
        unwrapped(filters, data)
    } else {
        None
    }
}

fn check_supported(filters: &Vec<Vec<u8>>) -> (r: bool)
    ensures
        r == forall|i: int|
            0 <= i < name_bytes(filters@).len() ==> is_supported(
                #[trigger] name_bytes(filters@)[i],
            ),
{
    let ghost names = name_bytes(filters@);
    let mut i: usize = 0;
    while i < filters.len()
        invariant
            i <= filters@.len(),
            names == name_bytes(filters@),
            forall|j: int| 0 <= j < i ==> is_supported(#[trigger] names[j]),
        decreases filters@.len() - i,
    {
        let filter = filters[i].as_slice();
        assert(names[i as int] == filters@[i as int]@);
        if !(spells(filter, "FlateDecode") || spells(filter, "ASCIIHexDecode") || spells(
            filter,
            "ASCII85Decode",
        ) || spells(filter, "DCTDecode")) {
            return false;
        }
        i = i + 1;
    }
    true
}

fn pre_jpeg_decode(filter: &Vec<u8>, data: &Vec<u8>) -> (r: Option<Vec<u8>>)
    ensures
        bytes_of(r) == pre_jpeg_decoded(filter@, data@),
{
    if spells(filter.as_slice(), "FlateDecode") {
        inflate(data)
    } else if spells(filter.as_slice(), "ASCIIHexDecode") {
        ascii_hex_decode(data.as_slice())
    } else if spells(filter.as_slice(), "ASCII85Decode") {
        ascii85_decode(data.as_slice())
    } else {
        None
    }
}

/// Applies the filters of a stream in their order, up to `DCTDecode`: what is left
/// then is the JPEG file.
///
/// The filters that may stand in front are FlateDecode, ASCII85Decode and
/// ASCIIHexDecode. `None` where the stream names no filter, any other filter appears
/// in the chain, or one of those in front fails.
pub fn decode_filters_for_jpeg(stream: &PdfStream) -> (r: Option<Vec<u8>>)
    ensures
        bytes_of(r) == (match jpeg_filters(stream.dict@) {
            Some(filters) => jpeg_data(filters, stream.content@),
            None => None,
        }),
{
    let filters: Vec<Vec<u8>> = match stream.dict.get("Filter") {
        Some(PdfObject::Name(n)) => {
            let name: Vec<u8> = n.clone();
            assert(name@ =~= n@);
            let mut one: Vec<Vec<u8>> = Vec::new();
            one.push(name);
            assert(name_bytes(one@) =~= seq![n@]);
            one
        },
        Some(PdfObject::Array(a)) => {
            assert(object_views(a@) =~= PdfObject::Array(*a)@->Array_0);
            collect_names(a)
        },
        _ => {
            return None;
        },
    };
    let ghost names = name_bytes(filters@);
    if !check_supported(&filters) {
        return None;
    }
    let mut data: Vec<u8> = stream.content.clone();
    assert(data@ =~= stream.content@);
    let mut i: usize = 0;
    assert(names.skip(0) =~= names);
    while i < filters.len()
        invariant
            i <= filters@.len(),
            names == name_bytes(filters@),
            jpeg_data(names, stream.content@) == unwrapped(names.skip(i as int), data@),
            jpeg_filters(stream.dict@) == Some(names),
        decreases filters@.len() - i,
    {
        assert(names.skip(i as int)[0] == filters@[i as int]@);
        assert(names.skip(i as int).drop_first() =~= names.skip(i + 1));
        if spells(filters[i].as_slice(), "DCTDecode") {
            return Some(data);
        }
        match pre_jpeg_decode(&filters[i], &data) {
            Some(decoded) => {
                data = decoded;
            },
            None => {
                return None;
            },
        }
        i = i + 1;
    }
    assert(names.skip(i as int).len() == 0);
    Some(data)
}

} // verus!
