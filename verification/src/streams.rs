//! The decoding of streams, one filter at a time, by `lopdf`.

use crate::bytes::{bytes_of, is_ascii_space, is_space, spells};
use crate::document::{find_page_contents, get_object, object_at, page_content_ids};
use crate::filters::name_bytes;
use crate::object::{entry, integer_entry, object_views, ObjectId, ObjectView, PdfDict, PdfObject, PdfStream};
use vstd::prelude::*;
use vstd::utf8::encode_utf8;

verus! {

/// The entries of a stream's `DecodeParms` that its filters read, where they are
/// integers.
#[derive(Clone, Copy, Debug, PartialEq, Eq)]
pub struct DecodeParams {
    pub predictor: Option<i64>,
    pub columns: Option<i64>,
    pub colors: Option<i64>,
    pub bits: Option<i64>,
    pub early_change: Option<i64>,
}

pub open spec fn at_least_or(value: Option<i64>, least: int) -> int {
    match value {
        Some(v) => if v < least {
            least
        } else {
            v as int
        },
        None => least,
    }
}

impl DecodeParams {
    /// Whether the bytes of a pixel and of a row can be counted in a `usize`, as
    /// a predictor of 10 to 15 asks for.
    pub open spec fn row_fits(self) -> bool {
        let pixel_bits = at_least_or(self.colors, 1) * at_least_or(self.bits, 8);
        self.predictor matches Some(p) ==> 10 <= p <= 15 ==> {
            &&& pixel_bits <= usize::MAX
            &&& pixel_bits / 8 * at_least_or(self.columns, 1) <= usize::MAX
        }
    }

    fn check_row(&self) -> (r: bool)
        ensures
            r == self.row_fits(),
    {
        match self.predictor {
            Some(p) if 10 <= p && p <= 15 => {
                let colors: u64 = clamp_up(self.colors, 1);
                let bits: u64 = clamp_up(self.bits, 8);
                let columns: u64 = clamp_up(self.columns, 1);
                let limit: u128 = usize::MAX as u128;
                assert(colors * bits < 0x1_0000_0000_0000_0000 * 0x1_0000_0000_0000_0000)
                    by (nonlinear_arith)
                    requires
                        colors < 0x1_0000_0000_0000_0000,
                        bits < 0x1_0000_0000_0000_0000,
                ;
                let pixel_bits: u128 = colors as u128 * bits as u128;
                if pixel_bits > limit {
                    return false;
                }
                let pixel: u128 = pixel_bits / 8;
                assert(pixel * columns < 0x1_0000_0000_0000_0000 * 0x1_0000_0000_0000_0000)
                    by (nonlinear_arith)
                    requires
                        pixel < 0x1_0000_0000_0000_0000,
                        columns < 0x1_0000_0000_0000_0000,
                ;
                pixel * columns as u128 <= limit
            },
            _ => true,
        }
    }
}

fn clamp_up(value: Option<i64>, least: u64) -> (r: u64)
    requires
        least <= 8,
    ensures
        r == at_least_or(value, least as int),
{
    match value {
        Some(v) => if v < least as i64 {
            least
        } else {
            v as u64
        },
        None => least,
    }
}

/// Whether no sum of five base-85 digits passes `u32::MAX` by its last digit,
/// after `count` digits of a group that make up `value`.
///
/// Digits are summed as `85 * value + digit`. A group whose product alone is too
/// large is an error, as is a `z` within a group; both end the decoding, and so
/// does any other byte that is neither a digit nor white space. An unfinished
/// group is filled up with the digit 84.
pub open spec fn a85_sums_fit(data: Seq<u8>, value: int, count: int) -> bool
    decreases data.len(),
{
    if data.len() == 0 {
        count == 4 ==> 85 * value > u32::MAX || 85 * value + 84 <= u32::MAX
    } else if data[0] == 0x7a {
        count == 0 ==> a85_sums_fit(data.drop_first(), value, count)
    } else if is_space(data[0]) {
        a85_sums_fit(data.drop_first(), value, count)
    } else if !(0x21 <= data[0] <= 0x75) {
        count == 4 ==> 85 * value > u32::MAX || 85 * value + 84 <= u32::MAX
    } else {
        let sum = 85 * value + (data[0] - 0x21);
        if count < 4 {
            a85_sums_fit(data.drop_first(), sum, count + 1)
        } else {
            85 * value > u32::MAX || (sum <= u32::MAX && a85_sums_fit(data.drop_first(), 0, 0))
        }
    }
}

fn check_a85_sums(data: &Vec<u8>) -> (r: bool)
    ensures
        r == a85_sums_fit(data@, 0, 0),
{
    let mut value: u64 = 0;
    let mut count: u64 = 0;
    let mut i: usize = 0;
    assert(data@.skip(0) =~= data@);
    while i < data.len()
        invariant
            i <= data@.len(),
            count <= 4,
            count == 0 ==> value == 0,
            count == 1 ==> value < 85,
            count == 2 ==> value < 85 * 85,
            count == 3 ==> value < 85 * 85 * 85,
            count == 4 ==> value < 85 * 85 * 85 * 85,
            a85_sums_fit(data@, 0, 0) == a85_sums_fit(data@.skip(i as int), value as int, count as int),
        decreases data@.len() - i,
    {
        let b: u8 = data[i];
        assert(data@.skip(i as int)[0] == b);
        assert(data@.skip(i as int).drop_first() =~= data@.skip(i + 1));
        if b == 0x7a {
            if count != 0 {
                return true;
            }
        } else if !is_ascii_space(b) {
            if !(0x21 <= b && b <= 0x75) {
                return count != 4 || 85 * value > u32::MAX as u64 || 85 * value + 84 <= u32::MAX as u64;
            }
            let product: u64 = 85 * value;
            let sum: u64 = product + (b - 0x21) as u64;
            if count < 4 {
                value = sum;
                count = count + 1;
            } else {
                if product > u32::MAX as u64 {
                    return true;
                }
                if sum > u32::MAX as u64 {
                    return false;
                }
                value = 0;
                count = 0;
            }
        }
        i = i + 1;
    }
    assert(data@.skip(i as int).len() == 0);
    count != 4 || 85 * value > u32::MAX as u64 || 85 * value + 84 <= u32::MAX as u64
}

/// The filters that `lopdf` decodes.
pub open spec fn is_decodable(filter: Seq<u8>) -> bool {
    filter == encode_utf8("FlateDecode"@) || filter == encode_utf8("LZWDecode"@) || filter
        == encode_utf8("ASCII85Decode"@)
}

/// Whether the decoder's own arithmetic stays in range.
pub open spec fn filter_fits(filter: Seq<u8>, params: DecodeParams, data: Seq<u8>) -> bool {
    if filter == encode_utf8("ASCII85Decode"@) {
        a85_sums_fit(data, 0, 0)
    } else {
        params.row_fits()
    }
}

/// What `lopdf::Stream::decompressed_content` makes of a stream with one filter.
pub uninterp spec fn filter_decoded(filter: Seq<u8>, params: DecodeParams, data: Seq<u8>) -> Option<
    Seq<u8>,
>;

/// Calls `lopdf::Stream::decompressed_content` on a stream with one filter.
///
/// Claimed: the result is a function of the filter, its parameters and the data,
/// under the name `filter_decoded`; `None` where the decoder reports an error.
/// The bytes that it gives are not described further. Its sums and sizes have to
/// stay in range.
#[verifier::external_body]
pub(crate) fn decode_filter(filter: &Vec<u8>, params: &DecodeParams, data: &Vec<u8>) -> (r: Option<
    Vec<u8>,
>)
    requires
        is_decodable(filter@),
        filter_fits(filter@, *params, data@),
    ensures
        bytes_of(r) == filter_decoded(filter@, *params, data@),
{
    let mut parms = lopdf::Dictionary::new();
    params.predictor.map(|n| parms.set("Predictor", n));
    params.columns.map(|n| parms.set("Columns", n));
    params.colors.map(|n| parms.set("Colors", n));
    params.bits.map(|n| parms.set("BitsPerComponent", n));
    params.early_change.map(|n| parms.set("EarlyChange", n));
    let mut dict = lopdf::Dictionary::new();
    dict.set("Filter", lopdf::Object::Name(filter.clone()));
    dict.set("DecodeParms", parms);
    lopdf::Stream::new(dict, data.clone()).decompressed_content().ok()
}

/// One filter of a stream; `None` where it fails or is not supported.
pub open spec fn one_decoded(filter: Seq<u8>, params: DecodeParams, data: Seq<u8>) -> Option<
    Seq<u8>,
> {
    if is_decodable(filter) && filter_fits(filter, params, data) {
        filter_decoded(filter, params, data)
    } else {
        None
    }
}

fn decode_one(filter: &Vec<u8>, params: &DecodeParams, data: &Vec<u8>) -> (r: Option<Vec<u8>>)
    ensures
        bytes_of(r) == one_decoded(filter@, *params, data@),
{
    let flate = spells(filter.as_slice(), "FlateDecode");
    let lzw = spells(filter.as_slice(), "LZWDecode");
    let a85 = spells(filter.as_slice(), "ASCII85Decode");
    if a85 {
        if check_a85_sums(data) {
            decode_filter(filter, params, data)
        } else {
            None
        }
    } else if (flate || lzw) && params.check_row() {
        decode_filter(filter, params, data)
    } else {
        None
    }
}

/// The data after all the filters.
pub open spec fn chain_decoded(
    filters: Seq<Seq<u8>>,
    params: DecodeParams,
    data: Seq<u8>,
) -> Option<Seq<u8>>
    decreases filters.len(),
{
    if filters.len() == 0 {
        Some(data)
    } else {
        match one_decoded(filters[0], params, data) {
            Some(decoded) => chain_decoded(filters.drop_first(), params, decoded),
            None => None,
        }
    }
}

/// Whether the decoders' own arithmetic stays in range all along the filters, up to
/// the first one that fails or is not supported.
pub open spec fn chain_fits(filters: Seq<Seq<u8>>, params: DecodeParams, data: Seq<u8>) -> bool
    decreases filters.len(),
{
    filters.len() > 0 && is_decodable(filters[0]) ==> {
        &&& filter_fits(filters[0], params, data)
        &&& filter_decoded(filters[0], params, data) matches Some(decoded) ==> chain_fits(
            filters.drop_first(),
            params,
            decoded,
        )
    }
}

/// Objects that are all names; `None` where one is not.
pub open spec fn all_names(objects: Seq<ObjectView>) -> Option<Seq<Seq<u8>>> {
    if forall|i: int| 0 <= i < objects.len() ==> (#[trigger] objects[i]) is Name {
        Some(Seq::new(objects.len(), |i: int| objects[i]->Name_0))
    } else {
        None
    }
}

/// The filters of a stream, in decoding order.
pub open spec fn stream_filters(dict: Seq<(Seq<u8>, ObjectView)>) -> Option<Seq<Seq<u8>>> {
    match entry(dict, "Filter"@) {
        Some(ObjectView::Name(n)) => Some(seq![n]),
        Some(ObjectView::Array(a)) => all_names(a),
        _ => None,
    }
}

/// The parameters of a stream's filters.
pub open spec fn stream_params(dict: Seq<(Seq<u8>, ObjectView)>) -> DecodeParams {
    match entry(dict, "DecodeParms"@) {
        Some(ObjectView::Dictionary(d)) => DecodeParams {
            predictor: integer_entry(d, "Predictor"@),
            columns: integer_entry(d, "Columns"@),
            colors: integer_entry(d, "Colors"@),
            bits: integer_entry(d, "BitsPerComponent"@),
            early_change: integer_entry(d, "EarlyChange"@),
        },
        _ => DecodeParams {
            predictor: None,
            columns: None,
            colors: None,
            bits: None,
            early_change: None,
        },
    }
}

/// The content of a stream, decoded with some parameters; with an empty list of
/// filters it is empty.
pub open spec fn decoded_with(
    dict: Seq<(Seq<u8>, ObjectView)>,
    params: DecodeParams,
    content: Seq<u8>,
) -> Option<Seq<u8>> {
    match stream_filters(dict) {
        Some(filters) => if filters.len() == 0 {
            Some(Seq::empty())
        } else {
            chain_decoded(filters, params, content)
        },
        None => None,
    }
}

/// The decoded content of a stream.
pub open spec fn decompressed(dict: Seq<(Seq<u8>, ObjectView)>, content: Seq<u8>) -> Option<
    Seq<u8>,
> {
    decoded_with(dict, stream_params(dict), content)
}

/// The decoded content of a stream, its predictor left as it is.
pub open spec fn unpredicted(dict: Seq<(Seq<u8>, ObjectView)>, content: Seq<u8>) -> Option<
    Seq<u8>,
> {
    decoded_with(dict, DecodeParams { predictor: None, ..stream_params(dict) }, content)
}

/// Whether the decoders' own arithmetic stays in range when a stream is decoded.
pub open spec fn stream_fits(dict: Seq<(Seq<u8>, ObjectView)>, content: Seq<u8>) -> bool {
    match stream_filters(dict) {
        Some(filters) => chain_fits(filters, stream_params(dict), content),
        None => true,
    }
}

fn read_filters(dict: &PdfDict) -> (r: Option<Vec<Vec<u8>>>)
    ensures
        (match r {
            Some(names) => stream_filters(dict@) == Some(name_bytes(names@)),
            None => stream_filters(dict@) is None,
        }),
{
    match dict.get("Filter") {
        Some(PdfObject::Name(n)) => {
            let name: Vec<u8> = n.clone();
            assert(name@ =~= n@);
            let mut one: Vec<Vec<u8>> = Vec::new();
            one.push(name);
            assert(name_bytes(one@) =~= seq![n@]);
            Some(one)
        },
        Some(PdfObject::Array(a)) => {
            let ghost views = object_views(a@);
            assert(views =~= PdfObject::Array(*a)@->Array_0);
            let mut names: Vec<Vec<u8>> = Vec::new();
            let mut i: usize = 0;
            while i < a.len()
                invariant
                    i <= a@.len(),
                    views == object_views(a@),
                    stream_filters(dict@) == all_names(views),
                    names@.len() == i,
                    forall|j: int| 0 <= j < i ==> (#[trigger] views[j]) is Name,
                    forall|j: int| 0 <= j < i ==> (#[trigger] names@[j])@ == views[j]->Name_0,
                decreases a@.len() - i,
            {
                assert(views[i as int] == a@[i as int]@);
                match &a[i] {
                    PdfObject::Name(n) => {
                        let name: Vec<u8> = n.clone();
                        assert(name@ =~= n@);
                        names.push(name);
                    },
                    _ => {
                        return None;
                    },
                }
                i = i + 1;
            }
            assert(name_bytes(names@) =~= all_names(views)->0);
            Some(names)
        },
        _ => None,
    }
}

fn read_params(dict: &PdfDict) -> (r: DecodeParams)
    ensures
        r == stream_params(dict@),
{
    match dict.get("DecodeParms") {
        Some(PdfObject::Dictionary(d)) => DecodeParams {
            predictor: d.integer("Predictor"),
            columns: d.integer("Columns"),
            colors: d.integer("Colors"),
            bits: d.integer("BitsPerComponent"),
            early_change: d.integer("EarlyChange"),
        },
        _ => DecodeParams {
            predictor: None,
            columns: None,
            colors: None,
            bits: None,
            early_change: None,
        },
    }
}

fn decode_with(stream: &PdfStream, params: DecodeParams) -> (r: Option<Vec<u8>>)
    ensures
        bytes_of(r) == decoded_with(stream.dict@, params, stream.content@),
{
    match read_filters(&stream.dict) {
        Some(filters) => {
            let ghost names = name_bytes(filters@);
            if filters.len() == 0 {
                let empty: Vec<u8> = Vec::new();
                assert(empty@ =~= Seq::empty());
                return Some(empty);
            }
            let mut data: Vec<u8> = stream.content.clone();
            assert(data@ =~= stream.content@);
            let mut i: usize = 0;
            assert(names.skip(0) =~= names);
            while i < filters.len()
                invariant
                    i <= filters@.len(),
                    names == name_bytes(filters@),
                    chain_decoded(names, params, stream.content@) == chain_decoded(
                        names.skip(i as int),
                        params,
                        data@,
                    ),
                    stream_filters(stream.dict@) == Some(names),
                    filters@.len() > 0,
                decreases filters@.len() - i,
            {
                assert(names.skip(i as int)[0] == filters@[i as int]@);
                assert(names.skip(i as int).drop_first() =~= names.skip(i + 1));
                match decode_one(&filters[i], &params, &data) {
                    Some(decoded) => {
                        data = decoded;
                    },
                    None => {
                        return None;
                    },
                }
                i = i + 1;
            }
            assert(names.skip(i as int).len() == 0);
            Some(data)
        },
        None => None,
    }
}

/// The content of a stream with its filters undone, in their order.
///
/// `None` where the stream names no filters, or one of them fails or is not
/// supported. One whose sizes or sums cannot be counted fails too.
pub fn decompressed_content(stream: &PdfStream) -> (r: Option<Vec<u8>>)
    ensures
        bytes_of(r) == decompressed(stream.dict@, stream.content@),
{
    decode_with(stream, read_params(&stream.dict))
}

/// As the content with the filters undone, but with rows that a predictor filtered
/// still as they are, each behind its filter type. The decoder itself would undo
/// them by the entries of `DecodeParms`, with at least eight bits to a component; the
/// rows of an image go by its own size.
pub fn unpredicted_content(stream: &PdfStream) -> (r: Option<Vec<u8>>)
    ensures
        bytes_of(r) == unpredicted(stream.dict@, stream.content@),
{
    let params = read_params(&stream.dict);
    decode_with(stream, DecodeParams { predictor: None, ..params })
}

/// Whether the decoders' own arithmetic stays in range when a stream is decoded.
pub fn check_stream(stream: &PdfStream) -> (r: bool)
    ensures
        r == stream_fits(stream.dict@, stream.content@),
{
    let params = read_params(&stream.dict);
    match read_filters(&stream.dict) {
        Some(filters) => {
            let ghost names = name_bytes(filters@);
            let mut data: Vec<u8> = stream.content.clone();
            assert(data@ =~= stream.content@);
            let mut i: usize = 0;
            assert(names.skip(0) =~= names);
            while i < filters.len()
                invariant
                    i <= filters@.len(),
                    names == name_bytes(filters@),
                    chain_fits(names, params, stream.content@) == chain_fits(
                        names.skip(i as int),
                        params,
                        data@,
                    ),
                    stream_filters(stream.dict@) == Some(names),
                    params == stream_params(stream.dict@),
                decreases filters@.len() - i,
            {
                assert(names.skip(i as int)[0] == filters@[i as int]@);
                assert(names.skip(i as int).drop_first() =~= names.skip(i + 1));
                let filter = &filters[i];
                let a85 = spells(filter.as_slice(), "ASCII85Decode");
                if !a85 && !spells(filter.as_slice(), "FlateDecode") && !spells(
                    filter.as_slice(),
                    "LZWDecode",
                ) {
                    return true;
                }
                let fits = if a85 {
                    check_a85_sums(&data)
                } else {
                    params.check_row()
                };
                if !fits {
                    return false;
                }
                match decode_filter(filter, &params, &data) {
                    Some(decoded) => {
                        data = decoded;
                    },
                    None => {
                        return true;
                    },
                }
                i = i + 1;
            }
            assert(names.skip(i as int).len() == 0);
            true
        },
        None => true,
    }
}

/// The decoded content of a stream, or what is stored where it cannot be decoded.
pub open spec fn plain_content(dict: Seq<(Seq<u8>, ObjectView)>, content: Seq<u8>) -> Seq<u8> {
    match decompressed(dict, content) {
        Some(data) => data,
        None => content,
    }
}

/// The decoded content of a stream, or what is stored where it cannot be decoded.
pub fn decompressed_or_stored(stream: &PdfStream) -> (r: Vec<u8>)
    ensures
        r@ == plain_content(stream.dict@, stream.content@),
{
    match decompressed_content(stream) {
        Some(data) => data,
        None => {
            let data: Vec<u8> = stream.content.clone();
            assert(data@ =~= stream.content@);
            data
        },
    }
}

/// The contents of the streams with some ids, one after the other.
pub open spec fn joined_streams(doc: lopdf::Document, ids: Seq<ObjectId>) -> Seq<u8>
    decreases ids.len(),
{
    if ids.len() == 0 {
        Seq::empty()
    } else {
        let before = joined_streams(doc, ids.drop_last());
        match object_at(doc, ids.last()) {
            Some(ObjectView::Stream(dict, content)) => before + plain_content(dict, content),
            _ => before,
        }
    }
}

/// The content of a page: its content streams, decoded where they can be, one
/// after the other.
pub open spec fn page_content(doc: lopdf::Document, page: ObjectId) -> Seq<u8> {
    joined_streams(doc, page_content_ids(doc, page))
}

/// The content of a page.
pub fn get_page_content(doc: &lopdf::Document, page: ObjectId) -> (r: Vec<u8>)
    ensures
        r@ == page_content(*doc, page),
{
    let ids = find_page_contents(doc, page);
    let mut r: Vec<u8> = Vec::new();
    let mut i: usize = 0;
    assert(r@ =~= joined_streams(*doc, ids@.take(0)));
    while i < ids.len()
        invariant
            i <= ids@.len(),
            r@ == joined_streams(*doc, ids@.take(i as int)),
        decreases ids@.len() - i,
    {
        assert(ids@.take(i + 1).drop_last() =~= ids@.take(i as int));
        assert(ids@.take(i + 1).last() == ids@[i as int]);
        if let Some(PdfObject::Stream(stream)) = get_object(doc, ids[i]) {
            let mut data = decompressed_or_stored(&stream);
            r.append(&mut data);
        }
        i = i + 1;
    }
    assert(ids@.take(i as int) =~= ids@);
    r
}

} // verus!
