//! What the library reads of a `lopdf::Document`.

use crate::object::{entry, ObjectId, ObjectView, PdfDict, PdfObject, PdfStream};
use crate::single::Single;
use crate::streams::stream_fits;
use lopdf::Object;
use vstd::prelude::*;
use vstd::utf8::encode_utf8;

verus! {

#[verifier::external_type_specification]
#[verifier::external_body]
pub struct ExDocument(lopdf::Document);

#[verifier::external_type_specification]
#[verifier::external_body]
pub struct ExObject(lopdf::Object);

#[verifier::external_type_specification]
#[verifier::external_body]
pub struct ExDictionary(lopdf::Dictionary);

/// What an object of `lopdf` holds: its variant and its fields, arrays and
/// dictionaries entry by entry, reals by their bits.
pub uninterp spec fn object_content(o: lopdf::Object) -> ObjectView;

/// The entries of a dictionary of `lopdf`, in their order, each value by what it
/// holds.
pub uninterp spec fn dictionary_content(d: lopdf::Dictionary) -> Seq<(Seq<u8>, ObjectView)>;

/// The objects that `lopdf::Document::get_object` finds, by their ids, with
/// references followed.
pub uninterp spec fn document_objects(doc: lopdf::Document) -> Map<ObjectId, ObjectView>;

/// Reads an object of `lopdf` into plain values, field by field.
///
/// Claimed: the result holds what the object holds.
#[verifier::external_body]
pub(crate) fn read_object(o: &lopdf::Object) -> (r: PdfObject)
    ensures
        r@ == object_content(*o),
{
    match o {
        Object::Null => PdfObject::Null,
        Object::Boolean(b) => PdfObject::Boolean(*b),
        Object::Integer(n) => PdfObject::Integer(*n),
        Object::Real(x) => PdfObject::Real(Single { bits: x.to_bits() }),
        Object::Name(n) => PdfObject::Name(n.clone()),
        Object::String(s, _) => PdfObject::String(s.clone()),
        Object::Array(a) => PdfObject::Array(a.iter().map(read_object).collect()),
        Object::Dictionary(d) => PdfObject::Dictionary(read_dictionary(d)),
        Object::Stream(s) => PdfObject::Stream(PdfStream { dict: read_dictionary(&s.dict), content: s.content.clone() }),
        Object::Reference(id) => PdfObject::Reference(*id),
    }
}

/// Reads a dictionary of `lopdf` into plain values, entry by entry
/// (`lopdf::Dictionary::iter`).
///
/// Claimed: the result holds what the dictionary holds.
#[verifier::external_body]
pub(crate) fn read_dictionary(d: &lopdf::Dictionary) -> (r: PdfDict)
    ensures
        r@ == dictionary_content(*d),
{
    PdfDict { entries: d.iter().map(|(key, value)| (key.clone(), read_object(value))).collect() }
}

/// Calls `lopdf::Document::get_object`.
///
/// Claimed: it finds the objects that the document holds, and no others.
#[verifier::external_body]
pub(crate) fn find_object(doc: &lopdf::Document, id: ObjectId) -> (r: Option<&lopdf::Object>)
    ensures
        r is Some <==> document_objects(*doc).contains_key(id),
        r matches Some(o) ==> object_content(*o) == document_objects(*doc)[id],
{
    doc.get_object(id).ok()
}

/// The object with an id, as the document holds it.
pub open spec fn object_at(doc: lopdf::Document, id: ObjectId) -> Option<ObjectView> {
    if document_objects(doc).contains_key(id) {
        Some(document_objects(doc)[id])
    } else {
        None
    }
}

/// The object with an id, references followed.
pub fn get_object(doc: &lopdf::Document, id: ObjectId) -> (r: Option<PdfObject>)
    ensures
        (match r {
            Some(o) => object_at(*doc, id) == Some(o@),
            None => object_at(*doc, id) is None,
        }),
{
    match find_object(doc, id) {
        Some(o) => Some(read_object(o)),
        None => None,
    }
}

/// The fonts that `lopdf::Document::get_page_fonts` finds for a page, by their
/// resource names in ascending order; `None` where it fails.
pub uninterp spec fn page_fonts(doc: lopdf::Document, page: ObjectId) -> Option<
    Seq<(Seq<u8>, Seq<(Seq<u8>, ObjectView)>)>,
>;

/// The ids that `lopdf::Document::get_page_contents` finds for a page, in order.
pub uninterp spec fn page_content_ids(doc: lopdf::Document, page: ObjectId) -> Seq<ObjectId>;

/// Calls `lopdf::Document::get_page_fonts`.
///
/// Claimed: the names and dictionaries are those of the page's fonts, in order.
#[verifier::external_body]
pub(crate) fn find_page_fonts(doc: &lopdf::Document, page: ObjectId) -> (r: Option<
    Vec<(Vec<u8>, &lopdf::Dictionary)>,
>)
    ensures
        r is None <==> page_fonts(*doc, page) is None,
        r matches Some(fonts) ==> fonts@.len() == page_fonts(*doc, page)->0.len() && forall|i: int|
            0 <= i < fonts@.len() ==> (#[trigger] fonts@[i]).0@ == page_fonts(*doc, page)->0[i].0
                && dictionary_content(*fonts@[i].1) == page_fonts(*doc, page)->0[i].1,
{
    doc.get_page_fonts(page).ok().map(|fonts| fonts.into_iter().collect())
}

/// Calls `lopdf::Document::get_page_contents`.
///
/// Claimed: the result is the list of ids under its name.
#[verifier::external_body]
pub(crate) fn find_page_contents(doc: &lopdf::Document, page: ObjectId) -> (r: Vec<ObjectId>)
    ensures
        r@ == page_content_ids(*doc, page),
{
    doc.get_page_contents(page)
}

/// The fonts of a page, none where they cannot be found.
pub open spec fn fonts_of(doc: lopdf::Document, page: ObjectId) -> Seq<
    (Seq<u8>, Seq<(Seq<u8>, ObjectView)>),
> {
    match page_fonts(doc, page) {
        Some(fonts) => fonts,
        None => Seq::empty(),
    }
}

/// Fonts by what they hold.
pub open spec fn font_views(fonts: Seq<(Vec<u8>, &lopdf::Dictionary)>) -> Seq<
    (Seq<u8>, Seq<(Seq<u8>, ObjectView)>),
> {
    Seq::new(fonts.len(), |i: int| (fonts[i].0@, dictionary_content(*fonts[i].1)))
}

/// The fonts of a page: resource names and font dictionaries.
pub fn get_page_fonts(doc: &lopdf::Document, page: ObjectId) -> (r: Vec<
    (Vec<u8>, &lopdf::Dictionary),
>)
    ensures
        font_views(r@) == fonts_of(*doc, page),
{
    match find_page_fonts(doc, page) {
        Some(fonts) => {
            assert(font_views(fonts@) =~= fonts_of(*doc, page));
            fonts
        },
        None => {
            let none: Vec<(Vec<u8>, &lopdf::Dictionary)> = Vec::new();
            assert(font_views(none@) =~= fonts_of(*doc, page));
            none
        },
    }
}

#[verifier::external_type_specification]
#[verifier::external_body]
pub struct ExEncoding<'a>(lopdf::Encoding<'a>);

#[verifier::external_type_specification]
#[verifier::external_body]
pub struct ExError(lopdf::Error);

/// Whether `lopdf::Dictionary::get_font_encoding` finds an encoding for a font.
pub uninterp spec fn has_encoding(
    doc: lopdf::Document,
    font: Seq<(Seq<u8>, ObjectView)>,
) -> bool;

/// `lopdf::Dictionary::get_font_encoding`: the encoding of a font.
///
/// Claimed: whether there is one depends on the document and the font dictionary
/// alone, under the name `has_encoding`. Of the encoding itself nothing is said: it
/// is only handed on. A character map that it reads has to have filters whose
/// arithmetic stays in range.
pub assume_specification<'a>[ lopdf::Dictionary::get_font_encoding ](
    font: &'a lopdf::Dictionary,
    doc: &lopdf::Document,
) -> (r: Result<lopdf::Encoding<'a>, lopdf::Error>)
    requires
        cmap_fits(*doc, dictionary_content(*font)),
    ensures
        r is Ok <==> has_encoding(*doc, dictionary_content(*font)),
;

/// The object that the `ToUnicode` entry of a font is or points to.
pub open spec fn to_unicode(doc: lopdf::Document, font: Seq<(Seq<u8>, ObjectView)>) -> Option<
    ObjectView,
> {
    match entry(font, "ToUnicode"@) {
        Some(ObjectView::Reference(id)) => object_at(doc, id),
        other => other,
    }
}

/// Whether the encoding of a font is read from its character map: its encoding is
/// an identity, or has no name.
pub open spec fn reads_cmap(font: Seq<(Seq<u8>, ObjectView)>) -> bool {
    match entry(font, "Encoding"@) {
        Some(ObjectView::Name(n)) => n == encode_utf8("Identity-H"@) || n == encode_utf8(
            "Identity-V"@,
        ),
        _ => true,
    }
}

/// Whether the character map of a font, where its encoding is read from that and it
/// is a stream, can be decoded with the decoder's own arithmetic in range.
pub open spec fn cmap_fits(doc: lopdf::Document, font: Seq<(Seq<u8>, ObjectView)>) -> bool {
    reads_cmap(font) ==> match to_unicode(doc, font) {
        Some(ObjectView::Stream(dict, content)) => stream_fits(dict, content),
        _ => true,
    }
}

} // verus!
