//! Laws of what is looked up in a document.

use crate::document::{cmap_fits, document_objects, fonts_of, object_at, page_fonts};
use crate::object::{entry, ObjectId, ObjectView};
use crate::streams::stream_fits;
use vstd::prelude::*;
use vstd::utf8::encode_utf8;

verus! {

/// An object is found under its id where the document holds one there, and nothing else is.
pub proof fn law_objects(doc: lopdf::Document, id: ObjectId, o: ObjectView)
    ensures
        object_at(doc, id) == Some(o) <==> document_objects(doc).contains_key(id)
            && document_objects(doc)[id] == o,
        object_at(doc, id) is None <==> !document_objects(doc).contains_key(id),
{
}

/// The fonts of a page are all those that the document finds, and none where it fails.
pub proof fn law_fonts_of_a_page(doc: lopdf::Document, page: ObjectId)
    ensures
        page_fonts(doc, page) matches Some(fonts) ==> fonts_of(doc, page) == fonts,
        page_fonts(doc, page) is None ==> fonts_of(doc, page).len() == 0,
{
}

/// The encoding of a font is always read where it goes by a name other than those of the
/// identities, and where there is no character map in a stream, be it in the font or in
/// the object that the font refers to.
pub proof fn law_encodings_read(doc: lopdf::Document, font: Seq<(Seq<u8>, ObjectView)>)
    ensures
        (entry(font, "Encoding"@) matches Some(ObjectView::Name(n)) && n != encode_utf8(
            "Identity-H"@,
        ) && n != encode_utf8("Identity-V"@)) ==> cmap_fits(doc, font),
        entry(font, "ToUnicode"@) is None ==> cmap_fits(doc, font),
        (entry(font, "ToUnicode"@) matches Some(ObjectView::Reference(id)) && !(object_at(doc, id)
            matches Some(ObjectView::Stream(d, c)))) ==> cmap_fits(doc, font),
        entry(font, "Encoding"@) is None ==> {
            &&& entry(font, "ToUnicode"@) matches Some(ObjectView::Stream(d, c)) ==> (cmap_fits(
                doc,
                font,
            ) <==> stream_fits(d, c))
            &&& entry(font, "ToUnicode"@) matches Some(ObjectView::Reference(id)) ==> (object_at(
                doc,
                id,
            ) matches Some(ObjectView::Stream(d, c)) ==> (cmap_fits(doc, font) <==> stream_fits(
                d,
                c,
            )))
        },
        entry(font, "Encoding"@) == Some(ObjectView::Name(encode_utf8("Identity-H"@))) || entry(
            font,
            "Encoding"@,
        ) == Some(ObjectView::Name(encode_utf8("Identity-V"@))) ==> (entry(font, "ToUnicode"@)
            matches Some(ObjectView::Stream(d, c)) ==> (cmap_fits(doc, font) <==> stream_fits(
            d,
            c,
        ))),
{
}

} // verus!
