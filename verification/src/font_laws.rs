//! Laws of the tables of fonts.

use crate::document::{cmap_fits, dictionary_content, font_views, has_encoding};
use crate::fonts::{
    font_answered, tables_answered, tables_of, FontReply, FontTablesView,
};
use crate::object::{entry, ObjectView, PdfDict};
use crate::services::PageServices;
use crate::streams::plain_content;
use crate::texts::utf8_lossy;
use vstd::prelude::*;

verus! {

/// A font goes by its resource name: under it stand the name under `BaseFont`, the number
/// of the object that `ToUnicode` refers to, the character map in a `ToUnicode` stream,
/// and the encoding. A font without `ToUnicode` has the number of its font file instead,
/// where that is known. Nothing stands under any other name that did not before.
pub proof fn law_font_added<'a, C>(
    t: FontTablesView<'a, C>,
    name: Seq<u8>,
    font: Seq<(Seq<u8>, ObjectView)>,
    reply: FontReply<'a, C>,
)
    ensures
        ({
            let w = t.with_font(name, font, reply);
            let key = utf8_lossy(name);
            let base = entry(font, "BaseFont"@);
            let map = entry(font, "ToUnicode"@);
            &&& base matches Some(ObjectView::Name(n)) ==> w.base_names == t.base_names.insert(
                key,
                utf8_lossy(n),
            )
            &&& !(base matches Some(ObjectView::Name(n))) ==> w.base_names == t.base_names
            &&& map matches Some(ObjectView::Reference(id)) ==> w.tounicode_refs
                == t.tounicode_refs.insert(key, id.0)
            &&& map is None && reply.font_file is Some ==> w.tounicode_refs
                == t.tounicode_refs.insert(key, reply.font_file->0)
            &&& map is None && reply.font_file is None ==> w.tounicode_refs == t.tounicode_refs
            &&& map is Some && !(map matches Some(ObjectView::Reference(id))) ==> w.tounicode_refs
                == t.tounicode_refs
            &&& map matches Some(ObjectView::Stream(d, c)) ==> (reply.cmap is Some
                ==> w.inline_cmaps == t.inline_cmaps.insert(key, reply.cmap->0))
            &&& !(map matches Some(ObjectView::Stream(d, c))) || reply.cmap is None
                ==> w.inline_cmaps == t.inline_cmaps
            &&& reply.encoding matches Some(e) ==> w.encodings == t.encodings.insert(key, e)
            &&& reply.encoding is None ==> w.encodings == t.encodings
        }),
{
}

/// The tables of a page start empty, and its fonts are added in their order, each with the
/// answers for it.
pub proof fn law_fonts_in_order<'a, C>(
    fonts: Seq<(Seq<u8>, Seq<(Seq<u8>, ObjectView)>)>,
    replies: Seq<FontReply<'a, C>>,
    name: Seq<u8>,
    font: Seq<(Seq<u8>, ObjectView)>,
)
    requires
        replies.len() > fonts.len(),
    ensures
        ({
            let none = tables_of(Seq::empty(), replies);
            &&& forall|k: Seq<char>| !none.base_names.contains_key(k)
            &&& forall|k: Seq<char>| !none.tounicode_refs.contains_key(k)
            &&& forall|k: Seq<char>| !none.inline_cmaps.contains_key(k)
            &&& forall|k: Seq<char>| !none.encodings.contains_key(k)
        }),
        tables_of(fonts.push((name, font)), replies) == tables_of(fonts, replies).with_font(
            name,
            font,
            replies[fonts.len() as int],
        ),
{
    assert(fonts.push((name, font)).drop_last() =~= fonts);
}

/// What is answered for a font: the services are asked for its font file where it has no
/// `ToUnicode`, and for the character map in the data of a `ToUnicode` stream, decoded
/// where they can be; the document is asked for its encoding, where it can be read.
pub proof fn law_font_asks<'a, S: PageServices>(
    services: &S,
    doc: &lopdf::Document,
    font: &'a lopdf::Dictionary,
    reply: FontReply<'a, S::CMap>,
)
    requires
        font_answered(services, doc, font, reply),
    ensures
        ({
            let held = dictionary_content(*font);
            let map = entry(held, "ToUnicode"@);
            &&& map is None ==> exists|dict: PdfDict|
                dict@ == held && #[trigger] call_ensures(
                    S::font_file_number,
                    (services, &dict),
                    reply.font_file,
                )
            &&& map matches Some(ObjectView::Stream(d, c)) ==> exists|data: Vec<u8>, dict: PdfDict|
                data@ == plain_content(d, c) && dict@ == held && #[trigger] call_ensures(
                    S::cmap_entry,
                    (services, &data, &dict),
                    reply.cmap,
                )
            &&& cmap_fits(*doc, held) ==> (reply.encoding is Some <==> has_encoding(*doc, held))
            &&& !cmap_fits(*doc, held) ==> reply.encoding is None
        }),
{
}

/// The tables of the fonts of a page hold a font's own name under its resource name, that
/// of the last one where several share it.
pub proof fn law_base_names<'a, S: PageServices>(
    services: &S,
    doc: &lopdf::Document,
    fonts: Seq<(Vec<u8>, &'a lopdf::Dictionary)>,
    tables: FontTablesView<'a, S::CMap>,
    i: int,
    name: Seq<u8>,
)
    requires
        tables_answered(services, doc, fonts, tables),
        0 <= i < fonts.len(),
        entry(dictionary_content(*fonts[i].1), "BaseFont"@) == Some(ObjectView::Name(name)),
        forall|j: int|
            i < j < fonts.len() ==> utf8_lossy((#[trigger] fonts[j]).0@) != utf8_lossy(
                fonts[i].0@,
            ),
    ensures
        tables.base_names.contains_key(utf8_lossy(fonts[i].0@)),
        tables.base_names[utf8_lossy(fonts[i].0@)] == utf8_lossy(name),
        tables.base_name(utf8_lossy(fonts[i].0@)) == utf8_lossy(name),
{
    let replies = choose|replies: Seq<FontReply<'a, S::CMap>>|
        {
            &&& replies.len() == fonts.len()
            &&& forall|k: int|
                0 <= k < fonts.len() ==> font_answered(
                    services,
                    doc,
                    fonts[k].1,
                    #[trigger] replies[k],
                )
            &&& tables == #[trigger] tables_of(font_views(fonts), replies)
        };
    let views = font_views(fonts);
    assert forall|j: int| i < j < views.len() implies utf8_lossy((#[trigger] views[j]).0)
        != utf8_lossy(views[i].0) by {
        assert(views[j].0 == fonts[j].0@);
    }
    lemma_base_name(views, replies, i, name);
}

proof fn lemma_base_name<'a, C>(
    fonts: Seq<(Seq<u8>, Seq<(Seq<u8>, ObjectView)>)>,
    replies: Seq<FontReply<'a, C>>,
    i: int,
    name: Seq<u8>,
)
    requires
        0 <= i < fonts.len(),
        entry(fonts[i].1, "BaseFont"@) == Some(ObjectView::Name(name)),
        forall|j: int|
            i < j < fonts.len() ==> utf8_lossy((#[trigger] fonts[j]).0) != utf8_lossy(fonts[i].0),
    ensures
        tables_of(fonts, replies).base_names.contains_key(utf8_lossy(fonts[i].0)),
        tables_of(fonts, replies).base_names[utf8_lossy(fonts[i].0)] == utf8_lossy(name),
    decreases fonts.len(),
{
    let front = fonts.drop_last();
    if i < front.len() {
        assert(front[i] == fonts[i]);
        assert forall|j: int| i < j < front.len() implies utf8_lossy((#[trigger] front[j]).0)
            != utf8_lossy(front[i].0) by {
            assert(front[j] == fonts[j]);
        }
        lemma_base_name(front, replies, i, name);
        assert(fonts[fonts.len() - 1] == fonts.last());
    }
}

} // verus!
