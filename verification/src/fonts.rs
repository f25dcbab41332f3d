//! The fonts of a page: their names and where their character maps are.

use crate::bytes::spells;
use crate::document::{
    cmap_fits, dictionary_content, font_views, get_object, read_dictionary,
};
use crate::object::{entry, ObjectView, PdfDict, PdfObject};
use crate::services::PageServices;
use crate::streams::{check_stream, decompressed_or_stored, plain_content};
use crate::text_map::TextMap;
use crate::texts::{text_of, utf8_lossy};
use vstd::prelude::*;

verus! {

/// What is known of the fonts of a page, by their resource names.
pub struct FontTables<'a, C> {
    /// The names of the fonts themselves.
    pub base_names: TextMap<String>,
    /// The objects that hold character maps.
    pub tounicode_refs: TextMap<u32>,
    /// Character maps that stand in the font dictionaries.
    pub inline_cmaps: TextMap<C>,
    /// The encodings of the fonts.
    pub encodings: TextMap<lopdf::Encoding<'a>>,
}

/// What `FontTables` hold.
#[verifier::reject_recursive_types(C)]
#[verifier::ext_equal]
pub struct FontTablesView<'a, C> {
    pub base_names: Map<Seq<char>, Seq<char>>,
    pub tounicode_refs: Map<Seq<char>, u32>,
    pub inline_cmaps: Map<Seq<char>, C>,
    pub encodings: Map<Seq<char>, lopdf::Encoding<'a>>,
}

impl<'a, C> View for FontTables<'a, C> {
    type V = FontTablesView<'a, C>;

    open spec fn view(&self) -> FontTablesView<'a, C> {
        FontTablesView {
            base_names: self.base_names@.map_values(|s: String| s@),
            tounicode_refs: self.tounicode_refs@,
            inline_cmaps: self.inline_cmaps@,
            encodings: self.encodings@,
        }
    }
}

/// What the surroundings answer for a font: its font file, where it has no
/// character map, the character map in it, and its encoding.
pub struct FontReply<'a, C> {
    pub font_file: Option<u32>,
    pub cmap: Option<C>,
    pub encoding: Option<lopdf::Encoding<'a>>,
}

impl<'a, C> FontTablesView<'a, C> {
    /// The tables with one more font.
    pub open spec fn with_font(
        self,
        name: Seq<u8>,
        font: Seq<(Seq<u8>, ObjectView)>,
        reply: FontReply<'a, C>,
    ) -> FontTablesView<'a, C> {
        let resource = utf8_lossy(name);
        let to_unicode = entry(font, "ToUnicode"@);
        FontTablesView {
            base_names: match entry(font, "BaseFont"@) {
                Some(ObjectView::Name(n)) => self.base_names.insert(resource, utf8_lossy(n)),
                _ => self.base_names,
            },
            tounicode_refs: match to_unicode {
                Some(ObjectView::Reference(id)) => self.tounicode_refs.insert(resource, id.0),
                None if reply.font_file is Some => self.tounicode_refs.insert(
                    resource,
                    reply.font_file->0,
                ),
                _ => self.tounicode_refs,
            },
            inline_cmaps: match to_unicode {
                Some(ObjectView::Stream(_, _)) if reply.cmap is Some => self.inline_cmaps.insert(
                    resource,
                    reply.cmap->0,
                ),
                _ => self.inline_cmaps,
            },
            encodings: match reply.encoding {
                Some(e) => self.encodings.insert(resource, e),
                None => self.encodings,
            },
        }
    }

    /// The name of a font by its resource name, or that itself.
    pub open spec fn base_name(self, font: Seq<char>) -> Seq<char> {
        if self.base_names.contains_key(font) {
            self.base_names[font]
        } else {
            font
        }
    }
}

/// The tables of some fonts, in their order.
pub open spec fn tables_of<'a, C>(
    fonts: Seq<(Seq<u8>, Seq<(Seq<u8>, ObjectView)>)>,
    replies: Seq<FontReply<'a, C>>,
) -> FontTablesView<'a, C>
    decreases fonts.len(),
{
    if fonts.len() == 0 {
        FontTablesView {
            base_names: Map::empty(),
            tounicode_refs: Map::empty(),
            inline_cmaps: Map::empty(),
            encodings: Map::empty(),
        }
    } else {
        tables_of(fonts.drop_last(), replies).with_font(
            fonts.last().0,
            fonts.last().1,
            replies[fonts.len() - 1],
        )
    }
}

/// Whether an encoding is what the document gives for a font. A font whose encoding
/// is read from a character map that cannot be decoded within the range of the
/// arithmetic has none.
pub open spec fn encoding_answered<'a>(
    doc: &lopdf::Document,
    font: &'a lopdf::Dictionary,
    encoding: Option<lopdf::Encoding<'a>>,
) -> bool {
    if cmap_fits(*doc, dictionary_content(*font)) {
        exists|found: Result<lopdf::Encoding<'a>, lopdf::Error>|
            #[trigger] call_ensures(lopdf::Dictionary::get_font_encoding, (font, doc), found)
                && match found {
                Ok(e) => encoding == Some(e),
                Err(_) => encoding is None,
            }
    } else {
        encoding is None
    }
}

/// Whether a reply is what the services and the document answer for a font.
pub open spec fn font_answered<'a, S: PageServices>(
    services: &S,
    doc: &lopdf::Document,
    font: &'a lopdf::Dictionary,
    reply: FontReply<'a, S::CMap>,
) -> bool {
    &&& match entry(dictionary_content(*font), "ToUnicode"@) {
        None => exists|dict: PdfDict|
            dict@ == dictionary_content(*font) && #[trigger] call_ensures(
                S::font_file_number,
                (services, &dict),
                reply.font_file,
            ),
        Some(ObjectView::Stream(stream, content)) => exists|data: Vec<u8>, dict: PdfDict|
            data@ == plain_content(stream, content) && dict@ == dictionary_content(*font)
                && #[trigger] call_ensures(S::cmap_entry, (services, &data, &dict), reply.cmap),
        _ => true,
    }
    &&& encoding_answered(doc, font, reply.encoding)
}

fn check_cmap(doc: &lopdf::Document, font: &PdfDict) -> (r: bool)
    ensures
        r == cmap_fits(*doc, font@),
{
    if let Some(PdfObject::Name(n)) = font.get("Encoding") {
        if !spells(n.as_slice(), "Identity-H") && !spells(n.as_slice(), "Identity-V") {
            return true;
        }
    }
    match font.get("ToUnicode") {
        Some(PdfObject::Reference(id)) => match get_object(doc, *id) {
            Some(PdfObject::Stream(stream)) => check_stream(&stream),
            _ => true,
        },
        Some(PdfObject::Stream(stream)) => check_stream(stream),
        _ => true,
    }
}

fn ask_encoding<'a>(doc: &lopdf::Document, font: &'a lopdf::Dictionary, dict: &PdfDict) -> (r: Option<
    lopdf::Encoding<'a>,
>)
    requires
        dict@ == dictionary_content(*font),
    ensures
        encoding_answered(doc, font, r),
{
    if check_cmap(doc, dict) {
        let found = font.get_font_encoding(doc);
        let ghost answer = found;
        assert(call_ensures(lopdf::Dictionary::get_font_encoding, (font, doc), answer));
        match found {
            Ok(e) => Some(e),
            Err(_) => None,
        }
    } else {
        None
    }
}

fn ask_font<'a, S: PageServices>(
    services: &S,
    doc: &lopdf::Document,
    font: &'a lopdf::Dictionary,
    dict: &PdfDict,
) -> (r: FontReply<'a, S::CMap>)
    requires
        dict@ == dictionary_content(*font),
    ensures
        font_answered(services, doc, font, r),
{
    let encoding = ask_encoding(doc, font, dict);
    match dict.get("ToUnicode") {
        None => {
            let font_file = services.font_file_number(dict);
            assert(call_ensures(S::font_file_number, (services, dict), font_file));
            FontReply { font_file, cmap: None, encoding }
        },
        Some(PdfObject::Stream(stream)) => {
            let data = decompressed_or_stored(stream);
            let cmap = services.cmap_entry(&data, dict);
            assert(call_ensures(S::cmap_entry, (services, &data, dict), cmap));
            FontReply { font_file: None, cmap, encoding }
        },
        _ => FontReply { font_file: None, cmap: None, encoding },
    }
}

impl<'a, C> FontTables<'a, C> {
    /// No fonts.
    pub fn new() -> (r: FontTables<'a, C>)
        ensures
            r@ == tables_of::<C>(Seq::empty(), Seq::empty()),
    {
        let r = FontTables {
            base_names: TextMap::new(),
            tounicode_refs: TextMap::new(),
            inline_cmaps: TextMap::new(),
            encodings: TextMap::new(),
        };
        assert(r@ =~= tables_of::<C>(Seq::empty(), Seq::empty()));
        r
    }

    /// Adds a font: its name, and its character map in another object, in its font
    /// file or in the dictionary itself.
    pub fn add_font(&mut self, name: &Vec<u8>, font: &PdfDict, reply: FontReply<'a, C>)
        ensures
            final(self)@ == old(self)@.with_font(name@, font@, reply),
    {
        if let Some(e) = reply.encoding {
            self.encodings.insert(text_of(name), e);
        }
        if let Some(PdfObject::Name(n)) = font.get("BaseFont") {
            let base = text_of(n);
            self.base_names.insert(text_of(name), base);
        }
        match font.get("ToUnicode") {
            Some(PdfObject::Reference(id)) => {
                self.tounicode_refs.insert(text_of(name), id.0);
            },
            Some(PdfObject::Stream(_)) => {
                if let Some(cmap) = reply.cmap {
                    self.inline_cmaps.insert(text_of(name), cmap);
                }
            },
            Some(_) => {},
            None => {
                if let Some(n) = reply.font_file {
                    self.tounicode_refs.insert(text_of(name), n);
                }
            },
        }
        assert(self@ =~= old(self)@.with_font(name@, font@, reply));
    }

    /// The name of a font by its resource name, or that itself.
    pub fn find_base_name<'b>(&'b self, font: &'b String) -> (r: &'b String)
        ensures
            r@ == self@.base_name(font@),
    {
        match self.base_names.get(font) {
            Some(name) => name,
            None => font,
        }
    }
}

/// Whether tables are those of some fonts, with the answers for them.
pub open spec fn tables_answered<'a, S: PageServices>(
    services: &S,
    doc: &lopdf::Document,
    fonts: Seq<(Vec<u8>, &'a lopdf::Dictionary)>,
    tables: FontTablesView<'a, S::CMap>,
) -> bool {
    exists|replies: Seq<FontReply<'a, S::CMap>>|
        {
            &&& replies.len() == fonts.len()
            &&& forall|i: int|
                0 <= i < fonts.len() ==> font_answered(
                    services,
                    doc,
                    fonts[i].1,
                    #[trigger] replies[i],
                )
            &&& tables == #[trigger] tables_of(font_views(fonts), replies)
        }
}

/// Builds the tables of the fonts of a page.
pub fn build_font_tables<'a, S: PageServices>(
    services: &S,
    doc: &lopdf::Document,
    fonts: &Vec<(Vec<u8>, &'a lopdf::Dictionary)>,
) -> (r: FontTables<'a, S::CMap>)
    ensures
        tables_answered(services, doc, fonts@, r@),
{
    let ghost views = font_views(fonts@);
    let mut tables: FontTables<'a, S::CMap> = FontTables::new();
    let ghost mut replies: Seq<FontReply<'a, S::CMap>> = Seq::empty();
    let mut i: usize = 0;
    assert(views.take(0) =~= Seq::empty());
    while i < fonts.len()
        invariant
            i <= fonts@.len(),
            views == font_views(fonts@),
            replies.len() == i,
            forall|j: int|
                0 <= j < i ==> font_answered(services, doc, fonts@[j].1, #[trigger] replies[j]),
            tables@ == tables_of(views.take(i as int), replies),
        decreases fonts@.len() - i,
    {
        let dict = read_dictionary(fonts[i].1);
        let reply = ask_font(services, doc, fonts[i].1, &dict);
        let ghost next = replies.push(reply);
        proof {
            lemma_tables_extend(views.take(i as int), replies, next);
            assert(views.take(i + 1).drop_last() =~= views.take(i as int));
            assert(views.take(i + 1).last() == views[i as int]);
            replies = next;
        }
        tables.add_font(&fonts[i].0, &dict, reply);
        i = i + 1;
    }
    assert(views.take(i as int) =~= views);
    tables
}

/// The tables of some fonts depend on no more replies than there are fonts.
proof fn lemma_tables_extend<'a, C>(
    fonts: Seq<(Seq<u8>, Seq<(Seq<u8>, ObjectView)>)>,
    replies: Seq<FontReply<'a, C>>,
    more: Seq<FontReply<'a, C>>,
)
    requires
        fonts.len() <= replies.len() <= more.len(),
        forall|i: int| 0 <= i < replies.len() ==> replies[i] == more[i],
    ensures
        tables_of(fonts, replies) == tables_of(fonts, more),
    decreases fonts.len(),
{
    if fonts.len() > 0 {
        lemma_tables_extend(fonts.drop_last(), replies, more);
    }
}

} // verus!
