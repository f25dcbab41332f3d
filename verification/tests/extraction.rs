use lopdf::{Dictionary, Document, Object, Stream};
use pdf_extractor::comments::strip_pdf_comments;
use pdf_extractor::content::{decode_operations, PdfError};
use pdf_extractor::document::get_page_fonts;
use pdf_extractor::extraction::{
    extract_operations, extract_page_text_and_images, extract_page_text_items, PageExtraction,
    PageResources, Request,
};
use pdf_extractor::fonts::{build_font_tables, FontReply, FontTables};
use pdf_extractor::geometry::{ItemType, Matrix, TextItem};
use pdf_extractor::images::ExtractedImage;
use pdf_extractor::inline_images::check_images;
use pdf_extractor::object::{ObjectId, Operation, PdfDict, PdfObject, PdfStream};
use pdf_extractor::replies::XObjectType;
use pdf_extractor::services::PageServices;
use pdf_extractor::shows::FontMetrics;
use pdf_extractor::single::Single;
use pdf_extractor::streams::get_page_content;
use pdf_extractor::text_map::TextMap;
use std::cell::RefCell;

fn s(x: f32) -> Single {
    Single { bits: x.to_bits() }
}

fn f(x: Single) -> f32 {
    f32::from_bits(x.bits)
}

/// Services that are easy to follow: every byte of a string is a character, five
/// units wide, in fonts whose names start with F.
struct Plain {
    asked: RefCell<Vec<String>>,
}

impl Plain {
    fn new() -> Plain {
        Plain { asked: RefCell::new(vec![]) }
    }
}

impl PageServices for Plain {
    type CMap = String;

    fn font_file_number(&self, _font: &PdfDict) -> Option<u32> {
        Some(77)
    }

    fn cmap_entry(&self, data: &Vec<u8>, _font: &PdfDict) -> Option<String> {
        Some(String::from_utf8_lossy(data).to_string())
    }

    fn font_metrics(&self, font: &String) -> Option<FontMetrics> {
        if font.starts_with('F') {
            Some(FontMetrics { space_width: 250, units_scale: s(0.001) })
        } else {
            None
        }
    }

    fn string_width(
        &self,
        bytes: &Vec<u8>,
        _font: &String,
        _size: Single,
        char_spacing: Single,
        _word_spacing: Single,
    ) -> Single {
        s(bytes.len() as f32 * (5.0 + f(char_spacing)))
    }

    fn operand_text(
        &self,
        operand: &PdfObject,
        font: &String,
        tables: &FontTables<'_, String>,
    ) -> Option<String> {
        let cmap = tables.inline_cmaps.get(font);
        self.asked.borrow_mut().push(font.clone());
        match operand {
            PdfObject::String(b) => {
                let text = String::from_utf8_lossy(b).to_string();
                Some(match cmap {
                    Some(prefix) => format!("{}{}", prefix, text),
                    None => text,
                })
            }
            _ => None,
        }
    }

    fn text_string(&self, bytes: &Vec<u8>) -> String {
        String::from_utf8_lossy(bytes).to_string()
    }

    fn form_items(&self, form: ObjectId, page: u32, ctm: &Matrix) -> Vec<TextItem> {
        vec![TextItem {
            text: format!("form {}", form.0),
            x: ctm.e,
            y: ctm.f,
            width: s(1.0),
            height: s(1.0),
            font: String::new(),
            font_size: s(1.0),
            page,
            is_bold: false,
            is_italic: false,
            item_type: ItemType::Text,
            mcid: None,
        }]
    }

    fn rendered_size(&self, size: Single, matrix: &Matrix) -> Single {
        s(f(size) * f(matrix.d))
    }

    fn expand_ligatures(&self, text: &String) -> String {
        text.replace('\u{fb01}', "fi")
    }

    fn is_bold(&self, font: &String) -> bool {
        font.contains("Bold")
    }

    fn is_italic(&self, font: &String) -> bool {
        font.contains("Italic")
    }

    fn merge_text_items(&self, items: Vec<TextItem>) -> Vec<TextItem> {
        self.asked.borrow_mut().push("merge".to_string());
        items
    }

    fn merge_subscript_items(&self, items: Vec<TextItem>) -> Vec<TextItem> {
        self.asked.borrow_mut().push("subscripts".to_string());
        items
    }
}

fn no_resources() -> PageResources {
    PageResources { xobjects: TextMap::new(), has_gid_fonts: false }
}

/// A document with one page of some content, with fonts.
fn document(content: &[u8]) -> (Document, ObjectId) {
    let mut doc = Document::new();
    let content_id = doc.add_object(Object::Stream(Stream::new(Dictionary::new(), content.to_vec())));
    let mut bold = Dictionary::new();
    bold.set("BaseFont", Object::Name(b"Times-Bold".to_vec()));
    let mut inline = Dictionary::new();
    inline.set("ToUnicode", Object::Stream(Stream::new(Dictionary::new(), b">".to_vec())));
    let mut fonts = Dictionary::new();
    fonts.set("F1", Object::Dictionary(bold));
    fonts.set("F2", Object::Dictionary(inline));
    let mut resources = Dictionary::new();
    resources.set("Font", Object::Dictionary(fonts));
    let mut page = Dictionary::new();
    page.set("Type", Object::Name(b"Page".to_vec()));
    page.set("Contents", Object::Reference(content_id));
    page.set("Resources", Object::Dictionary(resources));
    let page_id = doc.add_object(page);
    (doc, page_id)
}

fn extract(content: &[u8]) -> (PageExtraction, Vec<ExtractedImage>, bool, bool) {
    let (doc, page_id) = document(content);
    match extract_page_text_items(&doc, page_id, 5, &Plain::new(), &no_resources(), false) {
        Ok(found) => found,
        Err(PdfError::Parse(text)) => panic!("{}", text),
    }
}

#[test]
fn test_skip_excessive_operations() {
    let mut doc = lopdf::Document::new();

    // "0 0 m\n" = 6 bytes per op, 1_100_000 ops → ~6.6 MB content stream
    let ops_bytes = "0 0 m\n".repeat(1_100_000).into_bytes();
    let stream = Stream::new(Dictionary::new(), ops_bytes);
    let content_id = doc.add_object(Object::Stream(stream));

    let mut page_dict = Dictionary::new();
    page_dict.set("Type", "Page");
    page_dict.set("Contents", Object::Reference(content_id));
    page_dict.set("Resources", Dictionary::new());
    let media_box: Vec<Object> = vec![0.into(), 0.into(), 612.into(), 792.into()];
    page_dict.set("MediaBox", media_box);
    let page_id = doc.add_object(page_dict);

    // Register the page so get_page_content can find it
    let mut pages_dict = Dictionary::new();
    pages_dict.set("Type", "Pages");
    pages_dict.set("Count", Object::Integer(1));
    pages_dict.set("Kids", vec![Object::Reference(page_id)]);
    let pages_id = doc.add_object(pages_dict);
    let mut catalog = Dictionary::new();
    catalog.set("Type", "Catalog");
    catalog.set("Pages", Object::Reference(pages_id));
    doc.add_object(catalog);

    // All of the stream is read, stripped and looked through
    let content = get_page_content(&doc, page_id);
    assert_eq!(content.len(), 6_600_000);
    let content = strip_pdf_comments(&content);
    assert_eq!(content.len(), 6_600_000);
    assert!(check_images(&content));

    // The operations are all the same: the first 110_000 of them stand for ten times
    // as many, which take the parser too long in an unoptimized build
    let parsed = match decode_operations(&content[..660_000].to_vec()) {
        Ok(operations) => operations,
        Err(PdfError::Parse(text)) => panic!("{}", text),
    };
    assert_eq!(parsed.len(), 110_000);
    let is_move = |op: &Operation| {
        op.operator == "m"
            && matches!(op.operands[..], [PdfObject::Integer(0), PdfObject::Integer(0)])
    };
    assert!(parsed.iter().all(is_move));
    let operations: Vec<Operation> = (0..1_100_000)
        .map(|i| Operation {
            operator: parsed[i % 110_000].operator.clone(),
            operands: vec![PdfObject::Integer(0), PdfObject::Integer(0)],
        })
        .collect();

    let services = Plain::new();
    let request = Request {
        doc: &doc,
        page_id,
        page_num: 1,
        services: &services,
        resources: &no_resources(),
        include_invisible: false,
        extract_images: false,
    };
    let ((items, rects, lines), _images, _has_gid, _coords_rotated) =
        extract_operations(&request, &operations);
    assert!(items.is_empty());
    assert!(rects.is_empty());
    assert!(lines.is_empty());
    assert!(services.asked.borrow().is_empty());
}

#[test]
fn a_page_above_the_limit_is_skipped() {
    let content = "n\n".repeat(1_000_001).into_bytes();
    let (doc, page_id) = document(&content);
    let services = Plain::new();
    let resources = PageResources { xobjects: TextMap::new(), has_gid_fonts: true };
    let found = extract_page_text_items(&doc, page_id, 5, &services, &resources, false);
    let Ok(((items, rects, lines), images, has_gid, rotated)) = found else {
        panic!("a page");
    };
    assert!(items.is_empty() && rects.is_empty() && lines.is_empty() && images.is_empty());
    assert!(has_gid && !rotated);
    assert!(services.asked.borrow().is_empty());
}

#[test]
fn a_million_operations_are_not_too_many() {
    let (doc, page_id) = document(b"");
    let services = Plain::new();
    let resources = PageResources { xobjects: TextMap::new(), has_gid_fonts: true };
    let request = Request {
        doc: &doc,
        page_id,
        page_num: 1,
        services: &services,
        resources: &resources,
        include_invisible: false,
        extract_images: false,
    };
    let operation = |operator: &str| Operation { operator: operator.to_string(), operands: vec![] };
    for (n, walked) in [(1_000_000usize, true), (1_000_001, false)] {
        let mut operations: Vec<Operation> = (1..n).map(|_| operation("n")).collect();
        operations.push(Operation {
            operator: "re".to_string(),
            operands: (1..5).map(PdfObject::Integer).collect(),
        });
        let ((_, rects, _), _, has_gid, _) = extract_operations(&request, &operations);
        assert_eq!(rects.len(), walked as usize);
        assert!(has_gid);
    }
}

#[test]
fn a_page_with_text() {
    let content = b"% a comment (\nBT /F1 10 Tf 1 0 0 2 50 60 Tm (Hello) Tj /X1 8 Tf 0 -12 Td (\xef\xac\x81n) Tj ET";
    let ((items, rects, lines), images, has_gid, rotated) = extract(content);
    assert_eq!(items.len(), 2);
    assert_eq!(items[0].text, "Hello");
    assert_eq!((f(items[0].x), f(items[0].y), f(items[0].width)), (50.0, 60.0, 25.0));
    assert_eq!((f(items[0].height), f(items[0].font_size)), (20.0, 20.0));
    assert_eq!((items[0].font.as_str(), items[0].page), ("F1", 5));
    assert_eq!((items[0].is_bold, items[0].is_italic), (true, false));
    assert_eq!(items[0].item_type, ItemType::Text);
    // An unknown font has no width, and its own name tells its face.
    assert_eq!(items[1].text, "fin");
    assert_eq!((f(items[1].y), f(items[1].width), items[1].is_bold), (36.0, 0.0, false));
    assert!(rects.is_empty() && lines.is_empty() && images.is_empty());
    assert!(!has_gid && !rotated);
}

#[test]
fn character_maps_and_spacing_reach_the_services() {
    let ((items, _, _), _, _, _) = extract(b"BT /F2 10 Tf 2 Tc [(ab) -100 (c)] TJ (d) Tj ET");
    assert_eq!(items[0].text, ">ab>c");
    assert_eq!(f(items[0].width), 14.0 + 1.0 + 7.0);
    assert_eq!((items[1].text.as_str(), f(items[1].x)), (">d", 22.0));
}

#[test]
fn rectangles_lines_and_turned_pages() {
    let ((_, rects, lines), _, _, rotated) =
        extract(b"1 2 30 40 re 0 0 m 5 0 l S 0 0 m 9 0 l 9 9 l 0 9 l h f n");
    assert_eq!((rects.len(), lines.len(), rotated), (1, 1, false));
    assert_eq!((f(rects[0].x), rects[0].page), (1.0, 5));

    let ((items, rects, lines), _, _, rotated) = extract(
        b"0 0 m 9 0 l 9 8 l 0 8 l f 0 0 m 5 3 l S BT /F1 10 Tf 0 1 -1 0 30 40 Tm (ab) Tj (cd) Tj ET",
    );
    assert!(rotated);
    assert_eq!((f(items[0].x), f(items[0].y)), (40.0, -30.0));
    // The width is lost and estimated from the length of the text.
    assert_eq!(f(items[0].width), 2.0 * f(items[0].font_size) * 0.5);
    assert_eq!((f(rects[0].x), f(rects[0].y)), (0.0, -9.0));
    assert_eq!((f(rects[0].width), f(rects[0].height)), (8.0, 9.0));
    assert_eq!((f(lines[0].x2), f(lines[0].y2)), (3.0, -5.0));
}

#[test]
fn marks_by_dictionary_and_by_reference() {
    let ((items, _, _), _, _, _) = extract(
        b"BT /F1 10 Tf /Span <</ActualText (fi) /MCID 3>> BDC (x) Tj EMC /P <</MCID 4>> BDC (y) Tj EMC /P /Q BDC (z) Tj EMC ET",
    );
    let found: Vec<(&str, Option<i64>)> =
        items.iter().map(|i| (i.text.as_str(), i.mcid)).collect();
    assert_eq!(found, vec![("fi", Some(3)), ("y", Some(4)), ("z", None)]);
}

#[test]
fn hidden_text_on_demand() {
    let (doc, page_id) = document(b"BT /F1 10 Tf 3 Tr (ocr) Tj ET");
    for (wanted, n) in [(false, 0usize), (true, 1)] {
        let services = Plain::new();
        let Ok(found) =
            extract_page_text_items(&doc, page_id, 1, &services, &no_resources(), wanted)
        else {
            panic!("a result");
        };
        assert_eq!(found.0 .0.len(), n);
        // The fonts are not asked for texts that are not wanted.
        assert_eq!(services.asked.borrow().iter().filter(|a| *a == "F1").count(), n);
        assert!(services.asked.borrow().ends_with(&["merge".to_string(), "subscripts".to_string()]));
    }
}

#[test]
fn external_objects() {
    let (mut doc, page_id) =
        document(b"1 0 0 1 7 8 cm /Im1 Do /Fm Do /Im2 Do /Im3 Do /None Do 3 Do");
    let jpeg = |doc: &mut Document, first: u8| {
        let mut d = Dictionary::new();
        d.set("Filter", Object::Name(b"DCTDecode".to_vec()));
        d.set("Width", 3i64);
        d.set("Height", 4i64);
        doc.add_object(Object::Stream(Stream::new(d, vec![first, 0xd8, first])))
    };
    let good = jpeg(&mut doc, 0xff);
    let bad = jpeg(&mut doc, 0x00);
    let mut resources = no_resources();
    resources.has_gid_fonts = true;
    resources.xobjects.insert("Im1".to_string(), XObjectType::Image(good));
    resources.xobjects.insert("Im2".to_string(), XObjectType::Image(bad));
    resources.xobjects.insert("Im3".to_string(), XObjectType::Image(good));
    resources.xobjects.insert("Fm".to_string(), XObjectType::Form((42, 0)));

    let Ok(((items, _, _), images, has_gid, _)) =
        extract_page_text_and_images(&doc, page_id, 9, &Plain::new(), &resources, false)
    else {
        panic!("a result");
    };
    assert!(has_gid);
    let texts: Vec<(&str, ItemType)> =
        items.iter().map(|i| (i.text.as_str(), i.item_type)).collect();
    assert_eq!(
        texts,
        vec![("0", ItemType::Image), ("form 42", ItemType::Text), ("1", ItemType::Image)]
    );
    assert_eq!(images.len(), 2);
    for img in &images {
        assert_eq!((img.page, f(img.x), f(img.y)), (9, 7.0, 8.0));
        assert_eq!((img.width, img.height), (3, 4));
        assert_eq!(img.data, vec![0xff, 0xd8, 0xff]);
    }

    // Without images neither they nor their items are there.
    let Ok(((items, _, _), images, _, _)) =
        extract_page_text_items(&doc, page_id, 9, &Plain::new(), &resources, false)
    else {
        panic!("a result");
    };
    assert_eq!((items.len(), images.len()), (1, 0));
}

#[test]
fn pages_that_cannot_be_parsed() {
    let (doc, page_id) = document(b"BI /W 4 /H 4 /BPC 8 ID xxx EI");
    let found = extract_page_text_items(&doc, page_id, 1, &Plain::new(), &no_resources(), false);
    assert!(matches!(found, Err(PdfError::Parse(text)) if text == "unreadable inline image"));
    // A page without content is empty.
    let found = extract_page_text_items(&doc, (4711, 0), 1, &Plain::new(), &no_resources(), false);
    assert!(matches!(found, Ok(((items, _, _), _, false, false)) if items.is_empty()));
}

#[test]
fn tables_of_fonts() {
    let entry = |key: &str, value: PdfObject| PdfDict {
        entries: vec![(key.as_bytes().to_vec(), value)],
    };
    let none = || FontReply { font_file: None, cmap: None, encoding: None };
    let both = || FontReply {
        font_file: Some(8),
        cmap: Some('c'),
        encoding: Some(lopdf::Encoding::SimpleEncoding(b"Custom")),
    };
    let mut tables: FontTables<char> = FontTables::new();
    let base = PdfObject::Name(b"Arial-Italic".to_vec());
    tables.add_font(&b"F1".to_vec(), &entry("BaseFont", base), none());
    let stream = PdfStream { dict: PdfDict { entries: vec![] }, content: vec![] };
    tables.add_font(&b"F2".to_vec(), &entry("ToUnicode", PdfObject::Stream(stream)), both());
    tables.add_font(&b"F3".to_vec(), &entry("ToUnicode", PdfObject::Reference((5, 1))), both());
    tables.add_font(&b"F4".to_vec(), &entry("ToUnicode", PdfObject::Null), both());
    tables.add_font(&b"F5".to_vec(), &entry("Other", PdfObject::Null), both());

    let font = |n: &str| n.to_string();
    assert_eq!(tables.find_base_name(&font("F1")), "Arial-Italic");
    assert_eq!(tables.find_base_name(&font("F2")), "F2");
    let refs: Vec<Option<u32>> = (1..=5)
        .map(|i| tables.tounicode_refs.get(&format!("F{}", i)).copied())
        .collect();
    assert_eq!(refs, vec![None, None, Some(5), None, Some(8)]);
    let cmaps: Vec<Option<char>> =
        (1..=5).map(|i| tables.inline_cmaps.get(&format!("F{}", i)).copied()).collect();
    assert_eq!(cmaps, vec![None, Some('c'), None, None, None]);
    assert!(tables.encodings.get(&font("F1")).is_none());
    assert!(matches!(
        tables.encodings.get(&font("F2")),
        Some(lopdf::Encoding::SimpleEncoding(b"Custom"))
    ));
}

/// The encodings that a page with one font, named A, is walked with.
fn encoding_of(font: Dictionary) -> Option<String> {
    let mut doc = Document::new();
    let mut fonts = Dictionary::new();
    fonts.set("A", Object::Dictionary(font));
    let mut resources = Dictionary::new();
    resources.set("Font", Object::Dictionary(fonts));
    let mut page = Dictionary::new();
    page.set("Resources", Object::Dictionary(resources));
    let page_id = doc.add_object(page);
    let fonts = get_page_fonts(&doc, page_id);
    let tables = build_font_tables(&Plain::new(), &doc, &fonts);
    tables.encodings.get(&"A".to_string()).map(|e| match e {
        lopdf::Encoding::SimpleEncoding(n) => String::from_utf8_lossy(n).to_string(),
        lopdf::Encoding::OneByteEncoding(_) => "one byte".to_string(),
        lopdf::Encoding::UnicodeMapEncoding(_) => "map".to_string(),
    })
}

#[test]
fn encodings_of_fonts() {
    let font = |encoding: &str| {
        let mut d = Dictionary::new();
        d.set("Type", Object::Name(b"Font".to_vec()));
        d.set("Encoding", Object::Name(encoding.as_bytes().to_vec()));
        d
    };
    assert_eq!(encoding_of(font("WinAnsiEncoding")), Some("one byte".to_string()));
    assert_eq!(encoding_of(font("GBK-EUC-H")), Some("GBK-EUC-H".to_string()));
    // No font at all, and one whose character map is missing.
    assert_eq!(encoding_of(Dictionary::new()), None);
    assert_eq!(encoding_of(font("Identity-H")), None);
    // A character map, and one whose rows cannot be counted.
    let cmap = b"/CIDInit /ProcSet findresource begin\n12 dict begin\nbegincmap\n/CMapName /X def\n1 begincodespacerange\n<00> <FF>\nendcodespacerange\n1 beginbfchar\n<01> <0041>\nendbfchar\nendcmap\nCMapName currentdict /CMap defineresource pop\nend\nend\n";
    let mut mapped = font("Identity-H");
    mapped.set("ToUnicode", Object::Stream(Stream::new(Dictionary::new(), cmap.to_vec())));
    assert_eq!(encoding_of(mapped), Some("map".to_string()));
    let mut parms = Dictionary::new();
    parms.set("Predictor", 12i64);
    parms.set("Colors", i64::MAX);
    let mut packed = Dictionary::new();
    packed.set("Filter", Object::Name(b"FlateDecode".to_vec()));
    packed.set("DecodeParms", Object::Dictionary(parms));
    let mut unreadable = font("Identity-H");
    unreadable.set("ToUnicode", Object::Stream(Stream::new(packed, vec![])));
    assert_eq!(encoding_of(unreadable.clone()), None);
    // A font whose encoding has another name does not need its character map.
    unreadable.set("Encoding", Object::Name(b"WinAnsiEncoding".to_vec()));
    assert_eq!(encoding_of(unreadable), Some("one byte".to_string()));
}

#[test]
fn text_that_speaks_of_images() {
    let texts: [&[u8]; 4] =
        [b"(BI%) Tj", b"(Power BI % growth) Tj", b"(BI /A (b)) Tj", b"(a\\)%b) Tj"];
    for text in texts {
        let mut content = b"BT /F1 10 Tf ".to_vec();
        content.extend(text);
        content.extend(b" ET");
        let ((items, _, _), _, _, _) = extract(&content);
        assert_eq!(items.len(), 1);
    }
}

#[test]
fn images_change_nothing_else() {
    let content = b"0 0 m 9 9 l S q 2 0 0 2 5 5 cm /Im Do Q BT /F1 10 Tf (a) Tj ET 1 2 3 4 re";
    let (mut doc, page_id) = document(content);
    let mut image = Dictionary::new();
    image.set("Filter", Object::Name(b"DCTDecode".to_vec()));
    image.set("Width", 2i64);
    image.set("Height", 2i64);
    let id = doc.add_object(Object::Stream(Stream::new(image, vec![0xff, 0xd8])));
    let mut xobjects = TextMap::new();
    xobjects.insert("Im".to_string(), XObjectType::Image(id));
    let resources = PageResources { xobjects, has_gid_fonts: true };
    let without = extract_page_text_items(&doc, page_id, 5, &Plain::new(), &resources, false);
    let with = extract_page_text_and_images(&doc, page_id, 5, &Plain::new(), &resources, false);
    let (Ok(a), Ok(b)) = (without, with) else {
        panic!("a page");
    };
    assert_eq!((a.0.1.len(), a.0.2.len(), a.2, a.3), (1, 1, true, false));
    assert_eq!((&a.0.1, &a.0.2, a.2, a.3), (&b.0.1, &b.0.2, b.2, b.3));
    assert_eq!((a.1.len(), b.1.len()), (0, 1));
    assert_eq!((a.0.0.len(), b.0.0.len()), (1, 2));
    assert_eq!(b.0.0[0].item_type, ItemType::Image);
    assert_eq!((&a.0.0[0].text, a.0.0[0].x), (&b.0.0[1].text, b.0.0[1].x));
}
