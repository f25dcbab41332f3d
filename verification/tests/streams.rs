use lopdf::{Dictionary, Document, Object, Stream};
use pdf_extractor::document::{get_object, get_page_fonts};
use pdf_extractor::object::{get_number, PdfDict, PdfObject, PdfStream};
use pdf_extractor::streams::{
    check_stream, decompressed_content, decompressed_or_stored, get_page_content,
    unpredicted_content,
};
use std::io::Write;

fn name(n: &str) -> PdfObject {
    PdfObject::Name(n.as_bytes().to_vec())
}

fn dict(entries: Vec<(&str, PdfObject)>) -> PdfDict {
    PdfDict { entries: entries.into_iter().map(|(k, v)| (k.as_bytes().to_vec(), v)).collect() }
}

fn zlib(data: &[u8]) -> Vec<u8> {
    let mut encoder =
        flate2::write::ZlibEncoder::new(Vec::new(), flate2::Compression::default());
    encoder.write_all(data).unwrap();
    encoder.finish().unwrap()
}

fn stream(entries: Vec<(&str, PdfObject)>, content: Vec<u8>) -> PdfStream {
    PdfStream { dict: dict(entries), content }
}

#[test]
fn one_filter() {
    let flate = stream(vec![("Filter", name("FlateDecode"))], zlib(b"content"));
    assert_eq!(decompressed_content(&flate), Some(b"content".to_vec()));
    let a85 = stream(vec![("Filter", name("ASCII85Decode"))], b"87cURD]i,\"Ebo80~>".to_vec());
    assert_eq!(decompressed_content(&a85), Some(b"Hello World!".to_vec()));
    // The three codes 256, 65 and 257 of nine bits: clear, A, end.
    let lzw = stream(vec![("Filter", name("LZWDecode"))], vec![0x80, 0x10, 0x60, 0x20]);
    assert_eq!(decompressed_content(&lzw), Some(b"A".to_vec()));
}

#[test]
fn several_filters() {
    let chain = PdfObject::Array(vec![name("ASCII85Decode"), name("ASCII85Decode")]);
    // "!!*-'" decodes to the bytes 0 1 2 3, which are no digits: an empty result.
    let twice = stream(vec![("Filter", chain)], b"!!*-'~>".to_vec());
    assert_eq!(decompressed_content(&twice), Some(vec![]));
    let none = stream(vec![("Filter", PdfObject::Array(vec![]))], b"abc".to_vec());
    assert_eq!(decompressed_content(&none), Some(vec![]));
}

#[test]
fn predictors() {
    let parms = PdfObject::Dictionary(dict(vec![
        ("Predictor", PdfObject::Integer(12)),
        ("Columns", PdfObject::Integer(3)),
    ]));
    let rows = stream(
        vec![("Filter", name("FlateDecode")), ("DecodeParms", parms)],
        zlib(&[0, 1, 2, 3, 2, 1, 1, 1]),
    );
    assert_eq!(decompressed_content(&rows), Some(vec![1, 2, 3, 2, 3, 4]));
    assert_eq!(unpredicted_content(&rows), Some(vec![0, 1, 2, 3, 2, 1, 1, 1]));
}

#[test]
fn sizes_that_cannot_be_counted() {
    let parms = |colors: i64, bits: i64, columns: i64, predictor: i64| {
        let parms = PdfObject::Dictionary(dict(vec![
            ("Predictor", PdfObject::Integer(predictor)),
            ("Columns", PdfObject::Integer(columns)),
            ("Colors", PdfObject::Integer(colors)),
            ("BitsPerComponent", PdfObject::Integer(bits)),
        ]));
        decompressed_content(&stream(
            vec![("Filter", name("FlateDecode")), ("DecodeParms", parms)],
            zlib(&[]),
        ))
    };
    assert_eq!(parms(i64::MAX, i64::MAX, 1, 12), None);
    assert_eq!(parms(1 << 40, 8, 1 << 40, 12), None);
    // Without a predictor they do not matter.
    assert_eq!(parms(i64::MAX, i64::MAX, 1, 1), Some(vec![]));
    assert_eq!(parms(3, 8, 10, 15), Some(vec![]));
}

#[test]
fn streams_whose_arithmetic_fits() {
    let a85 = |filters: &[&str], data: &[u8]| {
        let chain = PdfObject::Array(filters.iter().map(|f| name(f)).collect());
        check_stream(&stream(vec![("Filter", chain)], data.to_vec()))
    };
    assert!(a85(&["ASCII85Decode"], b"s8W-!~>"));
    assert!(!a85(&["ASCII85Decode"], b"s8W-u~>"));
    // What comes out of a filter goes into the next.
    assert!(!a85(&["FlateDecode", "ASCII85Decode"], &zlib(b"s8W-u~>")));
    assert!(a85(&["FlateDecode", "ASCII85Decode"], &zlib(b"s8W-!~>")));
    assert!(a85(&["JPXDecode", "ASCII85Decode"], b"s8W-u~>"));
    assert!(a85(&["ASCII85Decode", "ASCII85Decode"], b"87z~>"));
    assert!(check_stream(&stream(vec![], b"s8W-u~>".to_vec())));
}

#[test]
fn base_85_sums() {
    let a85 = |data: &[u8]| {
        decompressed_content(&stream(vec![("Filter", name("ASCII85Decode"))], data.to_vec()))
    };
    assert_eq!(a85(b"s8W-!~>"), Some(vec![0xff; 4]));
    // Sums that pass 2^32, by the last digit or before it, or filled up.
    assert_eq!(a85(b"s8W-\"~>"), None);
    assert_eq!(a85(b"s 8W\n-u~>"), None);
    assert_eq!(a85(b"s8W-~>"), None);
    assert_eq!(a85(b"uuuuu~>"), None);
    assert_eq!(a85(b"zs8W~>"), None);
    assert_eq!(a85(b"87z~>"), None);
    assert_eq!(a85(b"!s8W-!~>"), Some(vec![3; 4]));
}

#[test]
fn streams_that_stay_as_they_are() {
    for filter in [None, Some(PdfObject::Integer(3)), Some(name("JPXDecode"))] {
        let entries = match filter {
            Some(f) => vec![("Filter", f)],
            None => vec![],
        };
        let s = stream(entries, b"as stored".to_vec());
        assert_eq!(decompressed_content(&s), None);
        assert_eq!(decompressed_or_stored(&s), b"as stored".to_vec());
    }
    let mixed = PdfObject::Array(vec![name("FlateDecode"), PdfObject::Null]);
    assert_eq!(decompressed_content(&stream(vec![("Filter", mixed)], zlib(b"x"))), None);
    let flate = stream(vec![("Filter", name("FlateDecode"))], zlib(b"decoded"));
    assert_eq!(decompressed_or_stored(&flate), b"decoded".to_vec());
}

#[test]
fn objects_as_plain_values() {
    let mut doc = Document::new();
    let mut inner = Dictionary::new();
    inner.set("Key", Object::Boolean(true));
    inner.set("Real", Object::Real(0.1));
    let all = Object::Array(vec![
        Object::Null,
        Object::Integer(-7),
        Object::Name(b"Name".to_vec()),
        Object::string_literal("text"),
        Object::Dictionary(inner),
        Object::Reference((12, 3)),
    ]);
    let id = doc.add_object(all);
    let link = doc.add_object(Object::Reference(id));
    for id in [id, link] {
        let Some(PdfObject::Array(items)) = get_object(&doc, id) else {
            panic!("an array");
        };
        assert_eq!(items.len(), 6);
        assert!(matches!(items[0], PdfObject::Null));
        assert!(matches!(items[1], PdfObject::Integer(-7)));
        assert!(matches!(&items[2], PdfObject::Name(n) if n == b"Name"));
        assert!(matches!(&items[3], PdfObject::String(s) if s == b"text"));
        let PdfObject::Dictionary(d) = &items[4] else {
            panic!("a dictionary");
        };
        assert!(matches!(d.get("Key"), Some(PdfObject::Boolean(true))));
        assert_eq!(get_number(d.get("Real").unwrap()).unwrap().bits, 0.1f32.to_bits());
        assert!(d.get("Other").is_none());
        assert!(matches!(items[5], PdfObject::Reference((12, 3))));
    }
    assert!(get_object(&doc, (4711, 0)).is_none());
    let lost = doc.add_object(Object::Reference((4711, 0)));
    assert!(get_object(&doc, lost).is_none());
}

#[test]
fn numbers() {
    assert_eq!(get_number(&PdfObject::Integer(16777217)).unwrap().bits, 16777216f32.to_bits());
    assert!(get_number(&name("1")).is_none());
    let d = dict(vec![("N", PdfObject::Integer(4)), ("R", name("x")), ("N", PdfObject::Null)]);
    assert_eq!(d.integer("N"), Some(4));
    assert_eq!(d.integer("R"), None);
    assert_eq!(d.integer("M"), None);
}

#[test]
fn the_content_of_a_page() {
    let mut doc = Document::new();
    let plain = doc.add_object(Object::Stream(Stream::new(Dictionary::new(), b"q ".to_vec())));
    let mut d = Dictionary::new();
    d.set("Filter", Object::Name(b"FlateDecode".to_vec()));
    let packed = doc.add_object(Object::Stream(Stream::new(d, zlib(b"0 0 m ")))); 
    let other = doc.add_object(Object::Integer(1));
    let mut page = Dictionary::new();
    page.set(
        "Contents",
        Object::Array(vec![
            Object::Reference(plain),
            Object::Reference(other),
            Object::Reference(packed),
            Object::Reference((4711, 0)),
            Object::Reference(plain),
        ]),
    );
    let page = doc.add_object(page);
    assert_eq!(get_page_content(&doc, page), b"q 0 0 m q ".to_vec());
    assert_eq!(get_page_content(&doc, (4711, 0)), Vec::<u8>::new());
}

#[test]
fn the_fonts_of_a_page() {
    let mut doc = Document::new();
    let mut font = Dictionary::new();
    font.set("BaseFont", Object::Name(b"Helvetica".to_vec()));
    let font_id = doc.add_object(font.clone());
    let mut fonts = Dictionary::new();
    fonts.set("F2", Object::Dictionary(font));
    fonts.set("F1", Object::Reference(font_id));
    let mut resources = Dictionary::new();
    resources.set("Font", Object::Dictionary(fonts));
    let mut page = Dictionary::new();
    page.set("Resources", Object::Dictionary(resources));
    let page = doc.add_object(page);
    let found = get_page_fonts(&doc, page);
    let names: Vec<&[u8]> = found.iter().map(|(n, _)| n.as_slice()).collect();
    assert_eq!(names, vec![&b"F1"[..], b"F2"]);
    for (_, d) in &found {
        assert!(matches!(d.get(b"BaseFont"), Ok(Object::Name(n)) if n == b"Helvetica"));
    }
    assert!(get_page_fonts(&doc, (4711, 0)).is_empty());
}
