use pdf_extractor::ascii_filters::{ascii85_decode, ascii_hex_decode};
use pdf_extractor::filters::decode_filters_for_jpeg;
use pdf_extractor::object::{PdfDict, PdfObject, PdfStream};
use std::io::Write;

fn name(n: &str) -> PdfObject {
    PdfObject::Name(n.as_bytes().to_vec())
}

fn stream(filter: Option<PdfObject>, content: &[u8]) -> PdfStream {
    let entries = match filter {
        Some(f) => vec![(b"Filter".to_vec(), f)],
        None => vec![],
    };
    PdfStream { dict: PdfDict { entries }, content: content.to_vec() }
}

fn zlib(data: &[u8]) -> Vec<u8> {
    let mut encoder =
        flate2::write::ZlibEncoder::new(Vec::new(), flate2::Compression::default());
    encoder.write_all(data).unwrap();
    encoder.finish().unwrap()
}

#[test]
fn hex_digits_in_either_case() {
    assert_eq!(ascii_hex_decode(b"48 65\n6C6c6f>ignored"), Some(b"Hello".to_vec()));
    assert_eq!(ascii_hex_decode(b""), Some(vec![]));
    assert_eq!(ascii_hex_decode(b">"), Some(vec![]));
    // An odd last digit is followed by an implicit zero.
    assert_eq!(ascii_hex_decode(b"FFD8F>"), Some(vec![0xff, 0xd8, 0xf0]));
    assert_eq!(ascii_hex_decode(b"4G"), None);
    assert_eq!(ascii_hex_decode(b"4>G"), Some(vec![0x40]));
}

#[test]
fn base_85_groups() {
    assert_eq!(ascii85_decode(b"87cURD]i,\"Ebo80~>"), Some(b"Hello World!".to_vec()));
    assert_eq!(ascii85_decode(b"87cUR\nD]i,\" Ebo80"), Some(b"Hello World!".to_vec()));
    assert_eq!(ascii85_decode(b"z~>"), Some(vec![0, 0, 0, 0]));
    assert_eq!(ascii85_decode(b"!!~>"), Some(vec![0]));
    assert_eq!(ascii85_decode(b"s8W-!~>"), Some(vec![0xff; 4]));
    // The largest group is 2^32 - 1.
    assert_eq!(ascii85_decode(b"s8W-\"~>"), None);
    assert_eq!(ascii85_decode(b"uuuuu~>"), None);
    // Characters outside the alphabet, and `z` within a group.
    assert_eq!(ascii85_decode(b"87cU\x7f~>"), None);
    assert_eq!(ascii85_decode(b"87z~>"), None);
    // One leftover digit gives no byte.
    assert_eq!(ascii85_decode(b"!~>"), Some(vec![]));
    assert_eq!(ascii85_decode(b""), Some(vec![]));
}

#[test]
fn hex_texts_of_the_same_bytes() {
    let bytes = vec![0x00, 0x9a, 0xbc, 0xde, 0xf0];
    let texts: [&[u8]; 6] = [
        b"009ABCDEF0>",
        b"009abcdef0",
        b" 0\t0\n9 a\r\x0cBcDe F0 > and more 1",
        b"009AbCdEf",
        b"009aBcDeF>0",
        b"\n009ABCDEF0\n",
    ];
    for text in texts {
        assert_eq!(ascii_hex_decode(text), Some(bytes.clone()));
    }
}

#[test]
fn base_85_texts_of_the_same_bytes() {
    let texts: [&[u8]; 5] =
        [b"z!!*-'!!~>", b"!!!!!!!*-'!!", b" z !!*\n-'! !~", b"!!!! !!!*-'!!~> more", b"z!!*-'!!"];
    for text in texts {
        assert_eq!(ascii85_decode(text), Some(vec![0, 0, 0, 0, 0, 1, 2, 3, 0]));
    }
}

#[test]
fn jpeg_behind_other_filters() {
    let jpeg = b"\xff\xd8\xff\xe0 picture";
    assert_eq!(decode_filters_for_jpeg(&stream(Some(name("DCTDecode")), jpeg)), Some(jpeg.to_vec()));

    let chain = |names: &[&str]| PdfObject::Array(names.iter().map(|n| name(n)).collect());
    let flate = stream(Some(chain(&["FlateDecode", "DCTDecode"])), &zlib(jpeg));
    assert_eq!(decode_filters_for_jpeg(&flate), Some(jpeg.to_vec()));

    let mut hex: Vec<u8> = jpeg.iter().flat_map(|b| format!("{:02x}", b).into_bytes()).collect();
    hex.push(b'>');
    let both = stream(Some(chain(&["FlateDecode", "ASCIIHexDecode", "DCTDecode"])), &zlib(&hex));
    assert_eq!(decode_filters_for_jpeg(&both), Some(jpeg.to_vec()));

    // Three layers, the end marker left out.
    let open_hex: Vec<u8> = zlib(jpeg).iter().flat_map(|b| format!("{:02X} ", b).into_bytes()).collect();
    let names = ["FlateDecode", "ASCIIHexDecode", "FlateDecode", "DCTDecode"];
    let three = stream(Some(chain(&names)), &zlib(&open_hex));
    assert_eq!(decode_filters_for_jpeg(&three), Some(jpeg.to_vec()));

    let a85 = stream(Some(chain(&["ASCII85Decode", "DCTDecode"])), b"s8W-!~>");
    assert_eq!(decode_filters_for_jpeg(&a85), Some(vec![0xff; 4]));

    // A filter that follows DCTDecode is not applied, and what is no name does not count.
    let after = stream(Some(chain(&["DCTDecode", "FlateDecode"])), jpeg);
    assert_eq!(decode_filters_for_jpeg(&after), Some(jpeg.to_vec()));
    let odd = PdfObject::Array(vec![PdfObject::Null, name("DCTDecode")]);
    assert_eq!(decode_filters_for_jpeg(&stream(Some(odd), jpeg)), Some(jpeg.to_vec()));

    // Without DCTDecode the data come out as they are in the end.
    let plain = stream(Some(name("FlateDecode")), &zlib(jpeg));
    assert_eq!(decode_filters_for_jpeg(&plain), Some(jpeg.to_vec()));
}

#[test]
fn jpeg_behind_filters_that_fail() {
    let fails = |filter: Option<PdfObject>, content: &[u8]| {
        assert_eq!(decode_filters_for_jpeg(&stream(filter, content)), None);
    };
    fails(None, b"\xff\xd8");
    fails(Some(PdfObject::Integer(1)), b"\xff\xd8");
    fails(Some(name("LZWDecode")), b"\xff\xd8");
    // One that is not supported spoils the chain wherever it stands.
    let dct_first = PdfObject::Array(vec![name("DCTDecode"), name("LZWDecode")]);
    fails(Some(dct_first), b"\xff\xd8");
    let dct_last = PdfObject::Array(vec![name("JPXDecode"), name("DCTDecode")]);
    fails(Some(dct_last), b"\xff\xd8");
    fails(Some(name("FlateDecode")), b"not zlib at all");
    fails(Some(name("ASCIIHexDecode")), b"xy");
    fails(Some(name("ASCII85Decode")), b"\x80");
}
