use lopdf::{Dictionary, Document, Object, Stream};
use pdf_extractor::geometry::{identity, Matrix};
use pdf_extractor::images::{
    cmyk_to_rgb, encode_flatedecode_to_png, extract_image_xobject, read_pixels, resolve_color_space,
    ExtractedImage, ImageFormat, PngColorType,
};
use pdf_extractor::object::{PdfDict, PdfObject, PdfStream};
use pdf_extractor::single::Single;
use std::io::Write;

fn s(x: f32) -> Single {
    Single { bits: x.to_bits() }
}

fn name(n: &str) -> PdfObject {
    PdfObject::Name(n.as_bytes().to_vec())
}

fn dict(entries: Vec<(&str, PdfObject)>) -> PdfDict {
    PdfDict { entries: entries.into_iter().map(|(k, v)| (k.as_bytes().to_vec(), v)).collect() }
}

fn zlib(data: &[u8]) -> Vec<u8> {
    let mut encoder =
        flate2::write::ZlibEncoder::new(Vec::new(), flate2::Compression::default());
    encoder.write_all(data).unwrap();
    encoder.finish().unwrap()
}

fn flate(mut entries: Vec<(&str, PdfObject)>, data: &[u8]) -> PdfStream {
    entries.push(("Filter", name("FlateDecode")));
    PdfStream { dict: dict(entries), content: zlib(data) }
}

fn place() -> Matrix {
    Matrix { e: s(72.5), f: s(-3.0), ..identity() }
}

/// The color type, depth, size and pixels that a PNG file decodes to.
fn decode(file: &[u8]) -> (png::ColorType, png::BitDepth, u32, u32, Vec<u8>) {
    let mut decoder = png::Decoder::new(std::io::Cursor::new(file));
    decoder.set_transformations(png::Transformations::IDENTITY);
    let mut reader = decoder.read_info().unwrap();
    let mut pixels = vec![0; reader.output_buffer_size().unwrap()];
    let info = reader.next_frame(&mut pixels).unwrap();
    pixels.truncate(info.buffer_size());
    (info.color_type, info.bit_depth, info.width, info.height, pixels)
}

fn assert_place(img: &ExtractedImage, page: u32, width: u32, height: u32) {
    assert_eq!((img.page, img.width, img.height), (page, width, height));
    assert_eq!((img.x, img.y), (s(72.5), s(-3.0)));
}

#[test]
fn cmyk_follows_the_formula() {
    let mut data = Vec::new();
    for k in [0u8, 1, 77, 128, 200, 254, 255] {
        for c in 0..=255u8 {
            data.extend([c, c.wrapping_mul(7), 255 - c, k]);
        }
    }
    let n = data.len() / 4;
    let mut expected = Vec::new();
    for p in data.chunks(4) {
        let k = p[3] as f32 / 255.0;
        for i in 0..3 {
            let c = p[i] as f32 / 255.0;
            expected.push((255.0 * (1.0 - c) * (1.0 - k)) as u8);
        }
    }
    assert_eq!(cmyk_to_rgb(&data, n as u32, 1), expected);
    assert_eq!(cmyk_to_rgb(&[0, 0, 0, 0, 255, 0, 255, 0, 9, 9, 9, 255], 3, 1), [
        255, 255, 255, 0, 255, 0, 0, 0, 0
    ]);
}

#[test]
fn cmyk_stops_at_the_end_of_the_data_or_the_image() {
    assert_eq!(cmyk_to_rgb(&[0, 0, 0, 0, 1, 2, 3], 2, 2), vec![255, 255, 255]);
    assert_eq!(cmyk_to_rgb(&[0; 16], 1, 2), vec![255; 6]);
    assert_eq!(cmyk_to_rgb(&[0; 16], 0, 9), Vec::<u8>::new());
    assert_eq!(cmyk_to_rgb(&[0; 8], u32::MAX, u32::MAX), vec![255; 6]);
}

#[test]
fn color_spaces() {
    let of = |cs: Option<PdfObject>| {
        let entries = match cs {
            Some(cs) => vec![("ColorSpace", cs)],
            None => vec![],
        };
        resolve_color_space(&dict(entries)).map(|i| (i.png_color_type, i.channels, i.is_cmyk))
    };
    let rgb = Some((PngColorType::Rgb, 3, false));
    let gray = Some((PngColorType::Grayscale, 1, false));
    assert_eq!(of(Some(name("DeviceRGB"))), rgb);
    assert_eq!(of(Some(name("CalRGB"))), rgb);
    assert_eq!(of(Some(PdfObject::Array(vec![name("ICCBased"), PdfObject::Reference((9, 0))]))), rgb);
    assert_eq!(of(Some(name("DeviceGray"))), gray);
    assert_eq!(of(Some(PdfObject::Array(vec![name("CalGray")]))), gray);
    assert_eq!(of(Some(name("DeviceCMYK"))), Some((PngColorType::Rgb, 4, true)));
    // None named, or none that is a name: RGB.
    assert_eq!(of(None), rgb);
    assert_eq!(of(Some(PdfObject::Reference((1, 0)))), rgb);
    assert_eq!(of(Some(PdfObject::Array(vec![]))), rgb);
    // Not supported.
    assert_eq!(of(Some(PdfObject::Array(vec![name("Indexed")]))), None);
    assert_eq!(of(Some(name("Pattern"))), None);
}

#[test]
fn rgb_pixels_become_a_png() {
    let pixels: Vec<u8> = (0..24).map(|i| i * 10).collect();
    let stream = flate(vec![("ColorSpace", name("DeviceRGB"))], &pixels);
    let img = encode_flatedecode_to_png(&stream, 4, 2, 7, &place()).unwrap();
    assert_place(&img, 7, 4, 2);
    assert_eq!(img.format, ImageFormat::Png);
    assert_eq!(&img.data[..8], &[137, 80, 78, 71, 13, 10, 26, 10]);
    assert_eq!(
        decode(&img.data),
        (png::ColorType::Rgb, png::BitDepth::Eight, 4, 2, pixels)
    );
}

#[test]
fn surplus_data_are_cut_and_missing_ones_refused() {
    let stream = flate(vec![("ColorSpace", name("DeviceGray"))], &[1, 2, 3, 4, 5]);
    let img = encode_flatedecode_to_png(&stream, 2, 2, 1, &place()).unwrap();
    assert_eq!(decode(&img.data).4, vec![1, 2, 3, 4]);
    assert!(encode_flatedecode_to_png(&stream, 3, 2, 1, &place()).is_none());
    assert!(encode_flatedecode_to_png(&stream, u32::MAX, u32::MAX, 1, &place()).is_none());
}

#[test]
fn gray_depths() {
    for (bits, depth, row) in [
        (1i64, png::BitDepth::One, 2usize),
        (2, png::BitDepth::Two, 3),
        (4, png::BitDepth::Four, 6),
        (8, png::BitDepth::Eight, 11),
        (16, png::BitDepth::Sixteen, 22),
    ] {
        let pixels: Vec<u8> = (0..row * 3).map(|i| (i * 77) as u8).collect();
        let stream = flate(
            vec![
                ("ColorSpace", name("DeviceGray")),
                ("BitsPerComponent", PdfObject::Integer(bits)),
            ],
            &pixels,
        );
        let img = encode_flatedecode_to_png(&stream, 11, 3, 1, &place()).unwrap();
        assert_eq!(decode(&img.data), (png::ColorType::Grayscale, depth, 11, 3, pixels));
    }
}

#[test]
fn images_that_png_does_not_have() {
    let small = |bits: i64, cs: &str| {
        let stream = flate(
            vec![
                ("ColorSpace", name(cs)),
                ("BitsPerComponent", PdfObject::Integer(bits)),
            ],
            &[0; 400],
        );
        encode_flatedecode_to_png(&stream, 3, 3, 1, &place())
    };
    // RGB below eight bits, and a depth whose rows are not those of eight bits.
    assert!(small(4, "DeviceRGB").is_none());
    assert!(small(3, "DeviceGray").is_none());
    assert!(small(0, "DeviceGray").is_none());
    assert!(small(8, "DeviceGray").is_some());
    // The bits are cut to eight: 264 counts as 8.
    assert!(small(264, "DeviceGray").is_some());
    assert!(small(16, "DeviceRGB").is_some());
    // No pixels.
    let stream = flate(vec![], &[0; 9]);
    assert!(encode_flatedecode_to_png(&stream, 0, 3, 1, &place()).is_none());
    assert!(encode_flatedecode_to_png(&stream, 3, 0, 1, &place()).is_none());
}

#[test]
fn cmyk_becomes_rgb() {
    let stream = flate(vec![("ColorSpace", name("DeviceCMYK"))], &[0, 0, 0, 0, 255, 255, 0, 0]);
    let img = encode_flatedecode_to_png(&stream, 2, 1, 1, &place()).unwrap();
    assert_eq!(
        decode(&img.data),
        (png::ColorType::Rgb, png::BitDepth::Eight, 2, 1, vec![255, 255, 255, 0, 0, 255])
    );
}

#[test]
fn rows_with_filter_types() {
    let parms = |predictor: i64| {
        PdfObject::Dictionary(dict(vec![
            ("Predictor", PdfObject::Integer(predictor)),
            ("Columns", PdfObject::Integer(2)),
        ]))
    };
    // Two rows of two gray pixels.
    for predictor in [10, 12, 15, 16] {
        let stream = flate(
            vec![("ColorSpace", name("DeviceGray")), ("DecodeParms", parms(predictor))],
            &[1, 5, 6, 2, 10, 20],
        );
        let img = encode_flatedecode_to_png(&stream, 2, 2, 1, &place()).unwrap();
        assert_eq!(decode(&img.data).4, vec![5, 11, 15, 31]);
        // One byte short.
        let short = flate(
            vec![("ColorSpace", name("DeviceGray")), ("DecodeParms", parms(predictor))],
            &[1, 5, 6, 2, 10],
        );
        assert!(encode_flatedecode_to_png(&short, 2, 2, 1, &place()).is_none());
        // Bytes after the last row.
        let long = flate(
            vec![("ColorSpace", name("DeviceGray")), ("DecodeParms", parms(predictor))],
            &[3, 5, 6, 4, 10, 20, 9, 9, 9],
        );
        let img = encode_flatedecode_to_png(&long, 2, 2, 1, &place()).unwrap();
        assert_eq!(decode(&img.data).4, vec![5, 8, 15, 35]);
    }
    // Other predictors leave the rows as they are.
    let plain = flate(
        vec![("ColorSpace", name("DeviceGray")), ("DecodeParms", parms(2))],
        &[1, 5, 6, 2],
    );
    let img = encode_flatedecode_to_png(&plain, 2, 2, 1, &place()).unwrap();
    assert_eq!(decode(&img.data).4, vec![1, 5, 6, 2]);
}

#[test]
fn rows_of_less_than_a_byte_per_pixel() {
    let mut entries = vec![("ColorSpace", name("DeviceGray"))];
    entries.push(("BitsPerComponent", PdfObject::Integer(1)));
    let parms = dict(vec![
        ("Predictor", PdfObject::Integer(15)),
        ("Columns", PdfObject::Integer(16)),
        ("BitsPerComponent", PdfObject::Integer(1)),
    ]);
    entries.push(("DecodeParms", PdfObject::Dictionary(parms)));
    let stream = flate(entries, &[0, 0xf0, 0x0f, 2, 0x0f, 0xf0]);
    let img = encode_flatedecode_to_png(&stream, 16, 2, 1, &place()).unwrap();
    assert_eq!(
        decode(&img.data),
        (png::ColorType::Grayscale, png::BitDepth::One, 16, 2, vec![0xf0, 0x0f, 0xff, 0xff])
    );
}

#[test]
fn pixels_out_of_decoded_rows() {
    let parms = |n: i64| PdfObject::Dictionary(dict(vec![("Predictor", PdfObject::Integer(n))]));
    let rows = vec![1, 5, 6, 2, 10, 20, 99];
    let predicted = dict(vec![("DecodeParms", parms(15))]);
    assert_eq!(read_pixels(&predicted, &rows, 2, 2, 1), Some(vec![5, 11, 15, 31]));
    assert_eq!(read_pixels(&predicted, &rows, 2, 3, 1), None);
    let plain = dict(vec![("DecodeParms", parms(1))]);
    assert_eq!(read_pixels(&plain, &rows, 2, 2, 1), Some(vec![1, 5, 6, 2]));
    assert_eq!(read_pixels(&dict(vec![]), &rows, 2, 4, 1), None);
}

#[test]
fn streams_that_cannot_be_decoded() {
    let unfiltered = PdfStream { dict: dict(vec![]), content: vec![0; 12] };
    assert!(encode_flatedecode_to_png(&unfiltered, 2, 2, 1, &place()).is_none());
    let indexed = flate(vec![("ColorSpace", PdfObject::Array(vec![name("Indexed")]))], &[0; 99]);
    assert!(encode_flatedecode_to_png(&indexed, 2, 2, 1, &place()).is_none());
}

fn image_dict(filter: Object, width: i64, height: i64) -> Dictionary {
    let mut d = Dictionary::new();
    d.set("Subtype", Object::Name(b"Image".to_vec()));
    d.set("Filter", filter);
    d.set("Width", width);
    d.set("Height", height);
    d
}

fn extract(dict: Dictionary, content: Vec<u8>) -> Option<ExtractedImage> {
    let mut doc = Document::new();
    let id = doc.add_object(Object::Stream(Stream::new(dict, content)));
    extract_image_xobject(&doc, id, 3, &place())
}

fn lopdf_name(n: &str) -> Object {
    Object::Name(n.as_bytes().to_vec())
}

#[test]
fn jpeg_images_come_out_as_they_are() {
    let jpeg = b"\xff\xd8 a picture".to_vec();
    let img = extract(image_dict(lopdf_name("DCTDecode"), 640, 480), jpeg.clone()).unwrap();
    assert_place(&img, 3, 640, 480);
    assert_eq!(img.format, ImageFormat::Jpeg);
    assert_eq!(img.data, jpeg);

    let chain = Object::Array(vec![lopdf_name("FlateDecode"), lopdf_name("DCTDecode")]);
    let img = extract(image_dict(chain, 640, 480), zlib(&jpeg)).unwrap();
    assert_eq!(img.data, jpeg);
}

#[test]
fn what_does_not_start_as_jpeg_is_skipped() {
    for data in [&b"\xff"[..], b"", b"\xd8\xff", b"\xff\xd9"] {
        assert!(extract(image_dict(lopdf_name("DCTDecode"), 1, 1), data.to_vec()).is_none());
    }
}

#[test]
fn compressed_images_become_png() {
    let mut d = image_dict(Object::Array(vec![lopdf_name("FlateDecode")]), 1, 2);
    d.set("ColorSpace", lopdf_name("DeviceRGB"));
    let img = extract(d, zlib(&[1, 2, 3, 4, 5, 6])).unwrap();
    assert_place(&img, 3, 1, 2);
    assert_eq!(img.format, ImageFormat::Png);
    assert_eq!(decode(&img.data).4, vec![1, 2, 3, 4, 5, 6]);

    // A chain of filters is undone in order.
    let mut d = image_dict(
        Object::Array(vec![lopdf_name("ASCII85Decode"), lopdf_name("FlateDecode")]),
        1,
        1,
    );
    d.set("ColorSpace", lopdf_name("DeviceGray"));
    let a85 = a85_encode(&zlib(&[200]));
    let img = extract(d, a85).unwrap();
    assert_eq!(decode(&img.data).4, vec![200]);
}

fn a85_encode(data: &[u8]) -> Vec<u8> {
    let mut out = Vec::new();
    for chunk in data.chunks(4) {
        let mut group = [0u8; 4];
        group[..chunk.len()].copy_from_slice(chunk);
        let mut v = u32::from_be_bytes(group);
        let mut digits = [0u8; 5];
        for d in digits.iter_mut().rev() {
            *d = (v % 85) as u8 + b'!';
            v /= 85;
        }
        out.extend_from_slice(&digits[..chunk.len() + 1]);
    }
    out.extend_from_slice(b"~>");
    out
}

#[test]
fn images_that_are_skipped() {
    let jpeg = b"\xff\xd8".to_vec();
    // No size, a filter that is not supported, none at all.
    assert!(extract(image_dict(lopdf_name("DCTDecode"), 0, 1), jpeg.clone()).is_none());
    assert!(extract(image_dict(lopdf_name("DCTDecode"), 1, 1 << 32), jpeg.clone()).is_none());
    assert!(extract(image_dict(lopdf_name("JPXDecode"), 1, 1), jpeg.clone()).is_none());
    assert!(extract(image_dict(Object::Null, 1, 1), jpeg.clone()).is_none());
    assert!(extract(image_dict(Object::Array(vec![]), 1, 1), jpeg.clone()).is_none());
    // Widths are cut to 32 bits.
    let img = extract(image_dict(lopdf_name("DCTDecode"), (1 << 32) + 5, 1), jpeg).unwrap();
    assert_eq!(img.width, 5);

    let mut doc = Document::new();
    let id = doc.add_object(Object::Integer(5));
    assert!(extract_image_xobject(&doc, id, 1, &place()).is_none());
    assert!(extract_image_xobject(&doc, (99, 0), 1, &place()).is_none());
}
