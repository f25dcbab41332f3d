use pdf_extractor::content::{decode_operations, PdfError};
use pdf_extractor::inline_images::check_images;
use pdf_extractor::object::PdfObject;

fn readable(data: &str) -> bool {
    check_images(&data.as_bytes().to_vec())
}

/// The operators of content that can be parsed.
fn operators(data: &[u8]) -> Vec<String> {
    assert!(check_images(&data.to_vec()));
    match decode_operations(&data.to_vec()) {
        Ok(ops) => ops.into_iter().map(|op| op.operator).collect(),
        Err(PdfError::Parse(text)) => panic!("{}", text),
    }
}

fn message(data: &str) -> Option<String> {
    match decode_operations(&data.as_bytes().to_vec()) {
        Ok(_) => None,
        Err(PdfError::Parse(text)) => Some(text),
    }
}

#[test]
fn images_with_all_they_need() {
    let one = "1 w BI /W 4 /H 1 /CS /RGB /BPC 8 ID abcdefghijkl EI Q";
    assert_eq!(operators(one.as_bytes()), ["w", "BI", "Q"]);
    assert_eq!(operators(b"q BI/W 4/H 4/BPC 1/IM true ID abcd EI Q"), ["q", "BI", "Q"]);
    let long = "BI /Width 2 /Height 2 /ColorSpace /DeviceGray /BitsPerComponent 8 /D [1 0] ID abcdEI";
    assert_eq!(operators(long.as_bytes()), ["BI"]);
    // A row takes full bytes: three pixels of four components of one bit are two.
    assert_eq!(operators(b"BI /W 3 /H 2 /CS /CMYK /BPC 1 ID abcd EI n"), ["BI", "n"]);
    assert!(readable("BI /W 65535 /H 65535 /CS /G /BPC 8 ID"));
}

#[test]
fn entries_of_any_kind() {
    let operators_with = |entries: &str| {
        operators(format!("BI /W 1 /H 1 /CS /Gray /BPC 8 {} ID x EI n", entries).as_bytes())
    };
    for entries in [
        "/W +1",
        "/DP <</K 1 /L [<</M (n)>>]>>",
        "/X (a string \\) with (parentheses))",
        "/X <48 65>",
        "/X 1 0 R",
        "/X [1 0 R 2 -.5 /N null]",
        "/X[[1][2[3]]]",
        "/X% a comment\n1",
        "/#57 1",
        "/X /Y#20Z",
        "/I false /X null /Y -1.5",
        "/X 99999999999.5",
    ] {
        assert_eq!(operators_with(entries), ["BI", "n"], "{}", entries);
    }
    // The last entry with a key counts.
    assert_eq!(operators_with("/W 9 /W 1"), ["BI", "n"]);
    assert_eq!(operators_with("/#57 9 /W 1"), ["BI", "n"]);
}

#[test]
fn images_without_a_color_space() {
    assert!(!readable("BI /W 4 /H 4 /BPC 8 ID xxx EI"));
    assert!(!readable("q BI /W 4 /H 4 /BPC 8 /IM false ID xxx EI"));
    assert!(!readable("BI /W 4 /H 4 /BPC 8 /IM (true) ID xxx EI"));
    assert!(!readable("BI /W 4 /H 4 /BPC 8 /IM true /IM false ID xxx EI"));
    assert!(!readable("BI /#57 4 /H 4 /BPC 8 ID xxx EI"));
    // The short form of a key comes before the long one.
    assert!(readable("BI /W 4 /H 4 /BPC 8 /ImageMask false /IM true ID xxx EI"));
    // Without a size they are no images anyway.
    assert!(readable("BI /H 4 /BPC 8 ID xxx EI"));
    assert!(readable("BI /W 4.0 /H 4 /BPC 8 ID xxx EI"));
    assert!(readable("BI ID EI"));
    // Behind another image, and behind its data.
    let first = "BI /W 2 /H 1 /CS /Gray /BPC 8 ID BIEI ";
    assert!(!readable(&format!("{}BI /W 4 /H 4 /BPC 8 ID", first)));
    assert!(readable(&format!("{}(BI /W 4 /H 4 /BPC 8 ID)", first)));
}

#[test]
fn images_that_are_too_large() {
    assert!(!readable("BI /W 100000000000 /H 100000000000 /CS /Gray /BPC 8 ID"));
    assert!(!readable("BI /W 4 /H 4 /CS /Gray /BPC 9223372036854775807 ID"));
    assert!(!readable("BI /W -1 /H 4 /CS /Gray /BPC 8 ID"));
    assert!(!readable("BI /W 8 /H -9223372036854775808 /CS /RGB /BPC 8 ID"));
    // What is no integer is left to the parser.
    assert!(readable("BI /W 4 /H 4 /CS /Gray /BPC 9999999999999999999 ID"));
    // So is an image of no rows, or with a color space that is not known.
    assert!(readable("BI /W -1 /H 0 /CS /Pattern /BPC 8 ID"));
    assert!(readable("BI /W -1 /H 4 /CS [/Indexed] /BPC 8 ID"));
}

#[test]
fn what_is_no_image() {
    assert_eq!(operators(b""), Vec::<String>::new());
    assert_eq!(operators(b"(BI%) Tj"), ["Tj"]);
    assert_eq!(operators(b"(Power BI % growth) Tj"), ["Tj"]);
    assert_eq!(operators(b"(BI /A (b)) Tj"), ["Tj"]);
    assert_eq!(operators(b"(\\)BI /W 4 /H 4 /BPC 8 ID) Tj"), ["Tj"]);
    assert_eq!(operators(b"/BI gs [/BI (BI /W 4 /H 4 /BPC 8 ID)]TJ"), ["gs", "TJ"]);
    assert_eq!(operators(b"/P<</BI(BI)/K[<42 49>]>>BDC EMC"), ["BDC", "EMC"]);
    assert_eq!(operators(b"BT /F1 12 Tf (BIRD ID) Tj T* ET"), ["BT", "Tf", "Tj", "T*", "ET"]);
    assert_eq!(operators(b"true false null 1 +2 -.5 3. ABI"), ["ABI"]);
    // An image in a comment, and one behind a comment.
    assert_eq!(operators(b"%BI /W 4 /H 4 /BPC 8 ID\nq"), ["q"]);
    assert!(!readable("%one\r%two\r\nBI /W 4 /H 4 /BPC 8 ID"));
    // The parser stops at what is no operation, and reads no more.
    assert_eq!(operators(b"q ) BI /W 4 /H 4 /BPC 8 ID"), ["q"]);
    assert_eq!(operators(b"q [1 2 BI /W 4 /H 4 /BPC 8 ID"), ["q"]);
    assert_eq!(operators(b"q 99999999999999999999 n BI /W 4 /H 4 /BPC 8 ID"), ["q"]);
}

#[test]
fn strings_nest_up_to_a_hundred_deep() {
    let nested = |n: usize| format!("{}{} Tj n", "(".repeat(n), ")".repeat(n));
    assert_eq!(operators(nested(101).as_bytes()), ["Tj", "n"]);
    assert_eq!(operators(nested(102).as_bytes()), Vec::<String>::new());
    let image = " BI /W 4 /H 4 /BPC 8 ID";
    assert!(!readable(&(nested(101) + image)));
    assert!(readable(&(nested(102) + image)));
}

#[test]
fn operations() {
    let ops = decode_operations(&b"/F1 12.5 Tf [(a) -7] TJ BI /W 1 /H 1 /CS /Gray /BPC 8 ID xEI n".to_vec());
    let Ok(ops) = ops else {
        panic!("operations");
    };
    let names: Vec<&str> = ops.iter().map(|op| op.operator.as_str()).collect();
    assert_eq!(names, vec!["Tf", "TJ", "BI", "n"]);
    assert!(matches!(&ops[0].operands[0], PdfObject::Name(n) if n == b"F1"));
    assert!(matches!(&ops[0].operands[1], PdfObject::Real(x) if x.bits == 12.5f32.to_bits()));
    let PdfObject::Array(a) = &ops[1].operands[0] else {
        panic!("an array");
    };
    assert!(matches!(&a[0], PdfObject::String(s) if s == b"a"));
    assert!(matches!(&a[1], PdfObject::Integer(-7)));
}

#[test]
fn errors() {
    assert_eq!(
        message("BI /W 4 /H 4 /BPC 8 ID xxx EI"),
        Some("unreadable inline image".to_string())
    );
    // What the parser does not read comes with its own text.
    for data in [
        "BI /W 1 /H 1 /CS /Gray /BPC 8 /F /Fl ID x EI",
        "BI /W 1 /H 1 /CS /Gray /BPC 9999999999999999999 ID x EI",
        "BI /W 1 /H 1 /CS /Indexed /BPC 8 ID x EI",
        "BI /W 9 /H 9 /CS /Gray /BPC 8 ID x EI",
        "BI /W 1 /H 1 /CS /Gray /BPC 8 ID x",
        "BI /X (",
        "BI",
    ] {
        let text = message(data).unwrap();
        assert!(text.starts_with("couldn't parse input"), "{}", text);
    }
    assert_eq!(message("q Q"), None);
}
