use pdf_extractor::geometry::{ItemType, RotationVotes, TextItem};
use pdf_extractor::images::{ExtractedImage, ImageFormat};
use pdf_extractor::object::{Operation, PdfObject};
use pdf_extractor::operators::{find_operator, Operator};
use pdf_extractor::page::{Mark, PageItem, PageState, Reply, Settings, ShownText};
use pdf_extractor::shows::{ElementReply, FontMetrics};
use pdf_extractor::single::Single;

fn s(x: f32) -> Single {
    Single { bits: x.to_bits() }
}

fn f(x: Single) -> f32 {
    f32::from_bits(x.bits)
}

const PAGE: Settings = Settings { page: 1, include_invisible: false };

fn op(operator: &str, operands: Vec<PdfObject>) -> Operation {
    Operation { operator: operator.to_string(), operands }
}

fn numbers(xs: &[f32]) -> Vec<PdfObject> {
    xs.iter().map(|&x| PdfObject::Real(s(x))).collect()
}

/// Does operations without replies, each written as its operands and operator.
fn run(state: &mut PageState, text: &str) {
    for part in text.split(';') {
        let words: Vec<&str> = part.split_whitespace().collect();
        let (operator, operands) = words.split_last().unwrap();
        let operands = operands
            .iter()
            .map(|w| match w.parse::<f32>() {
                Ok(x) => PdfObject::Real(s(x)),
                Err(_) => PdfObject::Name(w.as_bytes().to_vec()),
            })
            .collect();
        state.step(&op(operator, operands), Reply::Nothing, &PAGE);
    }
}

fn reply(width: Option<f32>, text: Option<&str>) -> Reply {
    let element = ElementReply { width: width.map(s), text: text.map(|t| t.to_string()) };
    Reply::Show { metrics: None, elements: vec![element] }
}

/// Shows a string with a width and a text.
fn show(state: &mut PageState, width: Option<f32>, text: Option<&str>) {
    let string = vec![PdfObject::String(b"?".to_vec())];
    state.step(&op("Tj", string), reply(width, text), &PAGE);
}

fn mark(state: &mut PageState, actual_text: Option<&str>, mcid: Option<i64>) {
    let mark = Mark { actual_text: actual_text.map(|t| t.to_string()), mcid };
    state.step(&op("BDC", vec![]), Reply::Mark(mark), &PAGE);
}

fn shown(item: &PageItem) -> &ShownText {
    match item {
        PageItem::Shown(s) => s,
        PageItem::Ready(_) => panic!("a shown text"),
    }
}

/// The text, x, y and width of the shown items.
fn texts(state: &PageState) -> Vec<(&str, f32, f32, f32)> {
    state
        .items
        .iter()
        .map(|i| {
            let t = shown(i);
            (t.text.as_str(), f(t.x), f(t.y), f(t.width))
        })
        .collect()
}

fn place(state: &PageState) -> (f32, f32) {
    (f(state.text_matrix.e), f(state.text_matrix.f))
}

#[test]
fn operators_by_their_spelling() {
    for (text, expected) in [
        ("q", Operator::Save),
        ("Q", Operator::Restore),
        ("Td", Operator::Move { sets_leading: false }),
        ("TD", Operator::Move { sets_leading: true }),
        ("T*", Operator::NextLine),
        ("'", Operator::NextLineShow),
        ("b*", Operator::Stroke { close: true }),
        ("B*", Operator::Stroke { close: false }),
        ("F", Operator::Fill),
        ("W*", Operator::Clip),
        ("\"", Operator::Other),
        ("", Operator::Other),
        ("Do ", Operator::Other),
    ] {
        assert_eq!(find_operator(text), expected, "{text}");
    }
}

#[test]
fn saving_and_restoring() {
    let mut page = PageState::new();
    run(&mut page, "2 0 0 2 5 6 cm; 3 Tr; 0.5 Tc; 0.25 Tw; q; 1 0 0 1 1 1 cm; q; 0 Tr; Q; 9 Tc; 8 Tw; 1 Tr; Q");
    assert_eq!((f(page.graphics.ctm.a), f(page.graphics.ctm.e)), (2.0, 5.0));
    assert_eq!(page.graphics.rendering_mode, 3);
    assert_eq!((f(page.graphics.char_spacing), f(page.graphics.word_spacing)), (0.5, 0.25));
    assert!(page.saved.is_empty());
    // Nothing is left to restore.
    run(&mut page, "Q; Q");
    assert_eq!(f(page.graphics.ctm.a), 2.0);
}

#[test]
fn matrices_multiply_from_the_left() {
    let mut page = PageState::new();
    run(&mut page, "2 0 0 2 0 0 cm; 1 0 0 1 10 20 cm");
    assert_eq!((f(page.graphics.ctm.e), f(page.graphics.ctm.f)), (20.0, 40.0));
    // Too few operands do nothing, and what is no number counts as in the identity.
    run(&mut page, "5 5 5 cm; x x x x x x cm");
    assert_eq!((f(page.graphics.ctm.a), f(page.graphics.ctm.e)), (2.0, 20.0));
}

#[test]
fn fonts_and_parameters() {
    let mut page = PageState::new();
    assert_eq!(f(page.font_size), 12.0);
    run(&mut page, "F1 9.5 Tf");
    assert_eq!((page.font.as_str(), f(page.font_size)), ("F1", 9.5));
    page.step(&op("Tf", vec![PdfObject::Null, PdfObject::Integer(8)]), Reply::Nothing, &PAGE);
    assert_eq!((page.font.as_str(), f(page.font_size)), ("F1", 8.0));
    let name = PdfObject::Name(b"A\xff".to_vec());
    page.step(&op("Tf", vec![name, PdfObject::Null]), Reply::Nothing, &PAGE);
    assert_eq!((page.font.as_str(), f(page.font_size)), ("A\u{fffd}", 8.0));
    run(&mut page, "F9 Tf; TL; x Tc");
    assert_eq!((page.font.as_str(), f(page.leading)), ("A\u{fffd}", 0.0));
    // Rendering modes are cut to integers.
    run(&mut page, "3.9 Tr");
    assert_eq!(page.graphics.rendering_mode, 3);
    run(&mut page, "1e20 Tr");
    assert_eq!(page.graphics.rendering_mode, i32::MAX);
    run(&mut page, "BT");
    assert_eq!(page.graphics.rendering_mode, 0);
}

#[test]
fn text_positions() {
    let mut page = PageState::new();
    run(&mut page, "BT; 2 0 0 2 100 200 Tm; 5 -10 Td");
    assert_eq!(place(&page), (110.0, 180.0));
    run(&mut page, "1 -4 TD");
    assert_eq!((place(&page), f(page.leading)), ((112.0, 172.0), 4.0));
    run(&mut page, "T*");
    assert_eq!(place(&page), (112.0, 164.0));
    // Without leading a line is 1.2 times the font size.
    run(&mut page, "0 TL; F1 10 Tf; T*");
    assert_eq!(place(&page), (112.0, 164.0 - 24.0));
    run(&mut page, "ET; BT");
    assert_eq!(place(&page), (0.0, 0.0));
    assert!(page.in_text_block);
}

#[test]
fn shown_strings() {
    let mut page = PageState::new();
    run(&mut page, "2 0 0 2 1 1 cm; F1 10 Tf; BT; 1 0 0 1 50 60 Tm");
    show(&mut page, Some(7.5), Some("one"));
    show(&mut page, None, Some("two"));
    assert_eq!(texts(&page), vec![("one", 101.0, 121.0, 15.0), ("two", 116.0, 121.0, 0.0)]);
    assert_eq!(place(&page), (57.5, 60.0));
    let item = shown(&page.items[0]);
    assert_eq!((item.font.as_str(), f(item.size), item.mcid), ("F1", 10.0, None));
    assert_eq!((f(item.matrix.a), f(item.matrix.e)), (2.0, 101.0));
    assert_eq!(page.votes, RotationVotes { horizontal: 2, rotated: 0 });
    // A blank text moves on and votes, one that cannot be told does neither.
    show(&mut page, Some(1.0), Some(" \u{a0}"));
    assert_eq!((page.items.len(), page.votes.horizontal, place(&page).0), (2, 3, 58.5));
    show(&mut page, Some(1.0), None);
    assert_eq!((page.items.len(), page.votes.horizontal, place(&page).0), (2, 3, 58.5));
    // Outside a text block nothing is shown.
    run(&mut page, "ET");
    show(&mut page, Some(1.0), Some("three"));
    assert_eq!((page.items.len(), place(&page).0), (2, 58.5));
}

#[test]
fn turned_text_votes() {
    let mut page = PageState::new();
    run(&mut page, "BT; 0 1 -1 0 30 40 Tm");
    show(&mut page, Some(5.0), Some("up"));
    assert_eq!(page.votes, RotationVotes { horizontal: 0, rotated: 1 });
    assert_eq!(texts(&page), vec![("up", 30.0, 40.0, 0.0)]);
    assert_eq!(place(&page), (30.0, 45.0));
}

#[test]
fn invisible_text_only_moves_on() {
    let mut page = PageState::new();
    run(&mut page, "BT; 3 Tr");
    show(&mut page, Some(5.0), Some("ghost"));
    assert_eq!((page.items.len(), page.votes.horizontal, place(&page).0), (0, 0, 5.0));
    let array = vec![PdfObject::Array(vec![PdfObject::Integer(-2000)])];
    let metrics = Some(FontMetrics { space_width: 250, units_scale: s(0.001) });
    let none = vec![ElementReply { width: None, text: None }];
    page.step(&op("TJ", array), Reply::Show { metrics, elements: none }, &PAGE);
    assert_eq!((page.items.len(), place(&page).0), (0, 5.0 + 24.0));
    // It is extracted where it is wanted.
    let all = Settings { page: 1, include_invisible: true };
    let string = vec![PdfObject::String(vec![])];
    page.step(&op("Tj", string), reply(None, Some("layer")), &all);
    assert_eq!(texts(&page), vec![("layer", 29.0, 0.0, 0.0)]);
}

#[test]
fn shown_arrays() {
    let mut page = PageState::new();
    run(&mut page, "F1 10 Tf; BT; 1 0 0 1 50 60 Tm");
    let strings = vec![
        PdfObject::String(b"a".to_vec()),
        PdfObject::Integer(-1000),
        PdfObject::String(b"b".to_vec()),
    ];
    let elements = || {
        vec![
            ElementReply { width: Some(s(6.0)), text: Some("a".to_string()) },
            ElementReply { width: None, text: None },
            ElementReply { width: Some(s(4.0)), text: Some("b".to_string()) },
        ]
    };
    let metrics = Some(FontMetrics { space_width: 250, units_scale: s(0.001) });
    let array = op("TJ", vec![PdfObject::Array(strings)]);
    page.step(&array, Reply::Show { metrics, elements: elements() }, &PAGE);
    assert_eq!(texts(&page), vec![("a", 50.0, 60.0, 6.0), ("b", 66.0, 60.0, 4.0)]);
    assert_eq!(place(&page), (70.0, 60.0));
    assert_eq!(page.votes.horizontal, 1);
    // In an unknown font the pieces have no width, and the text does not move on.
    page.step(&array, Reply::Show { metrics: None, elements: elements() }, &PAGE);
    assert_eq!(texts(&page)[2..], [("a", 70.0, 60.0, 0.0), ("b", 86.0, 60.0, 0.0)]);
    assert_eq!(place(&page), (70.0, 60.0));
    // What is no array shows nothing.
    run(&mut page, "name TJ");
    assert_eq!(page.items.len(), 4);
}

#[test]
fn strings_on_the_next_line() {
    let mut page = PageState::new();
    run(&mut page, "BT; 1 0 0 1 50 60 Tm; 14 TL");
    let string = || vec![PdfObject::String(b"?".to_vec())];
    page.step(&op("'", string()), reply(Some(9.0), Some("next")), &PAGE);
    assert_eq!(texts(&page), vec![("next", 50.0, 46.0, 0.0)]);
    assert_eq!(place(&page), (50.0, 46.0));
    // Blank and hidden text adds nothing, and gives no vote.
    page.step(&op("'", string()), reply(None, Some(" ")), &PAGE);
    run(&mut page, "3 Tr; '");
    page.step(&op("'", string()), reply(None, Some("x")), &PAGE);
    assert_eq!((page.items.len(), page.votes.horizontal, place(&page).1), (1, 1, 4.0));
}

#[test]
fn ids_of_marks() {
    let mut page = PageState::new();
    run(&mut page, "BT");
    mark(&mut page, None, Some(5));
    run(&mut page, "Span BMC");
    show(&mut page, None, Some("in"));
    mark(&mut page, None, Some(6));
    show(&mut page, None, Some("deeper"));
    run(&mut page, "EMC; EMC; EMC; EMC");
    show(&mut page, None, Some("out"));
    let ids: Vec<Option<i64>> = page.items.iter().map(|i| shown(i).mcid).collect();
    assert_eq!(ids, vec![Some(5), Some(6), None]);
}

#[test]
fn replacing_texts() {
    let mut page = PageState::new();
    run(&mut page, "BT; 1 0 0 1 50 60 Tm");
    mark(&mut page, None, Some(4));
    mark(&mut page, Some("fi"), None);
    run(&mut page, "10 -5 Td");
    show(&mut page, Some(3.0), None);
    show(&mut page, Some(4.0), None);
    run(&mut page, "EMC");
    // One item, where the first glyph stands, as wide as the glyphs.
    assert_eq!(texts(&page), vec![("fi", 60.0, 55.0, 7.0)]);
    assert_eq!(shown(&page.items[0]).mcid, Some(4));
    show(&mut page, Some(1.0), Some("x"));
    assert_eq!(texts(&page)[1], ("x", 67.0, 55.0, 1.0));
    // Without glyphs, where the mark begins; and its own id comes first.
    mark(&mut page, Some("empty"), Some(9));
    run(&mut page, "3 0 Td; EMC");
    assert_eq!(texts(&page)[2], ("empty", 68.0, 55.0, 5.0));
    assert_eq!(shown(&page.items[2]).mcid, Some(9));
    // A blank one leaves no item.
    mark(&mut page, Some(" "), None);
    show(&mut page, Some(1.0), Some("y"));
    run(&mut page, "EMC");
    assert_eq!(page.items.len(), 3);
}

#[test]
fn nested_replacing_texts() {
    let mut page = PageState::new();
    run(&mut page, "BT");
    mark(&mut page, Some("outer"), None);
    mark(&mut page, Some("inner"), None);
    show(&mut page, Some(2.0), Some("x"));
    run(&mut page, "EMC");
    assert!(page.suppressed);
    show(&mut page, Some(2.0), Some("y"));
    run(&mut page, "EMC");
    // The place of the inner mark is used up; the glyph after it gives the next.
    assert_eq!(texts(&page), vec![("inner", 0.0, 0.0, 2.0), ("outer", 2.0, 0.0, 2.0)]);
    assert!(!page.suppressed);
}

fn ready(text: &str) -> TextItem {
    TextItem {
        text: text.to_string(),
        x: s(0.0),
        y: s(0.0),
        width: s(1.0),
        height: s(1.0),
        font: String::new(),
        font_size: s(1.0),
        page: 1,
        is_bold: false,
        is_italic: false,
        item_type: ItemType::Text,
        mcid: None,
    }
}

#[test]
fn forms_and_images() {
    let image = |width: u32| ExtractedImage {
        page: 1,
        x: s(0.0),
        y: s(0.0),
        width,
        height: 40,
        format: ImageFormat::Jpeg,
        data: vec![],
    };
    let mut page = PageState::new();
    run(&mut page, "1 0 0 1 50 60 cm");
    page.step(&op("Do", vec![]), Reply::Image(image(30)), &PAGE);
    page.step(&op("Do", vec![]), Reply::Form(vec![ready("a"), ready("b")]), &PAGE);
    page.step(&op("Do", vec![]), Reply::Image(image(31)), &PAGE);
    page.step(&op("Do", vec![]), Reply::Nothing, &PAGE);
    let items: Vec<&TextItem> = page
        .items
        .iter()
        .map(|i| match i {
            PageItem::Ready(t) => t,
            PageItem::Shown(_) => panic!("a complete item"),
        })
        .collect();
    let texts: Vec<&str> = items.iter().map(|i| i.text.as_str()).collect();
    assert_eq!(texts, vec!["0", "a", "b", "1"]);
    assert_eq!(items[0].item_type, ItemType::Image);
    assert_eq!((f(items[0].x), f(items[0].y)), (50.0, 60.0));
    assert_eq!((f(items[0].width), f(items[0].height), f(items[0].font_size)), (30.0, 40.0, 0.0));
    assert_eq!(page.images.len(), 2);
    assert_eq!(page.images[1].width, 31);
}

#[test]
fn paths_of_a_page() {
    let mut page = PageState::new();
    run(&mut page, "1 0 0 1 10 0 cm; 1 2 30 40 re; 1 2 3 re");
    assert_eq!(page.paths.rects.len(), 1);
    assert_eq!((f(page.paths.rects[0].x), page.paths.rects[0].page), (11.0, 1));
    run(&mut page, "0 0 m; 5 0 l; S; 0 0 m; 5 0 l; 5 5 l; s; 0 0 m; 5 0 l; 5 5 l; b*");
    assert_eq!(page.paths.lines.len(), 1 + 3 + 3);
    run(&mut page, "0 0 m; 9 0 l; 9 9 l; 0 9 l; h; W; n; 0 0 m; 9 0 l; 9 9 l; 0 9 l; f");
    assert_eq!((page.paths.clip_rects.len(), page.paths.fill_rects.len()), (1, 1));
    run(&mut page, "0 0 m; 9 0 l; n; S; unknown");
    assert_eq!(page.paths.lines.len(), 7);
    // A single operand is no point.
    page.step(&op("m", numbers(&[1.0])), Reply::Nothing, &PAGE);
    assert_eq!(page.paths.current, None);
}
