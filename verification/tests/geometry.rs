use pdf_extractor::geometry::{
    correct_rotated_page, identity, multiply_matrices, ItemType, Matrix, PdfLine, PdfRect,
    RotationVotes, TextItem,
};
use pdf_extractor::single::Single;

fn s(x: f32) -> Single {
    Single { bits: x.to_bits() }
}

fn f(x: Single) -> f32 {
    f32::from_bits(x.bits)
}

fn matrix(m: [f32; 6]) -> Matrix {
    Matrix { a: s(m[0]), b: s(m[1]), c: s(m[2]), d: s(m[3]), e: s(m[4]), f: s(m[5]) }
}

fn numbers(m: &Matrix) -> [f32; 6] {
    [f(m.a), f(m.b), f(m.c), f(m.d), f(m.e), f(m.f)]
}

fn item(text: &str, x: f32, y: f32, width: f32) -> TextItem {
    TextItem {
        text: text.to_string(),
        x: s(x),
        y: s(y),
        width: s(width),
        height: s(9.0),
        font: "F1".to_string(),
        font_size: s(10.0),
        page: 4,
        is_bold: true,
        is_italic: false,
        item_type: ItemType::Text,
        mcid: Some(3),
    }
}

#[test]
fn products_of_matrices() {
    let m = [1.5, 0.25, -0.5, 2.0, 10.1, -7.3];
    let n = [0.1, 0.7, -0.3, 1.1, 100.0, 33.3];
    let expected = [
        m[0] * n[0] + m[1] * n[2],
        m[0] * n[1] + m[1] * n[3],
        m[2] * n[0] + m[3] * n[2],
        m[2] * n[1] + m[3] * n[3],
        m[4] * n[0] + m[5] * n[2] + n[4],
        m[4] * n[1] + m[5] * n[3] + n[5],
    ];
    assert_eq!(numbers(&multiply_matrices(&matrix(m), &matrix(n))), expected);
    assert_eq!(numbers(&multiply_matrices(&matrix(m), &identity())), m);
    assert_eq!(numbers(&multiply_matrices(&identity(), &matrix(n))), n);
}

#[test]
fn points_and_moves() {
    let m = [1.5f32, 0.25, -0.5, 2.0, 10.1, -7.3];
    let (x, y) = matrix(m).apply(s(3.0), s(4.0));
    assert_eq!((f(x), f(y)), (3.0 * m[0] + 4.0 * m[2] + m[4], 3.0 * m[1] + 4.0 * m[3] + m[5]));
    let moved = numbers(&matrix(m).moved_by(s(3.0), s(4.0)));
    assert_eq!(moved[4], m[4] + (3.0 * m[0] + 4.0 * m[2]));
    assert_eq!(moved[5], m[5] + (3.0 * m[1] + 4.0 * m[3]));
    let advanced = numbers(&matrix(m).advanced_by(s(0.3)));
    assert_eq!(&advanced[4..], &[m[4] + 0.3 * m[0], m[5] + 0.3 * m[1]]);
    let lowered = numbers(&matrix(m).lowered_by(s(12.5)));
    assert_eq!(&lowered[4..], &[m[4] + (-12.5) * m[2], m[5] + (-12.5) * m[3]]);
    assert_eq!(&lowered[..4], &m[..4]);
}

#[test]
fn directions() {
    assert!(matrix([1.0, 0.0, 0.0, 1.0, 0.0, 0.0]).is_horizontal());
    assert!(matrix([-2.0, 1.0, 0.0, 1.0, 0.0, 0.0]).is_horizontal());
    assert!(matrix([1.0, -1.0, 0.0, 1.0, 0.0, 0.0]).is_horizontal());
    assert!(!matrix([0.0, 1.0, -1.0, 0.0, 0.0, 0.0]).is_horizontal());
    assert!(!matrix([f32::NAN, 0.0, 0.0, 0.0, 0.0, 0.0]).is_horizontal());
}

#[test]
fn turned_pages_are_set_upright() {
    let items = vec![item("word", 100.0, 20.0, 0.0), item("wide", 30.0, 40.0, 25.0)];
    let rects = vec![PdfRect { x: s(5.0), y: s(6.0), width: s(-7.0), height: s(8.0), page: 4 }];
    let lines = vec![PdfLine { x1: s(1.0), y1: s(2.0), x2: s(3.0), y2: s(4.0), page: 4 }];
    let votes = RotationVotes { horizontal: 1, rotated: 2 };
    let (items, rects, lines, turned) = correct_rotated_page(items, rects, lines, &votes);
    assert!(turned);
    // The width of four characters of ten points is estimated as twenty.
    assert_eq!((f(items[0].x), f(items[0].y), f(items[0].width)), (20.0, -100.0, 20.0));
    assert_eq!((f(items[1].x), f(items[1].y), f(items[1].width)), (40.0, -30.0, 25.0));
    assert_eq!(items[0].text, "word");
    assert_eq!((items[0].page, items[0].mcid, items[0].is_bold), (4, Some(3), true));
    assert_eq!(
        rects,
        vec![PdfRect { x: s(6.0), y: s(-12.0), width: s(8.0), height: s(-7.0), page: 4 }]
    );
    assert_eq!(
        lines,
        vec![PdfLine { x1: s(2.0), y1: s(-1.0), x2: s(4.0), y2: s(-3.0), page: 4 }]
    );
}

#[test]
fn characters_are_counted_not_bytes() {
    let items = vec![item("äöü", 0.0, 0.0, 0.25), item("", 0.0, 0.0, f32::NAN)];
    let votes = RotationVotes { horizontal: 0, rotated: 1 };
    let (items, _, _, _) = correct_rotated_page(items, vec![], vec![], &votes);
    assert_eq!(f(items[0].width), 15.0);
    assert!(f(items[1].width).is_nan());
}

#[test]
fn other_pages_stay() {
    let page = |n: usize, horizontal: u32, rotated: u32| {
        let items: Vec<TextItem> = (0..n).map(|i| item("x", i as f32, 7.0, 0.0)).collect();
        let rects = vec![PdfRect { x: s(1.0), y: s(2.0), width: s(3.0), height: s(4.0), page: 4 }];
        let lines = vec![PdfLine { x1: s(1.0), y1: s(2.0), x2: s(3.0), y2: s(4.0), page: 4 }];
        let votes = RotationVotes { horizontal, rotated };
        let (i, r, l, turned) = correct_rotated_page(items, rects.clone(), lines.clone(), &votes);
        assert_eq!(i.len(), n);
        if !turned {
            assert_eq!((r, l), (rects, lines));
            assert!(i.iter().all(|i| f(i.y) == 7.0 && f(i.width) == 0.0));
        }
        turned
    };
    assert!(!page(1, 0, 9));
    assert!(!page(2, 0, 0));
    assert!(!page(2, 2, 3));
    assert!(page(2, 1, 2));
    assert!(!page(2, 34, 66));
    assert!(page(2, 33, 66));
    assert!(page(2, u32::MAX / 2, u32::MAX));
}

#[test]
fn four_turns_restore_lines() {
    let line = PdfLine { x1: s(1.5), y1: s(-2.5), x2: s(0.0), y2: s(4.0), page: 1 };
    let mut lines = vec![line];
    let votes = RotationVotes { horizontal: 0, rotated: 1 };
    for _ in 0..4 {
        let items = vec![item("a", 1.0, 2.0, 3.0), item("b", 4.0, 5.0, 6.0)];
        lines = correct_rotated_page(items, vec![], lines, &votes).2;
    }
    assert_eq!(lines, vec![line]);
}
