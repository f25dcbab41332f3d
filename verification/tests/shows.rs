use pdf_extractor::object::PdfObject;
use pdf_extractor::shows::{find_space_threshold, lay_out, ElementReply, FontMetrics, Layout};
use pdf_extractor::single::Single;

fn s(x: f32) -> Single {
    Single { bits: x.to_bits() }
}

fn f(x: Single) -> f32 {
    f32::from_bits(x.bits)
}

/// Lays out strings with the width 10, and numbers; the pieces and the total.
fn lay(parts: &[&str], visible: bool) -> (Vec<(String, f32, f32)>, f32) {
    let mut elements = Vec::new();
    let mut replies = Vec::new();
    for part in parts {
        if let Ok(n) = part.parse::<i64>() {
            elements.push(PdfObject::Integer(n));
            replies.push(ElementReply { width: None, text: None });
        } else if let Ok(x) = part.parse::<f32>() {
            elements.push(PdfObject::Real(s(x)));
            replies.push(ElementReply { width: None, text: None });
        } else {
            elements.push(PdfObject::String(part.as_bytes().to_vec()));
            replies.push(ElementReply { width: Some(s(10.0)), text: Some(part.to_string()) });
        }
    }
    let layout = Layout { size: s(2.0), space: s(100.0), visible };
    let (pieces, total) = lay_out(&elements, &replies, &layout);
    (pieces.into_iter().map(|p| (p.text, f(p.start), f(p.end))).collect(), f(total))
}

fn piece(text: &str, start: f32, end: f32) -> (String, f32, f32) {
    (text.to_string(), start, end)
}

#[test]
fn thresholds() {
    assert_eq!(f(find_space_threshold(&None)), 120.0);
    let metrics = |w: i64, scale: f32| {
        let m = FontMetrics { space_width: w, units_scale: s(scale) };
        f(find_space_threshold(&Some(m)))
    };
    assert_eq!(metrics(600, 0.001), 600f32 * 0.001 * 1000.0 * 0.4);
    // At least 80, also where the product is no number.
    assert_eq!(metrics(100, 0.001), 80.0);
    assert_eq!(metrics(1, f32::NAN), 80.0);
    assert_eq!(metrics(-5, 1.0), 80.0);
}

#[test]
fn narrow_gaps_join() {
    assert_eq!(lay(&["a", "-100", "b", "50", "c"], true), (vec![piece("abc", 0.0, 30.1)], 30.1));
    assert_eq!(lay(&[], true), (vec![], 0.0));
}

#[test]
fn wide_gaps_are_spaces() {
    let (pieces, total) = lay(&["a", "-150", "b", "-150.5", "c"], true);
    assert_eq!(pieces[0].0, "a b c");
    assert_eq!(total, 10.0 + 0.15 * 2.0 + 10.0 + 150.5f32 / 1000.0 * 2.0 + 10.0);
    // No space at the start, none after a space, and one gap after the other.
    assert_eq!(lay(&["-150", "a", "-150", "-150", "b "], true).0[0].0, "a b ");
    assert_eq!(lay(&["a ", "-150", "b"], true).0[0].0, "a b");
}

#[test]
fn gaps_between_columns_split() {
    assert_eq!(
        lay(&["a", "-500", "b"], true),
        (vec![piece("a", 0.0, 10.0), piece("b", 11.0, 21.0)], 21.0)
    );
    // Four times the space itself is still a space.
    assert_eq!(lay(&["a", "-400", "b"], true).0.len(), 1);
    assert_eq!(lay(&["a", "-401", "b"], true).0.len(), 2);
    assert_eq!(lay(&["a", "-400.5", "b"], true).0.len(), 2);
    // Nothing to split off at the start; blank pieces but the last are kept.
    assert_eq!(lay(&["-500", "a"], true), (vec![piece("a", 0.0, 11.0)], 11.0));
    assert_eq!(lay(&[" ", "-500", " "], true), (vec![piece(" ", 0.0, 10.0)], 21.0));
}

#[test]
fn hidden_text_has_the_same_width() {
    let parts = ["a", "-500", "b", "-150", "c"];
    assert_eq!(lay(&parts, false), (vec![], lay(&parts, true).1));
}

#[test]
fn strings_without_width_or_text() {
    let elements = vec![
        PdfObject::String(vec![1]),
        PdfObject::Name(b"x".to_vec()),
        PdfObject::String(vec![2]),
    ];
    let replies = vec![
        ElementReply { width: None, text: Some("a".to_string()) },
        ElementReply { width: None, text: None },
        ElementReply { width: Some(s(4.0)), text: None },
    ];
    let layout = Layout { size: s(1.0), space: s(100.0), visible: true };
    let (pieces, total) = lay_out(&elements, &replies, &layout);
    assert_eq!(pieces.len(), 1);
    assert_eq!(pieces[0].text, "a");
    assert_eq!(f(total), 4.0);
}
