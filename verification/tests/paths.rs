use pdf_extractor::geometry::{identity, Matrix, PdfLine, PdfRect};
use pdf_extractor::paths::{Paths, Point};
use pdf_extractor::single::Single;

fn s(x: f32) -> Single {
    Single { bits: x.to_bits() }
}

fn p(x: f32, y: f32) -> Point {
    Point { x: s(x), y: s(y) }
}

fn scaled() -> Matrix {
    Matrix { a: s(2.0), d: s(3.0), e: s(10.0), f: s(20.0), ..identity() }
}

fn rect(x: f32, y: f32, w: f32, h: f32) -> PdfRect {
    PdfRect { x: s(x), y: s(y), width: s(w), height: s(h), page: 1 }
}

fn line(x1: f32, y1: f32, x2: f32, y2: f32) -> PdfLine {
    PdfLine { x1: s(x1), y1: s(y1), x2: s(x2), y2: s(y2), page: 1 }
}

/// A path through some points.
fn path(points: &[(f32, f32)]) -> Paths {
    let mut paths = Paths::new();
    paths.move_to(p(points[0].0, points[0].1));
    for &(x, y) in &points[1..] {
        paths.line_to(p(x, y));
    }
    paths
}

#[test]
fn rectangles_as_such() {
    let mut paths = Paths::new();
    paths.rectangle(s(1.0), s(2.0), s(3.0), s(-4.0), &scaled(), 1);
    assert_eq!(paths.rects, vec![rect(12.0, 26.0, 6.0, -12.0)]);
}

#[test]
fn strokes() {
    let mut paths = path(&[(0.0, 0.0), (5.0, 0.0), (5.0, 7.0)]);
    paths.stroke(false, &scaled(), 1);
    assert_eq!(
        paths.lines,
        vec![line(10.0, 20.0, 20.0, 20.0), line(20.0, 20.0, 20.0, 41.0)]
    );
    // The path has ended.
    paths.line_to(p(1.0, 1.0));
    paths.stroke(true, &scaled(), 1);
    assert_eq!(paths.lines.len(), 2);
}

#[test]
fn strokes_that_close() {
    let mut paths = path(&[(0.0, 0.0), (5.0, 0.0), (5.0, 7.0)]);
    paths.stroke(true, &identity(), 1);
    assert_eq!(paths.lines[2], line(5.0, 7.0, 0.0, 0.0));
    // Within a hundredth the path counts as closed.
    let mut paths = path(&[(0.0, 0.0), (5.0, 0.0), (0.005, 0.005)]);
    paths.stroke(true, &identity(), 1);
    assert_eq!(paths.lines.len(), 2);
    let mut paths = path(&[(0.0, 0.0), (5.0, 0.0), (0.0, 0.02)]);
    paths.stroke(true, &identity(), 1);
    assert_eq!(paths.lines.len(), 3);
}

#[test]
fn closed_subpaths_are_not_stroked() {
    let mut paths = path(&[(0.0, 0.0), (5.0, 0.0), (5.0, 7.0)]);
    paths.close();
    assert_eq!(paths.pending_subpaths.len(), 1);
    assert_eq!(paths.pending_subpaths[0].len(), 3);
    assert_eq!(paths.current, Some(p(0.0, 0.0)));
    paths.close();
    assert_eq!(paths.pending_subpaths.len(), 1);
    paths.line_to(p(1.0, 1.0));
    paths.stroke(false, &identity(), 1);
    assert_eq!(paths.lines, vec![line(0.0, 0.0, 1.0, 1.0)]);
    assert!(paths.pending_subpaths.is_empty());
}

#[test]
fn filled_boxes() {
    let corners = [(1.0, 2.0), (5.0, 2.0), (5.0, 8.0), (1.0, 8.0)];
    let expected = vec![rect(12.0, 26.0, 8.0, 18.0)];
    // Left open after three segments, closed by the fourth, and closed.
    let mut paths = path(&corners);
    paths.fill(&scaled(), 1);
    assert_eq!(paths.fill_rects, expected);
    let mut paths = path(&[corners[0], corners[1], corners[2], corners[3], corners[0]]);
    paths.fill(&scaled(), 1);
    assert_eq!(paths.fill_rects, expected);
    let mut paths = path(&corners);
    paths.close();
    paths.fill(&scaled(), 1);
    assert_eq!(paths.fill_rects, expected);
    assert_eq!((paths.start, paths.current), (None, None));
}

#[test]
fn fills_of_several_subpaths() {
    let mut paths = path(&[(0.0, 0.0), (9.0, 0.0), (9.0, 9.0), (0.0, 9.0)]);
    paths.close();
    paths.move_to(p(20.0, 0.0));
    for (x, y) in [(29.0, 0.0), (29.0, 9.0), (20.0, 9.0)] {
        paths.line_to(p(x, y));
    }
    paths.fill(&identity(), 1);
    assert_eq!(paths.fill_rects, vec![rect(0.0, 0.0, 9.0, 9.0), rect(20.0, 0.0, 9.0, 9.0)]);
}

#[test]
fn what_is_no_box() {
    let filled = |points: &[(f32, f32)]| {
        let mut paths = path(points);
        paths.fill(&identity(), 1);
        paths.fill_rects
    };
    // A triangle, a trapezoid, five segments, and boxes that are too thin.
    assert_eq!(filled(&[(0.0, 0.0), (9.0, 0.0), (0.0, 9.0)]), vec![]);
    assert_eq!(filled(&[(0.0, 0.0), (9.0, 0.0), (7.0, 9.0), (2.0, 9.0)]), vec![]);
    assert_eq!(
        filled(&[(0.0, 0.0), (9.0, 0.0), (9.0, 9.0), (5.0, 9.0), (0.0, 9.0), (0.0, 0.0)]),
        vec![]
    );
    assert_eq!(filled(&[(0.0, 0.0), (1.0, 0.0), (1.0, 9.0), (0.0, 9.0)]), vec![]);
    assert_eq!(filled(&[(0.0, 0.0), (9.0, 0.0), (9.0, 1.0), (0.0, 1.0)]), vec![]);
    assert_eq!(
        filled(&[(f32::NAN, 0.0), (9.0, 0.0), (9.0, 9.0), (0.0, 9.0)]),
        vec![]
    );
    // Within half a unit of the edges is on them.
    assert_eq!(
        filled(&[(0.0, 0.0), (9.0, 0.25), (9.25, 9.0), (0.25, 9.25)]),
        vec![rect(0.0, 0.0, 9.25, 9.25)]
    );
}

#[test]
fn clips() {
    let corners = [(1.0, 2.0), (5.0, 2.0), (5.0, 8.0), (1.0, 8.0)];
    let expected = vec![rect(1.0, 2.0, 4.0, 6.0)];
    // Open, and closed: then the last subpath counts.
    let mut paths = path(&corners);
    paths.clip(&identity(), 1);
    assert_eq!(paths.clip_rects, expected);
    assert_eq!(paths.pending_lines.len(), 3);
    let mut paths = path(&corners);
    paths.close();
    paths.clip(&identity(), 1);
    assert_eq!(paths.clip_rects, expected);
    paths.end();
    assert!(paths.pending_subpaths.is_empty());
    paths.clip(&identity(), 1);
    assert_eq!(paths.clip_rects, expected);
    assert!(paths.fill_rects.is_empty() && paths.lines.is_empty());
}

#[test]
fn lines_need_a_point_to_start_from() {
    let mut paths = Paths::new();
    paths.line_to(p(1.0, 1.0));
    paths.close();
    paths.stroke(true, &identity(), 1);
    assert!(paths.lines.is_empty());
}
