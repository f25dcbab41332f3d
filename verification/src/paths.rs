//! Paths: their construction, and the rectangles and lines that painting them
//! leaves on a page.

use crate::geometry::{Matrix, PdfLine, PdfRect};
use crate::grid::{is_near, near};
use crate::single::{Single, HUNDREDTH, INFINITY, NEG_INFINITY, ONE};
use vstd::prelude::*;

verus! {

/// A point in user space.
#[derive(Clone, Copy, Debug, PartialEq, Eq, Structural)]
pub struct Point {
    pub x: Single,
    pub y: Single,
}

/// A line segment in user space.
#[derive(Clone, Copy, Debug, PartialEq, Eq, Structural)]
pub struct Segment {
    pub from: Point,
    pub to: Point,
}

/// The path under construction, and what the painted ones left on the page.
pub struct Paths {
    /// The start of the subpath.
    pub start: Option<Point>,
    pub current: Option<Point>,
    /// The segments of the subpath, until it is closed.
    pub pending_lines: Vec<Segment>,
    /// The closed subpaths.
    pub pending_subpaths: Vec<Vec<Segment>>,
    /// Rectangles that were drawn as such.
    pub rects: Vec<PdfRect>,
    /// Rectangles that clip paths form.
    pub clip_rects: Vec<PdfRect>,
    /// Rectangles that filled paths form.
    pub fill_rects: Vec<PdfRect>,
    /// Segments of stroked paths.
    pub lines: Vec<PdfLine>,
}

/// What `Paths` holds.
#[verifier::ext_equal]
pub struct PathsView {
    pub start: Option<Point>,
    pub current: Option<Point>,
    pub pending_lines: Seq<Segment>,
    pub pending_subpaths: Seq<Seq<Segment>>,
    pub rects: Seq<PdfRect>,
    pub clip_rects: Seq<PdfRect>,
    pub fill_rects: Seq<PdfRect>,
    pub lines: Seq<PdfLine>,
}

/// The segments of subpaths.
pub open spec fn subpath_views(subpaths: Seq<Vec<Segment>>) -> Seq<Seq<Segment>> {
    Seq::new(subpaths.len(), |i: int| subpaths[i]@)
}

impl View for Paths {
    type V = PathsView;

    open spec fn view(&self) -> PathsView {
        PathsView {
            start: self.start,
            current: self.current,
            pending_lines: self.pending_lines@,
            pending_subpaths: subpath_views(self.pending_subpaths@),
            rects: self.rects@,
            clip_rects: self.clip_rects@,
            fill_rects: self.fill_rects@,
            lines: self.lines@,
        }
    }
}

/// Whether two coordinates are more than a hundredth apart.
pub open spec fn far(a: Single, b: Single) -> bool {
    Single { bits: HUNDREDTH }.less_than(a.minus(b).absolute())
}

/// Whether two points are apart.
pub open spec fn apart(p: Point, q: Point) -> bool {
    far(p.x, q.x) || far(p.y, q.y)
}

fn is_apart(p: Point, q: Point) -> (r: bool)
    ensures
        r == apart(p, q),
{
    p.x.sub(q.x).abs().gt(Single::from_bits(HUNDREDTH)) || p.y.sub(q.y).abs().gt(
        Single::from_bits(HUNDREDTH),
    )
}

/// The segments with one that leads back to `to`, where their end `from` is apart
/// from it.
pub open spec fn closed(segments: Seq<Segment>, from: Point, to: Point) -> Seq<Segment> {
    if apart(from, to) {
        segments.push(Segment { from, to })
    } else {
        segments
    }
}

fn close_segments(segments: &mut Vec<Segment>, from: Point, to: Point)
    ensures
        final(segments)@ == closed(old(segments)@, from, to),
{
    if is_apart(from, to) {
        segments.push(Segment { from, to });
    }
}

/// The x coordinates of the ends of segments.
pub open spec fn end_xs(segments: Seq<Segment>) -> Seq<Single> {
    Seq::new(
        2 * segments.len(),
        |i: int|
            if i % 2 == 0 {
                segments[i / 2].from.x
            } else {
                segments[i / 2].to.x
            },
    )
}

/// The y coordinates of the ends of segments.
pub open spec fn end_ys(segments: Seq<Segment>) -> Seq<Single> {
    Seq::new(
        2 * segments.len(),
        |i: int|
            if i % 2 == 0 {
                segments[i / 2].from.y
            } else {
                segments[i / 2].to.y
            },
    )
}

/// The least of some numbers, infinity where there is none.
pub open spec fn least(xs: Seq<Single>) -> Single
    decreases xs.len(),
{
    if xs.len() == 0 {
        Single { bits: INFINITY }
    } else {
        least(xs.drop_last()).lesser(xs.last())
    }
}

/// The greatest of some numbers, negative infinity where there is none.
pub open spec fn greatest(xs: Seq<Single>) -> Single
    decreases xs.len(),
{
    if xs.len() == 0 {
        Single { bits: NEG_INFINITY }
    } else {
        greatest(xs.drop_last()).greater(xs.last())
    }
}

/// Whether each number is within half a point of the least or of the greatest.
pub open spec fn on_edges(xs: Seq<Single>) -> bool {
    forall|i: int|
        0 <= i < xs.len() ==> near(#[trigger] xs[i], least(xs)) || near(xs[i], greatest(xs))
}

/// The rectangle that four segments form on the page; `None` where an end lies off
/// the edges of their bounding box, or that is not more than one unit wide and
/// high.
pub open spec fn box_rect(segments: Seq<Segment>, ctm: Matrix, page: u32) -> Option<PdfRect> {
    let xs = end_xs(segments);
    let ys = end_ys(segments);
    let w = greatest(xs).minus(least(xs));
    let h = greatest(ys).minus(least(ys));
    let one = Single { bits: ONE };
    if segments.len() == 4 && on_edges(xs) && on_edges(ys) && one.less_than(w) && one.less_than(h) {
        Some(
            PdfRect {
                x: ctm.image_x(least(xs), least(ys)),
                y: ctm.image_y(least(xs), least(ys)),
                width: w.times(ctm.a),
                height: h.times(ctm.d),
                page,
            },
        )
    } else {
        None
    }
}

fn least_and_greatest(xs: &Vec<Single>) -> (r: (Single, Single))
    ensures
        r == (least(xs@), greatest(xs@)),
{
    let mut low = Single::from_bits(INFINITY);
    let mut high = Single::from_bits(NEG_INFINITY);
    let mut i: usize = 0;
    while i < xs.len()
        invariant
            i <= xs@.len(),
            low == least(xs@.take(i as int)),
            high == greatest(xs@.take(i as int)),
        decreases xs@.len() - i,
    {
        assert(xs@.take(i + 1).drop_last() =~= xs@.take(i as int));
        low = low.min(xs[i]);
        high = high.max(xs[i]);
        i = i + 1;
    }
    assert(xs@.take(i as int) =~= xs@);
    (low, high)
}

fn all_on_edges(xs: &Vec<Single>, low: Single, high: Single) -> (r: bool)
    requires
        low == least(xs@),
        high == greatest(xs@),
    ensures
        r == on_edges(xs@),
{
    let mut i: usize = 0;
    while i < xs.len()
        invariant
            i <= xs@.len(),
            low == least(xs@),
            high == greatest(xs@),
            forall|j: int| 0 <= j < i ==> near(#[trigger] xs@[j], low) || near(xs@[j], high),
        decreases xs@.len() - i,
    {
        let x = xs[i];
        if !(is_near(x, low) || is_near(x, high)) {
            assert(!near(xs@[i as int], least(xs@)));
            return false;
        }
        i = i + 1;
    }
    true
}

fn find_box(segments: &Vec<Segment>, ctm: &Matrix, page: u32) -> (r: Option<PdfRect>)
    ensures
        r == box_rect(segments@, *ctm, page),
{
    if segments.len() != 4 {
        return None;
    }
    let mut xs: Vec<Single> = Vec::new();
    let mut ys: Vec<Single> = Vec::new();
    let mut i: usize = 0;
    while i < 4
        invariant
            i <= 4,
            segments@.len() == 4,
            xs@ =~= end_xs(segments@.take(i as int)),
            ys@ =~= end_ys(segments@.take(i as int)),
        decreases 4 - i,
    {
        let s = segments[i];
        xs.push(s.from.x);
        xs.push(s.to.x);
        ys.push(s.from.y);
        ys.push(s.to.y);
        i = i + 1;
    }
    assert(segments@.take(4) =~= segments@);
    let (min_x, max_x) = least_and_greatest(&xs);
    let (min_y, max_y) = least_and_greatest(&ys);
    let w = max_x.sub(min_x);
    let h = max_y.sub(min_y);
    let one = Single::from_bits(ONE);
    if all_on_edges(&xs, min_x, max_x) && all_on_edges(&ys, min_y, max_y) && w.gt(one) && h.gt(
        one,
    ) {
        let (x, y) = ctm.apply(min_x, min_y);
        Some(PdfRect { x, y, width: w.mul(ctm.a), height: h.mul(ctm.d), page })
    } else {
        None
    }
}

/// A subpath as it is filled: three segments are closed to where they start.
pub open spec fn filled(segments: Seq<Segment>) -> Seq<Segment> {
    if segments.len() == 3 {
        closed(segments, segments[2].to, segments[0].from)
    } else {
        segments
    }
}

/// A subpath as it clips: three segments are closed to the start of the path.
pub open spec fn clipping(segments: Seq<Segment>, start: Option<Point>) -> Seq<Segment> {
    match start {
        Some(p) if segments.len() == 3 => closed(segments, segments[2].to, p),
        _ => segments,
    }
}

/// Rectangles with one more, where there is one.
pub open spec fn with_rect(rects: Seq<PdfRect>, rect: Option<PdfRect>) -> Seq<PdfRect> {
    match rect {
        Some(r) => rects.push(r),
        None => rects,
    }
}

/// Rectangles with those that filled subpaths form.
pub open spec fn with_fills(
    rects: Seq<PdfRect>,
    subpaths: Seq<Seq<Segment>>,
    ctm: Matrix,
    page: u32,
) -> Seq<PdfRect>
    decreases subpaths.len(),
{
    if subpaths.len() == 0 {
        rects
    } else {
        with_rect(
            with_fills(rects, subpaths.drop_last(), ctm, page),
            box_rect(filled(subpaths.last()), ctm, page),
        )
    }
}

/// A segment on the page.
pub open spec fn page_line(s: Segment, ctm: Matrix, page: u32) -> PdfLine {
    PdfLine {
        x1: ctm.image_x(s.from.x, s.from.y),
        y1: ctm.image_y(s.from.x, s.from.y),
        x2: ctm.image_x(s.to.x, s.to.y),
        y2: ctm.image_y(s.to.x, s.to.y),
        page,
    }
}

impl PathsView {
    /// A rectangle is drawn.
    pub open spec fn with_rectangle(
        self,
        x: Single,
        y: Single,
        w: Single,
        h: Single,
        ctm: Matrix,
        page: u32,
    ) -> PathsView {
        PathsView {
            rects: self.rects.push(
                PdfRect {
                    x: ctm.image_x(x, y),
                    y: ctm.image_y(x, y),
                    width: w.times(ctm.a),
                    height: h.times(ctm.d),
                    page,
                },
            ),
            ..self
        }
    }

    /// A subpath starts.
    pub open spec fn moved_to(self, p: Point) -> PathsView {
        PathsView { start: Some(p), current: Some(p), ..self }
    }

    /// A segment is added, where there is a current point.
    pub open spec fn lined_to(self, p: Point) -> PathsView {
        match self.current {
            Some(c) => PathsView {
                current: Some(p),
                pending_lines: self.pending_lines.push(Segment { from: c, to: p }),
                ..self
            },
            None => self,
        }
    }

    /// The segments, led back to the start of the subpath.
    pub open spec fn closed_lines(self) -> Seq<Segment> {
        match (self.current, self.start) {
            (Some(c), Some(s)) => closed(self.pending_lines, c, s),
            _ => self.pending_lines,
        }
    }

    /// The subpath is closed and put aside.
    pub open spec fn closed_path(self) -> PathsView {
        let lines = self.closed_lines();
        PathsView {
            current: if self.current is Some && self.start is Some {
                self.start
            } else {
                self.current
            },
            pending_lines: Seq::empty(),
            pending_subpaths: if lines.len() > 0 {
                self.pending_subpaths.push(lines)
            } else {
                self.pending_subpaths
            },
            ..self
        }
    }

    /// The path ends.
    pub open spec fn ended(self) -> PathsView {
        PathsView {
            start: None,
            current: None,
            pending_lines: Seq::empty(),
            pending_subpaths: Seq::empty(),
            ..self
        }
    }

    /// The path is stroked, and closed before that where `close` says so: the
    /// segments of its open subpath become lines.
    pub open spec fn stroked(self, close: bool, ctm: Matrix, page: u32) -> PathsView {
        let segments = if close {
            self.closed_lines()
        } else {
            self.pending_lines
        };
        PathsView {
            lines: self.lines + segments.map_values(|s: Segment| page_line(s, ctm, page)),
            ..self.ended()
        }
    }

    /// The path is filled: its subpaths may form rectangles.
    pub open spec fn filled(self, ctm: Matrix, page: u32) -> PathsView {
        let subpaths = if self.pending_lines.len() > 0 {
            self.pending_subpaths.push(self.pending_lines)
        } else {
            self.pending_subpaths
        };
        PathsView {
            fill_rects: with_fills(self.fill_rects, subpaths, ctm, page),
            ..self.ended()
        }
    }

    /// The path clips: its open subpath, or else the last closed one, may form a
    /// rectangle. The path does not end.
    pub open spec fn clipped(self, ctm: Matrix, page: u32) -> PathsView {
        let segments = if self.pending_lines.len() > 0 {
            self.pending_lines
        } else if self.pending_subpaths.len() > 0 {
            self.pending_subpaths.last()
        } else {
            Seq::empty()
        };
        PathsView {
            clip_rects: with_rect(
                self.clip_rects,
                box_rect(clipping(segments, self.start), ctm, page),
            ),
            ..self
        }
    }
}

/// No path, and nothing on the page.
pub open spec fn no_paths() -> PathsView {
    PathsView {
        start: None,
        current: None,
        pending_lines: Seq::empty(),
        pending_subpaths: Seq::empty(),
        rects: Seq::empty(),
        clip_rects: Seq::empty(),
        fill_rects: Seq::empty(),
        lines: Seq::empty(),
    }
}

fn copy_segments(segments: &Vec<Segment>) -> (r: Vec<Segment>)
    ensures
        r@ == segments@,
{
    let r = segments.clone();
    assert(r@ =~= segments@);
    r
}

impl Paths {
    /// No path, and nothing on the page.
    pub fn new() -> (r: Paths)
        ensures
            r@ == no_paths(),
    {
        let r = Paths {
            start: None,
            current: None,
            pending_lines: Vec::new(),
            pending_subpaths: Vec::new(),
            rects: Vec::new(),
            clip_rects: Vec::new(),
            fill_rects: Vec::new(),
            lines: Vec::new(),
        };
        assert(r@ =~= no_paths());
        r
    }

    /// Draws a rectangle.
    pub fn rectangle(
        &mut self,
        x: Single,
        y: Single,
        w: Single,
        h: Single,
        ctm: &Matrix,
        page: u32,
    )
        ensures
            final(self)@ == old(self)@.with_rectangle(x, y, w, h, *ctm, page),
    {
        let (dx, dy) = ctm.apply(x, y);
        self.rects.push(
            PdfRect { x: dx, y: dy, width: w.mul(ctm.a), height: h.mul(ctm.d), page },
        );
    }

    /// Starts a subpath.
    pub fn move_to(&mut self, p: Point)
        ensures
            final(self)@ == old(self)@.moved_to(p),
    {
        self.start = Some(p);
        self.current = Some(p);
    }

    /// Adds a segment.
    pub fn line_to(&mut self, p: Point)
        ensures
            final(self)@ == old(self)@.lined_to(p),
    {
        if let Some(c) = self.current {
            self.pending_lines.push(Segment { from: c, to: p });
            self.current = Some(p);
        }
    }

    fn close_lines(&mut self)
        ensures
            final(self)@ == (PathsView {
                pending_lines: old(self)@.closed_lines(),
                ..old(self)@
            }),
    {
        if let (Some(c), Some(s)) = (self.current, self.start) {
            close_segments(&mut self.pending_lines, c, s);
        }
    }

    /// Closes the subpath and puts it aside.
    pub fn close(&mut self)
        ensures
            final(self)@ == old(self)@.closed_path(),
    {
        self.close_lines();
        if self.current.is_some() && self.start.is_some() {
            self.current = self.start;
        }
        if self.pending_lines.len() > 0 {
            let ghost before = self.pending_subpaths@;
            let lines = copy_segments(&self.pending_lines);
            self.pending_lines.clear();
            self.pending_subpaths.push(lines);
            assert(subpath_views(self.pending_subpaths@) =~= subpath_views(before).push(lines@));
        }
        assert(self@ =~= old(self)@.closed_path());
    }

    /// Ends the path.
    pub fn end(&mut self)
        ensures
            final(self)@ == old(self)@.ended(),
    {
        self.start = None;
        self.current = None;
        self.pending_lines.clear();
        self.pending_subpaths.clear();
        assert(self@ =~= old(self)@.ended());
    }

    /// Strokes the path.
    pub fn stroke(&mut self, close: bool, ctm: &Matrix, page: u32)
        ensures
            final(self)@ == old(self)@.stroked(close, *ctm, page),
    {
        if close {
            self.close_lines();
        }
        let ghost mid = self@;
        let ghost drawn = mid.pending_lines.map_values(|s: Segment| page_line(s, *ctm, page));
        let mut i: usize = 0;
        while i < self.pending_lines.len()
            invariant
                i <= mid.pending_lines.len(),
                drawn == mid.pending_lines.map_values(|s: Segment| page_line(s, *ctm, page)),
                self@ =~= (PathsView { lines: mid.lines + drawn.take(i as int), ..mid }),
            decreases mid.pending_lines.len() - i,
        {
            let s = self.pending_lines[i];
            let (x1, y1) = ctm.apply(s.from.x, s.from.y);
            let (x2, y2) = ctm.apply(s.to.x, s.to.y);
            self.lines.push(PdfLine { x1, y1, x2, y2, page });
            assert(drawn.take(i + 1) =~= drawn.take(i as int).push(drawn[i as int]));
            i = i + 1;
        }
        assert(drawn.take(i as int) =~= drawn);
        self.end();
        assert(self@ =~= old(self)@.stroked(close, *ctm, page));
    }

    /// Fills the path.
    pub fn fill(&mut self, ctm: &Matrix, page: u32)
        ensures
            final(self)@ == old(self)@.filled(*ctm, page),
    {
        if self.pending_lines.len() > 0 {
            let ghost before = self.pending_subpaths@;
            let lines = copy_segments(&self.pending_lines);
            self.pending_subpaths.push(lines);
            assert(subpath_views(self.pending_subpaths@) =~= subpath_views(before).push(lines@));
        }
        let ghost mid = self@;
        let ghost subpaths = mid.pending_subpaths;
        let mut i: usize = 0;
        assert(subpaths.take(0) =~= Seq::empty());
        while i < self.pending_subpaths.len()
            invariant
                i <= subpaths.len(),
                subpaths == mid.pending_subpaths,
                self@ =~= (PathsView {
                    fill_rects: with_fills(
                        mid.fill_rects,
                        subpaths.take(i as int),
                        *ctm,
                        page,
                    ),
                    ..mid
                }),
            decreases subpaths.len() - i,
        {
            assert(self@.pending_subpaths[i as int] == self.pending_subpaths@[i as int]@);
            assert(subpaths.take(i + 1).drop_last() =~= subpaths.take(i as int));
            assert(subpaths.take(i + 1).last() == subpaths[i as int]);
            let mut segments = copy_segments(&self.pending_subpaths[i]);
            if segments.len() == 3 {
                let from = segments[2].to;
                let to = segments[0].from;
                close_segments(&mut segments, from, to);
            }
            if let Some(rect) = find_box(&segments, ctm, page) {
                self.fill_rects.push(rect);
            }
            i = i + 1;
        }
        assert(subpaths.take(i as int) =~= subpaths);
        self.end();
        assert(self@ =~= old(self)@.filled(*ctm, page));
    }

    /// Clips by the path.
    pub fn clip(&mut self, ctm: &Matrix, page: u32)
        ensures
            final(self)@ == old(self)@.clipped(*ctm, page),
    {
        let n: usize = self.pending_subpaths.len();
        let mut segments: Vec<Segment> = if self.pending_lines.len() > 0 {
            copy_segments(&self.pending_lines)
        } else if n > 0 {
            assert(self@.pending_subpaths.last() == self.pending_subpaths@[n - 1]@);
            copy_segments(&self.pending_subpaths[n - 1])
        } else {
            Vec::new()
        };
        if segments.len() == 3 {
            if let Some(p) = self.start {
                let from = segments[2].to;
                close_segments(&mut segments, from, p);
            }
        }
        if let Some(rect) = find_box(&segments, ctm, page) {
            self.clip_rects.push(rect);
        }
        assert(self@ =~= old(self)@.clipped(*ctm, page));
    }
}

} // verus!
