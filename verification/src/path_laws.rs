//! Laws of the operators that build and paint paths, as content streams spell them.

use crate::geometry::{Matrix, PdfLine, PdfRect};
use crate::grid::near;
use crate::object::{ObjectView, OperationView};
use crate::operator_laws::{law_spellings_of_the_same, lemma_spellings};
use crate::page::{stepped, PageView, ReplyView, Settings};
use crate::paths::{
    box_rect, end_xs, end_ys, filled, greatest, least, on_edges, with_fills, with_rect, PathsView,
    Point, Segment,
};
use crate::rect_laws::lemma_near_self;
use crate::single::{lemma_magnitude_monotone, lemma_zero_units, Single};
use crate::text_laws::{operand, ONE_BITS, ZERO_BITS};
use vstd::prelude::*;

verus! {

/// Whether a rectangle is what the matrix `m` makes of one at `(x, y)`, of the given
/// width and height: its corner is the image of the corner, and the sides are scaled.
pub open spec fn is_image(
    rect: PdfRect,
    m: Matrix,
    x: Single,
    y: Single,
    width: Single,
    height: Single,
    page: u32,
) -> bool {
    &&& rect.x == x.times(m.a).plus(y.times(m.c)).plus(m.e)
    &&& rect.y == x.times(m.b).plus(y.times(m.d)).plus(m.f)
    &&& rect.width == width.times(m.a)
    &&& rect.height == height.times(m.d)
    &&& rect.page == page
}

/// `re` adds the image of a rectangle of four operands to those of the page, and does
/// nothing with fewer operands. It touches neither the path nor anything else.
pub proof fn law_re(v: PageView, op: OperationView, reply: ReplyView, settings: Settings)
    requires
        op.operator == "re"@,
    ensures
        op.operands.len() < 4 ==> stepped(v, op, reply, settings) == v,
        op.operands.len() >= 4 ==> {
            let w = stepped(v, op, reply, settings);
            let n = v.paths.rects.len();
            &&& w.paths.rects.len() == n + 1
            &&& w.paths.rects.take(n as int) == v.paths.rects
            &&& is_image(
                w.paths.rects[n as int],
                v.graphics.ctm,
                operand(op, 0, ZERO_BITS),
                operand(op, 1, ZERO_BITS),
                operand(op, 2, ZERO_BITS),
                operand(op, 3, ZERO_BITS),
                settings.page,
            )
            &&& w == (PageView { paths: PathsView { rects: w.paths.rects, ..v.paths }, ..v })
        },
{
    lemma_spellings();
    if op.operands.len() >= 4 {
        let w = stepped(v, op, reply, settings);
        assert(w.paths.rects.take(v.paths.rects.len() as int) =~= v.paths.rects);
    }
}

/// `m` goes to a point, where a subpath starts; `l` adds a segment from the point it is
/// at to another one and goes there, and does nothing where there is no point yet. The
/// segments before stay. Both do nothing with fewer than two operands.
pub proof fn law_m_and_l(v: PageView, op: OperationView, reply: ReplyView, settings: Settings)
    ensures
        ({
            let w = stepped(v, op, reply, settings);
            let p = Point { x: operand(op, 0, ZERO_BITS), y: operand(op, 1, ZERO_BITS) };
            let enough = op.operands.len() >= 2;
            &&& (op.operator == "m"@ || op.operator == "l"@) && !enough ==> w == v
            &&& op.operator == "m"@ && enough ==> w == (PageView {
                paths: PathsView { start: Some(p), current: Some(p), ..v.paths },
                ..v
            })
            &&& op.operator == "l"@ && v.paths.current is None ==> w == v
            &&& op.operator == "l"@ && enough && v.paths.current is Some ==> w == (PageView {
                paths: PathsView {
                    current: Some(p),
                    pending_lines: v.paths.pending_lines.push(
                        Segment { from: v.paths.current->0, to: p },
                    ),
                    ..v.paths
                },
                ..v
            })
        }),
{
    lemma_spellings();
}

/// Whether two points are more than a hundredth apart, along one of the axes.
pub open spec fn are_apart(p: Point, q: Point) -> bool {
    let hundredth = Single { bits: 0x3c23_d70a };
    hundredth.less_than(p.x.minus(q.x).absolute()) || hundredth.less_than(
        p.y.minus(q.y).absolute(),
    )
}

/// Whether segments are others, led back to where their subpath starts: by one more
/// segment, where its start is apart from the point they have come to.
pub open spec fn are_led_back(segments: Seq<Segment>, paths: PathsView) -> bool {
    let open_ended = paths.current is Some && paths.start is Some && are_apart(
        paths.current->0,
        paths.start->0,
    );
    if open_ended {
        segments == paths.pending_lines.push(
            Segment { from: paths.current->0, to: paths.start->0 },
        )
    } else {
        segments == paths.pending_lines
    }
}

/// `h` leads the subpath back to its start, puts it aside with those before it, where it
/// has segments, and stands at the start again. Nothing is painted.
pub proof fn law_h(
    v: PageView,
    op: OperationView,
    reply: ReplyView,
    settings: Settings,
    segments: Seq<Segment>,
)
    requires
        op.operator == "h"@,
        are_led_back(segments, v.paths),
    ensures
        ({
            let w = stepped(v, op, reply, settings);
            &&& w.paths.pending_lines.len() == 0
            &&& segments.len() == 0 ==> w.paths.pending_subpaths == v.paths.pending_subpaths
            &&& segments.len() > 0 ==> w.paths.pending_subpaths == v.paths.pending_subpaths.push(
                segments,
            )
            &&& v.paths.current is Some && v.paths.start is Some ==> w.paths.current
                == v.paths.start
            &&& v.paths.current is None || v.paths.start is None ==> w.paths.current
                == v.paths.current
            &&& w == (PageView {
                paths: PathsView {
                    current: w.paths.current,
                    pending_lines: w.paths.pending_lines,
                    pending_subpaths: w.paths.pending_subpaths,
                    ..v.paths
                },
                ..v
            })
        }),
{
    lemma_spellings();
    assert(v.paths.closed_lines() == segments);
}

/// A path without points and segments, with all that was painted before.
pub open spec fn is_over(after: PathsView, before: PathsView) -> bool {
    after == (PathsView {
        start: None,
        current: None,
        pending_lines: Seq::empty(),
        pending_subpaths: Seq::empty(),
        ..before
    })
}

/// `n` ends the path, and paints nothing.
pub proof fn law_n(v: PageView, op: OperationView, reply: ReplyView, settings: Settings)
    requires
        op.operator == "n"@,
    ensures
        ({
            let w = stepped(v, op, reply, settings);
            &&& is_over(w.paths, v.paths)
            &&& w == (PageView { paths: w.paths, ..v })
        }),
{
    lemma_spellings();
}

/// Whether a line is what a matrix makes of a segment: its ends are the images of the
/// ends.
pub open spec fn is_line_of(line: PdfLine, s: Segment, m: Matrix, page: u32) -> bool {
    &&& line.x1 == s.from.x.times(m.a).plus(s.from.y.times(m.c)).plus(m.e)
    &&& line.y1 == s.from.x.times(m.b).plus(s.from.y.times(m.d)).plus(m.f)
    &&& line.x2 == s.to.x.times(m.a).plus(s.to.y.times(m.c)).plus(m.e)
    &&& line.y2 == s.to.x.times(m.b).plus(s.to.y.times(m.d)).plus(m.f)
    &&& line.page == page
}

/// `S` adds a line for each segment of the open subpath, in order, and `s` does so after
/// leading it back to its start. Then the path is over; no other line and no rectangle
/// comes of it.
pub proof fn law_s(
    v: PageView,
    op: OperationView,
    reply: ReplyView,
    settings: Settings,
    segments: Seq<Segment>,
)
    requires
        op.operator == "S"@ && segments == v.paths.pending_lines || op.operator == "s"@
            && are_led_back(segments, v.paths),
    ensures
        ({
            let w = stepped(v, op, reply, settings);
            let n = v.paths.lines.len();
            &&& w.paths.lines.len() == n + segments.len()
            &&& w.paths.lines.take(n as int) == v.paths.lines
            &&& forall|i: int|
                0 <= i < segments.len() ==> is_line_of(
                    #[trigger] w.paths.lines[n + i],
                    segments[i],
                    v.graphics.ctm,
                    settings.page,
                )
            &&& is_over(w.paths, (PathsView { lines: w.paths.lines, ..v.paths }))
            &&& w == (PageView { paths: w.paths, ..v })
        }),
{
    lemma_spellings();
    let w = stepped(v, op, reply, settings);
    let n = v.paths.lines.len();
    if op.operator == "s"@ {
        assert(v.paths.closed_lines() == segments);
    }
    assert(w.paths.lines.take(n as int) =~= v.paths.lines);
}

/// Whether a number is the least of some, or the greatest: it is among them, and every
/// other one is greater, or less.
pub open spec fn is_least(lo: Single, xs: Seq<Single>) -> bool {
    &&& xs.contains(lo)
    &&& forall|i: int| 0 <= i < xs.len() ==> #[trigger] xs[i] == lo || lo.less_than(xs[i])
}

pub open spec fn is_greatest(hi: Single, xs: Seq<Single>) -> bool {
    &&& xs.contains(hi)
    &&& forall|i: int| 0 <= i < xs.len() ==> #[trigger] xs[i] == hi || xs[i].less_than(hi)
}

pub open spec fn all_finite(xs: Seq<Single>) -> bool {
    forall|i: int| 0 <= i < xs.len() ==> (#[trigger] xs[i]).is_finite()
}

proof fn lemma_below_infinity(x: Single)
    requires
        x.is_finite(),
    ensures
        x.less_than(Single::from_bits(0x7f80_0000)),
        Single::from_bits(0xff80_0000).less_than(x),
{
    reveal(Single::less_than);
    let inf = Single { bits: 0x7f80_0000 };
    let neg = Single { bits: 0xff80_0000 };
    assert(inf.mag() == 0x7f80_0000 && neg.mag() == 0x7f80_0000);
    assert(!inf.is_negative() && neg.is_negative());
    lemma_magnitude_monotone(x.mag(), 0x7f80_0000);
    lemma_zero_units(inf);
    lemma_zero_units(x);
    lemma_magnitude_monotone(0, 0x7f80_0000);
    let zero = Single { bits: 0 };
    lemma_zero_units(zero);
    assert(zero.mag() == 0);
    if x.mag() > 0 {
        lemma_magnitude_monotone(0, x.mag());
    }
}

proof fn lemma_split(xs: Seq<Single>, x: Single)
    requires
        xs.len() > 0,
    ensures
        xs.contains(x) <==> xs.drop_last().contains(x) || x == xs.last(),
{
    let front = xs.drop_last();
    if xs.contains(x) && x != xs.last() {
        let i = choose|i: int| 0 <= i < xs.len() && xs[i] == x;
        assert(front[i] == x);
    }
    if front.contains(x) {
        let i = choose|i: int| 0 <= i < front.len() && front[i] == x;
        assert(xs[i] == x);
    }
    assert(xs[xs.len() - 1] == xs.last());
}

proof fn lemma_least(xs: Seq<Single>, lo: Single)
    requires
        all_finite(xs),
        lo.is_finite(),
        forall|i: int| 0 <= i < xs.len() ==> #[trigger] xs[i] == lo || lo.less_than(xs[i]),
    ensures
        xs.contains(lo) ==> least(xs) == lo,
        !xs.contains(lo) ==> lo.less_than(least(xs)),
    decreases xs.len(),
{
    lemma_below_infinity(lo);
    if xs.len() > 0 {
        let front = xs.drop_last();
        let x = xs.last();
        assert(xs[xs.len() - 1] == x);
        assert forall|i: int| 0 <= i < front.len() implies front[i].is_finite() && (#[trigger] front[i]
            == lo || lo.less_than(front[i])) by {
            assert(xs[i] == front[i]);
        }
        lemma_least(front, lo);
        lemma_split(xs, lo);
        reveal(Single::less_than);
    }
}

proof fn lemma_greatest(xs: Seq<Single>, hi: Single)
    requires
        all_finite(xs),
        hi.is_finite(),
        forall|i: int| 0 <= i < xs.len() ==> #[trigger] xs[i] == hi || xs[i].less_than(hi),
    ensures
        xs.contains(hi) ==> greatest(xs) == hi,
        !xs.contains(hi) ==> greatest(xs).less_than(hi),
    decreases xs.len(),
{
    lemma_below_infinity(hi);
    if xs.len() > 0 {
        let front = xs.drop_last();
        let x = xs.last();
        assert(xs[xs.len() - 1] == x);
        assert forall|i: int| 0 <= i < front.len() implies front[i].is_finite() && (#[trigger] front[i]
            == hi || front[i].less_than(hi)) by {
            assert(xs[i] == front[i]);
        }
        lemma_greatest(front, hi);
        lemma_split(xs, hi);
        reveal(Single::less_than);
    }
}

/// The x coordinates of both ends of four segments.
pub open spec fn xs_of_four(s: Seq<Segment>) -> Seq<Single> {
    seq![
        s[0].from.x,
        s[0].to.x,
        s[1].from.x,
        s[1].to.x,
        s[2].from.x,
        s[2].to.x,
        s[3].from.x,
        s[3].to.x,
    ]
}

/// The y coordinates of both ends of four segments.
pub open spec fn ys_of_four(s: Seq<Segment>) -> Seq<Single> {
    seq![
        s[0].from.y,
        s[0].to.y,
        s[1].from.y,
        s[1].to.y,
        s[2].from.y,
        s[2].to.y,
        s[3].from.y,
        s[3].to.y,
    ]
}

/// The box around a shape: its lower left and its upper right corner.
pub struct Frame {
    pub x0: Single,
    pub y0: Single,
    pub x1: Single,
    pub y1: Single,
}

/// Whether a frame is the box around four segments with finite ends.
pub open spec fn frames(f: Frame, s: Seq<Segment>) -> bool {
    &&& s.len() == 4
    &&& all_finite(xs_of_four(s)) && all_finite(ys_of_four(s))
    &&& is_least(f.x0, xs_of_four(s)) && is_greatest(f.x1, xs_of_four(s))
    &&& is_least(f.y0, ys_of_four(s)) && is_greatest(f.y1, ys_of_four(s))
}

/// Whether each of some numbers is less than a half from one of two.
pub open spec fn within_half(xs: Seq<Single>, lo: Single, hi: Single) -> bool {
    let half = Single { bits: 0x3f00_0000 };
    forall|i: int|
        0 <= i < xs.len() ==> (#[trigger] xs[i]).minus(lo).absolute().less_than(half)
            || xs[i].minus(hi).absolute().less_than(half)
}

/// Whether segments keep to the sides of the box around them, less than half a unit off,
/// and that box is more than one unit wide and high.
pub open spec fn fills_frame(s: Seq<Segment>, f: Frame) -> bool {
    let one = Single { bits: ONE_BITS };
    &&& within_half(xs_of_four(s), f.x0, f.x1)
    &&& within_half(ys_of_four(s), f.y0, f.y1)
    &&& one.less_than(f.x1.minus(f.x0))
    &&& one.less_than(f.y1.minus(f.y0))
}

/// Whether the ends of four segments all lie on corners of the box around them.
pub open spec fn on_corners(s: Seq<Segment>, f: Frame) -> bool {
    &&& forall|i: int| 0 <= i < 8 ==> #[trigger] xs_of_four(s)[i] == f.x0 || xs_of_four(s)[i] == f.x1
    &&& forall|i: int| 0 <= i < 8 ==> #[trigger] ys_of_four(s)[i] == f.y0 || ys_of_four(s)[i] == f.y1
}

/// A subpath of upright and level segments, whose ends are the corners of a box more
/// than one unit wide and high, keeps to that box.
pub proof fn law_corners_fill(s: Seq<Segment>, f: Frame)
    requires
        frames(f, s),
        on_corners(s, f),
        Single::from_bits(ONE_BITS).less_than(f.x1.minus(f.x0)),
        Single::from_bits(ONE_BITS).less_than(f.y1.minus(f.y0)),
    ensures
        fills_frame(s, f),
{
    let xs = xs_of_four(s);
    let ys = ys_of_four(s);
    assert forall|i: int| 0 <= i < 8 implies near(xs[i], xs[i]) && near(ys[i], ys[i]) by {
        assert(xs[i].is_finite() && ys[i].is_finite());
        lemma_near_self(xs[i]);
        lemma_near_self(ys[i]);
    }
}

proof fn lemma_box(s: Seq<Segment>, f: Frame, m: Matrix, page: u32)
    requires
        frames(f, s),
    ensures
        box_rect(s, m, page) is Some <==> fills_frame(s, f),
        fills_frame(s, f) ==> is_image(
            box_rect(s, m, page)->0,
            m,
            f.x0,
            f.y0,
            f.x1.minus(f.x0),
            f.y1.minus(f.y0),
            page,
        ),
{
    let xs = xs_of_four(s);
    let ys = ys_of_four(s);
    assert(end_xs(s) =~= xs);
    assert(end_ys(s) =~= ys);
    lemma_least(xs, f.x0);
    lemma_greatest(xs, f.x1);
    lemma_least(ys, f.y0);
    lemma_greatest(ys, f.y1);
    assert(on_edges(xs) == within_half(xs, f.x0, f.x1));
    assert(on_edges(ys) == within_half(ys, f.y0, f.y1));
}

/// Whether a path has one subpath alone, open or put aside.
pub open spec fn is_single_subpath(paths: PathsView, s: Seq<Segment>) -> bool {
    ||| s.len() > 0 && paths.pending_lines == s && paths.pending_subpaths.len() == 0
    ||| paths.pending_lines.len() == 0 && paths.pending_subpaths == seq![s]
}

/// Whether rectangles are others with the image of a box behind them.
pub open spec fn gains_image(
    after: Seq<PdfRect>,
    before: Seq<PdfRect>,
    f: Frame,
    m: Matrix,
    page: u32,
) -> bool {
    &&& after.len() == before.len() + 1
    &&& after.take(before.len() as int) == before
    &&& is_image(
        after[before.len() as int],
        m,
        f.x0,
        f.y0,
        f.x1.minus(f.x0),
        f.y1.minus(f.y0),
        page,
    )
}

/// `f` adds the box around four segments, as the page has it, where they keep to its
/// sides and it is large enough, and nothing where not. Then the path is over.
pub proof fn law_f(
    v: PageView,
    op: OperationView,
    reply: ReplyView,
    settings: Settings,
    s: Seq<Segment>,
    f: Frame,
)
    requires
        op.operator == "f"@,
        is_single_subpath(v.paths, s),
        frames(f, s),
    ensures
        ({
            let w = stepped(v, op, reply, settings);
            let before = v.paths.fill_rects;
            let after = w.paths.fill_rects;
            &&& fills_frame(s, f) ==> gains_image(after, before, f, v.graphics.ctm, settings.page)
            &&& !fills_frame(s, f) ==> after == before
            &&& is_over(w.paths, (PathsView { fill_rects: after, ..v.paths }))
            &&& w == (PageView { paths: w.paths, ..v })
        }),
{
    lemma_spellings();
    let m = v.graphics.ctm;
    let before = v.paths.fill_rects;
    lemma_box(s, f, m, settings.page);
    lemma_fill_of_one(v.paths, s, m, settings.page);
    let after = stepped(v, op, reply, settings).paths.fill_rects;
    assert(after.take(before.len() as int) =~= before);
}

proof fn lemma_fill_of_one(paths: PathsView, s: Seq<Segment>, m: Matrix, page: u32)
    requires
        is_single_subpath(paths, s),
    ensures
        paths.filled(m, page).fill_rects == with_rect(
            paths.fill_rects,
            box_rect(filled(s), m, page),
        ),
{
    let all = seq![s];
    assert(all.drop_last() =~= Seq::empty());
    assert(with_fills(paths.fill_rects, all.drop_last(), m, page) == paths.fill_rects);
    assert(with_fills(paths.fill_rects, all, m, page) == with_rect(
        paths.fill_rects,
        box_rect(filled(s), m, page),
    ));
    if paths.pending_lines.len() > 0 {
        assert(paths.pending_subpaths.push(s) =~= all);
    }
}

/// Whether segments can be no box: there are not three or four of them, or three that
/// end where they start.
pub open spec fn is_no_box(s: Seq<Segment>) -> bool {
    ||| s.len() < 3
    ||| s.len() > 4
    ||| s.len() == 3 && !are_apart(s[2].to, s[0].from)
}

/// `f` makes nothing of a subpath that can be no box.
pub proof fn law_f_of_no_box(
    v: PageView,
    op: OperationView,
    reply: ReplyView,
    settings: Settings,
    s: Seq<Segment>,
)
    requires
        op.operator == "f"@,
        is_single_subpath(v.paths, s),
        is_no_box(s),
    ensures
        ({
            let w = stepped(v, op, reply, settings);
            &&& is_over(w.paths, v.paths)
            &&& w == (PageView { paths: w.paths, ..v })
        }),
{
    lemma_spellings();
    lemma_fill_of_one(v.paths, s, v.graphics.ctm, settings.page);
}

/// `f` takes three segments that do not end where they start for four: the last leads
/// back.
pub proof fn law_f_closes(
    v: PageView,
    op: OperationView,
    reply: ReplyView,
    settings: Settings,
    s: Seq<Segment>,
)
    requires
        op.operator == "f"@,
        s.len() == 3,
        are_apart(s[2].to, s[0].from),
        v.paths.pending_lines == s,
    ensures
        ({
            let back = Segment { from: s[2].to, to: s[0].from };
            let led = PageView { paths: PathsView { pending_lines: s.push(back), ..v.paths }, ..v };
            stepped(v, op, reply, settings) == stepped(led, op, reply, settings)
        }),
{
    lemma_spellings();
    let four = s.push(Segment { from: s[2].to, to: s[0].from });
    let one = v.paths.pending_subpaths.push(s);
    let other = v.paths.pending_subpaths.push(four);
    assert(one.drop_last() =~= other.drop_last());
    assert(filled(s) == four);
    assert(filled(four) == four);
}

/// `f` fills one subpath after the other: the rectangles of the last come behind those
/// of the others.
pub proof fn law_f_in_order(
    v: PageView,
    op: OperationView,
    reply: ReplyView,
    settings: Settings,
    s: Seq<Segment>,
)
    requires
        op.operator == "f"@,
        v.paths.pending_lines.len() == 0,
    ensures
        ({
            let both = PageView {
                paths: PathsView {
                    pending_subpaths: v.paths.pending_subpaths.push(s),
                    ..v.paths
                },
                ..v
            };
            let first = stepped(v, op, reply, settings);
            let second = PageView {
                paths: PathsView { pending_subpaths: seq![s], ..first.paths },
                ..first
            };
            stepped(both, op, reply, settings) == stepped(second, op, reply, settings)
        }),
{
    lemma_spellings();
    let m = v.graphics.ctm;
    let all = v.paths.pending_subpaths.push(s);
    assert(all.drop_last() =~= v.paths.pending_subpaths);
    let first = stepped(v, op, reply, settings);
    let second = PathsView { pending_subpaths: seq![s], ..first.paths };
    lemma_fill_of_one(second, s, m, settings.page);
}

/// `f` takes the open subpath for one that is put aside behind the others.
pub proof fn law_f_of_the_open_subpath(
    v: PageView,
    op: OperationView,
    reply: ReplyView,
    settings: Settings,
)
    requires
        op.operator == "f"@,
        v.paths.pending_lines.len() > 0,
    ensures
        ({
            let aside = PageView {
                paths: PathsView {
                    pending_lines: Seq::empty(),
                    pending_subpaths: v.paths.pending_subpaths.push(v.paths.pending_lines),
                    ..v.paths
                },
                ..v
            };
            stepped(v, op, reply, settings) == stepped(aside, op, reply, settings)
        }),
{
    lemma_spellings();
}

/// The subpath that clips: the open one, or else the one that was put aside last.
pub open spec fn is_clipping(s: Seq<Segment>, paths: PathsView) -> bool {
    ||| s.len() > 0 && paths.pending_lines == s
    ||| paths.pending_lines.len() == 0 && paths.pending_subpaths.len() > 0 && s
        == paths.pending_subpaths[paths.pending_subpaths.len() - 1]
}

/// `W` adds the box around the four segments that clip, where they keep to its sides and
/// it is large enough, and nothing where not. The path stays as it is.
pub proof fn law_w(
    v: PageView,
    op: OperationView,
    reply: ReplyView,
    settings: Settings,
    s: Seq<Segment>,
    f: Frame,
)
    requires
        op.operator == "W"@,
        is_clipping(s, v.paths),
        frames(f, s),
    ensures
        ({
            let w = stepped(v, op, reply, settings);
            let before = v.paths.clip_rects;
            let after = w.paths.clip_rects;
            &&& fills_frame(s, f) ==> gains_image(after, before, f, v.graphics.ctm, settings.page)
            &&& !fills_frame(s, f) ==> after == before
            &&& w == (PageView { paths: PathsView { clip_rects: after, ..v.paths }, ..v })
        }),
{
    lemma_spellings();
    let m = v.graphics.ctm;
    let before = v.paths.clip_rects;
    lemma_box(s, f, m, settings.page);
    let after = stepped(v, op, reply, settings).paths.clip_rects;
    assert(after.take(before.len() as int) =~= before);
}

/// `W` makes nothing of a path without segments, nor of one whose clipping subpath has
/// less than three segments, or more than four.
pub proof fn law_w_of_no_box(v: PageView, op: OperationView, reply: ReplyView, settings: Settings)
    requires
        op.operator == "W"@,
        forall|s: Seq<Segment>| #[trigger] is_clipping(s, v.paths) ==> s.len() < 3 || s.len() > 4,
    ensures
        stepped(v, op, reply, settings) == v,
{
    lemma_spellings();
    let p = v.paths;
    if p.pending_lines.len() > 0 {
        assert(is_clipping(p.pending_lines, p));
    } else if p.pending_subpaths.len() > 0 {
        assert(is_clipping(p.pending_subpaths.last(), p));
    }
}

/// `W` takes three segments that do not end where the subpath starts for four: the last
/// leads back there. Without such a start they are no box.
pub proof fn law_w_closes(
    v: PageView,
    op: OperationView,
    reply: ReplyView,
    settings: Settings,
    s: Seq<Segment>,
)
    requires
        op.operator == "W"@,
        s.len() == 3,
        is_clipping(s, v.paths),
    ensures
        ({
            let start = v.paths.start;
            let w = stepped(v, op, reply, settings);
            let led = PageView {
                paths: PathsView {
                    pending_lines: s.push(Segment { from: s[2].to, to: start->0 }),
                    ..v.paths
                },
                ..v
            };
            &&& start is Some && are_apart(s[2].to, start->0) ==> w.paths.clip_rects == stepped(
                led,
                op,
                reply,
                settings,
            ).paths.clip_rects
            &&& start is None || !are_apart(s[2].to, start->0) ==> w == v
        }),
{
    lemma_spellings();
}

/// Whether an operation has two numbers, for a point.
pub open spec fn goes_to(op: OperationView, name: Seq<char>, x: Single, y: Single) -> bool {
    op.operator == name && op.operands.len() == 2 && op.operands[0] == ObjectView::Real(x)
        && op.operands[1] == ObjectView::Real(y)
}

/// Whether numbers span a box: they are finite, in order, and more than one apart.
pub open spec fn is_span(lo: Single, hi: Single) -> bool {
    lo.is_finite() && hi.is_finite() && lo.less_than(hi) && Single::from_bits(ONE_BITS).less_than(
        hi.minus(lo),
    )
}

/// A box that is drawn around its corners, closed with `h` and filled, by any of the
/// spellings, is one more rectangle of the page, from any state without a path: nothing
/// else changes.
pub proof fn law_box_drawn(
    v: PageView,
    ops: Seq<OperationView>,
    reply: ReplyView,
    settings: Settings,
    f: Frame,
)
    requires
        v.paths.pending_lines.len() == 0,
        v.paths.pending_subpaths.len() == 0,
        is_span(f.x0, f.x1),
        is_span(f.y0, f.y1),
        ops.len() == 6,
        goes_to(ops[0], "m"@, f.x0, f.y0),
        goes_to(ops[1], "l"@, f.x1, f.y0),
        goes_to(ops[2], "l"@, f.x1, f.y1),
        goes_to(ops[3], "l"@, f.x0, f.y1),
        ops[4].operator == "h"@,
        ops[5].operator == "f"@ || ops[5].operator == "F"@ || ops[5].operator == "f*"@,
    ensures
        ({
            let a = stepped(v, ops[0], reply, settings);
            let b = stepped(a, ops[1], reply, settings);
            let c = stepped(b, ops[2], reply, settings);
            let d = stepped(c, ops[3], reply, settings);
            let e = stepped(d, ops[4], reply, settings);
            let w = stepped(e, ops[5], reply, settings);
            let after = w.paths.fill_rects;
            &&& gains_image(after, v.paths.fill_rects, f, v.graphics.ctm, settings.page)
            &&& is_over(w.paths, (PathsView { fill_rects: after, ..v.paths }))
            &&& w == (PageView { paths: w.paths, ..v })
        }),
{
    let d = stepped(
        stepped(
            stepped(stepped(v, ops[0], reply, settings), ops[1], reply, settings),
            ops[2],
            reply,
            settings,
        ),
        ops[3],
        reply,
        settings,
    );
    let e = stepped(d, ops[4], reply, settings);
    lemma_box_traced(v, ops, reply, settings, f);
    lemma_box_frames(f);
    lemma_box_filled(v, d, e, ops, reply, settings, f);
}

/// The four segments around a box.
spec fn box_segments(f: Frame) -> Seq<Segment> {
    let p = Point { x: f.x0, y: f.y0 };
    let q = Point { x: f.x1, y: f.y0 };
    let r = Point { x: f.x1, y: f.y1 };
    let t = Point { x: f.x0, y: f.y1 };
    seq![
        Segment { from: p, to: q },
        Segment { from: q, to: r },
        Segment { from: r, to: t },
        Segment { from: t, to: p },
    ]
}

/// The path after three of the segments around a box.
spec fn traced(paths: PathsView, f: Frame) -> PathsView {
    PathsView {
        start: Some(Point { x: f.x0, y: f.y0 }),
        current: Some(Point { x: f.x0, y: f.y1 }),
        pending_lines: box_segments(f).take(3),
        ..paths
    }
}

proof fn lemma_box_traced(
    v: PageView,
    ops: Seq<OperationView>,
    reply: ReplyView,
    settings: Settings,
    f: Frame,
)
    requires
        v.paths.pending_lines.len() == 0,
        ops.len() == 6,
        goes_to(ops[0], "m"@, f.x0, f.y0),
        goes_to(ops[1], "l"@, f.x1, f.y0),
        goes_to(ops[2], "l"@, f.x1, f.y1),
        goes_to(ops[3], "l"@, f.x0, f.y1),
    ensures
        stepped(
            stepped(
                stepped(stepped(v, ops[0], reply, settings), ops[1], reply, settings),
                ops[2],
                reply,
                settings,
            ),
            ops[3],
            reply,
            settings,
        ) == (PageView { paths: traced(v.paths, f), ..v }),
{
    let a = stepped(v, ops[0], reply, settings);
    law_m_and_l(v, ops[0], reply, settings);
    let b = stepped(a, ops[1], reply, settings);
    law_m_and_l(a, ops[1], reply, settings);
    let c = stepped(b, ops[2], reply, settings);
    law_m_and_l(b, ops[2], reply, settings);
    let d = stepped(c, ops[3], reply, settings);
    law_m_and_l(c, ops[3], reply, settings);
    assert(d.paths.pending_lines =~= box_segments(f).take(3));
    assert(d.paths =~= traced(v.paths, f));
}

proof fn lemma_box_frames(f: Frame)
    requires
        is_span(f.x0, f.x1),
        is_span(f.y0, f.y1),
    ensures
        frames(f, box_segments(f)),
        fills_frame(box_segments(f), f),
{
    let s = box_segments(f);
    let xs = xs_of_four(s);
    let ys = ys_of_four(s);
    assert(xs =~= seq![f.x0, f.x1, f.x1, f.x1, f.x1, f.x0, f.x0, f.x0]);
    assert(ys =~= seq![f.y0, f.y0, f.y0, f.y1, f.y1, f.y1, f.y1, f.y0]);
    assert(xs[0] == f.x0 && xs[1] == f.x1 && ys[0] == f.y0 && ys[3] == f.y1);
    assert(on_corners(s, f));
    assert(frames(f, s));
    law_corners_fill(s, f);
}

proof fn lemma_box_filled(
    v: PageView,
    d: PageView,
    e: PageView,
    ops: Seq<OperationView>,
    reply: ReplyView,
    settings: Settings,
    f: Frame,
)
    requires
        v.paths.pending_lines.len() == 0,
        v.paths.pending_subpaths.len() == 0,
        is_span(f.y0, f.y1),
        frames(f, box_segments(f)),
        fills_frame(box_segments(f), f),
        d == (PageView { paths: traced(v.paths, f), ..v }),
        e == stepped(d, ops[4], reply, settings),
        ops.len() == 6,
        ops[4].operator == "h"@,
        ops[5].operator == "f"@ || ops[5].operator == "F"@ || ops[5].operator == "f*"@,
    ensures
        ({
            let w = stepped(e, ops[5], reply, settings);
            let after = w.paths.fill_rects;
            &&& gains_image(after, v.paths.fill_rects, f, v.graphics.ctm, settings.page)
            &&& is_over(w.paths, (PathsView { fill_rects: after, ..v.paths }))
            &&& w == (PageView { paths: w.paths, ..v })
        }),
{
    let s = box_segments(f);
    let t = Point { x: f.x0, y: f.y1 };
    let p = Point { x: f.x0, y: f.y0 };
    lemma_span_apart(f.y0, f.y1);
    assert(are_apart(t, p));
    assert(d.paths.pending_lines.push(Segment { from: t, to: p }) =~= s);
    law_h(d, ops[4], reply, settings, s);
    assert(e.paths.pending_subpaths =~= seq![s]);
    assert(e.paths.pending_lines =~= Seq::empty());
    let spelled = OperationView { operator: "f"@, operands: ops[5].operands };
    law_f(e, spelled, reply, settings, s, f);
    law_spellings_of_the_same();
    assert(stepped(e, ops[5], reply, settings) == stepped(e, spelled, reply, settings)) by {
        lemma_spellings();
    }
}

/// What is more than one apart is more than a hundredth apart.
proof fn lemma_span_apart(lo: Single, hi: Single)
    requires
        is_span(lo, hi),
    ensures
        Single::from_bits(0x3c23_d70a).less_than(hi.minus(lo).absolute()),
{
    reveal(Single::less_than);
    let one = Single { bits: ONE_BITS };
    let hundredth = Single { bits: 0x3c23_d70a };
    let d = hi.minus(lo);
    assert(one.mag() == 0x3f80_0000 && hundredth.mag() == 0x3c23_d70a);
    lemma_magnitude_monotone(0x3c23_d70a, 0x3f80_0000);
    lemma_magnitude_monotone(0, 0x3c23_d70a);
    lemma_zero_units(Single { bits: 0 });
    assert(Single { bits: 0 }.mag() == 0);
    assert(d.units() > 0);
    assert(d.absolute().mag() == d.mag());
    lemma_zero_units(d);
    if d.is_negative() {
        if d.mag() > 0 {
            lemma_magnitude_monotone(0, d.mag());
        }
    }
}

} // verus!
