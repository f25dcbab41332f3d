//! Shown strings with positioning (the operator `TJ`): widths, spaces and gaps.

use crate::object::{get_number, number, object_views, ObjectView, PdfObject};
use crate::single::{
    single_of_int, Single, EIGHTY, FOUR, HUNDRED_TWENTY, THOUSAND, TWO_FIFTHS, ZERO,
};
use crate::texts::{ends_in_space, ends_with_space, is_blank, is_blank_text};
use vstd::prelude::*;

verus! {

/// What is known of the widths of a font: the width of its space in glyph units,
/// and the size of such a unit.
#[derive(Clone, Copy, Debug, PartialEq, Eq, Structural)]
pub struct FontMetrics {
    pub space_width: i64,
    pub units_scale: Single,
}

/// What the fonts answer for an element of a shown array: the width of its string
/// in text space, and its text.
pub struct ElementReply {
    pub width: Option<Single>,
    pub text: Option<String>,
}

/// What an `ElementReply` holds.
#[verifier::ext_equal]
pub struct ElementReplyView {
    pub width: Option<Single>,
    pub text: Option<Seq<char>>,
}

/// The characters of an optional text.
pub open spec fn text_view(text: Option<String>) -> Option<Seq<char>> {
    match text {
        Some(t) => Some(t@),
        None => None,
    }
}

impl View for ElementReply {
    type V = ElementReplyView;

    open spec fn view(&self) -> ElementReplyView {
        ElementReplyView { width: self.width, text: text_view(self.text) }
    }
}

/// What replies hold.
pub open spec fn reply_views(replies: Seq<ElementReply>) -> Seq<ElementReplyView> {
    Seq::new(replies.len(), |i: int| replies[i]@)
}

/// A piece of a shown array without a gap as wide as a column: its text, and where
/// it starts and ends in text space.
pub struct Piece {
    pub text: String,
    pub start: Single,
    pub end: Single,
}

/// What a `Piece` holds.
#[verifier::ext_equal]
pub struct PieceView {
    pub text: Seq<char>,
    pub start: Single,
    pub end: Single,
}

impl View for Piece {
    type V = PieceView;

    open spec fn view(&self) -> PieceView {
        PieceView { text: self.text@, start: self.start, end: self.end }
    }
}

/// What pieces hold.
pub open spec fn piece_views(pieces: Seq<Piece>) -> Seq<PieceView> {
    Seq::new(pieces.len(), |i: int| pieces[i]@)
}

/// The displacement, in thousandths of the font size, from which a gap counts as a
/// space: two fifths of the font's own space, at least 80; 120 for an unknown
/// font.
pub open spec fn space_threshold(metrics: Option<FontMetrics>) -> Single {
    match metrics {
        Some(m) => single_of_int(m.space_width as int).times(m.units_scale).times(
            Single { bits: THOUSAND },
        ).times(Single { bits: TWO_FIFTHS }).greater(Single { bits: EIGHTY }),
        None => Single { bits: HUNDRED_TWENTY },
    }
}

/// How an array is laid out: the font size, the displacement from which a gap
/// counts as a space, and whether the text is wanted.
#[derive(Clone, Copy, Debug, PartialEq, Eq, Structural)]
pub struct Layout {
    pub size: Single,
    pub space: Single,
    pub visible: bool,
}

impl Layout {
    /// The displacement from which a gap separates columns.
    pub open spec fn column(self) -> Single {
        self.space.times(Single { bits: FOUR })
    }
}

/// An array as far as it is laid out: the finished pieces, the text of the next
/// one, where that starts, and the width so far.
pub struct Line {
    pub pieces: Vec<Piece>,
    pub text: String,
    pub start: Single,
    pub total: Single,
}

/// What a `Line` holds.
#[verifier::ext_equal]
pub struct LineView {
    pub pieces: Seq<PieceView>,
    pub text: Seq<char>,
    pub start: Single,
    pub total: Single,
}

impl View for Line {
    type V = LineView;

    open spec fn view(&self) -> LineView {
        LineView {
            pieces: piece_views(self.pieces@),
            text: self.text@,
            start: self.start,
            total: self.total,
        }
    }
}

/// The width that a displacement of `n` thousandths adds.
pub open spec fn displacement(n: Single, size: Single) -> Single {
    n.negated().over(Single { bits: THOUSAND }).times(size)
}

impl LineView {
    /// A displacement: one that separates columns ends the piece, one as wide as a
    /// space adds a space where there is none.
    pub open spec fn with_gap(self, n: Single, layout: Layout) -> LineView {
        let total = self.total.plus(displacement(n, layout.size));
        if layout.visible && n.less_than(layout.column().negated()) && self.text.len() > 0 {
            LineView {
                pieces: self.pieces.push(
                    PieceView { text: self.text, start: self.start, end: self.total },
                ),
                text: Seq::empty(),
                start: total,
                total,
            }
        } else if layout.visible && n.less_than(layout.space.negated()) && self.text.len() > 0
            && !ends_in_space(self.text) {
            LineView { text: self.text.push(' '), total, ..self }
        } else {
            LineView { total, ..self }
        }
    }

    /// A string: its width counts, its text only where it is wanted.
    pub open spec fn with_string(self, reply: ElementReplyView, visible: bool) -> LineView {
        LineView {
            text: match reply.text {
                Some(t) if visible => self.text + t,
                _ => self.text,
            },
            total: match reply.width {
                Some(w) => self.total.plus(w),
                None => self.total,
            },
            ..self
        }
    }

    /// An element: a number is a displacement, anything else counts as a string.
    pub open spec fn with_element(
        self,
        element: ObjectView,
        reply: ElementReplyView,
        layout: Layout,
    ) -> LineView {
        match number(element) {
            Some(n) => self.with_gap(n, layout),
            None => self.with_string(reply, layout.visible),
        }
    }

    /// The pieces, with the last one where it is not blank.
    pub open spec fn all_pieces(self, visible: bool) -> Seq<PieceView> {
        if visible && !is_blank(self.text) {
            self.pieces.push(PieceView { text: self.text, start: self.start, end: self.total })
        } else {
            self.pieces
        }
    }
}

/// Nothing laid out yet.
pub open spec fn empty_line() -> LineView {
    LineView {
        pieces: Seq::empty(),
        text: Seq::empty(),
        start: Single { bits: ZERO },
        total: Single { bits: ZERO },
    }
}

/// An array laid out, its elements in order, each with what the fonts answer.
pub open spec fn laid_out(
    elements: Seq<ObjectView>,
    replies: Seq<ElementReplyView>,
    layout: Layout,
) -> LineView
    decreases elements.len(),
{
    if elements.len() == 0 {
        empty_line()
    } else {
        laid_out(elements.drop_last(), replies, layout).with_element(
            elements.last(),
            replies[elements.len() - 1],
            layout,
        )
    }
}

/// The displacement from which a gap counts as a space.
pub fn find_space_threshold(metrics: &Option<FontMetrics>) -> (r: Single)
    ensures
        r == space_threshold(*metrics),
{
    match metrics {
        Some(m) => Single::from_i64(m.space_width).mul(m.units_scale).mul(
            Single::from_bits(THOUSAND),
        ).mul(Single::from_bits(TWO_FIFTHS)).max(Single::from_bits(EIGHTY)),
        None => Single::from_bits(HUNDRED_TWENTY),
    }
}

impl Line {
    fn add_gap(&mut self, n: Single, layout: &Layout)
        ensures
            final(self)@ == old(self)@.with_gap(n, *layout),
    {
        let shift = n.neg().div(Single::from_bits(THOUSAND)).mul(layout.size);
        let total = self.total.add(shift);
        let wanted = layout.visible && !self.text.as_str().is_empty();
        let column = layout.space.mul(Single::from_bits(FOUR));
        if wanted && n.lt(column.neg()) {
            let mut text = String::new();
            std::mem::swap(&mut text, &mut self.text);
            let ghost before = self.pieces@;
            let piece = Piece { text, start: self.start, end: self.total };
            self.pieces.push(piece);
            assert(piece_views(self.pieces@) =~= piece_views(before).push(piece@));
            self.start = total;
        } else if wanted && n.lt(layout.space.neg()) && !ends_with_space(&self.text) {
            proof {
                reveal_strlit(" ");
                assert(" "@ =~= seq![' ']);
            }
            let ghost before = self.text@;
            self.text.append(" ");
            assert(self.text@ =~= before.push(' '));
        }
        self.total = total;
        assert(self@ =~= old(self)@.with_gap(n, *layout));
    }

    fn add_string(&mut self, reply: &ElementReply, visible: bool)
        ensures
            final(self)@ == old(self)@.with_string(reply@, visible),
    {
        if let Some(w) = reply.width {
            self.total = self.total.add(w);
        }
        if visible {
            if let Some(t) = &reply.text {
                self.text.append(t.as_str());
            }
        }
        assert(self@ =~= old(self)@.with_string(reply@, visible));
    }
}

/// Lays out an array: adds up the widths of its strings and the displacements
/// between them, and gathers the text in pieces that gaps as wide as columns
/// separate. The last piece is left out where it is blank.
pub fn lay_out(elements: &Vec<PdfObject>, replies: &Vec<ElementReply>, layout: &Layout) -> (r: (
    Vec<Piece>,
    Single,
))
    requires
        replies@.len() == elements@.len(),
    ensures
        ({
            let line = laid_out(object_views(elements@), reply_views(replies@), *layout);
            piece_views(r.0@) == line.all_pieces(layout.visible) && r.1 == line.total
        }),
{
    let ghost views = object_views(elements@);
    let ghost answers = reply_views(replies@);
    let mut line = Line {
        pieces: Vec::new(),
        text: String::new(),
        start: Single::from_bits(ZERO),
        total: Single::from_bits(ZERO),
    };
    let mut i: usize = 0;
    assert(line@ =~= empty_line());
    assert(views.take(0).len() == 0);
    while i < elements.len()
        invariant
            i <= elements@.len(),
            replies@.len() == elements@.len(),
            views == object_views(elements@),
            answers == reply_views(replies@),
            line@ == laid_out(views.take(i as int), answers, *layout),
        decreases elements@.len() - i,
    {
        assert(views.take(i + 1).drop_last() =~= views.take(i as int));
        assert(views.take(i + 1).last() == elements@[i as int]@);
        assert(answers[i as int] == replies@[i as int]@);
        match get_number(&elements[i]) {
            Some(n) => line.add_gap(n, layout),
            None => line.add_string(&replies[i], layout.visible),
        }
        i = i + 1;
    }
    assert(views.take(i as int) =~= views);
    let ghost whole = line@;
    let Line { pieces, text, start, total } = line;
    let mut pieces = pieces;
    if layout.visible && !is_blank_text(&text) {
        let ghost before = pieces@;
        let piece = Piece { text, start, end: total };
        pieces.push(piece);
        assert(piece_views(pieces@) =~= piece_views(before).push(piece@));
    }
    (pieces, total)
}

} // verus!
