//! Laws of shown arrays: their widths, the spaces in them, and the pieces that they
//! fall into.

use crate::geometry::product;
use crate::object::{number, ObjectView, OperationView};
use crate::operator_laws::lemma_spellings;
use crate::page::{stepped, PageItemView, PageView, ReplyView, Settings};
use crate::page_laws::joined_texts;
use crate::shows::{
    laid_out, space_threshold, ElementReplyView, FontMetrics, Layout, LineView, PieceView,
};
use crate::single::{single_of_int, Single};
use crate::single_laws::lemma_zero_sum;
use crate::text_laws::{is_spelled, is_visible, layout_of};
use crate::texts::is_blank;
use vstd::prelude::*;

verus! {

/// Whether an element of an array is a number: a displacement, and no string.
pub open spec fn is_number(element: ObjectView) -> bool {
    element is Integer || element is Real
}

/// The displacement that an element is.
pub open spec fn displaced(element: ObjectView) -> Single {
    match element {
        ObjectView::Integer(n) => single_of_int(n as int),
        ObjectView::Real(x) => x,
        _ => Single { bits: 0 },
    }
}

/// An array of nothing has no width, no text and no pieces.
pub proof fn law_empty_array(replies: Seq<ElementReplyView>, layout: Layout)
    ensures
        ({
            let line = laid_out(Seq::empty(), replies, layout);
            &&& line.pieces.len() == 0 && line.text.len() == 0
            &&& line.total == Single { bits: 0 } && line.start == Single { bits: 0 }
        }),
{
}

/// A string at the end of an array adds its width, where that is known, and its text,
/// where that is wanted; the pieces before it stay.
pub proof fn law_string_added(
    elements: Seq<ObjectView>,
    element: ObjectView,
    replies: Seq<ElementReplyView>,
    layout: Layout,
)
    requires
        !is_number(element),
    ensures
        ({
            let before = laid_out(elements, replies, layout);
            let after = laid_out(elements.push(element), replies, layout);
            let reply = replies[elements.len() as int];
            &&& after.pieces == before.pieces && after.start == before.start
            &&& reply.width matches Some(w) ==> after.total == before.total.plus(w)
            &&& reply.width is None ==> after.total == before.total
            &&& layout.visible && reply.text is Some ==> after.text == before.text + reply.text->0
            &&& !layout.visible || reply.text is None ==> after.text == before.text
        }),
{
    assert(elements.push(element).drop_last() =~= elements);
}

/// A number at the end of an array moves on by a thousandth of the font size for each
/// unit, and against the direction of the text where it is positive. Where text is
/// wanted and there is some, a gap of more than four spaces ends the piece; one of more
/// than a space, and no more than four, adds a space, unless the text ends in one; any
/// other changes no text.
pub proof fn law_number_added(
    elements: Seq<ObjectView>,
    element: ObjectView,
    replies: Seq<ElementReplyView>,
    layout: Layout,
)
    requires
        is_number(element),
    ensures
        ({
            let before = laid_out(elements, replies, layout);
            let after = laid_out(elements.push(element), replies, layout);
            let n = displaced(element);
            let thousand = Single { bits: 0x447a_0000 };
            let four = Single { bits: 0x4080_0000 };
            let has_text = layout.visible && before.text.len() > 0;
            let is_column = n.less_than(layout.space.times(four).negated());
            let is_space = n.less_than(layout.space.negated());
            let ends = before.text.len() > 0 && before.text[before.text.len() - 1] == ' ';
            &&& after.total == before.total.plus(n.negated().over(thousand).times(layout.size))
            &&& has_text && is_column ==> {
                &&& after.pieces == before.pieces.push(
                    PieceView { text: before.text, start: before.start, end: before.total },
                )
                &&& after.text == Seq::<char>::empty()
                &&& after.start == after.total
            }
            &&& !(has_text && is_column) ==> after.pieces == before.pieces && after.start
                == before.start
            &&& has_text && !is_column && is_space && !ends ==> after.text == before.text.push(' ')
            &&& !has_text || (!is_column && (!is_space || ends)) ==> after.text == before.text
        }),
{
    assert(elements.push(element).drop_last() =~= elements);
}

/// The pieces of an array are those that gaps ended, and the text behind the last of
/// them, where it is wanted and not blank.
pub proof fn law_last_piece(line: LineView, visible: bool)
    ensures
        !visible || is_blank(line.text) ==> line.all_pieces(visible) == line.pieces,
        visible && !is_blank(line.text) ==> line.all_pieces(visible) == line.pieces.push(
            (PieceView { text: line.text, start: line.start, end: line.total }),
        ),
{
}

/// A gap counts as a space from two fifths of the width of the font's own space on, in
/// thousandths of its size, and from 80 on at the least; in a font that is not known,
/// from 120 on.
pub proof fn law_space_threshold(metrics: FontMetrics)
    ensures
        ({
            let space = space_threshold(Some(metrics));
            let eighty = Single { bits: 0x42a0_0000 };
            let own = single_of_int(metrics.space_width as int).times(metrics.units_scale).times(
                Single { bits: 0x447a_0000 },
            ).times(Single { bits: 0x3ecc_cccd });
            &&& space == own || space == eighty
            &&& !space.less_than(eighty)
            &&& !own.is_nan() ==> !space.less_than(own)
            &&& own.is_nan() ==> space == eighty
        }),
        space_threshold(None) == Single::from_bits(0x42f0_0000),
{
    reveal(Single::less_than);
}

/// A text without its spaces.
pub open spec fn unspaced(text: Seq<char>) -> Seq<char>
    decreases text.len(),
{
    if text.len() == 0 {
        Seq::empty()
    } else if text.last() == ' ' {
        unspaced(text.drop_last())
    } else {
        unspaced(text.drop_last()).push(text.last())
    }
}

/// The texts of pieces, one after the other.
pub open spec fn piece_texts(pieces: Seq<PieceView>) -> Seq<char>
    decreases pieces.len(),
{
    if pieces.len() == 0 {
        Seq::empty()
    } else {
        piece_texts(pieces.drop_last()) + pieces.last().text
    }
}

proof fn lemma_unspaced_joins(a: Seq<char>, b: Seq<char>)
    ensures
        unspaced(a + b) == unspaced(a) + unspaced(b),
    decreases b.len(),
{
    if b.len() == 0 {
        assert(a + b =~= a);
        assert(unspaced(a) + unspaced(b) =~= unspaced(a));
    } else {
        lemma_unspaced_joins(a, b.drop_last());
        assert((a + b).drop_last() =~= a + b.drop_last());
        assert((a + b).last() == b.last());
        assert(unspaced(a + b) =~= unspaced(a) + unspaced(b));
    }
}

/// Nothing that an array shows is lost, nor told twice, nor put in another order: but for
/// spaces, the texts of its pieces are those of its strings.
pub proof fn law_pieces_hold_the_text(
    elements: Seq<ObjectView>,
    replies: Seq<ElementReplyView>,
    layout: Layout,
)
    requires
        layout.visible,
    ensures
        ({
            let line = laid_out(elements, replies, layout);
            unspaced(piece_texts(line.pieces) + line.text) == unspaced(
                joined_texts(elements, replies),
            )
        }),
    decreases elements.len(),
{
    let line = laid_out(elements, replies, layout);
    if elements.len() > 0 {
        let front = elements.drop_last();
        let before = laid_out(front, replies, layout);
        let told = piece_texts(before.pieces);
        law_pieces_hold_the_text(front, replies, layout);
        lemma_unspaced_joins(told, before.text);
        lemma_unspaced_joins(piece_texts(line.pieces), line.text);
        let reply = replies[elements.len() - 1];
        match number(elements.last()) {
            Some(n) => {
                if line.pieces.len() > before.pieces.len() {
                    assert(line.pieces.drop_last() =~= before.pieces);
                    lemma_unspaced_joins(told, before.text);
                    assert(unspaced(line.text) =~= Seq::<char>::empty());
                } else if line.text.len() > before.text.len() {
                    assert(line.text.drop_last() =~= before.text);
                }
                assert(unspaced(piece_texts(line.pieces)) + unspaced(line.text) =~= unspaced(told)
                    + unspaced(before.text));
            },
            None => {
                if let Some(t) = reply.text {
                    lemma_unspaced_joins(before.text, t);
                    lemma_unspaced_joins(joined_texts(front, replies), t);
                    assert(unspaced(told) + (unspaced(before.text) + unspaced(t)) =~= (unspaced(
                        told,
                    ) + unspaced(before.text)) + unspaced(t));
                }
            },
        }
    } else {
        assert(piece_texts(line.pieces) + line.text =~= Seq::<char>::empty());
    }
}

/// A string shows the same in an array of its own as without one: the item that `TJ`
/// gives for it has the text, the width on the page and the looks of the one that `Tj`
/// gives for the same answer, from every state.
pub proof fn law_array_of_one_string(
    v: PageView,
    array: OperationView,
    string: OperationView,
    metrics: FontMetrics,
    reply: ElementReplyView,
    settings: Settings,
)
    requires
        is_spelled(array, "TJ"@, 1),
        array.operands[0] matches ObjectView::Array(a) && a.len() == 1 && !is_number(a[0]),
        is_spelled(string, "Tj"@, 1),
        v.in_text_block,
        is_visible(v, settings),
        reply.text is Some && !is_blank(reply.text->0),
        reply.width is Some,
    ensures
        ({
            let answer = ReplyView::Show { metrics: Some(metrics), elements: seq![reply] };
            let one = stepped(v, array, answer, settings);
            let other = stepped(v, string, answer, settings);
            let n = v.items.len() as int;
            &&& one.items.len() == n + 1 && other.items.len() == n + 1
            &&& one.votes == other.votes
            &&& one.items[n] matches PageItemView::Shown(s) && other.items[n] matches PageItemView::Shown(
                t,
            ) && {
                &&& s.width == t.width
                &&& s.text == t.text && s.matrix == t.matrix && s.font == t.font
                &&& s.size == t.size && s.mcid == t.mcid
            }
        }),
{
    lemma_spellings();
    let replies = seq![reply];
    let elements = array.operands[0]->Array_0;
    let layout = layout_of(v, Some(metrics), settings);
    assert(v.layout(Some(metrics), settings) == layout);
    law_empty_array(replies, layout);
    law_string_added(Seq::empty(), elements[0], replies, layout);
    assert(Seq::empty().push(elements[0]) =~= elements);
    let line = laid_out(elements, replies, layout);
    let text = reply.text->0;
    assert(Seq::<char>::empty() + text =~= text);
    assert(line.pieces.len() == 0);
    let w = reply.width->0;
    lemma_zero_sum(w, product(v.text_matrix, v.graphics.ctm).a);
}

} // verus!
