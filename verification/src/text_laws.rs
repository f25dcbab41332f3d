//! Laws of the operators that set and show text, as content streams spell them.

use crate::geometry::{product, Matrix};
use crate::object::{ObjectView, OperationView};
use crate::operator_laws::lemma_spellings;
use crate::page::{
    current_mcid, stepped, GraphicsState, MarkView, PageItemView, PageView, ReplyView, Settings,
};
use crate::shows::{laid_out, ElementReplyView, FontMetrics, Layout};
use crate::single::{single_of_int, Single};
use crate::texts::{is_blank, utf8_lossy};
use vstd::prelude::*;

verus! {

/// Whether an operation is spelled as `name`, with at least `n` operands.
pub open spec fn is_spelled(op: OperationView, name: Seq<char>, n: nat) -> bool {
    op.operator == name && op.operands.len() >= n
}

/// The number that an operand is, or else the number with the given bits.
pub open spec fn operand(op: OperationView, i: int, bits: u32) -> Single {
    match op.operands[i] {
        ObjectView::Integer(n) => single_of_int(n as int),
        ObjectView::Real(x) => x,
        _ => Single { bits },
    }
}

/// The bits of 1 and of 0.
pub const ONE_BITS: u32 = 0x3f80_0000;

pub const ZERO_BITS: u32 = 0;

/// A product of matrices: each row of the first, taken by the columns of the second;
/// the last row is a point, and the others are directions.
pub proof fn law_product(m: Matrix, n: Matrix)
    ensures
        product(m, n).a == m.a.times(n.a).plus(m.b.times(n.c)),
        product(m, n).b == m.a.times(n.b).plus(m.b.times(n.d)),
        product(m, n).c == m.c.times(n.a).plus(m.d.times(n.c)),
        product(m, n).d == m.c.times(n.b).plus(m.d.times(n.d)),
        product(m, n).e == m.e.times(n.a).plus(m.f.times(n.c)).plus(n.e),
        product(m, n).f == m.e.times(n.b).plus(m.f.times(n.d)).plus(n.f),
{
}

/// The origin of a product is the image of the origin of the first matrix under the
/// second, whatever the other entries are.
pub proof fn law_product_moves_origin(m: Matrix, n: Matrix)
    ensures
        product(m, n).e == n.image_x(m.e, m.f),
        product(m, n).f == n.image_y(m.e, m.f),
{
}

/// `cm` puts a matrix in front of the current one; operands that are no numbers are
/// those of the identity. With fewer than six operands nothing happens.
pub proof fn law_cm(v: PageView, op: OperationView, reply: ReplyView, settings: Settings)
    requires
        op.operator == "cm"@,
    ensures
        op.operands.len() < 6 ==> stepped(v, op, reply, settings) == v,
        op.operands.len() >= 6 ==> {
            let m = Matrix {
                a: operand(op, 0, ONE_BITS),
                b: operand(op, 1, ZERO_BITS),
                c: operand(op, 2, ZERO_BITS),
                d: operand(op, 3, ONE_BITS),
                e: operand(op, 4, ZERO_BITS),
                f: operand(op, 5, ZERO_BITS),
            };
            stepped(v, op, reply, settings) == (PageView {
                graphics: GraphicsState { ctm: product(m, v.graphics.ctm), ..v.graphics },
                ..v
            })
        },
{
    lemma_spellings();
}

/// `Tm` sets the text matrix and the line matrix to its six operands; those that are
/// no numbers are those of the identity.
pub proof fn law_tm(v: PageView, op: OperationView, reply: ReplyView, settings: Settings)
    requires
        op.operator == "Tm"@,
    ensures
        op.operands.len() < 6 ==> stepped(v, op, reply, settings) == v,
        op.operands.len() >= 6 ==> {
            let m = Matrix {
                a: operand(op, 0, ONE_BITS),
                b: operand(op, 1, ZERO_BITS),
                c: operand(op, 2, ZERO_BITS),
                d: operand(op, 3, ONE_BITS),
                e: operand(op, 4, ZERO_BITS),
                f: operand(op, 5, ZERO_BITS),
            };
            stepped(v, op, reply, settings) == (PageView { text_matrix: m, line_matrix: m, ..v })
        },
{
    lemma_spellings();
}

/// Whether a matrix is another one moved by `(x, y)`, measured along its axes.
pub open spec fn is_moved(m: Matrix, from: Matrix, x: Single, y: Single) -> bool {
    &&& m.a == from.a && m.b == from.b && m.c == from.c && m.d == from.d
    &&& m.e == from.e.plus(x.times(from.a).plus(y.times(from.c)))
    &&& m.f == from.f.plus(x.times(from.b).plus(y.times(from.d)))
}

/// `Td` moves the line, from where it starts and not from where the text is, and the
/// text starts there. Nothing else changes.
pub proof fn law_td(v: PageView, op: OperationView, reply: ReplyView, settings: Settings)
    requires
        op.operator == "Td"@,
    ensures
        op.operands.len() < 2 ==> stepped(v, op, reply, settings) == v,
        op.operands.len() >= 2 ==> {
            let w = stepped(v, op, reply, settings);
            &&& is_moved(
                w.line_matrix,
                v.line_matrix,
                operand(op, 0, ZERO_BITS),
                operand(op, 1, ZERO_BITS),
            )
            &&& w.text_matrix == w.line_matrix
            &&& w == (PageView { text_matrix: w.text_matrix, line_matrix: w.line_matrix, ..v })
        },
{
    lemma_spellings();
}

/// `TD` does what `Td` does, and sets the leading to how far it goes down.
pub proof fn law_td_with_leading(
    v: PageView,
    op: OperationView,
    reply: ReplyView,
    settings: Settings,
)
    requires
        op.operator == "TD"@,
    ensures
        op.operands.len() < 2 ==> stepped(v, op, reply, settings) == v,
        op.operands.len() >= 2 ==> stepped(v, op, reply, settings) == (PageView {
            leading: operand(op, 1, ZERO_BITS).negated(),
            ..stepped(v, OperationView { operator: "Td"@, ..op }, reply, settings)
        }),
{
    lemma_spellings();
}

/// How far a line lies below the one before it: the leading, or six fifths of the font
/// size where no leading is set.
pub open spec fn line_step(v: PageView) -> Single {
    if v.leading.mag() == 0 {
        v.font_size.times(Single { bits: 0x3f99_999a })
    } else {
        v.leading
    }
}

/// `T*` moves down by a line, along the second axis of the line matrix.
pub proof fn law_next_line(v: PageView, op: OperationView, reply: ReplyView, settings: Settings)
    requires
        op.operator == "T*"@,
    ensures
        ({
            let w = stepped(v, op, reply, settings);
            let m = v.line_matrix;
            let down = line_step(v).negated();
            &&& w.line_matrix == (Matrix {
                e: m.e.plus(down.times(m.c)),
                f: m.f.plus(down.times(m.d)),
                ..m
            })
            &&& w == (PageView { text_matrix: w.line_matrix, line_matrix: w.line_matrix, ..v })
        }),
{
    lemma_spellings();
    reveal(Single::same_number);
    let zero = Single { bits: 0 };
    assert(zero.mag() == 0 && !zero.is_nan());
    crate::single::lemma_zero_units(v.leading);
    crate::single::lemma_zero_units(zero);
}

/// `Tf` sets the font, where it is named, and its size, where that is a number.
pub proof fn law_tf(v: PageView, op: OperationView, reply: ReplyView, settings: Settings)
    requires
        op.operator == "Tf"@,
    ensures
        op.operands.len() < 2 ==> stepped(v, op, reply, settings) == v,
        op.operands.len() >= 2 ==> {
            let w = stepped(v, op, reply, settings);
            &&& op.operands[0] matches ObjectView::Name(n) ==> w.font == utf8_lossy(n)
            &&& !(op.operands[0] is Name) ==> w.font == v.font
            &&& w.font_size == operand(op, 1, v.font_size.bits)
            &&& w == (PageView { font: w.font, font_size: w.font_size, ..v })
        },
{
    lemma_spellings();
}

/// `TL`, `Tc`, `Tw` and `Tr` each set one number, where they have one, and leave the
/// others alone.
pub proof fn law_text_parameters(
    v: PageView,
    op: OperationView,
    reply: ReplyView,
    settings: Settings,
)
    ensures
        ({
            let w = stepped(v, op, reply, settings);
            let given = op.operands.len() > 0 && (op.operands[0] is Integer || op.operands[0] is Real);
            let x = operand(op, 0, ZERO_BITS);
            let set = op.operator == "TL"@ || op.operator == "Tc"@ || op.operator == "Tw"@
                || op.operator == "Tr"@;
            &&& set && !given ==> w == v
            &&& given && op.operator == "TL"@ ==> w == (PageView { leading: x, ..v })
            &&& given && op.operator == "Tc"@ ==> w == (PageView {
                graphics: GraphicsState { char_spacing: x, ..v.graphics },
                ..v
            })
            &&& given && op.operator == "Tw"@ ==> w == (PageView {
                graphics: GraphicsState { word_spacing: x, ..v.graphics },
                ..v
            })
            &&& given && op.operator == "Tr"@ ==> w == (PageView {
                graphics: GraphicsState {
                    rendering_mode: x.integer_part(-0x8000_0000, 0x7fff_ffff) as i32,
                    ..v.graphics
                },
                ..v
            })
        }),
{
    lemma_spellings();
}

/// `q` puts the graphics state aside, and `Q` takes up the last one that was put aside;
/// the text state is not among it.
pub proof fn law_q(v: PageView, op: OperationView, reply: ReplyView, settings: Settings)
    ensures
        op.operator == "q"@ ==> stepped(v, op, reply, settings) == (PageView {
            saved: v.saved.push(v.graphics),
            ..v
        }),
        op.operator == "Q"@ && v.saved.len() == 0 ==> stepped(v, op, reply, settings) == v,
        op.operator == "Q"@ && v.saved.len() > 0 ==> stepped(v, op, reply, settings) == (PageView {
            graphics: v.saved[v.saved.len() - 1],
            saved: v.saved.take(v.saved.len() - 1),
            ..v
        }),
{
    lemma_spellings();
    if v.saved.len() > 0 {
        assert(v.saved.drop_last() =~= v.saved.take(v.saved.len() - 1));
    }
}

/// `BT` starts a text block at the origin, with visible text; `ET` ends it and leaves
/// all else as it is.
pub proof fn law_text_blocks(v: PageView, op: OperationView, reply: ReplyView, settings: Settings)
    ensures
        op.operator == "BT"@ ==> {
            let w = stepped(v, op, reply, settings);
            let m = Matrix {
                a: Single { bits: ONE_BITS },
                b: Single { bits: ZERO_BITS },
                c: Single { bits: ZERO_BITS },
                d: Single { bits: ONE_BITS },
                e: Single { bits: ZERO_BITS },
                f: Single { bits: ZERO_BITS },
            };
            w == (PageView {
                in_text_block: true,
                text_matrix: m,
                line_matrix: m,
                graphics: GraphicsState { rendering_mode: 0, ..v.graphics },
                ..v
            })
        },
        op.operator == "ET"@ ==> stepped(v, op, reply, settings) == (PageView {
            in_text_block: false,
            ..v
        }),
{
    lemma_spellings();
}

/// Whether text is shown as it is: it is not invisible, unless that is wanted, and no
/// mark replaces it.
pub open spec fn is_visible(v: PageView, settings: Settings) -> bool {
    !v.suppressed && (v.graphics.rendering_mode != 3 || settings.include_invisible)
}

/// Whether an id is that of the innermost mark that has one.
pub open spec fn is_innermost(id: Option<i64>, marks: Seq<MarkView>) -> bool {
    ||| id is None && forall|i: int| 0 <= i < marks.len() ==> (#[trigger] marks[i]).mcid is None
    ||| exists|k: int|
        0 <= k < marks.len() && id is Some && (#[trigger] marks[k]).mcid == id && forall|i: int|
            k < i < marks.len() ==> (#[trigger] marks[i]).mcid is None
}

pub proof fn lemma_innermost(marks: Seq<MarkView>)
    ensures
        is_innermost(current_mcid(marks), marks),
    decreases marks.len(),
{
    if marks.len() > 0 {
        let n = marks.len() - 1;
        if marks.last().mcid is Some {
            assert(marks[n].mcid == current_mcid(marks));
        } else {
            let front = marks.drop_last();
            lemma_innermost(front);
            if current_mcid(front) is Some {
                let k = choose|k: int|
                    0 <= k < front.len() && (#[trigger] front[k]).mcid == current_mcid(front)
                        && forall|i: int| k < i < front.len() ==> (#[trigger] front[i]).mcid is None;
                assert(marks[k] == front[k]);
                assert forall|i: int| k < i < marks.len() implies (#[trigger] marks[i]).mcid
                    is None by {
                    if i < n {
                        assert(marks[i] == front[i]);
                    }
                }
            } else {
                assert forall|i: int| 0 <= i < marks.len() implies (#[trigger] marks[i]).mcid
                    is None by {
                    if i < n {
                        assert(marks[i] == front[i]);
                    }
                }
            }
        }
    }
}

/// Whether an item is a text of the current font and size, with the id of the innermost
/// mark, placed by the text matrix and the current one together.
pub open spec fn is_text_of(item: PageItemView, v: PageView, text: Seq<char>) -> bool {
    item matches PageItemView::Shown(s) && {
        &&& s.text == text
        &&& s.matrix == product(v.text_matrix, v.graphics.ctm)
        &&& s.font == v.font
        &&& s.size == v.font_size
        &&& is_innermost(s.mcid, v.marks)
    }
}

/// Whether a matrix is another one moved by `w` along its first axis.
pub open spec fn is_advanced(m: Matrix, from: Matrix, w: Single) -> bool {
    m == (Matrix { e: from.e.plus(w.times(from.a)), f: from.f.plus(w.times(from.b)), ..from })
}

/// `Tj`, visible: a text that is not blank becomes an item. It stands where the text
/// matrix and the current one put the origin, and is as wide on the page as the
/// string, scaled by the first entry of the matrix of the item. The text moves on by
/// the width of the string.
pub proof fn law_tj_shows(
    v: PageView,
    op: OperationView,
    metrics: Option<FontMetrics>,
    elements: Seq<ElementReplyView>,
    settings: Settings,
)
    requires
        is_spelled(op, "Tj"@, 1),
        v.in_text_block,
        is_visible(v, settings),
        elements.len() == 1,
        elements[0].text is Some,
    ensures
        ({
            let w = stepped(v, op, ReplyView::Show { metrics, elements }, settings);
            let text = elements[0].text->0;
            let width = elements[0].width;
            &&& is_blank(text) ==> w.items == v.items
            &&& !is_blank(text) ==> {
                &&& w.items.len() == v.items.len() + 1
                &&& w.items.take(v.items.len() as int) == v.items
                &&& is_text_of(w.items[v.items.len() as int], v, text)
                &&& w.items[v.items.len() as int] matches PageItemView::Shown(s) && {
                    &&& s.x == s.matrix.e
                    &&& s.y == s.matrix.f
                    &&& width is None ==> s.width == Single { bits: ZERO_BITS }
                    &&& width is Some ==> s.width == width->0.times(s.matrix.a).absolute()
                }
            }
            &&& width is None ==> w.text_matrix == v.text_matrix
            &&& width is Some ==> is_advanced(w.text_matrix, v.text_matrix, width->0)
            &&& w == (PageView {
                items: w.items,
                votes: w.votes,
                text_matrix: w.text_matrix,
                ..v
            })
        }),
{
    lemma_spellings();
    lemma_innermost(v.marks);
    let w = stepped(v, op, ReplyView::Show { metrics, elements }, settings);
    if !is_blank(elements[0].text->0) {
        assert(w.items.take(v.items.len() as int) =~= v.items);
    }
}

/// `Tj`, visible, with an operand that has no text changes nothing.
pub proof fn law_tj_without_text(
    v: PageView,
    op: OperationView,
    metrics: Option<FontMetrics>,
    elements: Seq<ElementReplyView>,
    settings: Settings,
)
    requires
        op.operator == "Tj"@,
        is_visible(v, settings),
        elements.len() == 1,
        elements[0].text is None,
    ensures
        stepped(v, op, ReplyView::Show { metrics, elements }, settings) == v,
{
    lemma_spellings();
}

/// Outside a text block, or without operands, nothing is shown.
pub proof fn law_nothing_shown_outside(
    v: PageView,
    op: OperationView,
    reply: ReplyView,
    settings: Settings,
)
    requires
        op.operator == "Tj"@ || op.operator == "TJ"@,
        !v.in_text_block || op.operands.len() == 0,
    ensures
        stepped(v, op, reply, settings) == v,
{
    lemma_spellings();
}

/// `'`, visible: the text is shown on the next line, without a width, and the text does
/// not move on. What cannot be shown leaves the page on the next line.
pub proof fn law_next_line_shows(
    v: PageView,
    op: OperationView,
    metrics: Option<FontMetrics>,
    elements: Seq<ElementReplyView>,
    settings: Settings,
    line: OperationView,
    nothing: ReplyView,
)
    requires
        is_spelled(op, "'"@, 1),
        line.operator == "T*"@,
        elements.len() == 1,
    ensures
        ({
            let w = stepped(v, op, ReplyView::Show { metrics, elements }, settings);
            let below = stepped(v, line, nothing, settings);
            let text = elements[0].text;
            &&& text is None || is_blank(text->0) || !is_visible(v, settings) ==> w == below
            &&& text is Some && !is_blank(text->0) && is_visible(v, settings) ==> {
                &&& w == (PageView { items: w.items, votes: w.votes, ..below })
                &&& w.items.len() == v.items.len() + 1
                &&& w.items.take(v.items.len() as int) == v.items
                &&& is_text_of(w.items[v.items.len() as int], below, text->0)
                &&& w.items[v.items.len() as int] matches PageItemView::Shown(s) && s.x
                    == s.matrix.e && s.y == s.matrix.f && s.width == Single { bits: ZERO_BITS }
            }
        }),
{
    lemma_spellings();
    lemma_innermost(v.marks);
    let w = stepped(v, op, ReplyView::Show { metrics, elements }, settings);
    if elements[0].text is Some && !is_blank(elements[0].text->0) && is_visible(v, settings) {
        assert(w.items.take(v.items.len() as int) =~= v.items);
    }
}

/// How an array is laid out in a state.
pub open spec fn layout_of(v: PageView, metrics: Option<FontMetrics>, settings: Settings) -> Layout {
    Layout {
        size: v.font_size,
        space: crate::shows::space_threshold(metrics),
        visible: is_visible(v, settings),
    }
}

/// `TJ`: every piece of the array becomes an item, in their order. Each stands where its
/// start, measured along the text from where that is, is put on the page, and is as
/// wide there as it is long, scaled by the first entry of the matrix of the item; in a
/// font that is not known it has no width. The text moves on by the width of the
/// array, where the font is known.
pub proof fn law_tj_array_shows(
    v: PageView,
    op: OperationView,
    metrics: Option<FontMetrics>,
    elements: Seq<ElementReplyView>,
    settings: Settings,
)
    requires
        is_spelled(op, "TJ"@, 1),
        op.operands[0] is Array,
        v.in_text_block,
        !v.suppressed,
    ensures
        ({
            let w = stepped(v, op, ReplyView::Show { metrics, elements }, settings);
            let layout = layout_of(v, metrics, settings);
            let line = laid_out(op.operands[0]->Array_0, elements, layout);
            let pieces = line.all_pieces(layout.visible);
            let n = v.items.len() as int;
            &&& w.items.len() == n + pieces.len()
            &&& w.items.take(n) == v.items
            &&& forall|k: int|
                0 <= k < pieces.len() ==> {
                    let item = #[trigger] w.items[n + k];
                    let from = pieces[k].start;
                    let m = v.text_matrix;
                    let ctm = v.graphics.ctm;
                    &&& is_text_of(item, v, pieces[k].text)
                    &&& item->Shown_0.x == ctm.image_x(
                        m.e.plus(from.times(m.a)),
                        m.f.plus(from.times(m.b)),
                    )
                    &&& item->Shown_0.y == ctm.image_y(
                        m.e.plus(from.times(m.a)),
                        m.f.plus(from.times(m.b)),
                    )
                    &&& metrics is Some ==> item->Shown_0.width == pieces[k].end.minus(
                        from,
                    ).times(item->Shown_0.matrix.a).absolute()
                    &&& metrics is None ==> item->Shown_0.width == Single { bits: ZERO_BITS }
                }
            &&& metrics is None ==> w.text_matrix == v.text_matrix
            &&& metrics is Some ==> is_advanced(w.text_matrix, v.text_matrix, line.total)
            &&& w == (PageView {
                items: w.items,
                votes: w.votes,
                text_matrix: w.text_matrix,
                ..v
            })
        }),
{
    lemma_spellings();
    lemma_innermost(v.marks);
    let w = stepped(v, op, ReplyView::Show { metrics, elements }, settings);
    assert(v.layout(metrics, settings) == layout_of(v, metrics, settings));
    assert(w.items.take(v.items.len() as int) =~= v.items);
}

/// Invisible text only moves on, by the width of the string or the array; so does text
/// that a mark replaces, of which the first to be shown marks the place. There is no
/// item, and no vote.
pub proof fn law_unseen_text(
    v: PageView,
    op: OperationView,
    metrics: Option<FontMetrics>,
    elements: Seq<ElementReplyView>,
    settings: Settings,
)
    requires
        v.in_text_block,
        !is_visible(v, settings),
        is_spelled(op, "Tj"@, 1) || (is_spelled(op, "TJ"@, 1) && op.operands[0] is Array),
    ensures
        ({
            let w = stepped(v, op, ReplyView::Show { metrics, elements }, settings);
            let width = if op.operator == "Tj"@ {
                elements[0].width
            } else if metrics is Some {
                Some(
                    laid_out(
                        op.operands[0]->Array_0,
                        elements,
                        layout_of(v, metrics, settings),
                    ).total,
                )
            } else {
                None
            };
            &&& width is None ==> w.text_matrix == v.text_matrix
            &&& width is Some ==> is_advanced(w.text_matrix, v.text_matrix, width->0)
            &&& !v.suppressed || v.glyph_matrix is Some ==> w.glyph_matrix == v.glyph_matrix
            &&& v.suppressed && v.glyph_matrix is None ==> w.glyph_matrix == Some(v.text_matrix)
            &&& w == (PageView {
                text_matrix: w.text_matrix,
                glyph_matrix: w.glyph_matrix,
                ..v
            })
        }),
{
    lemma_spellings();
    if op.operator == "TJ"@ {
        assert(v.layout(metrics, settings) == layout_of(v, metrics, settings));
        crate::page_laws::lemma_hidden_line(
            op.operands[0]->Array_0,
            elements,
            layout_of(v, metrics, settings),
        );
        let w = stepped(v, op, ReplyView::Show { metrics, elements }, settings);
        assert(w.items =~= v.items);
    }
}

} // verus!
