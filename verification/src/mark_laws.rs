//! Laws of marked content: the text that replaces glyphs and its place; and of the votes
//! on the direction of text.

use crate::extraction::is_corrected;
use crate::geometry::{
    product, turned_item, Matrix, PdfLine, PdfRect, RotationVotes, TextItemView,
};
use crate::object::OperationView;
use crate::operator_laws::lemma_spellings;
use crate::page::{initial_page, stepped, MarkView, PageItemView, PageView, ReplyView, Settings};
use crate::page_laws::{
    law_nothing_vanishes, lemma_suppressed_run, lemma_suppressed_step, run, stays_in_mark,
};
use crate::single::Single;
use crate::text_laws::{is_innermost, is_spelled, is_visible, lemma_innermost};
use crate::texts::is_blank;
use vstd::prelude::*;

verus! {

/// Whether an operation neither draws external objects nor begins or ends marks, by its
/// spelling.
pub open spec fn is_within_mark(op: OperationView) -> bool {
    op.operator != "Do"@ && op.operator != "BMC"@ && op.operator != "BDC"@ && op.operator
        != "EMC"@
}

/// Whether an operation shows glyphs: a string or an array in a text block.
pub open spec fn shows_glyphs(v: PageView, op: OperationView, reply: ReplyView) -> bool {
    &&& v.in_text_block
    &&& reply is Show
    &&& is_spelled(op, "Tj"@, 1) || (is_spelled(op, "TJ"@, 1) && op.operands[0] is Array)
}

/// `BMC` and `BDC` begin a mark; only one with a text of its own replaces the glyphs in
/// it.
pub proof fn law_mark_begins(v: PageView, op: OperationView, mark: MarkView, settings: Settings)
    requires
        op.operator == "BMC"@ || op.operator == "BDC"@,
        op.operator == "BMC"@ ==> mark.actual_text is None && mark.mcid is None,
    ensures
        ({
            let w = stepped(v, op, ReplyView::Mark(mark), settings);
            &&& w.marks == v.marks.push(mark)
            &&& mark.actual_text is None ==> w == (PageView { marks: w.marks, ..v })
            &&& mark.actual_text is Some ==> w == (PageView {
                marks: w.marks,
                suppressed: true,
                start_matrix: Some(v.text_matrix),
                glyph_matrix: None,
                ..v
            })
        }),
{
    lemma_spellings();
}

/// `EMC` ends the innermost mark. Glyphs are then replaced where one of the marks around
/// it has a text; and one without a text changes nothing of that.
pub proof fn law_mark_ends(v: PageView, op: OperationView, reply: ReplyView, settings: Settings)
    requires
        op.operator == "EMC"@,
    ensures
        ({
            let w = stepped(v, op, reply, settings);
            let n = v.marks.len() - 1;
            &&& v.marks.len() == 0 ==> w == v
            &&& v.marks.len() > 0 ==> w.marks == v.marks.take(n)
            &&& v.marks.len() > 0 && v.marks[n].actual_text is None ==> w == (PageView {
                marks: w.marks,
                ..v
            })
            &&& v.marks.len() > 0 && v.marks[n].actual_text is Some ==> (w.suppressed <==> exists|
                i: int,
            |
                0 <= i < n && (#[trigger] v.marks[i]).actual_text is Some)
        }),
{
    lemma_spellings();
    let w = stepped(v, op, reply, settings);
    let n = v.marks.len() - 1;
    if v.marks.len() > 0 {
        assert(v.marks.drop_last() =~= v.marks.take(n));
        if v.marks[n].actual_text is Some {
            if w.suppressed {
                let i = choose|i: int|
                    0 <= i < w.marks.len() && (#[trigger] w.marks[i]).actual_text is Some;
                assert(v.marks[i].actual_text is Some);
            }
            if exists|i: int| 0 <= i < n && (#[trigger] v.marks[i]).actual_text is Some {
                let i = choose|i: int| 0 <= i < n && (#[trigger] v.marks[i]).actual_text is Some;
                assert(w.marks[i].actual_text is Some);
            }
        }
    }
}

proof fn lemma_first_glyph(v: PageView, op: OperationView, reply: ReplyView, settings: Settings)
    requires
        v.suppressed,
        is_within_mark(op),
    ensures
        ({
            let w = stepped(v, op, reply, settings);
            &&& shows_glyphs(v, op, reply) && v.glyph_matrix is None ==> w.glyph_matrix == Some(
                v.text_matrix,
            )
            &&& !shows_glyphs(v, op, reply) || v.glyph_matrix is Some ==> w.glyph_matrix
                == v.glyph_matrix
        }),
{
    lemma_spellings();
    assert(stays_in_mark(op));
}

proof fn lemma_glyph_kept(
    v: PageView,
    ops: Seq<OperationView>,
    replies: Seq<ReplyView>,
    settings: Settings,
)
    requires
        v.suppressed,
        forall|i: int| 0 <= i < ops.len() ==> is_within_mark(#[trigger] ops[i]),
        v.glyph_matrix is Some || forall|i: int|
            0 <= i < ops.len() ==> !shows_glyphs(
                run(v, ops.take(i), replies, settings),
                #[trigger] ops[i],
                replies[i],
            ),
    ensures
        run(v, ops, replies, settings).glyph_matrix == v.glyph_matrix,
        run(v, ops, replies, settings).suppressed,
        run(v, ops, replies, settings).marks == v.marks,
        run(v, ops, replies, settings).items == v.items,
        run(v, ops, replies, settings).start_matrix == v.start_matrix,
        run(v, ops, replies, settings).votes == v.votes,
    decreases ops.len(),
{
    assert forall|i: int| 0 <= i < ops.len() implies stays_in_mark(#[trigger] ops[i]) by {
        assert(is_within_mark(ops[i]));
    }
    lemma_suppressed_run(v, ops, replies, settings);
    if ops.len() > 0 {
        let front = ops.drop_last();
        let n = ops.len() - 1;
        assert forall|i: int| 0 <= i < front.len() implies is_within_mark(#[trigger] front[i]) by {
            assert(front[i] == ops[i]);
        }
        if v.glyph_matrix is None {
            assert forall|i: int| 0 <= i < front.len() implies !shows_glyphs(
                run(v, front.take(i), replies, settings),
                #[trigger] front[i],
                replies[i],
            ) by {
                assert(front.take(i) =~= ops.take(i));
                assert(front[i] == ops[i]);
            }
        }
        lemma_glyph_kept(v, front, replies, settings);
        assert(ops.take(n) =~= front);
        assert(is_within_mark(ops[n]));
        lemma_first_glyph(run(v, front, replies, settings), ops[n], replies[n], settings);
    }
}

/// Whether an item is a text that stands where a matrix in front of the current one puts
/// the origin.
pub open spec fn stands_by(item: PageItemView, text: Seq<char>, m: Matrix, ctm: Matrix) -> bool {
    item matches PageItemView::Shown(s) && {
        &&& s.text == text
        &&& s.x == product(m, ctm).e
        &&& s.y == product(m, ctm).f
        &&& s.matrix == product(m, ctm)
    }
}

/// Whether a text that replaces glyphs is as wide as they reach: from where its place is
/// to where the text is in the end, scaled by the first entry of its matrix.
pub open spec fn reaches_to(item: PageItemView, from: Matrix, to: Matrix) -> bool {
    item matches PageItemView::Shown(s) && s.width == to.e.minus(from.e).times(
        s.matrix.a,
    ).absolute()
}

/// The text of a mark stands at the first glyph that it replaces: wherever the text has
/// been moved to since the mark began, and whether a string or an array shows that
/// glyph. What is shown after it does not move the text any more; it only widens it.
pub proof fn law_text_at_first_glyph(
    v: PageView,
    begin: OperationView,
    mark: MarkView,
    before: Seq<OperationView>,
    replies: Seq<ReplyView>,
    show: OperationView,
    shown: ReplyView,
    after: Seq<OperationView>,
    answers: Seq<ReplyView>,
    end: OperationView,
    nothing: ReplyView,
    settings: Settings,
)
    requires
        begin.operator == "BDC"@,
        mark.actual_text is Some && !is_blank(mark.actual_text->0),
        forall|i: int| 0 <= i < before.len() ==> is_within_mark(#[trigger] before[i]),
        forall|i: int|
            0 <= i < before.len() ==> !shows_glyphs(
                run(
                    stepped(v, begin, ReplyView::Mark(mark), settings),
                    before.take(i),
                    replies,
                    settings,
                ),
                #[trigger] before[i],
                replies[i],
            ),
        shows_glyphs(
            run(
                stepped(v, begin, ReplyView::Mark(mark), settings),
                before,
                replies,
                settings,
            ),
            show,
            shown,
        ),
        forall|i: int| 0 <= i < after.len() ==> is_within_mark(#[trigger] after[i]),
        end.operator == "EMC"@,
    ensures
        ({
            let begun = stepped(v, begin, ReplyView::Mark(mark), settings);
            let at = run(begun, before, replies, settings);
            let last = run(stepped(at, show, shown, settings), after, answers, settings);
            let w = stepped(last, end, nothing, settings);
            &&& w.items.len() == v.items.len() + 1
            &&& w.items.take(v.items.len() as int) == v.items
            &&& stands_by(
                w.items[v.items.len() as int],
                mark.actual_text->0,
                at.text_matrix,
                last.graphics.ctm,
            )
            &&& reaches_to(w.items[v.items.len() as int], at.text_matrix, last.text_matrix)
        }),
{
    lemma_spellings();
    let begun = stepped(v, begin, ReplyView::Mark(mark), settings);
    lemma_glyph_kept(begun, before, replies, settings);
    let at = run(begun, before, replies, settings);
    assert(is_within_mark(show));
    assert(stays_in_mark(show));
    lemma_first_glyph(at, show, shown, settings);
    lemma_suppressed_step(at, show, shown, settings);
    let met = stepped(at, show, shown, settings);
    lemma_glyph_kept(met, after, answers, settings);
    let last = run(met, after, answers, settings);
    let w = stepped(last, end, nothing, settings);
    assert(last.marks.last() == mark);
    assert(w.items.take(v.items.len() as int) =~= v.items);
}

/// Where a mark holds no glyphs, its text stands where the mark began.
pub proof fn law_text_without_glyphs(
    v: PageView,
    begin: OperationView,
    mark: MarkView,
    ops: Seq<OperationView>,
    replies: Seq<ReplyView>,
    end: OperationView,
    nothing: ReplyView,
    settings: Settings,
)
    requires
        begin.operator == "BDC"@,
        mark.actual_text is Some && !is_blank(mark.actual_text->0),
        forall|i: int| 0 <= i < ops.len() ==> is_within_mark(#[trigger] ops[i]),
        forall|i: int|
            0 <= i < ops.len() ==> !shows_glyphs(
                run(
                    stepped(v, begin, ReplyView::Mark(mark), settings),
                    ops.take(i),
                    replies,
                    settings,
                ),
                #[trigger] ops[i],
                replies[i],
            ),
        end.operator == "EMC"@,
    ensures
        ({
            let begun = stepped(v, begin, ReplyView::Mark(mark), settings);
            let last = run(begun, ops, replies, settings);
            let w = stepped(last, end, nothing, settings);
            &&& w.items.len() == v.items.len() + 1
            &&& w.items.take(v.items.len() as int) == v.items
            &&& stands_by(
                w.items[v.items.len() as int],
                mark.actual_text->0,
                v.text_matrix,
                last.graphics.ctm,
            )
            &&& reaches_to(w.items[v.items.len() as int], v.text_matrix, last.text_matrix)
        }),
{
    lemma_spellings();
    let begun = stepped(v, begin, ReplyView::Mark(mark), settings);
    lemma_glyph_kept(begun, ops, replies, settings);
    let last = run(begun, ops, replies, settings);
    let w = stepped(last, end, nothing, settings);
    assert(last.marks.last() == mark);
    assert(w.items.take(v.items.len() as int) =~= v.items);
}

/// The text of a mark has the id of that mark, or of the innermost one around it that
/// has one, and the current font and size.
pub proof fn law_id_of_a_replacing_text(
    v: PageView,
    op: OperationView,
    reply: ReplyView,
    settings: Settings,
)
    requires
        op.operator == "EMC"@,
    ensures
        ({
            let w = stepped(v, op, reply, settings);
            w.items.len() > v.items.len() ==> (w.items.last() matches PageItemView::Shown(s) && {
                &&& is_innermost(s.mcid, v.marks)
                &&& s.font == v.font && s.size == v.font_size
            })
        }),
{
    lemma_spellings();
    lemma_innermost(v.marks);
}

/// `EMC` of a mark with a text: the text stands at the first glyph that it replaces, or
/// else where the mark began, and votes by its direction there, even if it is blank; one
/// that is not blank becomes an item. Without either place there is neither item nor vote.
/// Then there is no place any more, and nothing else changes.
pub proof fn law_replacing_text(
    v: PageView,
    op: OperationView,
    reply: ReplyView,
    settings: Settings,
    m: Matrix,
)
    requires
        op.operator == "EMC"@,
        v.marks.len() > 0,
        v.marks[v.marks.len() - 1].actual_text is Some,
        v.votes.horizontal < u32::MAX,
        v.votes.rotated < u32::MAX,
    ensures
        ({
            let w = stepped(v, op, reply, settings);
            let text = v.marks[v.marks.len() - 1].actual_text->0;
            let n = v.items.len() as int;
            let ctm = v.graphics.ctm;
            let is_place = v.glyph_matrix == Some(m) || (v.glyph_matrix is None && v.start_matrix
                == Some(m));
            &&& v.glyph_matrix is None && v.start_matrix is None ==> w.items == v.items && w.votes
                == v.votes
            &&& is_place ==> has_voted(w.votes, v.votes, is_turned(product(m, ctm)))
            &&& is_place && is_blank(text) ==> w.items == v.items
            &&& is_place && !is_blank(text) ==> {
                &&& w.items.len() == n + 1
                &&& w.items.take(n) == v.items
                &&& stands_by(w.items[n], text, m, ctm)
                &&& reaches_to(w.items[n], m, v.text_matrix)
            }
            &&& w == (PageView {
                marks: w.marks,
                suppressed: w.suppressed,
                start_matrix: None,
                glyph_matrix: None,
                items: w.items,
                votes: w.votes,
                ..v
            })
        }),
{
    lemma_spellings();
    lemma_direction(product(m, v.graphics.ctm));
    let w = stepped(v, op, reply, settings);
    if w.items.len() > v.items.len() {
        assert(w.items.take(v.items.len() as int) =~= v.items);
    }
}

/// `BMC` begins a mark without a text and without an id, whatever its operands are.
pub proof fn law_bmc(v: PageView, op: OperationView, reply: ReplyView, settings: Settings)
    requires
        op.operator == "BMC"@,
    ensures
        ({
            let w = stepped(v, op, reply, settings);
            &&& w.marks.len() == v.marks.len() + 1
            &&& w.marks.take(v.marks.len() as int) == v.marks
            &&& w.marks[v.marks.len() as int].actual_text is None
            &&& w.marks[v.marks.len() as int].mcid is None
            &&& w == (PageView { marks: w.marks, ..v })
        }),
{
    lemma_spellings();
    let w = stepped(v, op, reply, settings);
    assert(w.marks.take(v.marks.len() as int) =~= v.marks);
}

/// Whether text under a matrix is turned: its direction reaches less far along the page
/// than up or down it.
pub open spec fn is_turned(m: Matrix) -> bool {
    m.a.is_nan() || m.b.is_nan() || m.a.abs_units() < m.b.abs_units()
}

/// Whether votes are others with one more, for turned text or for text that is not.
pub open spec fn has_voted(votes: RotationVotes, before: RotationVotes, turned: bool) -> bool {
    if turned {
        votes.rotated == before.rotated + 1 && votes.horizontal == before.horizontal
    } else {
        votes.horizontal == before.horizontal + 1 && votes.rotated == before.rotated
    }
}

proof fn lemma_direction(m: Matrix)
    ensures
        m.runs_horizontally() == !is_turned(m),
{
    reveal(Single::at_least);
    assert(m.a.absolute().mag() == m.a.mag());
    assert(m.b.absolute().mag() == m.b.mag());
}

/// Every operation that shows text votes once, by the direction of the text that it
/// adds: a string, an array, a string on the next line, and the text of a mark alike.
pub proof fn law_shown_text_votes(
    v: PageView,
    op: OperationView,
    reply: ReplyView,
    settings: Settings,
)
    requires
        op.operator == "Tj"@ || op.operator == "TJ"@ || op.operator == "'"@ || op.operator
            == "EMC"@,
        v.votes.horizontal < u32::MAX,
        v.votes.rotated < u32::MAX,
        stepped(v, op, reply, settings).items.len() > v.items.len(),
    ensures
        ({
            let w = stepped(v, op, reply, settings);
            forall|k: int|
                v.items.len() <= k < w.items.len() ==> (#[trigger] w.items[k] matches PageItemView::Shown(
                    s,
                ) && has_voted(w.votes, v.votes, is_turned(s.matrix)))
        }),
{
    lemma_spellings();
    let w = stepped(v, op, reply, settings);
    assert forall|k: int| v.items.len() <= k < w.items.len() implies (
    #[trigger] w.items[k] matches PageItemView::Shown(s) && has_voted(
        w.votes,
        v.votes,
        is_turned(s.matrix),
    )) by {
        assert(w.items[k] is Shown);
        lemma_direction(w.items[k]->Shown_0.matrix);
    }
}

/// A visible string votes even where it is blank; an array, or a string on the next line, of
/// which nothing is shown does not; and no other operator votes.
pub proof fn law_who_votes(
    v: PageView,
    op: OperationView,
    reply: ReplyView,
    settings: Settings,
)
    requires
        v.votes.horizontal < u32::MAX,
        v.votes.rotated < u32::MAX,
    ensures
        op.operator != "Tj"@ && op.operator != "TJ"@ && op.operator != "'"@ && op.operator
            != "EMC"@ ==> stepped(v, op, reply, settings).votes == v.votes,
        (op.operator == "TJ"@ || op.operator == "'"@) && stepped(v, op, reply, settings).items.len()
            == v.items.len() ==> stepped(v, op, reply, settings).votes == v.votes,
        is_spelled(op, "Tj"@, 1) && v.in_text_block && is_visible(v, settings)
            && (reply matches ReplyView::Show { elements, .. } && elements[0].text is Some)
            ==> has_voted(
            stepped(v, op, reply, settings).votes,
            v.votes,
            is_turned(product(v.text_matrix, v.graphics.ctm)),
        ),
{
    lemma_spellings();
    lemma_direction(product(v.text_matrix, v.graphics.ctm));
}

/// A page with two items or more is turned upright where there are at least twice as
/// many votes for turned text as for other text, and at least one; and else it is left
/// as it is.
pub proof fn law_turned_pages(
    items: Seq<TextItemView>,
    rects: Seq<PdfRect>,
    lines: Seq<PdfLine>,
    votes: RotationVotes,
    new_items: Seq<TextItemView>,
    new_rects: Seq<PdfRect>,
    new_lines: Seq<PdfLine>,
    rotated: bool,
)
    requires
        is_corrected(items, rects, lines, votes, new_items, new_rects, new_lines, rotated),
    ensures
        rotated <==> items.len() >= 2 && votes.rotated >= 1 && votes.rotated >= 2
            * votes.horizontal,
        new_items.len() == items.len() && new_rects.len() == rects.len() && new_lines.len()
            == lines.len(),
        !rotated ==> new_items == items && new_rects == rects && new_lines == lines,
        rotated ==> forall|i: int|
            0 <= i < items.len() ==> {
                &&& (#[trigger] new_items[i]).x == items[i].y
                &&& new_items[i].y == items[i].x.negated()
                &&& new_items[i].text == items[i].text && new_items[i].height == items[i].height
                &&& new_items[i].font == items[i].font && new_items[i].font_size
                    == items[i].font_size
                &&& new_items[i].page == items[i].page && new_items[i].mcid == items[i].mcid
                &&& new_items[i].is_bold == items[i].is_bold && new_items[i].is_italic
                    == items[i].is_italic && new_items[i].item_type == items[i].item_type
            },
        rotated ==> forall|i: int|
            0 <= i < lines.len() ==> {
                &&& (#[trigger] new_lines[i]).x1 == lines[i].y1 && new_lines[i].y1
                    == lines[i].x1.negated()
                &&& new_lines[i].x2 == lines[i].y2 && new_lines[i].y2 == lines[i].x2.negated()
                &&& new_lines[i].page == lines[i].page
            },
        rotated ==> forall|i: int|
            0 <= i < rects.len() ==> {
                &&& (#[trigger] new_rects[i]).x == rects[i].y
                &&& new_rects[i].y == rects[i].x.plus(rects[i].width.absolute()).negated()
                &&& new_rects[i].width == rects[i].height && new_rects[i].height == rects[i].width
                &&& new_rects[i].page == rects[i].page
            },
{
}

/// A width that is missing, or below half a point, is estimated on a turned page, as half
/// the font size for each character; any other is kept.
pub proof fn law_turned_widths(item: TextItemView)
    ensures
        ({
            let half = Single { bits: 0x3f00_0000 };
            let chars = crate::single::single_of_int(item.text.len() as int);
            &&& item.width.less_than(half) ==> turned_item(item).width == chars.times(
                item.font_size,
            ).times(half)
            &&& !item.width.less_than(half) ==> turned_item(item).width == item.width
        }),
{
}

/// Whether all texts that are shown among some items are turned.
pub open spec fn all_turned(items: Seq<PageItemView>) -> bool {
    forall|i: int|
        0 <= i < items.len() ==> ((#[trigger] items[i]) matches PageItemView::Shown(s) ==> is_turned(
            s.matrix,
        ))
}

pub open spec fn some_shown(items: Seq<PageItemView>) -> bool {
    exists|i: int| 0 <= i < items.len() && (#[trigger] items[i]) is Shown
}

/// Whether an operation votes only for a text that it adds.
pub open spec fn votes_for_items(
    v: PageView,
    op: OperationView,
    reply: ReplyView,
    settings: Settings,
) -> bool {
    let w = stepped(v, op, reply, settings);
    w.votes != v.votes ==> w.items.len() > v.items.len()
}

proof fn lemma_turned_step(v: PageView, op: OperationView, reply: ReplyView, settings: Settings)
    requires
        v.votes.horizontal == 0,
        v.votes.rotated < u32::MAX,
        some_shown(v.items) ==> v.votes.rotated >= 1,
        votes_for_items(v, op, reply, settings),
        all_turned(stepped(v, op, reply, settings).items),
    ensures
        ({
            let w = stepped(v, op, reply, settings);
            &&& w.votes.horizontal == 0
            &&& v.votes.rotated <= w.votes.rotated <= v.votes.rotated + 1
            &&& some_shown(w.items) ==> w.votes.rotated >= 1
            &&& all_turned(v.items)
        }),
{
    let w = stepped(v, op, reply, settings);
    law_nothing_vanishes(v, op, reply, settings);
    assert forall|i: int| 0 <= i < v.items.len() implies ((
    #[trigger] v.items[i]) matches PageItemView::Shown(s) ==> is_turned(s.matrix)) by {
        assert(v.items[i] == w.items[i]);
    }
    let shows = op.operator == "Tj"@ || op.operator == "TJ"@ || op.operator == "'"@ || op.operator
        == "EMC"@;
    if shows && w.items.len() > v.items.len() {
        law_shown_text_votes(v, op, reply, settings);
        let k = v.items.len() as int;
        assert(w.items[k] is Shown);
        assert(is_turned(w.items[k]->Shown_0.matrix));
    } else {
        law_who_votes(v, op, reply, settings);
        lemma_only_ready(v, op, reply, settings);
        if some_shown(w.items) {
            let i = choose|i: int| 0 <= i < w.items.len() && (#[trigger] w.items[i]) is Shown;
            assert(i < v.items.len());
            assert(v.items[i] == w.items[i]);
        }
    }
}

proof fn lemma_only_ready(v: PageView, op: OperationView, reply: ReplyView, settings: Settings)
    requires
        op.operator != "Tj"@ && op.operator != "TJ"@ && op.operator != "'"@ && op.operator
            != "EMC"@ || stepped(v, op, reply, settings).items.len() <= v.items.len(),
    ensures
        ({
            let w = stepped(v, op, reply, settings);
            forall|i: int| v.items.len() <= i < w.items.len() ==> (#[trigger] w.items[i]) is Ready
        }),
{
    lemma_spellings();
}

proof fn lemma_turned_run(
    ops: Seq<OperationView>,
    replies: Seq<ReplyView>,
    settings: Settings,
    n: int,
)
    requires
        0 <= n <= ops.len() <= 1_000_000,
        forall|i: int|
            0 <= i < ops.len() ==> votes_for_items(
                run(initial_page(), ops.take(i), replies, settings),
                #[trigger] ops[i],
                replies[i],
                settings,
            ),
        all_turned(run(initial_page(), ops.take(n), replies, settings).items),
    ensures
        ({
            let w = run(initial_page(), ops.take(n), replies, settings);
            &&& w.votes.horizontal == 0
            &&& w.votes.rotated <= n
            &&& some_shown(w.items) ==> w.votes.rotated >= 1
        }),
    decreases n,
{
    if n > 0 {
        let some = ops.take(n);
        let front = ops.take(n - 1);
        assert(some.drop_last() =~= front);
        assert(some[n - 1] == ops[n - 1]);
        let v = run(initial_page(), front, replies, settings);
        assert(votes_for_items(v, ops[n - 1], replies[n - 1], settings));
        assert(run(initial_page(), some, replies, settings) == stepped(
            v,
            ops[n - 1],
            replies[n - 1],
            settings,
        ));
        law_nothing_vanishes(v, ops[n - 1], replies[n - 1], settings);
        let w = stepped(v, ops[n - 1], replies[n - 1], settings);
        assert forall|i: int| 0 <= i < v.items.len() implies ((
        #[trigger] v.items[i]) matches PageItemView::Shown(s) ==> is_turned(s.matrix)) by {
            assert(v.items[i] == w.items[i]);
        }
        lemma_turned_run(ops, replies, settings, n - 1);
        lemma_turned_step(v, ops[n - 1], replies[n - 1], settings);
    } else {
        assert(ops.take(0).len() == 0);
    }
}

/// A page all of whose shown texts are turned, with two items or more, is turned upright,
/// whatever operators show them; blank texts, which vote without becoming items, aside.
pub proof fn law_turned_texts_turn_the_page(
    ops: Seq<OperationView>,
    replies: Seq<ReplyView>,
    settings: Settings,
    items: Seq<TextItemView>,
    rects: Seq<PdfRect>,
    lines: Seq<PdfLine>,
    new_items: Seq<TextItemView>,
    new_rects: Seq<PdfRect>,
    new_lines: Seq<PdfLine>,
    rotated: bool,
)
    requires
        ops.len() <= 1_000_000,
        forall|i: int|
            0 <= i < ops.len() ==> votes_for_items(
                run(initial_page(), ops.take(i), replies, settings),
                #[trigger] ops[i],
                replies[i],
                settings,
            ),
        all_turned(run(initial_page(), ops, replies, settings).items),
        some_shown(run(initial_page(), ops, replies, settings).items),
        items.len() == run(initial_page(), ops, replies, settings).items.len(),
        items.len() >= 2,
        is_corrected(
            items,
            rects,
            lines,
            run(initial_page(), ops, replies, settings).votes,
            new_items,
            new_rects,
            new_lines,
            rotated,
        ),
    ensures
        rotated,
{
    assert(ops.take(ops.len() as int) =~= ops);
    lemma_turned_run(ops, replies, settings, ops.len() as int);
    law_turned_pages(
        items,
        rects,
        lines,
        run(initial_page(), ops, replies, settings).votes,
        new_items,
        new_rects,
        new_lines,
        rotated,
    );
}

} // verus!
