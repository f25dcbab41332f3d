//! Laws of the walk over a page.

use crate::geometry::{ItemType, Matrix, PdfRect, TextItemView};
use crate::object::{number, ObjectView, OperationView};
use crate::operators::{operator, Operator};
use crate::page::{
    initial_page, stepped, PageItemView, PageView, ReplyView, Settings,
};
use crate::paths::{apart, far, with_fills, PathsView, Point, Segment};
use crate::shows::{laid_out, ElementReplyView, Layout};
use crate::single::{scale, significand, Single, HUNDREDTH, NAN};
use crate::texts::{decimal, is_blank};
use vstd::arithmetic::power2::{lemma_pow2_pos, pow2};
use vstd::prelude::*;

verus! {

/// The state of a page after some operations, each with its reply.
pub open spec fn run(
    v: PageView,
    ops: Seq<OperationView>,
    replies: Seq<ReplyView>,
    settings: Settings,
) -> PageView
    decreases ops.len(),
{
    if ops.len() == 0 {
        v
    } else {
        let n = ops.len() - 1;
        stepped(run(v, ops.drop_last(), replies, settings), ops[n], replies[n], settings)
    }
}

/// An operation adds at most one vote.
pub proof fn law_one_vote_at_most(
    v: PageView,
    op: OperationView,
    reply: ReplyView,
    settings: Settings,
)
    requires
        v.votes.horizontal < u32::MAX,
        v.votes.rotated < u32::MAX,
    ensures
        ({
            let after = stepped(v, op, reply, settings).votes;
            after.horizontal + after.rotated <= v.votes.horizontal + v.votes.rotated + 1
        }),
{
}

/// How deep the saved states are after some operations, counted from `depth`;
/// `None` where one is restored that was saved before them.
pub open spec fn depth_after(ops: Seq<OperationView>, depth: nat) -> Option<nat>
    decreases ops.len(),
{
    if ops.len() == 0 {
        Some(depth)
    } else {
        match depth_after(ops.drop_last(), depth) {
            None => None,
            Some(d) => match operator(ops.last().operator) {
                Operator::Save => Some(d + 1),
                Operator::Restore => if d == 0 {
                    None
                } else {
                    Some((d - 1) as nat)
                },
                _ => Some(d),
            },
        }
    }
}

proof fn lemma_saved_below(
    v: PageView,
    ops: Seq<OperationView>,
    replies: Seq<ReplyView>,
    settings: Settings,
)
    requires
        depth_after(ops, 0) is Some,
    ensures
        run(v, ops, replies, settings).saved.len() == v.saved.len() + depth_after(ops, 0)->0,
        v.saved.is_prefix_of(run(v, ops, replies, settings).saved),
    decreases ops.len(),
{
    if ops.len() > 0 {
        let front = ops.drop_last();
        lemma_saved_below(v, front, replies, settings);
        let mid = run(v, front, replies, settings);
        let n = ops.len() - 1;
        let after = stepped(mid, ops[n], replies[n], settings);
        assert(v.saved =~= after.saved.take(v.saved.len() as int)) by {
            assert(v.saved =~= mid.saved.take(v.saved.len() as int));
        }
    }
}

/// Saving the graphics state, any operations that restore no more than they save,
/// and restoring it give back the matrix, the rendering mode and the spacings, and
/// the states that were saved before.
pub proof fn law_save_restore(
    v: PageView,
    save: OperationView,
    ops: Seq<OperationView>,
    replies: Seq<ReplyView>,
    restore: OperationView,
    nothing: ReplyView,
    settings: Settings,
)
    requires
        operator(save.operator) == Operator::Save,
        operator(restore.operator) == Operator::Restore,
        depth_after(ops, 0) == Some(0nat),
    ensures
        ({
            let saved = stepped(v, save, nothing, settings);
            let after = stepped(run(saved, ops, replies, settings), restore, nothing, settings);
            after.graphics == v.graphics && after.saved == v.saved
        }),
{
    let saved = stepped(v, save, nothing, settings);
    lemma_saved_below(saved, ops, replies, settings);
    let end = run(saved, ops, replies, settings);
    assert(end.saved =~= saved.saved);
    assert(end.saved.drop_last() =~= v.saved);
}

/// Whether what is on one page is on the other too, first and in the same order.
pub open spec fn kept(v: PageView, w: PageView) -> bool {
    &&& v.items.is_prefix_of(w.items)
    &&& v.images.is_prefix_of(w.images)
    &&& v.paths.rects.is_prefix_of(w.paths.rects)
    &&& v.paths.clip_rects.is_prefix_of(w.paths.clip_rects)
    &&& v.paths.fill_rects.is_prefix_of(w.paths.fill_rects)
    &&& v.paths.lines.is_prefix_of(w.paths.lines)
}

proof fn lemma_kept_trans(u: PageView, v: PageView, w: PageView)
    requires
        kept(u, v),
        kept(v, w),
    ensures
        kept(u, w),
{
    assert(u.items =~= w.items.take(u.items.len() as int)) by {
        assert(u.items =~= v.items.take(u.items.len() as int));
        assert(v.items =~= w.items.take(v.items.len() as int));
    }
    assert(u.images =~= w.images.take(u.images.len() as int)) by {
        assert(u.images =~= v.images.take(u.images.len() as int));
        assert(v.images =~= w.images.take(v.images.len() as int));
    }
    assert(u.paths.rects =~= w.paths.rects.take(u.paths.rects.len() as int)) by {
        assert(u.paths.rects =~= v.paths.rects.take(u.paths.rects.len() as int));
        assert(v.paths.rects =~= w.paths.rects.take(v.paths.rects.len() as int));
    }
    assert(u.paths.clip_rects =~= w.paths.clip_rects.take(u.paths.clip_rects.len() as int)) by {
        assert(u.paths.clip_rects =~= v.paths.clip_rects.take(u.paths.clip_rects.len() as int));
        assert(v.paths.clip_rects =~= w.paths.clip_rects.take(v.paths.clip_rects.len() as int));
    }
    assert(u.paths.fill_rects =~= w.paths.fill_rects.take(u.paths.fill_rects.len() as int)) by {
        assert(u.paths.fill_rects =~= v.paths.fill_rects.take(u.paths.fill_rects.len() as int));
        assert(v.paths.fill_rects =~= w.paths.fill_rects.take(v.paths.fill_rects.len() as int));
    }
    assert(u.paths.lines =~= w.paths.lines.take(u.paths.lines.len() as int)) by {
        assert(u.paths.lines =~= v.paths.lines.take(u.paths.lines.len() as int));
        assert(v.paths.lines =~= w.paths.lines.take(v.paths.lines.len() as int));
    }
}

proof fn lemma_fills_kept(
    rects: Seq<PdfRect>,
    subpaths: Seq<Seq<Segment>>,
    ctm: Matrix,
    page: u32,
)
    ensures
        rects.is_prefix_of(with_fills(rects, subpaths, ctm, page)),
    decreases subpaths.len(),
{
    if subpaths.len() > 0 {
        lemma_fills_kept(rects, subpaths.drop_last(), ctm, page);
        let before = with_fills(rects, subpaths.drop_last(), ctm, page);
        let after = with_fills(rects, subpaths, ctm, page);
        assert(rects =~= before.take(rects.len() as int));
        assert(rects =~= after.take(rects.len() as int));
    }
}

proof fn lemma_prefix<T>(a: Seq<T>, b: Seq<T>, rest: Seq<T>)
    requires
        b =~= a + rest,
    ensures
        a.is_prefix_of(b),
{
    assert(a =~= b.subrange(0, a.len() as int));
}

proof fn lemma_items_kept(v: PageView, op: OperationView, reply: ReplyView, settings: Settings)
    ensures
        v.items.is_prefix_of(stepped(v, op, reply, settings).items),
{
    let w = stepped(v, op, reply, settings);
    let rest = w.items.skip(v.items.len() as int);
    match operator(op.operator) {
        Operator::ShowArray => {
            assert(v.items + rest =~= w.items);
        },
        Operator::Invoke => {
            assert(v.items + rest =~= w.items);
        },
        Operator::Show => {
            assert(v.items + rest =~= w.items);
        },
        Operator::NextLineShow => {
            assert(v.items + rest =~= w.items);
        },
        Operator::EndMark => {
            assert(v.items + rest =~= w.items);
        },
        _ => {
            assert(w.items == v.items);
            assert(v.items + rest =~= w.items);
        },
    }
    lemma_prefix(v.items, w.items, rest);
}

proof fn lemma_images_kept(v: PageView, op: OperationView, reply: ReplyView, settings: Settings)
    ensures
        v.images.is_prefix_of(stepped(v, op, reply, settings).images),
        !(reply is Image) ==> stepped(v, op, reply, settings).images == v.images,
{
    let w = stepped(v, op, reply, settings);
    let rest = w.images.skip(v.images.len() as int);
    if operator(op.operator) == Operator::Invoke {
        assert(v.images + rest =~= w.images);
    } else {
        assert(w.images == v.images);
        assert(v.images + rest =~= w.images);
    }
    lemma_prefix(v.images, w.images, rest);
}

/// Whether paths leave on the page what was there.
spec fn paths_kept(p: PathsView, q: PathsView) -> bool {
    &&& p.rects.is_prefix_of(q.rects)
    &&& p.clip_rects.is_prefix_of(q.clip_rects)
    &&& p.fill_rects.is_prefix_of(q.fill_rects)
    &&& p.lines.is_prefix_of(q.lines)
}

proof fn lemma_paths_stay(p: PathsView)
    ensures
        paths_kept(p, p),
{
    lemma_prefix(p.rects, p.rects, p.rects.take(0));
    lemma_prefix(p.clip_rects, p.clip_rects, p.clip_rects.take(0));
    lemma_prefix(p.fill_rects, p.fill_rects, p.fill_rects.take(0));
    lemma_prefix(p.lines, p.lines, p.lines.take(0));
}

proof fn lemma_paths_kept(v: PageView, op: OperationView, reply: ReplyView, settings: Settings)
    ensures
        paths_kept(v.paths, stepped(v, op, reply, settings).paths),
{
    let p = v.paths;
    let q = stepped(v, op, reply, settings).paths;
    lemma_paths_stay(p);
    match operator(op.operator) {
        Operator::Rectangle => {
            lemma_prefix(p.rects, q.rects, q.rects.skip(p.rects.len() as int));
        },
        Operator::Stroke { close } => {
            lemma_prefix(p.lines, q.lines, q.lines.skip(p.lines.len() as int));
        },
        Operator::Fill => {
            let subpaths = if p.pending_lines.len() > 0 {
                p.pending_subpaths.push(p.pending_lines)
            } else {
                p.pending_subpaths
            };
            lemma_fills_kept(p.fill_rects, subpaths, v.graphics.ctm, settings.page);
        },
        Operator::Clip => {
            lemma_prefix(p.clip_rects, q.clip_rects, q.clip_rects.skip(p.clip_rects.len() as int));
        },
        _ => {},
    }
}

/// No operation takes anything back that is on the page.
pub proof fn law_nothing_vanishes(
    v: PageView,
    op: OperationView,
    reply: ReplyView,
    settings: Settings,
)
    ensures
        kept(v, stepped(v, op, reply, settings)),
{
    lemma_items_kept(v, op, reply, settings);
    lemma_images_kept(v, op, reply, settings);
    lemma_paths_kept(v, op, reply, settings);
}

/// Nor do any operations together.
pub proof fn law_nothing_vanishes_in_runs(
    v: PageView,
    ops: Seq<OperationView>,
    replies: Seq<ReplyView>,
    settings: Settings,
)
    ensures
        kept(v, run(v, ops, replies, settings)),
    decreases ops.len(),
{
    if ops.len() > 0 {
        let n = ops.len() - 1;
        law_nothing_vanishes_in_runs(v, ops.drop_last(), replies, settings);
        let mid = run(v, ops.drop_last(), replies, settings);
        law_nothing_vanishes(mid, ops[n], replies[n], settings);
        lemma_kept_trans(v, mid, run(v, ops, replies, settings));
    } else {
        assert(v.items =~= v.items.take(v.items.len() as int));
        assert(v.images =~= v.images.take(v.images.len() as int));
        assert(v.paths.rects =~= v.paths.rects.take(v.paths.rects.len() as int));
        assert(v.paths.clip_rects =~= v.paths.clip_rects.take(v.paths.clip_rects.len() as int));
        assert(v.paths.fill_rects =~= v.paths.fill_rects.take(v.paths.fill_rects.len() as int));
        assert(v.paths.lines =~= v.paths.lines.take(v.paths.lines.len() as int));
    }
}

/// Whether a reply tells the text of a shown string; for an array it need not.
pub open spec fn text_known(op: OperationView, reply: ReplyView) -> bool {
    match reply {
        ReplyView::Show { elements, .. } => operator(op.operator) == Operator::ShowArray
            || elements[0].text is Some,
        _ => false,
    }
}

/// Hidden text, and text that a mark replaces, adds no item and no vote. It moves
/// the text on as far as it would if it were drawn.
pub proof fn law_hidden_text_moves_on(
    v: PageView,
    op: OperationView,
    reply: ReplyView,
    settings: Settings,
)
    requires
        v.hidden(settings) || v.suppressed,
        operator(op.operator) == Operator::Show || operator(op.operator) == Operator::ShowArray,
    ensures
        ({
            let w = stepped(v, op, reply, settings);
            let drawn = PageView { suppressed: false, ..v.with_mode(0) };
            &&& w.items == v.items
            &&& w.votes == v.votes
            &&& text_known(op, reply) ==> w.text_matrix == stepped(
                drawn,
                op,
                reply,
                settings,
            ).text_matrix
        }),
{
    let w = stepped(v, op, reply, settings);
    if operator(op.operator) == Operator::ShowArray {
        if let ReplyView::Show { metrics, elements } = reply {
            if v.in_text_block && op.operands.len() > 0 && op.operands[0] is Array {
                let array = op.operands[0]->Array_0;
                let layout = v.layout(metrics, settings);
                lemma_hidden_line(array, elements, layout);
                lemma_same_total(array, elements, layout, Layout { visible: true, ..layout });
                assert(w.items =~= v.items);
            }
        }
    }
}

/// Of text that is not wanted there are no pieces.
pub proof fn lemma_hidden_line(
    elements: Seq<ObjectView>,
    replies: Seq<ElementReplyView>,
    layout: Layout,
)
    requires
        !layout.visible,
    ensures
        laid_out(elements, replies, layout).pieces.len() == 0,
    decreases elements.len(),
{
    if elements.len() > 0 {
        lemma_hidden_line(elements.drop_last(), replies, layout);
    }
}

proof fn lemma_same_total(
    elements: Seq<ObjectView>,
    replies: Seq<ElementReplyView>,
    a: Layout,
    b: Layout,
)
    requires
        a.size == b.size,
    ensures
        laid_out(elements, replies, a).total == laid_out(elements, replies, b).total,
    decreases elements.len(),
{
    if elements.len() > 0 {
        lemma_same_total(elements.drop_last(), replies, a, b);
    }
}

/// The texts of the replies to `elements`, one after the other; those to numbers are
/// left out.
pub open spec fn joined_texts(
    elements: Seq<ObjectView>,
    replies: Seq<ElementReplyView>,
) -> Seq<char>
    decreases elements.len(),
{
    if elements.len() == 0 {
        Seq::empty()
    } else {
        let before = joined_texts(elements.drop_last(), replies);
        match (number(elements.last()), replies[elements.len() - 1].text) {
            (None, Some(t)) => before + t,
            _ => before,
        }
    }
}

/// An array whose displacements are all narrower than a space is one piece: the
/// texts of its strings, joined.
pub proof fn law_narrow_gaps_join(
    elements: Seq<ObjectView>,
    replies: Seq<ElementReplyView>,
    layout: Layout,
)
    requires
        layout.visible,
        forall|i: int|
            0 <= i < elements.len() ==> (number(#[trigger] elements[i]) matches Some(n)
                ==> !n.less_than(layout.space.negated()) && !n.less_than(layout.column().negated())),
    ensures
        laid_out(elements, replies, layout).pieces.len() == 0,
        laid_out(elements, replies, layout).text == joined_texts(elements, replies),
    decreases elements.len(),
{
    if elements.len() > 0 {
        let front = elements.drop_last();
        assert forall|i: int| 0 <= i < front.len() implies (number(#[trigger] front[i]) matches Some(
            n,
        ) ==> !n.less_than(layout.space.negated()) && !n.less_than(layout.column().negated())) by {
            assert(front[i] == elements[i]);
        }
        law_narrow_gaps_join(front, replies, layout);
        assert(elements.last() == elements[elements.len() - 1]);
    }
}

/// Whether an item marks the place of an image.
pub open spec fn marks_image(item: PageItemView) -> bool {
    item matches PageItemView::Ready(t) && t.item_type == ItemType::Image
}

/// The items that mark the places of images, in their order.
pub open spec fn image_items(items: Seq<PageItemView>) -> Seq<TextItemView>
    decreases items.len(),
{
    if items.len() == 0 {
        Seq::empty()
    } else if marks_image(items.last()) {
        image_items(items.drop_last()).push(items.last()->Ready_0)
    } else {
        image_items(items.drop_last())
    }
}

/// Whether the items that mark images are numbered as the images are.
pub open spec fn images_numbered(v: PageView) -> bool {
    &&& image_items(v.items).len() == v.images.len()
    &&& forall|k: int|
        0 <= k < v.images.len() ==> (#[trigger] image_items(v.items)[k]).text == decimal(k as nat)
}

/// Whether a form brings no items that mark images.
pub open spec fn brings_no_images(reply: ReplyView) -> bool {
    reply matches ReplyView::Form(items) ==> forall|i: int|
        0 <= i < items.len() ==> (#[trigger] items[i]).item_type != ItemType::Image
}

/// Items that mark no images add none.
proof fn lemma_no_image_items(items: Seq<PageItemView>, more: Seq<PageItemView>)
    requires
        forall|i: int| 0 <= i < more.len() ==> !marks_image(#[trigger] more[i]),
    ensures
        image_items(items + more) == image_items(items),
    decreases more.len(),
{
    let all = items + more;
    if more.len() > 0 {
        lemma_no_image_items(items, more.drop_last());
        assert(all.drop_last() =~= items + more.drop_last());
        assert(all.last() == more[more.len() - 1]);
    } else {
        assert(all =~= items);
    }
}

proof fn lemma_numbered_step(
    v: PageView,
    op: OperationView,
    reply: ReplyView,
    settings: Settings,
)
    requires
        images_numbered(v),
        brings_no_images(reply),
    ensures
        images_numbered(stepped(v, op, reply, settings)),
{
    let w = stepped(v, op, reply, settings);
    if operator(op.operator) == Operator::Invoke && reply is Image {
        let item = w.items.last();
        assert(w.items.drop_last() =~= v.items);
        assert(marks_image(item));
        assert(image_items(w.items) == image_items(v.items).push(item->Ready_0));
    } else {
        lemma_items_kept(v, op, reply, settings);
        lemma_images_kept(v, op, reply, settings);
        let more = w.items.skip(v.items.len() as int);
        assert(v.items + more =~= w.items);
        assert(w.images == v.images);
        lemma_added_items(v, op, reply, settings);
        lemma_no_image_items(v.items, more);
    }
}

/// No operation but the drawing of an image or a form adds items that mark images.
proof fn lemma_added_items(v: PageView, op: OperationView, reply: ReplyView, settings: Settings)
    requires
        brings_no_images(reply),
        !(operator(op.operator) == Operator::Invoke && reply is Image),
    ensures
        forall|i: int|
            v.items.len() <= i < stepped(v, op, reply, settings).items.len() ==> !marks_image(
                #[trigger] stepped(v, op, reply, settings).items[i],
            ),
        stepped(v, op, reply, settings).images == v.images,
{
    lemma_images_kept(v, op, reply, settings);
    let w = stepped(v, op, reply, settings);
    assert forall|i: int| v.items.len() <= i < w.items.len() implies !marks_image(
        #[trigger] w.items[i],
    ) by {
        match operator(op.operator) {
            Operator::Invoke => {
                if let ReplyView::Form(items) = reply {
                    assert(w.items[i] == PageItemView::Ready(items[i - v.items.len()]));
                }
            },
            Operator::Show => {},
            Operator::ShowArray => {},
            Operator::NextLineShow => {},
            Operator::EndMark => {},
            _ => {
                assert(w.items == v.items);
            },
        }
    }
}

/// The items that mark images carry their indices: the first one 0, the next one 1,
/// and so on, one for each image, as long as no form brings such items itself.
pub proof fn law_images_numbered(
    ops: Seq<OperationView>,
    replies: Seq<ReplyView>,
    settings: Settings,
)
    requires
        replies.len() >= ops.len(),
        forall|i: int| 0 <= i < replies.len() ==> brings_no_images(#[trigger] replies[i]),
    ensures
        images_numbered(run(initial_page(), ops, replies, settings)),
    decreases ops.len(),
{
    if ops.len() > 0 {
        let n = ops.len() - 1;
        law_images_numbered(ops.drop_last(), replies, settings);
        let mid = run(initial_page(), ops.drop_last(), replies, settings);
        assert(brings_no_images(replies[n]));
        lemma_numbered_step(mid, ops[n], replies[n], settings);
    } else {
        assert(image_items(initial_page().items).len() == 0);
    }
}

/// Whether an operator neither draws external objects nor begins or ends marks.
pub open spec fn stays_in_mark(op: OperationView) -> bool {
    match operator(op.operator) {
        Operator::Invoke => false,
        Operator::BeginMark => false,
        Operator::BeginMarkWith => false,
        Operator::EndMark => false,
        _ => true,
    }
}

/// Where glyphs are replaced, an operation adds no item and no vote.
pub proof fn lemma_suppressed_step(
    v: PageView,
    op: OperationView,
    reply: ReplyView,
    settings: Settings,
)
    requires
        v.suppressed,
        stays_in_mark(op),
    ensures
        ({
            let w = stepped(v, op, reply, settings);
            w.items == v.items && w.marks == v.marks && w.suppressed && w.start_matrix
                == v.start_matrix && w.votes == v.votes
        }),
{
    let w = stepped(v, op, reply, settings);
    match operator(op.operator) {
        Operator::ShowArray => {
            if let ReplyView::Show { metrics, elements } = reply {
                if v.in_text_block && op.operands.len() > 0 && op.operands[0] is Array {
                    lemma_hidden_line(
                        op.operands[0]->Array_0,
                        elements,
                        v.layout(metrics, settings),
                    );
                    assert(w.items =~= v.items);
                }
            }
        },
        _ => {},
    }
}

/// Nor do several.
pub proof fn lemma_suppressed_run(
    v: PageView,
    ops: Seq<OperationView>,
    replies: Seq<ReplyView>,
    settings: Settings,
)
    requires
        v.suppressed,
        forall|i: int| 0 <= i < ops.len() ==> stays_in_mark(#[trigger] ops[i]),
    ensures
        ({
            let w = run(v, ops, replies, settings);
            w.items == v.items && w.marks == v.marks && w.suppressed && w.start_matrix
                == v.start_matrix && w.votes == v.votes
        }),
    decreases ops.len(),
{
    if ops.len() > 0 {
        let front = ops.drop_last();
        assert forall|i: int| 0 <= i < front.len() implies stays_in_mark(#[trigger] front[i]) by {
            assert(front[i] == ops[i]);
        }
        lemma_suppressed_run(v, front, replies, settings);
        let n = ops.len() - 1;
        lemma_suppressed_step(run(v, front, replies, settings), ops[n], replies[n], settings);
    }
}

/// The text of a mark takes the place of the glyphs in it: whatever is shown
/// between its begin and its end, the page gets one item, with that text, or none
/// where it is blank.
pub proof fn law_actual_text_replaces(
    v: PageView,
    begin: OperationView,
    properties: ReplyView,
    ops: Seq<OperationView>,
    replies: Seq<ReplyView>,
    end: OperationView,
    nothing: ReplyView,
    settings: Settings,
)
    requires
        operator(begin.operator) == Operator::BeginMarkWith,
        properties matches ReplyView::Mark(mark) && mark.actual_text is Some,
        forall|i: int| 0 <= i < ops.len() ==> stays_in_mark(#[trigger] ops[i]),
        operator(end.operator) == Operator::EndMark,
    ensures
        ({
            let text = properties->Mark_0.actual_text->0;
            let begun = stepped(v, begin, properties, settings);
            let after = stepped(run(begun, ops, replies, settings), end, nothing, settings);
            &&& after.marks == v.marks
            &&& is_blank(text) ==> after.items == v.items
            &&& !is_blank(text) ==> {
                &&& after.items.len() == v.items.len() + 1
                &&& after.items.drop_last() == v.items
                &&& after.items.last() matches PageItemView::Shown(s) && s.text == text
            }
        }),
{
    let begun = stepped(v, begin, properties, settings);
    lemma_suppressed_run(begun, ops, replies, settings);
    let w = run(begun, ops, replies, settings);
    let after = stepped(w, end, nothing, settings);
    assert(w.marks.last() == properties->Mark_0);
    assert(w.marks.drop_last() =~= v.marks);
    assert(after.items.drop_last() =~= v.items || is_blank(properties->Mark_0.actual_text->0));
}

/// Closing a path that is closed changes nothing.
pub proof fn law_close_twice(p: PathsView)
    ensures
        p.closed_path().closed_path() == p.closed_path(),
{
    let q = p.closed_path();
    assert(q.closed_lines() =~= q.pending_lines) by {
        if q.current is Some && q.start is Some {
            lemma_not_apart(q.start->0);
        }
    }
    assert(q.closed_path() =~= q);
}

proof fn lemma_not_far(x: Single)
    ensures
        !far(x, x),
{
    reveal(Single::plus);
    reveal(Single::less_than);
    let y = x.negated();
    assert(y.mag() == x.mag());
    assert(y.is_negative() != x.is_negative());
    let d = x.minus(x).absolute();
    if x.is_finite() {
        assert(x.units() + y.units() == 0);
        assert(x.minus(x) == (Single { bits: 0 }));
        assert(d == (Single { bits: 0 }));
        assert(d.units() == 0) by {
            assert(significand(0) == 0);
        }
        lemma_hundredth();
    } else {
        let nan = Single { bits: NAN };
        assert(x.minus(x) == nan);
        assert(d == nan);
        assert(nan.is_nan());
    }
}

proof fn lemma_hundredth()
    ensures
        (Single { bits: HUNDREDTH }).units() >= 0,
{
    let h = Single { bits: HUNDREDTH };
    let m = h.mag();
    lemma_pow2_pos(scale(m));
    let a = significand(m);
    let b = pow2(scale(m)) as int;
    assert(a * b >= 0) by (nonlinear_arith)
        requires
            a >= 0,
            b > 0,
    ;
}

proof fn lemma_not_apart(p: Point)
    ensures
        !apart(p, p),
{
    lemma_not_far(p.x);
    lemma_not_far(p.y);
}

/// A path that ends without being painted leaves nothing on the page.
pub proof fn law_unpainted_path_leaves_nothing(p: PathsView, ctm: Matrix, page: u32)
    ensures
        ({
            let q = p.ended();
            &&& q.rects == p.rects && q.clip_rects == p.clip_rects
            &&& q.fill_rects == p.fill_rects && q.lines == p.lines
            &&& q.stroked(true, ctm, page) == q
            &&& q.filled(ctm, page) == q
        }),
{
    let q = p.ended();
    assert(q.stroked(true, ctm, page) =~= q);
    assert(q.filled(ctm, page) =~= q);
}

/// Whether two states are alike in what paths depend on: the graphics states and the
/// paths so far.
pub open spec fn drawn_alike(v: PageView, w: PageView) -> bool {
    v.graphics == w.graphics && v.saved == w.saved && v.paths == w.paths
}

/// What an operation draws does not depend on any reply, nor on the text and the
/// images of the page.
pub proof fn law_drawing_needs_no_reply(
    v: PageView,
    w: PageView,
    op: OperationView,
    one: ReplyView,
    other: ReplyView,
    settings: Settings,
)
    requires
        drawn_alike(v, w),
    ensures
        drawn_alike(stepped(v, op, one, settings), stepped(w, op, other, settings)),
{
}

/// Whether two states differ in nothing but their items and images.
pub open spec fn alike_but_items(v: PageView, w: PageView) -> bool {
    w == (PageView { items: w.items, images: w.images, ..v })
}

/// Whether two replies are the same, or each is an image or nothing.
pub open spec fn same_but_images(one: ReplyView, other: ReplyView) -> bool {
    one == other || ((one is Image || one is Nothing) && (other is Image || other is Nothing))
}

/// Images change nothing but the items and the images of a page.
pub proof fn law_images_change_little(
    v: PageView,
    w: PageView,
    op: OperationView,
    one: ReplyView,
    other: ReplyView,
    settings: Settings,
)
    requires
        alike_but_items(v, w),
        same_but_images(one, other),
    ensures
        alike_but_items(stepped(v, op, one, settings), stepped(w, op, other, settings)),
{
}

/// The items of a page but for those that mark images.
pub open spec fn other_items(items: Seq<PageItemView>) -> Seq<PageItemView> {
    items.filter(|item: PageItemView| !marks_image(item))
}

proof fn lemma_other_items(items: Seq<PageItemView>, more: Seq<PageItemView>)
    ensures
        other_items(items + more) == other_items(items) + other_items(more),
{
    let other = |item: PageItemView| !marks_image(item);
    Seq::filter_distributes_over_add(items, more, other);
}

proof fn lemma_marker_left_out(items: Seq<PageItemView>, item: PageItemView)
    requires
        marks_image(item),
    ensures
        other_items(items.push(item)) == other_items(items),
{
    reveal(Seq::filter);
    assert(items.push(item).drop_last() =~= items);
}

/// A state without its items and images.
spec fn bare(v: PageView) -> PageView {
    PageView { items: Seq::empty(), images: Seq::empty(), ..v }
}

/// The items that an operation adds do not depend on those that are there.
proof fn lemma_items_added(v: PageView, op: OperationView, reply: ReplyView, settings: Settings)
    requires
        !(reply is Image),
    ensures
        stepped(v, op, reply, settings).items == v.items + stepped(
            bare(v),
            op,
            reply,
            settings,
        ).items,
{
    let b = bare(v);
    let all = stepped(v, op, reply, settings).items;
    let more = stepped(b, op, reply, settings).items;
    match operator(op.operator) {
        Operator::Show => {
            assert(all =~= v.items + more);
        },
        Operator::ShowArray => {
            if let ReplyView::Show { metrics, elements } = reply {
                if v.in_text_block && op.operands.len() > 0 && op.operands[0] is Array {
                    let layout = v.layout(metrics, settings);
                    assert(b.layout(metrics, settings) == layout);
                    let line = laid_out(op.operands[0]->Array_0, elements, layout);
                    let pieces = line.all_pieces(layout.visible);
                    assert(v.piece_items(pieces, metrics is Some) =~= b.piece_items(
                        pieces,
                        metrics is Some,
                    ));
                }
            }
            assert(all =~= v.items + more);
        },
        Operator::NextLineShow => {
            assert(all =~= v.items + more);
        },
        Operator::Invoke => {
            assert(all =~= v.items + more);
        },
        Operator::EndMark => {
            assert(all =~= v.items + more);
        },
        _ => {
            assert(all == v.items);
            assert(more == b.items);
            assert(all =~= v.items + more);
        },
    }
}

/// Images change nothing of the items but those that mark them.
pub proof fn law_images_leave_other_items(
    v: PageView,
    w: PageView,
    op: OperationView,
    one: ReplyView,
    other: ReplyView,
    settings: Settings,
)
    requires
        alike_but_items(v, w),
        other_items(v.items) == other_items(w.items),
        same_but_images(one, other),
    ensures
        other_items(stepped(v, op, one, settings).items) == other_items(
            stepped(w, op, other, settings).items,
        ),
{
    lemma_image_step(v, op, one, settings);
    lemma_image_step(w, op, other, settings);
    if !(one is Image || one is Nothing) {
        assert(bare(v) == bare(w));
        lemma_items_added(v, op, one, settings);
        lemma_items_added(w, op, other, settings);
        let more = stepped(bare(v), op, one, settings).items;
        lemma_other_items(v.items, more);
        lemma_other_items(w.items, more);
    } else if operator(op.operator) == Operator::EndMark {
        assert(bare(v) == bare(w));
        lemma_end_mark(v, op, one, ReplyView::Nothing, settings);
        lemma_end_mark(w, op, other, ReplyView::Nothing, settings);
        lemma_items_added(v, op, ReplyView::Nothing, settings);
        lemma_items_added(w, op, ReplyView::Nothing, settings);
        let more = stepped(bare(v), op, ReplyView::Nothing, settings).items;
        lemma_other_items(v.items, more);
        lemma_other_items(w.items, more);
    }
}

/// The end of a mark asks for no reply.
proof fn lemma_end_mark(
    v: PageView,
    op: OperationView,
    one: ReplyView,
    other: ReplyView,
    settings: Settings,
)
    requires
        operator(op.operator) == Operator::EndMark,
    ensures
        stepped(v, op, one, settings) == stepped(v, op, other, settings),
{
}

/// With an image or nothing for a reply, no operation but the end of a mark adds an
/// item other than one that marks an image.
proof fn lemma_image_step(v: PageView, op: OperationView, reply: ReplyView, settings: Settings)
    ensures
        (reply is Image || reply is Nothing) && operator(op.operator) != Operator::EndMark
            ==> other_items(stepped(v, op, reply, settings).items) == other_items(v.items),
{
    let w = stepped(v, op, reply, settings);
    if reply is Image && operator(op.operator) == Operator::Invoke {
        let item = w.items.last();
        assert(w.items =~= v.items.push(item));
        lemma_marker_left_out(v.items, item);
    } else if (reply is Image || reply is Nothing) && operator(op.operator) != Operator::EndMark {
        assert(w.items == v.items);
    }
}

/// Of two runs over the same operations, with the same replies but for images, both
/// end in the same graphics state, text state, paths and votes, and with the same
/// items but for those that mark images.
pub proof fn law_images_change_little_in_runs(
    v: PageView,
    ops: Seq<OperationView>,
    replies: Seq<ReplyView>,
    others: Seq<ReplyView>,
    settings: Settings,
)
    requires
        replies.len() >= ops.len(),
        others.len() >= ops.len(),
        forall|i: int|
            0 <= i < ops.len() ==> same_but_images(#[trigger] replies[i], #[trigger] others[i]),
    ensures
        alike_but_items(run(v, ops, replies, settings), run(v, ops, others, settings)),
        other_items(run(v, ops, replies, settings).items) == other_items(
            run(v, ops, others, settings).items,
        ),
    decreases ops.len(),
{
    if ops.len() > 0 {
        let front = ops.drop_last();
        let n = ops.len() - 1;
        law_images_change_little_in_runs(v, front, replies, others, settings);
        let one = run(v, front, replies, settings);
        let other = run(v, front, others, settings);
        law_images_change_little(one, other, ops[n], replies[n], others[n], settings);
        law_images_leave_other_items(one, other, ops[n], replies[n], others[n], settings);
    }
}

} // verus!
