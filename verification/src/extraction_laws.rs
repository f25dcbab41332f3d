//! Laws of the extraction of a page.

use crate::content::PdfError;
use crate::document::{font_views, fonts_of};
use crate::extraction::{
    all_dressed, is_corrected, is_dressed, is_finished, is_walk, walk_ends, PageExtraction,
    Request, MAX_OPERATIONS,
};
use crate::fonts::{tables_answered, FontTables};
use crate::geometry::{
    item_views, turned_item, ItemType, PdfLine, PdfRect, TextItem, TextItemView,
};
use crate::images::{png_signature, ExtractedImage, ImageFormat};
use crate::object::{operation_views, Operation};
use crate::page::{
    initial_page, page_item_views, stepped, PageItem, PageState, Reply, ReplyView, Settings,
};
use crate::page_laws::{
    alike_but_items, brings_no_images, drawn_alike, image_items, images_numbered,
    law_drawing_needs_no_reply, law_images_change_little_in_runs, law_images_numbered,
    other_items, run, same_but_images,
};
use crate::replies::PageContext;
use crate::services::PageServices;
use crate::texts::decimal;
use vstd::prelude::*;

verus! {

/// What replies hold.
pub open spec fn all_reply_views(replies: Seq<Reply>) -> Seq<ReplyView> {
    Seq::new(replies.len(), |i: int| replies[i]@)
}

proof fn lemma_walk_prefix<S: PageServices>(
    ctx: PageContext<S>,
    ops: Seq<Operation>,
    states: Seq<PageState>,
    replies: Seq<Reply>,
    n: int,
)
    requires
        is_walk(ctx, ops, states, replies),
        0 <= n <= ops.len(),
    ensures
        states[n]@ == run(
            initial_page(),
            operation_views(ops).take(n),
            all_reply_views(replies),
            ctx.settings,
        ),
    decreases n,
{
    let views = operation_views(ops);
    if n > 0 {
        lemma_walk_prefix(ctx, ops, states, replies, n - 1);
        assert(views.take(n).drop_last() =~= views.take(n - 1));
        assert(views.take(n)[n - 1] == ops[n - 1]@);
        assert(ctx.answered(states[n - 1], ops[n - 1], replies[n - 1]));
        assert(all_reply_views(replies)[n - 1] == replies[n - 1]@);
    }
}

/// A walk does what its operations do one after the other, from the initial state.
pub proof fn law_walk_is_run<S: PageServices>(
    ctx: PageContext<S>,
    ops: Seq<Operation>,
    states: Seq<PageState>,
    replies: Seq<Reply>,
)
    requires
        is_walk(ctx, ops, states, replies),
    ensures
        states.last()@ == run(
            initial_page(),
            operation_views(ops),
            all_reply_views(replies),
            ctx.settings,
        ),
{
    lemma_walk_prefix(ctx, ops, states, replies, ops.len() as int);
    assert(operation_views(ops).take(ops.len() as int) =~= operation_views(ops));
}

/// At the end of a walk in which no form brings items that mark images, there is
/// one such item for each image, with its index as the text, in the order of the
/// images.
pub proof fn law_walk_numbers_images<S: PageServices>(
    ctx: PageContext<S>,
    ops: Seq<Operation>,
    states: Seq<PageState>,
    replies: Seq<Reply>,
)
    requires
        is_walk(ctx, ops, states, replies),
        forall|i: int| 0 <= i < replies.len() ==> brings_no_images((#[trigger] replies[i])@),
    ensures
        images_numbered(states.last()@),
{
    law_walk_is_run(ctx, ops, states, replies);
    let views = all_reply_views(replies);
    assert forall|i: int| 0 <= i < views.len() implies brings_no_images(#[trigger] views[i]) by {
        assert(views[i] == replies[i]@);
    }
    law_images_numbered(operation_views(ops), views, ctx.settings);
}

/// Whether an image is of a page and its file starts as its format has it: FF D8
/// for JPEG, the signature for PNG; and it has pixels.
pub open spec fn is_sound(img: ExtractedImage, page: u32) -> bool {
    &&& img.page == page
    &&& img.width > 0 && img.height > 0
    &&& match img.format {
        ImageFormat::Jpeg => img.data@.len() >= 2 && img.data@[0] == 0xff && img.data@[1] == 0xd8,
        ImageFormat::Png => png_signature().is_prefix_of(img.data@),
    }
}

proof fn lemma_walk_images<S: PageServices>(
    ctx: PageContext<S>,
    ops: Seq<Operation>,
    states: Seq<PageState>,
    replies: Seq<Reply>,
    n: int,
)
    requires
        is_walk(ctx, ops, states, replies),
        0 <= n <= ops.len(),
    ensures
        forall|k: int|
            0 <= k < states[n].images@.len() ==> is_sound(
                #[trigger] states[n].images@[k],
                ctx.settings.page,
            ),
        !ctx.extract_images ==> states[n].images@.len() == 0,
    decreases n,
{
    if n > 0 {
        lemma_walk_images(ctx, ops, states, replies, n - 1);
        let before = states[n - 1];
        let reply = replies[n - 1];
        let op = ops[n - 1];
        assert(ctx.answered(before, op, reply));
        assert(states[n]@ == stepped(before@, op@, reply@, ctx.settings));
        assert(states[n].images@ == states[n]@.images);
        assert(before.images@ == before@.images);
        if reply is Image {
            let img = reply->Image_0;
            assert(is_sound(img, ctx.settings.page));
            assert(states[n]@.images =~= before@.images.push(img));
        } else {
            assert(states[n]@.images =~= before@.images);
        }
    } else {
        assert(states[0].images@ == states[0]@.images);
    }
}

/// The walk behind an extraction.
proof fn lemma_extraction<'a, S: PageServices>(
    request: Request<'a, S>,
    r: (PageExtraction, Vec<ExtractedImage>, bool, bool),
) -> (w: (PageContext<'a, S>, Seq<Operation>, Seq<PageState>, Seq<Reply>))
    requires
        request.answered(Ok::<_, PdfError>(r)),
        request.operations()->Ok_0.len() <= MAX_OPERATIONS,
    ensures
        is_walk(w.0, w.1, w.2, w.3),
        operation_views(w.1) == request.operations()->Ok_0,
        w.0.settings == (Settings {
            page: request.page_num,
            include_invisible: request.include_invisible,
        }),
        w.0.extract_images == request.extract_images,
        is_finished(w.0, w.2.last(), (r.0, r.1, r.3)),
{
    let ops = request.operations()->Ok_0;
    assert(request.extracted(ops, r));
    let (fonts, tables, operations, end) = choose|
        fonts: Seq<(Vec<u8>, &'a lopdf::Dictionary)>,
        tables: FontTables<'a, S::CMap>,
        operations: Seq<Operation>,
        end: PageState,
    |
        {
            &&& font_views(fonts) == fonts_of(*request.doc, request.page_id)
            &&& #[trigger] tables_answered(request.services, request.doc, fonts, tables@)
            &&& operation_views(operations) == ops
            &&& #[trigger] walk_ends(request.context(&tables), operations, end)
            &&& is_finished(request.context(&tables), end, (r.0, r.1, r.3))
        };
    let ctx = request.context(&tables);
    let (states, replies) = choose|states: Seq<PageState>, replies: Seq<Reply>|
        #[trigger] is_walk(ctx, operations, states, replies) && states.last() == end;
    (ctx, operations, states, replies)
}

/// Every extracted image is of the page, has pixels, and its file starts as a JPEG
/// or PNG file does. Where images are not wanted, there are none.
pub proof fn law_images_sound<S: PageServices>(
    request: Request<S>,
    r: (PageExtraction, Vec<ExtractedImage>, bool, bool),
)
    requires
        request.answered(Ok::<_, PdfError>(r)),
    ensures
        forall|k: int|
            0 <= k < r.1@.len() ==> is_sound(#[trigger] r.1@[k], request.page_num),
        !request.extract_images ==> r.1@.len() == 0,
{
    if request.operations()->Ok_0.len() <= MAX_OPERATIONS {
        let (ctx, ops, states, replies) = lemma_extraction(request, r);
        lemma_walk_images(ctx, ops, states, replies, ops.len() as int);
    }
}

/// The texts of the items that mark the places of images, in their order.
pub open spec fn image_texts(items: Seq<TextItemView>) -> Seq<Seq<char>>
    decreases items.len(),
{
    if items.len() == 0 {
        Seq::empty()
    } else if items.last().item_type == ItemType::Image {
        image_texts(items.drop_last()).push(items.last().text)
    } else {
        image_texts(items.drop_last())
    }
}

/// The numbers from 0 up to `n`, in digits.
pub open spec fn indices(n: nat) -> Seq<Seq<char>> {
    Seq::new(n, |k: int| decimal(k as nat))
}

proof fn lemma_dressed_images<S: PageServices>(
    ctx: PageContext<S>,
    items: Seq<PageItem>,
    dressed: Seq<TextItem>,
)
    requires
        all_dressed(ctx, items, dressed),
    ensures
        image_texts(item_views(dressed)).len() == image_items(page_item_views(items)).len(),
        forall|k: int|
            0 <= k < image_texts(item_views(dressed)).len() ==> (#[trigger] image_texts(
                item_views(dressed),
            )[k]) == image_items(page_item_views(items))[k].text,
    decreases items.len(),
{
    if items.len() > 0 {
        let front = items.drop_last();
        let dressed_front = dressed.drop_last();
        assert forall|i: int| 0 <= i < front.len() implies is_dressed(
            ctx,
            front[i],
            #[trigger] dressed_front[i],
        ) by {
            assert(is_dressed(ctx, items[i], dressed[i]));
        }
        lemma_dressed_images(ctx, front, dressed_front);
        let n = items.len() - 1;
        assert(is_dressed(ctx, items[n], dressed[n]));
        assert(item_views(dressed).drop_last() =~= item_views(dressed_front));
        assert(item_views(dressed).last() == dressed[n]@);
        assert(page_item_views(items).drop_last() =~= page_item_views(front));
        assert(page_item_views(items).last() == items[n]@);
    }
}

proof fn lemma_turned_images(items: Seq<TextItemView>)
    ensures
        image_texts(items.map_values(|v: TextItemView| turned_item(v))) == image_texts(items),
    decreases items.len(),
{
    let turned = items.map_values(|v: TextItemView| turned_item(v));
    if items.len() > 0 {
        lemma_turned_images(items.drop_last());
        assert(turned.drop_last() =~= items.drop_last().map_values(
            |v: TextItemView| turned_item(v),
        ));
        assert(turned.last() == turned_item(items.last()));
    } else {
        assert(turned =~= items);
    }
}

/// When a page is finished, the items that mark images still carry the indices of
/// the images, in order: dressing and turning change neither. What merges the
/// items then is handed these.
pub proof fn law_finished_images_numbered<S: PageServices>(
    ctx: PageContext<S>,
    end: PageState,
    dressed: Seq<TextItem>,
    rects: Seq<PdfRect>,
    lines: Seq<PdfLine>,
    items: Seq<TextItemView>,
    new_rects: Seq<PdfRect>,
    new_lines: Seq<PdfLine>,
    rotated: bool,
)
    requires
        images_numbered(end@),
        all_dressed(ctx, end.items@, dressed),
        is_corrected(
            item_views(dressed),
            rects,
            lines,
            end.votes,
            items,
            new_rects,
            new_lines,
            rotated,
        ),
    ensures
        image_texts(items) == indices(end.images@.len()),
{
    lemma_dressed_images(ctx, end.items@, dressed);
    lemma_turned_images(item_views(dressed));
    let texts = image_texts(item_views(dressed));
    assert(texts =~= indices(end.images@.len())) by {
        assert(end@.images == end.images@);
        assert(end@.items == page_item_views(end.items@));
        assert forall|k: int| 0 <= k < texts.len() implies texts[k] == indices(
            end.images@.len(),
        )[k] by {
            assert(texts[k] == image_items(end@.items)[k].text);
        }
    }
}

proof fn lemma_walks_draw_alike<S: PageServices>(
    one: PageContext<S>,
    ops: Seq<Operation>,
    states: Seq<PageState>,
    replies: Seq<Reply>,
    other: PageContext<S>,
    other_ops: Seq<Operation>,
    other_states: Seq<PageState>,
    other_replies: Seq<Reply>,
    n: int,
)
    requires
        is_walk(one, ops, states, replies),
        is_walk(other, other_ops, other_states, other_replies),
        operation_views(ops) == operation_views(other_ops),
        one.settings == other.settings,
        0 <= n <= ops.len(),
    ensures
        drawn_alike(states[n]@, other_states[n]@),
    decreases n,
{
    assert(ops.len() == operation_views(ops).len());
    assert(other_ops.len() == operation_views(other_ops).len());
    if n > 0 {
        let k = n - 1;
        lemma_walks_draw_alike(
            one,
            ops,
            states,
            replies,
            other,
            other_ops,
            other_states,
            other_replies,
            k,
        );
        assert(operation_views(ops)[k] == ops[k]@);
        assert(operation_views(other_ops)[k] == other_ops[k]@);
        assert(one.answered(states[k], ops[k], replies[k]));
        assert(other.answered(other_states[k], other_ops[k], other_replies[k]));
        law_drawing_needs_no_reply(
            states[k]@,
            other_states[k]@,
            ops[k]@,
            replies[k]@,
            other_replies[k]@,
            one.settings,
        );
    }
}

/// Two walks over the same operations, with the same answers but for images, end
/// with the same paths and votes, and with the same items but for those that mark
/// images, whether or not images are wanted.
pub proof fn law_walks_with_and_without_images<S: PageServices>(
    one: PageContext<S>,
    other: PageContext<S>,
    ops: Seq<Operation>,
    states: Seq<PageState>,
    other_states: Seq<PageState>,
    replies: Seq<Reply>,
    other_replies: Seq<Reply>,
)
    requires
        is_walk(one, ops, states, replies),
        is_walk(other, ops, other_states, other_replies),
        one.settings == other.settings,
        forall|i: int|
            0 <= i < ops.len() ==> same_but_images(
                (#[trigger] replies[i])@,
                (#[trigger] other_replies[i])@,
            ),
    ensures
        states.last()@.paths == other_states.last()@.paths,
        states.last()@.votes == other_states.last()@.votes,
        alike_but_items(states.last()@, other_states.last()@),
        other_items(states.last()@.items) == other_items(other_states.last()@.items),
{
    law_walk_is_run(one, ops, states, replies);
    law_walk_is_run(other, ops, other_states, other_replies);
    let views = all_reply_views(replies);
    let other_views = all_reply_views(other_replies);
    assert forall|i: int| 0 <= i < operation_views(ops).len() implies same_but_images(
        #[trigger] views[i],
        #[trigger] other_views[i],
    ) by {
        assert(views[i] == replies[i]@ && other_views[i] == other_replies[i]@);
    }
    law_images_change_little_in_runs(
        initial_page(),
        operation_views(ops),
        views,
        other_views,
        one.settings,
    );
}

/// Whether two requests are for the same page, of the same document, with the same
/// services, and differ at most in whether images are wanted.
pub open spec fn same_page<S: PageServices>(one: Request<S>, other: Request<S>) -> bool {
    &&& one.doc == other.doc
    &&& one.page_id == other.page_id
    &&& one.page_num == other.page_num
    &&& one.services == other.services
    &&& one.resources == other.resources
    &&& one.include_invisible == other.include_invisible
}

/// The rectangles and lines of a finished page are those of its paths, turned or
/// not.
proof fn lemma_finished_paths<S: PageServices>(
    one: PageContext<S>,
    end: PageState,
    r: (PageExtraction, Vec<ExtractedImage>, bool),
    other: PageContext<S>,
    other_end: PageState,
    other_r: (PageExtraction, Vec<ExtractedImage>, bool),
)
    requires
        is_finished(one, end, r),
        is_finished(other, other_end, other_r),
        end@.paths == other_end@.paths,
        r.2 == other_r.2,
    ensures
        r.0.1@ == other_r.0.1@,
        r.0.2@ == other_r.0.2@,
{
}

/// Asking for images changes nothing else: where the page can be extracted it can be
/// extracted either way, with the same answer on its fonts; and its rectangles and
/// lines are the same, turned alike. Where images are not wanted, there are none.
pub proof fn law_images_change_nothing_else<S: PageServices>(
    one: Request<S>,
    r: Result<(PageExtraction, Vec<ExtractedImage>, bool, bool), PdfError>,
    other: Request<S>,
    other_r: Result<(PageExtraction, Vec<ExtractedImage>, bool, bool), PdfError>,
)
    requires
        same_page(one, other),
        one.answered(r),
        other.answered(other_r),
    ensures
        r is Ok <==> other_r is Ok,
        r matches Err(error) ==> other_r matches Err(other_error) && error.message()
            == other_error.message(),
        r matches Ok(found) ==> other_r matches Ok(other_found) && {
            &&& found.2 == other_found.2
            &&& found.3 == other_found.3 ==> found.0.1@ == other_found.0.1@ && found.0.2@
                == other_found.0.2@
            &&& !one.extract_images ==> found.1@.len() == 0
        },
{
    assert(one.operations() == other.operations());
    if let Ok(found) = r {
        let other_found = other_r->Ok_0;
        law_images_sound(one, found);
        if one.operations()->Ok_0.len() <= MAX_OPERATIONS {
            let (ctx, ops, states, replies) = lemma_extraction(one, found);
            let (other_ctx, other_ops, other_states, other_replies) = lemma_extraction(
                other,
                other_found,
            );
            assert(ops.len() == operation_views(ops).len());
            assert(other_ops.len() == operation_views(other_ops).len());
            lemma_walks_draw_alike(
                ctx,
                ops,
                states,
                replies,
                other_ctx,
                other_ops,
                other_states,
                other_replies,
                ops.len() as int,
            );
            if found.3 == other_found.3 {
                lemma_finished_paths(
                    ctx,
                    states.last(),
                    (found.0, found.1, found.3),
                    other_ctx,
                    other_states.last(),
                    (other_found.0, other_found.1, other_found.3),
                );
            }
        } else {
            assert(found.0.1@ =~= other_found.0.1@);
            assert(found.0.2@ =~= other_found.0.2@);
        }
    }
}

} // verus!
