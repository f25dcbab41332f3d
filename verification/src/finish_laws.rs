//! Laws of what a page starts with, what is drawn on it, and what is made of it at the
//! end.

use crate::comments::stripped;
use crate::content::{decoded_content, PdfError};
use crate::document::{dictionary_content, font_views, fonts_of};
use crate::extraction::{
    all_dressed, is_corrected, is_dressed, is_finished, is_walk, walk_ends, PageExtraction,
    Request,
};
use crate::fonts::{tables_answered, FontTables};
use crate::geometry::{item_views, ItemType, Matrix, PdfRect, TextItem, TextItemView};
use crate::images::ExtractedImage;
use crate::inline_images::images_readable;
use crate::object::{operation_views, Operation, OperationView};
use crate::operator_laws::lemma_spellings;
use crate::page::{
    initial_page, stepped, PageItem, PageItemView, PageState, PageView, Reply, ReplyView, Settings,
};
use crate::rects::{chosen_rects, deduplicated};
use crate::replies::PageContext;
use crate::services::PageServices;
use crate::single::single_of_int;
use crate::streams::page_content;
use crate::texts::decimal;
use vstd::prelude::*;

verus! {

pub open spec fn is_identity(m: Matrix) -> bool {
    &&& m.a.bits == 0x3f80_0000 && m.b.bits == 0
    &&& m.c.bits == 0 && m.d.bits == 0x3f80_0000
    &&& m.e.bits == 0 && m.f.bits == 0
}

/// A page starts with identity matrices, a font size of 12, no font and no leading,
/// visible text without spacing, outside any text block and any mark, without votes, and
/// with nothing on it.
pub proof fn law_start_of_a_page()
    ensures
        ({
            let v = initial_page();
            &&& is_identity(v.graphics.ctm) && is_identity(v.text_matrix) && is_identity(
                v.line_matrix,
            )
            &&& v.graphics.rendering_mode == 0
            &&& v.graphics.char_spacing.bits == 0 && v.graphics.word_spacing.bits == 0
            &&& v.font.len() == 0 && v.font_size.bits == 0x4140_0000 && v.leading.bits == 0
            &&& v.saved.len() == 0 && v.marks.len() == 0
            &&& !v.in_text_block && !v.suppressed
            &&& v.start_matrix is None && v.glyph_matrix is None
            &&& v.votes.horizontal == 0 && v.votes.rotated == 0
            &&& v.items.len() == 0 && v.images.len() == 0
            &&& v.paths.start is None && v.paths.current is None
            &&& v.paths.pending_lines.len() == 0 && v.paths.pending_subpaths.len() == 0
            &&& v.paths.rects.len() == 0 && v.paths.clip_rects.len() == 0
            &&& v.paths.fill_rects.len() == 0 && v.paths.lines.len() == 0
        }),
{
}

/// `Do` of a form adds its items, in order and as they are, and changes nothing else.
pub proof fn law_form_drawn(
    v: PageView,
    op: OperationView,
    items: Seq<TextItemView>,
    settings: Settings,
)
    requires
        op.operator == "Do"@,
    ensures
        ({
            let w = stepped(v, op, ReplyView::Form(items), settings);
            let n = v.items.len();
            &&& w.items.len() == n + items.len()
            &&& w.items.take(n as int) == v.items
            &&& forall|i: int|
                0 <= i < items.len() ==> #[trigger] w.items[n + i] == PageItemView::Ready(items[i])
            &&& w == (PageView { items: w.items, ..v })
        }),
{
    lemma_spellings();
    let w = stepped(v, op, ReplyView::Form(items), settings);
    assert(w.items.take(v.items.len() as int) =~= v.items);
}

/// `Do` of an image adds it, and an item at the origin of the current matrix, as large as
/// the image has pixels, whose text is how many images came before it. `Do` of anything
/// else changes nothing.
pub proof fn law_image_drawn(
    v: PageView,
    op: OperationView,
    img: ExtractedImage,
    settings: Settings,
)
    requires
        op.operator == "Do"@,
    ensures
        ({
            let w = stepped(v, op, ReplyView::Image(img), settings);
            let n = v.items.len() as int;
            &&& w.images == v.images.push(img)
            &&& w.items.len() == n + 1
            &&& w.items.take(n) == v.items
            &&& w.items[n] matches PageItemView::Ready(t)
            &&& t.text == decimal(v.images.len())
            &&& t.x == v.graphics.ctm.e && t.y == v.graphics.ctm.f
            &&& t.width == single_of_int(img.width as int)
            &&& t.height == single_of_int(img.height as int)
            &&& t.item_type == ItemType::Image
            &&& t.page == settings.page
            &&& t.mcid is None && !t.is_bold && !t.is_italic
            &&& t.font.len() == 0 && t.font_size.bits == 0
            &&& w == (PageView { items: w.items, images: w.images, ..v })
        }),
        stepped(v, op, ReplyView::Nothing, settings) == v,
{
    lemma_spellings();
    let w = stepped(v, op, ReplyView::Image(img), settings);
    assert(w.items.take(v.items.len() as int) =~= v.items);
}

/// Whether a name is that of a font of the page: its own, or the one that it goes by in
/// the resources where it has none.
pub open spec fn is_name_of_font<S: PageServices>(
    ctx: PageContext<S>,
    font: Seq<char>,
    name: Seq<char>,
) -> bool {
    &&& ctx.tables@.base_names.contains_key(font) ==> name == ctx.tables@.base_names[font]
    &&& !ctx.tables@.base_names.contains_key(font) ==> name == font
}

/// A shown text keeps its place, its width, its font and its id when it becomes an item of
/// the page. Its height and its font size are both what the services say of its size under
/// its matrix, its text is its own with the ligatures written out, and its face is that
/// of the name of its font. An item that is ready stays as it is.
pub proof fn law_items_of_shown_texts<S: PageServices>(
    ctx: PageContext<S>,
    items: Seq<PageItem>,
    dressed: Seq<TextItem>,
    i: int,
)
    requires
        all_dressed(ctx, items, dressed),
        0 <= i < items.len(),
    ensures
        dressed.len() == items.len(),
        items[i] matches PageItem::Ready(t) ==> dressed[i]@ == t@,
        items[i] matches PageItem::Shown(s) ==> {
            let t = dressed[i];
            &&& t.x == s.x && t.y == s.y && t.width == s.width
            &&& t.font@ == s.font@ && t.mcid == s.mcid
            &&& t.page == ctx.settings.page && t.item_type == ItemType::Text
            &&& call_ensures(S::rendered_size, (ctx.services, s.size, &s.matrix), t.height)
            &&& t.font_size == t.height
            &&& call_ensures(S::expand_ligatures, (ctx.services, &s.text), t.text)
            &&& exists|name: String|
                is_name_of_font(ctx, s.font@, name@) && #[trigger] call_ensures(
                    S::is_bold,
                    (ctx.services, &name),
                    t.is_bold,
                ) && call_ensures(S::is_italic, (ctx.services, &name), t.is_italic)
        },
{
    assert(is_dressed(ctx, items[i], dressed[i]));
    if let PageItem::Shown(s) = items[i] {
        let t = dressed[i];
        let name = choose|name: String|
            name@ == ctx.tables@.base_name(s.font@) && #[trigger] call_ensures(
                S::is_bold,
                (ctx.services, &name),
                t.is_bold,
            ) && call_ensures(S::is_italic, (ctx.services, &name), t.is_italic);
        assert(is_name_of_font(ctx, s.font@, name@));
    }
}

/// The rectangles of a page: what it draws as such, where there is any; else the filled
/// ones where they are at least three for each clip path, or there are less than four of
/// those; else the clip paths. Near duplicates do not count among the clip paths.
pub proof fn law_chosen_rects(
    rects: Seq<PdfRect>,
    clips: Seq<PdfRect>,
    fills: Seq<PdfRect>,
)
    ensures
        ({
            let chosen = chosen_rects(rects, clips, fills);
            let n = deduplicated(clips).len();
            &&& rects.len() > 0 ==> chosen == rects
            &&& rects.len() == 0 && fills.len() == 0 ==> chosen == deduplicated(clips)
            &&& rects.len() == 0 && fills.len() > 0 && n < 4 ==> chosen == fills
            &&& rects.len() == 0 && fills.len() >= 3 * n && fills.len() > 0 ==> chosen == fills
            &&& rects.len() == 0 && fills.len() < 3 * n && n >= 4 ==> chosen == deduplicated(clips)
        }),
{
}

/// What a page ends in: its items, dressed, then turned where the page is, then merged by
/// the services, first those of words and lines, then the subscripts; the rectangles that
/// are chosen among those of its paths, and its lines, turned likewise; and the images as
/// they came.
pub proof fn law_end_of_a_page<S: PageServices>(
    ctx: PageContext<S>,
    end: PageState,
    r: (PageExtraction, Vec<ExtractedImage>, bool),
)
    requires
        is_finished(ctx, end, r),
    ensures
        r.1@ == end.images@,
        exists|dressed: Seq<TextItem>, given: Vec<TextItem>, joined: Vec<TextItem>|
            {
                &&& #[trigger] all_dressed(ctx, end.items@, dressed)
                &&& is_corrected(
                    item_views(dressed),
                    chosen_rects(end.paths.rects@, end.paths.clip_rects@, end.paths.fill_rects@),
                    end.paths.lines@,
                    end.votes,
                    item_views(given@),
                    r.0.1@,
                    r.0.2@,
                    r.2,
                )
                &&& #[trigger] call_ensures(S::merge_text_items, (ctx.services, given), joined)
                &&& #[trigger] call_ensures(
                    S::merge_subscript_items,
                    (ctx.services, joined),
                    r.0.0,
                )
            },
{
    let (dressed, items) = choose|dressed: Seq<TextItem>, items: Seq<TextItemView>|
        {
            &&& #[trigger] all_dressed(ctx, end.items@, dressed)
            &&& #[trigger] is_corrected(
                item_views(dressed),
                chosen_rects(end@.paths.rects, end@.paths.clip_rects, end@.paths.fill_rects),
                end@.paths.lines,
                end.votes,
                items,
                r.0.1@,
                r.0.2@,
                r.2,
            )
            &&& crate::extraction::is_merged(ctx.services, items, r.0.0)
            &&& r.1@ == end.images@
        };
    let (given, joined) = choose|given: Vec<TextItem>, joined: Vec<TextItem>|
        {
            &&& item_views(given@) == items
            &&& #[trigger] call_ensures(S::merge_text_items, (ctx.services, given), joined)
            &&& #[trigger] call_ensures(S::merge_subscript_items, (ctx.services, joined), r.0.0)
        };
    assert(all_dressed(ctx, end.items@, dressed));
    assert(call_ensures(S::merge_text_items, (ctx.services, given), joined));
}

/// A page that cannot be parsed is an error, with the parser's reason. One with more than
/// a million operations is empty; any other is extracted. Whether its fonts have glyphs
/// that cannot be told is said in either case.
pub proof fn law_results<S: PageServices>(
    request: Request<S>,
    r: Result<(PageExtraction, Vec<ExtractedImage>, bool, bool), PdfError>,
)
    requires
        request.answered(r),
    ensures
        request.operations() matches Err(text) ==> r is Err && r->Err_0 is Parse
            && r->Err_0->Parse_0@ == text,
        request.operations() matches Ok(ops) ==> r is Ok && r->Ok_0.2
            == request.resources.has_gid_fonts,
        request.operations() matches Ok(ops) && ops.len() > 1_000_000 ==> {
            let found = r->Ok_0;
            &&& found.0.0@.len() == 0 && found.0.1@.len() == 0 && found.0.2@.len() == 0
            &&& found.1@.len() == 0
            &&& !found.3
        },
        request.operations() matches Ok(ops) ==> (ops.len() <= 1_000_000 ==> request.extracted(
            ops,
            r->Ok_0,
        )),
{
}

/// The operations of a page are what the parser makes of its content without comments; one
/// with an inline image that cannot be read is not parsed.
pub proof fn law_operations_of_a_page<S: PageServices>(request: Request<S>)
    ensures
        ({
            let data = stripped(page_content(*request.doc, request.page_id));
            &&& images_readable(data) ==> request.operations() == decoded_content(data)
            &&& !images_readable(data) ==> request.operations() is Err
        }),
{
}

/// A page is walked over and finished with its own number, document, services and external
/// objects, and with what is asked of it.
pub proof fn law_surroundings<S: PageServices>(
    request: Request<S>,
    tables: FontTables<S::CMap>,
)
    ensures
        ({
            let ctx = request.context(&tables);
            &&& ctx.settings.page == request.page_num
            &&& ctx.settings.include_invisible == request.include_invisible
            &&& ctx.extract_images == request.extract_images
            &&& ctx.services == request.services
            &&& ctx.doc == request.doc
            &&& ctx.xobjects@ == request.resources.xobjects@
            &&& *ctx.tables == tables
        }),
{
}

/// A walk over operations starts with a new page and takes all of them in order, each with
/// what it asks for in the state that it finds.
pub proof fn law_walks<S: PageServices>(
    ctx: PageContext<S>,
    ops: Seq<Operation>,
    end: PageState,
)
    requires
        walk_ends(ctx, ops, end),
    ensures
        exists|states: Seq<PageState>, replies: Seq<Reply>|
            #![trigger is_walk(ctx, ops, states, replies)]
            {
                &&& states.len() == ops.len() + 1 && replies.len() == ops.len()
                &&& states[0]@ == initial_page() && states[ops.len() as int] == end
                &&& forall|i: int|
                    0 <= i < ops.len() ==> ctx.answered(states[i], #[trigger] ops[i], replies[i])
                        && states[i + 1]@ == stepped(
                        states[i]@,
                        ops[i]@,
                        replies[i]@,
                        ctx.settings,
                    )
            },
{
    let (states, replies) = choose|states: Seq<PageState>, replies: Seq<Reply>|
        #[trigger] is_walk(ctx, ops, states, replies) && states.last() == end;
    assert(is_walk(ctx, ops, states, replies));
    assert(states[ops.len() as int] == states.last());
}

/// What is extracted from a page comes of a walk over all its operations, with the tables of
/// all its fonts, and of the end of that walk.
pub proof fn law_extracted<S: PageServices>(
    request: Request<S>,
    ops: Seq<OperationView>,
    r: (PageExtraction, Vec<ExtractedImage>, bool, bool),
)
    requires
        request.extracted(ops, r),
    ensures
        exists|
            fonts: Seq<(Vec<u8>, &lopdf::Dictionary)>,
            tables: FontTables<S::CMap>,
            operations: Seq<Operation>,
            end: PageState,
        |
            {
                &&& #[trigger] tables_answered(request.services, request.doc, fonts, tables@)
                &&& #[trigger] walk_ends(request.context(&tables), operations, end)
                &&& fonts.len() == fonts_of(*request.doc, request.page_id).len()
                &&& forall|i: int|
                    0 <= i < fonts.len() ==> (#[trigger] fonts[i]).0@ == fonts_of(
                        *request.doc,
                        request.page_id,
                    )[i].0 && dictionary_content(*fonts[i].1) == fonts_of(
                        *request.doc,
                        request.page_id,
                    )[i].1
                &&& operations.len() == ops.len()
                &&& forall|i: int| 0 <= i < ops.len() ==> (#[trigger] operations[i])@ == ops[i]
                &&& is_finished(request.context(&tables), end, (r.0, r.1, r.3))
            },
{
    let (fonts, tables, operations, end) = choose|
        fonts: Seq<(Vec<u8>, &lopdf::Dictionary)>,
        tables: FontTables<S::CMap>,
        operations: Seq<Operation>,
        end: PageState,
    |
        {
            &&& font_views(fonts) == fonts_of(*request.doc, request.page_id)
            &&& #[trigger] tables_answered(request.services, request.doc, fonts, tables@)
            &&& operation_views(operations) == ops
            &&& #[trigger] walk_ends(request.context(&tables), operations, end)
            &&& is_finished(request.context(&tables), end, (r.0, r.1, r.3))
        };
    assert(tables_answered(request.services, request.doc, fonts, tables@));
    assert(walk_ends(request.context(&tables), operations, end));
    let views = font_views(fonts);
    assert forall|i: int| 0 <= i < fonts.len() implies (#[trigger] fonts[i]).0@ == views[i].0
        && dictionary_content(*fonts[i].1) == views[i].1 by {}
    assert forall|i: int| 0 <= i < ops.len() implies (#[trigger] operations[i])@ == ops[i] by {
        assert(operation_views(operations)[i] == operations[i]@);
    }
}

} // verus!
