//! The extraction of a page: its text items, rectangles, lines and images.

use crate::bytes::copy_text;
use crate::comments::{strip_pdf_comments, stripped};
use crate::content::{content_operations, decode_operations, PdfError};
use crate::document::{fonts_of, font_views, get_page_fonts};
use crate::fonts::{build_font_tables, tables_answered, FontTables};
use crate::geometry::{
    correct_rotated_page, item_views, mostly_rotated, turned_item, turned_line, turned_rect,
    ItemType, PdfLine, PdfRect, RotationVotes, TextItem, TextItemView,
};
use crate::images::ExtractedImage;
use crate::object::{operation_views, ObjectId, Operation, OperationView};
use crate::page::{initial_page, stepped, PageItem, PageState, Reply, Settings};
use crate::page_laws::law_one_vote_at_most;
use crate::rects::{choose_rects, chosen_rects};
use crate::replies::{PageContext, XObjectType};
use crate::services::PageServices;
use crate::streams::{get_page_content, page_content};
use crate::text_map::TextMap;
use vstd::prelude::*;

verus! {

/// A page with more operations than this is skipped.
pub const MAX_OPERATIONS: usize = 1_000_000;

/// What is known of the resources of a page.
pub struct PageResources {
    /// The external objects, by their resource names.
    pub xobjects: TextMap<XObjectType>,
    /// Whether a font has glyphs that cannot be told.
    pub has_gid_fonts: bool,
}

/// The text items, rectangles and lines of a page.
pub type PageExtraction = (Vec<TextItem>, Vec<PdfRect>, Vec<PdfLine>);

/// Whether states and replies make up a walk over operations: it starts in the
/// initial state, and each operation leads from one state to the next, with the
/// reply that it needs.
pub open spec fn is_walk<S: PageServices>(
    ctx: PageContext<S>,
    ops: Seq<Operation>,
    states: Seq<PageState>,
    replies: Seq<Reply>,
) -> bool {
    &&& states.len() == ops.len() + 1
    &&& replies.len() == ops.len()
    &&& states[0]@ == initial_page()
    &&& forall|i: int|
        0 <= i < ops.len() ==> {
            &&& ctx.answered(states[i], #[trigger] ops[i], replies[i])
            &&& states[i + 1]@ == stepped(states[i]@, ops[i]@, replies[i]@, ctx.settings)
        }
}

/// Whether a walk over operations ends in a state.
pub open spec fn walk_ends<S: PageServices>(
    ctx: PageContext<S>,
    ops: Seq<Operation>,
    end: PageState,
) -> bool {
    exists|states: Seq<PageState>, replies: Seq<Reply>|
        #[trigger] is_walk(ctx, ops, states, replies) && states.last() == end
}

/// Walks over the operations of a page.
pub fn walk_operations<S: PageServices>(ctx: &PageContext<S>, ops: &Vec<Operation>) -> (r: PageState)
    requires
        ops@.len() <= MAX_OPERATIONS,
    ensures
        walk_ends(*ctx, ops@, r),
{
    let mut state = PageState::new();
    let ghost mut states: Seq<PageState> = seq![state];
    let ghost mut replies: Seq<Reply> = Seq::empty();
    let mut i: usize = 0;
    while i < ops.len()
        invariant
            i <= ops@.len() <= MAX_OPERATIONS,
            is_walk(*ctx, ops@.take(i as int), states, replies),
            states.last() == state,
            state.votes.horizontal + state.votes.rotated <= i,
        decreases ops@.len() - i,
    {
        let op = &ops[i];
        let reply = ctx.ask(&state, op);
        let ghost before = state;
        let ghost given = reply;
        proof {
            law_one_vote_at_most(state@, op@, reply@, ctx.settings);
        }
        state.step(op, reply, &ctx.settings);
        proof {
            let ghost states0 = states;
            let ghost replies0 = replies;
            states = states0.push(state);
            replies = replies0.push(given);
            let taken = ops@.take(i + 1);
            assert forall|j: int| 0 <= j < taken.len() implies {
                &&& ctx.answered(states[j], #[trigger] taken[j], replies[j])
                &&& states[j + 1]@ == stepped(states[j]@, taken[j]@, replies[j]@, ctx.settings)
            } by {
                if j < i {
                    assert(ops@.take(i as int)[j] == taken[j]);
                }
            }
        }
        i = i + 1;
    }
    assert(ops@.take(i as int) =~= ops@);
    assert(is_walk(*ctx, ops@, states, replies));
    state
}

/// Whether an item is what an item of the walk becomes: a shown text gets its size,
/// its face and its ligatures from the services, anything else stays.
pub open spec fn is_dressed<S: PageServices>(
    ctx: PageContext<S>,
    item: PageItem,
    dressed: TextItem,
) -> bool {
    match item {
        PageItem::Ready(t) => dressed@ == t@,
        PageItem::Shown(s) => {
            &&& call_ensures(S::expand_ligatures, (ctx.services, &s.text), dressed.text)
            &&& call_ensures(S::rendered_size, (ctx.services, s.size, &s.matrix), dressed.height)
            &&& dressed.font_size == dressed.height
            &&& face_answered(ctx, s.font@, dressed.is_bold, dressed.is_italic)
            &&& dressed@ == (TextItemView {
                x: s.x,
                y: s.y,
                width: s.width,
                font: s.font@,
                page: ctx.settings.page,
                item_type: ItemType::Text,
                mcid: s.mcid,
                ..dressed@
            })
        },
    }
}

/// Whether a face is what the services answer for the name of a font.
pub open spec fn face_answered<S: PageServices>(
    ctx: PageContext<S>,
    font: Seq<char>,
    bold: bool,
    italic: bool,
) -> bool {
    exists|base: String|
        {
            &&& base@ == ctx.tables@.base_name(font)
            &&& #[trigger] call_ensures(S::is_bold, (ctx.services, &base), bold)
            &&& call_ensures(S::is_italic, (ctx.services, &base), italic)
        }
}

fn dress<S: PageServices>(ctx: &PageContext<S>, item: PageItem) -> (r: TextItem)
    ensures
        is_dressed(*ctx, item, r),
{
    match item {
        PageItem::Ready(t) => t,
        PageItem::Shown(s) => {
            let base = ctx.tables.find_base_name(&s.font);
            let size = ctx.services.rendered_size(s.size, &s.matrix);
            let is_bold = ctx.services.is_bold(base);
            let is_italic = ctx.services.is_italic(base);
            let text = ctx.services.expand_ligatures(&s.text);
            assert(call_ensures(S::is_bold, (ctx.services, base), is_bold));
            TextItem {
                text,
                x: s.x,
                y: s.y,
                width: s.width,
                height: size,
                font: copy_text(&s.font),
                font_size: size,
                page: ctx.settings.page,
                is_bold,
                is_italic,
                item_type: ItemType::Text,
                mcid: s.mcid,
            }
        },
    }
}

/// Whether items are what the items of the walk become, one by one.
pub open spec fn all_dressed<S: PageServices>(
    ctx: PageContext<S>,
    items: Seq<PageItem>,
    dressed: Seq<TextItem>,
) -> bool {
    &&& dressed.len() == items.len()
    &&& forall|i: int|
        0 <= i < items.len() ==> is_dressed(ctx, items[i], #[trigger] dressed[i])
}

fn dress_all<S: PageServices>(ctx: &PageContext<S>, items: Vec<PageItem>) -> (r: Vec<TextItem>)
    ensures
        all_dressed(*ctx, items@, r@),
{
    let ghost given = items@;
    let mut r: Vec<TextItem> = Vec::new();
    for item in it: items.into_iter()
        invariant
            it.seq() == given,
            r@.len() == it.index(),
            forall|i: int|
                0 <= i < it.index() ==> is_dressed(*ctx, given[i], #[trigger] r@[i]),
    {
        r.push(dress(ctx, item));
    }
    r
}

/// Whether the parts of a page are turned upright where its text is mostly turned,
/// and left as they are where it is not.
pub open spec fn is_corrected(
    items: Seq<TextItemView>,
    rects: Seq<PdfRect>,
    lines: Seq<PdfLine>,
    votes: RotationVotes,
    new_items: Seq<TextItemView>,
    new_rects: Seq<PdfRect>,
    new_lines: Seq<PdfLine>,
    rotated: bool,
) -> bool {
    &&& rotated == (items.len() >= 2 && mostly_rotated(votes))
    &&& rotated ==> {
        &&& new_items == items.map_values(|v: TextItemView| turned_item(v))
        &&& new_rects == rects.map_values(|v: PdfRect| turned_rect(v))
        &&& new_lines == lines.map_values(|v: PdfLine| turned_line(v))
    }
    &&& !rotated ==> new_items == items && new_rects == rects && new_lines == lines
}

/// Whether items are what the services merge others to.
pub open spec fn is_merged<S: PageServices>(
    services: &S,
    items: Seq<TextItemView>,
    merged: Vec<TextItem>,
) -> bool {
    exists|given: Vec<TextItem>, joined: Vec<TextItem>|
        {
            &&& item_views(given@) == items
            &&& #[trigger] call_ensures(S::merge_text_items, (services, given), joined)
            &&& #[trigger] call_ensures(S::merge_subscript_items, (services, joined), merged)
        }
}

/// Whether a result is what the end of a walk leads to: the items dressed and
/// merged, the rectangles chosen, and all of it turned upright where the text is
/// mostly turned; and the images as they came.
pub open spec fn is_finished<S: PageServices>(
    ctx: PageContext<S>,
    end: PageState,
    r: (PageExtraction, Vec<ExtractedImage>, bool),
) -> bool {
    exists|dressed: Seq<TextItem>, items: Seq<TextItemView>|
        {
            &&& #[trigger] all_dressed(ctx, end.items@, dressed)
            &&& #[trigger] is_corrected(
                item_views(dressed),
                chosen_rects(end@.paths.rects, end@.paths.clip_rects, end@.paths.fill_rects),
                end@.paths.lines,
                end.votes,
                items,
                r.0.1@,
                r.0.2@,
                r.2,
            )
            &&& is_merged(ctx.services, items, r.0.0)
            &&& r.1@ == end.images@
        }
}

/// Finishes a page after the walk over its operations.
pub fn finish_page<S: PageServices>(ctx: &PageContext<S>, end: PageState) -> (r: (
    PageExtraction,
    Vec<ExtractedImage>,
    bool,
))
    ensures
        is_finished(*ctx, end, r),
{
    let ghost last = end;
    let PageState { items, images, paths, votes, .. } = end;
    let dressed = dress_all(ctx, items);
    let ghost dressed_items = dressed@;
    let rects = choose_rects(paths.rects, paths.clip_rects, paths.fill_rects);
    let (items, rects, lines, rotated) = correct_rotated_page(dressed, rects, paths.lines, &votes);
    let ghost corrected = item_views(items@);
    let ghost given = items;
    let joined = ctx.services.merge_text_items(items);
    let ghost halfway = joined;
    let merged = ctx.services.merge_subscript_items(joined);
    let r = ((merged, rects, lines), images, rotated);
    proof {
        assert(call_ensures(S::merge_text_items, (ctx.services, given), halfway));
        assert(call_ensures(S::merge_subscript_items, (ctx.services, halfway), merged));
        assert(is_merged(ctx.services, corrected, merged));
        assert(all_dressed(*ctx, last.items@, dressed_items));
        assert(is_corrected(
            item_views(dressed_items),
            chosen_rects(last@.paths.rects, last@.paths.clip_rects, last@.paths.fill_rects),
            last@.paths.lines,
            last.votes,
            corrected,
            r.0.1@,
            r.0.2@,
            r.2,
        ));
    }
    r
}

/// What a page is extracted with.
pub struct Request<'a, S: PageServices> {
    pub doc: &'a lopdf::Document,
    pub page_id: ObjectId,
    pub page_num: u32,
    pub services: &'a S,
    pub resources: &'a PageResources,
    pub include_invisible: bool,
    pub extract_images: bool,
}

impl<'a, S: PageServices> Request<'a, S> {
    /// The surroundings of the page, with the tables of its fonts.
    pub open spec fn context(self, tables: &'a FontTables<'a, S::CMap>) -> PageContext<'a, S> {
        PageContext {
            services: self.services,
            doc: self.doc,
            xobjects: &self.resources.xobjects,
            tables,
            settings: Settings { page: self.page_num, include_invisible: self.include_invisible },
            extract_images: self.extract_images,
        }
    }

    /// Whether a result is the extraction of the page, given its operations: the
    /// tables of its fonts are built, the operations walked over, and the page
    /// finished.
    pub open spec fn extracted(
        self,
        ops: Seq<OperationView>,
        r: (PageExtraction, Vec<ExtractedImage>, bool, bool),
    ) -> bool {
        exists|
            fonts: Seq<(Vec<u8>, &'a lopdf::Dictionary)>,
            tables: FontTables<'a, S::CMap>,
            operations: Seq<Operation>,
            end: PageState,
        |
            {
                &&& font_views(fonts) == fonts_of(*self.doc, self.page_id)
                &&& #[trigger] tables_answered(self.services, self.doc, fonts, tables@)
                &&& operation_views(operations) == ops
                &&& #[trigger] walk_ends(self.context(&tables), operations, end)
                &&& is_finished(self.context(&tables), end, (r.0, r.1, r.3))
            }
    }

    /// The operations of the page, or the reason why there are none.
    pub open spec fn operations(self) -> Result<Seq<OperationView>, Seq<char>> {
        content_operations(stripped(page_content(*self.doc, self.page_id)))
    }

    /// Whether a result is the right one: an error where the page cannot be parsed,
    /// nothing where it has too many operations, and else its extraction.
    pub open spec fn answered(
        self,
        r: Result<(PageExtraction, Vec<ExtractedImage>, bool, bool), PdfError>,
    ) -> bool {
        match self.operations() {
            Err(text) => r matches Err(error) && error.message() == text,
            Ok(ops) => r matches Ok(found) && self.bounded(ops, found),
        }
    }

    /// Whether a result is the right one for the operations of the page: nothing
    /// where there are too many, and else its extraction. Whether a font has glyphs
    /// that cannot be told is known in either case.
    pub open spec fn bounded(
        self,
        ops: Seq<OperationView>,
        r: (PageExtraction, Vec<ExtractedImage>, bool, bool),
    ) -> bool {
        &&& r.2 == self.resources.has_gid_fonts
        &&& if ops.len() > MAX_OPERATIONS {
            is_nothing(r)
        } else {
            self.extracted(ops, r)
        }
    }
}

/// Whether a result holds nothing, and nothing that was turned.
pub open spec fn is_nothing(r: (PageExtraction, Vec<ExtractedImage>, bool, bool)) -> bool {
    &&& r.0.0@.len() == 0 && r.0.1@.len() == 0 && r.0.2@.len() == 0
    &&& r.1@.len() == 0
    &&& !r.3
}

/// Extracts a page, given its operations. Where there are more than a million, it
/// is skipped: nothing is extracted from it.
pub fn extract_operations<S: PageServices>(request: &Request<S>, operations: &Vec<Operation>) -> (r:
    (PageExtraction, Vec<ExtractedImage>, bool, bool))
    ensures
        request.bounded(operation_views(operations@), r),
{
    if operations.len() > MAX_OPERATIONS {
        let has_gid_fonts = request.resources.has_gid_fonts;
        return ((Vec::new(), Vec::new(), Vec::new()), Vec::new(), has_gid_fonts, false);
    }
    let fonts = get_page_fonts(request.doc, request.page_id);
    let tables = build_font_tables(request.services, request.doc, &fonts);
    let ctx = PageContext {
        services: request.services,
        doc: request.doc,
        xobjects: &request.resources.xobjects,
        tables: &tables,
        settings: Settings {
            page: request.page_num,
            include_invisible: request.include_invisible,
        },
        extract_images: request.extract_images,
    };
    assert(ctx == request.context(&tables));
    let end = walk_operations(&ctx, operations);
    let ghost last = end;
    let (page, images, rotated) = finish_page(&ctx, end);
    proof {
        assert(tables_answered(request.services, request.doc, fonts@, tables@));
        assert(walk_ends(request.context(&tables), operations@, last));
    }
    (page, images, request.resources.has_gid_fonts, rotated)
}

fn extract_page_text_items_impl<S: PageServices>(request: &Request<S>) -> (r: Result<
    (PageExtraction, Vec<ExtractedImage>, bool, bool),
    PdfError,
>)
    ensures
        request.answered(r),
{
    let content = get_page_content(request.doc, request.page_id);
    let content = strip_pdf_comments(content.as_slice());
    match decode_operations(&content) {
        Ok(operations) => Ok(extract_operations(request, &operations)),
        Err(error) => Err(error),
    }
}

/// Extracts the text items, rectangles and lines of a page. The flags tell whether
/// a font has glyphs that cannot be told, and whether the page was turned upright.
///
/// A page with more than a million operations is skipped: nothing is extracted
/// from it.
pub fn extract_page_text_items<S: PageServices>(
    doc: &lopdf::Document,
    page_id: ObjectId,
    page_num: u32,
    services: &S,
    resources: &PageResources,
    include_invisible: bool,
) -> (r: Result<(PageExtraction, Vec<ExtractedImage>, bool, bool), PdfError>)
    ensures
        (Request {
            doc,
            page_id,
            page_num,
            services,
            resources,
            include_invisible,
            extract_images: false,
        }).answered(r),
{
    extract_page_text_items_impl(
        &Request {
            doc,
            page_id,
            page_num,
            services,
            resources,
            include_invisible,
            extract_images: false,
        },
    )
}

/// As `extract_page_text_items`, with the images of the page. For each of them
/// there is an item with its index as the text, where the image lies.
pub fn extract_page_text_and_images<S: PageServices>(
    doc: &lopdf::Document,
    page_id: ObjectId,
    page_num: u32,
    services: &S,
    resources: &PageResources,
    include_invisible: bool,
) -> (r: Result<(PageExtraction, Vec<ExtractedImage>, bool, bool), PdfError>)
    ensures
        (Request {
            doc,
            page_id,
            page_num,
            services,
            resources,
            include_invisible,
            extract_images: true,
        }).answered(r),
{
    extract_page_text_items_impl(
        &Request {
            doc,
            page_id,
            page_num,
            services,
            resources,
            include_invisible,
            extract_images: true,
        },
    )
}

} // verus!
