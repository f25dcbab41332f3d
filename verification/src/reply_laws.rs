//! Laws of what operations ask for, as content streams spell them.

use crate::document::object_at;
use crate::image_laws::has_side;
use crate::images::{object_image, png_image, ImageFile, ImageFormat};
use crate::object::{entry, ObjectView, Operation, PdfObject};
use crate::operator_laws::lemma_spellings;
use crate::page::{PageState, Reply};
use crate::replies::{PageContext, XObjectType};
use crate::services::PageServices;
use crate::shows::ElementReply;
use crate::texts::utf8_lossy;
use vstd::prelude::*;

verus! {

/// Whether text is read in a state: it is not invisible, unless that is wanted, and no
/// mark replaces it.
pub open spec fn reads_text<S: PageServices>(ctx: PageContext<S>, state: PageState) -> bool {
    !state.suppressed && (state.graphics.rendering_mode != 3 || ctx.settings.include_invisible)
}

/// Whether a reply holds the width of a shown operand: that of a string in the font, the
/// size and the spacings of the state, where the font is known, and none else.
pub open spec fn is_measured<S: PageServices>(
    ctx: PageContext<S>,
    state: PageState,
    operand: PdfObject,
    known: bool,
    reply: ElementReply,
) -> bool {
    match operand {
        PdfObject::String(bytes) => {
            &&& !known ==> reply.width is None
            &&& known ==> reply.width is Some && call_ensures(
                S::string_width,
                (
                    ctx.services,
                    &bytes,
                    &state.font,
                    state.font_size,
                    state.graphics.char_spacing,
                    state.graphics.word_spacing,
                ),
                reply.width->0,
            )
        },
        _ => reply.width is None,
    }
}

/// Whether a reply holds the text of a shown operand in the font of the state, where text
/// is read, and none else.
pub open spec fn is_read<S: PageServices>(
    ctx: PageContext<S>,
    state: PageState,
    operand: PdfObject,
    reply: ElementReply,
) -> bool {
    &&& reads_text(ctx, state) ==> call_ensures(
        S::operand_text,
        (ctx.services, &operand, &state.font, ctx.tables),
        reply.text,
    )
    &&& !reads_text(ctx, state) ==> reply.text is None
}

/// `Tj` asks, in a text block, for the metrics of the font and for the width and the text
/// of its operand.
pub proof fn law_tj_asks<S: PageServices>(
    ctx: PageContext<S>,
    state: PageState,
    op: Operation,
    reply: Reply,
)
    requires
        op.operator@ == "Tj"@,
        ctx.answered(state, op, reply),
    ensures
        !state.in_text_block || op.operands@.len() == 0 ==> reply is Nothing,
        state.in_text_block && op.operands@.len() > 0 ==> {
            &&& reply matches Reply::Show { metrics, elements }
            &&& call_ensures(S::font_metrics, (ctx.services, &state.font), metrics)
            &&& elements@.len() == 1
            &&& is_measured(ctx, state, op.operands@[0], metrics is Some, elements@[0])
            &&& is_read(ctx, state, op.operands@[0], elements@[0])
        },
{
    lemma_spellings();
}

/// `TJ` asks, in a text block, for the metrics of the font, and for the width and the text
/// of each element of its array that is no number.
pub proof fn law_tj_array_asks<S: PageServices>(
    ctx: PageContext<S>,
    state: PageState,
    op: Operation,
    reply: Reply,
    array: Vec<PdfObject>,
    i: int,
)
    requires
        op.operator@ == "TJ"@,
        ctx.answered(state, op, reply),
        state.in_text_block,
        op.operands@.len() > 0,
        op.operands@[0] == PdfObject::Array(array),
        0 <= i < array@.len(),
    ensures
        ({
            &&& reply matches Reply::Show { metrics, elements }
            &&& call_ensures(S::font_metrics, (ctx.services, &state.font), metrics)
            &&& elements@.len() == array@.len()
            &&& array@[i] is Integer || array@[i] is Real ==> elements@[i].width is None
                && elements@[i].text is None
            &&& !(array@[i] is Integer || array@[i] is Real) ==> is_measured(
                ctx,
                state,
                array@[i],
                metrics is Some,
                elements@[i],
            ) && is_read(ctx, state, array@[i], elements@[i])
        }),
{
    lemma_spellings();
    if let Reply::Show { metrics, elements } = reply {
        assert(ctx.array_element_answered(state, array@[i], metrics, elements@[i]));
    }
}

/// `'` asks for the text of its operand, in a text block or not, and for no width.
pub proof fn law_next_line_asks<S: PageServices>(
    ctx: PageContext<S>,
    state: PageState,
    op: Operation,
    reply: Reply,
)
    requires
        op.operator@ == "'"@,
        ctx.answered(state, op, reply),
    ensures
        op.operands@.len() == 0 ==> reply is Nothing,
        op.operands@.len() > 0 ==> {
            &&& reply matches Reply::Show { metrics, elements }
            &&& metrics is None
            &&& elements@.len() == 1
            &&& elements@[0].width is None
            &&& is_read(ctx, state, op.operands@[0], elements@[0])
        },
{
    lemma_spellings();
}

/// Whether an operation names an external object of the page.
pub open spec fn names_xobject<S: PageServices>(
    ctx: PageContext<S>,
    op: Operation,
    x: XObjectType,
) -> bool {
    &&& op@.operands.len() > 0
    &&& op@.operands[0] matches ObjectView::Name(n)
    &&& ctx.xobjects@.contains_key(utf8_lossy(n))
    &&& ctx.xobjects@[utf8_lossy(n)] == x
}

/// `Do` gives the items of a form under the current matrix; an image of which a file can
/// be made, where images are wanted, as large as it says and where the matrix puts it; and
/// nothing for anything else.
pub proof fn law_do_asks<S: PageServices>(
    ctx: PageContext<S>,
    state: PageState,
    op: Operation,
    reply: Reply,
    x: XObjectType,
)
    requires
        op.operator@ == "Do"@,
        ctx.answered(state, op, reply),
    ensures
        names_xobject(ctx, op, x) ==> match x {
            XObjectType::Form(id) => reply matches Reply::Form(items) && call_ensures(
                S::form_items,
                (ctx.services, id, ctx.settings.page, &state.graphics.ctm),
                items,
            ),
            XObjectType::Image(id) => {
                &&& !ctx.extract_images ==> reply is Nothing
                &&& object_image(*ctx.doc, id) is None ==> reply is Nothing
                &&& ctx.extract_images && object_image(*ctx.doc, id) is Some ==> {
                    &&& reply matches Reply::Image(img)
                    &&& img.page == ctx.settings.page
                    &&& img.x == state.graphics.ctm.e
                    &&& img.y == state.graphics.ctm.f
                    &&& object_image(*ctx.doc, id) matches Some(ImageFile::Jpeg(data))
                        ==> img.format == ImageFormat::Jpeg && img.data@ == data
                    &&& object_image(*ctx.doc, id) matches Some(ImageFile::Png(png)) ==> img.format
                        == ImageFormat::Png && png_image(img.data@) == Some(png)
                    &&& object_at(*ctx.doc, id) matches Some(ObjectView::Stream(dict, content))
                        ==> has_side(dict, "Width"@, img.width) && has_side(
                        dict,
                        "Height"@,
                        img.height,
                    )
                }
            },
        },
        (forall|y: XObjectType| !#[trigger] names_xobject(ctx, op, y)) ==> reply is Nothing,
{
    lemma_spellings();
    let operands = op@.operands;
    if operands.len() > 0 {
        if let ObjectView::Name(n) = operands[0] {
            if ctx.xobjects@.contains_key(utf8_lossy(n)) {
                assert(names_xobject(ctx, op, ctx.xobjects@[utf8_lossy(n)]));
            }
        }
    }
}

/// Whether the properties of a mark are a dictionary: its second operand, or what that
/// refers to.
pub open spec fn has_properties<S: PageServices>(
    ctx: PageContext<S>,
    op: Operation,
    properties: Seq<(Seq<u8>, ObjectView)>,
) -> bool {
    op@.operands.len() >= 2 && (op@.operands[1] == ObjectView::Dictionary(properties) || (
    op@.operands[1] matches ObjectView::Reference(id) && object_at(*ctx.doc, id) == Some(
        ObjectView::Dictionary(properties),
    )))
}

/// `BDC` gives a mark the number under `MCID`, where it is an integer, and the text of the
/// string under `ActualText`, where there is one; without properties it has neither.
pub proof fn law_bdc_asks<S: PageServices>(
    ctx: PageContext<S>,
    state: PageState,
    op: Operation,
    reply: Reply,
    properties: Seq<(Seq<u8>, ObjectView)>,
)
    requires
        op.operator@ == "BDC"@,
        ctx.answered(state, op, reply),
    ensures
        ({
            &&& reply matches Reply::Mark(mark)
            &&& has_properties(ctx, op, properties) ==> {
                &&& match entry(properties, "MCID"@) {
                    Some(ObjectView::Integer(n)) => mark.mcid == Some(n),
                    _ => mark.mcid is None,
                }
                &&& match entry(properties, "ActualText"@) {
                    Some(ObjectView::String(s)) => mark.actual_text is Some && exists|
                        bytes: Vec<u8>,
                    |
                        bytes@ == s && #[trigger] call_ensures(
                            S::text_string,
                            (ctx.services, &bytes),
                            mark.actual_text->0,
                        ),
                    _ => mark.actual_text is None,
                }
            }
            &&& (forall|p: Seq<(Seq<u8>, ObjectView)>| !#[trigger] has_properties(ctx, op, p))
                ==> mark.mcid is None && mark.actual_text is None
        }),
{
    lemma_spellings();
    let operands = op@.operands;
    if operands.len() >= 2 {
        match operands[1] {
            ObjectView::Dictionary(d) => {
                assert(has_properties(ctx, op, d));
            },
            ObjectView::Reference(id) => {
                if let Some(ObjectView::Dictionary(d)) = object_at(*ctx.doc, id) {
                    assert(has_properties(ctx, op, d));
                }
            },
            _ => {},
        }
    }
}

/// No other operation asks for anything.
pub proof fn law_others_ask_nothing<S: PageServices>(
    ctx: PageContext<S>,
    state: PageState,
    op: Operation,
    reply: Reply,
)
    requires
        ctx.answered(state, op, reply),
        op.operator@ != "Tj"@,
        op.operator@ != "TJ"@,
        op.operator@ != "'"@,
        op.operator@ != "Do"@,
        op.operator@ != "BDC"@,
    ensures
        reply is Nothing,
{
}

} // verus!
