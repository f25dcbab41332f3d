//! What the operations of a page need from outside of it, and where it comes from.

use crate::document::{get_object, object_at};
use crate::fonts::FontTables;
use crate::images::{extract_image_xobject, is_image_of, object_image};
use crate::object::{
    entry, get_number, integer_entry, number, object_views, ObjectId, ObjectView, Operation,
    PdfDict, PdfObject,
};
use crate::operators::{find_operator, operator, Operator};
use crate::page::{fits, Mark, PageState, Reply, Settings};
use crate::services::PageServices;
use crate::shows::{ElementReply, FontMetrics};
use crate::text_map::TextMap;
use crate::texts::{text_of, utf8_lossy};
use vstd::prelude::*;

verus! {

/// An external object of a page.
#[derive(Clone, Copy, Debug, PartialEq, Eq)]
pub enum XObjectType {
    Image(ObjectId),
    Form(ObjectId),
}

/// The surroundings of a page: the document, the external objects by their
/// resource names, the fonts, and what is wanted of the page.
pub struct PageContext<'a, S: PageServices> {
    pub services: &'a S,
    pub doc: &'a lopdf::Document,
    pub xobjects: &'a TextMap<XObjectType>,
    pub tables: &'a FontTables<'a, S::CMap>,
    pub settings: Settings,
    pub extract_images: bool,
}

/// The properties of a mark, given as a dictionary or by reference.
pub open spec fn mark_properties(doc: lopdf::Document, operands: Seq<ObjectView>) -> Option<
    Seq<(Seq<u8>, ObjectView)>,
> {
    if operands.len() >= 2 {
        match operands[1] {
            ObjectView::Dictionary(d) => Some(d),
            ObjectView::Reference(id) => match object_at(doc, id) {
                Some(ObjectView::Dictionary(d)) => Some(d),
                _ => None,
            },
            _ => None,
        }
    } else {
        None
    }
}

/// Whether a mark has the id of its properties, and the text that the services make
/// of their `ActualText` string.
pub open spec fn properties_answered<S: PageServices>(
    services: &S,
    properties: Seq<(Seq<u8>, ObjectView)>,
    mark: Mark,
) -> bool {
    &&& mark.mcid == integer_entry(properties, "MCID"@)
    &&& match entry(properties, "ActualText"@) {
        Some(ObjectView::String(s)) => exists|bytes: Vec<u8>|
            bytes@ == s && mark.actual_text is Some && #[trigger] call_ensures(
                S::text_string,
                (services, &bytes),
                mark.actual_text->0,
            ),
        _ => mark.actual_text is None,
    }
}

/// Whether a mark is what its operands tell.
pub open spec fn mark_answered<S: PageServices>(
    services: &S,
    doc: lopdf::Document,
    operands: Seq<ObjectView>,
    mark: Mark,
) -> bool {
    match mark_properties(doc, operands) {
        Some(properties) => properties_answered(services, properties, mark),
        None => mark.mcid is None && mark.actual_text is None,
    }
}

fn ask_properties<S: PageServices>(services: &S, properties: &PdfDict) -> (r: Mark)
    ensures
        properties_answered(services, properties@, r),
{
    let mcid = properties.integer("MCID");
    match properties.get("ActualText") {
        Some(PdfObject::String(s)) => {
            let r = Mark { actual_text: Some(services.text_string(s)), mcid };
            assert(call_ensures(S::text_string, (services, s), r.actual_text->0));
            r
        },
        _ => Mark { actual_text: None, mcid },
    }
}

fn ask_mark<S: PageServices>(services: &S, doc: &lopdf::Document, operands: &Vec<PdfObject>) -> (r:
    Mark)
    ensures
        mark_answered(services, *doc, object_views(operands@), r),
{
    if operands.len() >= 2 {
        match &operands[1] {
            PdfObject::Dictionary(d) => {
                return ask_properties(services, d);
            },
            PdfObject::Reference(id) => {
                if let Some(PdfObject::Dictionary(d)) = get_object(doc, *id) {
                    return ask_properties(services, &d);
                }
            },
            _ => {},
        }
    }
    Mark { actual_text: None, mcid: None }
}

impl<'a, S: PageServices> PageContext<'a, S> {
    /// Whether the text of what is shown is wanted.
    pub open spec fn wants_text(self, state: PageState) -> bool {
        !(state@.hidden(self.settings) || state.suppressed)
    }

    /// Whether a reply is what the services answer for a shown operand: the width
    /// of a string, where the font is known, and the text, where it is wanted.
    pub open spec fn element_answered(
        self,
        state: PageState,
        operand: PdfObject,
        metrics: Option<FontMetrics>,
        reply: ElementReply,
    ) -> bool {
        &&& match operand {
            PdfObject::String(bytes) if metrics is Some => reply.width is Some && call_ensures(
                S::string_width,
                (
                    self.services,
                    &bytes,
                    &state.font,
                    state.font_size,
                    state.graphics.char_spacing,
                    state.graphics.word_spacing,
                ),
                reply.width->0,
            ),
            _ => reply.width is None,
        }
        &&& if self.wants_text(state) {
            call_ensures(
                S::operand_text,
                (self.services, &operand, &state.font, self.tables),
                reply.text,
            )
        } else {
            reply.text is None
        }
    }

    /// As for a shown operand, for an element of a shown array: nothing is asked
    /// for numbers.
    pub open spec fn array_element_answered(
        self,
        state: PageState,
        element: PdfObject,
        metrics: Option<FontMetrics>,
        reply: ElementReply,
    ) -> bool {
        if number(element@) is Some {
            reply.width is None && reply.text is None
        } else {
            self.element_answered(state, element, metrics, reply)
        }
    }

    /// Whether a reply is what an external object gives: the items of a form from
    /// the services, an image where images are wanted and this one can be
    /// extracted.
    pub open spec fn xobject_answered(self, state: PageState, op: Operation, reply: Reply) -> bool {
        let operands = op@.operands;
        let xobjects = self.xobjects@;
        if operands.len() > 0 && operands[0] is Name && xobjects.contains_key(
            utf8_lossy(operands[0]->Name_0),
        ) {
            match xobjects[utf8_lossy(operands[0]->Name_0)] {
                XObjectType::Image(id) => if self.extract_images && object_image(*self.doc, id)
                    is Some {
                    reply matches Reply::Image(img) && is_image_of(
                        img,
                        object_at(*self.doc, id)->0->Stream_0,
                        object_image(*self.doc, id)->0,
                        self.settings.page,
                        state.graphics.ctm,
                    )
                } else {
                    reply is Nothing
                },
                XObjectType::Form(id) => reply matches Reply::Form(items) && call_ensures(
                    S::form_items,
                    (self.services, id, self.settings.page, &state.graphics.ctm),
                    items,
                ),
            }
        } else {
            reply is Nothing
        }
    }

    /// Whether a reply is what an operation needs in a state, and comes from the
    /// surroundings of the page.
    pub open spec fn answered(self, state: PageState, op: Operation, reply: Reply) -> bool {
        let operands = op.operands@;
        match operator(op@.operator) {
            Operator::Show => if state.in_text_block && operands.len() > 0 {
                reply matches Reply::Show { metrics, elements } && {
                    &&& call_ensures(S::font_metrics, (self.services, &state.font), metrics)
                    &&& elements@.len() == 1
                    &&& self.element_answered(state, operands[0], metrics, elements@[0])
                }
            } else {
                reply is Nothing
            },
            Operator::ShowArray => if state.in_text_block && operands.len() > 0
                && operands[0] is Array {
                reply matches Reply::Show { metrics, elements } && {
                    let array = operands[0]->Array_0@;
                    &&& call_ensures(S::font_metrics, (self.services, &state.font), metrics)
                    &&& elements@.len() == array.len()
                    &&& forall|i: int|
                        0 <= i < array.len() ==> self.array_element_answered(
                            state,
                            array[i],
                            metrics,
                            #[trigger] elements@[i],
                        )
                }
            } else {
                reply is Nothing
            },
            Operator::NextLineShow => if operands.len() > 0 {
                reply matches Reply::Show { metrics, elements } && {
                    &&& metrics is None
                    &&& elements@.len() == 1
                    &&& self.element_answered(state, operands[0], None, elements@[0])
                }
            } else {
                reply is Nothing
            },
            Operator::Invoke => self.xobject_answered(state, op, reply),
            Operator::BeginMarkWith => reply matches Reply::Mark(mark) && mark_answered(
                self.services,
                *self.doc,
                op@.operands,
                mark,
            ),
            _ => reply is Nothing,
        }
    }

    fn ask_element(
        &self,
        state: &PageState,
        operand: &PdfObject,
        metrics: &Option<FontMetrics>,
    ) -> (r: ElementReply)
        ensures
            self.element_answered(*state, *operand, *metrics, r),
    {
        let width = match operand {
            PdfObject::String(bytes) => if metrics.is_some() {
                Some(
                    self.services.string_width(
                        bytes,
                        &state.font,
                        state.font_size,
                        state.graphics.char_spacing,
                        state.graphics.word_spacing,
                    ),
                )
            } else {
                None
            },
            _ => None,
        };
        let hidden = state.graphics.rendering_mode == 3 && !self.settings.include_invisible;
        let text = if !(hidden || state.suppressed) {
            self.services.operand_text(operand, &state.font, self.tables)
        } else {
            None
        };
        ElementReply { width, text }
    }

    fn ask_array(
        &self,
        state: &PageState,
        array: &Vec<PdfObject>,
        metrics: &Option<FontMetrics>,
    ) -> (r: Vec<ElementReply>)
        ensures
            r@.len() == array@.len(),
            forall|i: int|
                0 <= i < array@.len() ==> self.array_element_answered(
                    *state,
                    array@[i],
                    *metrics,
                    #[trigger] r@[i],
                ),
    {
        let mut r: Vec<ElementReply> = Vec::new();
        let mut i: usize = 0;
        while i < array.len()
            invariant
                i <= array@.len(),
                r@.len() == i,
                forall|j: int|
                    0 <= j < i ==> self.array_element_answered(
                        *state,
                        array@[j],
                        *metrics,
                        #[trigger] r@[j],
                    ),
            decreases array@.len() - i,
        {
            let reply = if get_number(&array[i]).is_some() {
                ElementReply { width: None, text: None }
            } else {
                self.ask_element(state, &array[i], metrics)
            };
            r.push(reply);
            i = i + 1;
        }
        r
    }

    fn ask_xobject(&self, state: &PageState, op: &Operation) -> (r: Reply)
        ensures
            self.xobject_answered(*state, *op, r),
    {
        if op.operands.len() > 0 {
            if let PdfObject::Name(n) = &op.operands[0] {
                assert(op@.operands[0] == op.operands@[0]@);
                let name = text_of(n);
                match self.xobjects.get(&name) {
                    Some(XObjectType::Image(id)) => {
                        if self.extract_images {
                            if let Some(img) = extract_image_xobject(
                                self.doc,
                                *id,
                                self.settings.page,
                                &state.graphics.ctm,
                            ) {
                                return Reply::Image(img);
                            }
                        }
                    },
                    Some(XObjectType::Form(id)) => {
                        return Reply::Form(
                            self.services.form_items(
                                *id,
                                self.settings.page,
                                &state.graphics.ctm,
                            ),
                        );
                    },
                    None => {},
                }
            }
        }
        Reply::Nothing
    }

    /// Asks for what an operation needs.
    pub fn ask(&self, state: &PageState, op: &Operation) -> (r: Reply)
        ensures
            self.answered(*state, *op, r),
            fits(state@, op@, r@),
    {
        let n: usize = op.operands.len();
        match find_operator(op.operator.as_str()) {
            Operator::Show => {
                if state.in_text_block && n > 0 {
                    let metrics = self.services.font_metrics(&state.font);
                    let mut elements: Vec<ElementReply> = Vec::new();
                    elements.push(self.ask_element(state, &op.operands[0], &metrics));
                    return Reply::Show { metrics, elements };
                }
                Reply::Nothing
            },
            Operator::ShowArray => {
                if state.in_text_block && n > 0 {
                    if let PdfObject::Array(array) = &op.operands[0] {
                        assert(op@.operands[0] == op.operands@[0]@);
                        let metrics = self.services.font_metrics(&state.font);
                        let elements = self.ask_array(state, array, &metrics);
                        return Reply::Show { metrics, elements };
                    }
                }
                Reply::Nothing
            },
            Operator::NextLineShow => {
                if n > 0 {
                    let mut elements: Vec<ElementReply> = Vec::new();
                    elements.push(self.ask_element(state, &op.operands[0], &None));
                    return Reply::Show { metrics: None, elements };
                }
                Reply::Nothing
            },
            Operator::Invoke => self.ask_xobject(state, op),
            Operator::BeginMarkWith => Reply::Mark(
                ask_mark(self.services, self.doc, &op.operands),
            ),
            _ => Reply::Nothing,
        }
    }
}

} // verus!
