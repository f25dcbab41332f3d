//! The state of a page while its content stream is walked, and what each operator
//! does to it.

use crate::bytes::copy_text;
use crate::geometry::{
    identity, item_views, multiply_matrices, product, ItemType, Matrix, RotationVotes, TextItem,
    TextItemView,
};
use crate::images::ExtractedImage;
use crate::object::{get_number, number, object_views, ObjectView, Operation, OperationView, PdfObject};
use crate::operators::{find_operator, operator, Operator};
use crate::paths::{no_paths, Paths, PathsView, Point};
use crate::shows::{
    find_space_threshold, laid_out, lay_out, piece_views, reply_views, space_threshold, text_view,
    ElementReply, ElementReplyView, FontMetrics, Layout, Piece, PieceView,
};
use crate::single::{single_of_int, Single, ONE, SIX_FIFTHS, TWELVE, ZERO};
use crate::texts::{decimal, decimal_text, is_blank, is_blank_text, text_of, utf8_lossy};
use vstd::prelude::*;

verus! {

/// What `q` saves and `Q` restores.
#[derive(Clone, Copy, Debug, PartialEq, Eq, Structural)]
pub struct GraphicsState {
    pub ctm: Matrix,
    /// 3 is invisible.
    pub rendering_mode: i32,
    pub char_spacing: Single,
    pub word_spacing: Single,
}

/// A marked-content sequence: the text that replaces its glyphs, and its id.
pub struct Mark {
    pub actual_text: Option<String>,
    pub mcid: Option<i64>,
}

/// What a `Mark` holds.
#[verifier::ext_equal]
pub struct MarkView {
    pub actual_text: Option<Seq<char>>,
    pub mcid: Option<i64>,
}

impl View for Mark {
    type V = MarkView;

    open spec fn view(&self) -> MarkView {
        MarkView { actual_text: text_view(self.actual_text), mcid: self.mcid }
    }
}

pub open spec fn mark_views(marks: Seq<Mark>) -> Seq<MarkView> {
    Seq::new(marks.len(), |i: int| marks[i]@)
}

/// A text that the page shows: its place, and the font, the size and the matrix
/// that tell how it looks.
pub struct ShownText {
    pub text: String,
    pub matrix: Matrix,
    pub x: Single,
    pub y: Single,
    pub width: Single,
    pub font: String,
    pub size: Single,
    pub mcid: Option<i64>,
}

/// What a `ShownText` holds.
#[verifier::ext_equal]
pub struct ShownTextView {
    pub text: Seq<char>,
    pub matrix: Matrix,
    pub x: Single,
    pub y: Single,
    pub width: Single,
    pub font: Seq<char>,
    pub size: Single,
    pub mcid: Option<i64>,
}

impl View for ShownText {
    type V = ShownTextView;

    open spec fn view(&self) -> ShownTextView {
        ShownTextView {
            text: self.text@,
            matrix: self.matrix,
            x: self.x,
            y: self.y,
            width: self.width,
            font: self.font@,
            size: self.size,
            mcid: self.mcid,
        }
    }
}

/// An item of a page: a text that it shows, or one that is complete, from a form or
/// for an image.
pub enum PageItem {
    Shown(ShownText),
    Ready(TextItem),
}

/// What a `PageItem` holds.
#[verifier::ext_equal]
pub enum PageItemView {
    Shown(ShownTextView),
    Ready(TextItemView),
}

impl View for PageItem {
    type V = PageItemView;

    open spec fn view(&self) -> PageItemView {
        match self {
            PageItem::Shown(s) => PageItemView::Shown(s@),
            PageItem::Ready(t) => PageItemView::Ready(t@),
        }
    }
}

pub open spec fn page_item_views(items: Seq<PageItem>) -> Seq<PageItemView> {
    Seq::new(items.len(), |i: int| items[i]@)
}

/// The state of a page.
pub struct PageState {
    pub graphics: GraphicsState,
    pub saved: Vec<GraphicsState>,
    pub font: String,
    pub font_size: Single,
    pub leading: Single,
    pub text_matrix: Matrix,
    pub line_matrix: Matrix,
    pub in_text_block: bool,
    pub votes: RotationVotes,
    pub marks: Vec<Mark>,
    /// Whether glyphs are replaced by the text of a mark.
    pub suppressed: bool,
    /// The text matrix where that mark began.
    pub start_matrix: Option<Matrix>,
    /// The text matrix at the first glyph in that mark.
    pub glyph_matrix: Option<Matrix>,
    pub items: Vec<PageItem>,
    pub images: Vec<ExtractedImage>,
    pub paths: Paths,
}

/// What a `PageState` holds.
#[verifier::ext_equal]
pub struct PageView {
    pub graphics: GraphicsState,
    pub saved: Seq<GraphicsState>,
    pub font: Seq<char>,
    pub font_size: Single,
    pub leading: Single,
    pub text_matrix: Matrix,
    pub line_matrix: Matrix,
    pub in_text_block: bool,
    pub votes: RotationVotes,
    pub marks: Seq<MarkView>,
    pub suppressed: bool,
    pub start_matrix: Option<Matrix>,
    pub glyph_matrix: Option<Matrix>,
    pub items: Seq<PageItemView>,
    pub images: Seq<ExtractedImage>,
    pub paths: PathsView,
}

impl View for PageState {
    type V = PageView;

    open spec fn view(&self) -> PageView {
        PageView {
            graphics: self.graphics,
            saved: self.saved@,
            font: self.font@,
            font_size: self.font_size,
            leading: self.leading,
            text_matrix: self.text_matrix,
            line_matrix: self.line_matrix,
            in_text_block: self.in_text_block,
            votes: self.votes,
            marks: mark_views(self.marks@),
            suppressed: self.suppressed,
            start_matrix: self.start_matrix,
            glyph_matrix: self.glyph_matrix,
            items: page_item_views(self.items@),
            images: self.images@,
            paths: self.paths@,
        }
    }
}

/// The page that the walk is on, and whether invisible text is wanted.
#[derive(Clone, Copy, Debug, PartialEq, Eq, Structural)]
pub struct Settings {
    pub page: u32,
    pub include_invisible: bool,
}

/// What an operator needs from outside the page: the fonts' answers for shown
/// strings, the properties of a mark, the items of a form or the image that is
/// drawn.
pub enum Reply {
    Nothing,
    Show { metrics: Option<FontMetrics>, elements: Vec<ElementReply> },
    Mark(Mark),
    Form(Vec<TextItem>),
    Image(ExtractedImage),
}

/// What a `Reply` holds.
pub enum ReplyView {
    Nothing,
    Show { metrics: Option<FontMetrics>, elements: Seq<ElementReplyView> },
    Mark(MarkView),
    Form(Seq<TextItemView>),
    Image(ExtractedImage),
}

impl View for Reply {
    type V = ReplyView;

    open spec fn view(&self) -> ReplyView {
        match self {
            Reply::Nothing => ReplyView::Nothing,
            Reply::Show { metrics, elements } => ReplyView::Show {
                metrics: *metrics,
                elements: reply_views(elements@),
            },
            Reply::Mark(m) => ReplyView::Mark(m@),
            Reply::Form(items) => ReplyView::Form(item_views(items@)),
            Reply::Image(img) => ReplyView::Image(*img),
        }
    }
}

/// The number at a place among the operands, or a default.
pub open spec fn number_at(operands: Seq<ObjectView>, i: int, default: Single) -> Single {
    match number(operands[i]) {
        Some(n) => n,
        None => default,
    }
}

/// The first operand, where it is a number.
pub open spec fn first_number(operands: Seq<ObjectView>) -> Option<Single> {
    if operands.len() > 0 {
        number(operands[0])
    } else {
        None
    }
}

pub open spec fn zero() -> Single {
    Single { bits: ZERO }
}

pub open spec fn one() -> Single {
    Single { bits: ONE }
}

/// The matrix that six operands give.
pub open spec fn matrix_of(operands: Seq<ObjectView>) -> Matrix {
    Matrix {
        a: number_at(operands, 0, one()),
        b: number_at(operands, 1, zero()),
        c: number_at(operands, 2, zero()),
        d: number_at(operands, 3, one()),
        e: number_at(operands, 4, zero()),
        f: number_at(operands, 5, zero()),
    }
}

/// The id of the innermost mark that has one.
pub open spec fn current_mcid(marks: Seq<MarkView>) -> Option<i64>
    decreases marks.len(),
{
    if marks.len() == 0 {
        None
    } else if marks.last().mcid is Some {
        marks.last().mcid
    } else {
        current_mcid(marks.drop_last())
    }
}

/// Whether some mark replaces its glyphs.
pub open spec fn any_actual_text(marks: Seq<MarkView>) -> bool {
    exists|i: int| 0 <= i < marks.len() && (#[trigger] marks[i]).actual_text is Some
}

/// The votes with one more, for the direction of text under a matrix.
pub open spec fn voted(votes: RotationVotes, combined: Matrix) -> RotationVotes {
    if combined.runs_horizontally() {
        RotationVotes { horizontal: (votes.horizontal + 1) as u32, rotated: votes.rotated }
    } else {
        RotationVotes { horizontal: votes.horizontal, rotated: (votes.rotated + 1) as u32 }
    }
}

/// How far a unit of text space reaches along the x axis of the page.
pub open spec fn scale_x(m: Matrix, ctm: Matrix) -> Single {
    m.a.times(ctm.a).plus(m.b.times(ctm.c))
}

/// The items that complete ones are on a page.
pub open spec fn ready_items(items: Seq<TextItemView>) -> Seq<PageItemView> {
    Seq::new(items.len(), |i: int| PageItemView::Ready(items[i]))
}

/// The item that marks the place of an image: its text is the image's index.
pub open spec fn image_item(index: nat, img: ExtractedImage, ctm: Matrix, page: u32) -> TextItemView {
    TextItemView {
        text: decimal(index),
        x: ctm.e,
        y: ctm.f,
        width: single_of_int(img.width as int),
        height: single_of_int(img.height as int),
        font: Seq::empty(),
        font_size: zero(),
        page,
        is_bold: false,
        is_italic: false,
        item_type: ItemType::Image,
        mcid: None,
    }
}

impl PageView {
    /// Whether text is neither drawn nor wanted.
    pub open spec fn hidden(self, settings: Settings) -> bool {
        self.graphics.rendering_mode == 3 && !settings.include_invisible
    }

    pub open spec fn with_ctm(self, ctm: Matrix) -> PageView {
        PageView { graphics: GraphicsState { ctm, ..self.graphics }, ..self }
    }

    pub open spec fn with_mode(self, rendering_mode: i32) -> PageView {
        PageView { graphics: GraphicsState { rendering_mode, ..self.graphics }, ..self }
    }

    pub open spec fn with_char_spacing(self, char_spacing: Single) -> PageView {
        PageView { graphics: GraphicsState { char_spacing, ..self.graphics }, ..self }
    }

    pub open spec fn with_word_spacing(self, word_spacing: Single) -> PageView {
        PageView { graphics: GraphicsState { word_spacing, ..self.graphics }, ..self }
    }

    pub open spec fn saved_state(self) -> PageView {
        PageView { saved: self.saved.push(self.graphics), ..self }
    }

    pub open spec fn restored_state(self) -> PageView {
        if self.saved.len() > 0 {
            PageView { graphics: self.saved.last(), saved: self.saved.drop_last(), ..self }
        } else {
            self
        }
    }

    pub open spec fn text_begun(self) -> PageView {
        PageView {
            in_text_block: true,
            text_matrix: identity(),
            line_matrix: identity(),
            ..self.with_mode(0)
        }
    }

    pub open spec fn font_set(self, operands: Seq<ObjectView>) -> PageView {
        if operands.len() >= 2 {
            PageView {
                font: match operands[0] {
                    ObjectView::Name(n) => utf8_lossy(n),
                    _ => self.font,
                },
                font_size: number_at(operands, 1, self.font_size),
                ..self
            }
        } else {
            self
        }
    }

    /// Line and text matrix set to the same.
    pub open spec fn line_set(self, m: Matrix) -> PageView {
        PageView { text_matrix: m, line_matrix: m, ..self }
    }

    pub open spec fn text_moved(self, operands: Seq<ObjectView>, sets_leading: bool) -> PageView {
        if operands.len() >= 2 {
            let tx = number_at(operands, 0, zero());
            let ty = number_at(operands, 1, zero());
            PageView {
                leading: if sets_leading {
                    ty.negated()
                } else {
                    self.leading
                },
                ..self.line_set(self.line_matrix.moved(tx, ty))
            }
        } else {
            self
        }
    }

    /// The leading, or 1.2 times the font size where none is set.
    pub open spec fn line_height(self) -> Single {
        if self.leading.same_number(zero()) {
            self.font_size.times(Single { bits: SIX_FIFTHS })
        } else {
            self.leading
        }
    }

    pub open spec fn next_line(self) -> PageView {
        self.line_set(self.line_matrix.lowered(self.line_height()))
    }

    /// The text matrix moved on by a width, where that is known.
    pub open spec fn advanced(self, width: Option<Single>) -> PageView {
        match width {
            Some(w) => PageView { text_matrix: self.text_matrix.advanced(w), ..self },
            None => self,
        }
    }

    /// The place of the first glyph of a mark that replaces its glyphs.
    pub open spec fn glyph_met(self) -> PageView {
        PageView {
            glyph_matrix: if self.glyph_matrix is None {
                Some(self.text_matrix)
            } else {
                self.glyph_matrix
            },
            ..self
        }
    }

    /// A shown text of the current font.
    pub open spec fn shown(
        self,
        text: Seq<char>,
        at: Matrix,
        matrix: Matrix,
        width: Single,
        mcid: Option<i64>,
    ) -> PageItemView {
        PageItemView::Shown(
            ShownTextView {
                text,
                matrix,
                x: at.e,
                y: at.f,
                width,
                font: self.font,
                size: self.font_size,
                mcid,
            },
        )
    }

    /// `Tj`: in a text block, the text moves on by the width of the string. Its
    /// text becomes an item unless it is blank, hidden, or replaced by a mark's.
    pub open spec fn string_shown(self, reply: ElementReplyView, settings: Settings) -> PageView {
        if self.suppressed {
            self.glyph_met().advanced(reply.width)
        } else if self.hidden(settings) {
            self.advanced(reply.width)
        } else {
            match reply.text {
                None => self,
                Some(text) => {
                    let ctm = self.graphics.ctm;
                    let combined = product(self.text_matrix, ctm);
                    let width = match reply.width {
                        Some(w) => w.times(scale_x(self.text_matrix, ctm)).absolute(),
                        None => zero(),
                    };
                    PageView {
                        votes: voted(self.votes, combined),
                        items: if is_blank(text) {
                            self.items
                        } else {
                            self.items.push(
                                self.shown(text, combined, combined, width, current_mcid(self.marks)),
                            )
                        },
                        ..self.advanced(reply.width)
                    }
                },
            }
        }
    }

    /// The item of a piece of a shown array.
    pub open spec fn piece_item(self, piece: PieceView, measured: bool) -> PageItemView {
        let ctm = self.graphics.ctm;
        let at = product(self.text_matrix.advanced(piece.start), ctm);
        let width = if measured {
            piece.end.minus(piece.start).times(scale_x(self.text_matrix, ctm)).absolute()
        } else {
            zero()
        };
        self.shown(
            piece.text,
            at,
            product(self.text_matrix, ctm),
            width,
            current_mcid(self.marks),
        )
    }

    /// The items of the pieces of a shown array.
    pub open spec fn piece_items(self, pieces: Seq<PieceView>, measured: bool) -> Seq<PageItemView> {
        Seq::new(pieces.len(), |i: int| self.piece_item(pieces[i], measured))
    }

    /// How an array is laid out in this state.
    pub open spec fn layout(self, metrics: Option<FontMetrics>, settings: Settings) -> Layout {
        Layout {
            size: self.font_size,
            space: space_threshold(metrics),
            visible: !(self.hidden(settings) || self.suppressed),
        }
    }

    /// `TJ`: in a text block, each piece of the array becomes an item, and the text
    /// moves on by the width of the array where the font is known.
    pub open spec fn array_shown(
        self,
        elements: Seq<ObjectView>,
        metrics: Option<FontMetrics>,
        replies: Seq<ElementReplyView>,
        settings: Settings,
    ) -> PageView {
        let layout = self.layout(metrics, settings);
        let line = laid_out(elements, replies, layout);
        let pieces = line.all_pieces(layout.visible);
        let met = if self.suppressed {
            self.glyph_met()
        } else {
            self
        };
        PageView {
            votes: if pieces.len() > 0 {
                voted(self.votes, product(self.text_matrix, self.graphics.ctm))
            } else {
                self.votes
            },
            items: self.items + self.piece_items(pieces, metrics is Some),
            ..met.advanced(
                if metrics is Some {
                    Some(line.total)
                } else {
                    None
                },
            )
        }
    }

    /// The string of `'`, shown on the next line.
    pub open spec fn line_shown(self, reply: ElementReplyView, settings: Settings) -> PageView {
        match reply.text {
            Some(text) if !(self.hidden(settings) || self.suppressed) && !is_blank(text) => {
                let combined = product(self.text_matrix, self.graphics.ctm);
                PageView {
                    votes: voted(self.votes, combined),
                    items: self.items.push(
                        self.shown(text, combined, combined, zero(), current_mcid(self.marks)),
                    ),
                    ..self
                }
            },
            _ => self,
        }
    }

    /// A form is drawn: its items are added.
    pub open spec fn form_drawn(self, items: Seq<TextItemView>) -> PageView {
        PageView { items: self.items + ready_items(items), ..self }
    }

    /// An image is drawn: it is added, and an item with its index.
    pub open spec fn image_drawn(self, img: ExtractedImage, settings: Settings) -> PageView {
        PageView {
            items: self.items.push(
                PageItemView::Ready(
                    image_item(self.images.len(), img, self.graphics.ctm, settings.page),
                ),
            ),
            images: self.images.push(img),
            ..self
        }
    }

    /// A mark begins. One with a text replaces the glyphs in it.
    pub open spec fn mark_begun(self, mark: MarkView) -> PageView {
        let marks = self.marks.push(mark);
        if mark.actual_text is Some {
            PageView {
                marks,
                suppressed: true,
                start_matrix: Some(self.text_matrix),
                glyph_matrix: None,
                ..self
            }
        } else {
            PageView { marks, ..self }
        }
    }

    /// The replacing text of a mark, at its first glyph or else where it began.
    pub open spec fn actual_text_shown(self, text: Seq<char>, mcid: Option<i64>) -> PageView {
        let at = if self.glyph_matrix is Some {
            self.glyph_matrix
        } else {
            self.start_matrix
        };
        let rest = PageView { start_matrix: None, glyph_matrix: None, ..self };
        match at {
            None => rest,
            Some(start) => {
                let ctm = self.graphics.ctm;
                let combined = product(start, ctm);
                let width = self.text_matrix.e.minus(start.e).times(scale_x(start, ctm)).absolute();
                PageView {
                    votes: voted(self.votes, combined),
                    items: if is_blank(text) {
                        self.items
                    } else {
                        self.items.push(self.shown(text, combined, combined, width, mcid))
                    },
                    ..rest
                }
            },
        }
    }

    /// A mark ends. Its replacing text, where it has one, becomes an item.
    pub open spec fn mark_ended(self) -> PageView {
        if self.marks.len() == 0 {
            self
        } else {
            let mark = self.marks.last();
            let outer = PageView { marks: self.marks.drop_last(), ..self };
            match mark.actual_text {
                None => outer,
                Some(text) => PageView {
                    suppressed: any_actual_text(outer.marks),
                    ..outer.actual_text_shown(
                        text,
                        if mark.mcid is Some {
                            mark.mcid
                        } else {
                            current_mcid(outer.marks)
                        },
                    )
                },
            }
        }
    }

    pub open spec fn with_paths(self, paths: PathsView) -> PageView {
        PageView { paths, ..self }
    }
}

/// The state of a page after an operation.
pub open spec fn stepped(
    v: PageView,
    op: OperationView,
    reply: ReplyView,
    settings: Settings,
) -> PageView {
    let operands = op.operands;
    let n = operands.len();
    let ctm = v.graphics.ctm;
    let page = settings.page;
    match operator(op.operator) {
        Operator::Save => v.saved_state(),
        Operator::Restore => v.restored_state(),
        Operator::Concat => if n >= 6 {
            v.with_ctm(product(matrix_of(operands), ctm))
        } else {
            v
        },
        Operator::BeginText => v.text_begun(),
        Operator::EndText => PageView { in_text_block: false, ..v },
        Operator::Font => v.font_set(operands),
        Operator::Leading => match first_number(operands) {
            Some(x) => PageView { leading: x, ..v },
            None => v,
        },
        Operator::RenderingMode => match first_number(operands) {
            Some(x) => v.with_mode(x.integer_part(i32::MIN as int, i32::MAX as int) as i32),
            None => v,
        },
        Operator::CharSpacing => match first_number(operands) {
            Some(x) => v.with_char_spacing(x),
            None => v,
        },
        Operator::WordSpacing => match first_number(operands) {
            Some(x) => v.with_word_spacing(x),
            None => v,
        },
        Operator::Move { sets_leading } => v.text_moved(operands, sets_leading),
        Operator::TextMatrix => if n >= 6 {
            v.line_set(matrix_of(operands))
        } else {
            v
        },
        Operator::NextLine => v.next_line(),
        Operator::Show => match reply {
            ReplyView::Show { elements, .. } if v.in_text_block && n > 0 => v.string_shown(
                elements[0],
                settings,
            ),
            _ => v,
        },
        Operator::ShowArray => match reply {
            ReplyView::Show { metrics, elements } if v.in_text_block && n > 0
                && operands[0] is Array => v.array_shown(
                operands[0]->Array_0,
                metrics,
                elements,
                settings,
            ),
            _ => v,
        },
        Operator::NextLineShow => match reply {
            ReplyView::Show { elements, .. } if n > 0 => v.next_line().line_shown(
                elements[0],
                settings,
            ),
            _ => v.next_line(),
        },
        Operator::Invoke => match reply {
            ReplyView::Form(items) => v.form_drawn(items),
            ReplyView::Image(img) => v.image_drawn(img, settings),
            _ => v,
        },
        Operator::BeginMark => v.mark_begun(MarkView { actual_text: None, mcid: None }),
        Operator::BeginMarkWith => match reply {
            ReplyView::Mark(mark) => v.mark_begun(mark),
            _ => v,
        },
        Operator::EndMark => v.mark_ended(),
        Operator::Rectangle => if n >= 4 {
            v.with_paths(
                v.paths.with_rectangle(
                    number_at(operands, 0, zero()),
                    number_at(operands, 1, zero()),
                    number_at(operands, 2, zero()),
                    number_at(operands, 3, zero()),
                    ctm,
                    page,
                ),
            )
        } else {
            v
        },
        Operator::MoveTo => if n >= 2 {
            v.with_paths(v.paths.moved_to(point_of(operands)))
        } else {
            v
        },
        Operator::LineTo => if n >= 2 {
            v.with_paths(v.paths.lined_to(point_of(operands)))
        } else {
            v
        },
        Operator::ClosePath => v.with_paths(v.paths.closed_path()),
        Operator::Stroke { close } => v.with_paths(v.paths.stroked(close, ctm, page)),
        Operator::Fill => v.with_paths(v.paths.filled(ctm, page)),
        Operator::Clip => v.with_paths(v.paths.clipped(ctm, page)),
        Operator::EndPath => v.with_paths(v.paths.ended()),
        Operator::Other => v,
    }
}

/// The point that two operands give.
pub open spec fn point_of(operands: Seq<ObjectView>) -> Point {
    Point { x: number_at(operands, 0, zero()), y: number_at(operands, 1, zero()) }
}

/// Whether a reply is of the kind that an operation needs: for shown strings one
/// answer for each string or element, for a mark its properties.
pub open spec fn fits(v: PageView, op: OperationView, reply: ReplyView) -> bool {
    let operands = op.operands;
    match operator(op.operator) {
        Operator::Show => v.in_text_block && operands.len() > 0 ==> (reply matches ReplyView::Show {
            elements,
            ..
        } && elements.len() == 1),
        Operator::ShowArray => v.in_text_block && operands.len() > 0 && operands[0] is Array ==> (
        reply matches ReplyView::Show { elements, .. } && elements.len()
            == operands[0]->Array_0.len()),
        Operator::NextLineShow => operands.len() > 0 ==> (reply matches ReplyView::Show {
            elements,
            ..
        } && elements.len() == 1),
        Operator::BeginMarkWith => reply is Mark,
        _ => true,
    }
}

/// The state in which a page starts: no text, no path, a font size of 12.
pub open spec fn initial_page() -> PageView {
    PageView {
        graphics: GraphicsState {
            ctm: identity(),
            rendering_mode: 0,
            char_spacing: zero(),
            word_spacing: zero(),
        },
        saved: Seq::empty(),
        font: Seq::empty(),
        font_size: Single { bits: TWELVE },
        leading: zero(),
        text_matrix: identity(),
        line_matrix: identity(),
        in_text_block: false,
        votes: RotationVotes { horizontal: 0, rotated: 0 },
        marks: Seq::empty(),
        suppressed: false,
        start_matrix: None,
        glyph_matrix: None,
        items: Seq::empty(),
        images: Seq::empty(),
        paths: no_paths(),
    }
}

/// The number at a place among the operands, or a default.
pub fn read_number(operands: &Vec<PdfObject>, i: usize, default: Single) -> (r: Single)
    requires
        i < operands@.len(),
    ensures
        r == number_at(object_views(operands@), i as int, default),
{
    match get_number(&operands[i]) {
        Some(n) => n,
        None => default,
    }
}

fn read_first(operands: &Vec<PdfObject>) -> (r: Option<Single>)
    ensures
        r == first_number(object_views(operands@)),
{
    if operands.len() > 0 {
        get_number(&operands[0])
    } else {
        None
    }
}

fn read_matrix(operands: &Vec<PdfObject>) -> (r: Matrix)
    requires
        operands@.len() >= 6,
    ensures
        r == matrix_of(object_views(operands@)),
{
    let zero = Single::from_bits(ZERO);
    let one = Single::from_bits(ONE);
    Matrix {
        a: read_number(operands, 0, one),
        b: read_number(operands, 1, zero),
        c: read_number(operands, 2, zero),
        d: read_number(operands, 3, one),
        e: read_number(operands, 4, zero),
        f: read_number(operands, 5, zero),
    }
}

fn read_point(operands: &Vec<PdfObject>) -> (r: Point)
    requires
        operands@.len() >= 2,
    ensures
        r == point_of(object_views(operands@)),
{
    let zero = Single::from_bits(ZERO);
    Point { x: read_number(operands, 0, zero), y: read_number(operands, 1, zero) }
}

fn find_mcid(marks: &Vec<Mark>) -> (r: Option<i64>)
    ensures
        r == current_mcid(mark_views(marks@)),
{
    let ghost views = mark_views(marks@);
    let mut i: usize = marks.len();
    assert(views.take(i as int) =~= views);
    while i > 0
        invariant
            i <= marks@.len(),
            views == mark_views(marks@),
            current_mcid(views) == current_mcid(views.take(i as int)),
        decreases i,
    {
        assert(views.take(i as int).last() == marks@[i - 1]@);
        assert(views.take(i as int).drop_last() =~= views.take(i - 1));
        i = i - 1;
        if let Some(id) = marks[i].mcid {
            return Some(id);
        }
    }
    None
}

fn find_actual_text(marks: &Vec<Mark>) -> (r: bool)
    ensures
        r == any_actual_text(mark_views(marks@)),
{
    let ghost views = mark_views(marks@);
    let mut i: usize = 0;
    while i < marks.len()
        invariant
            i <= marks@.len(),
            views == mark_views(marks@),
            forall|j: int| 0 <= j < i ==> (#[trigger] views[j]).actual_text is None,
        decreases marks@.len() - i,
    {
        assert(views[i as int] == marks@[i as int]@);
        if marks[i].actual_text.is_some() {
            return true;
        }
        i = i + 1;
    }
    false
}

fn vote(votes: &mut RotationVotes, combined: &Matrix)
    requires
        old(votes).horizontal < u32::MAX,
        old(votes).rotated < u32::MAX,
    ensures
        *final(votes) == voted(*old(votes), *combined),
{
    if combined.is_horizontal() {
        votes.horizontal = votes.horizontal + 1;
    } else {
        votes.rotated = votes.rotated + 1;
    }
}

fn find_scale_x(m: &Matrix, ctm: &Matrix) -> (r: Single)
    ensures
        r == scale_x(*m, *ctm),
{
    m.a.mul(ctm.a).add(m.b.mul(ctm.c))
}

impl PageState {
    /// The state in which a page starts.
    pub fn new() -> (r: PageState)
        ensures
            r@ == initial_page(),
    {
        let zero = Single::from_bits(ZERO);
        let r = PageState {
            graphics: GraphicsState {
                ctm: identity(),
                rendering_mode: 0,
                char_spacing: zero,
                word_spacing: zero,
            },
            saved: Vec::new(),
            font: String::new(),
            font_size: Single::from_bits(TWELVE),
            leading: zero,
            text_matrix: identity(),
            line_matrix: identity(),
            in_text_block: false,
            votes: RotationVotes { horizontal: 0, rotated: 0 },
            marks: Vec::new(),
            suppressed: false,
            start_matrix: None,
            glyph_matrix: None,
            items: Vec::new(),
            images: Vec::new(),
            paths: Paths::new(),
        };
        assert(r@ =~= initial_page());
        r
    }

    fn is_hidden(&self, settings: &Settings) -> (r: bool)
        ensures
            r == self@.hidden(*settings),
    {
        self.graphics.rendering_mode == 3 && !settings.include_invisible
    }

    fn advance(&mut self, width: Option<Single>)
        ensures
            final(self)@ == old(self)@.advanced(width),
    {
        if let Some(w) = width {
            self.text_matrix = self.text_matrix.advanced_by(w);
        }
    }

    fn meet_glyph(&mut self)
        ensures
            final(self)@ == old(self)@.glyph_met(),
    {
        if self.glyph_matrix.is_none() {
            self.glyph_matrix = Some(self.text_matrix);
        }
    }

    fn push_shown(
        &mut self,
        text: String,
        at: &Matrix,
        matrix: &Matrix,
        width: Single,
        mcid: Option<i64>,
    )
        ensures
            final(self)@ == (PageView {
                items: old(self)@.items.push(
                    old(self)@.shown(text@, *at, *matrix, width, mcid),
                ),
                ..old(self)@
            }),
    {
        let item = PageItem::Shown(
            ShownText {
                text,
                matrix: *matrix,
                x: at.e,
                y: at.f,
                width,
                font: copy_text(&self.font),
                size: self.font_size,
                mcid,
            },
        );
        let ghost before = self.items@;
        self.items.push(item);
        assert(page_item_views(self.items@) =~= page_item_views(before).push(item@));
        assert(self@ =~= (PageView {
            items: old(self)@.items.push(old(self)@.shown(text@, *at, *matrix, width, mcid)),
            ..old(self)@
        }));
    }

    fn restore(&mut self)
        ensures
            final(self)@ == old(self)@.restored_state(),
    {
        if let Some(graphics) = self.saved.pop() {
            self.graphics = graphics;
        }
        assert(self@ =~= old(self)@.restored_state());
    }

    fn begin_text(&mut self)
        ensures
            final(self)@ == old(self)@.text_begun(),
    {
        self.in_text_block = true;
        self.text_matrix = identity();
        self.line_matrix = identity();
        self.graphics.rendering_mode = 0;
    }

    fn set_font(&mut self, operands: &Vec<PdfObject>)
        ensures
            final(self)@ == old(self)@.font_set(object_views(operands@)),
    {
        if operands.len() >= 2 {
            if let PdfObject::Name(n) = &operands[0] {
                self.font = text_of(n);
            }
            self.font_size = read_number(operands, 1, self.font_size);
        }
    }

    fn move_text(&mut self, operands: &Vec<PdfObject>, sets_leading: bool)
        ensures
            final(self)@ == old(self)@.text_moved(object_views(operands@), sets_leading),
    {
        if operands.len() >= 2 {
            let zero = Single::from_bits(ZERO);
            let tx = read_number(operands, 0, zero);
            let ty = read_number(operands, 1, zero);
            self.line_matrix = self.line_matrix.moved_by(tx, ty);
            self.text_matrix = self.line_matrix;
            if sets_leading {
                self.leading = ty.neg();
            }
        }
    }

    fn start_line(&mut self)
        ensures
            final(self)@ == old(self)@.next_line(),
    {
        let height = if self.leading.equals(Single::from_bits(ZERO)) {
            self.font_size.mul(Single::from_bits(SIX_FIFTHS))
        } else {
            self.leading
        };
        self.line_matrix = self.line_matrix.lowered_by(height);
        self.text_matrix = self.line_matrix;
    }

    fn show_string(&mut self, reply: &ElementReply, settings: &Settings)
        requires
            old(self).votes.horizontal < u32::MAX,
            old(self).votes.rotated < u32::MAX,
        ensures
            final(self)@ == old(self)@.string_shown(reply@, *settings),
    {
        if self.suppressed {
            self.meet_glyph();
            self.advance(reply.width);
        } else if self.is_hidden(settings) {
            self.advance(reply.width);
        } else if let Some(text) = &reply.text {
            let ctm = self.graphics.ctm;
            let combined = multiply_matrices(&self.text_matrix, &ctm);
            vote(&mut self.votes, &combined);
            let width = match reply.width {
                Some(w) => w.mul(find_scale_x(&self.text_matrix, &ctm)).abs(),
                None => Single::from_bits(ZERO),
            };
            self.advance(reply.width);
            if !is_blank_text(text) {
                let mcid = find_mcid(&self.marks);
                self.push_shown(copy_text(text), &combined, &combined, width, mcid);
            }
        }
        assert(self@ =~= old(self)@.string_shown(reply@, *settings));
    }

    fn show_pieces(&mut self, pieces: Vec<Piece>, measured: bool)
        ensures
            final(self)@ == (PageView {
                items: old(self)@.items + old(self)@.piece_items(piece_views(pieces@), measured),
                ..old(self)@
            }),
    {
        let ctm = self.graphics.ctm;
        let tm = self.text_matrix;
        let combined = multiply_matrices(&tm, &ctm);
        let scale = find_scale_x(&tm, &ctm);
        let mcid = find_mcid(&self.marks);
        let ghost before = self@;
        let ghost views = piece_views(pieces@);
        let ghost added = before.piece_items(views, measured);
        let mut i: usize = 0;
        assert(added.take(0) =~= Seq::empty());
        while i < pieces.len()
            invariant
                i <= pieces@.len(),
                views == piece_views(pieces@),
                added == before.piece_items(views, measured),
                ctm == before.graphics.ctm,
                tm == before.text_matrix,
                combined == product(tm, ctm),
                scale == scale_x(tm, ctm),
                mcid == current_mcid(before.marks),
                self@ =~= (PageView { items: before.items + added.take(i as int), ..before }),
            decreases pieces@.len() - i,
        {
            let piece = &pieces[i];
            assert(views[i as int] == piece@);
            let at = multiply_matrices(&tm.advanced_by(piece.start), &ctm);
            let width = if measured {
                piece.end.sub(piece.start).mul(scale).abs()
            } else {
                Single::from_bits(ZERO)
            };
            self.push_shown(copy_text(&piece.text), &at, &combined, width, mcid);
            assert(added.take(i + 1) =~= added.take(i as int).push(added[i as int]));
            i = i + 1;
        }
        assert(added.take(i as int) =~= added);
    }

    fn show_array(
        &mut self,
        elements: &Vec<PdfObject>,
        metrics: &Option<FontMetrics>,
        replies: &Vec<ElementReply>,
        settings: &Settings,
    )
        requires
            old(self).votes.horizontal < u32::MAX,
            old(self).votes.rotated < u32::MAX,
            replies@.len() == elements@.len(),
        ensures
            final(self)@ == old(self)@.array_shown(
                object_views(elements@),
                *metrics,
                reply_views(replies@),
                *settings,
            ),
    {
        let visible = !(self.is_hidden(settings) || self.suppressed);
        let layout = Layout {
            size: self.font_size,
            space: find_space_threshold(metrics),
            visible,
        };
        let (pieces, total) = lay_out(elements, replies, &layout);
        if self.suppressed {
            self.meet_glyph();
        }
        if pieces.len() > 0 {
            let combined = multiply_matrices(&self.text_matrix, &self.graphics.ctm);
            vote(&mut self.votes, &combined);
        }
        self.show_pieces(pieces, metrics.is_some());
        if metrics.is_some() {
            self.advance(Some(total));
        }
        assert(self@ =~= old(self)@.array_shown(
            object_views(elements@),
            *metrics,
            reply_views(replies@),
            *settings,
        ));
    }

    fn show_line(&mut self, reply: &ElementReply, settings: &Settings)
        requires
            old(self).votes.horizontal < u32::MAX,
            old(self).votes.rotated < u32::MAX,
        ensures
            final(self)@ == old(self)@.line_shown(reply@, *settings),
    {
        if !(self.is_hidden(settings) || self.suppressed) {
            if let Some(text) = &reply.text {
                if !is_blank_text(text) {
                    let combined = multiply_matrices(&self.text_matrix, &self.graphics.ctm);
                    vote(&mut self.votes, &combined);
                    let mcid = find_mcid(&self.marks);
                    self.push_shown(
                        copy_text(text),
                        &combined,
                        &combined,
                        Single::from_bits(ZERO),
                        mcid,
                    );
                }
            }
        }
    }

    fn draw_form(&mut self, items: Vec<TextItem>)
        ensures
            final(self)@ == old(self)@.form_drawn(item_views(items@)),
    {
        let ghost before = self@;
        let ghost given = items@;
        let ghost all = ready_items(item_views(given));
        assert(all.take(0) =~= Seq::empty());
        for item in it: items.into_iter()
            invariant
                it.seq() == given,
                all == ready_items(item_views(given)),
                self@ =~= (PageView {
                    items: before.items + all.take(it.index() as int),
                    ..before
                }),
        {
            let ghost items0 = self.items@;
            let ready = PageItem::Ready(item);
            self.items.push(ready);
            assert(page_item_views(self.items@) =~= page_item_views(items0).push(ready@));
            assert(all.take(it.index() + 1) =~= all.take(it.index() as int).push(ready@));
        }
        assert(all.take(given.len() as int) =~= all);
    }

    fn draw_image(&mut self, img: ExtractedImage, settings: &Settings)
        ensures
            final(self)@ == old(self)@.image_drawn(img, *settings),
    {
        let ctm = self.graphics.ctm;
        let item = PageItem::Ready(
            TextItem {
                text: decimal_text(self.images.len()),
                x: ctm.e,
                y: ctm.f,
                width: Single::from_u64(img.width as u64),
                height: Single::from_u64(img.height as u64),
                font: String::new(),
                font_size: Single::from_bits(ZERO),
                page: settings.page,
                is_bold: false,
                is_italic: false,
                item_type: ItemType::Image,
                mcid: None,
            },
        );
        let ghost before = self.items@;
        self.items.push(item);
        assert(page_item_views(self.items@) =~= page_item_views(before).push(item@));
        self.images.push(img);
        assert(item@->Ready_0.font =~= Seq::empty());
        assert(self@ =~= old(self)@.image_drawn(img, *settings));
    }

    fn begin_mark(&mut self, mark: Mark)
        ensures
            final(self)@ == old(self)@.mark_begun(mark@),
    {
        if mark.actual_text.is_some() {
            self.suppressed = true;
            self.start_matrix = Some(self.text_matrix);
            self.glyph_matrix = None;
        }
        let ghost before = self.marks@;
        self.marks.push(mark);
        assert(mark_views(self.marks@) =~= mark_views(before).push(mark@));
        assert(self@ =~= old(self)@.mark_begun(mark@));
    }

    fn show_actual_text(&mut self, text: String, mcid: Option<i64>)
        requires
            old(self).votes.horizontal < u32::MAX,
            old(self).votes.rotated < u32::MAX,
        ensures
            final(self)@ == old(self)@.actual_text_shown(text@, mcid),
    {
        let at = if self.glyph_matrix.is_some() {
            self.glyph_matrix
        } else {
            self.start_matrix
        };
        self.glyph_matrix = None;
        self.start_matrix = None;
        if let Some(start) = at {
            let ctm = self.graphics.ctm;
            let combined = multiply_matrices(&start, &ctm);
            vote(&mut self.votes, &combined);
            let width = self.text_matrix.e.sub(start.e).mul(find_scale_x(&start, &ctm)).abs();
            if !is_blank_text(&text) {
                self.push_shown(text, &combined, &combined, width, mcid);
            }
        }
    }

    fn end_mark(&mut self)
        requires
            old(self).votes.horizontal < u32::MAX,
            old(self).votes.rotated < u32::MAX,
        ensures
            final(self)@ == old(self)@.mark_ended(),
    {
        let ghost before = self.marks@;
        if let Some(mark) = self.marks.pop() {
            assert(mark_views(self.marks@) =~= mark_views(before).drop_last());
            assert(mark_views(before).last() == mark@);
            if let Some(text) = mark.actual_text {
                let mcid = match mark.mcid {
                    Some(id) => Some(id),
                    None => find_mcid(&self.marks),
                };
                self.show_actual_text(text, mcid);
                self.suppressed = find_actual_text(&self.marks);
            }
        }
        assert(self@ =~= old(self)@.mark_ended());
    }

    /// Does what an operation does, with the reply to what it needs.
    pub fn step(&mut self, op: &Operation, reply: Reply, settings: &Settings)
        requires
            fits(old(self)@, op@, reply@),
            old(self).votes.horizontal < u32::MAX,
            old(self).votes.rotated < u32::MAX,
        ensures
            final(self)@ == stepped(old(self)@, op@, reply@, *settings),
    {
        let operands = &op.operands;
        let ghost views = object_views(operands@);
        let n: usize = operands.len();
        let page: u32 = settings.page;
        let ctm = self.graphics.ctm;
        let zero = Single::from_bits(ZERO);
        match find_operator(op.operator.as_str()) {
            Operator::Save => {
                self.saved.push(self.graphics);
            },
            Operator::Restore => self.restore(),
            Operator::Concat => {
                if n >= 6 {
                    self.graphics.ctm = multiply_matrices(&read_matrix(operands), &ctm);
                }
            },
            Operator::BeginText => self.begin_text(),
            Operator::EndText => {
                self.in_text_block = false;
            },
            Operator::Font => self.set_font(operands),
            Operator::Leading => {
                if let Some(x) = read_first(operands) {
                    self.leading = x;
                }
            },
            Operator::RenderingMode => {
                if let Some(x) = read_first(operands) {
                    self.graphics.rendering_mode = x.to_i32();
                }
            },
            Operator::CharSpacing => {
                if let Some(x) = read_first(operands) {
                    self.graphics.char_spacing = x;
                }
            },
            Operator::WordSpacing => {
                if let Some(x) = read_first(operands) {
                    self.graphics.word_spacing = x;
                }
            },
            Operator::Move { sets_leading } => self.move_text(operands, sets_leading),
            Operator::TextMatrix => {
                if n >= 6 {
                    self.text_matrix = read_matrix(operands);
                    self.line_matrix = self.text_matrix;
                }
            },
            Operator::NextLine => self.start_line(),
            Operator::Show => {
                if self.in_text_block && n > 0 {
                    if let Reply::Show { elements, .. } = &reply {
                        self.show_string(&elements[0], settings);
                    }
                }
            },
            Operator::ShowArray => {
                if self.in_text_block && n > 0 {
                    if let PdfObject::Array(array) = &operands[0] {
                        assert(object_views(array@) =~= views[0]->Array_0);
                        if let Reply::Show { metrics, elements } = &reply {
                            self.show_array(array, metrics, elements, settings);
                        }
                    }
                }
            },
            Operator::NextLineShow => {
                self.start_line();
                if n > 0 {
                    if let Reply::Show { elements, .. } = &reply {
                        self.show_line(&elements[0], settings);
                    }
                }
            },
            Operator::Invoke => {
                match reply {
                    Reply::Form(items) => self.draw_form(items),
                    Reply::Image(img) => self.draw_image(img, settings),
                    _ => {},
                }
            },
            Operator::BeginMark => self.begin_mark(Mark { actual_text: None, mcid: None }),
            Operator::BeginMarkWith => {
                if let Reply::Mark(mark) = reply {
                    self.begin_mark(mark);
                }
            },
            Operator::EndMark => self.end_mark(),
            Operator::Rectangle => {
                if n >= 4 {
                    self.paths.rectangle(
                        read_number(operands, 0, zero),
                        read_number(operands, 1, zero),
                        read_number(operands, 2, zero),
                        read_number(operands, 3, zero),
                        &ctm,
                        page,
                    );
                }
            },
            Operator::MoveTo => {
                if n >= 2 {
                    self.paths.move_to(read_point(operands));
                }
            },
            Operator::LineTo => {
                if n >= 2 {
                    self.paths.line_to(read_point(operands));
                }
            },
            Operator::ClosePath => self.paths.close(),
            Operator::Stroke { close } => self.paths.stroke(close, &ctm, page),
            Operator::Fill => self.paths.fill(&ctm, page),
            Operator::Clip => self.paths.clip(&ctm, page),
            Operator::EndPath => self.paths.end(),
            Operator::Other => {},
        }
        assert(self@ =~= stepped(old(self)@, op@, reply@, *settings));
    }
}

} // verus!
