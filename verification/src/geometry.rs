//! What a page holds: text items, rectangles and lines, and the matrices that
//! place them.

use crate::single::{single_of_int, Single, HALF, ONE, ZERO};
use vstd::prelude::*;

verus! {

/// A transformation `[a b c d e f]` of PDF.
#[derive(Clone, Copy, Debug, PartialEq, Eq, Structural)]
pub struct Matrix {
    pub a: Single,
    pub b: Single,
    pub c: Single,
    pub d: Single,
    pub e: Single,
    pub f: Single,
}

/// The matrix that leaves points as they are.
#[verifier::allow_in_spec]
pub fn identity() -> (r: Matrix)
    returns
        (Matrix {
            a: Single { bits: ONE },
            b: Single { bits: ZERO },
            c: Single { bits: ZERO },
            d: Single { bits: ONE },
            e: Single { bits: ZERO },
            f: Single { bits: ZERO },
        }),
{
    Matrix {
        a: Single { bits: ONE },
        b: Single { bits: ZERO },
        c: Single { bits: ZERO },
        d: Single { bits: ONE },
        e: Single { bits: ZERO },
        f: Single { bits: ZERO },
    }
}

/// The product of two matrices: `m` first, then `n`.
pub open spec fn product(m: Matrix, n: Matrix) -> Matrix {
    Matrix {
        a: m.a.times(n.a).plus(m.b.times(n.c)),
        b: m.a.times(n.b).plus(m.b.times(n.d)),
        c: m.c.times(n.a).plus(m.d.times(n.c)),
        d: m.c.times(n.b).plus(m.d.times(n.d)),
        e: m.e.times(n.a).plus(m.f.times(n.c)).plus(n.e),
        f: m.e.times(n.b).plus(m.f.times(n.d)).plus(n.f),
    }
}

/// The product of two matrices: `m` first, then `n`.
pub fn multiply_matrices(m: &Matrix, n: &Matrix) -> (r: Matrix)
    ensures
        r == product(*m, *n),
{
    Matrix {
        a: m.a.mul(n.a).add(m.b.mul(n.c)),
        b: m.a.mul(n.b).add(m.b.mul(n.d)),
        c: m.c.mul(n.a).add(m.d.mul(n.c)),
        d: m.c.mul(n.b).add(m.d.mul(n.d)),
        e: m.e.mul(n.a).add(m.f.mul(n.c)).add(n.e),
        f: m.e.mul(n.b).add(m.f.mul(n.d)).add(n.f),
    }
}

impl Matrix {
    /// The x coordinate of the image of a point.
    pub open spec fn image_x(self, x: Single, y: Single) -> Single {
        x.times(self.a).plus(y.times(self.c)).plus(self.e)
    }

    /// The y coordinate of the image of a point.
    pub open spec fn image_y(self, x: Single, y: Single) -> Single {
        x.times(self.b).plus(y.times(self.d)).plus(self.f)
    }

    /// The image of a point.
    pub fn apply(&self, x: Single, y: Single) -> (r: (Single, Single))
        ensures
            r == (self.image_x(x, y), self.image_y(x, y)),
    {
        (x.mul(self.a).add(y.mul(self.c)).add(self.e), x.mul(self.b).add(y.mul(self.d)).add(self.f))
    }

    /// The matrix moved by `(x, y)`, measured along its own axes.
    pub open spec fn moved(self, x: Single, y: Single) -> Matrix {
        Matrix {
            e: self.e.plus(x.times(self.a).plus(y.times(self.c))),
            f: self.f.plus(x.times(self.b).plus(y.times(self.d))),
            ..self
        }
    }

    /// The matrix moved by `w` along its first axis.
    pub open spec fn advanced(self, w: Single) -> Matrix {
        Matrix { e: self.e.plus(w.times(self.a)), f: self.f.plus(w.times(self.b)), ..self }
    }

    /// The matrix moved by `-h` along its second axis.
    pub open spec fn lowered(self, h: Single) -> Matrix {
        Matrix {
            e: self.e.plus(h.negated().times(self.c)),
            f: self.f.plus(h.negated().times(self.d)),
            ..self
        }
    }

    /// Whether text along the first axis runs horizontally rather than turned.
    pub open spec fn runs_horizontally(self) -> bool {
        self.a.absolute().at_least(self.b.absolute())
    }

    pub fn moved_by(&self, x: Single, y: Single) -> (r: Matrix)
        ensures
            r == self.moved(x, y),
    {
        Matrix {
            a: self.a,
            b: self.b,
            c: self.c,
            d: self.d,
            e: self.e.add(x.mul(self.a).add(y.mul(self.c))),
            f: self.f.add(x.mul(self.b).add(y.mul(self.d))),
        }
    }

    pub fn advanced_by(&self, w: Single) -> (r: Matrix)
        ensures
            r == self.advanced(w),
    {
        Matrix {
            a: self.a,
            b: self.b,
            c: self.c,
            d: self.d,
            e: self.e.add(w.mul(self.a)),
            f: self.f.add(w.mul(self.b)),
        }
    }

    pub fn lowered_by(&self, h: Single) -> (r: Matrix)
        ensures
            r == self.lowered(h),
    {
        Matrix {
            a: self.a,
            b: self.b,
            c: self.c,
            d: self.d,
            e: self.e.add(h.neg().mul(self.c)),
            f: self.f.add(h.neg().mul(self.d)),
        }
    }

    pub fn is_horizontal(&self) -> (r: bool)
        ensures
            r == self.runs_horizontally(),
    {
        self.a.abs().ge(self.b.abs())
    }
}

/// A rectangle on a page; width and height may be negative.
#[derive(Clone, Copy, Debug, PartialEq, Eq, Structural)]
pub struct PdfRect {
    pub x: Single,
    pub y: Single,
    pub width: Single,
    pub height: Single,
    pub page: u32,
}

/// A line segment on a page.
#[derive(Clone, Copy, Debug, PartialEq, Eq, Structural)]
pub struct PdfLine {
    pub x1: Single,
    pub y1: Single,
    pub x2: Single,
    pub y2: Single,
    pub page: u32,
}

/// What a text item stands for.
#[derive(Clone, Copy, Debug, PartialEq, Eq, Structural)]
pub enum ItemType {
    /// Text that the page shows.
    Text,
    /// The place of an image; the text is its index.
    Image,
}

/// A piece of text with its place on the page.
pub struct TextItem {
    pub text: String,
    pub x: Single,
    pub y: Single,
    pub width: Single,
    pub height: Single,
    pub font: String,
    pub font_size: Single,
    pub page: u32,
    pub is_bold: bool,
    pub is_italic: bool,
    pub item_type: ItemType,
    pub mcid: Option<i64>,
}

/// What a `TextItem` holds.
pub struct TextItemView {
    pub text: Seq<char>,
    pub x: Single,
    pub y: Single,
    pub width: Single,
    pub height: Single,
    pub font: Seq<char>,
    pub font_size: Single,
    pub page: u32,
    pub is_bold: bool,
    pub is_italic: bool,
    pub item_type: ItemType,
    pub mcid: Option<i64>,
}

impl View for TextItem {
    type V = TextItemView;

    open spec fn view(&self) -> TextItemView {
        TextItemView {
            text: self.text@,
            x: self.x,
            y: self.y,
            width: self.width,
            height: self.height,
            font: self.font@,
            font_size: self.font_size,
            page: self.page,
            is_bold: self.is_bold,
            is_italic: self.is_italic,
            item_type: self.item_type,
            mcid: self.mcid,
        }
    }
}

/// What items hold.
pub open spec fn item_views(items: Seq<TextItem>) -> Seq<TextItemView> {
    Seq::new(items.len(), |i: int| items[i]@)
}

/// Counts of shown texts that run horizontally and of those that are turned.
#[derive(Clone, Copy, Debug, PartialEq, Eq, Structural)]
pub struct RotationVotes {
    pub horizontal: u32,
    pub rotated: u32,
}

/// Whether at least two thirds of the votes are for turned text.
pub open spec fn mostly_rotated(votes: RotationVotes) -> bool {
    votes.horizontal + votes.rotated > 0 && votes.rotated * 3 >= (votes.horizontal + votes.rotated)
        * 2
}

/// An item on the page turned upright. Its width, where it is missing, is
/// estimated as half the font size for each character.
pub open spec fn turned_item(item: TextItemView) -> TextItemView {
    TextItemView {
        x: item.y,
        y: item.x.negated(),
        width: if item.width.less_than(Single { bits: HALF }) {
            single_of_int(item.text.len() as int).times(item.font_size).times(
                Single { bits: HALF },
            )
        } else {
            item.width
        },
        ..item
    }
}

/// A rectangle on the page turned upright.
pub open spec fn turned_rect(rect: PdfRect) -> PdfRect {
    PdfRect {
        x: rect.y,
        y: rect.x.plus(rect.width.absolute()).negated(),
        width: rect.height,
        height: rect.width,
        page: rect.page,
    }
}

/// A line on the page turned upright.
pub open spec fn turned_line(line: PdfLine) -> PdfLine {
    PdfLine {
        x1: line.y1,
        y1: line.x1.negated(),
        x2: line.y2,
        y2: line.x2.negated(),
        page: line.page,
    }
}

fn turn_item(item: &mut TextItem)
    ensures
        final(item)@ == turned_item(old(item)@),
{
    let x = item.y;
    let y = item.x.neg();
    item.x = x;
    item.y = y;
    if item.width.lt(Single::from_bits(HALF)) {
        let count: usize = item.text.as_str().unicode_len();
        item.width = Single::from_u64(count as u64).mul(item.font_size).mul(
            Single::from_bits(HALF),
        );
    }
}

/// Turns a page upright whose text is mostly turned by 90 degrees: x and y change
/// places, and the flag says so.
///
/// A page with fewer than two items, without votes, or with less than two thirds
/// of them for turned text stays as it is.
pub fn correct_rotated_page(
    items: Vec<TextItem>,
    rects: Vec<PdfRect>,
    lines: Vec<PdfLine>,
    votes: &RotationVotes,
) -> (r: (Vec<TextItem>, Vec<PdfRect>, Vec<PdfLine>, bool))
    ensures
        r.3 == (items@.len() >= 2 && mostly_rotated(*votes)),
        r.3 ==> {
            &&& item_views(r.0@) == item_views(items@).map_values(|v: TextItemView| turned_item(v))
            &&& r.1@ == rects@.map_values(|v: PdfRect| turned_rect(v))
            &&& r.2@ == lines@.map_values(|v: PdfLine| turned_line(v))
        },
        !r.3 ==> r.0 == items && r.1 == rects && r.2 == lines,
{
    if items.len() < 2 {
        return (items, rects, lines, false);
    }
    let total: u64 = votes.horizontal as u64 + votes.rotated as u64;
    if total == 0 || (votes.rotated as u64) * 3 < total * 2 {
        return (items, rects, lines, false);
    }
    let mut items = items;
    let mut rects = rects;
    let mut lines = lines;
    let ghost items0 = items@;
    let ghost rects0 = rects@;
    let ghost lines0 = lines@;
    let mut i: usize = 0;
    while i < items.len()
        invariant
            i <= items@.len(),
            items@.len() == items0.len(),
            forall|j: int| 0 <= j < i ==> (#[trigger] items@[j])@ == turned_item(items0[j]@),
            forall|j: int| i <= j < items@.len() ==> items@[j] == items0[j],
        decreases items@.len() - i,
    {
        turn_item(&mut items[i]);
        i = i + 1;
    }
    let mut j: usize = 0;
    while j < rects.len()
        invariant
            j <= rects@.len(),
            rects@.len() == rects0.len(),
            forall|k: int| 0 <= k < j ==> rects@[k] == turned_rect(rects0[k]),
            forall|k: int| j <= k < rects@.len() ==> rects@[k] == rects0[k],
        decreases rects@.len() - j,
    {
        let rect = rects[j];
        rects[j] = PdfRect {
            x: rect.y,
            y: rect.x.add(rect.width.abs()).neg(),
            width: rect.height,
            height: rect.width,
            page: rect.page,
        };
        j = j + 1;
    }
    let mut k: usize = 0;
    while k < lines.len()
        invariant
            k <= lines@.len(),
            lines@.len() == lines0.len(),
            forall|m: int| 0 <= m < k ==> lines@[m] == turned_line(lines0[m]),
            forall|m: int| k <= m < lines@.len() ==> lines@[m] == lines0[m],
        decreases lines@.len() - k,
    {
        let line = lines[k];
        lines[k] = PdfLine {
            x1: line.y1,
            y1: line.x1.neg(),
            x2: line.y2,
            y2: line.x2.neg(),
            page: line.page,
        };
        k = k + 1;
    }
    assert(item_views(items@) =~= item_views(items0).map_values(|v: TextItemView| turned_item(v)));
    assert(rects@ =~= rects0.map_values(|v: PdfRect| turned_rect(v)));
    assert(lines@ =~= lines0.map_values(|v: PdfLine| turned_line(v)));
    (items, rects, lines, true)
}

} // verus!
