//! Laws of the turning of a page.

use crate::geometry::{turned_item, turned_line, PdfLine, TextItemView};
use crate::single::{Single, HALF};
use vstd::prelude::*;

verus! {

/// Negating twice changes nothing.
pub proof fn law_negated_twice(x: Single)
    ensures
        x.negated().negated() == x,
{
}

/// Four turns bring a line back to where it was.
pub proof fn law_four_turns_of_a_line(line: PdfLine)
    ensures
        turned_line(turned_line(turned_line(turned_line(line)))) == line,
{
    law_negated_twice(line.x1);
    law_negated_twice(line.y1);
    law_negated_twice(line.x2);
    law_negated_twice(line.y2);
}

/// Four turns bring an item back to where it was, where its width is known.
pub proof fn law_four_turns_of_an_item(item: TextItemView)
    requires
        !item.width.less_than(Single { bits: HALF }),
    ensures
        turned_item(turned_item(turned_item(turned_item(item)))) == item,
{
    law_negated_twice(item.x);
    law_negated_twice(item.y);
}

} // verus!
