//! Laws of the spellings of operators.

use crate::object::{ObjectView, OperationView};
use crate::operators::{operator, Operator};
use crate::page::{stepped, PageView, ReplyView, Settings};
use vstd::prelude::*;

verus! {

/// What every operator is spelled as.
pub proof fn lemma_spellings()
    ensures
        operator("q"@) == Operator::Save,
        operator("Q"@) == Operator::Restore,
        operator("cm"@) == Operator::Concat,
        operator("BT"@) == Operator::BeginText,
        operator("ET"@) == Operator::EndText,
        operator("Tf"@) == Operator::Font,
        operator("TL"@) == Operator::Leading,
        operator("Tr"@) == Operator::RenderingMode,
        operator("Tc"@) == Operator::CharSpacing,
        operator("Tw"@) == Operator::WordSpacing,
        operator("Td"@) == (Operator::Move { sets_leading: false }),
        operator("TD"@) == (Operator::Move { sets_leading: true }),
        operator("Tm"@) == Operator::TextMatrix,
        operator("T*"@) == Operator::NextLine,
        operator("Tj"@) == Operator::Show,
        operator("TJ"@) == Operator::ShowArray,
        operator("'"@) == Operator::NextLineShow,
        operator("Do"@) == Operator::Invoke,
        operator("BMC"@) == Operator::BeginMark,
        operator("BDC"@) == Operator::BeginMarkWith,
        operator("EMC"@) == Operator::EndMark,
        operator("re"@) == Operator::Rectangle,
        operator("m"@) == Operator::MoveTo,
        operator("l"@) == Operator::LineTo,
        operator("h"@) == Operator::ClosePath,
        operator("S"@) == (Operator::Stroke { close: false }),
        operator("B"@) == (Operator::Stroke { close: false }),
        operator("B*"@) == (Operator::Stroke { close: false }),
        operator("s"@) == (Operator::Stroke { close: true }),
        operator("b"@) == (Operator::Stroke { close: true }),
        operator("b*"@) == (Operator::Stroke { close: true }),
        operator("f"@) == Operator::Fill,
        operator("F"@) == Operator::Fill,
        operator("f*"@) == Operator::Fill,
        operator("W"@) == Operator::Clip,
        operator("W*"@) == Operator::Clip,
        operator("n"@) == Operator::EndPath,
{
    reveal_strlit("q");
    assert("q"@.len() == 1 && "q"@[0] == 'q');
    reveal_strlit("Q");
    assert("Q"@.len() == 1 && "Q"@[0] == 'Q');
    reveal_strlit("cm");
    assert("cm"@.len() == 2 && "cm"@[0] == 'c' && "cm"@[1] == 'm');
    reveal_strlit("BT");
    assert("BT"@.len() == 2 && "BT"@[0] == 'B' && "BT"@[1] == 'T');
    reveal_strlit("ET");
    assert("ET"@.len() == 2 && "ET"@[0] == 'E' && "ET"@[1] == 'T');
    reveal_strlit("Tf");
    assert("Tf"@.len() == 2 && "Tf"@[0] == 'T' && "Tf"@[1] == 'f');
    reveal_strlit("TL");
    assert("TL"@.len() == 2 && "TL"@[0] == 'T' && "TL"@[1] == 'L');
    reveal_strlit("Tr");
    assert("Tr"@.len() == 2 && "Tr"@[0] == 'T' && "Tr"@[1] == 'r');
    reveal_strlit("Tc");
    assert("Tc"@.len() == 2 && "Tc"@[0] == 'T' && "Tc"@[1] == 'c');
    reveal_strlit("Tw");
    assert("Tw"@.len() == 2 && "Tw"@[0] == 'T' && "Tw"@[1] == 'w');
    reveal_strlit("Td");
    assert("Td"@.len() == 2 && "Td"@[0] == 'T' && "Td"@[1] == 'd');
    reveal_strlit("TD");
    assert("TD"@.len() == 2 && "TD"@[0] == 'T' && "TD"@[1] == 'D');
    reveal_strlit("Tm");
    assert("Tm"@.len() == 2 && "Tm"@[0] == 'T' && "Tm"@[1] == 'm');
    reveal_strlit("T*");
    assert("T*"@.len() == 2 && "T*"@[0] == 'T' && "T*"@[1] == '*');
    reveal_strlit("Tj");
    assert("Tj"@.len() == 2 && "Tj"@[0] == 'T' && "Tj"@[1] == 'j');
    reveal_strlit("TJ");
    assert("TJ"@.len() == 2 && "TJ"@[0] == 'T' && "TJ"@[1] == 'J');
    reveal_strlit("'");
    assert("'"@.len() == 1 && "'"@[0] == '\'');
    reveal_strlit("Do");
    assert("Do"@.len() == 2 && "Do"@[0] == 'D' && "Do"@[1] == 'o');
    reveal_strlit("BMC");
    assert("BMC"@.len() == 3 && "BMC"@[0] == 'B' && "BMC"@[1] == 'M' && "BMC"@[2] == 'C');
    reveal_strlit("BDC");
    assert("BDC"@.len() == 3 && "BDC"@[0] == 'B' && "BDC"@[1] == 'D' && "BDC"@[2] == 'C');
    reveal_strlit("EMC");
    assert("EMC"@.len() == 3 && "EMC"@[0] == 'E' && "EMC"@[1] == 'M' && "EMC"@[2] == 'C');
    reveal_strlit("re");
    assert("re"@.len() == 2 && "re"@[0] == 'r' && "re"@[1] == 'e');
    reveal_strlit("m");
    assert("m"@.len() == 1 && "m"@[0] == 'm');
    reveal_strlit("l");
    assert("l"@.len() == 1 && "l"@[0] == 'l');
    reveal_strlit("h");
    assert("h"@.len() == 1 && "h"@[0] == 'h');
    reveal_strlit("S");
    assert("S"@.len() == 1 && "S"@[0] == 'S');
    reveal_strlit("B");
    assert("B"@.len() == 1 && "B"@[0] == 'B');
    reveal_strlit("B*");
    assert("B*"@.len() == 2 && "B*"@[0] == 'B' && "B*"@[1] == '*');
    reveal_strlit("s");
    assert("s"@.len() == 1 && "s"@[0] == 's');
    reveal_strlit("b");
    assert("b"@.len() == 1 && "b"@[0] == 'b');
    reveal_strlit("b*");
    assert("b*"@.len() == 2 && "b*"@[0] == 'b' && "b*"@[1] == '*');
    reveal_strlit("f");
    assert("f"@.len() == 1 && "f"@[0] == 'f');
    reveal_strlit("F");
    assert("F"@.len() == 1 && "F"@[0] == 'F');
    reveal_strlit("f*");
    assert("f*"@.len() == 2 && "f*"@[0] == 'f' && "f*"@[1] == '*');
    reveal_strlit("W");
    assert("W"@.len() == 1 && "W"@[0] == 'W');
    reveal_strlit("W*");
    assert("W*"@.len() == 2 && "W*"@[0] == 'W' && "W*"@[1] == '*');
    reveal_strlit("n");
    assert("n"@.len() == 1 && "n"@[0] == 'n');
}

/// Whether two operations do the same from every state: the one for the other, with
/// the same operands and the same reply.
pub open spec fn do_the_same(one: Seq<char>, other: Seq<char>) -> bool {
    forall|v: PageView, operands: Seq<ObjectView>, reply: ReplyView, settings: Settings|
        #![trigger stepped(v, OperationView { operator: one, operands }, reply, settings)]
        stepped(v, OperationView { operator: one, operands }, reply, settings) == stepped(
            v,
            OperationView { operator: other, operands },
            reply,
            settings,
        )
}

/// The rules by which a path is filled, or clips, make no difference, nor does filling
/// a path that is stroked: `F` and `f*` do what `f` does, `W*` what `W` does, `B` and
/// `B*` what `S` does, and `b` and `b*` what `s` does, from every state.
pub proof fn law_spellings_of_the_same()
    ensures
        do_the_same("F"@, "f"@),
        do_the_same("f*"@, "f"@),
        do_the_same("W*"@, "W"@),
        do_the_same("B"@, "S"@),
        do_the_same("B*"@, "S"@),
        do_the_same("b"@, "s"@),
        do_the_same("b*"@, "s"@),
{
    lemma_spellings();
}

/// Whether a text spells an operator that leaves a trace on a page.
pub open spec fn is_known(t: Seq<char>) -> bool {
    ||| t == "q"@
    ||| t == "Q"@
    ||| t == "cm"@
    ||| t == "BT"@
    ||| t == "ET"@
    ||| t == "Tf"@
    ||| t == "TL"@
    ||| t == "Tr"@
    ||| t == "Tc"@
    ||| t == "Tw"@
    ||| t == "Td"@
    ||| t == "TD"@
    ||| t == "Tm"@
    ||| t == "T*"@
    ||| t == "Tj"@
    ||| t == "TJ"@
    ||| t == "'"@
    ||| t == "Do"@
    ||| t == "BMC"@
    ||| t == "BDC"@
    ||| t == "EMC"@
    ||| t == "re"@
    ||| t == "m"@
    ||| t == "l"@
    ||| t == "h"@
    ||| t == "S"@
    ||| t == "B"@
    ||| t == "B*"@
    ||| t == "s"@
    ||| t == "b"@
    ||| t == "b*"@
    ||| t == "f"@
    ||| t == "F"@
    ||| t == "f*"@
    ||| t == "W"@
    ||| t == "W*"@
    ||| t == "n"@
}

/// Any other operator is skipped: the page stays as it is.
pub proof fn law_others_are_skipped(
    v: PageView,
    op: OperationView,
    reply: ReplyView,
    settings: Settings,
)
    requires
        !is_known(op.operator),
    ensures
        stepped(v, op, reply, settings) == v,
{
}

} // verus!
