//! The operators of content streams.

use crate::bytes::same_text;
use vstd::prelude::*;

verus! {

/// The operators of content streams that leave a trace; all others are skipped.
#[derive(Clone, Copy, Debug, PartialEq, Eq, Structural)]
pub enum Operator {
    /// `q`
    Save,
    /// `Q`
    Restore,
    /// `cm`
    Concat,
    /// `BT`
    BeginText,
    /// `ET`
    EndText,
    /// `Tf`
    Font,
    /// `TL`
    Leading,
    /// `Tr`
    RenderingMode,
    /// `Tc`
    CharSpacing,
    /// `Tw`
    WordSpacing,
    /// `Td`, and `TD`, which sets the leading
    Move { sets_leading: bool },
    /// `Tm`
    TextMatrix,
    /// `T*`
    NextLine,
    /// `Tj`
    Show,
    /// `TJ`
    ShowArray,
    /// `'`
    NextLineShow,
    /// `Do`
    Invoke,
    /// `BMC`
    BeginMark,
    /// `BDC`
    BeginMarkWith,
    /// `EMC`
    EndMark,
    /// `re`
    Rectangle,
    /// `m`
    MoveTo,
    /// `l`
    LineTo,
    /// `h`
    ClosePath,
    /// `S`, `B`, `B*`, and `s`, `b`, `b*`, which close the path
    Stroke { close: bool },
    /// `f`, `F`, `f*`
    Fill,
    /// `W`, `W*`
    Clip,
    /// `n`
    EndPath,
    Other,
}

/// The operator that a text spells.
pub open spec fn operator(t: Seq<char>) -> Operator {
    if t == "q"@ {
        Operator::Save
    } else if t == "Q"@ {
        Operator::Restore
    } else if t == "cm"@ {
        Operator::Concat
    } else if t == "BT"@ {
        Operator::BeginText
    } else if t == "ET"@ {
        Operator::EndText
    } else if t == "Tf"@ {
        Operator::Font
    } else if t == "TL"@ {
        Operator::Leading
    } else if t == "Tr"@ {
        Operator::RenderingMode
    } else if t == "Tc"@ {
        Operator::CharSpacing
    } else if t == "Tw"@ {
        Operator::WordSpacing
    } else if t == "Td"@ {
        Operator::Move { sets_leading: false }
    } else if t == "TD"@ {
        Operator::Move { sets_leading: true }
    } else if t == "Tm"@ {
        Operator::TextMatrix
    } else if t == "T*"@ {
        Operator::NextLine
    } else if t == "Tj"@ {
        Operator::Show
    } else if t == "TJ"@ {
        Operator::ShowArray
    } else if t == "'"@ {
        Operator::NextLineShow
    } else if t == "Do"@ {
        Operator::Invoke
    } else if t == "BMC"@ {
        Operator::BeginMark
    } else if t == "BDC"@ {
        Operator::BeginMarkWith
    } else if t == "EMC"@ {
        Operator::EndMark
    } else if t == "re"@ {
        Operator::Rectangle
    } else if t == "m"@ {
        Operator::MoveTo
    } else if t == "l"@ {
        Operator::LineTo
    } else if t == "h"@ {
        Operator::ClosePath
    } else if t == "S"@ || t == "B"@ || t == "B*"@ {
        Operator::Stroke { close: false }
    } else if t == "s"@ || t == "b"@ || t == "b*"@ {
        Operator::Stroke { close: true }
    } else if t == "f"@ || t == "F"@ || t == "f*"@ {
        Operator::Fill
    } else if t == "W"@ || t == "W*"@ {
        Operator::Clip
    } else if t == "n"@ {
        Operator::EndPath
    } else {
        Operator::Other
    }
}

/// The operator that a text spells.
pub fn find_operator(t: &str) -> (r: Operator)
    ensures
        r == operator(t@),
{
    if same_text(t, "q") {
        Operator::Save
    } else if same_text(t, "Q") {
        Operator::Restore
    } else if same_text(t, "cm") {
        Operator::Concat
    } else if same_text(t, "BT") {
        Operator::BeginText
    } else if same_text(t, "ET") {
        Operator::EndText
    } else if same_text(t, "Tf") {
        Operator::Font
    } else if same_text(t, "TL") {
        Operator::Leading
    } else if same_text(t, "Tr") {
        Operator::RenderingMode
    } else if same_text(t, "Tc") {
        Operator::CharSpacing
    } else if same_text(t, "Tw") {
        Operator::WordSpacing
    } else if same_text(t, "Td") {
        Operator::Move { sets_leading: false }
    } else if same_text(t, "TD") {
        Operator::Move { sets_leading: true }
    } else if same_text(t, "Tm") {
        Operator::TextMatrix
    } else if same_text(t, "T*") {
        Operator::NextLine
    } else if same_text(t, "Tj") {
        Operator::Show
    } else if same_text(t, "TJ") {
        Operator::ShowArray
    } else if same_text(t, "'") {
        Operator::NextLineShow
    } else if same_text(t, "Do") {
        Operator::Invoke
    } else if same_text(t, "BMC") {
        Operator::BeginMark
    } else if same_text(t, "BDC") {
        Operator::BeginMarkWith
    } else if same_text(t, "EMC") {
        Operator::EndMark
    } else if same_text(t, "re") {
        Operator::Rectangle
    } else if same_text(t, "m") {
        Operator::MoveTo
    } else if same_text(t, "l") {
        Operator::LineTo
    } else if same_text(t, "h") {
        Operator::ClosePath
    } else if same_text(t, "S") || same_text(t, "B") || same_text(t, "B*") {
        Operator::Stroke { close: false }
    } else if same_text(t, "s") || same_text(t, "b") || same_text(t, "b*") {
        Operator::Stroke { close: true }
    } else if same_text(t, "f") || same_text(t, "F") || same_text(t, "f*") {
        Operator::Fill
    } else if same_text(t, "W") || same_text(t, "W*") {
        Operator::Clip
    } else if same_text(t, "n") {
        Operator::EndPath
    } else {
        Operator::Other
    }
}

} // verus!
