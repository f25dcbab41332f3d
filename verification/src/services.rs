//! What the walk over a page asks of its surroundings.

use crate::fonts::FontTables;
use crate::geometry::{Matrix, TextItem};
use crate::object::{ObjectId, PdfDict, PdfObject};
use crate::shows::FontMetrics;
use crate::single::Single;
use vstd::prelude::*;

verus! {

/// Fonts, forms and the shaping of texts. Nothing is assumed of the answers: what
/// the library states holds for all of them.
pub trait PageServices {
    /// A character map of a font.
    type CMap;

    /// The number of the font file object that tells the characters of a font
    /// without a `ToUnicode` entry.
    fn font_file_number(&self, font: &PdfDict) -> Option<u32>;

    /// The character map that a `ToUnicode` stream in a font dictionary holds.
    fn cmap_entry(&self, data: &Vec<u8>, font: &PdfDict) -> Option<Self::CMap>;

    /// The metrics of a font of the page, by its resource name.
    fn font_metrics(&self, font: &String) -> Option<FontMetrics>;

    /// The width of a string in text space.
    fn string_width(
        &self,
        bytes: &Vec<u8>,
        font: &String,
        size: Single,
        char_spacing: Single,
        word_spacing: Single,
    ) -> Single;

    /// The text that an operand shows in a font.
    fn operand_text(
        &self,
        operand: &PdfObject,
        font: &String,
        tables: &FontTables<'_, Self::CMap>,
    ) -> Option<String>;

    /// The text of a text string (PDFDocEncoding or Unicode).
    fn text_string(&self, bytes: &Vec<u8>) -> String;

    /// The items of a form.
    fn form_items(&self, form: ObjectId, page: u32, ctm: &Matrix) -> Vec<TextItem>;

    /// The size of a font on the page.
    fn rendered_size(&self, size: Single, matrix: &Matrix) -> Single;

    /// A text with its ligatures written out.
    fn expand_ligatures(&self, text: &String) -> String;

    /// Whether the name of a font tells of a bold face.
    fn is_bold(&self, font: &String) -> bool;

    /// Whether the name of a font tells of an italic face.
    fn is_italic(&self, font: &String) -> bool;

    /// Items with those of a word or line joined.
    fn merge_text_items(&self, items: Vec<TextItem>) -> Vec<TextItem>;

    /// Items with subscripts and superscripts joined to their text.
    fn merge_subscript_items(&self, items: Vec<TextItem>) -> Vec<TextItem>;
}

} // verus!
