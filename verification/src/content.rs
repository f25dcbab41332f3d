//! Content streams as sequences of operations.

use crate::document::read_object;
use crate::inline_images::{check_images, images_readable};
use crate::object::{operation_views, Operation, OperationView};
use vstd::prelude::*;

verus! {

/// Why a page cannot be read.
pub enum PdfError {
    /// Its content cannot be parsed.
    Parse(String),
}

impl PdfError {
    /// The reason in words.
    pub open spec fn message(self) -> Seq<char> {
        match self {
            PdfError::Parse(text) => text@,
        }
    }
}

/// What `lopdf::content::Content::decode` makes of a content stream: its operations,
/// or the text of the error.
pub uninterp spec fn decoded_content(data: Seq<u8>) -> Result<Seq<OperationView>, Seq<char>>;

/// Calls `lopdf::content::Content::decode`.
///
/// Claimed: the result is a function of the data, under the name
/// `decoded_content`. What it parses is not described further. The size of an inline
/// image is computed from its dictionary, so that has to be readable; how deep
/// arrays and dictionaries may nest is left to the stack.
#[verifier::external_body]
pub(crate) fn decode_content(data: &Vec<u8>) -> (r: Result<Vec<Operation>, String>)
    requires
        images_readable(data@),
    ensures
        (match r {
            Ok(operations) => decoded_content(data@) == Ok::<_, Seq<char>>(
                operation_views(operations@),
            ),
            Err(text) => decoded_content(data@) == Err::<Seq<OperationView>, _>(text@),
        }),
{
    match lopdf::content::Content::decode(data) {
        Ok(content) => Ok(content.operations.iter().map(|op| Operation {
            operator: op.operator.clone(),
            operands: op.operands.iter().map(read_object).collect(),
        }).collect()),
        Err(error) => Err(error.to_string()),
    }
}

/// The operations of a content stream, or the reason why there are none: an inline
/// image that cannot be read, or what the parser says.
pub open spec fn content_operations(data: Seq<u8>) -> Result<Seq<OperationView>, Seq<char>> {
    if images_readable(data) {
        decoded_content(data)
    } else {
        Err("unreadable inline image"@)
    }
}

/// Parses a content stream.
pub fn decode_operations(data: &Vec<u8>) -> (r: Result<Vec<Operation>, PdfError>)
    ensures
        (match r {
            Ok(operations) => content_operations(data@) == Ok::<_, Seq<char>>(
                operation_views(operations@),
            ),
            Err(error) => content_operations(data@) == Err::<Seq<OperationView>, _>(
                error.message(),
            ),
        }),
{
    if check_images(data) {
        match decode_content(data) {
            Ok(operations) => Ok(operations),
            Err(text) => Err(PdfError::Parse(text)),
        }
    } else {
        Err(PdfError::Parse(String::from_str("unreadable inline image")))
    }
}

} // verus!
