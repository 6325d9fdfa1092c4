//! The operation model: the five shapes of page-content instruction that
//! text extraction distinguishes, and the decoding of raw text payloads.

use vstd::prelude::*;

verus! {

/// One entry of a draw-text-adjusted operation: either a raw encoded text
/// payload, or a positioning adjustment that moves the cursor but draws
/// nothing.
#[derive(Debug, Clone)]
pub enum TextElement {
    Text(Vec<u8>),
    Adjustment(i64),
}

/// One page-content instruction, reduced to what text extraction reads.
/// Payloads are carried as their raw encoded bytes; everything that is not
/// about text blocks is `Other`.
#[derive(Debug, Clone)]
pub enum Op {
    BeginText,
    TextDraw(Vec<u8>),
    TextDrawAdjusted(Vec<TextElement>),
    EndText,
    Other,
}

/// A text payload whose bytes could not be decoded to a string. Extraction
/// fails fast on it: no partial result is returned.
#[derive(Debug, Clone, PartialEq, Eq, Structural)]
pub struct TextDecodeError;

/// What a raw text payload decodes to: its characters, or `None` when the
/// bytes are malformed. The decoding itself is done by an outside routine
/// (see `decode_text`); contracts speak of it only through this name.
pub uninterp spec fn decoded(bytes: Seq<u8>) -> Option<Seq<char>>;

/// Relies on `pdf::primitive::PdfString::to_string`: it decodes a PDF
/// string's bytes (UTF-16BE when they begin with a byte-order mark, UTF-8
/// otherwise), depends on the bytes alone, and fails on malformed input.
#[verifier::external_body]
pub(crate) fn decode_text(bytes: &Vec<u8>) -> (r: Result<String, TextDecodeError>)
    ensures
        match r {
            Ok(s) => decoded(bytes@) == Some(s@),
            Err(e) => decoded(bytes@) is None,
        },
{
    match pdf::primitive::PdfString::new(bytes.as_slice().into()).to_string() {
        Ok(s) => Ok(s),
        Err(_) => Err(TextDecodeError),
    }
}

/// The text one element contributes: adjustments draw nothing.
pub open spec fn element_text(e: TextElement) -> Option<Seq<char>> {
    match e {
        TextElement::Text(b) => decoded(b@),
        TextElement::Adjustment(_) => Some(Seq::<char>::empty()),
    }
}

/// The concatenated text of a list of elements, or `None` when any payload
/// in it is malformed.
pub open spec fn elements_text(es: Seq<TextElement>) -> Option<Seq<char>>
    decreases es.len(),
{
    if es.len() == 0 {
        Some(Seq::<char>::empty())
    } else {
        match (element_text(es[0]), elements_text(es.drop_first())) {
            (Some(s), Some(rest)) => Some(s + rest),
            _ => None,
        }
    }
}

/// The text one operation contributes to the block being accumulated.
/// Markers and unrelated operations contribute nothing.
pub open spec fn op_text(op: Op) -> Option<Seq<char>> {
    match op {
        Op::TextDraw(b) => decoded(b@),
        Op::TextDrawAdjusted(es) => elements_text(es@),
        _ => Some(Seq::<char>::empty()),
    }
}

} // verus!
