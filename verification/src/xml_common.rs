//! The error shape shared by the catalogue parsers.
//!
//! The XML traversal itself runs in the unverified shell; the kinds of
//! failure it can report, and the position they carry, are modelled here so
//! the rest of the error taxonomy can speak of them.

use vstd::prelude::*;

verus! {

/// Why an XML construct was rejected.
#[derive(Clone, Debug)]
pub enum ParseErrorKind {
    WrongNamespace,
    UnexpectedElement,
    UnexpectedText,
    UnexpectedAttribute,
    /// The named attribute is missing.
    MissingAttribute(String),
    /// The named attribute's value was rejected, with the cause's message.
    ParseAttribute(String, String),
}

/// A parse failure of some kind, at a line and column of the catalogue file.
#[derive(Clone, Debug)]
pub struct ParseErrorBase<K> {
    pub kind: K,
    pub row: u32,
    pub col: u32,
}

impl<K> ParseErrorBase<K> {
    pub fn new(kind: K, row: u32, col: u32) -> (r: ParseErrorBase<K>)
        ensures
            r.kind == kind,
            r.row == row,
            r.col == col,
    {
        ParseErrorBase { kind, row, col }
    }
}

} // verus!
