//! How a register value is displayed.
//!
//! The display transform itself (scaling by an arbitrary factor) belongs to
//! the presentation shell; the core only needs to know whether a range is
//! scaled at all, because a scaled range's initial value is a decimal number
//! that the shell must convert.

use vstd::prelude::*;

verus! {

/// Display parameters of a register range or field.
#[derive(Clone, Debug)]
pub struct Presentation {
    /// Radix used to display the value.
    pub radix: u8,
    /// Number of decimals shown.
    pub decimals: u8,
    /// True when the catalogue gives the range a scale factor other than one.
    pub scaled: bool,
    /// Unit label, if any.
    pub unit: Option<String>,
}

} // verus!
