//! How a register range encodes its value.

use vstd::prelude::*;

verus! {

/// Order of the two bytes inside one 16-bit register.
#[derive(Clone, Copy, Debug, PartialEq, Eq, Structural)]
pub enum ByteOrder {
    BigEndian,
    LittleEndian,
}

impl ByteOrder {
    pub fn is_big_endian(&self) -> (r: bool)
        ensures
            r <==> *self is BigEndian,
    {
        match self {
            Self::BigEndian => true,
            _ => false,
        }
    }

    pub fn is_little_endian(&self) -> (r: bool)
        ensures
            r <==> *self is LittleEndian,
    {
        match self {
            Self::LittleEndian => true,
            _ => false,
        }
    }
}

/// Order of the registers of a multi-register value.
#[derive(Clone, Copy, Debug, PartialEq, Eq, Structural)]
pub enum WordOrder {
    BigEndian,
    LittleEndian,
}

impl WordOrder {
    pub fn is_big_endian(&self) -> (r: bool)
        ensures
            r <==> *self is BigEndian,
    {
        match self {
            Self::BigEndian => true,
            _ => false,
        }
    }

    pub fn is_little_endian(&self) -> (r: bool)
        ensures
            r <==> *self is LittleEndian,
    {
        match self {
            Self::LittleEndian => true,
            _ => false,
        }
    }
}

/// The kind of value a register range holds.  Floating-point ranges exist in
/// the catalogue, but their values are produced by the presentation shell;
/// the verified codec never computes with them.
#[derive(Clone, Copy, Debug, PartialEq, Eq, Structural)]
pub enum ValueType {
    Integer { signed: bool },
    Float,
    String { fill: u8 },
}

/// The encoding of a register range's value.
#[derive(Clone, Copy, Debug, PartialEq, Eq, Structural)]
pub struct Encoding {
    pub value: ValueType,
    pub byte_order: ByteOrder,
    pub word_order: WordOrder,
}

} // verus!
