use vstd::prelude::*;

use crate::util::{spec_arg_type, ArgType};

verus! {

/// One 16-bit packed cell, split into a tag-carrying high byte and a
/// payload low byte.  Bit 6 of the high byte marks an instruction cell,
/// bit 7 an argument cell; an argument cell carries its index in the low
/// four bits and its kind in bits 4 through 6.
#[derive(Clone, Copy, Debug)]
pub struct Cell {
    pub high: u8,
    pub low: u8,
}

impl Cell {
    /// The all-zero cell.
    pub fn zero() -> (r: Self)
        ensures
            r.high == 0 && r.low == 0,
    {
        Self { high: 0, low: 0 }
    }

    /// Whether the instruction marker bit is set.
    pub fn is_instruction(&self) -> (r: bool)
        ensures
            r == ((self.high & 0x40) != 0),
    {
        self.high & 0x40 != 0
    }

    /// Whether the argument marker bit is set.
    pub fn is_argument(&self) -> (r: bool)
        ensures
            r == ((self.high & 0x80) != 0),
    {
        self.high & 0x80 != 0
    }

    /// The argument kind of an argument cell, or `None` for any other cell.
    pub fn arg_type(&self) -> (r: Option<ArgType>)
        ensures
            r == (if (self.high & 0x80) != 0 {
                spec_arg_type(self.high)
            } else {
                None::<ArgType>
            }),
    {
        if !self.is_argument() {
            None
        } else {
            ArgType::try_from(self.high)
        }
    }

    /// The argument index of an argument cell, or `None` for any other
    /// cell.
    pub fn arg_idx(&self) -> (r: Option<u8>)
        ensures
            r == (if (self.high & 0x80) != 0 {
                Some(self.high & 0x0F)
            } else {
                None::<u8>
            }),
    {
        if !self.is_argument() {
            None
        } else {
            Some(self.high & 0x0F)
        }
    }
}

} // verus!
