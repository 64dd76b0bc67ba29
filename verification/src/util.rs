use vstd::prelude::*;

verus! {

/// The kind of value a packed argument cell carries, as selected by the
/// tag bits of its high byte.
#[derive(Clone, Copy, PartialEq, Eq, Structural, Debug)]
pub enum ArgType {
    Address,
    Value,
    Unknown,
    Either,
    String,
    Char,
    Register,
}

/// The argument-kind tag encoded in bits 4 through 6 of a cell's high byte.
pub open spec fn spec_arg_type(v: u8) -> Option<ArgType> {
    match v & 0x70 {
        0x00 => Some(ArgType::Unknown),
        0x10 => Some(ArgType::Address),
        0x20 => Some(ArgType::Value),
        0x30 => Some(ArgType::Either),
        0x40 => Some(ArgType::String),
        0x50 => Some(ArgType::Char),
        0x60 => Some(ArgType::Register),
        _ => None,
    }
}

/// The tag bits that stand for an argument kind in a cell's high byte.
pub open spec fn spec_type_bits(t: ArgType) -> u8 {
    match t {
        ArgType::Unknown => 0x00,
        ArgType::Address => 0x10,
        ArgType::Value => 0x20,
        ArgType::Either => 0x30,
        ArgType::String => 0x40,
        ArgType::Char => 0x50,
        ArgType::Register => 0x60,
    }
}

impl ArgType {
    /// Decode the argument-kind tag of a high byte, per `spec_arg_type`.
    pub fn try_from(v: u8) -> (r: Option<Self>)
        ensures
            r == spec_arg_type(v),
    {
        match v & 0x70 {
            0x00 => Some(Self::Unknown),
            0x10 => Some(Self::Address),
            0x20 => Some(Self::Value),
            0x30 => Some(Self::Either),
            0x40 => Some(Self::String),
            0x50 => Some(Self::Char),
            0x60 => Some(Self::Register),
            _ => None,
        }
    }
}

/// Builder for the high byte of a packed instruction cell: an operand count
/// in the low bits, an internal-instruction bit, and the instruction marker
/// bit always set.
pub struct InstructionFlags {
    nargs: u8,
    is_internal: bool,
}

impl InstructionFlags {
    /// The operand count this builder holds.
    pub closed spec fn spec_nargs(self) -> u8 {
        self.nargs
    }

    /// Whether this builder marks an internal instruction.
    pub closed spec fn spec_is_internal(self) -> bool {
        self.is_internal
    }

    /// A builder with no operands, not internal.
    pub fn new() -> (r: InstructionFlags)
        ensures
            r.spec_nargs() == 0,
            !r.spec_is_internal(),
    {
        InstructionFlags { nargs: 0, is_internal: false }
    }

    /// Set the internal-instruction mark.
    pub fn is_internal(self, is_internal: bool) -> (r: Self)
        ensures
            r.spec_nargs() == self.spec_nargs(),
            r.spec_is_internal() == is_internal,
    {
        InstructionFlags { is_internal, ..self }
    }

    /// Set the operand count.
    pub fn nargs(self, nargs: u8) -> (r: Self)
        ensures
            r.spec_nargs() == nargs,
            r.spec_is_internal() == self.spec_is_internal(),
    {
        InstructionFlags { nargs, ..self }
    }

    /// The finished high byte: the operand count, the internal bit when
    /// set, and the instruction marker bit.
    pub fn build(self) -> (r: u8)
        ensures
            r == (if self.spec_is_internal() {
                (self.spec_nargs() | 0x10) | 0x40
            } else {
                self.spec_nargs() | 0x40
            }),
    {
        let mask = if self.is_internal {
            self.nargs | 0x10
        } else {
            self.nargs
        };
        mask | 0x40
    }
}

/// Builder for the high byte of a packed argument cell: an argument index
/// in the low bits and an argument-kind tag.
pub struct ArgFlags {
    arg_idx: u8,
    arg_type: ArgType,
}

impl ArgFlags {
    /// The argument index this builder holds.
    pub closed spec fn spec_arg_idx(self) -> u8 {
        self.arg_idx
    }

    /// The argument kind this builder holds.
    pub closed spec fn spec_arg_type(self) -> ArgType {
        self.arg_type
    }

    /// A builder for argument 0 of unknown kind.
    pub fn new() -> (r: Self)
        ensures
            r.spec_arg_idx() == 0,
            r.spec_arg_type() == ArgType::Unknown,
    {
        Self { arg_idx: 0, arg_type: ArgType::Unknown }
    }

    /// Set the argument index.
    pub fn arg_idx(self, arg_idx: u8) -> (r: Self)
        ensures
            r.spec_arg_idx() == arg_idx,
            r.spec_arg_type() == self.spec_arg_type(),
    {
        ArgFlags { arg_idx, ..self }
    }

    /// Set the argument kind.
    pub fn arg_type(self, arg_type: ArgType) -> (r: Self)
        ensures
            r.spec_arg_idx() == self.spec_arg_idx(),
            r.spec_arg_type() == arg_type,
    {
        ArgFlags { arg_type, ..self }
    }

    /// The finished high byte: the marker bit of the index masked against
    /// the kind's tag bits.
    pub fn build(self) -> (r: u8)
        ensures
            r == (0x80 & self.spec_arg_idx()) & spec_type_bits(self.spec_arg_type()),
    {
        let a: u8 = 0x80 & self.arg_idx;
        let b: u8 = arg_type_bits(self.arg_type);
        a & b
    }
}

fn arg_type_bits(t: ArgType) -> (r: u8)
    ensures
        r == spec_type_bits(t),
{
    match t {
        ArgType::Unknown => 0x00,
        ArgType::Address => 0x10,
        ArgType::Value => 0x20,
        ArgType::Either => 0x30,
        ArgType::String => 0x40,
        ArgType::Char => 0x50,
        ArgType::Register => 0x60,
    }
}

} // verus!
