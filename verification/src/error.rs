use vstd::prelude::*;

verus! {

/// The halting conditions of the virtual machine.
///
/// `Exit` is the designed, non-failure termination of a program and carries
/// the 8-bit status code supplied by the `EXIT` instruction.  Every other
/// variant is a fatal condition: execution cannot continue past it.
#[derive(Debug, Clone, Copy, PartialEq, Eq, Structural)]
pub enum CpuError {
    /// A memory access outside the bounded address space, carrying the
    /// offending address.
    MemoryError(u8),
    /// Normal program termination carrying a user-supplied status code.
    Exit(u8),
    /// Reserved overflow condition, distinct from the `overflow` status flag.
    VOverflow,
    /// The instruction pointer exhausted the address space.
    AOverflow,
    /// Decode failure: an unrecognized operand-bearing opcode, carrying the
    /// opcode byte and the operand byte that followed it.
    MalformedInput(u8, u8),
}

} // verus!
