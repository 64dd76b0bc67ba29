//! A minimal byte-addressable virtual machine and the assembler that
//! compiles its mnemonic source into bytecode.
//!
//! The machine couples a fetch-decode-execute cycle with a three-bit flag
//! register under a one-cycle-delayed auto-clear policy and a bounded,
//! bounds-checked memory.  The assembler resolves labels — forward
//! references included — in a single pass with optimistic backpatching.
//! Every component carries a contract against a mathematical model of its
//! state, and the central laws — among them that a label resolves to the
//! same address no matter where it is referenced — are proved against those
//! models.

pub mod assembler;
pub mod cell;
pub mod cpu;
pub mod error;
pub mod flags;
pub mod instruction;
pub mod memory;
pub mod parse;
pub mod util;
