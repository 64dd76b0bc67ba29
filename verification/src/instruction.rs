use vstd::prelude::*;

use crate::cpu::{Cpu, CpuView};
use crate::error::CpuError;
use crate::flags::Flags;
use crate::memory::{mem_get, MEMORY_SIZE};

verus! {

/// The machine's closed opcode set.
///
/// Operand-bearing variants carry one 8-bit operand, an address or an
/// immediate value depending on the opcode; the rest are a single byte.
#[derive(Debug, Clone, Copy, PartialEq, Eq, Structural)]
pub enum Instruction {
    LDA(u8),
    STA(u8),
    SETV(u8),
    SETA(u8),
    STR(u8),
    LOAD(u8),
    JMP(u8),
    JC(u8),
    JZ(u8),
    JO(u8),
    EXIT(u8),
    INC,
    DEC,
    ADD,
    SUB,
    NOP,
    OUT,
    CLN,
}

/// The zero-operand decode table: which single bytes are complete
/// instructions on their own.
pub open spec fn spec_from_byte(byte: u8) -> Option<Instruction> {
    match byte {
        0x00 => Some(Instruction::NOP),
        0x03 => Some(Instruction::INC),
        0x04 => Some(Instruction::DEC),
        0x09 => Some(Instruction::ADD),
        0x0A => Some(Instruction::SUB),
        0x10 => Some(Instruction::OUT),
        0x12 => Some(Instruction::CLN),
        _ => None,
    }
}

/// The operand-bearing decode table: how an opcode byte and the byte after
/// it combine, and which opcodes are malformed.
pub open spec fn spec_from_byte_and_arg(byte: u8, arg: u8) -> Result<Instruction, CpuError> {
    match byte {
        0x00 => Ok(Instruction::NOP),
        0x01 => Ok(Instruction::LDA(arg)),
        0x02 => Ok(Instruction::STA(arg)),
        0x05 => Ok(Instruction::SETV(arg)),
        0x06 => Ok(Instruction::SETA(arg)),
        0x07 => Ok(Instruction::STR(arg)),
        0x08 => Ok(Instruction::LOAD(arg)),
        0x0B => Ok(Instruction::JMP(arg)),
        0x0C => Ok(Instruction::JC(arg)),
        0x0E => Ok(Instruction::JZ(arg)),
        0x0F => Ok(Instruction::JO(arg)),
        0x11 => Ok(Instruction::EXIT(arg)),
        _ => Err(CpuError::MalformedInput(byte, arg)),
    }
}

/// The binary encoding: operand-bearing variants serialize to
/// `[opcode, operand]`, operand-free ones to `[opcode]`.
pub open spec fn spec_encode(i: Instruction) -> Seq<u8> {
    match i {
        Instruction::LDA(v) => seq![0x01u8, v],
        Instruction::STA(v) => seq![0x02u8, v],
        Instruction::SETV(v) => seq![0x05u8, v],
        Instruction::SETA(v) => seq![0x06u8, v],
        Instruction::STR(v) => seq![0x07u8, v],
        Instruction::LOAD(v) => seq![0x08u8, v],
        Instruction::JMP(v) => seq![0x0Bu8, v],
        Instruction::JC(v) => seq![0x0Cu8, v],
        Instruction::JZ(v) => seq![0x0Eu8, v],
        Instruction::JO(v) => seq![0x0Fu8, v],
        Instruction::EXIT(v) => seq![0x11u8, v],
        Instruction::INC => seq![0x03u8],
        Instruction::DEC => seq![0x04u8],
        Instruction::ADD => seq![0x09u8],
        Instruction::SUB => seq![0x0Au8],
        Instruction::NOP => seq![0x00u8],
        Instruction::OUT => seq![0x10u8],
        Instruction::CLN => seq![0x12u8],
    }
}

/// The effect of executing one decoded instruction against a machine state:
/// the state afterwards, and the halting condition if the instruction raised
/// one.  A failed instruction leaves the state as it found it.
pub open spec fn spec_execute(i: Instruction, s: CpuView) -> (CpuView, Result<(), CpuError>) {
    match i {
        Instruction::LDA(v) => match mem_get(s.mem, v) {
            Ok(b) => (CpuView { accumulator: b, ..s }, Ok(())),
            Err(e) => (s, Err(e)),
        },
        Instruction::STA(v) => if (v as int) < MEMORY_SIZE {
            (CpuView { mem: s.mem.update(v as int, s.accumulator), ..s }, Ok(()))
        } else {
            (s, Err(CpuError::MemoryError(v)))
        },
        Instruction::INC => {
            let f = if s.accumulator == 255 {
                Flags { zero: true, overflow: true, ..s.flags }
            } else {
                s.flags
            };
            (CpuView { accumulator: s.accumulator.wrapping_add(1), flags: f, ..s }, Ok(()))
        },
        Instruction::DEC => {
            let f = if s.accumulator == 1 {
                Flags { zero: true, ..s.flags }
            } else if s.accumulator == 0 {
                Flags { overflow: true, ..s.flags }
            } else {
                s.flags
            };
            (CpuView { accumulator: s.accumulator.wrapping_sub(1), flags: f, ..s }, Ok(()))
        },
        Instruction::SETV(v) => (CpuView { user: v, ..s }, Ok(())),
        Instruction::SETA(v) => match mem_get(s.mem, v) {
            Ok(b) => (CpuView { user: b, ..s }, Ok(())),
            Err(e) => (s, Err(e)),
        },
        Instruction::STR(v) => if (v as int) < MEMORY_SIZE {
            (CpuView { mem: s.mem.update(v as int, s.user), ..s }, Ok(()))
        } else {
            (s, Err(CpuError::MemoryError(v)))
        },
        Instruction::LOAD(v) => match mem_get(s.mem, v) {
            Ok(b) => (CpuView { user: b, ..s }, Ok(())),
            Err(e) => (s, Err(e)),
        },
        Instruction::ADD => if s.accumulator + s.user <= 255 {
            (CpuView { accumulator: (s.accumulator + s.user) as u8, ..s }, Ok(()))
        } else {
            (
                CpuView {
                    accumulator: s.accumulator.wrapping_add(s.user),
                    flags: Flags { overflow: true, ..s.flags },
                    ..s
                },
                Ok(()),
            )
        },
        Instruction::SUB => (CpuView { accumulator: s.accumulator.wrapping_sub(s.user), ..s }, Ok(())),
        Instruction::JMP(v) => (CpuView { ip: v, ..s }, Ok(())),
        Instruction::JC(v) => (
            if s.flags.zero || s.flags.overflow {
                CpuView { ip: v, ..s }
            } else {
                s
            },
            Ok(()),
        ),
        Instruction::JZ(v) => (if s.flags.zero { CpuView { ip: v, ..s } } else { s }, Ok(())),
        Instruction::JO(v) => (if s.flags.overflow { CpuView { ip: v, ..s } } else { s }, Ok(())),
        Instruction::OUT => (CpuView { out: s.out.push(s.accumulator), ..s }, Ok(())),
        Instruction::NOP => (s, Ok(())),
        Instruction::EXIT(code) => (s, Err(CpuError::Exit(code))),
        Instruction::CLN => (CpuView { accumulator: s.user, ..s }, Ok(())),
    }
}

impl Instruction {
    /// Execute this instruction against the live machine state.  The effect
    /// on registers, memory, flags, the instruction pointer and the output
    /// channel is exactly `spec_execute`; an `Err` result is the halting
    /// condition the instruction raised.
    pub fn execute(&self, cpu: &mut Cpu) -> (r: Result<(), CpuError>)
        ensures
            final(cpu)@ == spec_execute(*self, old(cpu)@).0,
            r == spec_execute(*self, old(cpu)@).1,
    {
        match self {
            Instruction::LDA(v) => {
                match cpu.memory.get(*v) {
                    Ok(b) => {
                        cpu.accumulator = b;
                        Ok(())
                    },
                    Err(e) => Err(e),
                }
            },
            Instruction::STA(v) => {
                match cpu.memory.set(*v, cpu.accumulator) {
                    Ok(()) => Ok(()),
                    Err(e) => Err(e),
                }
            },
            Instruction::INC => {
                if cpu.accumulator == 255 {
                    cpu.flags.zero = true;
                    cpu.flags.overflow = true;
                }
                cpu.accumulator = cpu.accumulator.wrapping_add(1);
                Ok(())
            },
            Instruction::DEC => {
                if cpu.accumulator == 1 {
                    cpu.flags.zero = true;
                } else if cpu.accumulator == 0 {
                    cpu.flags.overflow = true;
                }
                cpu.accumulator = cpu.accumulator.wrapping_sub(1);
                Ok(())
            },
            Instruction::SETV(v) => {
                cpu.user = *v;
                Ok(())
            },
            Instruction::SETA(v) => {
                match cpu.memory.get(*v) {
                    Ok(b) => {
                        cpu.user = b;
                        Ok(())
                    },
                    Err(e) => Err(e),
                }
            },
            Instruction::STR(v) => {
                match cpu.memory.set(*v, cpu.user) {
                    Ok(()) => Ok(()),
                    Err(e) => Err(e),
                }
            },
            Instruction::LOAD(v) => {
                match cpu.memory.get(*v) {
                    Ok(b) => {
                        cpu.user = b;
                        Ok(())
                    },
                    Err(e) => Err(e),
                }
            },
            Instruction::ADD => {
                match cpu.accumulator.checked_add(cpu.user) {
                    Some(acc) => {
                        cpu.accumulator = acc;
                    },
                    None => {
                        cpu.flags.overflow = true;
                        cpu.accumulator = cpu.accumulator.wrapping_add(cpu.user);
                    },
                }
                Ok(())
            },
            Instruction::SUB => {
                cpu.accumulator = cpu.accumulator.wrapping_sub(cpu.user);
                Ok(())
            },
            Instruction::JMP(v) => {
                cpu.ip = *v;
                Ok(())
            },
            Instruction::JC(v) => {
                if cpu.flags.any() {
                    cpu.ip = *v;
                }
                Ok(())
            },
            Instruction::JZ(v) => {
                if cpu.flags.zero {
                    cpu.ip = *v;
                }
                Ok(())
            },
            Instruction::JO(v) => {
                if cpu.flags.overflow {
                    cpu.ip = *v;
                }
                Ok(())
            },
            Instruction::OUT => {
                cpu.output.push(cpu.accumulator);
                Ok(())
            },
            Instruction::NOP => Ok(()),
            Instruction::EXIT(ex_code) => Err(CpuError::Exit(*ex_code)),
            Instruction::CLN => {
                cpu.accumulator = cpu.user;
                Ok(())
            },
        }
    }

    /// The instruction's binary encoding, as `spec_encode` states it.
    pub fn as_bytes(&self) -> (r: Vec<u8>)
        ensures
            r@ == spec_encode(*self),
    {
        let r: Vec<u8> = match self {
            Instruction::EXIT(ex_code) => vec![0x11, *ex_code],
            Instruction::STA(v) => vec![0x02, *v],
            Instruction::LDA(v) => vec![0x01, *v],
            Instruction::SETV(v) => vec![0x05, *v],
            Instruction::SETA(v) => vec![0x06, *v],
            Instruction::STR(v) => vec![0x07, *v],
            Instruction::LOAD(v) => vec![0x08, *v],
            Instruction::JMP(v) => vec![0x0B, *v],
            Instruction::JC(v) => vec![0x0C, *v],
            Instruction::JZ(v) => vec![0x0E, *v],
            Instruction::JO(v) => vec![0x0F, *v],
            Instruction::INC => vec![0x03],
            Instruction::DEC => vec![0x04],
            Instruction::ADD => vec![0x09],
            Instruction::SUB => vec![0x0A],
            Instruction::OUT => vec![0x10],
            Instruction::NOP => vec![0x00],
            Instruction::CLN => vec![0x12],
        };
        proof {
            assert(r@ =~= spec_encode(*self));
        }
        r
    }

    /// Zero-operand trial decode, per `spec_from_byte`.
    pub fn from_byte(byte: u8) -> (r: Option<Self>)
        ensures
            r == spec_from_byte(byte),
    {
        match byte {
            0x00 => Some(Self::NOP),
            0x03 => Some(Self::INC),
            0x04 => Some(Self::DEC),
            0x09 => Some(Self::ADD),
            0x0A => Some(Self::SUB),
            0x10 => Some(Self::OUT),
            0x12 => Some(Self::CLN),
            _ => None,
        }
    }

    /// Operand-bearing decode of an opcode byte and its operand byte, per
    /// `spec_from_byte_and_arg`; unrecognized opcodes fail with
    /// `MalformedInput`.
    pub fn from_byte_and_arg(byte: u8, arg: u8) -> (r: Result<Self, CpuError>)
        ensures
            r == spec_from_byte_and_arg(byte, arg),
    {
        match byte {
            0x00 => Ok(Self::NOP),
            0x01 => Ok(Self::LDA(arg)),
            0x02 => Ok(Self::STA(arg)),
            0x05 => Ok(Self::SETV(arg)),
            0x06 => Ok(Self::SETA(arg)),
            0x07 => Ok(Self::STR(arg)),
            0x08 => Ok(Self::LOAD(arg)),
            0x0B => Ok(Self::JMP(arg)),
            0x0C => Ok(Self::JC(arg)),
            0x0E => Ok(Self::JZ(arg)),
            0x0F => Ok(Self::JO(arg)),
            0x11 => Ok(Self::EXIT(arg)),
            _ => Err(CpuError::MalformedInput(byte, arg)),
        }
    }
}


/// Encoding mirrors decoding exactly: a one-byte encoding is decoded whole
/// by the zero-operand table, and a two-byte encoding is rejected by that
/// table and decoded by the operand-bearing one, in both cases back to the
/// instruction it came from.
pub proof fn lemma_encode_decode(i: Instruction)
    ensures
        spec_encode(i).len() == 1 ==> spec_from_byte(spec_encode(i)[0]) == Some(i),
        spec_encode(i).len() == 2 ==> spec_from_byte(spec_encode(i)[0]) is None
            && spec_from_byte_and_arg(spec_encode(i)[0], spec_encode(i)[1]) == Ok::<
            Instruction,
            CpuError,
        >(i),
{
}
} // verus!
