use bytecpu::assembler::{Assembler, AssemblerError};
use bytecpu::error::CpuError;
use bytecpu::parse::{parse_line, LineParse};

pub const NOP: u8 = 0x00;
pub const LDA: u8 = 0x01;
pub const STA: u8 = 0x02;
pub const INC: u8 = 0x03;
pub const DEC: u8 = 0x04;
pub const SETV: u8 = 0x05;
pub const SETA: u8 = 0x06;
pub const STR: u8 = 0x07;
pub const LOAD: u8 = 0x08;
pub const ADD: u8 = 0x09;
pub const SUB: u8 = 0x0A;
pub const JMP: u8 = 0x0B;
pub const JC: u8 = 0x0C;
pub const JZ: u8 = 0x0E;
pub const JO: u8 = 0x0F;
pub const OUT: u8 = 0x10;
pub const EXIT: u8 = 0x11;
pub const CLN: u8 = 0x12;

fn lines_of(src: &str) -> Vec<Vec<u8>> {
    src.lines().map(|l| l.as_bytes().to_vec()).collect()
}

const FIB_SOURCE: &str = "\
;; successive sums into 0x42 until the addition overflows
\tSETV 0
\tSTR 0x40
\tSTR 0x42
\tSETV 1
\tSTR 0x41
loop:
\tLDA 0x42
\tOUT
\tLDA 0x40
\tLOAD 0x41
\tADD
\tJO exit
\tSTA 0x42
\tLDA 0x41
\tSTA 0x40
\tLDA 0x42
\tSTA 0x41
\tJMP loop
exit:
\tEXIT 1
";

#[test]
fn test_assembler_output() {
    let expected = vec![
        // init:
        SETV, 0, STR, 0x40, // x = 0
        STR, 0x42, // z = 0
        SETV, 1, STR, 0x41, // y = 1
        // loop

        // print z
        LDA, 0x42, OUT, // z = x + y
        LDA, 0x40, // load x into acc
        LOAD, 0x41, // load y into usr
        ADD,  // add y to acc (x) -> acc = x + y
        JO, 31, // exit if overflow
        STA, 0x42, // store acc in z
        // x = y
        LDA, 0x41, // load y into acc
        STA, 0x40, // store y in x
        // y = z
        LDA, 0x42, // load z into acc
        STA, 0x41, // store z in y
        // while z < 255
        JMP, 9, // reenter the loop otherwise
        // exit_good:
        EXIT, 1,
    ];

    let mut assembler = Assembler::new();
    println!("Assembled {} bytes", assembler.parse(&lines_of(FIB_SOURCE)).unwrap());
    let actual = assembler.get_output();

    assert_eq!(expected, actual);
}

#[test]
fn test_assemble_and_run() {
    let mut assembler = Assembler::new();
    let nbytes = match assembler.parse(&lines_of(FIB_SOURCE)) {
        Ok(nbytes) => nbytes,
        Err(e) => panic!("Encountered an error parsing the source: {:?}", e),
    };

    println!("Assembled {} bytes", nbytes);
    let mut cpu = bytecpu::cpu::Cpu::new();
    cpu.memory = bytecpu::memory::Memory::new_with_instructions(&assembler.get_output());

    match cpu.run() {
        Err(CpuError::Exit(exit_code)) => {
            if exit_code == 1 {
                println!("Exited correctly");
                return;
            } else {
                unreachable!();
            }
        }
        Err(e) => panic!("{:?}", e),
        Ok(()) => return,
    }
}

#[test]
fn test_fib_source_never_exits_otherwise() {
    // the overflow-exit path is the only termination: Exit(1), nothing else
    let mut assembler = Assembler::new();
    assembler.parse(&lines_of(FIB_SOURCE)).unwrap();
    assert_eq!(assembler.run(), Err(CpuError::Exit(1)));
}

#[test]
fn test_undefined_label() {
    let mut assembler = Assembler::new();
    let r = assembler.parse(&lines_of("\tJMP nowhere\n\tEXIT 0\n"));
    assert_eq!(r, Err(AssemblerError::UndefinedLabel(b"nowhere".to_vec())));
}

#[test]
fn test_forward_and_backward_reference_agree() {
    // one label referenced both before and after its declaration resolves
    // to the same address in both places
    let src = "\
\tJC skip
skip:
\tNOP
\tJMP skip
\tEXIT 0
";
    let mut assembler = Assembler::new();
    assembler.parse(&lines_of(src)).unwrap();
    let buf = assembler.get_output();
    assert_eq!(buf, vec![JC, 1, NOP, JMP, 1, EXIT, 0]);
    assert_eq!(buf[1], buf[4]);
}

#[test]
fn test_round_trip_matches_hand_encoding() {
    // assembling source with no forward references gives exactly the bytes
    // one would write by hand, so loading either runs identically
    let src = "\
\tSETV 10
\tSTR 0x40
\tLDA 0x40
\tSETV 1
\tADD
\tOUT
\tEXIT 0
";
    let hand = vec![SETV, 10, STR, 0x40, LDA, 0x40, SETV, 1, ADD, OUT, EXIT, 0];
    let mut assembler = Assembler::new();
    assembler.parse(&lines_of(src)).unwrap();
    assert_eq!(assembler.get_output(), hand.clone());

    let mut cpu = bytecpu::cpu::Cpu::new();
    cpu.memory = bytecpu::memory::Memory::new_with_instructions(&hand);
    assert_eq!(cpu.run(), Err(CpuError::Exit(0)));
    assert_eq!(cpu.output, vec![11]);
    assert_eq!(11, cpu.accumulator);
}

#[test]
fn test_label_line_without_colon() {
    let mut assembler = Assembler::new();
    let r = assembler.parse(&lines_of("foo\n"));
    assert_eq!(r, Err(AssemblerError::UnexpectedInstruction(b"foo".to_vec(), 0)));
}

#[test]
fn test_zero_op_mnemonic_with_operand() {
    let mut assembler = Assembler::new();
    let r = assembler.parse(&lines_of("\tINC 5\n"));
    assert_eq!(r, Err(AssemblerError::InstructionError(b"INC".to_vec())));
}

#[test]
fn test_decimal_operand_overflow() {
    let mut assembler = Assembler::new();
    let r = assembler.parse(&lines_of("\tSETV 300\n"));
    assert_eq!(r, Err(AssemblerError::InstructionError(b"300".to_vec())));
}

#[test]
fn test_hex_and_binary_operands() {
    let src = "\
\tSETV 0x2A
\tCLN
\tOUT
\tSETV 0b101010
\tCLN
\tOUT
\tEXIT 0
";
    let mut assembler = Assembler::new();
    assembler.parse(&lines_of(src)).unwrap();
    let mut cpu = bytecpu::cpu::Cpu::new();
    assert_eq!(assembler.load_and_run(&mut cpu), Err(CpuError::Exit(0)));
    assert_eq!(cpu.output, vec![42, 42]);
}

#[test]
fn test_comments_and_blank_lines_skipped() {
    let src = "\n;; nothing here\n   \n\tEXIT 7 ;; trailing comment\n";
    let mut assembler = Assembler::new();
    assert_eq!(assembler.parse(&lines_of(src)), Ok(2));
    assert_eq!(assembler.get_output(), vec![EXIT, 7]);
}

#[test]
fn test_parse_line_outcomes() {
    assert_eq!(parse_line(&b"\tADD".to_vec()), LineParse::Resolved(bytecpu::instruction::Instruction::ADD));
    assert_eq!(
        parse_line(&b"\tJMP somewhere".to_vec()),
        LineParse::PendingLabel(JMP, b"somewhere".to_vec())
    );
    assert_eq!(
        parse_line(&b"\tlda 0x10".to_vec()),
        LineParse::Resolved(bytecpu::instruction::Instruction::LDA(0x10))
    );
    assert_eq!(parse_line(&b"\tJMP".to_vec()), LineParse::ParseError(b"JMP".to_vec()));
}
