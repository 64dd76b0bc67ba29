use bytecpu::cpu::Cpu;
use bytecpu::error::CpuError;
use bytecpu::memory::Memory;

pub const NOP: u8 = 0x00;
pub const LDA: u8 = 0x01;
pub const STA: u8 = 0x02;
pub const INC: u8 = 0x03;
pub const DEC: u8 = 0x04;
pub const SETV: u8 = 0x05;
pub const SETA: u8 = 0x06;
pub const STR: u8 = 0x07;
pub const LOAD: u8 = 0x08;
pub const ADD: u8 = 0x09;
pub const SUB: u8 = 0x0A;
pub const JMP: u8 = 0x0B;
pub const JC: u8 = 0x0C;
pub const JZ: u8 = 0x0E;
pub const JO: u8 = 0x0F;
pub const OUT: u8 = 0x10;
pub const EXIT: u8 = 0x11;
pub const CLN: u8 = 0x12;

#[test]
fn test_acc_ops() {
    let mut cpu = Cpu::new();
    cpu.memory = Memory::new_with_instructions(&vec![
        SETV, 10, STR, 0x40, LDA, 0x40, SETV, 1, ADD, OUT, EXIT, 0,
    ]);

    match cpu.run() {
        Err(CpuError::Exit(code)) => assert_eq!(code, 0),
        Err(e) => panic!("{:?}", e),
        _ => (),
    };
    assert_eq!(11, cpu.accumulator);
}

#[test]
fn test_load_store() {
    let mut cpu = Cpu::new();
    println!("Expected output: 0, 10, 11");
    cpu.memory = Memory::new_with_instructions(&vec![
        OUT, // -> 0
        SETV, 10, STR, 0x40, LDA, 0x40, OUT, // -> 10
        INC, STA, 0x40, LOAD, 0x40, CLN, OUT, // -> 11
        EXIT, 0,
    ]);
    assert_eq!(cpu.run(), Err(CpuError::Exit(0)));
}

#[test]
fn test_fib() {
    let mut cpu = Cpu::new();
    cpu.memory = Memory::new_with_instructions(&vec![
        // init:
        SETV, 0, STR, 0x40, // x = 0
        STR, 0x42, // z = 0
        SETV, 1, STR, 0x41, // y = 1
        // loop

        // print z
        LDA, 0x42, OUT, // z = x + y
        LDA, 0x40, // load x into acc
        LOAD, 0x41, // load y into usr
        ADD,  // add y to acc (x) -> acc = x + y
        JO, 31, // exit if overflow
        STA, 0x42, // store acc in z
        // x = y
        LDA, 0x41, // load y into acc
        STA, 0x40, // store y in x
        // y = z
        LDA, 0x42, // load z into acc
        STA, 0x41, // store z in y
        // while z < 255
        JMP, 9, // reenter the loop otherwise
        // exit_good:
        EXIT, 1,
    ]);

    match cpu.run() {
        Err(CpuError::Exit(1)) => println!("Exited correctly"),
        Err(CpuError::Exit(code)) => panic!("Exited with code {}", code),
        Err(e) => panic!("{:?}", e),
        _ => (),
    };
}

#[test]
fn test_out_sequence_acc_ops() {
    // the accumulator-arithmetic scenario emits 11 and exits with code 0
    let mut cpu = Cpu::new();
    cpu.memory = Memory::new_with_instructions(&vec![
        SETV, 10, STR, 0x40, LDA, 0x40, SETV, 1, ADD, OUT, EXIT, 0,
    ]);
    assert_eq!(cpu.run(), Err(CpuError::Exit(0)));
    assert_eq!(cpu.output, vec![11]);
}

#[test]
fn test_out_sequence_load_store() {
    // the load/store/clone scenario emits 0, 10, 11 and exits with code 0
    let mut cpu = Cpu::new();
    cpu.memory = Memory::new_with_instructions(&vec![
        OUT, SETV, 10, STR, 0x40, LDA, 0x40, OUT, INC, STA, 0x40, LOAD, 0x40, CLN, OUT, EXIT, 0,
    ]);
    assert_eq!(cpu.run(), Err(CpuError::Exit(0)));
    assert_eq!(cpu.output, vec![0, 10, 11]);
}

#[test]
fn test_memory_bounds() {
    // any access at index 255 fails with MemoryError and never panics
    let mut m = Memory::new();
    assert_eq!(m.get(255), Err(CpuError::MemoryError(255)));
    assert_eq!(m.set(255, 7), Err(CpuError::MemoryError(255)));
    assert_eq!(m.get(254), Ok(0));
    assert_eq!(m.set(254, 9), Ok(()));
    assert_eq!(m.get(254), Ok(9));
}

#[test]
fn test_memory_loads_program() {
    let m = Memory::new_with_instructions(&vec![1, 2, 3]);
    assert_eq!(m.get(0), Ok(1));
    assert_eq!(m.get(2), Ok(3));
    assert_eq!(m.get(3), Ok(0));
}

#[test]
fn test_flag_decay_window() {
    // INC at accumulator 255 raises overflow; the next step's JO still
    // observes it, and the step after that sees it cleared
    let mut cpu = Cpu::new();
    cpu.memory = Memory::new_with_instructions(&vec![
        SETV, 255, // user := 255
        CLN,  // acc := 255 (zero flag decays meanwhile)
        NOP,  // the armed clear wipes the flags: quiet before INC
        INC,  // acc wraps to 0, raises zero and overflow
        JO, 8, // observes overflow, jumps to byte 9
        EXIT, 0, // failure: overflow was not observable
        JO, 13, // overflow already cleared: must fall through
        EXIT, 1, // success
        NOP, EXIT, 2, // failure: overflow survived two steps
    ]);
    assert_eq!(cpu.run(), Err(CpuError::Exit(1)));
}

#[test]
fn test_malformed_opcode() {
    let mut cpu = Cpu::new();
    cpu.memory = Memory::new_with_instructions(&vec![0x13, 0]);
    assert_eq!(cpu.run(), Err(CpuError::MalformedInput(0x13, 0)));
}

#[test]
fn test_lda_out_of_bounds() {
    let mut cpu = Cpu::new();
    cpu.memory = Memory::new_with_instructions(&vec![LDA, 255]);
    assert_eq!(cpu.run(), Err(CpuError::MemoryError(255)));
}

#[test]
fn test_ip_exhausts_address_space() {
    // an empty memory is all NOPs; the instruction pointer runs off the end
    let mut cpu = Cpu::new();
    assert_eq!(cpu.run(), Err(CpuError::AOverflow));
}

#[test]
fn test_sub_wraps_without_overflow_flag() {
    // SUB wraps silently: 0 - 1 = 255, then EXIT with the accumulator via OUT
    let mut cpu = Cpu::new();
    cpu.memory = Memory::new_with_instructions(&vec![SETV, 1, SUB, OUT, EXIT, 0]);
    assert_eq!(cpu.run(), Err(CpuError::Exit(0)));
    assert_eq!(cpu.output, vec![255]);
}

#[test]
fn test_dec_wraps() {
    let mut cpu = Cpu::new();
    cpu.memory = Memory::new_with_instructions(&vec![DEC, OUT, EXIT, 0]);
    assert_eq!(cpu.run(), Err(CpuError::Exit(0)));
    assert_eq!(cpu.output, vec![255]);
}

#[test]
fn test_jz_and_seta() {
    // JZ jumps while the zero flag is fresh; SETA loads user from memory
    let mut cpu = Cpu::new();
    cpu.memory = Memory::new_with_instructions(&vec![
        SETA, 1, // user := Memory[1] == 1
        JZ, 5, // the first step's decay raised zero: jump to byte 6
        EXIT, 3, // (reached only if JZ did not jump)
        EXIT, 4,
    ]);
    assert_eq!(cpu.run(), Err(CpuError::Exit(4)));
}
