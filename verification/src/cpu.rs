use vstd::prelude::*;

use crate::error::CpuError;
use crate::flags::Flags;
use crate::instruction::{spec_execute, spec_from_byte, spec_from_byte_and_arg, Instruction};
use crate::memory::{load_image, mem_get, zero_mem, Memory, MEMORY_SIZE};

verus! {

/// The mathematical state of a machine: registers, flags, the memory image
/// and everything emitted on the output channel so far.
#[verifier::ext_equal]
pub struct CpuView {
    pub ip: u8,
    pub accumulator: u8,
    pub user: u8,
    pub flags: Flags,
    pub mem: Seq<u8>,
    pub out: Seq<u8>,
}

/// A machine state is well formed when its memory image has exactly
/// `MEMORY_SIZE` cells.
pub open spec fn cpu_wf(s: CpuView) -> bool {
    s.mem.len() == MEMORY_SIZE
}

/// The state of a machine that was just constructed: everything zeroed,
/// flags reset, nothing emitted.
pub open spec fn initial_cpu() -> CpuView {
    CpuView {
        ip: 0,
        accumulator: 0,
        user: 0,
        flags: Flags { zero: false, overflow: false, clear: false },
        mem: zero_mem(),
        out: Seq::empty(),
    }
}

/// The flag-decay policy applied at the end of every successful step: an
/// armed `clear` lowers all three flags; otherwise a raised condition flag
/// arms `clear` for the next cycle; otherwise a zero register raises `zero`.
pub open spec fn spec_decay(s: CpuView) -> CpuView {
    if s.flags.clear {
        CpuView { flags: Flags { zero: false, overflow: false, clear: false }, ..s }
    } else if s.flags.zero || s.flags.overflow {
        CpuView { flags: Flags { clear: true, ..s.flags }, ..s }
    } else if s.accumulator == 0 || s.user == 0 {
        CpuView { flags: Flags { zero: true, ..s.flags }, ..s }
    } else {
        s
    }
}

/// The outcome of one fetch-decode-execute step: the machine keeps running
/// in a new state, or halts in a final state with a halting condition.
pub enum StepRes {
    Continue(CpuView),
    Halt(CpuView, CpuError),
}

/// Execution tail of a step once an instruction is decoded: run it, advance
/// the instruction pointer past the consumed bytes, then apply flag decay.
pub open spec fn spec_step_exec(i: Instruction, s: CpuView) -> StepRes {
    let (t, r) = spec_execute(i, s);
    match r {
        Ok(_) => StepRes::Continue(spec_decay(CpuView { ip: t.ip.wrapping_add(1), ..t })),
        Err(e) => StepRes::Halt(t, e),
    }
}

/// One full step of the fetch-decode-execute cycle, from the check that the
/// instruction pointer is still inside the address space through flag decay.
pub open spec fn spec_step(s: CpuView) -> StepRes {
    if s.ip as int >= MEMORY_SIZE {
        StepRes::Halt(s, CpuError::AOverflow)
    } else {
        let op = s.mem[s.ip as int];
        match spec_from_byte(op) {
            Some(i) => spec_step_exec(i, s),
            None => {
                let s1 = CpuView { ip: (s.ip + 1) as u8, ..s };
                match mem_get(s1.mem, s1.ip) {
                    Err(e) => StepRes::Halt(s1, e),
                    Ok(arg) => match spec_from_byte_and_arg(op, arg) {
                        Err(e) => StepRes::Halt(s1, e),
                        Ok(i) => spec_step_exec(i, s1),
                    },
                }
            },
        }
    }
}

/// The machine after `n` steps from `s`: still running in some state, or
/// halted in a final state with the halting condition of the step that
/// stopped it.
pub enum RunRes {
    Running(CpuView),
    Halted(CpuView, CpuError),
}

/// Iterated stepping: `spec_run_n(s, n)` is where the machine stands after
/// at most `n` steps from `s`; once halted it stays halted.
pub open spec fn spec_run_n(s: CpuView, n: nat) -> RunRes
    decreases n,
{
    if n == 0 {
        RunRes::Running(s)
    } else {
        match spec_run_n(s, (n - 1) as nat) {
            RunRes::Running(t) => match spec_step(t) {
                StepRes::Continue(u) => RunRes::Running(u),
                StepRes::Halt(u, e) => RunRes::Halted(u, e),
            },
            h => h,
        }
    }
}

/// The virtual machine: an instruction pointer, the `accumulator` and `user`
/// registers, the status flags, an exclusively owned memory, and the buffer
/// collecting everything the `OUT` instruction emits.
pub struct Cpu {
    pub ip: u8,
    pub memory: Memory,
    pub flags: Flags,
    pub user: u8,
    pub accumulator: u8,
    pub output: Vec<u8>,
}

impl View for Cpu {
    type V = CpuView;

    open spec fn view(&self) -> CpuView {
        CpuView {
            ip: self.ip,
            accumulator: self.accumulator,
            user: self.user,
            flags: self.flags,
            mem: self.memory@,
            out: self.output@,
        }
    }
}

impl Cpu {
    /// A machine with zeroed registers, reset flags, empty memory and an
    /// empty output channel.
    pub fn new() -> (r: Self)
        ensures
            r@ == initial_cpu(),
    {
        let r = Cpu {
            ip: 0,
            memory: Memory::new(),
            flags: Flags::default(),
            user: 0,
            accumulator: 0,
            output: Vec::new(),
        };
        proof {
            assert(r@ =~= initial_cpu());
        }
        r
    }

    /// Run until a step halts.  The only non-failure way to stop is the
    /// `Exit` condition; any other error is fatal.  The result is the
    /// halting condition of some step, and the machine is left in exactly
    /// the state that `spec_run_n` assigns to that halted run.  A program
    /// that has not halted after `u64::MAX` steps — unreachable in any
    /// realistic run — is cut off with the reserved `VOverflow` condition.
    #[verifier::loop_isolation(false)]
    pub fn run(&mut self) -> (r: Result<(), CpuError>)
        ensures
            r matches Err(e) && ((exists|n: nat|
                spec_run_n(old(self)@, n) == RunRes::Halted(final(self)@, e))
                || (e == CpuError::VOverflow
                    && spec_run_n(old(self)@, u64::MAX as nat)
                        == RunRes::Running(final(self)@))),
    {
        let ghost s0 = self@;
        let mut fuel: u64 = u64::MAX;
        loop
            invariant
                spec_run_n(s0, (u64::MAX - fuel) as nat) == RunRes::Running(self@),
            decreases fuel,
        {
            if fuel == 0 {
                return Err(CpuError::VOverflow);
            }
            fuel = fuel - 1;
            match self.step() {
                Ok(()) => {
                    proof {
                        assert(spec_run_n(s0, (u64::MAX - fuel) as nat)
                            == RunRes::Running(self@));
                    }
                },
                Err(e) => {
                    proof {
                        assert(spec_run_n(s0, (u64::MAX - fuel) as nat)
                            == RunRes::Halted(self@, e));
                    }
                    return Err(e);
                },
            }
        }
    }

    /// One fetch-decode-execute step, exactly as `spec_step` states it: the
    /// result is `Err` precisely when the step halts, and the machine is
    /// left in the state the specification assigns.
    pub fn step(&mut self) -> (r: Result<(), CpuError>)
        ensures
            spec_step(old(self)@) matches StepRes::Continue(v) ==> r == Ok::<(), CpuError>(())
                && final(self)@ == v,
            spec_step(old(self)@) matches StepRes::Halt(v, e) ==> r == Err::<(), CpuError>(e)
                && final(self)@ == v,
    {
        if self.ip >= 0xFF || self.ip as usize >= MEMORY_SIZE {
            return Err(CpuError::AOverflow);
        }
        let op = match self.memory.get(self.ip) {
            Ok(b) => b,
            Err(e) => return Err(e),
        };
        let instruction = match Instruction::from_byte(op) {
            Some(single_byte) => single_byte,
            None => {
                self.ip = self.ip + 1;
                let arg = match self.memory.get(self.ip) {
                    Ok(b) => b,
                    Err(e) => return Err(e),
                };
                match Instruction::from_byte_and_arg(op, arg) {
                    Ok(i) => i,
                    Err(e) => return Err(e),
                }
            },
        };

        match instruction.execute(self) {
            Ok(()) => (),
            Err(e) => return Err(e),
        }

        self.ip = self.ip.wrapping_add(1);

        if self.flags.clear {
            self.flags.clear_flags();
        } else if self.flags.any() {
            self.flags.clear = true;
        } else {
            if self.accumulator == 0 || self.user == 0 {
                self.flags.zero = true;
            }
        }

        Ok(())
    }
}


/// The state of a machine booted from an assembled buffer `p`: the program
/// loaded at address 0, everything else as at construction.
pub open spec fn boot_cpu(p: Seq<u8>) -> CpuView {
    CpuView { mem: load_image(p), ..initial_cpu() }
}

/// Flag decay timing.
///
/// From a state with quiet flags about to execute `INC` at accumulator 255:
/// the `INC` step raises `overflow` and arms `clear`; the next step — a `JO`
/// — still observes `overflow` and takes its jump, after which all flags are
/// lowered; the step after that — another `JO` at the jump target — sees
/// `overflow` cleared and falls through.
pub proof fn lemma_flag_decay_window(s: CpuView, v: u8, w: u8)
    requires
        cpu_wf(s),
        !s.flags.zero && !s.flags.overflow && !s.flags.clear,
        s.accumulator == 255,
        s.user != 0,
        (s.ip as int) + 2 < 255,
        s.mem[s.ip as int] == 0x03,
        s.mem[s.ip as int + 1] == 0x0F,
        s.mem[s.ip as int + 2] == v,
        (v as int) + 2 < 255,
        s.mem[v as int + 1] == 0x0F,
        s.mem[v as int + 2] == w,
    ensures
        spec_step(s) matches StepRes::Continue(s1) && s1.flags.overflow && s1.flags.clear
            && (spec_step(s1) matches StepRes::Continue(s2) && s2.ip == v + 1
                && !s2.flags.zero && !s2.flags.overflow && !s2.flags.clear
                && (spec_step(s2) matches StepRes::Continue(s3) && s3.ip == v + 3)),
{
    let s1 = match spec_step(s) {
        StepRes::Continue(t) => t,
        StepRes::Halt(t, e) => t,
    };
    assert(spec_step(s) matches StepRes::Continue(t) && t == s1);
    let s2 = match spec_step(s1) {
        StepRes::Continue(t) => t,
        StepRes::Halt(t, e) => t,
    };
    assert(spec_step(s1) matches StepRes::Continue(t) && t == s2);
    assert(s2.ip == v + 1);
}
} // verus!
