use vstd::prelude::*;

use crate::error::CpuError;

verus! {

/// Number of byte cells in the machine's memory; all valid addresses are
/// strictly below it.
pub const MEMORY_SIZE: usize = 255;

/// The memory image of a machine that was just switched on: every cell zero.
pub open spec fn zero_mem() -> Seq<u8> {
    Seq::new(MEMORY_SIZE as nat, |i: int| 0u8)
}

/// The memory image after loading a program `p` at address 0: the program's
/// bytes at the low end, zeroes everywhere above them.
pub open spec fn load_image(p: Seq<u8>) -> Seq<u8> {
    Seq::new(MEMORY_SIZE as nat, |i: int| if i < p.len() { p[i] } else { 0u8 })
}

/// What a bounds-checked read of image `m` at address `idx` yields.
pub open spec fn mem_get(m: Seq<u8>, idx: u8) -> Result<u8, CpuError> {
    if (idx as int) < MEMORY_SIZE {
        Ok(m[idx as int])
    } else {
        Err(CpuError::MemoryError(idx))
    }
}

/// A fixed-size byte store with bounds-checked access.
///
/// Every access index must be below `MEMORY_SIZE`; a violation is reported as
/// `CpuError::MemoryError`, never a silent wrap.  The only mutation path is
/// `set`.
pub struct Memory {
    internal: Vec<u8>,
}

impl View for Memory {
    type V = Seq<u8>;

    closed spec fn view(&self) -> Seq<u8> {
        self.internal@
    }
}

impl Memory {
    #[verifier::type_invariant]
    closed spec fn wf(self) -> bool {
        self.internal@.len() == MEMORY_SIZE
    }

    fn is_valid_idx(idx: u8) -> (r: Result<(), CpuError>)
        ensures
            r == if (idx as int) < MEMORY_SIZE {
                Ok::<(), CpuError>(())
            } else {
                Err::<(), CpuError>(CpuError::MemoryError(idx))
            },
    {
        if idx as usize >= MEMORY_SIZE {
            Err(CpuError::MemoryError(idx))
        } else {
            Ok(())
        }
    }

    /// An all-zero memory.
    pub fn new() -> (r: Self)
        ensures
            r@ == zero_mem(),
    {
        let internal: Vec<u8> = vec![0u8; MEMORY_SIZE];
        let r = Memory { internal };
        proof {
            assert(r@ =~= zero_mem());
        }
        r
    }

    /// A memory pre-loaded with an assembled program: `instr` fills the low
    /// end, the remainder is zero.  The program must leave at least one cell
    /// free, so its length is strictly below `MEMORY_SIZE`.
    pub fn new_with_instructions(instr: &Vec<u8>) -> (r: Self)
        requires
            instr@.len() < MEMORY_SIZE,
        ensures
            r@ == load_image(instr@),
    {
        let mut internal: Vec<u8> = vec![0u8; MEMORY_SIZE];
        let mut i: usize = 0;
        while i < instr.len()
            invariant
                i <= instr@.len(),
                instr@.len() < MEMORY_SIZE,
                internal@.len() == MEMORY_SIZE,
                forall|j: int| 0 <= j < i ==> internal@[j] == instr@[j],
                forall|j: int| i <= j < MEMORY_SIZE ==> internal@[j] == 0u8,
            decreases instr@.len() - i,
        {
            internal[i] = instr[i];
            i += 1;
        }
        let r = Memory { internal };
        proof {
            assert(r@ =~= load_image(instr@));
        }
        r
    }

    /// Bounds-checked write: stores `v` at `idx`, or fails with
    /// `MemoryError(idx)` leaving the memory unchanged.
    pub fn set(&mut self, idx: u8, v: u8) -> (r: Result<(), CpuError>)
        ensures
            (idx as int) < MEMORY_SIZE ==> r == Ok::<(), CpuError>(())
                && final(self)@ == old(self)@.update(idx as int, v),
            (idx as int) >= MEMORY_SIZE ==> r == Err::<(), CpuError>(CpuError::MemoryError(idx))
                && final(self)@ == old(self)@,
    {
        match Self::is_valid_idx(idx) {
            Err(e) => Err(e),
            Ok(()) => {
                proof {
                    use_type_invariant(&*self);
                }
                self.internal[idx as usize] = v;
                Ok(())
            }
        }
    }

    /// Bounds-checked read: yields the byte at `idx`, or fails with
    /// `MemoryError(idx)`.
    pub fn get(&self, idx: u8) -> (r: Result<u8, CpuError>)
        ensures
            r == mem_get(self@, idx),
    {
        match Self::is_valid_idx(idx) {
            Err(e) => Err(e),
            Ok(()) => {
                proof {
                    use_type_invariant(self);
                }
                Ok(self.internal[idx as usize])
            }
        }
    }
}

} // verus!
