use vstd::prelude::*;

verus! {

/// The three-bit status register of the machine.
///
/// `zero` and `overflow` are set by instruction semantics; `clear` arms the
/// one-cycle-delayed auto-clear policy applied after each executed step, so a
/// flag raised during one step stays observable through the following step
/// and disappears during the step after that.
#[derive(Debug, Clone, Copy, PartialEq, Eq, Structural)]
pub struct Flags {
    pub zero: bool,
    pub overflow: bool,
    pub clear: bool,
}

impl Flags {
    /// Whether any of the two condition flags is raised.
    pub fn any(&self) -> (r: bool)
        ensures
            r == (self.zero || self.overflow),
    {
        self.zero || self.overflow
    }

    /// Lower all three flags at once.
    pub fn clear_flags(&mut self)
        ensures
            *final(self) == (Flags { zero: false, overflow: false, clear: false }),
    {
        self.zero = false;
        self.overflow = false;
        self.clear = false;
    }
}

impl Default for Flags {
    /// A freshly reset register: all three flags lowered.
    fn default() -> (r: Self)
        ensures
            r == (Flags { zero: false, overflow: false, clear: false }),
    {
        Flags { zero: false, overflow: false, clear: false }
    }
}

} // verus!
