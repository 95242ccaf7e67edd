//! Interrupt vector numbering for the two programmable interrupt
//! controllers.  Loading the descriptor table and programming the
//! controllers is hardware work that lives with the kernel around this
//! crate; the vector arithmetic lives here.

use vstd::prelude::*;

verus! {

/// First vector the primary controller is remapped to: the 32 slots below
/// it belong to CPU exceptions.
pub const PIC_1_OFFSET: u8 = 32;

/// First vector of the secondary controller, directly after the primary
/// controller's eight lines.
pub const PIC_2_OFFSET: u8 = PIC_1_OFFSET + 8;

/// Hardware interrupt lines the kernel handles, by controller slot.
#[derive(Clone, Copy, Debug, PartialEq, Eq, Structural)]
pub enum InterruptIndex {
    Timer,
    Keyboard,
}

impl InterruptIndex {
    /// The interrupt vector this line is remapped to.
    pub open spec fn spec_vector(self) -> int {
        match self {
            InterruptIndex::Timer => PIC_1_OFFSET as int,
            InterruptIndex::Keyboard => PIC_1_OFFSET as int + 1,
        }
    }

    pub fn as_u8(self) -> (v: u8)
        ensures
            v == self.spec_vector(),
    {
        match self {
            InterruptIndex::Timer => PIC_1_OFFSET,
            InterruptIndex::Keyboard => PIC_1_OFFSET + 1,
        }
    }

    pub fn as_usize(self) -> (v: usize)
        ensures
            v == self.spec_vector(),
    {
        let v = self.as_u8();
        v as usize
    }
}

} // verus!
