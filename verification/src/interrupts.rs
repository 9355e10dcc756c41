//! Interrupt vector numbers of the two programmable interrupt controllers.
use vstd::prelude::*;

verus! {

/// First vector of the primary PIC.
pub const PIC_1_OFFSET: u8 = 32;

/// First vector of the secondary PIC.
pub const PIC_2_OFFSET: u8 = 40;

/// Hardware interrupts the kernel handles.
#[derive(Debug, Clone, Copy, PartialEq, Eq, Structural)]
pub enum InterruptIndex {
    Timer,
    Keyboard,
}

impl InterruptIndex {
    /// The interrupt vector: IRQ 0 and IRQ 1 of the primary PIC.
    pub fn as_u8(self) -> (v: u8)
        ensures
            v == match self {
                InterruptIndex::Timer => PIC_1_OFFSET,
                InterruptIndex::Keyboard => (PIC_1_OFFSET + 1) as u8,
            },
    {
        match self {
            InterruptIndex::Timer => PIC_1_OFFSET,
            InterruptIndex::Keyboard => PIC_1_OFFSET + 1,
        }
    }
}

} // verus!
