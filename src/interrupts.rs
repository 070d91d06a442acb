//! Interrupt vector numbers of the two chained interrupt controllers.
use vstd::prelude::*;

verus! {

/// First vector of the primary controller: right after the 32 CPU
/// exceptions.
pub const PIC1_OFFSET: u8 = 32;

/// First vector of the secondary controller.
pub const PIC2_OFFSET: u8 = 40;

/// Hardware interrupts that the kernel handles.
#[derive(Clone, Copy, Debug, PartialEq, Eq, Structural)]
pub enum InterruptIndex {
    Timer,
    Keyboard,
}

impl InterruptIndex {
    /// The vector the interrupt arrives on: the timer on the primary
    /// controller's first line, the keyboard on the next.
    pub fn as_u8(self) -> (r: u8)
        ensures
            r == (match self {
                InterruptIndex::Timer => PIC1_OFFSET,
                InterruptIndex::Keyboard => (PIC1_OFFSET + 1) as u8,
            }),
    {
        match self {
            InterruptIndex::Timer => PIC1_OFFSET,
            InterruptIndex::Keyboard => PIC1_OFFSET + 1,
        }
    }
}

} // verus!
