//! Physical frames of 4 KiB.
use vstd::prelude::*;

verus! {

/// Size of a physical frame and of a page, in bytes.
pub const PAGE_SIZE: usize = 4096;

/// A 4 KiB physical frame, identified by its frame number.
#[derive(Debug, Clone, Copy, PartialEq, Eq, Structural)]
pub struct Frame {
    pub number: usize,
}

impl Frame {
    /// The frame that contains the physical address `addr`.
    pub fn containing_address(addr: usize) -> (f: Self)
        ensures
            f.number == addr / PAGE_SIZE,
    {
        Self { number: addr / PAGE_SIZE }
    }

    /// The physical address of the first byte of the frame.
    pub fn start_address(self) -> (addr: usize)
        requires
            self.number * PAGE_SIZE <= usize::MAX,
        ensures
            addr == self.number * PAGE_SIZE,
    {
        self.number * PAGE_SIZE
    }
}

/// A frame's start address lies in that frame, and every address lies in
/// the frame that `containing_address` names, at most a page past its start.
pub proof fn lemma_frame_address_roundtrip(f: Frame, addr: usize)
    requires
        f.number * PAGE_SIZE <= usize::MAX,
    ensures
        (f.number * PAGE_SIZE) / (PAGE_SIZE as int) == f.number,
        (addr / PAGE_SIZE) * PAGE_SIZE <= addr < (addr / PAGE_SIZE) * PAGE_SIZE + PAGE_SIZE,
{
}

} // verus!
