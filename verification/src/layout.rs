//! Fixed virtual addresses of kernel subsystems, and the mapped stacks of
//! kernel threads.
use vstd::prelude::*;

verus! {

/// Start of the kernel heap (a 64-bit address, so it is held as `u64`).
pub const KERNEL_HEAP_START: u64 = 0x4444_4444_0000;

/// Size of the kernel heap in bytes.
pub const KERNEL_HEAP_SIZE: usize = 1048576;

/// Base of the region where kernel thread stacks are mapped (upper half).
pub const KERNEL_STACK_BASE: u64 = 0xFFFF_A000_0000_0000;

/// Size of one kernel thread stack in bytes (eight pages).
pub const KERNEL_STACK_SIZE: usize = 32768;

/// Number of stack slots; a slot index is what `allocate_stack` takes.
pub const KERNEL_STACK_SLOTS: u64 = 64;

/// Virtual address of the stack in slot `slot`.
pub fn kernel_stack_virt(slot: u64) -> (addr: u64)
    requires
        KERNEL_STACK_BASE + slot * (KERNEL_STACK_SIZE as int) <= u64::MAX,
    ensures
        addr == KERNEL_STACK_BASE + slot * (KERNEL_STACK_SIZE as int),
{
    KERNEL_STACK_BASE + slot * (KERNEL_STACK_SIZE as u64)
}

/// A kernel thread stack: a region of virtual memory that the caller maps
/// to fresh frames.
#[derive(Debug, Clone, Copy, PartialEq, Eq, Structural)]
pub struct MappedStack {
    pub virt_base: usize,
    pub len: usize,
}

impl MappedStack {
    /// The stack region of slot `slot`; slots at or past
    /// `KERNEL_STACK_SLOTS` have no room and are not accepted.
    pub fn allocate(slot: u64) -> (s: Self)
        requires
            slot < KERNEL_STACK_SLOTS,
        ensures
            s.virt_base == (KERNEL_STACK_BASE + slot * (KERNEL_STACK_SIZE as int)) as usize,
            s.len == KERNEL_STACK_SIZE,
    {
        let virt = kernel_stack_virt(slot) as usize;
        Self { virt_base: virt, len: KERNEL_STACK_SIZE }
    }
}

} // verus!
