//! Saved CPU context of a task and the layout of a fresh task stack.
use vstd::prelude::*;
use crate::layout::MappedStack;

verus! {

/// Saved stack pointer of a switched-out task.
#[derive(Debug, Clone, Copy, PartialEq, Eq, Structural)]
pub struct TaskContext {
    pub rsp: u64,
}

/// The stack region for the task in slot `slot`.
pub fn allocate_stack(slot: u64) -> (s: MappedStack)
    requires
        slot < crate::layout::KERNEL_STACK_SLOTS,
    ensures
        s.virt_base == (crate::layout::KERNEL_STACK_BASE + slot * (
            crate::layout::KERNEL_STACK_SIZE as int)) as usize,
        s.len == crate::layout::KERNEL_STACK_SIZE,
{
    MappedStack::allocate(slot)
}

/// Where the first stack pointer of a fresh stack goes: the top of the
/// stack rounded down to 16 bytes, minus one 8-byte slot that receives the
/// entry address.
pub fn initial_stack_pointer(stack_bottom: usize, stack_len: usize) -> (sp: usize)
    requires
        stack_bottom + stack_len <= usize::MAX,
        stack_bottom + stack_len >= 16,
    ensures
        sp == (stack_bottom + stack_len) - (stack_bottom + stack_len) % 16 - 8,
{
    let top = stack_bottom + stack_len;
    assert(top & !0xFusize == top - top % 16) by (bit_vector);
    assert(top >= 16 ==> top & !0xFusize >= 8) by (bit_vector);
    let mut sp = top & !0xFusize;
    sp = sp - 8;
    sp
}

} // verus!
