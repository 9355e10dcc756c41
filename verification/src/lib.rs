//! Core logic of a small x86_64 hobby kernel: frame allocation, the task
//! scheduler, preemption bookkeeping, console line editing and the shell.
pub mod context;
pub mod format;
pub mod frame;
pub mod layout;
pub mod preempt;
pub mod scheduler;
pub mod memory_map;
pub mod frame_allocator;
pub mod keyboard;
pub mod terminal;
pub mod shell;
pub mod heap;
pub mod demo;
pub mod interrupts;
pub mod framebuffer;
pub mod paging;
