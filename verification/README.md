# flynn_kernel

The decision-making core of Flynn OS, a small x86_64 kernel, verified with
Verus.

- `src/` is the verified library: the priority scheduler with aging and
  block/wake (`scheduler`), preemption bookkeeping (`preempt`), the bitmap
  frame allocator (`frame_allocator`), the memory map and layout helpers
  (`memory_map`, `frame`, `layout`, `paging`, `context`), heap statistics
  (`heap`), the keyboard scancode queue (`keyboard`), line editing
  (`terminal`), the shell (`shell`), decimal formatting (`format`), the
  boot marker on the framebuffer (`framebuffer`) and the demo tasks'
  bookkeeping (`demo`).
- `app/` is the bare-metal kernel around it: boot entry, serial port,
  interrupt handlers, the context switch, page mapping and the global
  allocator. It carries out what the library decides.
- `tests/` runs the library on concrete values.
