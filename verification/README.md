# corn-sprite (verified core)

The logic of the corn-sprite system, proved with Verus:

- `memory`: page arithmetic and address types; `frame`, a bitmap frame allocator
  (lowest-first allocation, contiguous first fit, frees that undo allocations, and
  a counter that is always the number of allocated frames);
  `page`, Sv39 page tables with `map`, `map_range` and the kernel mapping, over
  `phys`, physical memory seen as whole pages of 64-bit words; `heap`, the bump
  allocator behind the kernel heap.
- `uart`: which UART registers are written with what, and what each line-status
  read asks for next.
- `sprig`: the Sprig lexer and its syntax tree. The lexer reads whitespace by the
  Unicode White_Space class and words by the alphabetic and alphanumeric classes
  that `char` gives, or that the caller supplies (`Lexer::from_classified`).
- `sprite`: the Sprite bytecode format.

Kernel state that lives in statics, linker symbols, memory-mapped device access
and the RISC-V instructions are in `app/`, which drives the library. There the
library's `PhysMemory` is laid over the RAM that the frame allocator hands out, so
page tables and zeroed frames are written to that RAM.
