# rust_os

A small x86_64 kernel whose decision-making parts form a verified library.

- `src/` — the library, checked by Verus:
  - `keyboard_input_buffer` — a 128-slot ring buffer of scancodes (FIFO, holds at most 127 keys).
  - `interrupts` — PIC vector layout and the interrupt indices.
  - `memory` — free-region selection, region layout, the boot frame allocator, and the heap pages.
  - `task::CLI` — the shell's lexer, number parsing, and what each command line asks for.
  - `task::read_drive` — ATA register values and word/byte packing, directory sector
    listing, entry writing, and the free-sector search, as steps driven by the kernel.
  - `task::system_vars` — shell settings.
- `tests/` — tests of the library on concrete values.
- `app/` — the bare-metal kernel around the library: boot entry, GDT/IDT, interrupt
  handlers, port I/O, paging, the heap, the executor and the shell task. It targets
  `x86_64` bare metal with a nightly toolchain (`abi_x86_interrupt`, `no_std`).
