# kermol

The verified core of the Kermol x86-64 kernel, written in Verus.

- `src/` is the library. Every function in it carries a contract that Verus proves:
  the bitmap allocator and the frame and virtual memory allocators built on it, the
  page tables (kept as a table memory keyed by the physical frame of each table), the
  memory setup at boot (mapping the kernel image, the regions for later use, the stack,
  the heap, and building the allocators), the memory map logic, the linear framebuffer,
  the cursor logic of the text console, and the multiboot2 header.
- `tests/` runs the library on concrete inputs.
- `app/` is the kernel around the library: the boot entry, the Limine requests, the
  GDT and IDT, the heap, writing the page tables into their frames and loading them,
  and the console output. It needs the kernel's text emulation module
  (`vga_text_emulation`: glyph drawing, the text buffer's dimensions and scrolling) to
  build.

The library calls the `x86_64` crate for address arithmetic and page table entries,
and the `limine-protocol-for-rust` crate for the memory map's region types, through
wrappers whose contracts are trusted.
