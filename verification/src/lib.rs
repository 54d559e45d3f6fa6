//! The core of the Kermol kernel: a bitmap allocator for frames and virtual pages,
//! frame allocators, four-level x86-64 page tables kept in a table memory keyed by
//! physical frame, the memory map logic and the memory setup at boot, a linear
//! framebuffer, the cursor of the text console, and the multiboot2 header.
use vstd::prelude::*;

pub mod arch;
pub mod bitmap_allocator;
pub mod error;
pub mod frame_allocation;
pub mod interrupts;
pub mod linear_framebuffer;
pub mod memory_map;
pub mod memory_setup;
pub mod multiboot2_header;
pub mod page_mapping;
pub mod page_table;
pub mod paging_controller;
pub mod vga_text_writer;

verus! {

/// One kibibyte in bytes.
pub const KIBIBYTE: usize = 1024;

/// One mebibyte in bytes.
pub const MEBIBYTE: usize = 1048576;

/// Size of a page frame in bytes.
pub const PAGE_SIZE: usize = 4096;

/// Returns how many pages `size_bytes` bytes need to fit.
pub fn size_in_pages(size_bytes: usize) -> (pages: usize)
    ensures
        pages == (size_bytes + 4095) / 4096,
{
    let mut size: usize = size_bytes / PAGE_SIZE;
    if size_bytes % PAGE_SIZE != 0 {
        size += 1;
    }
    size
}

} // verus!
