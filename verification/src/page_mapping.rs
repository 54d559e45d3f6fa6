//! Allocators of virtual pages: a bitmap with one bit per page of a virtual region.
use vstd::prelude::*;

use crate::arch::{is_canonical, virt_add, virt_addr_new};
use crate::bitmap_allocator::{all_bits_are, flag_range_bits, max_bitmap_bytes, BitmapAllocator};
use crate::error::MemoryError;
use crate::frame_allocation::{FrameAllocator, LinearFrameAllocator};
use crate::page_table::RecursivePageTable;
use crate::PAGE_SIZE;

verus! {

/// The first virtual address that the virtual memory allocator hands out.
pub const PAGE_ALLOCATOR_START: u64 = 0xFFFF_E000_0000_0000;

/// The first virtual address of the virtual page allocator.
pub const VIRTUAL_MEMORY_BASE: u64 = 0xFFFF_8000_0000_0000;

/// The address of page `page` of the region that starts at `base`, when it can be formed.
pub open spec fn page_address(base: u64, page: int) -> Option<u64> {
    if base + page * 4096 <= u64::MAX && is_canonical((base + page * 4096) as u64) {
        Some((base + page * 4096) as u64)
    } else {
        None
    }
}

/// Whether the pages that `allocate_result(pages)` would give start at an address that
/// can be formed from `base`.
pub open spec fn result_page_fits(a: BitmapAllocator, pages: u64, base: u64) -> bool {
    a.allocate_result(pages) matches Ok(p) ==> page_address(base, p as int) is Some
}

/// Hands out virtual memory from `PAGE_ALLOCATOR_START` on, one bit per page.
pub struct VirtualMemoryAllocator(pub BitmapAllocator);

impl VirtualMemoryAllocator {
    /// Creates an allocator over `size` bytes of bitmap, on which no page is free.
    pub fn new(
        size: usize,
        frame_allocator: &mut LinearFrameAllocator,
        page_table: &mut RecursivePageTable,
    ) -> (r: Result<VirtualMemoryAllocator, MemoryError>)
        requires
            size <= max_bitmap_bytes(),
            old(page_table).wf(),
            BitmapAllocator::new_safe(size as int, *old(frame_allocator), *old(page_table)),
        ensures
            RecursivePageTable::keeps_used_entries(old(page_table), final(page_table)),
            r matches Ok(a) && a.0.wf() && a.0.size_bits() == size * 8 && a.0.last() == 0
                && a.0.bits() == Seq::new(size as nat * 8, |i: int| true),
            LinearFrameAllocator::used_at_most(
                old(frame_allocator),
                final(frame_allocator),
                (4 * BitmapAllocator::bitmap_pages(size as int)) as nat,
            ),
    {
        let bitmap = BitmapAllocator::new(size, true, frame_allocator, page_table)?;
        Ok(VirtualMemoryAllocator(bitmap))
    }

    /// Allocates `pages` contiguous pages and returns the address of the first.
    pub fn alloc_contiguous(&mut self, pages: usize) -> (r: Result<u64, MemoryError>)
        requires
            old(self).0.wf(),
            old(self).0.alloc_safe(pages as u64),
            result_page_fits(old(self).0, pages as u64, PAGE_ALLOCATOR_START),
        ensures
            final(self).0.wf(),
            final(self).0.size_bits() == old(self).0.size_bits(),
            r == match old(self).0.allocate_result(pages as u64) {
                Ok(p) => Ok(page_address(PAGE_ALLOCATOR_START, p as int)->0),
                Err(e) => Err(e),
            },
            match old(self).0.allocate_result(pages as u64) {
                Ok(p) => final(self).0.bits() == flag_range_bits(
                    old(self).0.bits(),
                    p as int,
                    p + pages,
                    true,
                ),
                Err(_) => final(self).0.bytes() == old(self).0.bytes(),
            },
    {
        match self.0.allocate(pages as u64) {
            Ok(page) => Ok(virt_add(PAGE_ALLOCATOR_START, page * PAGE_SIZE as u64)),
            Err(e) => Err(e),
        }
    }

    /// Frees the `pages` pages from virtual address `addr` on: when all of them are taken
    /// they are cleared; a range with a free page is a double free, and a range past the
    /// bitmap is out of bounds.
    pub fn free(&mut self, addr: u64, pages: usize) -> (r: Result<(), MemoryError>)
        requires
            old(self).0.wf(),
            addr >= PAGE_ALLOCATOR_START,
            (addr - PAGE_ALLOCATOR_START) / 4096 + pages <= u64::MAX,
        ensures
            final(self).0.wf(),
            final(self).0.size_bits() == old(self).0.size_bits(),
            final(self).0.last() == old(self).0.last(),
            r == (if (addr - PAGE_ALLOCATOR_START) / 4096 + pages > old(self).0.bound() {
                Err::<(), MemoryError>(MemoryError::OutOfBounds)
            } else if !all_bits_are(
                old(self).0.bits(),
                (addr - PAGE_ALLOCATOR_START) / 4096,
                (addr - PAGE_ALLOCATOR_START) / 4096 + pages,
                true,
            ) {
                Err(MemoryError::DoubleFree)
            } else {
                Ok(())
            }),
            r is Ok ==> final(self).0.bits() == flag_range_bits(
                old(self).0.bits(),
                (addr - PAGE_ALLOCATOR_START) / 4096,
                (addr - PAGE_ALLOCATOR_START) / 4096 + pages,
                false,
            ),
            r is Err ==> final(self).0.bytes() == old(self).0.bytes(),
    {
        let offset = (addr - PAGE_ALLOCATOR_START) / PAGE_SIZE as u64;
        self.0.free_range(&(offset..(offset + pages as u64)))
    }
}

/// Hands out virtual pages from `VIRTUAL_MEMORY_BASE` on, one bit per page.
pub struct VirtualPageAllocator(pub BitmapAllocator);

impl VirtualPageAllocator {
    /// Allocates `pages` contiguous pages and returns the address of the first.
    pub fn allocate(&mut self, pages: u64) -> (r: Result<u64, MemoryError>)
        requires
            old(self).0.wf(),
            old(self).0.alloc_safe(pages),
            result_page_fits(old(self).0, pages, VIRTUAL_MEMORY_BASE),
        ensures
            final(self).0.wf(),
            final(self).0.size_bits() == old(self).0.size_bits(),
            r == match old(self).0.allocate_result(pages) {
                Ok(p) => Ok(page_address(VIRTUAL_MEMORY_BASE, p as int)->0),
                Err(e) => Err(e),
            },
            match old(self).0.allocate_result(pages) {
                Ok(p) => final(self).0.bits() == flag_range_bits(
                    old(self).0.bits(),
                    p as int,
                    p + pages,
                    true,
                ),
                Err(_) => final(self).0.bytes() == old(self).0.bytes(),
            },
    {
        match self.0.allocate(pages) {
            Ok(page) => Ok(virt_addr_new(VIRTUAL_MEMORY_BASE + page * PAGE_SIZE as u64)),
            Err(e) => Err(e),
        }
    }

    /// Frees the page at virtual address `addr`.
    pub fn free(&mut self, addr: u64) -> (r: Result<(), MemoryError>)
        requires
            old(self).0.wf(),
            addr >= VIRTUAL_MEMORY_BASE,
        ensures
            final(self).0.wf(),
            final(self).0.size_bits() == old(self).0.size_bits(),
            r == (if (addr - VIRTUAL_MEMORY_BASE) / 4096 >= old(self).0.size_bits() {
                Err(MemoryError::OutOfBounds)
            } else if !old(self).0.bit(((addr - VIRTUAL_MEMORY_BASE) / 4096) as int) {
                Err(MemoryError::DoubleFree)
            } else {
                Ok(())
            }),
            r is Ok ==> final(self).0.bits() == old(self).0.bits().update(
                ((addr - VIRTUAL_MEMORY_BASE) / 4096) as int,
                false,
            ),
            r is Err ==> final(self).0.bytes() == old(self).0.bytes(),
    {
        let offset = (addr - VIRTUAL_MEMORY_BASE) / PAGE_SIZE as u64;
        self.0.free(offset)
    }
}

} // verus!
