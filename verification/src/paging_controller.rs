//! The kernel's paging state, and memory allocated through it.
use vstd::prelude::*;

use crate::arch::{is_canonical, phys_limit, PRESENT, WRITABLE};
use crate::error::MemoryError;
use crate::bitmap_allocator::{all_bits_are, flag_range_bits, BitmapAllocator};
use crate::frame_allocation::{frames_come_fresh, BitmapFrameAllocator, FrameAllocator};
use crate::page_mapping::{page_address, result_page_fits, VirtualMemoryAllocator, PAGE_ALLOCATOR_START};
use crate::page_table::{entry_translation, in_one_table_span, pages_are_canonical, RecursivePageTable};
use crate::size_in_pages;

verus! {

/// Whether `pages` pages from virtual address `to` can be mapped to the frames from
/// `from` on without panicking.
pub open spec fn mapping_fits(pt: RecursivePageTable, from: u64, to: u64, pages: int) -> bool {
    &&& pt.wf()
    &&& pages * 4096 <= usize::MAX
    &&& from % 4096 == 0
    &&& pages > 0 ==> from + (pages - 1) * 4096 < phys_limit()
    &&& pages > 0 ==> is_canonical(to)
    &&& pages_are_canonical(to, pages)
}

/// Whether every page of `pages` pages from `to` whose entry would not be zero has as its
/// level 1 entry its frame from `from` on with `flags`, and so translates to that frame.
pub open spec fn pages_map_to(pt: RecursivePageTable, from: u64, to: u64, pages: int, flags: u64) -> bool {
    forall|i: int|
        0 <= i < pages && ((from + 4096 * i) as u64 | flags) != 0 ==> #[trigger] pt.translation(
            (to + 4096 * i) as u64,
        ) == entry_translation((from + 4096 * i) as u64 | flags, (to + 4096 * i) as u64)
            && pt.leaf_entry((to + 4096 * i) as u64) == Some((from + 4096 * i) as u64 | flags)
}

/// Whether mapping the page at `to` has to make tables, and a bitmap frame allocator whose
/// bits are `bits`, with its search starting at `last`, hands out a frame for each table
/// missing on the way to `to`, all of them different and none of them a frame that a table
/// already uses.
pub open spec fn missing_tables_come_fresh(
    pt: RecursivePageTable,
    to: u64,
    bits: Seq<bool>,
    last: int,
) -> bool {
    let k = (pt.first_table_level(to) - 1) as nat;
    &&& k > 0
    &&& frames_come_fresh(bits, last, k, pt.reserved_frames(to))
}

/// Fresh frames for the missing tables are what `map` asks of the frame allocator.
proof fn lemma_fresh_frames_suffice(fa: BitmapFrameAllocator, pt: RecursivePageTable, to: u64)
    requires
        fa.0.wf(),
        missing_tables_come_fresh(pt, to, fa.0.bits(), fa.0.last() as int),
    ensures
        ({
            let k = (pt.first_table_level(to) - 1) as nat;
            k > 0 && fa.succeeds(k) && fa.avoids(k, pt.reserved_frames(to))
        }),
{
}

/// The kernel's page table with its frame and virtual memory allocators.
pub struct KernelPagingController {
    pub rec_page_table: RecursivePageTable,
    pub frame_allocator: BitmapFrameAllocator,
    pub virt_mem_allocator: VirtualMemoryAllocator,
}

impl KernelPagingController {
    /// Maps `page_count` pages from virtual address `to` on to the frames from `from` on,
    /// taking the frames of missing tables from the frame allocator.
    pub fn map(&mut self, from: u64, to: u64, page_count: usize, flags: u64) -> (r: Result<
        (),
        MemoryError,
    >)
        requires
            mapping_fits(old(self).rec_page_table, from, to, page_count as int),
            old(self).frame_allocator.frames_fit(),
        ensures
            RecursivePageTable::keeps_used_entries(
                &old(self).rec_page_table,
                &final(self).rec_page_table,
            ),
            final(self).frame_allocator.frames_fit(),
            old(self).rec_page_table.tables_exist(to, page_count as int) ==> final(self).frame_allocator
                == old(self).frame_allocator,
            final(self).virt_mem_allocator == old(self).virt_mem_allocator,
            old(self).rec_page_table.pages_free(to, page_count as int) ==> r is Ok,
            page_count == 1 && missing_tables_come_fresh(
                old(self).rec_page_table,
                to,
                old(self).frame_allocator.0.bits(),
                old(self).frame_allocator.0.last() as int,
            ) ==> r is Ok,
            in_one_table_span(to, page_count as int) && missing_tables_come_fresh(
                old(self).rec_page_table,
                to,
                old(self).frame_allocator.0.bits(),
                old(self).frame_allocator.0.last() as int,
            ) ==> r is Ok,
            r is Ok ==> pages_map_to(final(self).rec_page_table, from, to, page_count as int, flags),
    {
        proof {
            assert(self.frame_allocator.hands_out_frames((1 + 3 * page_count) as nat));
            if missing_tables_come_fresh(
                self.rec_page_table,
                to,
                self.frame_allocator.0.bits(),
                self.frame_allocator.0.last() as int,
            ) {
                lemma_fresh_frames_suffice(self.frame_allocator, self.rec_page_table, to);
            }
        }
        let r = self.rec_page_table.map_contiguous(
            page_count,
            from,
            to,
            flags,
            &mut self.frame_allocator,
        );
        proof {
            assert(old(self).frame_allocator.hands_out_frames(1 + 3 * page_count as nat));
        }
        r
    }

    /// Whether `alloc_and_map(pages, _)` runs without panicking: both allocations run,
    /// and when both succeed the frames and pages found can be mapped.
    pub open spec fn alloc_and_map_fits(&self, pages: usize) -> bool {
        &&& self.frame_allocator.frames_fit()
        &&& self.frame_allocator.alloc_contiguous_safe(pages)
        &&& self.virt_mem_allocator.0.wf()
        &&& self.virt_mem_allocator.0.alloc_safe(pages as u64)
        &&& result_page_fits(self.virt_mem_allocator.0, pages as u64, PAGE_ALLOCATOR_START)
        &&& match (
            self.frame_allocator.frame_result(pages as u64),
            self.virt_mem_allocator.0.allocate_result(pages as u64),
        ) {
            (Ok(p), Ok(q)) => mapping_fits(
                self.rec_page_table,
                p,
                page_address(PAGE_ALLOCATOR_START, q as int)->0,
                pages as int,
            ),
            _ => true,
        }
    }

    /// Allocates `pages` frames and `pages` virtual pages, maps the pages to the frames,
    /// and returns the address of the first page.
    pub fn alloc_and_map(&mut self, pages: usize, flags: u64) -> (r: Result<u64, MemoryError>)
        requires
            old(self).rec_page_table.wf(),
            old(self).alloc_and_map_fits(pages),
        ensures
            final(self).rec_page_table.wf(),
            match old(self).frame_allocator.frame_result(pages as u64) {
                Err(e) => r == Err::<u64, MemoryError>(e),
                Ok(p) => match old(self).virt_mem_allocator.0.allocate_result(pages as u64) {
                    Err(e) => r == Err::<u64, MemoryError>(e),
                    Ok(q) => {
                        let v = page_address(PAGE_ALLOCATOR_START, q as int)->0;
                        &&& old(self).rec_page_table.pages_free(v, pages as int) ==> r is Ok
                        &&& old(self).frame_allocator.0.allocate_result(1) matches Ok(u) ==> (pages
                            == 1 && missing_tables_come_fresh(
                            old(self).rec_page_table,
                            v,
                            flag_range_bits(old(self).frame_allocator.0.bits(), u as int, u + 1, true),
                            u + 1,
                        ) ==> r is Ok)
                        &&& old(self).frame_allocator.0.allocate_result(pages as u64) matches Ok(u)
                            ==> (in_one_table_span(v, pages as int) && missing_tables_come_fresh(
                            old(self).rec_page_table,
                            v,
                            flag_range_bits(
                                old(self).frame_allocator.0.bits(),
                                u as int,
                                u + pages,
                                true,
                            ),
                            u + pages,
                        ) ==> r is Ok)
                        &&& r is Ok ==> r == Ok::<u64, MemoryError>(v) && pages_map_to(
                            final(self).rec_page_table,
                            p,
                            v,
                            pages as int,
                            flags,
                        )
                    },
                },
            },
    {
        let phys = self.frame_allocator.alloc_contiguous(pages)?;
        let virt = self.virt_mem_allocator.alloc_contiguous(pages)?;
        self.map(phys, virt, pages, flags)?;
        Ok(virt)
    }
}

/// A virtual address and the physical address that it maps to.
#[derive(Clone, Copy, Debug, PartialEq, Eq, Structural)]
pub struct AddressPair(pub u64, pub u64);

/// Memory that is mapped for the kernel: its addresses, its size in bytes, its page flags
/// and whether its frames are freed after use.
pub struct AllocatedMemory {
    pub address: AddressPair,
    pub size: usize,
    pub flags: u64,
    pub free_after_use: bool,
}

impl AllocatedMemory {
    /// Allocates and maps `size` bytes of memory with `flags`. An empty request is an
    /// error.
    pub fn new(size: usize, flags: u64, paging_ctl: &mut KernelPagingController) -> (r: Result<
        Self,
        MemoryError,
    >)
        requires
            old(paging_ctl).rec_page_table.wf(),
            size > 0 ==> old(paging_ctl).alloc_and_map_fits(
                ((size + 4095) / 4096) as usize,
            ),
        ensures
            size == 0 ==> r == Err::<Self, MemoryError>(MemoryError::EmptyAllocation)
                && *final(paging_ctl) == *old(paging_ctl),
            size > 0 ==> {
                let pages = ((size + 4095) / 4096) as u64;
                match old(paging_ctl).frame_allocator.frame_result(pages) {
                    Err(e) => r is Err && r->Err_0 == e,
                    Ok(p) => match old(paging_ctl).virt_mem_allocator.0.allocate_result(pages) {
                        Err(e) => r is Err && r->Err_0 == e,
                        Ok(q) => {
                            let v = page_address(PAGE_ALLOCATOR_START, q as int)->0;
                            &&& old(paging_ctl).rec_page_table.pages_free(v, pages as int) ==> r is Ok
                            &&& old(paging_ctl).frame_allocator.0.allocate_result(1) matches Ok(u)
                                ==> (pages == 1 && missing_tables_come_fresh(
                                old(paging_ctl).rec_page_table,
                                v,
                                flag_range_bits(
                                    old(paging_ctl).frame_allocator.0.bits(),
                                    u as int,
                                    u + 1,
                                    true,
                                ),
                                u + 1,
                            ) ==> r is Ok)
                            &&& old(paging_ctl).frame_allocator.0.allocate_result(pages) matches Ok(u)
                                ==> (in_one_table_span(v, pages as int) && missing_tables_come_fresh(
                                old(paging_ctl).rec_page_table,
                                v,
                                flag_range_bits(
                                    old(paging_ctl).frame_allocator.0.bits(),
                                    u as int,
                                    u + pages,
                                    true,
                                ),
                                u + pages,
                            ) ==> r is Ok)
                            &&& r is Ok ==> {
                                &&& r->Ok_0.address == AddressPair(v, p)
                                &&& r->Ok_0.size == size
                                &&& r->Ok_0.flags == flags
                                &&& r->Ok_0.free_after_use
                                &&& pages_map_to(
                                    final(paging_ctl).rec_page_table,
                                    p,
                                    v,
                                    pages as int,
                                    flags,
                                )
                            }
                        },
                    },
                }
            },
    {
        if size == 0 {
            return Err(MemoryError::EmptyAllocation);
        }
        let pages = size_in_pages(size);
        let phys_addr = paging_ctl.frame_allocator.alloc_contiguous(pages)?;
        let virt_addr = paging_ctl.virt_mem_allocator.alloc_contiguous(pages)?;
        proof {
            if missing_tables_come_fresh(
                paging_ctl.rec_page_table,
                virt_addr,
                paging_ctl.frame_allocator.0.bits(),
                paging_ctl.frame_allocator.0.last() as int,
            ) {
                lemma_fresh_frames_suffice(paging_ctl.frame_allocator, paging_ctl.rec_page_table, virt_addr);
            }
        }
        paging_ctl.rec_page_table.map_contiguous(
            pages,
            phys_addr,
            virt_addr,
            flags,
            &mut paging_ctl.frame_allocator,
        )?;
        Ok(Self { address: AddressPair(virt_addr, phys_addr), size, flags, free_after_use: true })
    }

    /// Maps `size` bytes at the fixed physical address `phys_addr`: only virtual memory is
    /// allocated, and the frames are not freed after use. An empty request is an error.
    pub fn reserve_physical(
        phys_addr: u64,
        size: usize,
        flags: u64,
        paging_ctl: &mut KernelPagingController,
    ) -> (r: Result<Self, MemoryError>)
        requires
            old(paging_ctl).rec_page_table.wf(),
            size > 0 ==> {
                let pages = ((size + 4095) / 4096) as usize;
                &&& old(paging_ctl).frame_allocator.frames_fit()
                &&& old(paging_ctl).virt_mem_allocator.0.wf()
                &&& old(paging_ctl).virt_mem_allocator.0.alloc_safe(pages as u64)
                &&& result_page_fits(
                    old(paging_ctl).virt_mem_allocator.0,
                    pages as u64,
                    PAGE_ALLOCATOR_START,
                )
                &&& old(paging_ctl).virt_mem_allocator.0.allocate_result(pages as u64) matches Ok(q)
                    ==> mapping_fits(
                    old(paging_ctl).rec_page_table,
                    phys_addr,
                    page_address(PAGE_ALLOCATOR_START, q as int)->0,
                    pages as int,
                )
            },
        ensures
            size == 0 ==> r == Err::<Self, MemoryError>(MemoryError::EmptyAllocation)
                && *final(paging_ctl) == *old(paging_ctl),
            size > 0 ==> {
                let pages = ((size + 4095) / 4096) as u64;
                match old(paging_ctl).virt_mem_allocator.0.allocate_result(pages) {
                    Err(e) => r is Err && r->Err_0 == e
                        && final(paging_ctl).frame_allocator == old(paging_ctl).frame_allocator,
                    Ok(q) => {
                        let v = page_address(PAGE_ALLOCATOR_START, q as int)->0;
                        &&& old(paging_ctl).rec_page_table.pages_free(v, pages as int) ==> r is Ok
                        &&& pages == 1 && missing_tables_come_fresh(
                            old(paging_ctl).rec_page_table,
                            v,
                            old(paging_ctl).frame_allocator.0.bits(),
                            old(paging_ctl).frame_allocator.0.last() as int,
                        ) ==> r is Ok
                        &&& in_one_table_span(v, pages as int) && missing_tables_come_fresh(
                            old(paging_ctl).rec_page_table,
                            v,
                            old(paging_ctl).frame_allocator.0.bits(),
                            old(paging_ctl).frame_allocator.0.last() as int,
                        ) ==> r is Ok
                        &&& old(paging_ctl).rec_page_table.tables_exist(v, pages as int)
                            ==> final(paging_ctl).frame_allocator == old(paging_ctl).frame_allocator
                        &&& r is Ok ==> {
                            &&& r->Ok_0.address == AddressPair(v, phys_addr)
                            &&& r->Ok_0.size == size
                            &&& r->Ok_0.flags == flags
                            &&& !r->Ok_0.free_after_use
                            &&& pages_map_to(
                                final(paging_ctl).rec_page_table,
                                phys_addr,
                                v,
                                pages as int,
                                flags,
                            )
                        }
                    },
                }
            },
    {
        if size == 0 {
            return Err(MemoryError::EmptyAllocation);
        }
        let pages = size_in_pages(size);
        let virt_addr = paging_ctl.virt_mem_allocator.alloc_contiguous(pages)?;
        proof {
            if missing_tables_come_fresh(
                paging_ctl.rec_page_table,
                virt_addr,
                paging_ctl.frame_allocator.0.bits(),
                paging_ctl.frame_allocator.0.last() as int,
            ) {
                lemma_fresh_frames_suffice(paging_ctl.frame_allocator, paging_ctl.rec_page_table, virt_addr);
            }
        }
        paging_ctl.rec_page_table.map_contiguous(
            pages,
            phys_addr,
            virt_addr,
            flags,
            &mut paging_ctl.frame_allocator,
        )?;
        Ok(Self { address: AddressPair(virt_addr, phys_addr), size, flags, free_after_use: false })
    }

    /// The checks before an access of `value_size` bytes at `offset`: the memory must be
    /// present, writable for a write, and the access must end before the size.
    pub fn handle_errors(&self, write: bool, offset: usize, value_size: usize) -> (r: Result<
        (),
        MemoryError,
    >)
        requires
            self.flags & PRESENT != 0 && !(write && self.flags & WRITABLE == 0) ==> offset
                + value_size <= usize::MAX,
        ensures
            r == if self.flags & PRESENT == 0 {
                Err::<(), MemoryError>(MemoryError::PageNotPresent)
            } else if write && self.flags & WRITABLE == 0 {
                Err(MemoryError::WriteToReadOnly)
            } else if offset + value_size >= self.size {
                Err(MemoryError::OutOfBounds)
            } else {
                Ok(())
            },
    {
        if self.flags & PRESENT == 0 {
            Err(MemoryError::PageNotPresent)
        } else if write && self.flags & WRITABLE == 0 {
            Err(MemoryError::WriteToReadOnly)
        } else if offset + value_size >= self.size {
            Err(MemoryError::OutOfBounds)
        } else {
            Ok(())
        }
    }

    /// Whether `release` runs without panicking: both bitmaps are well formed, the
    /// virtual pages lie in the virtual memory allocator's part of the address space, and
    /// the ends of both ranges fit `u64`.
    pub open spec fn release_safe(&self, c: KernelPagingController) -> bool {
        let pages = (self.size + 4095) / 4096;
        &&& c.virt_mem_allocator.0.wf()
        &&& c.frame_allocator.0.wf()
        &&& self.address.0 >= PAGE_ALLOCATOR_START
        &&& (self.address.0 - PAGE_ALLOCATOR_START) / 4096 + pages <= u64::MAX
        &&& self.address.1 / 4096 + pages <= u64::MAX
    }

    /// Whether every unit of the `pages` units of `a` from `start` on lies in the bitmap
    /// and is taken, so that freeing them succeeds.
    pub open spec fn units_taken(a: BitmapAllocator, start: int, pages: int) -> bool {
        start + pages <= a.bound() && all_bits_are(a.bits(), start, start + pages, true)
    }

    /// Gives the memory back when it is no longer used: its virtual pages go back to the
    /// virtual memory allocator and then, when its frames are freed after use, its frames
    /// go back to the frame allocator. The pages stay mapped, since the kernel has no way
    /// to unmap a page yet. The first step that fails stops the release with its error.
    pub fn release(&self, paging_ctl: &mut KernelPagingController) -> (r: Result<(), MemoryError>)
        requires
            self.release_safe(*old(paging_ctl)),
        ensures
            ({
                let pages = (self.size + 4095) / 4096;
                let vs = (self.address.0 - PAGE_ALLOCATOR_START) / 4096;
                let fs = self.address.1 / 4096;
                let old_v = old(paging_ctl).virt_mem_allocator.0;
                let old_f = old(paging_ctl).frame_allocator.0;
                &&& final(paging_ctl).rec_page_table == old(paging_ctl).rec_page_table
                &&& final(paging_ctl).virt_mem_allocator.0.wf()
                &&& final(paging_ctl).virt_mem_allocator.0.size_bits() == old_v.size_bits()
                &&& final(paging_ctl).frame_allocator.0.wf()
                &&& final(paging_ctl).frame_allocator.0.size_bits() == old_f.size_bits()
                &&& if !Self::units_taken(old_v, vs as int, pages as int) {
                    &&& r == (if vs + pages > old_v.bound() {
                        Err::<(), MemoryError>(MemoryError::OutOfBounds)
                    } else {
                        Err(MemoryError::DoubleFree)
                    })
                    &&& final(paging_ctl).virt_mem_allocator.0.bytes() == old_v.bytes()
                    &&& final(paging_ctl).frame_allocator == old(paging_ctl).frame_allocator
                } else {
                    &&& final(paging_ctl).virt_mem_allocator.0.bits() == flag_range_bits(
                        old_v.bits(),
                        vs as int,
                        vs + pages,
                        false,
                    )
                    &&& if !self.free_after_use {
                        r == Ok::<(), MemoryError>(()) && final(paging_ctl).frame_allocator
                            == old(paging_ctl).frame_allocator
                    } else if !Self::units_taken(old_f, fs as int, pages as int) {
                        &&& r == (if fs + pages > old_f.bound() {
                            Err::<(), MemoryError>(MemoryError::OutOfBounds)
                        } else {
                            Err(MemoryError::DoubleFree)
                        })
                        &&& final(paging_ctl).frame_allocator.0.bytes() == old_f.bytes()
                    } else {
                        r == Ok::<(), MemoryError>(()) && final(paging_ctl).frame_allocator.0.bits()
                            == flag_range_bits(old_f.bits(), fs as int, fs + pages, false)
                    }
                }
            }),
    {
        let pages = self.pages();
        match paging_ctl.virt_mem_allocator.free(self.address.0, pages) {
            Err(e) => {
                return Err(e);
            },
            Ok(()) => {},
        }
        if !self.free_after_use {
            return Ok(());
        }
        paging_ctl.frame_allocator.free_contiguous(self.address.1, pages)
    }

    /// The number of pages that the memory spans.
    pub fn pages(&self) -> (r: usize)
        ensures
            r == (self.size + 4095) / 4096,
    {
        size_in_pages(self.size)
    }
}

} // verus!
