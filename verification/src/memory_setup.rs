//! Bringing the kernel's memory up at boot: the new page table maps the kernel image
//! section by section, the memory map regions that the kernel uses later, and the stack;
//! then the frame and virtual memory allocators are made, and the kernel heap is mapped.
//! The addresses that the loader and the linker give come in as plain values.
use vstd::prelude::*;

use crate::arch::{
    is_canonical, ADDR_MASK, phys_addr_new, phys_limit, virt_add, virt_addr_new, virt_sub, GLOBAL, NO_EXECUTE,
    PRESENT, WRITABLE,
};
use crate::error::MemoryError;
use crate::bitmap_allocator::{flag_range_bits, max_bitmap_bytes, BitmapAllocator};
use crate::frame_allocation::{
    cleared_by_usable, lemma_linear_frames_left, BitmapFrameAllocator, FrameAllocator,
    LinearFrameAllocator,
};
use crate::memory_map::{
    frame_bitmap_size, highest_valid_region, is_usable, is_valid_region, kernel_region,
    largest_usable_region, memory_map_type_of, region_end, types_are_valid, MemoryMapEntry,
    MemoryMapType,
};
use crate::page_mapping::VirtualMemoryAllocator;
use crate::paging_controller::KernelPagingController;
use crate::page_table::{
    entry_translation, flags_r, flags_rw, flags_rwx, flags_rx, lemma_page_index_bound, page_index,
    pages_are_canonical, RecursivePageTable,
};

verus! {

/// Where the kernel image lies: the addresses of the linker's section symbols (the
/// start of the loader requests, of the text, of the read-only data and of the data,
/// and the end of the image), and the virtual and physical base that the loader put
/// the kernel at.
#[derive(Clone, Copy, Debug, PartialEq, Eq, Structural)]
pub struct KernelLayout {
    pub limine_reqs_start: u64,
    pub text_start: u64,
    pub rodata_start: u64,
    pub data_start: u64,
    pub elf_end: u64,
    pub virtual_base: u64,
    pub physical_base: u64,
}

/// The number of pages that `start..end` touches, stepping by a page from `start`.
pub open spec fn section_pages(start: u64, end: u64) -> int {
    if end > start {
        (end - start + 4095) / 4096
    } else {
        0
    }
}

/// The physical address of the kernel's virtual address `virt`.
pub open spec fn kernel_phys(l: KernelLayout, virt: u64) -> int {
    virt - l.virtual_base + l.physical_base
}

/// Whether the `n` pages from `virt` on can be mapped to the frames from `phys` on
/// without a panic: the frames are aligned and valid, the pages canonical, and their
/// size fits `usize`.
pub open spec fn pages_fit(phys: int, virt: u64, n: int) -> bool {
    n > 0 ==> {
        &&& phys % 4096 == 0
        &&& phys + (n - 1) * 4096 < phys_limit()
        &&& is_canonical(virt)
        &&& pages_are_canonical(virt, n)
        &&& n * 4096 <= usize::MAX
    }
}

/// Whether the kernel section `start..end` can be mapped without a panic.
pub open spec fn section_fits(l: KernelLayout, start: u64, end: u64) -> bool {
    section_pages(start, end) > 0 ==> start >= l.virtual_base && pages_fit(
        kernel_phys(l, start),
        start,
        section_pages(start, end),
    )
}

/// Whether each of the `n` pages from `virt` on has as its level 1 entry the frame at the
/// same place from `phys` on with `flags`, and so translates to that frame.
pub open spec fn pages_mapped(pt: RecursivePageTable, phys: int, virt: u64, n: int, flags: u64) -> bool {
    forall|i: int|
        0 <= i < n ==> #[trigger] pt.translation((virt + 4096 * i) as u64) == entry_translation(
            ((phys + 4096 * i) as u64) | flags,
            (virt + 4096 * i) as u64,
        ) && pt.leaf_entry((virt + 4096 * i) as u64) == Some(((phys + 4096 * i) as u64) | flags)
}

/// Whether the kernel section `start..end` is mapped to its physical place with `flags`
/// and the global flag.
pub open spec fn section_mapped(pt: RecursivePageTable, l: KernelLayout, start: u64, end: u64, flags: u64) -> bool {
    pages_mapped(pt, kernel_phys(l, start), start, section_pages(start, end), flags | GLOBAL)
}

/// An entry with the present flag is never zero.
proof fn lemma_present_entry(x: u64, flags: u64)
    requires
        flags & 1 == 1,
    ensures
        x | flags != 0,
{
    assert(x | flags != 0) by (bit_vector)
        requires
            flags & 1u64 == 1u64,
    ;
}

/// The flags that the kernel maps with all have the present flag, with or without the
/// global flag.
proof fn lemma_kernel_flags_present()
    ensures
        (PRESENT | NO_EXECUTE) & 1 == 1,
        (WRITABLE | PRESENT | NO_EXECUTE) & 1 == 1,
        PRESENT & 1 == 1,
        (WRITABLE | PRESENT) & 1 == 1,
        ((PRESENT | NO_EXECUTE) | GLOBAL) & 1 == 1,
        ((WRITABLE | PRESENT | NO_EXECUTE) | GLOBAL) & 1 == 1,
        (PRESENT | GLOBAL) & 1 == 1,
        ((WRITABLE | PRESENT) | GLOBAL) & 1 == 1,
{
    assert((1u64 | 0x8000_0000_0000_0000u64) & 1 == 1) by (bit_vector);
    assert((2u64 | 1u64 | 0x8000_0000_0000_0000u64) & 1 == 1) by (bit_vector);
    assert(1u64 & 1 == 1) by (bit_vector);
    assert((2u64 | 1u64) & 1 == 1) by (bit_vector);
    assert(((1u64 | 0x8000_0000_0000_0000u64) | 0x100u64) & 1 == 1) by (bit_vector);
    assert(((2u64 | 1u64 | 0x8000_0000_0000_0000u64) | 0x100u64) & 1 == 1) by (bit_vector);
    assert((1u64 | 0x100u64) & 1 == 1) by (bit_vector);
    assert(((2u64 | 1u64) | 0x100u64) & 1 == 1) by (bit_vector);
}

/// Pages that are mapped stay mapped to the same frames when every entry in use is
/// kept.
proof fn lemma_pages_stay_mapped(
    before: RecursivePageTable,
    after: RecursivePageTable,
    phys: int,
    virt: u64,
    n: int,
    flags: u64,
)
    requires
        pages_mapped(before, phys, virt, n, flags),
        RecursivePageTable::keeps_used_entries(&before, &after),
        flags & 1 == 1,
    ensures
        pages_mapped(after, phys, virt, n, flags),
{
    assert forall|i: int| 0 <= i < n implies #[trigger] after.translation(
        (virt + 4096 * i) as u64,
    ) == entry_translation(((phys + 4096 * i) as u64) | flags, (virt + 4096 * i) as u64)
        && after.leaf_entry((virt + 4096 * i) as u64) == Some(((phys + 4096 * i) as u64) | flags) by {
        lemma_present_entry((phys + 4096 * i) as u64, flags);
        assert(before.translation((virt + 4096 * i) as u64) is Some);
        crate::page_table::lemma_kept_entries_keep_translations(
            &before,
            &after,
            (virt + 4096 * i) as u64,
        );
        crate::page_table::lemma_kept_entries_keep_leaf(&before, &after, (virt + 4096 * i) as u64);
    }
}

/// Maps the `n` pages from `virt` on to the frames from `phys` on with `flags` (which hold
/// the present flag), as `map_contiguous` does, and states the outcome as `pages_mapped`.
fn map_pages(
    page_table: &mut RecursivePageTable,
    n: usize,
    phys: u64,
    virt: u64,
    flags: u64,
    allocator: &mut LinearFrameAllocator,
) -> (r: Result<(), MemoryError>)
    requires
        old(page_table).wf(),
        pages_fit(phys as int, virt, n as int),
        old(allocator).hands_out_frames(3 * n as nat),
        flags & 1 == 1,
    ensures
        RecursivePageTable::keeps_used_entries(old(page_table), final(page_table)),
        LinearFrameAllocator::used_at_most(old(allocator), final(allocator), 3 * n as nat),
        forall|j: nat|
            #![trigger old(allocator).hands_out_frames(j + 3 * n as nat)]
            old(allocator).hands_out_frames(j + 3 * n as nat) ==> final(allocator).hands_out_frames(j),
        r is Ok ==> pages_mapped(*final(page_table), phys as int, virt, n as int, flags),
        n == 0 ==> r is Ok && *final(page_table) == *old(page_table) && *final(allocator) == *old(allocator),
        old(page_table).pages_free(virt, n as int) ==> r is Ok && RecursivePageTable::writes_only(
            old(page_table),
            final(page_table),
            virt,
            n as int,
        ),
{
    let r = page_table.map_contiguous(n, phys, virt, flags, allocator);
    proof {
        if r is Ok {
            assert forall|i: int| 0 <= i < n implies #[trigger] page_table.translation(
                (virt + 4096 * i) as u64,
            ) == entry_translation(((phys + 4096 * i) as u64) | flags, (virt + 4096 * i) as u64)
                && page_table.leaf_entry((virt + 4096 * i) as u64) == Some(((phys + 4096 * i) as u64) | flags) by {
                lemma_present_entry((phys + 4096 * i) as u64, flags);
            }
        }
    }
    r
}

/// Maps the kernel section from virtual address `region_start` to `region_end`, page by
/// page, to its physical place with `flags` and the global flag. An empty section maps
/// nothing.
pub fn map_kernel_section(
    region_start: u64,
    region_end: u64,
    flags: u64,
    page_table: &mut RecursivePageTable,
    allocator: &mut LinearFrameAllocator,
    layout: &KernelLayout,
) -> (r: Result<(), MemoryError>)
    requires
        old(page_table).wf(),
        section_fits(*layout, region_start, region_end),
        old(allocator).hands_out_frames(3 * section_pages(region_start, region_end) as nat),
        flags & 1 == 1,
    ensures
        RecursivePageTable::keeps_used_entries(old(page_table), final(page_table)),
        LinearFrameAllocator::used_at_most(
            old(allocator),
            final(allocator),
            3 * section_pages(region_start, region_end) as nat,
        ),
        forall|j: nat|
            #![trigger old(allocator).hands_out_frames(
                j + 3 * section_pages(region_start, region_end) as nat,
            )]
            old(allocator).hands_out_frames(j + 3 * section_pages(region_start, region_end) as nat)
                ==> final(allocator).hands_out_frames(j),
        r is Ok ==> section_mapped(*final(page_table), *layout, region_start, region_end, flags),
        region_start >= region_end ==> r is Ok && *final(page_table) == *old(page_table)
            && *final(allocator) == *old(allocator),
        old(page_table).pages_free(region_start, section_pages(region_start, region_end))
            ==> r is Ok && RecursivePageTable::writes_only(
            old(page_table),
            final(page_table),
            region_start,
            section_pages(region_start, region_end),
        ),
{
    if region_start >= region_end {
        proof {
            allocator.lemma_used_none();
        }
        return Ok(());
    }
    let size = region_end - region_start;
    let mut pages = size / 4096;
    if size % 4096 != 0 {
        pages += 1;
    }
    assert(pages == section_pages(region_start, region_end));
    let phys = region_start - layout.virtual_base + layout.physical_base;
    proof {
        assert((flags | 0x100u64) & 1 == 1) by (bit_vector)
            requires
                flags & 1u64 == 1u64,
        ;
    }
    map_pages(page_table, pages as usize, phys, region_start, flags | GLOBAL, allocator)
}


/// Pages that were free stay free after writes that only touched the level 1 entries of
/// other pages.
proof fn lemma_free_after(
    p: RecursivePageTable,
    q: RecursivePageTable,
    a: u64,
    na: int,
    b: u64,
    nb: int,
)
    requires
        RecursivePageTable::keeps_used_entries(&p, &q),
        RecursivePageTable::writes_only(&p, &q, a, na),
        p.pages_free(b, nb),
        p.slots_disjoint(a, na, b, nb),
    ensures
        q.pages_free(b, nb),
{
    assert forall|m: int| 0 <= m < nb implies #[trigger] q.table_for(1, (b + 4096 * m) as u64)
        == p.table_for(1, (b + 4096 * m) as u64) by {
        RecursivePageTable::lemma_kept_entries_keep_paths(&p, &q, 1, (b + 4096 * m) as u64);
    }
    assert forall|m: int|
        0 <= m < nb implies #[trigger] q.table_at(q.table_for(1, (b + 4096 * m) as u64)->0)[page_index(
        1,
        (b + 4096 * m) as u64,
    )] == 0 by {
        let v = (b + 4096 * m) as u64;
        let t = p.table_for(1, v)->0;
        let idx = page_index(1, v);
        assert(q.table_for(1, v) == p.table_for(1, v));
        crate::page_table::lemma_page_index_bound(1, v);
        assert(p.table_at(t)[idx] == 0);
        if q.table_at(t)[idx] != p.table_at(t)[idx] {
            let ma = choose|ma: int|
                0 <= ma < na && #[trigger] p.table_for(1, (a + 4096 * ma) as u64) == Some(t) && idx
                    == page_index(1, (a + 4096 * ma) as u64);
            assert(p.table_for(1, (a + 4096 * ma) as u64) == Some(t));
            assert(p.table_for(1, v) == Some(t));
        }
    }
}

/// Pages whose level 1 tables exist keep their level 1 tables, and so stay apart, when
/// every entry in use is kept.
proof fn lemma_disjoint_after(
    p: RecursivePageTable,
    q: RecursivePageTable,
    b: u64,
    nb: int,
    c: u64,
    nc: int,
)
    requires
        RecursivePageTable::keeps_used_entries(&p, &q),
        p.tables_exist(b, nb),
        p.tables_exist(c, nc),
        p.slots_disjoint(b, nb, c, nc),
    ensures
        q.slots_disjoint(b, nb, c, nc),
{
    assert forall|m: int| 0 <= m < nb implies #[trigger] q.table_for(1, (b + 4096 * m) as u64)
        == p.table_for(1, (b + 4096 * m) as u64) by {
        RecursivePageTable::lemma_kept_entries_keep_paths(&p, &q, 1, (b + 4096 * m) as u64);
    }
    assert forall|m: int| 0 <= m < nc implies #[trigger] q.table_for(1, (c + 4096 * m) as u64)
        == p.table_for(1, (c + 4096 * m) as u64) by {
        RecursivePageTable::lemma_kept_entries_keep_paths(&p, &q, 1, (c + 4096 * m) as u64);
    }
}

/// Whether the ranges of pages from `j` on, each a start address and a number of pages,
/// can all be mapped one after the other without a new table and without meeting a page
/// in use: each range is free, and no two of them share a level 1 entry.
pub open spec fn ranges_free_from(pt: RecursivePageTable, ranges: Seq<(u64, int)>, j: int) -> bool {
    &&& forall|k: int| j <= k < ranges.len() ==> #[trigger] pt.pages_free(ranges[k].0, ranges[k].1)
    &&& forall|k: int, k2: int|
        j <= k < k2 < ranges.len() ==> #[trigger] pt.slots_disjoint(
            ranges[k].0,
            ranges[k].1,
            ranges[k2].0,
            ranges[k2].1,
        )
}

/// Whether every entry of `new` that differs from `old` is the level 1 entry, in `old`, of
/// a page of one of the first `j` ranges.
pub open spec fn writes_only_ranges(
    old: RecursivePageTable,
    new: RecursivePageTable,
    ranges: Seq<(u64, int)>,
    j: int,
) -> bool {
    forall|t: u64, i: int|
        0 <= i < 512 && #[trigger] new.table_at(t)[i] != old.table_at(t)[i] ==> exists|k: int, m: int|
            0 <= k < j && 0 <= m < ranges[k].1 && #[trigger] old.table_for(
                1,
                (ranges[k].0 + 4096 * m) as u64,
            ) == Some(t) && i == page_index(1, (ranges[k].0 + 4096 * m) as u64)
}

/// Writing only the level 1 entries of range `j` after writing only those of the ranges
/// before it writes only those of the first `j + 1` ranges, when the tables of range `j`
/// already existed at the start.
proof fn lemma_writes_only_step(
    p0: RecursivePageTable,
    p: RecursivePageTable,
    q: RecursivePageTable,
    ranges: Seq<(u64, int)>,
    j: int,
)
    requires
        0 <= j < ranges.len(),
        writes_only_ranges(p0, p, ranges, j),
        RecursivePageTable::keeps_used_entries(&p0, &p),
        p0.tables_exist(ranges[j].0, ranges[j].1),
        RecursivePageTable::writes_only(&p, &q, ranges[j].0, ranges[j].1),
    ensures
        writes_only_ranges(p0, q, ranges, j + 1),
{
    assert forall|t: u64, i: int|
        0 <= i < 512 && #[trigger] q.table_at(t)[i] != p0.table_at(t)[i] implies exists|k: int, m: int|
        0 <= k < j + 1 && 0 <= m < ranges[k].1 && #[trigger] p0.table_for(
            1,
            (ranges[k].0 + 4096 * m) as u64,
        ) == Some(t) && i == page_index(1, (ranges[k].0 + 4096 * m) as u64) by {
        if q.table_at(t)[i] != p.table_at(t)[i] {
            let m = choose|m: int|
                0 <= m < ranges[j].1 && #[trigger] p.table_for(1, (ranges[j].0 + 4096 * m) as u64)
                    == Some(t) && i == page_index(1, (ranges[j].0 + 4096 * m) as u64);
            assert(p0.table_for(1, (ranges[j].0 + 4096 * m) as u64) is Some);
            RecursivePageTable::lemma_kept_entries_keep_paths(
                &p0,
                &p,
                1,
                (ranges[j].0 + 4096 * m) as u64,
            );
            assert(p0.table_for(1, (ranges[j].0 + 4096 * m) as u64) == Some(t));
        } else {
            assert(p.table_at(t)[i] != p0.table_at(t)[i]);
        }
    }
}

/// Writing only the entries of the first `j` ranges is writing only those of the first
/// `j2 >= j` ranges.
proof fn lemma_writes_only_more(
    old: RecursivePageTable,
    new: RecursivePageTable,
    ranges: Seq<(u64, int)>,
    j: int,
    j2: int,
)
    requires
        j <= j2,
        writes_only_ranges(old, new, ranges, j),
    ensures
        writes_only_ranges(old, new, ranges, j2),
{
    assert forall|t: u64, i: int|
        0 <= i < 512 && #[trigger] new.table_at(t)[i] != old.table_at(t)[i] implies exists|k: int, m: int|
        0 <= k < j2 && 0 <= m < ranges[k].1 && #[trigger] old.table_for(
            1,
            (ranges[k].0 + 4096 * m) as u64,
        ) == Some(t) && i == page_index(1, (ranges[k].0 + 4096 * m) as u64) by {
        let (k, m) = choose|k: int, m: int|
            0 <= k < j && 0 <= m < ranges[k].1 && #[trigger] old.table_for(
                1,
                (ranges[k].0 + 4096 * m) as u64,
            ) == Some(t) && i == page_index(1, (ranges[k].0 + 4096 * m) as u64);
        assert(old.table_for(1, (ranges[k].0 + 4096 * m) as u64) == Some(t));
    }
}

/// Mapping range `j` of ranges that are free from `j` on leaves the ranges after it free.
proof fn lemma_ranges_step(p: RecursivePageTable, q: RecursivePageTable, ranges: Seq<(u64, int)>, j: int)
    requires
        0 <= j < ranges.len(),
        RecursivePageTable::keeps_used_entries(&p, &q),
        RecursivePageTable::writes_only(&p, &q, ranges[j].0, ranges[j].1),
        ranges_free_from(p, ranges, j),
    ensures
        ranges_free_from(q, ranges, j + 1),
{
    assert forall|k: int| j + 1 <= k < ranges.len() implies #[trigger] q.pages_free(
        ranges[k].0,
        ranges[k].1,
    ) by {
        assert(p.slots_disjoint(ranges[j].0, ranges[j].1, ranges[k].0, ranges[k].1));
        assert(p.pages_free(ranges[k].0, ranges[k].1));
        lemma_free_after(p, q, ranges[j].0, ranges[j].1, ranges[k].0, ranges[k].1);
    }
    assert forall|k: int, k2: int| j + 1 <= k < k2 < ranges.len() implies #[trigger] q.slots_disjoint(
        ranges[k].0,
        ranges[k].1,
        ranges[k2].0,
        ranges[k2].1,
    ) by {
        assert(p.pages_free(ranges[k].0, ranges[k].1));
        assert(p.pages_free(ranges[k2].0, ranges[k2].1));
        assert(p.slots_disjoint(ranges[k].0, ranges[k].1, ranges[k2].0, ranges[k2].1));
        lemma_disjoint_after(p, q, ranges[k].0, ranges[k].1, ranges[k2].0, ranges[k2].1);
    }
}

/// Keeping the entries in use twice keeps them.
proof fn lemma_keeps_chain(a: RecursivePageTable, b: RecursivePageTable, c: RecursivePageTable)
    requires
        RecursivePageTable::keeps_used_entries(&a, &b),
        RecursivePageTable::keeps_used_entries(&b, &c),
    ensures
        RecursivePageTable::keeps_used_entries(&a, &c),
{
    assert forall|u: u64, i: int|
        0 <= i < 512 && #[trigger] a.table_at(u)[i] != 0 implies c.table_at(u)[i] == a.table_at(
            u,
        )[i] by {
        assert(b.table_at(u)[i] == a.table_at(u)[i]);
    }
}

/// The pages of the kernel image past its sections: the rest of the kernel region.
pub open spec fn remaining_pages(l: KernelLayout, length: u64) -> int {
    (length - (l.elf_end - l.limine_reqs_start) + 4095) / 4096
}

/// All the pages that `map_kernel` maps.
pub open spec fn kernel_pages(l: KernelLayout, length: u64) -> int {
    section_pages(l.limine_reqs_start, l.text_start) + section_pages(l.text_start, l.rodata_start)
        + section_pages(l.rodata_start, l.data_start) + section_pages(l.data_start, l.elf_end)
        + remaining_pages(l, length)
}

/// Whether `map_kernel` runs without a panic on a kernel region of `length` bytes: each
/// section can be mapped, the sections lie within the region, and the rest of the
/// region past the image can be mapped from the end of the image on.
pub open spec fn kernel_fits(l: KernelLayout, length: u64) -> bool {
    &&& section_fits(l, l.limine_reqs_start, l.text_start)
    &&& section_fits(l, l.text_start, l.rodata_start)
    &&& section_fits(l, l.rodata_start, l.data_start)
    &&& section_fits(l, l.data_start, l.elf_end)
    &&& l.limine_reqs_start <= l.elf_end
    &&& l.elf_end - l.limine_reqs_start <= length
    &&& l.virtual_base <= l.elf_end
    &&& kernel_phys(l, l.elf_end) < phys_limit()
    &&& is_canonical(l.elf_end)
    &&& pages_fit(kernel_phys(l, l.elf_end), l.elf_end, remaining_pages(l, length))
}

/// Whether the kernel image is mapped: each section with its flags and the global flag,
/// and the rest of the region read-only and global.
pub open spec fn kernel_mapped(pt: RecursivePageTable, l: KernelLayout, length: u64) -> bool {
    &&& section_mapped(pt, l, l.limine_reqs_start, l.text_start, PRESENT | NO_EXECUTE)
    &&& section_mapped(pt, l, l.text_start, l.rodata_start, PRESENT)
    &&& section_mapped(pt, l, l.rodata_start, l.data_start, PRESENT | NO_EXECUTE)
    &&& section_mapped(pt, l, l.data_start, l.elf_end, WRITABLE | PRESENT | NO_EXECUTE)
    &&& pages_mapped(
        pt,
        kernel_phys(l, l.elf_end),
        l.elf_end,
        remaining_pages(l, length),
        (PRESENT | NO_EXECUTE) | GLOBAL,
    )
}

/// The ranges of pages that `map_kernel` maps, in order, each a start address and a
/// number of pages: the four sections and the rest of the kernel region.
pub open spec fn kernel_ranges(l: KernelLayout, length: u64) -> Seq<(u64, int)> {
    seq![
        (l.limine_reqs_start, section_pages(l.limine_reqs_start, l.text_start)),
        (l.text_start, section_pages(l.text_start, l.rodata_start)),
        (l.rodata_start, section_pages(l.rodata_start, l.data_start)),
        (l.data_start, section_pages(l.data_start, l.elf_end)),
        (l.elf_end, remaining_pages(l, length)),
    ]
}

/// Maps the kernel image: the loader requests read-only, the text executable, the
/// read-only data read-only, the data writable, all global; then the rest of the kernel
/// region past the image read-only and global. Stops at the first error. When the tables
/// of all these pages exist and their entries are free and apart, it succeeds and writes
/// nothing but their entries.
pub fn map_kernel(
    page_table: &mut RecursivePageTable,
    allocator: &mut LinearFrameAllocator,
    kernel_region: &MemoryMapEntry,
    layout: &KernelLayout,
) -> (r: Result<(), MemoryError>)
    requires
        old(page_table).wf(),
        kernel_fits(*layout, kernel_region.length),
        old(allocator).hands_out_frames(3 * kernel_pages(*layout, kernel_region.length) as nat),
    ensures
        RecursivePageTable::keeps_used_entries(old(page_table), final(page_table)),
        LinearFrameAllocator::used_at_most(
            old(allocator),
            final(allocator),
            3 * kernel_pages(*layout, kernel_region.length) as nat,
        ),
        r is Ok ==> kernel_mapped(*final(page_table), *layout, kernel_region.length),
        ranges_free_from(*old(page_table), kernel_ranges(*layout, kernel_region.length), 0)
            ==> r is Ok && writes_only_ranges(
            *old(page_table),
            *final(page_table),
            kernel_ranges(*layout, kernel_region.length),
            5,
        ),
{
    let ghost l = *layout;
    let ghost rs = kernel_ranges(l, kernel_region.length);
    let ghost free = ranges_free_from(*page_table, rs, 0);
    let ghost a0 = *allocator;
    let ghost p0 = *page_table;
    let ghost n1 = section_pages(l.limine_reqs_start, l.text_start);
    let ghost n2 = section_pages(l.text_start, l.rodata_start);
    let ghost n3 = section_pages(l.rodata_start, l.data_start);
    let ghost n4 = section_pages(l.data_start, l.elf_end);
    let ghost n5 = remaining_pages(l, kernel_region.length);
    let ghost total = 3 * kernel_pages(l, kernel_region.length);
    proof {
        lemma_kernel_flags_present();
        allocator.lemma_used_none();
    }
    // loader requests
    let res = map_kernel_section(
        layout.limine_reqs_start,
        layout.text_start,
        flags_r(),
        page_table,
        allocator,
        layout,
    );
    let ghost a1 = *allocator;
    let ghost p1 = *page_table;
    proof {
        LinearFrameAllocator::lemma_used_more(&a0, &a1, 3 * n1 as nat, total as nat);
        if free {
            assert(p0.pages_free(rs[0].0, rs[0].1));
            lemma_ranges_step(p0, p1, rs, 0);
            assert(RecursivePageTable::keeps_used_entries(&p0, &p0));
            lemma_writes_only_step(p0, p0, p1, rs, 0);
        }
    }
    if res.is_err() {
        return res;
    }
    // text
    proof {
        lemma_linear_frames_left(&a0, &a1, 3 * n1 as nat, (total - 3 * n1) as nat);
        a1.lemma_fewer_frames((total - 3 * n1) as nat, 3 * n2 as nat);
    }
    let res = map_kernel_section(
        layout.text_start,
        layout.rodata_start,
        flags_rx(),
        page_table,
        allocator,
        layout,
    );
    let ghost a2 = *allocator;
    let ghost p2 = *page_table;
    proof {
        LinearFrameAllocator::lemma_used_chain(&a0, &a1, &a2, 3 * n1 as nat, 3 * n2 as nat);
        LinearFrameAllocator::lemma_used_more(&a0, &a2, (3 * n1 + 3 * n2) as nat, total as nat);
        lemma_keeps_chain(p0, p1, p2);
        if free {
            assert(p1.pages_free(rs[1].0, rs[1].1));
            lemma_ranges_step(p1, p2, rs, 1);
            assert(p0.pages_free(rs[1].0, rs[1].1));
            lemma_writes_only_step(p0, p1, p2, rs, 1);
        }
    }
    if res.is_err() {
        return res;
    }
    // read-only data
    proof {
        lemma_linear_frames_left(&a0, &a2, (3 * n1 + 3 * n2) as nat, (total - 3 * n1 - 3 * n2) as nat);
        a2.lemma_fewer_frames((total - 3 * n1 - 3 * n2) as nat, 3 * n3 as nat);
    }
    let res = map_kernel_section(
        layout.rodata_start,
        layout.data_start,
        flags_r(),
        page_table,
        allocator,
        layout,
    );
    let ghost a3 = *allocator;
    let ghost p3 = *page_table;
    proof {
        LinearFrameAllocator::lemma_used_chain(&a0, &a2, &a3, (3 * n1 + 3 * n2) as nat, 3 * n3 as nat);
        LinearFrameAllocator::lemma_used_more(&a0, &a3, (3 * n1 + 3 * n2 + 3 * n3) as nat, total as nat);
        lemma_keeps_chain(p0, p2, p3);
        if free {
            assert(p2.pages_free(rs[2].0, rs[2].1));
            lemma_ranges_step(p2, p3, rs, 2);
            assert(p0.pages_free(rs[2].0, rs[2].1));
            lemma_writes_only_step(p0, p2, p3, rs, 2);
        }
    }
    if res.is_err() {
        return res;
    }
    // data and bss
    proof {
        lemma_linear_frames_left(
            &a0,
            &a3,
            (3 * n1 + 3 * n2 + 3 * n3) as nat,
            (total - 3 * n1 - 3 * n2 - 3 * n3) as nat,
        );
        a3.lemma_fewer_frames((total - 3 * n1 - 3 * n2 - 3 * n3) as nat, 3 * n4 as nat);
    }
    let res = map_kernel_section(
        layout.data_start,
        layout.elf_end,
        flags_rw(),
        page_table,
        allocator,
        layout,
    );
    let ghost a4 = *allocator;
    let ghost p4 = *page_table;
    proof {
        LinearFrameAllocator::lemma_used_chain(
            &a0,
            &a3,
            &a4,
            (3 * n1 + 3 * n2 + 3 * n3) as nat,
            3 * n4 as nat,
        );
        LinearFrameAllocator::lemma_used_more(
            &a0,
            &a4,
            (3 * n1 + 3 * n2 + 3 * n3 + 3 * n4) as nat,
            total as nat,
        );
        lemma_keeps_chain(p0, p3, p4);
        if free {
            assert(p3.pages_free(rs[3].0, rs[3].1));
            lemma_ranges_step(p3, p4, rs, 3);
            assert(p0.pages_free(rs[3].0, rs[3].1));
            lemma_writes_only_step(p0, p3, p4, rs, 3);
        }
    }
    if res.is_err() {
        return res;
    }
    // the rest of the kernel region
    let mapped_sect_size = layout.elf_end - layout.limine_reqs_start;
    let rest = kernel_region.length - mapped_sect_size;
    let mut remaining = rest / 4096;
    if rest % 4096 != 0 {
        remaining += 1;
    }
    assert(remaining == n5);
    proof {
        lemma_linear_frames_left(
            &a0,
            &a4,
            (3 * n1 + 3 * n2 + 3 * n3 + 3 * n4) as nat,
            (total - 3 * n1 - 3 * n2 - 3 * n3 - 3 * n4) as nat,
        );
        assert((PRESENT | NO_EXECUTE) | 0x100u64 == (PRESENT | NO_EXECUTE) | GLOBAL);
        if free {
            assert(p4.pages_free(rs[4].0, rs[4].1));
        }
    }
    let phys = layout.elf_end - layout.virtual_base + layout.physical_base;
    let res = map_pages(
        page_table,
        remaining as usize,
        phys,
        layout.elf_end,
        flags_r() | GLOBAL,
        allocator,
    );
    proof {
        LinearFrameAllocator::lemma_used_chain(
            &a0,
            &a4,
            allocator,
            (3 * n1 + 3 * n2 + 3 * n3 + 3 * n4) as nat,
            3 * n5 as nat,
        );
        lemma_keeps_chain(p0, p4, *page_table);
        if free {
            assert(p0.pages_free(rs[4].0, rs[4].1));
            lemma_writes_only_step(p0, p4, *page_table, rs, 4);
        }
        if res is Ok {
            lemma_pages_stay_mapped(p1, p2, kernel_phys(l, l.limine_reqs_start), l.limine_reqs_start, n1, (PRESENT | NO_EXECUTE) | GLOBAL);
            lemma_keeps_chain(p2, p3, p4);
            lemma_keeps_chain(p2, p4, *page_table);
            lemma_pages_stay_mapped(p2, *page_table, kernel_phys(l, l.limine_reqs_start), l.limine_reqs_start, n1, (PRESENT | NO_EXECUTE) | GLOBAL);
            lemma_keeps_chain(p3, p4, *page_table);
            lemma_pages_stay_mapped(p2, *page_table, kernel_phys(l, l.text_start), l.text_start, n2, PRESENT | GLOBAL);
            lemma_pages_stay_mapped(p3, *page_table, kernel_phys(l, l.rodata_start), l.rodata_start, n3, (PRESENT | NO_EXECUTE) | GLOBAL);
            lemma_pages_stay_mapped(p4, *page_table, kernel_phys(l, l.data_start), l.data_start, n4, (WRITABLE | PRESENT | NO_EXECUTE) | GLOBAL);
        }
    }
    res
}


/// Whether region `i` is one that the kernel maps for later use: the framebuffer, the
/// ACPI regions and the bootloader reclaimable memory.
pub open spec fn is_misc_region(entries: Seq<MemoryMapEntry>, i: int) -> bool {
    let t = memory_map_type_of(entries[i].memmap_type);
    t == MemoryMapType::Framebuffer || t == MemoryMapType::AcpiNvs || t
        == MemoryMapType::AcpiReclaimable || t == MemoryMapType::AcpiTables || t
        == MemoryMapType::BootloaderReclaimable
}

/// The pages of a region of `length` bytes.
pub open spec fn length_pages(length: u64) -> int {
    (length + 4095) / 4096
}

/// The pages that `map_misc` maps for the first `n` regions.
pub open spec fn misc_pages(entries: Seq<MemoryMapEntry>, n: int) -> int
    decreases n,
{
    if n <= 0 {
        0
    } else {
        misc_pages(entries, n - 1) + if is_misc_region(entries, n - 1) {
            length_pages(entries[n - 1].length)
        } else {
            0
        }
    }
}

/// Whether every region that `map_misc` maps can be mapped at `offset` without a panic.
pub open spec fn misc_fits(entries: Seq<MemoryMapEntry>, offset: u64) -> bool {
    forall|i: int|
        0 <= i < entries.len() && #[trigger] is_misc_region(entries, i) ==> {
            &&& entries[i].base < phys_limit()
            &&& entries[i].base + offset <= u64::MAX
            &&& is_canonical((entries[i].base + offset) as u64)
            &&& pages_fit(
                entries[i].base as int,
                (entries[i].base + offset) as u64,
                length_pages(entries[i].length),
            )
        }
}

/// Whether every region that `map_misc` maps is mapped at `offset`, writable and
/// executable.
pub open spec fn misc_mapped(pt: RecursivePageTable, entries: Seq<MemoryMapEntry>, offset: u64) -> bool {
    forall|i: int|
        0 <= i < entries.len() && #[trigger] is_misc_region(entries, i) ==> pages_mapped(
            pt,
            entries[i].base as int,
            (entries[i].base + offset) as u64,
            length_pages(entries[i].length),
            WRITABLE | PRESENT,
        )
}

proof fn lemma_misc_pages_nonneg(entries: Seq<MemoryMapEntry>, n: int)
    ensures
        0 <= misc_pages(entries, n),
    decreases n,
{
    if n > 0 {
        lemma_misc_pages_nonneg(entries, n - 1);
    }
}

proof fn lemma_misc_pages_grow(entries: Seq<MemoryMapEntry>, a: int, b: int)
    requires
        0 <= a <= b,
    ensures
        0 <= misc_pages(entries, a) <= misc_pages(entries, b),
    decreases b,
{
    if a < b {
        lemma_misc_pages_grow(entries, a, b - 1);
    } else {
        lemma_misc_pages_nonneg(entries, a);
    }
}

/// The ranges of pages that `map_misc` maps, one per region, each a start address and a
/// number of pages: a region that it maps at `offset`, and no page for any other region.
pub open spec fn misc_ranges(entries: Seq<MemoryMapEntry>, offset: u64) -> Seq<(u64, int)> {
    Seq::new(
        entries.len(),
        |i: int|
            if is_misc_region(entries, i) {
                ((entries[i].base + offset) as u64, length_pages(entries[i].length))
            } else {
                (0u64, 0int)
            },
    )
}

/// Maps the regions of the memory map that the kernel uses later, at the page table's
/// offset, writable and executable: the framebuffer, the ACPI regions and the bootloader
/// reclaimable memory. Other regions are skipped. Stops at the first error. When the
/// tables of all these pages exist and their entries are free and apart, it succeeds and
/// writes nothing but their entries, so that no page of another region is mapped.
pub fn map_misc(
    rammap_entries: &[MemoryMapEntry],
    page_table: &mut RecursivePageTable,
    allocator: &mut LinearFrameAllocator,
) -> (r: Result<(), MemoryError>)
    requires
        old(page_table).wf(),
        types_are_valid(rammap_entries@),
        misc_fits(rammap_entries@, old(page_table).offset()),
        old(allocator).hands_out_frames(3 * misc_pages(rammap_entries@, rammap_entries@.len() as int) as nat),
    ensures
        RecursivePageTable::keeps_used_entries(old(page_table), final(page_table)),
        LinearFrameAllocator::used_at_most(
            old(allocator),
            final(allocator),
            3 * misc_pages(rammap_entries@, rammap_entries@.len() as int) as nat,
        ),
        r is Ok ==> misc_mapped(*final(page_table), rammap_entries@, old(page_table).offset()),
        ranges_free_from(
            *old(page_table),
            misc_ranges(rammap_entries@, old(page_table).offset()),
            0,
        ) ==> r is Ok && writes_only_ranges(
            *old(page_table),
            *final(page_table),
            misc_ranges(rammap_entries@, old(page_table).offset()),
            rammap_entries@.len() as int,
        ),
{
    let ghost entries = rammap_entries@;
    let ghost rs = misc_ranges(entries, page_table.offset());
    let ghost free = ranges_free_from(*page_table, rs, 0);
    let ghost total = 3 * misc_pages(entries, entries.len() as int);
    let offset = page_table.internal_offset();
    proof {
        lemma_kernel_flags_present();
        allocator.lemma_used_none();
        lemma_misc_pages_grow(entries, 0, entries.len() as int);
    }
    let mut k: usize = 0;
    while k < rammap_entries.len()
        invariant
            k <= entries.len(),
            entries == rammap_entries@,
            types_are_valid(entries),
            offset == old(page_table).offset(),
            misc_fits(entries, offset),
            total == 3 * misc_pages(entries, entries.len() as int),
            old(allocator).hands_out_frames(total as nat),
            page_table.wf(),
            page_table.offset() == offset,
            RecursivePageTable::keeps_used_entries(old(page_table), page_table),
            rs == misc_ranges(entries, offset),
            rs.len() == entries.len(),
            free == ranges_free_from(*old(page_table), rs, 0),
            free ==> writes_only_ranges(*old(page_table), *page_table, rs, k as int),
            free ==> ranges_free_from(*page_table, rs, k as int),
            LinearFrameAllocator::used_at_most(old(allocator), allocator, 3 * misc_pages(entries, k as int) as nat),
            forall|i: int|
                0 <= i < k && #[trigger] is_misc_region(entries, i) ==> pages_mapped(
                    *page_table,
                    entries[i].base as int,
                    (entries[i].base + offset) as u64,
                    length_pages(entries[i].length),
                    WRITABLE | PRESENT,
                ),
        decreases entries.len() - k,
    {
        let region = rammap_entries[k];
        let t = region.get_type();
        let is_misc = match t {
            MemoryMapType::Framebuffer => true,
            MemoryMapType::AcpiNvs
            | MemoryMapType::AcpiReclaimable
            | MemoryMapType::AcpiTables
            | MemoryMapType::BootloaderReclaimable => true,
            _ => false,
        };
        proof {
            lemma_kernel_flags_present();
            assert(is_misc == is_misc_region(entries, k as int));
            lemma_misc_pages_grow(entries, k as int, entries.len() as int);
            lemma_misc_pages_grow(entries, k + 1, entries.len() as int);
            assert(misc_pages(entries, k + 1) == misc_pages(entries, k as int) + if is_misc {
                length_pages(entries[k as int].length)
            } else {
                0
            });
        }
        if is_misc {
            let flags = flags_rwx();
            let mut pages = region.length / 4096;
            if region.length % 4096 != 0 {
                pages += 1;
            }
            assert(pages == length_pages(region.length));
            let ghost before = *page_table;
            let ghost alloc_before = *allocator;
            proof {
                lemma_misc_pages_grow(entries, k + 1, entries.len() as int);
                lemma_linear_frames_left(
                    old(allocator),
                    allocator,
                    3 * misc_pages(entries, k as int) as nat,
                    (total - 3 * misc_pages(entries, k as int)) as nat,
                );
                allocator.lemma_fewer_frames(
                    (total - 3 * misc_pages(entries, k as int)) as nat,
                    3 * pages as nat,
                );
            }
            let phys = crate::arch::phys_addr_new(region.base);
            let virt = crate::arch::virt_addr_new(region.base + offset);
            let res = map_pages(page_table, pages as usize, phys, virt, flags, allocator);
            proof {
                LinearFrameAllocator::lemma_used_chain(
                    old(allocator),
                    &alloc_before,
                    allocator,
                    3 * misc_pages(entries, k as int) as nat,
                    3 * pages as nat,
                );
                lemma_keeps_chain(*old(page_table), before, *page_table);
                if free {
                    assert(rs[k as int] == (virt, pages as int));
                    assert(before.pages_free(rs[k as int].0, rs[k as int].1));
                    lemma_ranges_step(before, *page_table, rs, k as int);
                    assert(old(page_table).pages_free(rs[k as int].0, rs[k as int].1));
                    lemma_writes_only_step(*old(page_table), before, *page_table, rs, k as int);
                }
            }
            if res.is_err() {
                proof {
                    LinearFrameAllocator::lemma_used_more(
                        old(allocator),
                        allocator,
                        (3 * misc_pages(entries, k as int) + 3 * pages) as nat,
                        total as nat,
                    );
                }
                return res;
            }
            proof {
                assert forall|i: int|
                    0 <= i < k + 1 && #[trigger] is_misc_region(entries, i) implies pages_mapped(
                    *page_table,
                    entries[i].base as int,
                    (entries[i].base + offset) as u64,
                    length_pages(entries[i].length),
                    WRITABLE | PRESENT,
                ) by {
                    if i < k {
                        lemma_pages_stay_mapped(
                            before,
                            *page_table,
                            entries[i].base as int,
                            (entries[i].base + offset) as u64,
                            length_pages(entries[i].length),
                            WRITABLE | PRESENT,
                        );
                    }
                }
            }
        }
        proof {
            if free && !is_misc {
                assert(ranges_free_from(*page_table, rs, k + 1));
                lemma_writes_only_more(*old(page_table), *page_table, rs, k as int, k + 1);
            }
        }
        k += 1;
    }
    Ok(())
}


/// The stack size that the kernel asks the loader for.
pub const KERNEL_STACK_SIZE: u64 = 65536;

/// The top of the kernel stack: 16 bytes above the stack pointer at entry.
pub open spec fn stack_top(entry_stack_pointer: u64) -> int {
    entry_stack_pointer + 16
}

/// The bottom of the kernel stack.
pub open spec fn stack_bottom(entry_stack_pointer: u64) -> int {
    stack_top(entry_stack_pointer) - KERNEL_STACK_SIZE
}

/// The address of stack page `i`.
pub open spec fn stack_page(entry_stack_pointer: u64, i: int) -> u64 {
    (stack_bottom(entry_stack_pointer) + 4096 * i) as u64
}

/// Whether `remap_stack` runs without a panic: the stack's top and bottom are canonical.
pub open spec fn stack_fits(entry_stack_pointer: u64) -> bool {
    &&& is_canonical(entry_stack_pointer)
    &&& stack_top(entry_stack_pointer) <= u64::MAX
    &&& is_canonical(stack_top(entry_stack_pointer) as u64)
    &&& KERNEL_STACK_SIZE <= stack_top(entry_stack_pointer)
    &&& is_canonical(stack_bottom(entry_stack_pointer) as u64)
}

/// Keeping addresses twice keeps them.
proof fn lemma_keeps_addresses_chain(a: RecursivePageTable, b: RecursivePageTable, c: RecursivePageTable)
    requires
        RecursivePageTable::keeps_addresses(&a, &b),
        RecursivePageTable::keeps_addresses(&b, &c),
    ensures
        RecursivePageTable::keeps_addresses(&a, &c),
{
    assert forall|u: u64, i: int| 0 <= i < 512 implies (#[trigger] c.table_at(u)[i] == 0) == (
    a.table_at(u)[i] == 0) && c.table_at(u)[i] & ADDR_MASK == a.table_at(u)[i] & ADDR_MASK by {
        assert((b.table_at(u)[i] == 0) == (a.table_at(u)[i] == 0));
    }
}

/// Whether stack page `i` has its level 1 table but a zero entry there, so that it maps
/// nothing and its flags cannot be set.
pub open spec fn stack_page_unmapped(pt: RecursivePageTable, entry_stack_pointer: u64, i: int) -> bool {
    let p = stack_page(entry_stack_pointer, i);
    pt.table_for(1, p) matches Some(t) && pt.table_at(t)[page_index(1, p)] == 0
}

/// Makes the pages of the kernel stack writable, keeping their frames, one
/// `update_flags` at a time, and stops at the first error. A stack page whose level 1
/// table exists but whose entry is zero maps nothing and is reported as an error; a page
/// without a level 1 table is left alone. The guard page above the stack is not
/// unmapped: the kernel has no way to unmap a page yet.
pub fn remap_stack(entry_stack_pointer: u64, page_table: &mut RecursivePageTable) -> (r: Result<
    (),
    MemoryError,
>)
    requires
        old(page_table).wf(),
        stack_fits(entry_stack_pointer),
    ensures
        RecursivePageTable::keeps_addresses(old(page_table), final(page_table)),
        r is Err ==> r == Err::<(), MemoryError>(MemoryError::TODOError),
        r is Ok <==> forall|i: int|
            0 <= i < KERNEL_STACK_SIZE / 4096 ==> !#[trigger] stack_page_unmapped(
                *old(page_table),
                entry_stack_pointer,
                i,
            ),
        r is Ok ==> forall|i: int|
            0 <= i < KERNEL_STACK_SIZE / 4096 && #[trigger] old(page_table).table_for(
                1,
                stack_page(entry_stack_pointer, i),
            ) is Some ==> final(page_table).leaf_entry(stack_page(entry_stack_pointer, i)) == Some(
                (old(page_table).leaf_entry(stack_page(entry_stack_pointer, i))->0 & ADDR_MASK) | (
                WRITABLE | PRESENT | NO_EXECUTE),
            ),
{
    let top = virt_add(entry_stack_pointer, 16);
    let bottom = virt_sub(top, KERNEL_STACK_SIZE);
    let pages: u64 = KERNEL_STACK_SIZE / 4096;
    let ghost rw = WRITABLE | PRESENT | NO_EXECUTE;
    proof {
        assert(rw & ADDR_MASK == 0) by (bit_vector)
            requires
                rw == 2u64 | 1u64 | 0x8000_0000_0000_0000u64,
        ;
        assert(forall|x: u64| ((x & ADDR_MASK) | rw) & ADDR_MASK == x & ADDR_MASK && (x & ADDR_MASK)
            | rw != 0) by {
            assert forall|x: u64| ((x & ADDR_MASK) | rw) & ADDR_MASK == x & ADDR_MASK && (x & ADDR_MASK)
                | rw != 0 by {
                assert(((x & 0x000f_ffff_ffff_f000u64) | rw) & 0x000f_ffff_ffff_f000u64 == x
                    & 0x000f_ffff_ffff_f000u64 && (x & 0x000f_ffff_ffff_f000u64) | rw != 0)
                    by (bit_vector)
                    requires
                        rw == 2u64 | 1u64 | 0x8000_0000_0000_0000u64,
                ;
            }
        }
    }
    let mut i: u64 = 0;
    while i < pages
        invariant
            i <= pages,
            pages == KERNEL_STACK_SIZE / 4096,
            bottom == stack_bottom(entry_stack_pointer),
            top == stack_top(entry_stack_pointer),
            KERNEL_STACK_SIZE <= top,
            stack_fits(entry_stack_pointer),
            rw == WRITABLE | PRESENT | NO_EXECUTE,
            forall|x: u64| ((x & ADDR_MASK) | rw) & ADDR_MASK == x & ADDR_MASK && (x & ADDR_MASK) | rw
                != 0,
            old(page_table).wf(),
            page_table.wf(),
            RecursivePageTable::keeps_addresses(old(page_table), page_table),
            forall|m: int|
                0 <= m < i ==> !#[trigger] stack_page_unmapped(*old(page_table), entry_stack_pointer, m),
            forall|m: int|
                0 <= m < i && #[trigger] old(page_table).table_for(1, stack_page(entry_stack_pointer, m))
                    is Some ==> page_table.leaf_entry(stack_page(entry_stack_pointer, m)) == Some(
                    (old(page_table).leaf_entry(stack_page(entry_stack_pointer, m))->0 & ADDR_MASK)
                        | rw,
                ),
        decreases pages - i,
    {
        let page = bottom + 4096 * i;
        let ghost before = *page_table;
        proof {
            assert(page == stack_page(entry_stack_pointer, i as int));
            lemma_page_index_bound(1, page);
            RecursivePageTable::lemma_kept_addresses_keep_paths(old(page_table), &before, 1, page);
        }
        let res = page_table.update_flags(page, flags_rw());
        if res.is_err() {
            proof {
                assert(stack_page_unmapped(*old(page_table), entry_stack_pointer, i as int));
            }
            return res;
        }
        proof {
            match before.table_for(1, page) {
                None => {},
                Some(t) => {
                    let idx = page_index(1, page);
                    let e = before.table_at(t)[idx];
                    before.lemma_table_at_len(t);
                    assert(RecursivePageTable::keeps_addresses(&before, page_table)) by {
                        assert forall|u: u64, j: int| 0 <= j < 512 implies (#[trigger] page_table.table_at(
                            u,
                        )[j] == 0) == (before.table_at(u)[j] == 0) && page_table.table_at(u)[j]
                            & ADDR_MASK == before.table_at(u)[j] & ADDR_MASK by {
                            if u == t && j == idx {
                                assert(page_table.table_at(u)[j] == (e & ADDR_MASK) | rw);
                            }
                        }
                    }
                },
            }
            lemma_keeps_addresses_chain(*old(page_table), before, *page_table);
            assert forall|m: int|
                0 <= m < i + 1 && #[trigger] old(page_table).table_for(
                    1,
                    stack_page(entry_stack_pointer, m),
                ) is Some implies page_table.leaf_entry(stack_page(entry_stack_pointer, m)) == Some(
                (old(page_table).leaf_entry(stack_page(entry_stack_pointer, m))->0 & ADDR_MASK) | rw,
            ) by {
                let pm = stack_page(entry_stack_pointer, m);
                lemma_page_index_bound(1, pm);
                RecursivePageTable::lemma_kept_addresses_keep_paths(old(page_table), &before, 1, pm);
                RecursivePageTable::lemma_kept_addresses_keep_paths(old(page_table), page_table, 1, pm);
                let tm = old(page_table).table_for(1, pm)->0;
                let im = page_index(1, pm);
                old(page_table).lemma_table_at_len(tm);
                assert(page_table.table_at(tm)[im] & ADDR_MASK == old(page_table).table_at(tm)[im]
                    & ADDR_MASK);
                if m == i {
                    assert(pm == page);
                } else if before.table_for(1, page) == Some(tm) && page_index(1, page) == im {
                    assert(before.table_at(tm)[im] & ADDR_MASK == old(page_table).table_at(tm)[im]
                        & ADDR_MASK);
                }
            }
        }
        i += 1;
    }
    Ok(())
}

/// Whether region `i` is the first region that holds the kernel.
pub open spec fn is_first_kernel_region(entries: Seq<MemoryMapEntry>, i: int) -> bool {
    &&& 0 <= i < entries.len()
    &&& memory_map_type_of(entries[i].memmap_type) == MemoryMapType::ExecutableAndModules
    &&& forall|j: int|
        0 <= j < i ==> memory_map_type_of(#[trigger] entries[j].memmap_type)
            != MemoryMapType::ExecutableAndModules
}

/// Whether `e` is the highest end of a region that counts toward physical memory.
pub open spec fn is_highest_end(entries: Seq<MemoryMapEntry>, e: int) -> bool {
    &&& exists|i: int|
        0 <= i < entries.len() && is_valid_region(entries, i) && #[trigger] region_end(entries, i)
            == e
    &&& forall|j: int|
        0 <= j < entries.len() && is_valid_region(entries, j) ==> #[trigger] region_end(entries, j)
            <= e
}

/// The bytes of the frame bitmap for memory that ends at `e`.
pub open spec fn bitmap_bytes(e: int) -> int {
    e / 4096 / 8
}

/// The frames that `init_paging` takes from the linear allocator at most: the level 4
/// table, up to three table frames per mapped page, and the two bitmaps with up to three
/// table frames per page of theirs.
pub open spec fn paging_frames(l: KernelLayout, entries: Seq<MemoryMapEntry>, kernel_length: u64, e: int) -> int {
    1 + 3 * kernel_pages(l, kernel_length) + 3 * misc_pages(entries, entries.len() as int) + 4
        * BitmapAllocator::bitmap_pages(bitmap_bytes(e)) + 4 * BitmapAllocator::bitmap_pages(
        2 * bitmap_bytes(e),
    )
}

/// Whether `init_paging` runs without a panic: the map is valid, has a kernel region and a
/// region that counts toward physical memory, the kernel image, the regions for later
/// use and the stack can be mapped, the usable regions fit the frame bitmap, and the
/// linear allocator has room for every frame that the setup may take, at addresses that
/// the table offset maps into one canonical half. Since how many table frames the setup
/// takes depends on which tables it must create, the frames are bounded by the most it
/// can take.
pub open spec fn paging_fits(
    entry_stack_pointer: u64,
    hhdm_offset: u64,
    allocator: LinearFrameAllocator,
    entries: Seq<MemoryMapEntry>,
    l: KernelLayout,
) -> bool {
    &&& types_are_valid(entries)
    &&& exists|i: int| #[trigger] is_first_kernel_region(entries, i)
    &&& exists|i: int| 0 <= i < entries.len() && #[trigger] is_valid_region(entries, i)
    &&& forall|i: int|
        0 <= i < entries.len() && is_valid_region(entries, i) ==> #[trigger] region_end(entries, i)
            <= u64::MAX
    &&& stack_fits(entry_stack_pointer)
    &&& misc_fits(entries, hhdm_offset)
    &&& forall|i: int, e: int|
        #[trigger] is_first_kernel_region(entries, i) && #[trigger] is_highest_end(entries, e)
            ==> {
            let frames = paging_frames(l, entries, entries[i].length, e);
            &&& kernel_fits(l, entries[i].length)
            &&& 2 * bitmap_bytes(e) <= usize::MAX
            &&& 2 * bitmap_bytes(e) <= max_bitmap_bytes()
            &&& BitmapAllocator::bitmap_pages(2 * bitmap_bytes(e)) * 4096 <= usize::MAX
            &&& BitmapFrameAllocator::regions_fit(entries, bitmap_bytes(e))
            &&& allocator.0 % 4096 == 0
            &&& allocator.0 + 4096 * frames < phys_limit()
            &&& allocator.0 + 4096 * frames + hhdm_offset <= u64::MAX
            &&& 0xffff_8000_0000_0000 <= allocator.0 + hhdm_offset || allocator.0 + 4096 * frames
                + hhdm_offset < 0x0000_8000_0000_0000
        }
}

/// The kernel image mapped in `p2` and the regions for later use mapped in `p3` still
/// translate after the stack is made writable (`p3` to `p4`) and the two bitmaps are
/// mapped (`p4` to `p5` to `p6`).
proof fn lemma_paging_translations(
    p2: RecursivePageTable,
    p3: RecursivePageTable,
    p4: RecursivePageTable,
    p5: RecursivePageTable,
    p6: RecursivePageTable,
    l: KernelLayout,
    kernel_length: u64,
    entries: Seq<MemoryMapEntry>,
    offset: u64,
)
    requires
        kernel_mapped(p2, l, kernel_length),
        misc_mapped(p3, entries, offset),
        RecursivePageTable::keeps_used_entries(&p2, &p3),
        RecursivePageTable::keeps_addresses(&p3, &p4),
        RecursivePageTable::keeps_used_entries(&p4, &p5),
        RecursivePageTable::keeps_used_entries(&p5, &p6),
    ensures
        kernel_translated(p6, l, kernel_length),
        misc_translated(p6, entries, offset),
{
    lemma_used_entries_keep_translations(p2, p3);
    lemma_addresses_keep_translations(p3, p4);
    lemma_used_entries_keep_translations(p4, p5);
    lemma_used_entries_keep_translations(p5, p6);
    lemma_keeps_translations_chain(p3, p4, p5);
    lemma_keeps_translations_chain(p3, p5, p6);
    lemma_keeps_translations_chain(p2, p3, p6);
    lemma_kernel_translated(p2, p6, l, kernel_length);
    lemma_misc_translated(p3, p6, entries, offset);
}

/// What a successful `init_paging` leaves: a page table at the given offset in which the
/// kernel image and the regions for later use translate to their frames, a frame allocator
/// whose free frames are those of the usable regions, and a virtual memory
/// allocator twice its size on which no page is free.
#[verifier::opaque]
pub open spec fn paging_ready(
    c: KernelPagingController,
    entry_stack_pointer: u64,
    hhdm_offset: u64,
    entries: Seq<MemoryMapEntry>,
    l: KernelLayout,
    kernel_length: u64,
    e: int,
) -> bool {
    let size = bitmap_bytes(e);
    &&& c.rec_page_table.wf()
    &&& c.rec_page_table.offset() == hhdm_offset
    &&& kernel_translated(c.rec_page_table, l, kernel_length)
    &&& misc_translated(c.rec_page_table, entries, hhdm_offset)
    &&& c.frame_allocator.0.wf()
    &&& c.frame_allocator.0.size_bits() == size * 8
    &&& c.frame_allocator.0.last() == 0
    &&& c.frame_allocator.0.bits() == Seq::new(
        (size * 8) as nat,
        |b: int| !cleared_by_usable(entries, b),
    )
    &&& c.virt_mem_allocator.0.wf()
    &&& c.virt_mem_allocator.0.size_bits() == 2 * size * 8
    &&& c.virt_mem_allocator.0.last() == 0
    &&& c.virt_mem_allocator.0.bits() == Seq::new((2 * size * 8) as nat, |b: int| true)
}

/// Whether `q` translates every address that `p` translates, to the same place.
pub open spec fn keeps_translations(p: RecursivePageTable, q: RecursivePageTable) -> bool {
    forall|a: u64| #[trigger] p.translation(a) is Some ==> q.translation(a) == p.translation(a)
}

/// Keeping every entry in use keeps every translation.
proof fn lemma_used_entries_keep_translations(p: RecursivePageTable, q: RecursivePageTable)
    requires
        RecursivePageTable::keeps_used_entries(&p, &q),
    ensures
        keeps_translations(p, q),
{
    assert forall|a: u64| #[trigger] p.translation(a) is Some implies q.translation(a) == p.translation(
        a,
    ) by {
        crate::page_table::lemma_kept_entries_keep_translations(&p, &q, a);
    }
}

/// Keeping every entry's address and whether it is zero keeps every translation.
proof fn lemma_addresses_keep_translations(p: RecursivePageTable, q: RecursivePageTable)
    requires
        RecursivePageTable::keeps_addresses(&p, &q),
    ensures
        keeps_translations(p, q),
{
    assert forall|a: u64| #[trigger] p.translation(a) is Some implies q.translation(a) == p.translation(
        a,
    ) by {
        RecursivePageTable::lemma_kept_addresses_keep_translations(&p, &q, a);
    }
}

/// Whether each of the `n` pages from `virt` on translates to the frame at the same place
/// from `phys` on.
pub open spec fn pages_translated(pt: RecursivePageTable, phys: int, virt: u64, n: int, flags: u64) -> bool {
    forall|i: int|
        0 <= i < n ==> #[trigger] pt.translation((virt + 4096 * i) as u64) == entry_translation(
            ((phys + 4096 * i) as u64) | flags,
            (virt + 4096 * i) as u64,
        )
}

/// Pages that translate to their frames keep doing so in a table that keeps every
/// translation.
proof fn lemma_translated_stays(
    p: RecursivePageTable,
    q: RecursivePageTable,
    phys: int,
    virt: u64,
    n: int,
    flags: u64,
)
    requires
        pages_translated(p, phys, virt, n, flags),
        keeps_translations(p, q),
        flags & 1 == 1,
    ensures
        pages_translated(q, phys, virt, n, flags),
{
    assert forall|i: int| 0 <= i < n implies #[trigger] q.translation((virt + 4096 * i) as u64)
        == entry_translation(((phys + 4096 * i) as u64) | flags, (virt + 4096 * i) as u64) by {
        lemma_present_entry((phys + 4096 * i) as u64, flags);
        assert(p.translation((virt + 4096 * i) as u64) is Some);
    }
}

/// Whether the kernel image translates to its physical place: each section and the rest
/// of the region.
pub open spec fn kernel_translated(pt: RecursivePageTable, l: KernelLayout, length: u64) -> bool {
    &&& pages_translated(pt, kernel_phys(l, l.limine_reqs_start), l.limine_reqs_start, section_pages(l.limine_reqs_start, l.text_start), (PRESENT | NO_EXECUTE) | GLOBAL)
    &&& pages_translated(pt, kernel_phys(l, l.text_start), l.text_start, section_pages(l.text_start, l.rodata_start), PRESENT | GLOBAL)
    &&& pages_translated(pt, kernel_phys(l, l.rodata_start), l.rodata_start, section_pages(l.rodata_start, l.data_start), (PRESENT | NO_EXECUTE) | GLOBAL)
    &&& pages_translated(pt, kernel_phys(l, l.data_start), l.data_start, section_pages(l.data_start, l.elf_end), (WRITABLE | PRESENT | NO_EXECUTE) | GLOBAL)
    &&& pages_translated(pt, kernel_phys(l, l.elf_end), l.elf_end, remaining_pages(l, length), (PRESENT | NO_EXECUTE) | GLOBAL)
}

/// Whether every region that `map_misc` maps translates at `offset` to its frames.
pub open spec fn misc_translated(pt: RecursivePageTable, entries: Seq<MemoryMapEntry>, offset: u64) -> bool {
    forall|i: int|
        0 <= i < entries.len() && #[trigger] is_misc_region(entries, i) ==> pages_translated(
            pt,
            entries[i].base as int,
            (entries[i].base + offset) as u64,
            length_pages(entries[i].length),
            WRITABLE | PRESENT,
        )
}

/// A mapped kernel image translates, and keeps translating in a table that keeps every
/// translation.
proof fn lemma_kernel_translated(p: RecursivePageTable, q: RecursivePageTable, l: KernelLayout, length: u64)
    requires
        kernel_mapped(p, l, length) || kernel_translated(p, l, length),
        keeps_translations(p, q),
    ensures
        kernel_translated(q, l, length),
{
    lemma_kernel_flags_present();
    lemma_translated_stays(p, q, kernel_phys(l, l.limine_reqs_start), l.limine_reqs_start, section_pages(l.limine_reqs_start, l.text_start), (PRESENT | NO_EXECUTE) | GLOBAL);
    lemma_translated_stays(p, q, kernel_phys(l, l.text_start), l.text_start, section_pages(l.text_start, l.rodata_start), PRESENT | GLOBAL);
    lemma_translated_stays(p, q, kernel_phys(l, l.rodata_start), l.rodata_start, section_pages(l.rodata_start, l.data_start), (PRESENT | NO_EXECUTE) | GLOBAL);
    lemma_translated_stays(p, q, kernel_phys(l, l.data_start), l.data_start, section_pages(l.data_start, l.elf_end), (WRITABLE | PRESENT | NO_EXECUTE) | GLOBAL);
    lemma_translated_stays(p, q, kernel_phys(l, l.elf_end), l.elf_end, remaining_pages(l, length), (PRESENT | NO_EXECUTE) | GLOBAL);
}

/// Mapped regions for later use translate, and keep translating in a table that keeps
/// every translation.
proof fn lemma_misc_translated(
    p: RecursivePageTable,
    q: RecursivePageTable,
    entries: Seq<MemoryMapEntry>,
    offset: u64,
)
    requires
        misc_mapped(p, entries, offset) || misc_translated(p, entries, offset),
        keeps_translations(p, q),
    ensures
        misc_translated(q, entries, offset),
{
    lemma_kernel_flags_present();
    assert forall|i: int| 0 <= i < entries.len() && #[trigger] is_misc_region(entries, i) implies pages_translated(
        q,
        entries[i].base as int,
        (entries[i].base + offset) as u64,
        length_pages(entries[i].length),
        WRITABLE | PRESENT,
    ) by {
        lemma_translated_stays(
            p,
            q,
            entries[i].base as int,
            (entries[i].base + offset) as u64,
            length_pages(entries[i].length),
            WRITABLE | PRESENT,
        );
    }
}

/// Translations kept three times are kept.
proof fn lemma_keeps_translations_chain(
    a: RecursivePageTable,
    b: RecursivePageTable,
    c: RecursivePageTable,
)
    requires
        keeps_translations(a, b),
        keeps_translations(b, c),
    ensures
        keeps_translations(a, c),
{
    assert forall|x: u64| #[trigger] a.translation(x) is Some implies c.translation(x) == a.translation(
        x,
    ) by {
        assert(b.translation(x) == a.translation(x));
    }
}

/// Sets paging up on a new page table whose tables are mapped at `hhdm_offset`, taking
/// frames from `linear_frame_allocator`: it maps the kernel image, the regions for later
/// use and the stack, then makes a frame allocator with one bit per frame below the
/// highest end of a region that counts toward physical memory, and a virtual memory
/// allocator twice that size. Stops at the first error.
#[verifier::spinoff_prover]
#[verifier::rlimit(100)]
pub fn init_paging(
    entry_stack_pointer: u64,
    hhdm_offset: u64,
    linear_frame_allocator: &mut LinearFrameAllocator,
    rammap_entries: &[MemoryMapEntry],
    layout: &KernelLayout,
) -> (r: Result<KernelPagingController, MemoryError>)
    requires
        paging_fits(
            entry_stack_pointer,
            hhdm_offset,
            *old(linear_frame_allocator),
            rammap_entries@,
            *layout,
        ),
    ensures
        forall|i: int, e: int|
            #[trigger] is_first_kernel_region(rammap_entries@, i) && #[trigger] is_highest_end(
                rammap_entries@,
                e,
            ) ==> {
                &&& LinearFrameAllocator::used_at_most(
                    old(linear_frame_allocator),
                    final(linear_frame_allocator),
                    paging_frames(*layout, rammap_entries@, rammap_entries@[i].length, e) as nat,
                )
                &&& r matches Ok(c) ==> paging_ready(
                    c,
                    entry_stack_pointer,
                    hhdm_offset,
                    rammap_entries@,
                    *layout,
                    rammap_entries@[i].length,
                    e,
                )
            },
{
    let ghost entries = rammap_entries@;
    let ghost l = *layout;
    let ghost a0 = *linear_frame_allocator;
    let k_sect = kernel_region(rammap_entries);
    let ghost ki = k_sect as int;
    let h = highest_valid_region(rammap_entries);
    let ghost e = region_end(entries, h as int);
    proof {
        assert(is_first_kernel_region(entries, ki));
        assert(is_highest_end(entries, e));
        assert forall|i: int, e2: int|
            #[trigger] is_first_kernel_region(entries, i) && #[trigger] is_highest_end(entries, e2)
                implies i == ki && e2 == e by {
            if i < ki {
                assert(memory_map_type_of(entries[i].memmap_type) != MemoryMapType::ExecutableAndModules);
            }
            if ki < i {
                assert(memory_map_type_of(entries[ki].memmap_type) != MemoryMapType::ExecutableAndModules);
            }
            let j = choose|j: int|
                0 <= j < entries.len() && is_valid_region(entries, j) && #[trigger] region_end(entries, j)
                    == e2;
            assert(region_end(entries, j) <= e);
            assert(region_end(entries, h as int) <= e2);
        }
    }
    let ghost kernel_length = entries[ki].length;
    let ghost frames = paging_frames(l, entries, kernel_length, e);
    let ghost n_k = 3 * kernel_pages(l, kernel_length);
    let ghost n_m = 3 * misc_pages(entries, entries.len() as int);
    let ghost size = bitmap_bytes(e);
    proof {
        lemma_misc_pages_grow(entries, 0, entries.len() as int);
        assert(a0.hands_out_frames(frames as nat));
        assert(frames == 1 + (frames - 1));
        assert(a0.hands_out_frames(((frames - 1) as nat + 1) as nat));
    }
    let mut k_page_table = RecursivePageTable::new(linear_frame_allocator, hhdm_offset);
    let ghost a1 = *linear_frame_allocator;
    let ghost p1 = k_page_table;
    proof {
        lemma_linear_frames_left(&a0, &a1, 1, (frames - 1) as nat);
        a1.lemma_fewer_frames((frames - 1) as nat, n_k as nat);
        LinearFrameAllocator::lemma_used_more(&a0, &a1, 1, frames as nat);
    }
    let res = map_kernel(&mut k_page_table, linear_frame_allocator, &rammap_entries[k_sect], layout);
    let ghost a2 = *linear_frame_allocator;
    let ghost p2 = k_page_table;
    proof {
        LinearFrameAllocator::lemma_used_chain(&a0, &a1, &a2, 1, n_k as nat);
        LinearFrameAllocator::lemma_used_more(&a0, &a2, (1 + n_k) as nat, frames as nat);
    }
    if let Err(err) = res {
        return Err(err);
    }
    proof {
        lemma_linear_frames_left(&a0, &a2, (1 + n_k) as nat, (frames - 1 - n_k) as nat);
        a2.lemma_fewer_frames((frames - 1 - n_k) as nat, n_m as nat);
    }
    let res = map_misc(rammap_entries, &mut k_page_table, linear_frame_allocator);
    let ghost a3 = *linear_frame_allocator;
    let ghost p3 = k_page_table;
    proof {
        LinearFrameAllocator::lemma_used_chain(&a0, &a2, &a3, (1 + n_k) as nat, n_m as nat);
        LinearFrameAllocator::lemma_used_more(&a0, &a3, (1 + n_k + n_m) as nat, frames as nat);
    }
    if let Err(err) = res {
        return Err(err);
    }
    let res = remap_stack(entry_stack_pointer, &mut k_page_table);
    let ghost p4 = k_page_table;
    if let Err(err) = res {
        return Err(err);
    }
    let size_bytes = frame_bitmap_size(rammap_entries[h].base + rammap_entries[h].length);
    assert(size_bytes == size);
    let pages1 = crate::size_in_pages(size_bytes as usize);
    proof {
        assert(pages1 == BitmapAllocator::bitmap_pages(size));
        lemma_linear_frames_left(&a0, &a3, (1 + n_k + n_m) as nat, (frames - 1 - n_k - n_m) as nat);
        assert((a3.0 - a0.0) % 4096 == 0);
        assert(a3.0 <= a0.0 + 4096 * (1 + n_k + n_m));
        assert(4096 * frames == 4096 * (1 + n_k + n_m) + 4096 * (frames - 1 - n_k - n_m)) by (nonlinear_arith);
        assert(BitmapAllocator::new_safe(size, a3, p4)) by {
            assert(pages1 * 4096 + 4096 * (3 * pages1) == 4096 * (4 * pages1)) by (nonlinear_arith);
            assert(pages_are_canonical((a3.0 + hhdm_offset) as u64, pages1 as int)) by {
                assert forall|m: int| 0 <= m < pages1 implies (a3.0 + hhdm_offset) + 4096 * m <= u64::MAX
                    && #[trigger] is_canonical(((a3.0 + hhdm_offset) + 4096 * m) as u64) by {
                    assert(4096 * m <= 4096 * (4 * pages1)) by (nonlinear_arith)
                        requires
                            0 <= m < pages1,
                    ;
                }
            }
        }
    }
    let k_frame_allocator = match BitmapFrameAllocator::new(
        size_bytes as usize,
        linear_frame_allocator,
        &mut k_page_table,
        rammap_entries,
    ) {
        Ok(a) => a,
        Err(err) => {
            return Err(err);
        },
    };
    let ghost a5 = *linear_frame_allocator;
    let ghost p5 = k_page_table;
    let pages2 = crate::size_in_pages(size_bytes as usize * 2);
    proof {
        assert(pages2 == BitmapAllocator::bitmap_pages(2 * size));
        LinearFrameAllocator::lemma_used_chain(&a0, &a3, &a5, (1 + n_k + n_m) as nat, (4 * pages1) as nat);
        assert(BitmapAllocator::new_safe(2 * size, a5, p5)) by {
            assert(a5.0 <= a0.0 + 4096 * (1 + n_k + n_m + 4 * pages1));
            assert(4096 * frames == 4096 * (1 + n_k + n_m + 4 * pages1) + 4096 * (4 * pages2)) by (nonlinear_arith)
                requires
                    frames == 1 + n_k + n_m + 4 * pages1 + 4 * pages2,
            ;
            vstd::arithmetic::div_mod::lemma_mod_adds(a0.0 as int, (a5.0 - a0.0) as int, 4096);
            assert(pages2 * 4096 + 4096 * (3 * pages2) == 4096 * (4 * pages2)) by (nonlinear_arith);
            assert(pages_are_canonical((a5.0 + hhdm_offset) as u64, pages2 as int)) by {
                assert forall|m: int| 0 <= m < pages2 implies (a5.0 + hhdm_offset) + 4096 * m <= u64::MAX
                    && #[trigger] is_canonical(((a5.0 + hhdm_offset) + 4096 * m) as u64) by {
                    assert(4096 * m <= 4096 * (4 * pages2)) by (nonlinear_arith)
                        requires
                            0 <= m < pages2,
                    ;
                }
            }
        }
    }
    let k_virt_mem_allocator = match VirtualMemoryAllocator::new(
        size_bytes as usize * 2,
        linear_frame_allocator,
        &mut k_page_table,
    ) {
        Ok(a) => a,
        Err(err) => {
            return Err(err);
        },
    };
    proof {
        LinearFrameAllocator::lemma_used_chain(
            &a0,
            &a5,
            linear_frame_allocator,
            (1 + n_k + n_m + 4 * pages1) as nat,
            (4 * pages2) as nat,
        );
        lemma_paging_translations(p2, p3, p4, p5, k_page_table, l, kernel_length, entries, hhdm_offset);
        reveal(paging_ready);
    }
    Ok(
        KernelPagingController {
            rec_page_table: k_page_table,
            frame_allocator: k_frame_allocator,
            virt_mem_allocator: k_virt_mem_allocator,
        },
    )
}


/// The bits of a new frame allocator of `size` bytes: taken but for the frames of the
/// usable regions.
pub open spec fn initial_frame_bits(entries: Seq<MemoryMapEntry>, size: int) -> Seq<bool> {
    Seq::new((size * 8) as nat, |b: int| !cleared_by_usable(entries, b))
}

/// The size of the kernel heap in bytes.
pub const KERNEL_HEAP_SIZE: usize = 4 * crate::MEBIBYTE;

/// The pages of the kernel heap.
pub open spec fn heap_pages() -> int {
    KERNEL_HEAP_SIZE as int / 4096
}

/// Whether region `u` is the one that `largest_usable_region` picks: the last of the
/// largest usable regions.
pub open spec fn is_largest_usable(entries: Seq<MemoryMapEntry>, u: int) -> bool {
    &&& 0 <= u < entries.len()
    &&& is_usable(entries, u)
    &&& forall|j: int|
        0 <= j < entries.len() && is_usable(entries, j) ==> #[trigger] entries[j].length
            <= entries[u].length
    &&& forall|j: int|
        u < j < entries.len() && is_usable(entries, j) ==> #[trigger] entries[j].length
            < entries[u].length
}

/// The highest frame address that the linear allocator may reach during `init_memory`
/// from `base` on: the heap, the paging setup and the tables of the heap mapping.
pub open spec fn linear_top(base: int, paging_frames: int) -> int {
    base + 4096 * (heap_pages() + paging_frames + 3 * heap_pages())
}

/// Whether `init_memory` runs without a panic: the table offset is canonical, and for
/// the largest usable region, which holds the linear allocator, its base is a valid
/// aligned physical address whose offset mapping is canonical, paging can be set up
/// after the heap frames, and everything the linear allocator hands out stays within
/// physical memory and within the frame bitmap.
#[verifier::opaque]
pub open spec fn memory_fits(
    entry_stack_pointer: u64,
    hhdm_offset: u64,
    entries: Seq<MemoryMapEntry>,
    l: KernelLayout,
) -> bool {
    &&& types_are_valid(entries)
    &&& is_canonical(hhdm_offset)
    &&& forall|u: int|
        #[trigger] is_largest_usable(entries, u) ==> {
            let base = entries[u].base;
            &&& base < phys_limit()
            &&& is_canonical(base)
            &&& base + hhdm_offset <= u64::MAX
            &&& is_canonical((base + hhdm_offset) as u64)
            &&& base + 4096 * heap_pages() < phys_limit()
            &&& paging_fits(
                entry_stack_pointer,
                hhdm_offset,
                LinearFrameAllocator((base + 4096 * heap_pages()) as u64),
                entries,
                l,
            )
            &&& forall|i: int, e: int|
                #[trigger] is_first_kernel_region(entries, i) && #[trigger] is_highest_end(
                    entries,
                    e,
                ) ==> {
                    let top = linear_top(base as int, paging_frames(l, entries, entries[i].length, e));
                    &&& top < phys_limit()
                    &&& pages_fit(base as int, (base + hhdm_offset) as u64, heap_pages())
                    &&& top / 4096 <= bitmap_bytes(e) * 8
                }
        }
}

/// The kernel's paging state, the virtual address of its heap, and the address at which
/// the linear allocator of the setup stopped.
pub struct MemorySetup {
    pub paging_controller: KernelPagingController,
    pub heap_virt: u64,
    pub linear_end: u64,
}

/// What a successful `init_memory` leaves, with the linear allocator in the region at
/// `base`: the heap at `base` plus the table offset, mapped writable to the frames from
/// `base` on; the kernel image and the regions for later use mapped; the frames from
/// `base` on up to the address at which the linear allocator stopped, past the heap and
/// no higher than it could reach, marked taken in the frame allocator, which is otherwise
/// as `init_paging` made it; and the virtual memory allocator as `init_paging` made it.
#[verifier::opaque]
pub open spec fn memory_ready(
    m: MemorySetup,
    hhdm_offset: u64,
    entries: Seq<MemoryMapEntry>,
    l: KernelLayout,
    kernel_length: u64,
    e: int,
    base: u64,
) -> bool {
    let pc = m.paging_controller;
    let size = bitmap_bytes(e);
    &&& m.heap_virt == base + hhdm_offset
    &&& pages_mapped(pc.rec_page_table, base as int, m.heap_virt, heap_pages(), WRITABLE | PRESENT | NO_EXECUTE)
    &&& pc.rec_page_table.wf()
    &&& pc.rec_page_table.offset() == hhdm_offset
    &&& kernel_translated(pc.rec_page_table, l, kernel_length)
    &&& misc_translated(pc.rec_page_table, entries, hhdm_offset)
    &&& pc.frame_allocator.0.wf()
    &&& pc.frame_allocator.0.size_bits() == size * 8
    &&& m.linear_end % 4096 == 0
    &&& base + 4096 * heap_pages() <= m.linear_end <= linear_top(
        base as int,
        paging_frames(l, entries, kernel_length, e),
    )
    &&& pc.frame_allocator.0.bits() == flag_range_bits(
        initial_frame_bits(entries, size),
        base as int / 4096,
        m.linear_end as int / 4096,
        true,
    )
    &&& pc.virt_mem_allocator.0.wf()
    &&& pc.virt_mem_allocator.0.size_bits() == 2 * size * 8
    &&& pc.virt_mem_allocator.0.bits() == Seq::new((2 * size * 8) as nat, |b: int| true)
}

/// What `memory_fits` promises of the region that holds the linear allocator.
proof fn lemma_memory_fits_base(
    entry_stack_pointer: u64,
    hhdm_offset: u64,
    entries: Seq<MemoryMapEntry>,
    l: KernelLayout,
    u: int,
)
    requires
        memory_fits(entry_stack_pointer, hhdm_offset, entries, l),
        is_largest_usable(entries, u),
    ensures
        types_are_valid(entries),
        is_canonical(hhdm_offset),
        entries[u].base < phys_limit(),
        is_canonical(entries[u].base),
        entries[u].base + hhdm_offset <= u64::MAX,
        is_canonical((entries[u].base + hhdm_offset) as u64),
        entries[u].base + 4096 * heap_pages() < phys_limit(),
        paging_fits(
            entry_stack_pointer,
            hhdm_offset,
            LinearFrameAllocator((entries[u].base + 4096 * heap_pages()) as u64),
            entries,
            l,
        ),
{
    reveal(memory_fits);
}

/// What `memory_fits` promises of the frames that the linear allocator reaches.
proof fn lemma_memory_fits_top(
    entry_stack_pointer: u64,
    hhdm_offset: u64,
    entries: Seq<MemoryMapEntry>,
    l: KernelLayout,
    u: int,
    i: int,
    e: int,
)
    requires
        memory_fits(entry_stack_pointer, hhdm_offset, entries, l),
        is_largest_usable(entries, u),
        is_first_kernel_region(entries, i),
        is_highest_end(entries, e),
    ensures
        linear_top(entries[u].base as int, paging_frames(l, entries, entries[i].length, e))
            < phys_limit(),
        pages_fit(entries[u].base as int, (entries[u].base + hhdm_offset) as u64, heap_pages()),
        linear_top(entries[u].base as int, paging_frames(l, entries, entries[i].length, e)) / 4096
            <= bitmap_bytes(e) * 8,
{
    reveal(memory_fits);
}

/// Mapping the heap and marking the linear allocator's frames taken, after `init_paging`,
/// leaves memory ready.
proof fn lemma_memory_ready(
    c0: KernelPagingController,
    m: MemorySetup,
    entry_stack_pointer: u64,
    hhdm_offset: u64,
    entries: Seq<MemoryMapEntry>,
    l: KernelLayout,
    kernel_length: u64,
    e: int,
    base: u64,
)
    requires
        paging_ready(c0, entry_stack_pointer, hhdm_offset, entries, l, kernel_length, e),
        m.heap_virt == base + hhdm_offset,
        RecursivePageTable::keeps_used_entries(
            &c0.rec_page_table,
            &m.paging_controller.rec_page_table,
        ),
        pages_mapped(m.paging_controller.rec_page_table, base as int, m.heap_virt, heap_pages(), WRITABLE | PRESENT | NO_EXECUTE),
        m.paging_controller.frame_allocator.0.wf(),
        m.paging_controller.frame_allocator.0.size_bits() == c0.frame_allocator.0.size_bits(),
        m.paging_controller.frame_allocator.0.bits() == flag_range_bits(
            c0.frame_allocator.0.bits(),
            base as int / 4096,
            m.linear_end as int / 4096,
            true,
        ),
        m.linear_end % 4096 == 0,
        base + 4096 * heap_pages() <= m.linear_end <= linear_top(
            base as int,
            paging_frames(l, entries, kernel_length, e),
        ),
        m.paging_controller.virt_mem_allocator == c0.virt_mem_allocator,
    ensures
        memory_ready(m, hhdm_offset, entries, l, kernel_length, e, base),
{
    reveal(paging_ready);
    reveal(memory_ready);
    lemma_used_entries_keep_translations(c0.rec_page_table, m.paging_controller.rec_page_table);
    lemma_kernel_translated(c0.rec_page_table, m.paging_controller.rec_page_table, l, kernel_length);
    lemma_misc_translated(c0.rec_page_table, m.paging_controller.rec_page_table, entries, hhdm_offset);
    let size = bitmap_bytes(e);
    assert(c0.frame_allocator.0.bits() == initial_frame_bits(entries, size));
    assert(m.paging_controller.frame_allocator.0.bits() == flag_range_bits(
        initial_frame_bits(entries, size),
        base as int / 4096,
        m.linear_end as int / 4096,
        true,
    ));
}

/// Sets the kernel's memory up from the memory map, short of switching to the new page
/// table and starting the heap: the largest usable region feeds a linear allocator,
/// which first hands out the heap frames and then every frame that `init_paging` takes;
/// the heap is mapped at the table offset, writable; and the frames that the linear
/// allocator handed out are marked taken in the frame allocator. A map without a
/// usable region is an allocation error.
#[verifier::spinoff_prover]
#[verifier::rlimit(40)]
pub fn init_memory(
    entry_stack_pointer: u64,
    hhdm_offset: u64,
    rammap_entries: &[MemoryMapEntry],
    layout: &KernelLayout,
) -> (r: Result<MemorySetup, MemoryError>)
    requires
        memory_fits(entry_stack_pointer, hhdm_offset, rammap_entries@, *layout),
    ensures
        (forall|j: int| 0 <= j < rammap_entries@.len() ==> !is_usable(rammap_entries@, j)) ==> r
            == Err::<MemorySetup, MemoryError>(MemoryError::AllocationError),
        forall|u: int, i: int, e: int|
            #[trigger] is_largest_usable(rammap_entries@, u) && #[trigger] is_first_kernel_region(
                rammap_entries@,
                i,
            ) && #[trigger] is_highest_end(rammap_entries@, e) ==> (r matches Ok(m) ==> memory_ready(
                m,
                hhdm_offset,
                rammap_entries@,
                *layout,
                rammap_entries@[i].length,
                e,
                rammap_entries@[u].base,
            )),
{
    let ghost entries = rammap_entries@;
    proof {
        assert(types_are_valid(entries) && is_canonical(hhdm_offset)) by {
            reveal(memory_fits);
        }
    }
    let physical_memory_offset = virt_addr_new(hhdm_offset);
    let allocator_region = match largest_usable_region(rammap_entries) {
        Some(u) => u,
        None => {
            return Err(MemoryError::AllocationError);
        },
    };
    let ghost u = allocator_region as int;
    let ghost base = entries[u].base;
    proof {
        assert(is_largest_usable(entries, u));
        lemma_memory_fits_base(entry_stack_pointer, hhdm_offset, entries, *layout, u);
    }
    let allocator_phys_base = phys_addr_new(rammap_entries[allocator_region].base);
    let allocator_virt_base = virt_add(
        virt_addr_new(rammap_entries[allocator_region].base),
        physical_memory_offset,
    );
    let mut dummy_allocator = LinearFrameAllocator(
        phys_addr_new(allocator_virt_base - physical_memory_offset),
    );
    let heap_count = KERNEL_HEAP_SIZE / crate::PAGE_SIZE;
    let heap_phys = match dummy_allocator.alloc_contiguous(heap_count) {
        Ok(p) => p,
        Err(err) => {
            return Err(err);
        },
    };
    let ghost a1 = dummy_allocator;
    let mut k_paging_ctrl = match init_paging(
        entry_stack_pointer,
        hhdm_offset,
        &mut dummy_allocator,
        rammap_entries,
        layout,
    ) {
        Ok(c) => c,
        Err(err) => {
            return Err(err);
        },
    };
    let ghost a2 = dummy_allocator;
    let ghost c0 = k_paging_ctrl;
    let ghost ki = choose|i: int| #[trigger] is_first_kernel_region(entries, i);
    let ghost hi = lemma_max_valid_end(entries, entries.len() as int);
    let ghost e = region_end(entries, hi);
    let ghost frames = paging_frames(*layout, entries, entries[ki].length, e);
    proof {
        assert(is_first_kernel_region(entries, ki));
        assert(is_highest_end(entries, e));
        lemma_memory_fits_top(entry_stack_pointer, hhdm_offset, entries, *layout, u, ki, e);
        assert(kernel_fits(*layout, entries[ki].length));
        lemma_misc_pages_grow(entries, 0, entries.len() as int);
        assert(frames >= 1);
        assert(LinearFrameAllocator::used_at_most(&a1, &a2, frames as nat));
        assert(paging_ready(c0, entry_stack_pointer, hhdm_offset, entries, *layout, entries[ki].length, e));
        assert(c0.rec_page_table.wf() && c0.rec_page_table.offset() == hhdm_offset) by {
            reveal(paging_ready);
        }
        lemma_kernel_flags_present();
        assert(a2.0 <= base + 4096 * (heap_pages() + frames)) by (nonlinear_arith)
            requires
                a2.0 <= a1.0 + 4096 * frames,
                a1.0 == base + 4096 * heap_pages(),
        ;
        vstd::arithmetic::div_mod::lemma_mod_adds(base as int, (a2.0 - base) as int, 4096);
        vstd::arithmetic::div_mod::lemma_mod_multiples_basic(heap_pages(), 4096);
        assert(4096 * (3 * heap_pages()) + 4096 * (heap_pages() + frames) == 4096 * (heap_pages() + frames + 3 * heap_pages())) by (nonlinear_arith);
    }
    let heap_virt = virt_add(virt_addr_new(heap_phys), k_paging_ctrl.rec_page_table.internal_offset());
    let flags = flags_rw();
    let res = map_pages(
        &mut k_paging_ctrl.rec_page_table,
        heap_count,
        heap_phys,
        heap_virt,
        flags,
        &mut dummy_allocator,
    );
    if let Err(err) = res {
        return Err(err);
    }
    let ghost a3 = dummy_allocator;
    let ghost c1 = k_paging_ctrl;
    let range = allocator_phys_base / 4096..dummy_allocator.0 / 4096;
    proof {
        reveal(paging_ready);
        assert(a3.0 <= linear_top(base as int, frames)) by (nonlinear_arith)
            requires
                a3.0 <= a2.0 + 4096 * (3 * heap_pages()),
                a2.0 <= base + 4096 * (heap_pages() + frames),
        ;
        vstd::arithmetic::div_mod::lemma_div_is_ordered(a3.0 as int, linear_top(base as int, frames), 4096);
        vstd::arithmetic::div_mod::lemma_div_is_ordered(base as int, a3.0 as int, 4096);
        vstd::arithmetic::div_mod::lemma_div_is_ordered((base + 4096 * heap_pages()) as int, a3.0 as int, 4096);
        vstd::arithmetic::div_mod::lemma_fundamental_div_mod(base as int, 4096);
        assert(base + 4096 * heap_pages() == 4096 * (base / 4096 + heap_pages()));
        vstd::arithmetic::div_mod::lemma_div_multiples_vanish(base / 4096 + heap_pages(), 4096);
    }
    let res = k_paging_ctrl.frame_allocator.0.flag_range(&range, true);
    if let Err(err) = res {
        return Err(err);
    }
    let m = MemorySetup { paging_controller: k_paging_ctrl, heap_virt, linear_end: dummy_allocator.0 };
    proof {
        lemma_memory_ready(
            c0,
            m,
            entry_stack_pointer,
            hhdm_offset,
            entries,
            *layout,
            entries[ki].length,
            e,
            base,
        );
        assert forall|u2: int, i: int, e2: int|
            #[trigger] is_largest_usable(entries, u2) && #[trigger] is_first_kernel_region(entries, i)
                && #[trigger] is_highest_end(entries, e2) implies u2 == u && i == ki && e2 == e by {
            lemma_unique_choices(entries, u2, u, i, ki, e2, e);
        }
    }
    Ok(m)
}

/// The largest usable region, the first kernel region and the highest end are each
/// unique.
proof fn lemma_unique_choices(
    entries: Seq<MemoryMapEntry>,
    u1: int,
    u2: int,
    i1: int,
    i2: int,
    e1: int,
    e2: int,
)
    requires
        is_largest_usable(entries, u1),
        is_largest_usable(entries, u2),
        is_first_kernel_region(entries, i1),
        is_first_kernel_region(entries, i2),
        is_highest_end(entries, e1),
        is_highest_end(entries, e2),
    ensures
        u1 == u2,
        i1 == i2,
        e1 == e2,
{
    if u1 < u2 {
        assert(entries[u2].length < entries[u1].length);
        assert(entries[u1].length <= entries[u2].length);
    }
    if u2 < u1 {
        assert(entries[u1].length < entries[u2].length);
        assert(entries[u2].length <= entries[u1].length);
    }
    if i1 < i2 {
        assert(memory_map_type_of(entries[i1].memmap_type) != MemoryMapType::ExecutableAndModules);
    }
    if i2 < i1 {
        assert(memory_map_type_of(entries[i2].memmap_type) != MemoryMapType::ExecutableAndModules);
    }
    let j1 = choose|j: int|
        0 <= j < entries.len() && is_valid_region(entries, j) && #[trigger] region_end(entries, j)
            == e1;
    let j2 = choose|j: int|
        0 <= j < entries.len() && is_valid_region(entries, j) && #[trigger] region_end(entries, j)
            == e2;
    assert(region_end(entries, j1) <= e2);
    assert(region_end(entries, j2) <= e1);
}

/// A map with a region that counts toward physical memory has one that ends highest
/// among the first `n`.
proof fn lemma_max_valid_end(entries: Seq<MemoryMapEntry>, n: int) -> (i: int)
    requires
        0 <= n <= entries.len(),
        exists|j: int| 0 <= j < n && #[trigger] is_valid_region(entries, j),
    ensures
        0 <= i < n,
        is_valid_region(entries, i),
        forall|j: int|
            0 <= j < n && is_valid_region(entries, j) ==> #[trigger] region_end(entries, j)
                <= region_end(entries, i),
    decreases n,
{
    if exists|j: int| 0 <= j < n - 1 && #[trigger] is_valid_region(entries, j) {
        let i0 = lemma_max_valid_end(entries, n - 1);
        if is_valid_region(entries, n - 1) && region_end(entries, n - 1) > region_end(entries, i0) {
            n - 1
        } else {
            i0
        }
    } else {
        let j = choose|j: int| 0 <= j < n && #[trigger] is_valid_region(entries, j);
        assert(j == n - 1);
        n - 1
    }
}

} // verus!
