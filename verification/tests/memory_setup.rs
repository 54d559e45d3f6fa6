use kermol::error::MemoryError;
use kermol::frame_allocation::LinearFrameAllocator;
use kermol::memory_map::MemoryMapEntry;
use kermol::memory_setup::{
    init_memory, init_paging, map_kernel, map_kernel_section, map_misc, remap_stack,
    KernelLayout, KERNEL_HEAP_SIZE, KERNEL_STACK_SIZE,
};
use kermol::page_table::{flags_rx, RecursivePageTable};

const HHDM: u64 = 0xFFFF_8000_0000_0000;
const KERNEL_VIRT: u64 = 0xFFFF_FFFF_8000_0000;
const KERNEL_PHYS: u64 = 0x90_0000;

fn entry(base: u64, length: u64, memmap_type: u64) -> MemoryMapEntry {
    MemoryMapEntry { base, length, memmap_type }
}

fn layout() -> KernelLayout {
    layout_at(KERNEL_PHYS)
}

fn layout_at(physical_base: u64) -> KernelLayout {
    KernelLayout {
        limine_reqs_start: KERNEL_VIRT,
        text_start: KERNEL_VIRT + 0x1000,
        rodata_start: KERNEL_VIRT + 0x3000,
        data_start: KERNEL_VIRT + 0x4000,
        elf_end: KERNEL_VIRT + 0x6000,
        virtual_base: KERNEL_VIRT,
        physical_base,
    }
}

/// Usable memory, the loader's memory (which holds its stack), the kernel and a
/// framebuffer.
fn memory_map() -> Vec<MemoryMapEntry> {
    vec![
        entry(0x10_0000, 0x70_0000, 0),
        entry(0x80_0000, 0x10_0000, 5),
        entry(KERNEL_PHYS, 0x8000, 6),
        entry(0xFD00_0000, 0x2000, 7),
    ]
}

/// A larger map, whose frame bitmap has room for every frame that the setup may take
/// from the linear allocator in the largest usable region.
fn large_memory_map() -> Vec<MemoryMapEntry> {
    vec![
        entry(0x10_0000, 0x1F0_0000, 0),
        entry(0x200_0000, 0x10_0000, 5),
        entry(0x210_0000, 0x8000, 6),
        entry(0xFD00_0000, 0x2000, 7),
    ]
}

fn table() -> (RecursivePageTable, LinearFrameAllocator) {
    let mut alloc = LinearFrameAllocator(0x50_0000);
    let pt = RecursivePageTable::new(&mut alloc, HHDM);
    (pt, alloc)
}

#[test]
fn kernel_section_maps_to_its_physical_place() {
    let (mut pt, mut alloc) = table();
    let l = layout();
    assert_eq!(map_kernel_section(l.text_start, l.rodata_start, flags_rx(), &mut pt, &mut alloc, &l), Ok(()));
    assert_eq!(pt.translate(KERNEL_VIRT + 0x1000), Some(KERNEL_PHYS + 0x1000));
    assert_eq!(pt.translate(KERNEL_VIRT + 0x2FFF), Some(KERNEL_PHYS + 0x2FFF));
    assert_eq!(pt.translate(KERNEL_VIRT + 0x3000), None);
}

#[test]
fn empty_kernel_section_maps_nothing() {
    let (mut pt, mut alloc) = table();
    let l = layout();
    let before = alloc.0;
    assert_eq!(map_kernel_section(l.text_start, l.text_start, flags_rx(), &mut pt, &mut alloc, &l), Ok(()));
    assert_eq!(alloc.0, before);
    assert_eq!(pt.translate(l.text_start), None);
}

#[test]
fn kernel_image_and_the_rest_of_its_region_are_mapped() {
    let (mut pt, mut alloc) = table();
    let map = memory_map();
    assert_eq!(map_kernel(&mut pt, &mut alloc, &map[2], &layout()), Ok(()));
    let mut page: u64 = 0;
    while page < 8 {
        let v = KERNEL_VIRT + page * 0x1000 + 8;
        assert_eq!(pt.translate(v), Some(KERNEL_PHYS + page * 0x1000 + 8));
        page += 1;
    }
    assert_eq!(pt.translate(KERNEL_VIRT + 0x8000), None);
}

#[test]
fn regions_for_later_use_are_mapped_at_the_offset() {
    let (mut pt, mut alloc) = table();
    let map = memory_map();
    assert_eq!(map_misc(&map, &mut pt, &mut alloc), Ok(()));
    assert_eq!(pt.translate(HHDM + 0xFD00_1008), Some(0xFD00_1008));
    assert_eq!(pt.translate(HHDM + 0x8F_F000), Some(0x8F_F000));
    // Usable memory and the kernel are not mapped at the offset.
    assert_eq!(pt.translate(HHDM + 0x10_0000), None);
    assert_eq!(pt.translate(HHDM + KERNEL_PHYS), None);
}

#[test]
fn a_mapped_stack_is_remapped_in_place() {
    let (mut pt, mut alloc) = table();
    let map = memory_map();
    assert_eq!(map_misc(&map, &mut pt, &mut alloc), Ok(()));
    let stack_pointer = HHDM + 0x88_0000 - 16;
    assert_eq!(remap_stack(stack_pointer, &mut pt), Ok(()));
    assert_eq!(pt.translate(HHDM + 0x87_0000), Some(0x87_0000));
}

#[test]
fn an_unmapped_stack_is_left_alone() {
    let (mut pt, _alloc) = table();
    let stack_pointer = HHDM + 0x68_0000 - 16;
    assert_eq!(remap_stack(stack_pointer, &mut pt), Ok(()));
    assert_eq!(pt.translate(HHDM + 0x68_0000 - KERNEL_STACK_SIZE), None);
}

#[test]
fn paging_setup_remaps_the_loader_stack() {
    let mut alloc = LinearFrameAllocator(0x50_0000);
    let map = memory_map();
    let mut c = match init_paging(HHDM + 0x88_0000 - 16, HHDM, &mut alloc, &map, &layout()) {
        Ok(c) => c,
        Err(_) => panic!("the setup fits"),
    };
    assert_eq!(c.rec_page_table.translate(HHDM + 0x87_0010), Some(0x87_0010));
}

#[test]
fn paging_setup_stops_at_a_stack_with_unused_entries() {
    let mut alloc = LinearFrameAllocator(0x50_0000);
    // a second framebuffer next to the stack makes the stack's level 1 table exist
    let mut map = memory_map();
    map.push(entry(0x60_0000, 0x1000, 7));
    let r = init_paging(HHDM + 0x68_0000 - 16, HHDM, &mut alloc, &map, &layout());
    assert!(matches!(r, Err(MemoryError::TODOError)));
}

#[test]
fn paging_setup_builds_the_kernel_tables_and_allocators() {
    let mut alloc = LinearFrameAllocator(0x50_0000);
    let map = memory_map();
    let mut c = match init_paging(HHDM + 0x68_0000 - 16, HHDM, &mut alloc, &map, &layout()) {
        Ok(c) => c,
        Err(_) => panic!("the setup fits"),
    };
    assert_eq!(c.rec_page_table.internal_offset(), HHDM);
    assert_eq!(c.rec_page_table.translate(KERNEL_VIRT + 0x4010), Some(KERNEL_PHYS + 0x4010));
    assert_eq!(c.rec_page_table.translate(HHDM + 0xFD00_0000), Some(0xFD00_0000));
    // Memory ends at 0x90_8000: 0x908 frames, in 0x908 / 8 bytes of bitmap.
    assert_eq!(c.frame_allocator.0.check_range(&(0x100..0x800), false), Ok(true));
    assert_eq!(c.frame_allocator.0.check_range(&(0..0x100), true), Ok(true));
    assert_eq!(c.frame_allocator.0.check_range(&(0x800..0x908), true), Ok(true));
    assert_eq!(c.frame_allocator.0.check(0x908 * 8, true), Err(MemoryError::OutOfBounds));
    assert_eq!(c.virt_mem_allocator.alloc_contiguous(1), Err(MemoryError::AllocationError));
}

#[test]
fn memory_setup_maps_the_heap_and_takes_its_frames() {
    let map = large_memory_map();
    let m = match init_memory(HHDM + 0x68_0000 - 16, HHDM, &map, &layout_at(0x210_0000)) {
        Ok(m) => m,
        Err(_) => panic!("the setup fits"),
    };
    let end = m.linear_end / 4096;
    let mut pc = m.paging_controller;
    assert_eq!(m.heap_virt, HHDM + 0x10_0000);
    // The frames up to where the linear allocator stopped are taken, the next is free.
    assert!(end >= 0x500);
    assert_eq!(pc.frame_allocator.0.check_range(&(0x100..end), true), Ok(true));
    assert_eq!(pc.frame_allocator.0.check(end, false), Ok(true));
    let heap_end = m.heap_virt + KERNEL_HEAP_SIZE as u64;
    assert_eq!(pc.rec_page_table.translate(m.heap_virt), Some(0x10_0000));
    assert_eq!(pc.rec_page_table.translate(heap_end - 8), Some(0x10_0000 + KERNEL_HEAP_SIZE as u64 - 8));
    // The heap frames and the frames of the setup are taken, the rest stays free.
    assert_eq!(pc.frame_allocator.0.check_range(&(0x100..0x500), true), Ok(true));
    assert_eq!(pc.frame_allocator.0.check_range(&(0x600..0x2000), false), Ok(true));
    assert_eq!(pc.rec_page_table.translate(KERNEL_VIRT + 0x7010), Some(0x210_7010));
}

#[test]
fn memory_setup_without_usable_memory_fails() {
    let map = vec![entry(KERNEL_PHYS, 0x8000, 6), entry(0x80_0000, 0x10_0000, 5)];
    // Without a usable region the setup stops before it needs anything else.
    let r = init_memory(HHDM + 0x68_0000 - 16, HHDM, &map, &layout());
    assert!(matches!(r, Err(MemoryError::AllocationError)));
}

#[test]
fn kernel_maps_without_new_tables_when_its_tables_exist() {
    let (mut pt, mut alloc) = table();
    let map = memory_map();
    // a page in the same 2 MiB as the kernel makes the level 1 table of the kernel pages
    assert_eq!(pt.map(0x70_0000, KERNEL_VIRT + 0x10_0000, flags_rx(), &mut alloc), Ok(()));
    let before = alloc.0;
    assert_eq!(map_kernel(&mut pt, &mut alloc, &map[2], &layout()), Ok(()));
    assert_eq!(alloc.0, before);
    assert_eq!(pt.translate(KERNEL_VIRT + 0x7000), Some(KERNEL_PHYS + 0x7000));
}

#[test]
fn misc_regions_map_without_new_tables_when_their_tables_exist() {
    let (mut pt, mut alloc) = table();
    let map = vec![entry(0xFD00_0000, 0x2000, 7)];
    assert_eq!(pt.map(0x70_0000, HHDM + 0xFD01_0000, flags_rx(), &mut alloc), Ok(()));
    let before = alloc.0;
    assert_eq!(map_misc(&map, &mut pt, &mut alloc), Ok(()));
    assert_eq!(alloc.0, before);
    assert_eq!(pt.translate(HHDM + 0xFD00_1000), Some(0xFD00_1000));
}

#[test]
fn a_stack_with_unused_entries_is_an_error() {
    let (mut pt, mut alloc) = table();
    // a page in the same 2 MiB as the stack makes the level 1 table of the stack pages
    assert_eq!(pt.map(0x60_0000, HHDM + 0x60_0000, flags_rx(), &mut alloc), Ok(()));
    let stack_pointer = HHDM + 0x68_0000 - 16;
    assert_eq!(remap_stack(stack_pointer, &mut pt), Err(MemoryError::TODOError));
    // the page outside the stack keeps its mapping
    assert_eq!(pt.translate(HHDM + 0x60_0010), Some(0x60_0010));
}
