use kermol::arch::{PRESENT, WRITABLE};
use kermol::bitmap_allocator::BitmapAllocator;
use kermol::error::MemoryError;
use kermol::frame_allocation::{BitmapFrameAllocator, LinearFrameAllocator};
use kermol::page_mapping::{
    VirtualMemoryAllocator, VirtualPageAllocator, PAGE_ALLOCATOR_START, VIRTUAL_MEMORY_BASE,
};
use kermol::page_table::{flags_rw, RecursivePageTable};
use kermol::paging_controller::{AddressPair, AllocatedMemory, KernelPagingController};

const HHDM: u64 = 0xFFFF_8000_0000_0000;

/// A controller whose frame and page bitmaps are free, with the tables of the first
/// pages of the virtual memory allocator in place.
fn controller() -> KernelPagingController {
    let mut linear = LinearFrameAllocator(0x10_0000);
    let mut pt = RecursivePageTable::new(&mut linear, HHDM);
    pt.map(0x9000, PAGE_ALLOCATOR_START + 511 * 4096, flags_rw(), &mut linear).unwrap();
    KernelPagingController {
        rec_page_table: pt,
        frame_allocator: BitmapFrameAllocator(BitmapAllocator::with_bitmap(8, false)),
        virt_mem_allocator: VirtualMemoryAllocator(BitmapAllocator::with_bitmap(8, false)),
    }
}

#[test]
fn virtual_memory_allocator_hands_out_pages_from_its_start() {
    let mut v = VirtualMemoryAllocator(BitmapAllocator::with_bitmap(4, false));
    assert_eq!(v.alloc_contiguous(2), Ok(PAGE_ALLOCATOR_START));
    assert_eq!(v.alloc_contiguous(1), Ok(PAGE_ALLOCATOR_START + 2 * 4096));
}

#[test]
fn virtual_memory_allocator_takes_freed_pages_back() {
    let mut v = VirtualMemoryAllocator(BitmapAllocator::with_bitmap(4, false));
    let a = v.alloc_contiguous(2).unwrap();
    assert_eq!(v.free(a, 2), Ok(()));
    assert_eq!(v.0.check_range(&(0..2), false), Ok(true));
    assert_eq!(v.free(a, 2), Err(MemoryError::DoubleFree));
    assert_eq!(v.free(PAGE_ALLOCATOR_START + 4096 * 300, 2), Err(MemoryError::OutOfBounds));
}

#[test]
fn new_virtual_memory_allocator_has_no_free_page() {
    let mut linear = LinearFrameAllocator(0x10_0000);
    let mut pt = RecursivePageTable::new(&mut linear, HHDM);
    let mut v = VirtualMemoryAllocator::new(4, &mut linear, &mut pt).unwrap();
    assert_eq!(v.alloc_contiguous(1), Err(MemoryError::AllocationError));
}

#[test]
fn virtual_page_allocator_hands_out_pages_from_its_base() {
    let mut v = VirtualPageAllocator(BitmapAllocator::with_bitmap(4, false));
    assert_eq!(v.allocate(1), Ok(VIRTUAL_MEMORY_BASE));
    assert_eq!(v.allocate(3), Ok(VIRTUAL_MEMORY_BASE + 4096));
    assert_eq!(v.free(VIRTUAL_MEMORY_BASE), Ok(()));
    assert_eq!(v.free(VIRTUAL_MEMORY_BASE), Err(MemoryError::DoubleFree));
    assert_eq!(v.free(VIRTUAL_MEMORY_BASE + 10 * 4096), Err(MemoryError::DoubleFree));
}

#[test]
fn controller_maps_pages_through_existing_tables() {
    let mut c = controller();
    assert_eq!(c.map(0x7000, PAGE_ALLOCATOR_START, 2, flags_rw()), Ok(()));
    assert_eq!(c.rec_page_table.translate(PAGE_ALLOCATOR_START + 0x1010), Some(0x8010));
}

#[test]
fn alloc_and_map_maps_new_pages_to_new_frames() {
    let mut c = controller();
    assert_eq!(c.alloc_and_map(2, flags_rw()), Ok(PAGE_ALLOCATOR_START));
    assert_eq!(c.rec_page_table.translate(PAGE_ALLOCATOR_START + 0x1004), Some(0x1004));
    assert_eq!(c.frame_allocator.0.check_range(&(0..2), true), Ok(true));
}

#[test]
fn alloc_and_map_maps_pages_to_the_base_of_their_frames() {
    let mut c = controller();
    assert_eq!(c.frame_allocator.0.flag_range(&(0..8), true), Ok(()));
    assert_eq!(c.alloc_and_map(1, flags_rw()), Ok(PAGE_ALLOCATOR_START));
    assert_eq!(c.rec_page_table.translate(PAGE_ALLOCATOR_START + 0x24), Some(0x8024));
}

#[test]
fn allocated_memory_of_no_bytes_is_an_error() {
    let mut c = controller();
    let r = AllocatedMemory::new(0, PRESENT, &mut c);
    assert!(matches!(r, Err(MemoryError::EmptyAllocation)));
}

#[test]
fn allocated_memory_is_mapped_and_freed_after_use() {
    let mut c = controller();
    let m = match AllocatedMemory::new(5000, PRESENT | WRITABLE, &mut c) {
        Ok(m) => m,
        Err(_) => panic!("the allocation fits"),
    };
    assert_eq!(m.address, AddressPair(PAGE_ALLOCATOR_START, 0));
    assert_eq!(m.size, 5000);
    assert!(m.free_after_use);
    assert_eq!(m.pages(), 2);
    assert_eq!(c.rec_page_table.translate(PAGE_ALLOCATOR_START + 0x1004), Some(0x1004));
}

#[test]
fn reserved_physical_memory_is_mapped_where_asked() {
    let mut c = controller();
    let m = match AllocatedMemory::reserve_physical(0xB8000, 100, PRESENT, &mut c) {
        Ok(m) => m,
        Err(_) => panic!("the reservation fits"),
    };
    assert_eq!(m.address, AddressPair(PAGE_ALLOCATOR_START, 0xB8000));
    assert!(!m.free_after_use);
    assert_eq!(m.pages(), 1);
    assert_eq!(c.rec_page_table.translate(PAGE_ALLOCATOR_START + 0x10), Some(0xB8010));
}

#[test]
fn access_checks_of_allocated_memory() {
    let absent = AllocatedMemory {
        address: AddressPair(PAGE_ALLOCATOR_START, 0),
        size: 16,
        flags: WRITABLE,
        free_after_use: true,
    };
    assert_eq!(absent.handle_errors(false, 0, 4), Err(MemoryError::PageNotPresent));
    let read_only = AllocatedMemory { flags: PRESENT, ..absent };
    assert_eq!(read_only.handle_errors(true, 0, 4), Err(MemoryError::WriteToReadOnly));
    assert_eq!(read_only.handle_errors(false, 0, 4), Ok(()));
    assert_eq!(read_only.handle_errors(false, 12, 4), Err(MemoryError::OutOfBounds));
    assert_eq!(read_only.handle_errors(false, 11, 4), Ok(()));
    let writable = AllocatedMemory { flags: PRESENT | WRITABLE, ..absent };
    assert_eq!(writable.handle_errors(true, 8, 4), Ok(()));
}

#[test]
fn released_memory_gives_its_pages_and_frames_back() {
    let mut c = controller();
    let m = AllocatedMemory::new(4096, flags_rw(), &mut c).unwrap();
    assert_eq!(c.virt_mem_allocator.0.check_range(&(0..1), true), Ok(true));
    assert_eq!(c.frame_allocator.0.check(0, true), Ok(true));
    assert_eq!(m.release(&mut c), Ok(()));
    assert_eq!(c.virt_mem_allocator.0.check_range(&(0..1), false), Ok(true));
    assert_eq!(c.frame_allocator.0.check(0, false), Ok(true));
    // A second release finds the page already free.
    assert_eq!(m.release(&mut c), Err(MemoryError::DoubleFree));
}

#[test]
fn released_reserved_memory_keeps_its_frames() {
    let mut c = controller();
    assert_eq!(c.frame_allocator.0.flag(9, true), Ok(()));
    let m = AllocatedMemory::reserve_physical(0x9000, 4096, flags_rw(), &mut c).unwrap();
    assert_eq!(m.release(&mut c), Ok(()));
    assert_eq!(c.virt_mem_allocator.0.check(0, false), Ok(true));
    assert_eq!(c.frame_allocator.0.check(9, true), Ok(true));
}

#[test]
fn controller_makes_missing_tables_from_its_frames() {
    let mut linear = LinearFrameAllocator(0x10_0000);
    let pt = RecursivePageTable::new(&mut linear, HHDM);
    let mut c = KernelPagingController {
        rec_page_table: pt,
        frame_allocator: BitmapFrameAllocator(BitmapAllocator::with_bitmap(8, false)),
        virt_mem_allocator: VirtualMemoryAllocator(BitmapAllocator::with_bitmap(8, false)),
    };
    assert_eq!(c.map(0x7000, PAGE_ALLOCATOR_START, 1, flags_rw()), Ok(()));
    assert_eq!(c.rec_page_table.translate(PAGE_ALLOCATOR_START + 0x10), Some(0x7010));
    // three new tables, each from a frame of the frame allocator
    assert_eq!(c.frame_allocator.0.check_range(&(0..3), true), Ok(true));
    assert_eq!(c.frame_allocator.0.check(3, false), Ok(true));
}
