use kermol::error::MemoryError;
use kermol::frame_allocation::{BitmapFrameAllocator, FrameAllocator, LinearFrameAllocator};
use kermol::memory_map::MemoryMapEntry;
use kermol::page_table::RecursivePageTable;

const HHDM: u64 = 0xFFFF_8000_0000_0000;

fn entry(base: u64, length: u64, memmap_type: u64) -> MemoryMapEntry {
    MemoryMapEntry { base, length, memmap_type }
}

#[test]
fn linear_allocator_hands_out_frames_upward() {
    let mut a = LinearFrameAllocator(0x8000);
    assert_eq!(a.allocate(), Ok(0x8000));
    assert_eq!(a.allocate(), Ok(0x9000));
    assert_eq!(a.0, 0xA000);
}

#[test]
fn linear_allocator_hands_out_contiguous_frames() {
    let mut a = LinearFrameAllocator(0x8000);
    assert_eq!(a.alloc_contiguous(3), Ok(0x8000));
    assert_eq!(a.0, 0xB000);
    assert_eq!(a.alloc_contiguous(0), Ok(0xB000));
    assert_eq!(a.0, 0xB000);
}

#[test]
fn bitmap_frame_allocator_frees_the_frames_of_usable_regions() {
    let mut linear = LinearFrameAllocator(0x10_0000);
    let mut pt = RecursivePageTable::new(&mut linear, HHDM);
    let map = [
        entry(0x0, 0x2_0000, 0),      // usable, frames 0..32
        entry(0x2_0000, 0x3000, 0),   // usable, frames 32..35, less than a byte
        entry(0x3_0000, 0x1_0000, 1), // reserved, frames 48..64
    ];
    let fa = BitmapFrameAllocator::new(8, &mut linear, &mut pt, &map).unwrap();
    assert_eq!(fa.0.check_range(&(0..35), false), Ok(true));
    assert_eq!(fa.0.check_range(&(35..64), true), Ok(true));
}

#[test]
fn bitmap_frame_allocator_takes_its_bitmap_from_the_linear_allocator() {
    let mut linear = LinearFrameAllocator(0x10_0000);
    let mut pt = RecursivePageTable::new(&mut linear, HHDM);
    let start = linear.0;
    let _ = BitmapFrameAllocator::new(8, &mut linear, &mut pt, &[]).unwrap();
    // One frame for the bitmap and three new tables for its mapping.
    assert_eq!(linear.0, start + 4 * 0x1000);
    assert_eq!(pt.translate(HHDM + start), Some(start));
}

#[test]
fn bitmap_frame_allocator_hands_out_frame_addresses() {
    let mut linear = LinearFrameAllocator(0x10_0000);
    let mut pt = RecursivePageTable::new(&mut linear, HHDM);
    let map = [entry(0x4_0000, 0x2_0000, 0)]; // frames 64..96
    let mut fa = BitmapFrameAllocator::new(16, &mut linear, &mut pt, &map).unwrap();
    assert_eq!(fa.allocate(), Ok(64 * 4096));
    assert_eq!(fa.alloc_contiguous(2), Ok(65 * 4096));
    assert_eq!(fa.0.check_range(&(64..67), true), Ok(true));
    // A taken frame is freed, a free one is a double free.
    assert_eq!(fa.free(64 * 4096), Ok(()));
    assert_eq!(fa.0.check(64, false), Ok(true));
    assert_eq!(fa.free(70 * 4096), Err(MemoryError::DoubleFree));
    assert_eq!(fa.free(200 * 4096), Err(MemoryError::OutOfBounds));
    assert_eq!(fa.free_contiguous(65 * 4096, 2), Ok(()));
    assert_eq!(fa.0.check_range(&(64..67), false), Ok(true));
}

#[test]
fn bitmap_frame_allocator_on_a_full_bitmap_fails() {
    let mut linear = LinearFrameAllocator(0x10_0000);
    let mut pt = RecursivePageTable::new(&mut linear, HHDM);
    let mut fa = BitmapFrameAllocator::new(4, &mut linear, &mut pt, &[]).unwrap();
    assert_eq!(fa.allocate(), Err(MemoryError::AllocationError));
}
