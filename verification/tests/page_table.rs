use kermol::arch::{GLOBAL, NO_EXECUTE, PRESENT, WRITABLE};
use kermol::error::MemoryError;
use kermol::frame_allocation::LinearFrameAllocator;
use kermol::page_table::{
    flags_r, flags_rw, flags_rwx, flags_rx, get_page_index, RecursivePageTable,
};
use kermol::size_in_pages;

const HHDM: u64 = 0xFFFF_8000_0000_0000;

#[test]
fn page_flags_have_their_bits() {
    assert_eq!(flags_r(), PRESENT | NO_EXECUTE);
    assert_eq!(flags_rw(), WRITABLE | PRESENT | NO_EXECUTE);
    assert_eq!(flags_rx(), PRESENT);
    assert_eq!(flags_rwx(), WRITABLE | PRESENT);
    assert_eq!(flags_rw(), 0x8000_0000_0000_0003);
    assert_eq!(GLOBAL, 0x100);
}

#[test]
fn page_index_takes_nine_bits_per_level() {
    assert_eq!(get_page_index(1, 0x1000), 1);
    assert_eq!(get_page_index(1, 0x1F_F000), 511);
    assert_eq!(get_page_index(2, 0x20_0000), 1);
    assert_eq!(get_page_index(3, 0x4000_0000), 1);
    assert_eq!(get_page_index(4, 0xFFFF_8000_0000_0000), 256);
    assert_eq!(get_page_index(4, 0xFFFF_FFFF_FFFF_F000), 511);
}

#[test]
fn size_in_pages_rounds_up() {
    assert_eq!(size_in_pages(0), 0);
    assert_eq!(size_in_pages(1), 1);
    assert_eq!(size_in_pages(4096), 1);
    assert_eq!(size_in_pages(4097), 2);
    assert_eq!(size_in_pages(3 * 4096 + 5), 4);
}

#[test]
fn new_table_takes_one_frame() {
    let mut alloc = LinearFrameAllocator(0x10000);
    let pt = RecursivePageTable::new(&mut alloc, HHDM);
    assert_eq!(pt.level4_frame(), 0x10000);
    assert_eq!(pt.internal_offset(), HHDM);
    assert_eq!(alloc.0, 0x11000);
}

#[test]
fn map_then_translate_finds_the_frame() {
    let mut alloc = LinearFrameAllocator(0x10000);
    let mut pt = RecursivePageTable::new(&mut alloc, HHDM);
    assert_eq!(pt.map(0x20_0000, 0x4000_0000, flags_rw(), &mut alloc), Ok(()));
    // Three new tables: levels 3, 2 and 1.
    assert_eq!(alloc.0, 0x14000);
    assert_eq!(pt.translate(0x4000_0123), Some(0x20_0123));
    assert_eq!(pt.translate(0x4000_0FFF), Some(0x20_0FFF));
}

#[test]
fn translate_of_an_unmapped_page_is_none() {
    let mut alloc = LinearFrameAllocator(0x10000);
    let mut pt = RecursivePageTable::new(&mut alloc, HHDM);
    assert_eq!(pt.translate(0x5000_0000), None);
    assert_eq!(pt.map(0x20_0000, 0x4000_0000, flags_rw(), &mut alloc), Ok(()));
    assert_eq!(pt.translate(0x4000_1000), None);
}

#[test]
fn second_map_of_a_page_is_an_error() {
    let mut alloc = LinearFrameAllocator(0x10000);
    let mut pt = RecursivePageTable::new(&mut alloc, HHDM);
    assert_eq!(pt.map(0x20_0000, 0x4000_0000, flags_rw(), &mut alloc), Ok(()));
    assert_eq!(pt.map(0x30_0000, 0x4000_0000, flags_rw(), &mut alloc), Err(MemoryError::TODOError));
    assert_eq!(pt.translate(0x4000_0000), Some(0x20_0000));
}

#[test]
fn map_next_to_a_mapped_page_takes_no_frame() {
    let mut alloc = LinearFrameAllocator(0x10000);
    let mut pt = RecursivePageTable::new(&mut alloc, HHDM);
    assert_eq!(pt.map(0x20_0000, 0x4000_0000, flags_rw(), &mut alloc), Ok(()));
    let before = alloc.0;
    assert_eq!(pt.map(0x21_0000, 0x4000_1000, flags_r(), &mut alloc), Ok(()));
    assert_eq!(alloc.0, before);
    assert_eq!(pt.translate(0x4000_1008), Some(0x21_0008));
    assert_eq!(pt.translate(0x4000_0008), Some(0x20_0008));
}

#[test]
fn map_contiguous_maps_each_page() {
    let mut alloc = LinearFrameAllocator(0x10000);
    let mut pt = RecursivePageTable::new(&mut alloc, HHDM);
    assert_eq!(pt.map_contiguous(3, 0x30_0000, 0x5000_0000, flags_rw(), &mut alloc), Ok(()));
    assert_eq!(pt.translate(0x5000_0000), Some(0x30_0000));
    assert_eq!(pt.translate(0x5000_1010), Some(0x30_1010));
    assert_eq!(pt.translate(0x5000_2FFF), Some(0x30_2FFF));
    assert_eq!(pt.translate(0x5000_3000), None);
}

#[test]
fn map_contiguous_stops_at_a_mapped_page() {
    let mut alloc = LinearFrameAllocator(0x10000);
    let mut pt = RecursivePageTable::new(&mut alloc, HHDM);
    assert_eq!(pt.map(0x90_0000, 0x5000_1000, flags_rw(), &mut alloc), Ok(()));
    assert_eq!(
        pt.map_contiguous(3, 0x30_0000, 0x5000_0000, flags_rw(), &mut alloc),
        Err(MemoryError::TODOError)
    );
    assert_eq!(pt.translate(0x5000_0000), Some(0x30_0000));
    assert_eq!(pt.translate(0x5000_1000), Some(0x90_0000));
    assert_eq!(pt.translate(0x5000_2000), None);
}

#[test]
fn update_flags_of_a_mapped_page_keeps_its_frame() {
    let mut alloc = LinearFrameAllocator(0x10000);
    let mut pt = RecursivePageTable::new(&mut alloc, HHDM);
    assert_eq!(pt.map(0x20_0000, 0x4000_0000, flags_rw(), &mut alloc), Ok(()));
    assert_eq!(pt.update_flags(0x4000_0000, flags_r()), Ok(()));
    assert_eq!(pt.translate(0x4000_0000), Some(0x20_0000));
}

#[test]
fn update_flags_of_an_unused_entry_is_an_error() {
    let mut alloc = LinearFrameAllocator(0x10000);
    let mut pt = RecursivePageTable::new(&mut alloc, HHDM);
    assert_eq!(pt.map(0x20_0000, 0x4000_0000, flags_rw(), &mut alloc), Ok(()));
    // The entry of the next page is unused: it maps nothing and keeps mapping nothing.
    assert_eq!(pt.update_flags(0x4000_1000, flags_rw()), Err(MemoryError::TODOError));
    assert_eq!(pt.translate(0x4000_1234), None);
}

#[test]
fn update_flags_without_a_table_changes_nothing() {
    let mut alloc = LinearFrameAllocator(0x10000);
    let mut pt = RecursivePageTable::new(&mut alloc, HHDM);
    assert_eq!(pt.update_flags(0x7000_0000, flags_rw()), Ok(()));
    assert_eq!(pt.translate(0x7000_0000), None);
}

#[test]
fn table_frames_lists_every_table_once() {
    let mut alloc = LinearFrameAllocator(0x10000);
    let mut pt = RecursivePageTable::new(&mut alloc, HHDM);
    assert_eq!(pt.map(0x20_0000, 0x4000_0000, flags_rw(), &mut alloc), Ok(()));
    let mut frames = pt.table_frames();
    frames.sort();
    // the level 4 table and the three tables made for the page
    assert_eq!(frames, vec![0x10000, 0x11000, 0x12000, 0x13000]);
}
