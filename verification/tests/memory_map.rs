use kermol::memory_map::{
    frame_bitmap_size, highest_valid_region, kernel_region, largest_usable_region, LimineReqId,
    MemoryMapEntry, MemoryMapType,
};

fn entry(base: u64, length: u64, memmap_type: u64) -> MemoryMapEntry {
    MemoryMapEntry { base, length, memmap_type }
}

#[test]
fn type_numbers_map_to_region_types() {
    let types = [
        MemoryMapType::Usable,
        MemoryMapType::Reserved,
        MemoryMapType::AcpiReclaimable,
        MemoryMapType::AcpiNvs,
        MemoryMapType::BadMemory,
        MemoryMapType::BootloaderReclaimable,
        MemoryMapType::ExecutableAndModules,
        MemoryMapType::Framebuffer,
        MemoryMapType::AcpiTables,
    ];
    let mut raw: usize = 0;
    while raw < types.len() {
        let e = entry(0, 0, raw as u64);
        assert_eq!(e.type_as_enum(), types[raw]);
        assert_eq!(e.get_type(), types[raw]);
        raw += 1;
    }
}

#[test]
fn request_id_carries_the_common_magic() {
    let id = LimineReqId::new([1, 2]);
    assert_eq!(id.common_magic_1, 0xc7b1dd30df4c8b88);
    assert_eq!(id.common_magic_2, 0x0a82e883a194f07b);
    assert_eq!(id.other, [1, 2]);
}

#[test]
fn largest_usable_region_is_the_last_of_the_largest() {
    let map = [
        entry(0x0, 0x1000, 0),
        entry(0x10_0000, 0x8000, 0),
        entry(0x20_0000, 0x9000, 1),
        entry(0x30_0000, 0x8000, 0),
        entry(0x40_0000, 0x2000, 0),
    ];
    assert_eq!(largest_usable_region(&map), Some(3));
}

#[test]
fn no_usable_region_gives_none() {
    let map = [entry(0x0, 0x1000, 1), entry(0x1000, 0x1000, 6)];
    assert_eq!(largest_usable_region(&map), None);
    assert_eq!(largest_usable_region(&[]), None);
}

#[test]
fn kernel_region_is_the_first_executable_region() {
    let map = [
        entry(0x0, 0x1000, 0),
        entry(0x10_0000, 0x8000, 6),
        entry(0x20_0000, 0x8000, 6),
    ];
    assert_eq!(kernel_region(&map), 1);
}

#[test]
fn highest_valid_region_skips_reserved_and_framebuffer() {
    let map = [
        entry(0x0, 0x1000, 0),
        entry(0x10_0000, 0x8000, 5),
        entry(0xFD00_0000, 0x40_0000, 7),
        entry(0xFFFF_0000, 0x1_0000, 1),
    ];
    assert_eq!(highest_valid_region(&map), 1);
}

#[test]
fn highest_valid_region_takes_the_last_of_equal_ends() {
    let map = [entry(0x0, 0x2000, 0), entry(0x1000, 0x1000, 3), entry(0x0, 0x1000, 0)];
    assert_eq!(highest_valid_region(&map), 1);
}

#[test]
fn frame_bitmap_has_one_bit_per_frame() {
    assert_eq!(frame_bitmap_size(0x4000_0000), 0x4000_0000 / 4096 / 8);
    assert_eq!(frame_bitmap_size(64 * 4096), 8);
    assert_eq!(frame_bitmap_size(65 * 4096), 8);
    assert_eq!(frame_bitmap_size(4095), 0);
}
