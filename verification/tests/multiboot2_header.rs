use kermol::multiboot2_header::{
    MultiBootTag, MultibootHeader, CHECKSUM, HEADER_LENGTH, HEADER_SIZE, MULTIBOOT2_MAGIC,
};

fn word(bytes: &[u8], at: usize) -> u32 {
    u32::from_le_bytes([bytes[at], bytes[at + 1], bytes[at + 2], bytes[at + 3]])
}

#[test]
fn header_constants() {
    assert_eq!(MULTIBOOT2_MAGIC, 0xE85250D6);
    assert_eq!(HEADER_SIZE, 76);
    assert_eq!(HEADER_LENGTH, 80);
    assert_eq!(CHECKSUM, 0x17AD_AEDA);
}

#[test]
fn tag_size_counts_its_header() {
    let t = MultiBootTag::new(12, 8);
    assert_eq!(t, MultiBootTag { tag_type: 12, flags: 0, size: 16 });
    assert_eq!(MultiBootTag::new(0, 0).size, 8);
}

#[test]
fn header_bytes_are_packed_little_endian() {
    let bytes = MultibootHeader::new().to_bytes();
    assert_eq!(bytes.len(), 76);
    assert_eq!(&bytes[0..4], &[0xD6, 0x50, 0x52, 0xE8]);
    assert_eq!(word(&bytes, 4), 0);
    assert_eq!(word(&bytes, 8), 80);
    assert_eq!(word(&bytes, 12), 0x17AD_AEDA);
    // information request tag: type 1, flags 0, size 28, then the five requests
    assert_eq!(&bytes[16..24], &[1, 0, 0, 0, 28, 0, 0, 0]);
    assert_eq!(word(&bytes, 24), 4);
    assert_eq!(word(&bytes, 28), 6);
    assert_eq!(word(&bytes, 32), 8);
    assert_eq!(word(&bytes, 36), 9);
    assert_eq!(word(&bytes, 40), 10);
    // EFI boot services tag, EFI amd64 entry tag with its address, end tag
    assert_eq!(&bytes[44..52], &[7, 0, 0, 0, 8, 0, 0, 0]);
    assert_eq!(&bytes[52..60], &[12, 0, 0, 0, 16, 0, 0, 0]);
    assert_eq!(&bytes[60..68], &[0x00, 0x00, 0x10, 0x00, 0, 0, 0, 0]);
    assert_eq!(&bytes[68..76], &[0, 0, 0, 0, 8, 0, 0, 0]);
}

#[test]
fn header_fields_add_up_to_zero() {
    let bytes = MultibootHeader::new().to_bytes();
    let sum = word(&bytes, 0)
        .wrapping_add(word(&bytes, 4))
        .wrapping_add(word(&bytes, 8))
        .wrapping_add(word(&bytes, 12));
    assert_eq!(sum, 0);
}
