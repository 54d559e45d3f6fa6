//! The multiboot2 header that a multiboot2 loader looks for in the kernel image: the
//! header fields, the tags that ask for boot information, for the EFI boot services
//! and for the EFI amd64 entry point, and the end tag. See
//! <https://www.gnu.org/software/grub/manual/multiboot2/multiboot.html#Header-tags>.
use vstd::prelude::*;

verus! {

/// The magic number of a multiboot2 header.
pub const MULTIBOOT2_MAGIC: u32 = 0xE85250D6;

/// The architecture field: 0 is i386 (protected mode), 4 is MIPS.
pub const ARCHITECTURE_I386: u32 = 0;

/// Bytes of a tag header: type (u16), flags (u16) and size (u32).
pub const TAG_HEADER_SIZE: u32 = 8;

/// Bytes of the whole header as it is laid out, packed: four u32 header fields, the
/// information request tag with five u32 requests, two EFI tags, the u64 entry
/// address and the end tag.
pub const HEADER_SIZE: u32 = 4 * 4 + TAG_HEADER_SIZE + 5 * 4 + TAG_HEADER_SIZE
    + TAG_HEADER_SIZE + 8 + TAG_HEADER_SIZE;

/// The header length field: the header's size plus its remainder modulo 8.
pub const HEADER_LENGTH: u32 = HEADER_SIZE + HEADER_SIZE % 8;

/// The checksum field: the u32 that makes magic, architecture, header length and
/// checksum add up to zero modulo 2^32.
pub const CHECKSUM: u32 = 0xFFFFFFFF - (MULTIBOOT2_MAGIC + ARCHITECTURE_I386 + HEADER_LENGTH)
    + 1;

/// The boot information the kernel asks for: basic memory info (4), the memory map (6),
/// the boot device (8), the command line (9) and the modules (10).
pub const REQUESTS: [u32; 5] = [4, 6, 8, 9, 10];

/// The entry address given in the EFI amd64 entry tag.
pub const ENTRY_ADDRESS: u64 = 0x100000;

/// A tag of the header.
#[derive(Clone, Copy, Debug, PartialEq, Eq, Structural)]
pub struct MultiBootTag {
    pub tag_type: u16,
    pub flags: u16,
    pub size: u32,
}

impl MultiBootTag {
    /// A tag of type `tag_type`, no flags, whose size counts its header and
    /// `extra_size_bytes` more.
    pub fn new(tag_type: u16, extra_size_bytes: u32) -> (t: Self)
        requires
            extra_size_bytes + TAG_HEADER_SIZE <= u32::MAX,
        ensures
            t == (MultiBootTag { tag_type, flags: 0, size: (TAG_HEADER_SIZE + extra_size_bytes) as u32 }),
    {
        Self { tag_type, flags: 0, size: TAG_HEADER_SIZE + extra_size_bytes }
    }
}

/// The header's fields.
pub struct HeaderFields {
    pub magic: u32,
    pub architecture: u32,
    pub header_length: u32,
    pub checksum: u32,
    pub information_request: MultiBootTag,
    pub requests: Seq<u32>,
    pub efi_boot_services: MultiBootTag,
    pub efi_amd64_entry: MultiBootTag,
    pub entry_addr: u64,
    pub end_tag: MultiBootTag,
}

/// The multiboot2 header of the kernel.
pub struct MultibootHeader {
    magic: u32,
    architecture: u32,
    header_length: u32,
    checksum: u32,
    information_request: MultiBootTag,
    requests: [u32; 5],
    efi_boot_services: MultiBootTag,
    efi_amd64_entry: MultiBootTag,
    entry_addr: u64,
    end_tag: MultiBootTag,
}

/// The little-endian bytes of a u16.
pub open spec fn le16(v: u16) -> Seq<u8> {
    seq![(v % 256) as u8, (v / 256) as u8]
}

/// The little-endian bytes of a u32.
pub open spec fn le32(v: u32) -> Seq<u8> {
    seq![
        (v % 256) as u8,
        (v / 256 % 256) as u8,
        (v / 65536 % 256) as u8,
        (v / 16777216) as u8,
    ]
}

/// The little-endian bytes of a u64.
pub open spec fn le64(v: u64) -> Seq<u8> {
    le32((v % 4294967296) as u32) + le32((v / 4294967296) as u32)
}

/// The bytes of a tag.
pub open spec fn tag_bytes(t: MultiBootTag) -> Seq<u8> {
    le16(t.tag_type) + le16(t.flags) + le32(t.size)
}

/// The bytes of the requests, one u32 after the other.
pub open spec fn requests_bytes(r: Seq<u32>) -> Seq<u8>
    decreases r.len(),
{
    if r.len() == 0 {
        seq![]
    } else {
        requests_bytes(r.drop_last()) + le32(r.last())
    }
}

/// The header as it lies in the kernel image: its fields in order, packed, each in
/// little-endian order.
pub open spec fn header_bytes(h: HeaderFields) -> Seq<u8> {
    le32(h.magic) + le32(h.architecture) + le32(h.header_length) + le32(h.checksum) + tag_bytes(
        h.information_request,
    ) + requests_bytes(h.requests) + tag_bytes(h.efi_boot_services) + tag_bytes(
        h.efi_amd64_entry,
    ) + le64(h.entry_addr) + tag_bytes(h.end_tag)
}

/// The header of this kernel.
pub open spec fn kernel_header() -> HeaderFields {
    HeaderFields {
        magic: MULTIBOOT2_MAGIC,
        architecture: ARCHITECTURE_I386,
        header_length: HEADER_LENGTH,
        checksum: CHECKSUM,
        information_request: MultiBootTag { tag_type: 1, flags: 0, size: 28 },
        requests: seq![4u32, 6, 8, 9, 10],
        efi_boot_services: MultiBootTag { tag_type: 7, flags: 0, size: TAG_HEADER_SIZE },
        efi_amd64_entry: MultiBootTag { tag_type: 12, flags: 0, size: 16 },
        entry_addr: ENTRY_ADDRESS,
        end_tag: MultiBootTag { tag_type: 0, flags: 0, size: TAG_HEADER_SIZE },
    }
}

impl View for MultibootHeader {
    type V = HeaderFields;

    closed spec fn view(&self) -> HeaderFields {
        HeaderFields {
            magic: self.magic,
            architecture: self.architecture,
            header_length: self.header_length,
            checksum: self.checksum,
            information_request: self.information_request,
            requests: self.requests@,
            efi_boot_services: self.efi_boot_services,
            efi_amd64_entry: self.efi_amd64_entry,
            entry_addr: self.entry_addr,
            end_tag: self.end_tag,
        }
    }
}

/// Appends the little-endian bytes of `v` to `out`.
fn push_le32(out: &mut Vec<u8>, v: u32)
    ensures
        final(out)@ == old(out)@ + le32(v),
{
    out.push((v % 256) as u8);
    out.push((v / 256 % 256) as u8);
    out.push((v / 65536 % 256) as u8);
    out.push((v / 16777216) as u8);
    assert(out@ =~= old(out)@ + le32(v));
}

/// Appends the little-endian bytes of `v` to `out`.
fn push_le16(out: &mut Vec<u8>, v: u16)
    ensures
        final(out)@ == old(out)@ + le16(v),
{
    out.push((v % 256) as u8);
    out.push((v / 256) as u8);
    assert(out@ =~= old(out)@ + le16(v));
}

/// Appends the bytes of `t` to `out`.
fn push_tag(out: &mut Vec<u8>, t: &MultiBootTag)
    ensures
        final(out)@ == old(out)@ + tag_bytes(*t),
{
    push_le16(out, t.tag_type);
    push_le16(out, t.flags);
    push_le32(out, t.size);
    assert(out@ =~= old(out)@ + tag_bytes(*t));
}

impl MultibootHeader {
    /// The header of this kernel: the multiboot2 magic, the i386 architecture, a header
    /// length of its size plus that size modulo 8, the checksum that makes the first four
    /// fields add up to zero, a request for the boot information of `REQUESTS`, the EFI
    /// boot services tag, the EFI amd64 entry tag with `ENTRY_ADDRESS`, and the end tag.
    pub fn new() -> (h: Self)
        ensures
            h@ == kernel_header(),
    {
        let h = Self {
            magic: MULTIBOOT2_MAGIC,
            architecture: ARCHITECTURE_I386,
            header_length: HEADER_LENGTH,
            checksum: CHECKSUM,
            information_request: MultiBootTag::new(1, 5 * 4),
            requests: REQUESTS,
            efi_boot_services: MultiBootTag::new(7, 0),
            efi_amd64_entry: MultiBootTag::new(12, 8),
            entry_addr: ENTRY_ADDRESS,
            end_tag: MultiBootTag::new(0, 0),
        };
        assert(h@.requests =~= seq![4u32, 6, 8, 9, 10]);
        h
    }

    /// The header as it lies in the kernel image, packed and little-endian.
    pub fn to_bytes(&self) -> (bytes: Vec<u8>)
        ensures
            bytes@ == header_bytes(self@),
    {
        let mut out: Vec<u8> = Vec::new();
        push_le32(&mut out, self.magic);
        push_le32(&mut out, self.architecture);
        push_le32(&mut out, self.header_length);
        push_le32(&mut out, self.checksum);
        push_tag(&mut out, &self.information_request);
        let ghost before_requests = out@;
        let mut i: usize = 0;
        while i < 5
            invariant
                i <= 5,
                self.requests@.len() == 5,
                out@ == before_requests + requests_bytes(self.requests@.take(i as int)),
            decreases 5 - i,
        {
            push_le32(&mut out, self.requests[i]);
            assert(self.requests@.take(i + 1).drop_last() =~= self.requests@.take(i as int));
            i += 1;
        }
        assert(self.requests@.take(5) =~= self.requests@);
        push_tag(&mut out, &self.efi_boot_services);
        push_tag(&mut out, &self.efi_amd64_entry);
        push_le32(&mut out, (self.entry_addr % 4294967296) as u32);
        push_le32(&mut out, (self.entry_addr / 4294967296) as u32);
        push_tag(&mut out, &self.end_tag);
        assert(out@ =~= header_bytes(self@));
        out
    }
}

/// The header of this kernel is `HEADER_SIZE` bytes long, asks for a header length of
/// `HEADER_SIZE` rounded as the kernel does, and its magic, architecture, header length
/// and checksum add up to zero modulo 2^32, as the loader checks.
pub proof fn lemma_kernel_header_checksum()
    ensures
        header_bytes(kernel_header()).len() == HEADER_SIZE,
        kernel_header().header_length == HEADER_SIZE + HEADER_SIZE % 8,
        (kernel_header().magic + kernel_header().architecture + kernel_header().header_length
            + kernel_header().checksum) % 0x1_0000_0000 == 0,
{
    reveal_with_fuel(requests_bytes, 6);
}

} // verus!
