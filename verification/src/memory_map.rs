//! The memory map that the bootloader hands over, and the choices that the kernel makes
//! from it while it sets memory up.
use limine_protocol_for_rust::requests::memory_map::MemoryRegionType;
use vstd::prelude::*;

verus! {

/// The type of a region of the memory map.
#[derive(Clone, Copy, Debug, PartialEq, Eq, Structural)]
pub enum MemoryMapType {
    Usable,
    Reserved,
    AcpiReclaimable,
    AcpiNvs,
    BadMemory,
    BootloaderReclaimable,
    ExecutableAndModules,
    Framebuffer,
    AcpiTables,
}

/// The region type that the number `raw` stands for, for the numbers 0 to 8.
pub open spec fn memory_map_type_of(raw: u64) -> MemoryMapType {
    if raw == 0 {
        MemoryMapType::Usable
    } else if raw == 1 {
        MemoryMapType::Reserved
    } else if raw == 2 {
        MemoryMapType::AcpiReclaimable
    } else if raw == 3 {
        MemoryMapType::AcpiNvs
    } else if raw == 4 {
        MemoryMapType::BadMemory
    } else if raw == 5 {
        MemoryMapType::BootloaderReclaimable
    } else if raw == 6 {
        MemoryMapType::ExecutableAndModules
    } else if raw == 7 {
        MemoryMapType::Framebuffer
    } else {
        MemoryMapType::AcpiTables
    }
}

/// Calls `MemoryRegionType::from` of the Limine protocol crate, which maps the numbers
/// 0 to 8 to the region types in their order and panics on any other number; the
/// `requires` leave those out.
#[verifier::external_body]
fn limine_region_type(raw: u64) -> (r: MemoryMapType)
    requires
        raw <= 8,
    ensures
        r == memory_map_type_of(raw),
{
    match MemoryRegionType::from(raw) {
        MemoryRegionType::Usable => MemoryMapType::Usable,
        MemoryRegionType::Reserved => MemoryMapType::Reserved,
        MemoryRegionType::AcpiReclaimable => MemoryMapType::AcpiReclaimable,
        MemoryRegionType::AcpiNvs => MemoryMapType::AcpiNvs,
        MemoryRegionType::BadMemory => MemoryMapType::BadMemory,
        MemoryRegionType::BootloaderReclaimable => MemoryMapType::BootloaderReclaimable,
        MemoryRegionType::ExecutableAndModules => MemoryMapType::ExecutableAndModules,
        MemoryRegionType::Framebuffer => MemoryMapType::Framebuffer,
        MemoryRegionType::AcpiTables => MemoryMapType::AcpiTables,
    }
}

/// A region of the memory map: its physical base, its length in bytes and its type
/// number.
#[derive(Clone, Copy, Debug, PartialEq, Eq, Structural)]
pub struct MemoryMapEntry {
    pub base: u64,
    pub length: u64,
    pub memmap_type: u64,
}

impl MemoryMapEntry {
    /// The type of the region. Type numbers above 8 are invalid and panic; `requires`
    /// leaves them out.
    pub fn type_as_enum(&self) -> (r: MemoryMapType)
        requires
            self.memmap_type <= 8,
        ensures
            r == memory_map_type_of(self.memmap_type),
    {
        match self.memmap_type {
            0 => MemoryMapType::Usable,
            1 => MemoryMapType::Reserved,
            2 => MemoryMapType::AcpiReclaimable,
            3 => MemoryMapType::AcpiNvs,
            4 => MemoryMapType::BadMemory,
            5 => MemoryMapType::BootloaderReclaimable,
            6 => MemoryMapType::ExecutableAndModules,
            7 => MemoryMapType::Framebuffer,
            _ => MemoryMapType::AcpiTables,
        }
    }

    /// The type of the region, as the Limine protocol crate reads it.
    pub fn get_type(&self) -> (r: MemoryMapType)
        requires
            self.memmap_type <= 8,
        ensures
            r == memory_map_type_of(self.memmap_type),
    {
        limine_region_type(self.memmap_type)
    }
}

/// The identifier of a Limine request: two magic numbers common to all requests and two
/// of the request's own.
pub struct LimineReqId {
    pub common_magic_1: u64,
    pub common_magic_2: u64,
    pub other: [u64; 2],
}

impl LimineReqId {
    /// The identifier of the request whose own numbers are `other`.
    pub fn new(other: [u64; 2]) -> (r: Self)
        ensures
            r.common_magic_1 == 0xc7b1dd30df4c8b88,
            r.common_magic_2 == 0x0a82e883a194f07b,
            r.other == other,
    {
        Self { common_magic_1: 0xc7b1dd30df4c8b88, common_magic_2: 0x0a82e883a194f07b, other }
    }
}

/// Every region of the map has a valid type number.
pub open spec fn types_are_valid(entries: Seq<MemoryMapEntry>) -> bool {
    forall|i: int| 0 <= i < entries.len() ==> #[trigger] entries[i].memmap_type <= 8
}

/// Whether region `i` is usable.
pub open spec fn is_usable(entries: Seq<MemoryMapEntry>, i: int) -> bool {
    memory_map_type_of(entries[i].memmap_type) == MemoryMapType::Usable
}

/// Returns the index of the largest usable region, the last one of the largest when
/// several share the length, or `None` when no region is usable.
pub fn largest_usable_region(entries: &[MemoryMapEntry]) -> (r: Option<usize>)
    requires
        types_are_valid(entries@),
    ensures
        r is None <==> forall|j: int| 0 <= j < entries@.len() ==> !is_usable(entries@, j),
        r matches Some(i) ==> {
            &&& i < entries@.len()
            &&& is_usable(entries@, i as int)
            &&& forall|j: int|
                0 <= j < entries@.len() && is_usable(entries@, j) ==> entries@[j].length
                    <= entries@[i as int].length
            &&& forall|j: int|
                i < j < entries@.len() && is_usable(entries@, j) ==> entries@[j].length
                    < entries@[i as int].length
        },
{
    let mut best: Option<usize> = None;
    let mut k: usize = 0;
    while k < entries.len()
        invariant
            k <= entries@.len(),
            types_are_valid(entries@),
            best is None <==> forall|j: int| 0 <= j < k ==> !is_usable(entries@, j),
            best matches Some(i) ==> {
                &&& i < k
                &&& is_usable(entries@, i as int)
                &&& forall|j: int|
                    0 <= j < k && is_usable(entries@, j) ==> entries@[j].length
                        <= entries@[i as int].length
                &&& forall|j: int|
                    i < j < k && is_usable(entries@, j) ==> entries@[j].length
                        < entries@[i as int].length
            },
        decreases entries@.len() - k,
    {
        let t = entries[k].get_type();
        proof {
            assert(is_usable(entries@, k as int) == (t == MemoryMapType::Usable));
        }
        if t == MemoryMapType::Usable {
            match best {
                None => {
                    best = Some(k);
                },
                Some(i) => {
                    if entries[k].length >= entries[i].length {
                        best = Some(k);
                    }
                },
            }
        }
        k += 1;
    }
    best
}

/// Returns the index of the first region of type `ExecutableAndModules`, which holds
/// the kernel. A map without one panics; `requires` leaves it out.
pub fn kernel_region(entries: &[MemoryMapEntry]) -> (r: usize)
    requires
        types_are_valid(entries@),
        exists|j: int|
            0 <= j < entries@.len() && memory_map_type_of(#[trigger] entries@[j].memmap_type)
                == MemoryMapType::ExecutableAndModules,
    ensures
        r < entries@.len(),
        memory_map_type_of(entries@[r as int].memmap_type) == MemoryMapType::ExecutableAndModules,
        forall|j: int|
            0 <= j < r ==> memory_map_type_of(#[trigger] entries@[j].memmap_type)
                != MemoryMapType::ExecutableAndModules,
{
    let mut k: usize = 0;
    while k < entries.len()
        invariant
            k <= entries@.len(),
            types_are_valid(entries@),
            forall|j: int|
                0 <= j < k ==> memory_map_type_of(#[trigger] entries@[j].memmap_type)
                    != MemoryMapType::ExecutableAndModules,
        decreases entries@.len() - k,
    {
        if entries[k].get_type() == MemoryMapType::ExecutableAndModules {
            return k;
        }
        k += 1;
    }
    proof {
        let j = choose|j: int|
            0 <= j < entries@.len() && memory_map_type_of(#[trigger] entries@[j].memmap_type)
                == MemoryMapType::ExecutableAndModules;
        assert(memory_map_type_of(entries@[j].memmap_type)
            != MemoryMapType::ExecutableAndModules);
    }
    0
}

/// Whether region `i` counts toward the size of physical memory: it is neither reserved
/// nor a framebuffer, which may lie outside physical memory.
pub open spec fn is_valid_region(entries: Seq<MemoryMapEntry>, i: int) -> bool {
    let t = memory_map_type_of(entries[i].memmap_type);
    t != MemoryMapType::Reserved && t != MemoryMapType::Framebuffer
}

/// The end address of region `i`.
pub open spec fn region_end(entries: Seq<MemoryMapEntry>, i: int) -> int {
    entries[i].base + entries[i].length
}

/// Returns the index of the valid region that ends highest, the last one of those when
/// several end at the same address. A map without a valid region panics, and so does
/// an end past `u64::MAX`; `requires` leaves both out.
pub fn highest_valid_region(entries: &[MemoryMapEntry]) -> (r: usize)
    requires
        types_are_valid(entries@),
        exists|j: int| 0 <= j < entries@.len() && #[trigger] is_valid_region(entries@, j),
        forall|j: int|
            0 <= j < entries@.len() && is_valid_region(entries@, j) ==> #[trigger] region_end(
                entries@,
                j,
            ) <= u64::MAX,
    ensures
        r < entries@.len(),
        is_valid_region(entries@, r as int),
        forall|j: int|
            0 <= j < entries@.len() && is_valid_region(entries@, j) ==> region_end(entries@, j)
                <= region_end(entries@, r as int),
        forall|j: int|
            r < j < entries@.len() && is_valid_region(entries@, j) ==> region_end(entries@, j)
                < region_end(entries@, r as int),
{
    let mut best: Option<usize> = None;
    let mut k: usize = 0;
    while k < entries.len()
        invariant
            k <= entries@.len(),
            types_are_valid(entries@),
            forall|j: int|
                0 <= j < entries@.len() && is_valid_region(entries@, j) ==> #[trigger] region_end(
                    entries@,
                    j,
                ) <= u64::MAX,
            best is None <==> forall|j: int| 0 <= j < k ==> !is_valid_region(entries@, j),
            best matches Some(i) ==> {
                &&& i < k
                &&& is_valid_region(entries@, i as int)
                &&& forall|j: int|
                    0 <= j < k && is_valid_region(entries@, j) ==> region_end(entries@, j)
                        <= region_end(entries@, i as int)
                &&& forall|j: int|
                    i < j < k && is_valid_region(entries@, j) ==> region_end(entries@, j)
                        < region_end(entries@, i as int)
            },
        decreases entries@.len() - k,
    {
        let t = entries[k].get_type();
        proof {
            assert(is_valid_region(entries@, k as int) == (t != MemoryMapType::Reserved && t
                != MemoryMapType::Framebuffer));
        }
        if t != MemoryMapType::Reserved && t != MemoryMapType::Framebuffer {
            proof {
                assert(region_end(entries@, k as int) <= u64::MAX);
            }
            match best {
                None => {
                    best = Some(k);
                },
                Some(i) => {
                    proof {
                        assert(region_end(entries@, i as int) <= u64::MAX);
                    }
                    if entries[k].base + entries[k].length >= entries[i].base + entries[i].length {
                        best = Some(k);
                    }
                },
            }
        }
        k += 1;
    }
    match best {
        Some(i) => i,
        None => {
            proof {
                let j = choose|j: int| 0 <= j < entries@.len() && #[trigger] is_valid_region(
                    entries@,
                    j,
                );
                assert(!is_valid_region(entries@, j));
            }
            0
        },
    }
}

/// The size in bytes of a bitmap with one bit per page frame below `end`.
pub fn frame_bitmap_size(end: u64) -> (r: u64)
    ensures
        r == end / 4096 / 8,
{
    end / 4096 / 8
}

} // verus!
