//! Address arithmetic of the `x86_64` crate, as the rest of the library uses it.
use vstd::prelude::*;
use x86_64::structures::paging::{PageTable, PageTableFlags, PhysFrame};
use x86_64::{PhysAddr, VirtAddr};

verus! {

/// Whether `align` is a power of two.
pub open spec fn is_power_of_two(align: u64) -> bool {
    align > 0 && align & ((align - 1) as u64) == 0
}

/// Calls `x86_64::align_up`, which returns the smallest multiple of `align` that is at
/// least `addr`. The crate asserts that `align` is a power of two and panics when the
/// rounding overflows; the `requires` leave both inputs out.
#[verifier::external_body]
pub(crate) fn align_up(addr: u64, align: u64) -> (r: u64)
    requires
        is_power_of_two(align),
        addr % align == 0 || addr + align - 1 <= u64::MAX,
    ensures
        r % align == 0,
        addr <= r,
        r < addr + align,
{
    x86_64::align_up(addr, align)
}

/// Eight is a power of two.
pub proof fn lemma_eight_is_power_of_two()
    ensures
        is_power_of_two(8),
{
    assert(8u64 & 7u64 == 0u64) by (bit_vector);
}

/// The bits of a page table entry that hold the physical address.
pub const ADDR_MASK: u64 = 0x000f_ffff_ffff_f000;

/// Page table entry flag: the entry is present.
pub const PRESENT: u64 = 1;

/// Page table entry flag: writes are allowed.
pub const WRITABLE: u64 = 2;

/// Page table entry flag: the entry maps a huge frame.
pub const HUGE_PAGE: u64 = 0x80;

/// Page table entry flag: the mapping is global.
pub const GLOBAL: u64 = 0x100;

/// Page table entry flag: code may not execute from the frame.
pub const NO_EXECUTE: u64 = 0x8000_0000_0000_0000;

/// The first physical address that is not valid: physical addresses use bits 0 to 51.
pub open spec fn phys_limit() -> int {
    0x10_0000_0000_0000
}

/// Whether `addr` is a canonical virtual address: bits 48 to 63 copy bit 47.
pub open spec fn is_canonical(addr: u64) -> bool {
    addr < 0x0000_8000_0000_0000 || addr >= 0xffff_8000_0000_0000
}

/// Calls `VirtAddr::new(addr) + offset`, which gives the sum. The crate panics when
/// `addr` is not canonical, when the sum overflows and when it is not canonical; the
/// `requires` leave those out.
#[verifier::external_body]
pub(crate) fn virt_add(addr: u64, offset: u64) -> (r: u64)
    requires
        is_canonical(addr),
        addr + offset <= u64::MAX,
        is_canonical((addr + offset) as u64),
    ensures
        r == addr + offset,
{
    (VirtAddr::new(addr) + offset).as_u64()
}

/// Calls `VirtAddr::new(addr) - offset`, which gives the difference. The crate panics
/// when `addr` is not canonical, when the difference underflows and when it is not
/// canonical; the `requires` leave those out.
#[verifier::external_body]
pub(crate) fn virt_sub(addr: u64, offset: u64) -> (r: u64)
    requires
        is_canonical(addr),
        offset <= addr,
        is_canonical((addr - offset) as u64),
    ensures
        r == addr - offset,
{
    (VirtAddr::new(addr) - offset).as_u64()
}

/// Calls `VirtAddr::new`, which keeps a canonical address as it is and panics on any
/// other; the `requires` leave those out.
#[verifier::external_body]
pub(crate) fn virt_addr_new(addr: u64) -> (r: u64)
    requires
        is_canonical(addr),
    ensures
        r == addr,
{
    VirtAddr::new(addr).as_u64()
}

/// Calls `PhysAddr::new`, which keeps an address below the physical limit as it is and
/// panics on any other; the `requires` leave those out.
#[verifier::external_body]
pub(crate) fn phys_addr_new(addr: u64) -> (r: u64)
    requires
        addr < phys_limit(),
    ensures
        r == addr,
{
    PhysAddr::new(addr).as_u64()
}

/// Calls `PhysAddr::new(addr) + offset`, which gives the sum. The crate panics when
/// `addr` or the sum has a bit from 52 on; the `requires` leave that out.
#[verifier::external_body]
pub(crate) fn phys_add(addr: u64, offset: u64) -> (r: u64)
    requires
        addr + offset < phys_limit(),
    ensures
        r == addr + offset,
{
    (PhysAddr::new(addr) + offset).as_u64()
}

#[verifier::external_type_specification]
#[verifier::external_body]
pub struct ExPageTable(PageTable);

/// The 512 entries of a page table, each as its raw 64-bit value.
pub uninterp spec fn table_entries(t: PageTable) -> Seq<u64>;

/// The entries of a table whose 512 entries are all zero.
pub open spec fn empty_entries() -> Seq<u64> {
    Seq::new(512, |i: int| 0u64)
}

/// Calls `PageTable::new`, which builds a table whose 512 entries are all zero.
#[verifier::external_body]
pub(crate) fn new_page_table() -> (t: PageTable)
    ensures
        table_entries(t) == empty_entries(),
{
    PageTable::new()
}

/// Calls `PageTableEntry::is_unused` on entry `i`, which holds when the entry is zero.
#[verifier::external_body]
pub(crate) fn table_entry_is_unused(t: &PageTable, i: usize) -> (r: bool)
    requires
        i < 512,
        table_entries(*t).len() == 512,
    ensures
        r == (table_entries(*t)[i as int] == 0),
{
    t[i].is_unused()
}

/// Calls `PageTableEntry::addr` on entry `i`, which keeps bits 12 to 51 of the entry.
#[verifier::external_body]
pub(crate) fn table_entry_addr(t: &PageTable, i: usize) -> (r: u64)
    requires
        i < 512,
        table_entries(*t).len() == 512,
    ensures
        r == table_entries(*t)[i as int] & ADDR_MASK,
{
    t[i].addr().as_u64()
}

/// Calls `PageTableEntry::set_addr` on entry `i`, which stores `addr | flags`. The crate
/// asserts that the address is 4 KiB aligned, and `PhysAddr::new` panics on a bit from
/// 52 on; the `requires` leave both out.
#[verifier::external_body]
pub(crate) fn table_entry_set_addr(t: &mut PageTable, i: usize, addr: u64, flags: u64)
    requires
        i < 512,
        table_entries(*old(t)).len() == 512,
        addr % 4096 == 0,
        addr < phys_limit(),
    ensures
        table_entries(*final(t)) == table_entries(*old(t)).update(i as int, addr | flags),
{
    t[i].set_addr(PhysAddr::new(addr), PageTableFlags::from_bits_retain(flags))
}

/// Calls `PageTableEntry::set_flags` on entry `i`, which keeps the address bits of the
/// entry and replaces the rest by `flags`.
#[verifier::external_body]
pub(crate) fn table_entry_set_flags(t: &mut PageTable, i: usize, flags: u64)
    requires
        i < 512,
        table_entries(*old(t)).len() == 512,
    ensures
        table_entries(*final(t)) == table_entries(*old(t)).update(
            i as int,
            (table_entries(*old(t))[i as int] & ADDR_MASK) | flags,
        ),
{
    t[i].set_flags(PageTableFlags::from_bits_retain(flags))
}

/// Calls `PageTableEntry::set_frame` on entry `i` with the frame that contains `addr`,
/// which stores `addr` rounded down to 4 KiB, or-ed with `flags`. The crate asserts that
/// `flags` lacks the huge page bit, and `PhysAddr::new` panics on a bit from 52 on; the
/// `requires` leave both out.
#[verifier::external_body]
pub(crate) fn table_entry_set_frame(t: &mut PageTable, i: usize, addr: u64, flags: u64)
    requires
        i < 512,
        table_entries(*old(t)).len() == 512,
        addr < phys_limit(),
        flags & HUGE_PAGE == 0,
    ensures
        table_entries(*final(t)) == table_entries(*old(t)).update(
            i as int,
            (addr - addr % 4096) as u64 | flags,
        ),
{
    t[i].set_frame(
        PhysFrame::containing_address(PhysAddr::new(addr)),
        PageTableFlags::from_bits_retain(flags),
    )
}

} // verus!
