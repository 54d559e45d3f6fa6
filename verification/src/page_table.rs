//! A four-level x86-64 page table whose tables live in a table memory keyed by the
//! physical address of their frame. The level 4 table holds a recursive entry at index
//! 511. A frame that holds no table reads as a table of zero entries.
use std::collections::HashMap;
use vstd::prelude::*;
use x86_64::structures::paging::PageTable;

use crate::arch::{
    empty_entries, is_canonical, new_page_table, phys_add, phys_limit, virt_add, HUGE_PAGE, table_entries, table_entry_addr,
    table_entry_is_unused, table_entry_set_addr, table_entry_set_flags, table_entry_set_frame,
    ADDR_MASK, NO_EXECUTE, PRESENT, WRITABLE,
};
use crate::error::MemoryError;
use crate::frame_allocation::FrameAllocator;
use crate::PAGE_SIZE;

verus! {

broadcast use vstd::std_specs::hash::group_hash_axioms;

/// The index into the table of `level` that virtual address `addr` selects: nine bits
/// from bit `9 * level + 3` on.
pub open spec fn page_index(level: u64, addr: u64) -> int {
    ((addr >> ((9 * level + 3) as u64)) & 511u64) as int
}

/// A page index lies within a table.
pub proof fn lemma_page_index_bound(level: u64, addr: u64)
    ensures
        0 <= page_index(level, addr) < 512,
{
    let s = (9 * level + 3) as u64;
    assert((addr >> s) & 511u64 < 512u64) by (bit_vector);
}

/// Returns the index into the table of `level` that `addr` selects. Levels outside
/// `1..=4` fail an assertion and are left out.
pub fn get_page_index(level: u64, addr: u64) -> (r: usize)
    requires
        1 <= level <= 4,
    ensures
        r == page_index(level, addr),
        r < 512,
{
    proof {
        lemma_page_index_bound(level, addr);
    }
    ((addr >> (9 * level + 3)) & 511) as usize
}

/// Flags of a present, readable, not executable page.
pub fn flags_r() -> (r: u64)
    ensures
        r == PRESENT | NO_EXECUTE,
{
    PRESENT | NO_EXECUTE
}

/// Flags of a present, writable, not executable page.
pub fn flags_rw() -> (r: u64)
    ensures
        r == WRITABLE | PRESENT | NO_EXECUTE,
{
    WRITABLE | PRESENT | NO_EXECUTE
}

/// Flags of a present, readable, executable page.
pub fn flags_rx() -> (r: u64)
    ensures
        r == PRESENT,
{
    PRESENT
}

/// Flags of a present, writable, executable page.
pub fn flags_rwx() -> (r: u64)
    ensures
        r == WRITABLE | PRESENT,
{
    WRITABLE | PRESENT
}

/// Whether the `pages` pages from virtual address `to` on all start at canonical
/// addresses.
pub open spec fn pages_are_canonical(to: u64, pages: int) -> bool {
    forall|m: int|
        0 <= m < pages ==> to + 4096 * m <= u64::MAX && #[trigger] is_canonical(
            (to + 4096 * m) as u64,
        )
}

/// Whether the `pages` pages from `to` on all lie under the level 1 table of `to`: they
/// select the same entries as `to` at levels 2 to 4, and the level 1 entries that follow
/// that of `to`, one after the other.
pub open spec fn in_one_table_span(to: u64, pages: int) -> bool {
    forall|m: int|
        #![trigger page_index(1, (to + 4096 * m) as u64)]
        0 <= m < pages ==> {
            &&& page_index(1, (to + 4096 * m) as u64) == page_index(1, to) + m
            &&& page_index(2, (to + 4096 * m) as u64) == page_index(2, to)
            &&& page_index(3, (to + 4096 * m) as u64) == page_index(3, to)
            &&& page_index(4, (to + 4096 * m) as u64) == page_index(4, to)
        }
}

/// What an entry of a level 1 table gives for `addr`: nothing when the entry is zero,
/// and otherwise its address plus the offset of `addr` within the page.
pub open spec fn entry_translation(e: u64, addr: u64) -> Option<u64> {
    if e == 0 {
        None
    } else {
        Some(((e & ADDR_MASK) + addr % 4096) as u64)
    }
}

proof fn lemma_frame_entry(f: u64, flags: u64)
    requires
        f % 4096 == 0,
        f < phys_limit(),
        flags & ADDR_MASK == 0,
    ensures
        (f | flags) & ADDR_MASK == f,
{
    assert((f | flags) & 0x000f_ffff_ffff_f000u64 == f) by (bit_vector)
        requires
            f % 4096 == 0,
            f < 0x10_0000_0000_0000u64,
            flags & 0x000f_ffff_ffff_f000u64 == 0,
    ;
}

proof fn lemma_rw_flags_hold_no_address()
    ensures
        (WRITABLE | PRESENT | NO_EXECUTE) & ADDR_MASK == 0,
        0u64 & ADDR_MASK == 0,
{
    assert((2u64 | 1u64 | 0x8000_0000_0000_0000u64) & 0x000f_ffff_ffff_f000u64 == 0)
        by (bit_vector);
    assert(0u64 & 0x000f_ffff_ffff_f000u64 == 0) by (bit_vector);
}

proof fn lemma_entry_addr_bounds(e: u64)
    ensures
        (e & ADDR_MASK) % 4096 == 0,
        (e & ADDR_MASK) < phys_limit(),
{
    assert((e & 0x000f_ffff_ffff_f000u64) % 4096 == 0 && (e & 0x000f_ffff_ffff_f000u64)
        < 0x10_0000_0000_0000u64) by (bit_vector);
}

/// A simple recursive page table. Its tables are found by the physical address of their
/// frame, in the table memory that it keeps.
pub struct RecursivePageTable {
    lvl4: u64,
    internal_offset: u64,
    tables: HashMap<u64, PageTable>,
}

impl RecursivePageTable {
    /// The physical address of the level 4 table.
    pub closed spec fn lvl4_frame(&self) -> u64 {
        self.lvl4
    }

    /// The offset at which the tables are mapped into the virtual address space.
    pub closed spec fn offset(&self) -> u64 {
        self.internal_offset
    }

    /// The tables that the table memory holds, by frame.
    pub closed spec fn tables_view(&self) -> Map<u64, PageTable> {
        self.tables@
    }

    /// The entries of the table at frame `t`; a frame that holds no table reads as zeros.
    pub open spec fn table_at(&self, t: u64) -> Seq<u64> {
        if self.tables_view().contains_key(t) {
            table_entries(self.tables_view()[t])
        } else {
            empty_entries()
        }
    }

    /// Every table in the table memory has 512 entries.
    pub open spec fn wf(&self) -> bool {
        forall|t: u64| #[trigger]
            self.tables_view().contains_key(t) ==> table_entries(self.tables_view()[t]).len()
                == 512
    }

    /// The frame of the table of `level` on the way to `addr`: the level 4 table, and
    /// below it the address in the entry that `addr` selects, as long as that entry is
    /// not zero.
    pub open spec fn table_for(&self, level: int, addr: u64) -> Option<u64>
        decreases 4 - level,
    {
        if level >= 4 {
            Some(self.lvl4_frame())
        } else if level < 1 {
            None
        } else {
            match self.table_for(level + 1, addr) {
                None => None,
                Some(t) => {
                    let e = self.table_at(t)[page_index((level + 1) as u64, addr)];
                    if e == 0 {
                        None
                    } else {
                        Some(e & ADDR_MASK)
                    }
                },
            }
        }
    }

    /// The physical address that virtual address `addr` translates to.
    pub open spec fn translation(&self, addr: u64) -> Option<u64> {
        match self.table_for(1, addr) {
            None => None,
            Some(t) => entry_translation(self.table_at(t)[page_index(1, addr)], addr),
        }
    }

    /// The level 1 entry of virtual address `addr`, if its level 1 table exists: the frame
    /// that it maps with its flags.
    pub open spec fn leaf_entry(&self, addr: u64) -> Option<u64> {
        match self.table_for(1, addr) {
            None => None,
            Some(t) => Some(self.table_at(t)[page_index(1, addr)]),
        }
    }

    /// Whether the level 1 entry of `addr` exists and is in use.
    pub open spec fn slot_in_use(&self, addr: u64) -> bool {
        self.leaf_entry(addr) matches Some(e) && e != 0
    }

    /// The lowest level whose table exists on the way to `addr`.
    pub open spec fn first_table_level(&self, to: u64) -> int {
        if self.table_for(1, to) is Some {
            1
        } else if self.table_for(2, to) is Some {
            2
        } else if self.table_for(3, to) is Some {
            3
        } else {
            4
        }
    }

    /// The frames that a table created by `map(_, to, ..)` must not reuse: the frames of
    /// the table memory and the frame of the lowest existing table on the way to `to`.
    pub open spec fn reserved_frames(&self, to: u64) -> Set<u64> {
        self.tables_view().dom().insert(self.table_for(self.first_table_level(to), to)->0)
    }

    /// Whether the level 1 tables of the `pages` pages from `to` on all exist, so that
    /// mapping them makes no new table.
    pub open spec fn tables_exist(&self, to: u64, pages: int) -> bool {
        forall|m: int| 0 <= m < pages ==> #[trigger] self.table_for(1, (to + 4096 * m) as u64) is Some
    }

    /// Whether the `pages` pages from `to` on can all be mapped without a new table and
    /// without meeting a page in use: each has its level 1 table, its entry there is
    /// zero, and no two of them share an entry.
    pub open spec fn pages_free(&self, to: u64, pages: int) -> bool {
        &&& self.tables_exist(to, pages)
        &&& forall|m: int|
            0 <= m < pages ==> #[trigger] self.table_at(
                self.table_for(1, (to + 4096 * m) as u64)->0,
            )[page_index(1, (to + 4096 * m) as u64)] == 0
        &&& forall|m: int, n: int|
            0 <= m < n < pages ==> (#[trigger] self.table_for(1, (to + 4096 * m) as u64),
                page_index(1, (to + 4096 * m) as u64)) != (#[trigger] self.table_for(
                1,
                (to + 4096 * n) as u64,
            ), page_index(1, (to + 4096 * n) as u64))
    }

    /// Whether no page of the `n` pages from `to` on shares its level 1 table and index
    /// with a page of the `n2` pages from `to2` on.
    pub open spec fn slots_disjoint(&self, to: u64, n: int, to2: u64, n2: int) -> bool {
        forall|m: int, m2: int|
            0 <= m < n && 0 <= m2 < n2 ==> (#[trigger] self.table_for(1, (to + 4096 * m) as u64),
                page_index(1, (to + 4096 * m) as u64)) != (#[trigger] self.table_for(
                1,
                (to2 + 4096 * m2) as u64,
            ), page_index(1, (to2 + 4096 * m2) as u64))
    }

    /// Whether every entry of `new` that differs from `old` is the level 1 entry of one of
    /// the `pages` pages from `to` on.
    pub open spec fn writes_only(old: &Self, new: &Self, to: u64, pages: int) -> bool {
        forall|t: u64, i: int|
            0 <= i < 512 && #[trigger] new.table_at(t)[i] != old.table_at(t)[i] ==> exists|m: int|
                0 <= m < pages && #[trigger] old.table_for(1, (to + 4096 * m) as u64) == Some(t)
                    && i == page_index(1, (to + 4096 * m) as u64)
    }

    /// `new` is `old` with entry `i` of the table at frame `t` replaced by `v`.
    pub open spec fn written(old: &Self, new: &Self, t: u64, i: int, v: u64) -> bool {
        &&& new.wf()
        &&& new.lvl4_frame() == old.lvl4_frame()
        &&& new.offset() == old.offset()
        &&& forall|u: u64| #[trigger]
            new.table_at(u) == if u == t {
                old.table_at(t).update(i, v)
            } else {
                old.table_at(u)
            }
    }

    /// Every entry of `old` that is not zero has the same value in `new`.
    pub open spec fn keeps_used_entries(old: &Self, new: &Self) -> bool {
        &&& new.wf()
        &&& new.lvl4_frame() == old.lvl4_frame()
        &&& new.offset() == old.offset()
        &&& forall|u: u64, i: int|
            0 <= i < 512 && #[trigger] old.table_at(u)[i] != 0 ==> new.table_at(u)[i]
                == old.table_at(u)[i]
    }

    /// Every entry of `new` is zero exactly where the entry of `old` is, and holds the
    /// same address: only flags of entries in use may differ.
    pub open spec fn keeps_addresses(old: &Self, new: &Self) -> bool {
        &&& new.wf()
        &&& new.lvl4_frame() == old.lvl4_frame()
        &&& new.offset() == old.offset()
        &&& forall|u: u64, i: int|
            0 <= i < 512 ==> (#[trigger] new.table_at(u)[i] == 0) == (old.table_at(u)[i] == 0)
                && new.table_at(u)[i] & ADDR_MASK == old.table_at(u)[i] & ADDR_MASK
    }

    /// Keeping every entry's address and whether it is zero keeps every way to every
    /// address.
    pub proof fn lemma_kept_addresses_keep_paths(old: &Self, new: &Self, l: int, addr: u64)
        requires
            Self::keeps_addresses(old, new),
            1 <= l <= 4,
        ensures
            new.table_for(l, addr) == old.table_for(l, addr),
        decreases 4 - l,
    {
        if l < 4 {
            Self::lemma_kept_addresses_keep_paths(old, new, l + 1, addr);
            lemma_page_index_bound((l + 1) as u64, addr);
        }
    }

    /// Keeping every entry's address and whether it is zero keeps every translation.
    pub proof fn lemma_kept_addresses_keep_translations(old: &Self, new: &Self, addr: u64)
        requires
            Self::keeps_addresses(old, new),
        ensures
            new.translation(addr) == old.translation(addr),
    {
        Self::lemma_kept_addresses_keep_paths(old, new, 1, addr);
        lemma_page_index_bound(1, addr);
    }

    /// Addresses that select the same entries at levels 2 to 4 share their level 1 table.
    pub proof fn lemma_same_upper_entries_same_table(&self, a: u64, b: u64)
        requires
            page_index(2, a) == page_index(2, b),
            page_index(3, a) == page_index(3, b),
            page_index(4, a) == page_index(4, b),
        ensures
            self.table_for(1, a) == self.table_for(1, b),
    {
        assert(self.table_for(4, a) == self.table_for(4, b));
        assert(self.table_for(3, a) == self.table_for(3, b));
        assert(self.table_for(2, a) == self.table_for(2, b));
    }

    /// Every table of a well formed page table has 512 entries.
    pub proof fn lemma_table_at_len(&self, t: u64)
        requires
            self.wf(),
        ensures
            self.table_at(t).len() == 512,
    {
    }

    proof fn lemma_missing_stays_missing(&self, l: int, m: int, addr: u64)
        requires
            1 <= m <= l,
            self.table_for(l, addr) is None,
        ensures
            self.table_for(m, addr) is None,
        decreases l - m,
    {
        if m < l {
            self.lemma_missing_stays_missing(l, m + 1, addr);
        }
    }

    /// A write into an entry that was zero leaves every existing way to an address as it
    /// was.
    pub proof fn lemma_write_keeps_paths(
        old: &Self,
        new: &Self,
        t: u64,
        i: int,
        v: u64,
        l: int,
        addr: u64,
    )
        requires
            Self::written(old, new, t, i, v),
            old.wf(),
            old.table_at(t)[i] == 0,
            0 <= i < 512,
            1 <= l <= 4,
            old.table_for(l, addr) is Some,
        ensures
            new.table_for(l, addr) == old.table_for(l, addr),
        decreases 4 - l,
    {
        if l < 4 {
            Self::lemma_write_keeps_paths(old, new, t, i, v, l + 1, addr);
            let u = old.table_for(l + 1, addr)->0;
            let idx = page_index((l + 1) as u64, addr);
            lemma_page_index_bound((l + 1) as u64, addr);
            old.lemma_table_at_len(u);
            assert(old.table_at(u)[idx] != 0);
            assert(new.table_at(u) == if u == t {
                old.table_at(t).update(i, v)
            } else {
                old.table_at(u)
            });
            assert(new.table_at(u)[idx] == old.table_at(u)[idx]);
        }
    }

    /// Keeping every entry that is not zero keeps every existing way to an address.
    pub proof fn lemma_kept_entries_keep_paths(old: &Self, new: &Self, l: int, addr: u64)
        requires
            Self::keeps_used_entries(old, new),
            1 <= l <= 4,
            old.table_for(l, addr) is Some,
        ensures
            new.table_for(l, addr) == old.table_for(l, addr),
        decreases 4 - l,
    {
        if l < 4 {
            Self::lemma_kept_entries_keep_paths(old, new, l + 1, addr);
            let u = old.table_for(l + 1, addr)->0;
            let idx = page_index((l + 1) as u64, addr);
            lemma_page_index_bound((l + 1) as u64, addr);
        }
    }

    /// Whether entry `i` of the table at frame `t` is zero.
    fn read_unused(&self, t: u64, i: usize) -> (r: bool)
        requires
            self.wf(),
            i < 512,
        ensures
            r == (self.table_at(t)[i as int] == 0),
    {
        match self.tables.get(&t) {
            Some(table) => {
                assert(self.tables_view().contains_key(t));
                assert(self.tables_view()[t] == *table);
                table_entry_is_unused(table, i)
            },
            None => true,
        }
    }

    /// The address bits of entry `i` of the table at frame `t`.
    fn read_addr(&self, t: u64, i: usize) -> (r: u64)
        requires
            self.wf(),
            i < 512,
        ensures
            r == self.table_at(t)[i as int] & ADDR_MASK,
    {
        match self.tables.get(&t) {
            Some(table) => {
                assert(self.tables_view().contains_key(t));
                assert(self.tables_view()[t] == *table);
                table_entry_addr(table, i)
            },
            None => {
                proof {
                    lemma_rw_flags_hold_no_address();
                }
                0
            },
        }
    }

    /// Maps entry `i` of the table at frame `t` to `addr` with `flags`.
    fn write_addr(&mut self, t: u64, i: usize, addr: u64, flags: u64)
        requires
            old(self).wf(),
            i < 512,
            addr % 4096 == 0,
            addr < phys_limit(),
        ensures
            Self::written(old(self), final(self), t, i as int, addr | flags),
            final(self).tables_view().dom() == old(self).tables_view().dom().insert(t),
    {
        let mut table = match self.tables.remove(&t) {
            Some(table) => {
                assert(old(self).tables_view().contains_key(t));
                assert(old(self).tables_view()[t] == table);
                table
            },
            None => new_page_table(),
        };
        assert(table_entries(table) == old(self).table_at(t));
        table_entry_set_addr(&mut table, i, addr, flags);
        self.tables.insert(t, table);
        proof {
            assert forall|u: u64| #[trigger]
                self.table_at(u) == if u == t {
                    old(self).table_at(t).update(i as int, addr | flags)
                } else {
                    old(self).table_at(u)
                } by {}
            assert(self.tables_view().dom() =~= old(self).tables_view().dom().insert(t));
        }
    }

    /// Replaces the flags of entry `i` of the table at frame `t`.
    fn write_flags(&mut self, t: u64, i: usize, flags: u64)
        requires
            old(self).wf(),
            i < 512,
        ensures
            Self::written(
                old(self),
                final(self),
                t,
                i as int,
                (old(self).table_at(t)[i as int] & ADDR_MASK) | flags,
            ),
    {
        let mut table = match self.tables.remove(&t) {
            Some(table) => {
                assert(old(self).tables_view().contains_key(t));
                assert(old(self).tables_view()[t] == table);
                table
            },
            None => new_page_table(),
        };
        assert(table_entries(table) == old(self).table_at(t));
        table_entry_set_flags(&mut table, i, flags);
        self.tables.insert(t, table);
        proof {
            assert forall|u: u64| #[trigger]
                self.table_at(u) == if u == t {
                    old(self).table_at(t).update(
                        i as int,
                        (old(self).table_at(t)[i as int] & ADDR_MASK) | flags,
                    )
                } else {
                    old(self).table_at(u)
                } by {}
        }
    }

    /// Returns the frame of the table of `target_lvl` on the way to `to`, if every entry
    /// above it is in use. Levels outside `1..=4` fail an assertion and are left out.
    fn get_page_table(&self, target_lvl: u64, to: u64) -> (r: Option<u64>)
        requires
            self.wf(),
            1 <= target_lvl <= 4,
        ensures
            r == self.table_for(target_lvl as int, to),
    {
        let mut current_table = self.lvl4;
        let mut level: u64 = 4;
        while level > target_lvl
            invariant
                self.wf(),
                1 <= target_lvl <= level <= 4,
                self.table_for(level as int, to) == Some(current_table),
            decreases level,
        {
            let idx = get_page_index(level, to);
            if self.read_unused(current_table, idx) {
                proof {
                    self.lemma_missing_stays_missing(level - 1, target_lvl as int, to);
                }
                return None;
            }
            current_table = self.read_addr(current_table, idx);
            level -= 1;
        }
        Some(current_table)
    }

    /// Translates virtual address `from` into the physical address that it is mapped to.
    pub fn translate(&mut self, from: u64) -> (r: Option<u64>)
        requires
            old(self).wf(),
        ensures
            *final(self) == *old(self),
            r == old(self).translation(from),
    {
        if let Some(page_table) = self.get_page_table(1, from) {
            let idx = get_page_index(1, from);
            if self.read_unused(page_table, idx) {
                return None;
            }
            let addr = self.read_addr(page_table, idx);
            proof {
                lemma_entry_addr_bounds(self.table_at(page_table)[idx as int]);
            }
            return Some(addr + from % PAGE_SIZE as u64);
        }
        None
    }

    /// Sets the flags of the level 1 entry of `to`, keeping its frame. An entry that is
    /// zero maps nothing and is reported as an error; a missing table above it leaves
    /// everything as it was.
    pub fn update_flags(&mut self, to: u64, flags: u64) -> (r: Result<(), MemoryError>)
        requires
            old(self).wf(),
        ensures
            match old(self).table_for(1, to) {
                None => r == Ok::<(), MemoryError>(()) && *final(self) == *old(self),
                Some(t) => if old(self).table_at(t)[page_index(1, to)] == 0 {
                    r == Err::<(), MemoryError>(MemoryError::TODOError) && *final(self) == *old(self)
                } else {
                    r == Ok::<(), MemoryError>(()) && Self::written(
                        old(self),
                        final(self),
                        t,
                        page_index(1, to),
                        (old(self).table_at(t)[page_index(1, to)] & ADDR_MASK) | flags,
                    )
                },
            },
    {
        if let Some(page_table) = self.get_page_table(1, to) {
            let idx = get_page_index(1, to);
            if self.read_unused(page_table, idx) {
                return Err(MemoryError::TODOError);
            }
            self.write_flags(page_table, idx, flags);
        }
        Ok(())
    }

    /// Maps virtual address `to` to physical address `from` with `flags`. Tables missing
    /// on the way are made from frames of `frame_allocator`; an entry in use at level 1
    /// is reported as an error.
    pub fn map<A: FrameAllocator>(
        &mut self,
        from: u64,
        to: u64,
        flags: u64,
        frame_allocator: &mut A,
    ) -> (r: Result<(), MemoryError>)
        requires
            old(self).wf(),
            !old(self).slot_in_use(to) ==> from % 4096 == 0 && from < phys_limit(),
            old(frame_allocator).hands_out_frames((old(self).first_table_level(to) - 1) as nat),
        ensures
            Self::keeps_used_entries(old(self), final(self)),
            r is Ok ==> final(self).table_for(1, to) is Some && final(self).table_at(
                final(self).table_for(1, to)->0,
            )[page_index(1, to)] == from | flags,
            r is Ok ==> final(self).translation(to) == entry_translation(from | flags, to),
            r is Ok ==> final(self).leaf_entry(to) == Some(from | flags),
            forall|j: nat|
                #![trigger old(frame_allocator).hands_out_frames(
                    j + (old(self).first_table_level(to) - 1) as nat,
                )]
                old(frame_allocator).hands_out_frames(
                    j + (old(self).first_table_level(to) - 1) as nat,
                ) ==> final(frame_allocator).hands_out_frames(j),
            old(self).first_table_level(to) == 1 ==> {
                let t = old(self).table_for(1, to)->0;
                &&& *final(frame_allocator) == *old(frame_allocator)
                &&& if old(self).table_at(t)[page_index(1, to)] != 0 {
                    r == Err::<(), MemoryError>(MemoryError::TODOError) && *final(self) == *old(self)
                } else {
                    r == Ok::<(), MemoryError>(()) && Self::written(
                        old(self),
                        final(self),
                        t,
                        page_index(1, to),
                        from | flags,
                    )
                }
            },
            ({
                let k = (old(self).first_table_level(to) - 1) as nat;
                k > 0 && old(frame_allocator).succeeds(k) && old(frame_allocator).avoids(
                    k,
                    old(self).reserved_frames(to),
                ) ==> r is Ok && final(self).table_at(final(self).table_for(1, to)->0)
                    == empty_entries().update(page_index(1, to), from | flags)
            }),
            A::used_at_most(
                old(frame_allocator),
                final(frame_allocator),
                (old(self).first_table_level(to) - 1) as nat,
            ),
    {
        let ghost first = self.first_table_level(to);
        let ghost k0 = (first - 1) as nat;
        let ghost fresh = k0 > 0 && frame_allocator.succeeds(k0) && frame_allocator.avoids(
            k0,
            self.reserved_frames(to),
        );
        let mut level: u64 = 1;
        while level <= 4
            invariant
                *self == *old(self),
                *frame_allocator == *old(frame_allocator),
                self.wf(),
                first == self.first_table_level(to),
                k0 == (first - 1) as nat,
                fresh == (k0 > 0 && frame_allocator.succeeds(k0) && frame_allocator.avoids(
                    k0,
                    self.reserved_frames(to),
                )),
                frame_allocator.hands_out_frames(k0),
                !old(self).slot_in_use(to) ==> from % 4096 == 0 && from < phys_limit(),
                1 <= level <= 4,
                forall|l: int| 1 <= l < level ==> self.table_for(l, to) is None,
            decreases 5 - level,
        {
            if let Some(page_table) = self.get_page_table(level, to) {
                assert(level == first);
                let mut current_table = page_table;
                let mut lv = level;
                let ghost mut k: nat = k0;
                proof {
                    frame_allocator.lemma_used_none();
                }
                while lv >= 2
                    invariant
                        Self::keeps_used_entries(old(self), self),
                        self.wf(),
                        1 <= lv <= first <= 4,
                        first == old(self).first_table_level(to),
                        k0 == (first - 1) as nat,
                        fresh == (k0 > 0 && old(frame_allocator).succeeds(k0) && old(frame_allocator).avoids(k0, old(self).reserved_frames(to))),
                        !old(self).slot_in_use(to) ==> from % 4096 == 0 && from < phys_limit(),
                        self.table_for(lv as int, to) == Some(current_table),
                        frame_allocator.hands_out_frames(k),
                        k >= lv - 1,
                        k <= k0,
                        A::used_at_most(old(frame_allocator), frame_allocator, (k0 - k) as nat),
                        forall|j: nat|
                            #![trigger old(frame_allocator).hands_out_frames(j + k0)]
                            old(frame_allocator).hands_out_frames(j + k0)
                                ==> frame_allocator.hands_out_frames(j + k),
                        lv == first ==> *self == *old(self) && *frame_allocator == *old(frame_allocator),
                        fresh ==> {
                            &&& k == lv - 1
                            &&& frame_allocator.succeeds(k)
                            &&& frame_allocator.avoids(
                                k,
                                self.tables_view().dom().insert(current_table),
                            )
                            &&& lv < first ==> !self.tables_view().dom().contains(current_table)
                            &&& lv >= 2 ==> self.table_at(current_table)[page_index(lv, to)] == 0
                        },
                        fresh ==> first >= 2 && old(self).table_for(first, to) == Some(
                            current_table,
                        ) || lv < first,
                    decreases lv,
                {
                    let idx = get_page_index(lv, to);
                    let ghost before = *self;
                    if self.read_unused(current_table, idx) {
                        proof {
                            frame_allocator.lemma_frames_allow_alloc((k - 1) as nat);
                            assert(k == ((k - 1) as nat + 1) as nat);
                        }
                        let ghost alloc_before = *frame_allocator;
                        let res = frame_allocator.allocate();
                        proof {
                            A::lemma_used_chain(
                                old(frame_allocator),
                                &alloc_before,
                                frame_allocator,
                                (k0 - k) as nat,
                                1,
                            );
                            A::lemma_used_more(
                                old(frame_allocator),
                                frame_allocator,
                                (k0 - k + 1) as nat,
                                k0,
                            );
                            assert forall|j: nat|
                                #![trigger old(frame_allocator).hands_out_frames(j + k0)]
                                old(frame_allocator).hands_out_frames(j + k0)
                                    implies frame_allocator.hands_out_frames(
                                    (j + k - 1) as nat,
                                ) by {
                                assert(alloc_before.hands_out_frames(j + k));
                                assert(j + k == ((j + k - 1) as nat + 1) as nat);
                            }
                        }
                        let frame = match res {
                            Ok(frame) => frame,
                            Err(e) => {
                                proof {
                                    assert forall|j: nat|
                                        #![trigger old(frame_allocator).hands_out_frames(j + k0)]
                                        old(frame_allocator).hands_out_frames(j + k0)
                                            implies frame_allocator.hands_out_frames(j) by {
                                        frame_allocator.lemma_fewer_frames((j + k - 1) as nat, j);
                                    }
                                }
                                return Err(e);
                            },
                        };
                        self.write_addr(current_table, idx, frame, flags_rw());
                        proof {
                            lemma_rw_flags_hold_no_address();
                            lemma_frame_entry(frame, WRITABLE | PRESENT | NO_EXECUTE);
                            assert((frame | (WRITABLE | PRESENT | NO_EXECUTE)) != 0) by (bit_vector);
                            Self::lemma_write_keeps_paths(
                                &before,
                                self,
                                current_table,
                                idx as int,
                                frame | (WRITABLE | PRESENT | NO_EXECUTE),
                                lv as int,
                                to,
                            );
                            before.lemma_table_at_len(current_table);
                            assert(self.table_at(current_table)[idx as int] == frame | (WRITABLE
                                | PRESENT | NO_EXECUTE));
                            assert forall|u: u64, i: int|
                                0 <= i < 512 && #[trigger] old(self).table_at(u)[i]
                                    != 0 implies self.table_at(u)[i] == old(self).table_at(u)[i] by {
                                before.lemma_table_at_len(u);
                            }
                            if fresh {
                                assert(self.tables_view().dom() =~= before.tables_view().dom().insert(
                                    current_table,
                                ));
                                assert(self.tables_view().dom().insert(current_table).insert(frame)
                                    =~= before.tables_view().dom().insert(current_table).insert(
                                    frame,
                                ));
                            }
                            k = (k - 1) as nat;
                        }
                    } else {
                        proof {
                            assert(fresh ==> false);
                        }
                    }
                    current_table = self.read_addr(current_table, idx);
                    proof {
                        if fresh && lv - 1 >= 2 {
                            assert(!self.tables_view().dom().contains(current_table));
                            lemma_page_index_bound((lv - 1) as u64, to);
                        }
                    }
                    lv -= 1;
                }
                let idx1 = get_page_index(1, to);
                proof {
                    A::lemma_used_more(old(frame_allocator), frame_allocator, (k0 - k) as nat, k0);
                    assert forall|j: nat|
                        #![trigger old(frame_allocator).hands_out_frames(j + k0)]
                        old(frame_allocator).hands_out_frames(j + k0)
                            implies frame_allocator.hands_out_frames(j) by {
                        frame_allocator.lemma_fewer_frames(j + k, j);
                    }
                }
                if !self.read_unused(current_table, idx1) {
                    return Err(MemoryError::TODOError);
                }
                let ghost before = *self;
                self.write_addr(current_table, idx1, from, flags);
                proof {
                    if fresh {
                        assert(before.table_at(current_table) == empty_entries());
                    }
                    Self::lemma_write_keeps_paths(
                        &before,
                        self,
                        current_table,
                        idx1 as int,
                        from | flags,
                        1,
                        to,
                    );
                    before.lemma_table_at_len(current_table);
                    assert forall|u: u64, i: int|
                        0 <= i < 512 && #[trigger] old(self).table_at(u)[i] != 0 implies self.table_at(
                            u,
                        )[i] == old(self).table_at(u)[i] by {
                        before.lemma_table_at_len(u);
                    }
                }
                return Ok(());
            }
            proof {
                if level == 4 {
                    assert(self.table_for(4, to) is Some);
                }
            }
            level += 1;
        }
        proof {
            assert(false);
        }
        Ok(())
    }

    /// Creates a page table whose level 4 table sits in a frame from `frame_allocator`,
    /// with the recursive entry 511 pointing at that frame.
    pub fn new<A: FrameAllocator>(frame_allocator: &mut A, internal_offset: u64) -> (r: Self)
        requires
            old(frame_allocator).hands_out_frames(1),
            old(frame_allocator).succeeds(1),
        ensures
            r.wf(),
            r.offset() == internal_offset,
            r.lvl4_frame() % 4096 == 0,
            r.lvl4_frame() < phys_limit(),
            r.tables_view().dom() == set![r.lvl4_frame()],
            r.table_at(r.lvl4_frame()) == empty_entries().update(
                511,
                r.lvl4_frame() | (WRITABLE | PRESENT | NO_EXECUTE),
            ),
            forall|j: nat|
                #![trigger old(frame_allocator).hands_out_frames(j + 1)]
                old(frame_allocator).hands_out_frames(j + 1) ==> final(frame_allocator).hands_out_frames(j),
            A::used_at_most(old(frame_allocator), final(frame_allocator), 1),
            A::hands_out(old(frame_allocator), final(frame_allocator), r.lvl4_frame()),
    {
        proof {
            frame_allocator.lemma_frames_allow_alloc(0);
            assert(old(frame_allocator).succeeds((0 + 1) as nat));
            assert(old(frame_allocator).hands_out_frames((0 + 1) as nat));
        }
        let frame = frame_allocator.allocate().unwrap();
        let mut lvl4 = new_page_table();
        let rw = flags_rw();
        proof {
            assert(rw & HUGE_PAGE == 0) by (bit_vector)
                requires
                    rw == 2u64 | 1u64 | 0x8000_0000_0000_0000u64,
            ;
            assert(frame % 4096 == 0);
        }
        table_entry_set_frame(&mut lvl4, 511, frame, rw);
        let mut tables: HashMap<u64, PageTable> = HashMap::new();
        tables.insert(frame, lvl4);
        let r = RecursivePageTable { lvl4: frame, internal_offset, tables };
        proof {
            assert(r.tables_view().dom() =~= set![frame]);
        }
        r
    }

    /// The offset at which the tables are mapped into the virtual address space.
    pub fn internal_offset(&self) -> (r: u64)
        ensures
            r == self.offset(),
    {
        self.internal_offset
    }

    /// The table that the table memory holds at frame `frame`, if it holds one.
    pub fn table_at_frame(&self, frame: u64) -> (r: Option<&PageTable>)
        ensures
            match r {
                Some(t) => self.tables_view().contains_key(frame) && *t == self.tables_view()[frame],
                None => !self.tables_view().contains_key(frame),
            },
    {
        self.tables.get(&frame)
    }

    /// The frames of all tables of the table memory, each once, in no particular order:
    /// the frames that hold the page table in physical memory.
    pub fn table_frames(&self) -> (r: Vec<u64>)
        ensures
            r@.to_set() == self.tables_view().dom(),
            r@.no_duplicates(),
    {
        broadcast use vstd::std_specs::hash::group_hash_axioms;
        let mut frames: Vec<u64> = Vec::new();
        let ghost keys = vstd::std_specs::iter::IteratorSpec::remaining(
            &vstd::std_specs::hash::spec_keys_iter(&self.tables),
        ).unref();
        proof {
            vstd::std_specs::hash::axiom_spec_keys_iter(&self.tables);
        }
        for frame in it: self.tables.keys()
            invariant
                it.seq().unref() == keys,
                keys.to_set() == self.tables_view().dom(),
                keys.no_duplicates(),
                frames@.len() == it.index(),
                frames@.len() <= keys.len(),
                frames@ == keys.take(frames@.len() as int),
        {
            frames.push(*frame);
        }
        proof {
            assert(frames@.len() == keys.len());
            assert(frames@ =~= keys);
        }
        frames
    }

    /// The physical address of the level 4 table.
    pub fn level4_frame(&self) -> (r: u64)
        ensures
            r == self.lvl4_frame(),
    {
        self.lvl4
    }

    /// Maps `pages` contiguous pages from virtual address `to` on to the frames from
    /// `from` on, one `map` at a time, stopping at the first error.
    pub fn map_contiguous<A: FrameAllocator>(
        &mut self,
        pages: usize,
        from: u64,
        to: u64,
        flags: u64,
        frame_allocator: &mut A,
    ) -> (r: Result<(), MemoryError>)
        requires
            old(self).wf(),
            pages * PAGE_SIZE <= usize::MAX,
            pages > 0 ==> from % 4096 == 0,
            pages > 0 ==> from + (pages - 1) * 4096 < phys_limit(),
            pages > 0 ==> is_canonical(to),
            pages_are_canonical(to, pages as int),
            old(frame_allocator).hands_out_frames(3 * pages as nat) || old(self).tables_exist(
                to,
                pages as int,
            ),
        ensures
            Self::keeps_used_entries(old(self), final(self)),
            pages == 0 ==> r is Ok && *final(self) == *old(self) && *final(frame_allocator) == *old(frame_allocator),
            old(self).tables_exist(to, pages as int) ==> *final(frame_allocator) == *old(
                frame_allocator
            ),
            forall|j: nat|
                #![trigger old(frame_allocator).hands_out_frames(j + 3 * pages as nat)]
                old(frame_allocator).hands_out_frames(j + 3 * pages as nat)
                    ==> final(frame_allocator).hands_out_frames(j),
            A::used_at_most(old(frame_allocator), final(frame_allocator), 3 * pages as nat),
            old(self).pages_free(to, pages as int) ==> r is Ok && Self::writes_only(
                old(self),
                final(self),
                to,
                pages as int,
            ),
            ({
                let k = (old(self).first_table_level(to) - 1) as nat;
                pages == 1 && k > 0 && old(frame_allocator).succeeds(k) && old(
                    frame_allocator,
                ).avoids(k, old(self).reserved_frames(to)) ==> r is Ok
            }),
            ({
                let k = (old(self).first_table_level(to) - 1) as nat;
                in_one_table_span(to, pages as int) && k > 0 && old(frame_allocator).succeeds(k)
                    && old(frame_allocator).avoids(k, old(self).reserved_frames(to)) ==> r is Ok
            }),
            r is Ok ==> forall|i: int|
                0 <= i < pages && ((from + 4096 * i) as u64 | flags) != 0 ==> #[trigger] final(self).translation((to + 4096 * i) as u64) == entry_translation(
                    (from + 4096 * i) as u64 | flags,
                    (to + 4096 * i) as u64,
                ) && final(self).leaf_entry((to + 4096 * i) as u64) == Some(
                    (from + 4096 * i) as u64 | flags,
                ),
    {
        let end = pages * PAGE_SIZE;
        let mut page: usize = 0;
        let ghost mut i: int = 0;
        let ghost span_fresh = {
            let k = (old(self).first_table_level(to) - 1) as nat;
            in_one_table_span(to, pages as int) && k > 0 && old(frame_allocator).succeeds(k)
                && old(frame_allocator).avoids(k, old(self).reserved_frames(to))
        };
        proof {
            frame_allocator.lemma_used_none();
        }
        while page < end
            invariant
                span_fresh == {
                    let k = (old(self).first_table_level(to) - 1) as nat;
                    in_one_table_span(to, pages as int) && k > 0 && old(frame_allocator).succeeds(k)
                        && old(frame_allocator).avoids(k, old(self).reserved_frames(to))
                },
                span_fresh && i >= 1 ==> self.table_for(1, to) is Some && forall|m: int|
                    i <= m < pages ==> #[trigger] self.table_for(1, (to + 4096 * m) as u64)
                        == self.table_for(1, to) && self.table_at(self.table_for(1, to)->0)[page_index(
                        1,
                        (to + 4096 * m) as u64,
                    )] == 0,
                self.wf(),
                Self::keeps_used_entries(old(self), self),
                end == pages * 4096,
                page == 4096 * i,
                0 <= i <= pages,
                pages > 0 ==> from % 4096 == 0,
                pages > 0 ==> from + (pages - 1) * 4096 < phys_limit(),
                pages > 0 ==> is_canonical(to),
                pages_are_canonical(to, pages as int),
                frame_allocator.hands_out_frames((3 * (pages - i)) as nat) || forall|m: int|
                    i <= m < pages ==> #[trigger] self.table_for(1, (to + 4096 * m) as u64) is Some,
                i == 0 ==> *self == *old(self) && *frame_allocator == *old(frame_allocator),
                A::used_at_most(old(frame_allocator), frame_allocator, (3 * i) as nat),
                old(self).pages_free(to, pages as int) ==> forall|m: int|
                    i <= m < pages ==> #[trigger] self.table_for(1, (to + 4096 * m) as u64)
                        == old(self).table_for(1, (to + 4096 * m) as u64) && self.table_at(
                        old(self).table_for(1, (to + 4096 * m) as u64)->0,
                    )[page_index(1, (to + 4096 * m) as u64)] == 0,
                forall|j: nat|
                    #![trigger old(frame_allocator).hands_out_frames(j + 3 * pages as nat)]
                    old(frame_allocator).hands_out_frames(j + 3 * pages as nat)
                        ==> frame_allocator.hands_out_frames(j + 3 * (pages - i) as nat),
                old(self).pages_free(to, pages as int) ==> Self::writes_only(old(self), self, to, i),
                old(self).tables_exist(to, pages as int) ==> *frame_allocator == *old(
                    frame_allocator
                ) && forall|m: int|
                    i <= m < pages ==> #[trigger] self.table_for(1, (to + 4096 * m) as u64) is Some,
                forall|k: int|
                    0 <= k < i && ((from + 4096 * k) as u64 | flags) != 0 ==> #[trigger] self.translation(
                        (to + 4096 * k) as u64,
                    ) == entry_translation((from + 4096 * k) as u64 | flags, (to + 4096 * k) as u64)
                        && self.leaf_entry((to + 4096 * k) as u64) == Some((from + 4096 * k) as u64 | flags),
            decreases end - page,
        {
            assert(i < pages) by (nonlinear_arith)
                requires
                    page == 4096 * i,
                    page < end,
                    end == pages * 4096,
            ;
            assert(4096 * i <= 4096 * (pages - 1)) by (nonlinear_arith)
                requires
                    i < pages,
            ;
            let phys = phys_add(from, page as u64);
            assert(is_canonical((to + 4096 * i) as u64) && to + 4096 * i <= u64::MAX);
            let virt = virt_add(to, page as u64);
            let ghost before = *self;
            let ghost k0 = (before.first_table_level(virt) - 1) as nat;
            proof {
                assert(phys % 4096 == 0) by (nonlinear_arith)
                    requires
                        phys == from + 4096 * i,
                        from % 4096 == 0,
                ;
                if frame_allocator.hands_out_frames((3 * (pages - i)) as nat) {
                    frame_allocator.lemma_fewer_frames((3 * (pages - i)) as nat, k0);
                } else {
                    assert(self.table_for(1, (to + 4096 * i) as u64) is Some);
                    frame_allocator.lemma_zero_frames();
                }
            }
            let ghost alloc_before = *frame_allocator;
            let res = self.map(phys, virt, flags, frame_allocator);
            proof {
                A::lemma_used_more(&alloc_before, frame_allocator, k0, 3);
                A::lemma_used_chain(
                    old(frame_allocator),
                    &alloc_before,
                    frame_allocator,
                    (3 * i) as nat,
                    3,
                );
                A::lemma_used_more(
                    old(frame_allocator),
                    frame_allocator,
                    (3 * i + 3) as nat,
                    3 * pages as nat,
                );
                assert forall|j: nat|
                    #![trigger old(frame_allocator).hands_out_frames(j + 3 * pages as nat)]
                    old(frame_allocator).hands_out_frames(j + 3 * pages as nat)
                        implies frame_allocator.hands_out_frames(j + 3 * (pages - i - 1) as nat) by {
                    let rest = (j + 3 * (pages - i) - k0) as nat;
                    assert(alloc_before.hands_out_frames(j + 3 * (pages - i) as nat));
                    assert(alloc_before.hands_out_frames(rest + k0));
                    frame_allocator.lemma_fewer_frames(rest, j + 3 * (pages - i - 1) as nat);
                }
                assert forall|j: nat|
                    #![trigger old(frame_allocator).hands_out_frames(j + 3 * pages as nat)]
                    old(frame_allocator).hands_out_frames(j + 3 * pages as nat)
                        implies frame_allocator.hands_out_frames(j) by {
                    frame_allocator.lemma_fewer_frames(j + 3 * (pages - i - 1) as nat, j);
                }
            }
            proof {
                if old(self).pages_free(to, pages as int) {
                    let t = old(self).table_for(1, (to + 4096 * i) as u64)->0;
                    let idx = page_index(1, (to + 4096 * i) as u64);
                    assert(before.table_for(1, virt) == Some(t));
                    assert(res is Ok);
                    lemma_page_index_bound(1, virt);
                    assert forall|m: int| i + 1 <= m < pages implies #[trigger] self.table_for(
                        1,
                        (to + 4096 * m) as u64,
                    ) == old(self).table_for(1, (to + 4096 * m) as u64) && self.table_at(
                        old(self).table_for(1, (to + 4096 * m) as u64)->0,
                    )[page_index(1, (to + 4096 * m) as u64)] == 0 by {
                        let pm = (to + 4096 * m) as u64;
                        assert(before.table_for(1, pm) == old(self).table_for(1, pm));
                        assert(old(self).table_for(1, pm) is Some);
                        Self::lemma_write_keeps_paths(&before, self, t, idx, phys | flags, 1, pm);
                        assert(self.table_for(1, pm) == old(self).table_for(1, pm));
                        assert(old(self).table_for(1, (to + 4096 * i) as u64) != old(self).table_for(1, pm)
                            || idx != page_index(1, pm));
                        before.lemma_table_at_len(t);
                        let tm = old(self).table_for(1, pm)->0;
                        lemma_page_index_bound(1, pm);
                        assert(tm == t ==> idx != page_index(1, pm));
                        assert(before.table_at(tm)[page_index(1, pm)] == 0);
                        assert(self.table_at(tm) == if tm == t {
                            before.table_at(t).update(idx, phys | flags)
                        } else {
                            before.table_at(tm)
                        });
                        assert(self.table_at(tm)[page_index(1, pm)] == 0);
                    }
                    assert forall|u: u64, j: int|
                        0 <= j < 512 && #[trigger] self.table_at(u)[j] != old(self).table_at(u)[j]
                        implies exists|m: int|
                        0 <= m < i + 1 && #[trigger] old(self).table_for(1, (to + 4096 * m) as u64)
                            == Some(u) && j == page_index(1, (to + 4096 * m) as u64) by {
                        if u == t && j == idx {
                            assert(old(self).table_for(1, (to + 4096 * i) as u64) == Some(u));
                        } else {
                            assert(self.table_at(u)[j] == before.table_at(u)[j]);
                            assert(before.table_at(u)[j] != old(self).table_at(u)[j]);
                        }
                    }
                }
            }
            proof {
                if pages == 1 {
                    assert(i == 0);
                    assert(virt == to);
                }
                if span_fresh {
                    if i == 0 {
                        assert(virt == to);
                    } else {
                        assert(before.table_for(1, virt) == before.table_for(1, to));
                        assert(before.first_table_level(virt) == 1);
                    }
                }
            }
            match res {
                Ok(()) => {},
                Err(e) => {
                    return Err(e);
                },
            }
            proof {
                if span_fresh {
                    if i == 0 {
                        assert(virt == to);
                        let t1 = self.table_for(1, to)->0;
                        assert forall|m: int| i + 1 <= m < pages implies #[trigger] self.table_for(
                            1,
                            (to + 4096 * m) as u64,
                        ) == self.table_for(1, to) && self.table_at(t1)[page_index(
                            1,
                            (to + 4096 * m) as u64,
                        )] == 0 by {
                            let pm = (to + 4096 * m) as u64;
                            assert(page_index(1, pm) == page_index(1, to) + m);
                            self.lemma_same_upper_entries_same_table(pm, to);
                            lemma_page_index_bound(1, pm);
                        }
                    } else {
                        let t1 = before.table_for(1, to)->0;
                        let iv = page_index(1, virt);
                        assert(before.table_for(1, virt) == Some(t1));
                        assert(Self::written(&before, self, t1, iv, phys | flags));
                        lemma_page_index_bound(1, virt);
                        Self::lemma_write_keeps_paths(&before, self, t1, iv, phys | flags, 1, to);
                        assert(page_index(1, (to + 4096 * i) as u64) == page_index(1, to) + i);
                        assert forall|m: int| i + 1 <= m < pages implies #[trigger] self.table_for(
                            1,
                            (to + 4096 * m) as u64,
                        ) == self.table_for(1, to) && self.table_at(t1)[page_index(
                            1,
                            (to + 4096 * m) as u64,
                        )] == 0 by {
                            let pm = (to + 4096 * m) as u64;
                            assert(page_index(1, pm) == page_index(1, to) + m);
                            assert(before.table_for(1, pm) == before.table_for(1, to));
                            Self::lemma_write_keeps_paths(&before, self, t1, iv, phys | flags, 1, pm);
                            before.lemma_table_at_len(t1);
                            lemma_page_index_bound(1, pm);
                        }
                    }
                }
                if old(self).tables_exist(to, pages as int) {
                    assert forall|m: int| i + 1 <= m < pages implies #[trigger] self.table_for(
                        1,
                        (to + 4096 * m) as u64,
                    ) is Some by {
                        assert(before.table_for(1, (to + 4096 * m) as u64) is Some);
                        Self::lemma_kept_entries_keep_paths(&before, self, 1, (to + 4096 * m) as u64);
                    }
                }
                if alloc_before.hands_out_frames((3 * (pages - i)) as nat) {
                    assert(alloc_before.hands_out_frames(
                        ((3 * (pages - i) - k0) as nat + k0) as nat,
                    ));
                    frame_allocator.lemma_fewer_frames(
                        (3 * (pages - i) - k0) as nat,
                        (3 * (pages - i - 1)) as nat,
                    );
                } else {
                    assert forall|m: int| i + 1 <= m < pages implies #[trigger] self.table_for(
                        1,
                        (to + 4096 * m) as u64,
                    ) is Some by {
                        assert(before.table_for(1, (to + 4096 * m) as u64) is Some);
                        Self::lemma_kept_entries_keep_paths(&before, self, 1, (to + 4096 * m) as u64);
                    }
                }
                assert forall|u: u64, j: int|
                    0 <= j < 512 && #[trigger] old(self).table_at(u)[j] != 0 implies self.table_at(u)[j]
                        == old(self).table_at(u)[j] by {
                    before.lemma_table_at_len(u);
                }
                assert forall|k: int|
                    0 <= k < i + 1 && ((from + 4096 * k) as u64 | flags) != 0 implies #[trigger] self.translation(
                        (to + 4096 * k) as u64,
                    ) == entry_translation((from + 4096 * k) as u64 | flags, (to + 4096 * k) as u64)
                        && self.leaf_entry((to + 4096 * k) as u64) == Some((from + 4096 * k) as u64 | flags) by {
                    if k < i {
                        lemma_kept_entries_keep_translations(&before, self, (to + 4096 * k) as u64);
                        lemma_kept_entries_keep_leaf(&before, self, (to + 4096 * k) as u64);
                    }
                }
                i = i + 1;
            }
            page += PAGE_SIZE;
        }
        Ok(())
    }
}

/// Keeping every entry that is in use keeps every translation that exists: a mapped
/// address stays mapped to the same physical address.
pub proof fn lemma_kept_entries_keep_translations(
    old: &RecursivePageTable,
    new: &RecursivePageTable,
    addr: u64,
)
    requires
        RecursivePageTable::keeps_used_entries(old, new),
        old.translation(addr) is Some,
    ensures
        new.translation(addr) == old.translation(addr),
{
    RecursivePageTable::lemma_kept_entries_keep_paths(old, new, 1, addr);
    lemma_page_index_bound(1, addr);
}


/// Keeping every entry that is in use keeps every level 1 entry that is in use.
pub proof fn lemma_kept_entries_keep_leaf(old: &RecursivePageTable, new: &RecursivePageTable, addr: u64)
    requires
        RecursivePageTable::keeps_used_entries(old, new),
        old.leaf_entry(addr) matches Some(e) && e != 0,
    ensures
        new.leaf_entry(addr) == old.leaf_entry(addr),
{
    RecursivePageTable::lemma_kept_entries_keep_paths(old, new, 1, addr);
    lemma_page_index_bound(1, addr);
}

/// A page mapped to a frame translates to that frame plus the offset within the page,
/// when the flags hold no address bits: after a successful `map(from, to, flags, _)`,
/// `translate` of any address in the page at `to` finds it inside the frame at `from`.
pub proof fn lemma_mapped_page_translates(pt: RecursivePageTable, from: u64, to: u64, flags: u64)
    requires
        pt.translation(to) == entry_translation(from | flags, to),
        from % 4096 == 0,
        from < phys_limit(),
        flags & ADDR_MASK == 0,
        flags & PRESENT == PRESENT,
    ensures
        pt.translation(to) == Some((from + to % 4096) as u64),
{
    lemma_frame_entry(from, flags);
    assert((from | flags) != 0) by (bit_vector)
        requires
            flags & 1u64 == 1u64,
    ;
}

} // verus!