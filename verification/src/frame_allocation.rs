//! Page frame allocators. Frames are 4 KiB and are named by their physical base address.
use vstd::prelude::*;

use crate::arch::{phys_add, phys_addr_new, phys_limit};
use crate::bitmap_allocator::{all_bits_are, flag_range_bits, single_unit, BitmapAllocator};
use crate::error::MemoryError;
use crate::memory_map::{is_usable, types_are_valid, MemoryMapEntry, MemoryMapType};
use crate::page_table::RecursivePageTable;
use crate::PAGE_SIZE;

verus! {

/// An allocator of 4 KiB page frames.
pub trait FrameAllocator: Sized {
    /// Whether a call of `allocate` runs without panicking.
    spec fn alloc_safe(&self) -> bool;

    /// Whether the next `k` calls of `allocate` run without panicking and each either fails
    /// or hands out a 4 KiB aligned physical address below the physical limit.
    spec fn hands_out_frames(&self, k: nat) -> bool;

    /// Whether the next `k` calls of `allocate` hand out, when they succeed, frames outside
    /// `used` that differ from each other.
    spec fn avoids(&self, k: nat, used: Set<u64>) -> bool;

    /// Whether the next `k` calls of `allocate` succeed.
    spec fn succeeds(&self, k: nat) -> bool;

    /// A state that promises more frames lets `allocate` run.
    proof fn lemma_frames_allow_alloc(&self, k: nat)
        requires
            self.hands_out_frames(k + 1),
        ensures
            self.alloc_safe(),
    ;

    /// A state that promises `k` frames promises fewer.
    proof fn lemma_fewer_frames(&self, k: nat, j: nat)
        requires
            self.hands_out_frames(k),
            j <= k,
        ensures
            self.hands_out_frames(j),
    ;

    /// Every state promises no frame at all.
    proof fn lemma_zero_frames(&self)
        ensures
            self.hands_out_frames(0),
    ;

    /// Whether `after` is `before` after at most `k` calls of `allocate`.
    spec fn used_at_most(before: &Self, after: &Self, k: nat) -> bool;

    /// No call uses no frame.
    proof fn lemma_used_none(&self)
        ensures
            Self::used_at_most(self, self, 0),
    ;

    /// Using at most `k` frames is using at most `j >= k`.
    proof fn lemma_used_more(before: &Self, after: &Self, k: nat, j: nat)
        requires
            Self::used_at_most(before, after, k),
            k <= j,
        ensures
            Self::used_at_most(before, after, j),
    ;

    /// Uses one after the other add up.
    proof fn lemma_used_chain(a: &Self, b: &Self, c: &Self, k: nat, j: nat)
        requires
            Self::used_at_most(a, b, k),
            Self::used_at_most(b, c, j),
        ensures
            Self::used_at_most(a, c, k + j),
    ;

    /// Whether one allocation that turns `before` into `after` hands out the frame `f`.
    spec fn hands_out(before: &Self, after: &Self, f: u64) -> bool;

    /// Allocates one page frame and returns its base.
    fn allocate(&mut self) -> (r: Result<u64, MemoryError>)
        requires
            old(self).alloc_safe(),
        ensures
            r matches Ok(f) ==> Self::hands_out(old(self), final(self), f),
            forall|k: nat|
                #![trigger old(self).hands_out_frames(k + 1)]
                old(self).hands_out_frames(k + 1) ==> final(self).hands_out_frames(k) && (r matches Ok(
                    f,
                ) ==> f % 4096 == 0 && f < phys_limit()),
            forall|k: nat, used: Set<u64>|
                #![trigger old(self).avoids(k + 1, used)]
                old(self).avoids(k + 1, used) ==> (r matches Ok(f) ==> !used.contains(f)
                    && final(self).avoids(k, used.insert(f))),
            forall|k: nat|
                #![trigger old(self).succeeds(k + 1)]
                old(self).succeeds(k + 1) ==> r is Ok && final(self).succeeds(k),
            Self::used_at_most(old(self), final(self), 1),
    ;

    /// Whether `alloc_contiguous(pages)` runs without panicking.
    spec fn alloc_contiguous_safe(&self, pages: usize) -> bool;

    /// Allocates `pages` contiguous frames and returns the base of the lowest.
    fn alloc_contiguous(&mut self, pages: usize) -> (r: Result<u64, MemoryError>)
        requires
            old(self).alloc_contiguous_safe(pages),
    ;

    /// Whether `free(phys_addr)` runs without panicking.
    spec fn free_safe(&self, phys_addr: u64) -> bool;

    /// Frees the frame with `phys_addr` as its base. The linear allocator only hands out
    /// frames for good and panics.
    fn free(&mut self, phys_addr: u64) -> (r: Result<(), MemoryError>)
        requires
            old(self).free_safe(phys_addr),
    ;

    /// Whether `free_contiguous(phys_addr, pages)` runs without panicking.
    spec fn free_contiguous_safe(&self, phys_addr: u64, pages: usize) -> bool;

    /// Frees `pages` contiguous frames from `phys_addr` on. The linear allocator only
    /// hands out frames for good and panics.
    fn free_contiguous(&mut self, phys_addr: u64, pages: usize) -> (r: Result<(), MemoryError>)
        requires
            old(self).free_contiguous_safe(phys_addr, pages),
    ;
}

/// A linear frame allocator, used to set memory up before better allocators can run. It
/// hands out the frame at its address and moves up past it, so that the frames it has
/// handed out are those from its first address up to its current one.
pub struct LinearFrameAllocator(pub u64);

impl FrameAllocator for LinearFrameAllocator {
    open spec fn alloc_safe(&self) -> bool {
        self.0 + 4096 < phys_limit()
    }

    open spec fn hands_out_frames(&self, k: nat) -> bool {
        k == 0 || (self.0 % 4096 == 0 && self.0 + 4096 * k < phys_limit())
    }

    open spec fn avoids(&self, k: nat, used: Set<u64>) -> bool {
        &&& self.0 + 4096 * k <= u64::MAX
        &&& forall|i: int| 0 <= i < k ==> !used.contains(#[trigger] ((self.0 + 4096 * i) as u64))
    }

    open spec fn succeeds(&self, k: nat) -> bool {
        true
    }

    proof fn lemma_frames_allow_alloc(&self, k: nat) {
        assert(4096 * (k + 1) >= 4096) by (nonlinear_arith);
    }

    /// The address moved up by whole frames, at most `k` of them.
    open spec fn used_at_most(before: &Self, after: &Self, k: nat) -> bool {
        before.0 <= after.0 <= before.0 + 4096 * k && (after.0 - before.0) % 4096 == 0
    }

    /// The frame handed out is the one at the old address, and the address moved past it.
    open spec fn hands_out(before: &Self, after: &Self, f: u64) -> bool {
        f == before.0 && after.0 == before.0 + 4096
    }

    proof fn lemma_used_none(&self) {
    }

    proof fn lemma_used_more(before: &Self, after: &Self, k: nat, j: nat) {
        assert(4096 * k <= 4096 * j) by (nonlinear_arith)
            requires
                k <= j,
        ;
    }

    proof fn lemma_used_chain(a: &Self, b: &Self, c: &Self, k: nat, j: nat) {
        assert(4096 * (k + j) == 4096 * k + 4096 * j) by (nonlinear_arith);
        vstd::arithmetic::div_mod::lemma_mod_adds((c.0 - b.0) as int, (b.0 - a.0) as int, 4096);
    }

    proof fn lemma_zero_frames(&self) {
    }

    proof fn lemma_fewer_frames(&self, k: nat, j: nat) {
        assert(4096 * j <= 4096 * k) by (nonlinear_arith)
            requires
                j <= k,
        ;
    }

    /// Hands out the frame at the allocator's address and moves one frame up.
    fn allocate(&mut self) -> (r: Result<u64, MemoryError>)
        ensures
            r == Ok::<u64, MemoryError>(old(self).0),
            final(self).0 == old(self).0 + 4096,
    {
        let ret = Ok(self.0);
        self.0 = phys_add(self.0, PAGE_SIZE as u64);
        proof {
            assert forall|k: nat| old(self).hands_out_frames(k + 1) implies self.hands_out_frames(
                k,
            ) by {
                assert(4096 * (k + 1) == 4096 * k + 4096) by (nonlinear_arith);
            }
            assert forall|k: nat, used: Set<u64>|
                #![trigger old(self).avoids(k + 1, used)]
                old(self).avoids(k + 1, used) implies !used.contains(
                old(self).0,
            ) && self.avoids(k, used.insert(old(self).0)) by {
                assert(old(self).0 == ((old(self).0 + 4096 * 0) as u64));
                assert(4096 * (k + 1) == 4096 * k + 4096) by (nonlinear_arith);
                assert forall|i: int| 0 <= i < k implies !used.insert(old(self).0).contains(
                    #[trigger] ((self.0 + 4096 * i) as u64),
                ) by {
                    assert(4096 * (i + 1) == 4096 * i + 4096) by (nonlinear_arith);
                    assert(4096 * i < 4096 * k) by (nonlinear_arith)
                        requires
                            i < k,
                    ;
                    assert((self.0 + 4096 * i) as u64 == (old(self).0 + 4096 * (i + 1)) as u64);
                    assert(old(self).avoids(k + 1, used));
                    assert(!used.contains((old(self).0 + 4096 * (i + 1)) as u64));
                }
            }
        }
        ret
    }

    /// The size in bytes must fit `usize` and the new address must stay a valid
    /// physical address.
    open spec fn alloc_contiguous_safe(&self, pages: usize) -> bool {
        pages * PAGE_SIZE <= usize::MAX && self.0 + pages * PAGE_SIZE < phys_limit()
    }

    fn alloc_contiguous(&mut self, pages: usize) -> (r: Result<u64, MemoryError>)
        ensures
            r == Ok::<u64, MemoryError>(old(self).0),
            final(self).0 == old(self).0 + pages * PAGE_SIZE,
            Self::used_at_most(old(self), final(self), pages as nat),
    {
        let ret = Ok(self.0);
        self.0 = phys_add(self.0, (pages * PAGE_SIZE) as u64);
        proof {
            vstd::arithmetic::div_mod::lemma_mod_multiples_basic(pages as int, 4096);
            assert(pages * 4096 == 4096 * pages) by (nonlinear_arith);
        }
        ret
    }

    /// This allocator only makes static allocations: freeing always panics.
    open spec fn free_safe(&self, phys_addr: u64) -> bool {
        false
    }

    fn free(&mut self, phys_addr: u64) -> (r: Result<(), MemoryError>) {
        proof {
            assert(false);
        }
        Err(MemoryError::TODOError)
    }

    /// This allocator only makes static allocations: freeing always panics.
    open spec fn free_contiguous_safe(&self, phys_addr: u64, pages: usize) -> bool {
        false
    }

    fn free_contiguous(&mut self, phys_addr: u64, pages: usize) -> (r: Result<(), MemoryError>) {
        proof {
            assert(false);
        }
        Err(MemoryError::TODOError)
    }
}


/// A linear allocator that moved up by at most `n` frames can still hand out whatever
/// its earlier state could beyond those `n`.
pub proof fn lemma_linear_frames_left(
    a: &LinearFrameAllocator,
    b: &LinearFrameAllocator,
    n: nat,
    j: nat,
)
    requires
        LinearFrameAllocator::used_at_most(a, b, n),
        a.hands_out_frames(j + n),
    ensures
        b.hands_out_frames(j),
{
    if j > 0 {
        assert(4096 * (j + n) == 4096 * j + 4096 * n) by (nonlinear_arith);
        vstd::arithmetic::div_mod::lemma_mod_adds(a.0 as int, (b.0 - a.0) as int, 4096);
    }
}

/// The frame range `base / 4096 .. (base + length) / 4096` of region `i`.
pub open spec fn region_frames(entries: Seq<MemoryMapEntry>, i: int) -> (int, int) {
    ((entries[i].base / 4096) as int, (entries[i].base + entries[i].length) / 4096)
}

/// Whether bit `b` of a new frame allocator's bitmap is cleared by a usable region: it
/// lies in the frame range of one.
pub open spec fn cleared_by_usable(entries: Seq<MemoryMapEntry>, b: int) -> bool {
    exists|i: int|
        0 <= i < entries.len() && is_usable(entries, i) && {
            let (s, e) = region_frames(entries, i);
            s <= b < e
        }
}

/// A frame allocator over a bitmap with one bit per frame, bit `n` for the frame at
/// `n * 4096`. Frames go out and come back by their base address.
pub struct BitmapFrameAllocator(pub BitmapAllocator);

impl BitmapFrameAllocator {
    /// Whether the usable regions of `entries` can be flagged in a bitmap of
    /// `bitmap_size` bytes: their ends fit `u64` and their frame ranges end within the
    /// bitmap.
    pub open spec fn regions_fit(entries: Seq<MemoryMapEntry>, bitmap_size: int) -> bool {
        forall|i: int|
            0 <= i < entries.len() && #[trigger] is_usable(entries, i) ==> {
                let (s, e) = region_frames(entries, i);
                &&& entries[i].base + entries[i].length <= u64::MAX
                &&& e <= bitmap_size * 8
            }
    }

    /// Creates a frame allocator over `bitmap_size` bytes on which no frame is free, then
    /// frees the frames of every usable region of the memory map.
    pub fn new(
        bitmap_size: usize,
        frame_allocator: &mut LinearFrameAllocator,
        page_table: &mut RecursivePageTable,
        mmap_entries: &[MemoryMapEntry],
    ) -> (r: Result<BitmapFrameAllocator, MemoryError>)
        requires
            bitmap_size <= crate::bitmap_allocator::max_bitmap_bytes(),
            old(page_table).wf(),
            BitmapAllocator::new_safe(bitmap_size as int, *old(frame_allocator), *old(page_table)),
            types_are_valid(mmap_entries@),
            Self::regions_fit(mmap_entries@, bitmap_size as int),
        ensures
            RecursivePageTable::keeps_used_entries(old(page_table), final(page_table)),
            LinearFrameAllocator::used_at_most(
                old(frame_allocator),
                final(frame_allocator),
                (4 * BitmapAllocator::bitmap_pages(bitmap_size as int)) as nat,
            ),
            r matches Ok(a) && a.0.wf() && a.0.size_bits() == bitmap_size * 8 && a.0.last() == 0
                && a.0.bits() == Seq::new(
                bitmap_size as nat * 8,
                |b: int| !cleared_by_usable(mmap_entries@, b),
            ),
    {
        let mut allocator = BitmapAllocator::new(bitmap_size, true, frame_allocator, page_table)?;
        let mut k: usize = 0;
        while k < mmap_entries.len()
            invariant
                k <= mmap_entries@.len(),
                types_are_valid(mmap_entries@),
                Self::regions_fit(mmap_entries@, bitmap_size as int),
                allocator.wf(),
                allocator.size_bits() == bitmap_size * 8,
                allocator.last() == 0,
                allocator.bits() == Seq::new(
                    bitmap_size as nat * 8,
                    |b: int| !cleared_by_usable(mmap_entries@.take(k as int), b),
                ),
            decreases mmap_entries@.len() - k,
        {
            let ghost prev = allocator.bits();
            let region = mmap_entries[k];
            if region.get_type() == MemoryMapType::Usable {
                proof {
                    assert(is_usable(mmap_entries@, k as int));
                }
                let range = region.base / 4096..(region.base + region.length) / 4096;
                let res = allocator.flag_range(&range, false);
                res.unwrap();
                proof {
                    let t = mmap_entries@.take(k + 1);
                    assert(t[k as int] == region);
                    assert(is_usable(t, k as int));
                    let (s, e) = region_frames(t, k as int);
                    assert(s == range.start && e == range.end);
                    assert forall|b: int| 0 <= b < bitmap_size * 8 implies #[trigger] allocator.bits()[b]
                        == !cleared_by_usable(mmap_entries@.take(k + 1), b) by {
                        if s <= b < e {
                            assert(cleared_by_usable(t, b));
                        }
                        if cleared_by_usable(mmap_entries@.take(k as int), b) {
                            let i = choose|i: int|
                                0 <= i < k && is_usable(mmap_entries@.take(k as int), i) && {
                                    let (s, e) = region_frames(mmap_entries@.take(k as int), i);
                                    s <= b < e
                                };
                            assert(t[i] == mmap_entries@.take(k as int)[i]);
                            assert(is_usable(t, i));
                        }
                        if cleared_by_usable(t, b) {
                            let i = choose|i: int|
                                0 <= i < t.len() && is_usable(t, i) && {
                                    let (s, e) = region_frames(t, i);
                                    s <= b < e
                                };
                            if i < k {
                                assert(t[i] == mmap_entries@.take(k as int)[i]);
                                assert(is_usable(mmap_entries@.take(k as int), i));
                            }
                        }
                    }
                    assert(allocator.bits() =~= Seq::new(
                        bitmap_size as nat * 8,
                        |b: int| !cleared_by_usable(mmap_entries@.take(k + 1), b),
                    ));
                }
            } else {
                proof {
                    assert(!is_usable(mmap_entries@, k as int));
                    assert forall|b: int| 0 <= b < bitmap_size * 8 implies #[trigger] allocator.bits()[b]
                        == !cleared_by_usable(mmap_entries@.take(k + 1), b) by {
                        let t = mmap_entries@.take(k + 1);
                        if cleared_by_usable(mmap_entries@.take(k as int), b) {
                            let i = choose|i: int|
                                0 <= i < k && is_usable(mmap_entries@.take(k as int), i) && {
                                    let (s, e) = region_frames(mmap_entries@.take(k as int), i);
                                    s <= b < e
                                };
                            assert(t[i] == mmap_entries@.take(k as int)[i]);
                            assert(is_usable(t, i));
                        }
                        if cleared_by_usable(t, b) {
                            let i = choose|i: int|
                                0 <= i < t.len() && is_usable(t, i) && {
                                    let (s, e) = region_frames(t, i);
                                    s <= b < e
                                };
                            assert(i != k);
                            assert(t[i] == mmap_entries@.take(k as int)[i]);
                            assert(is_usable(mmap_entries@.take(k as int), i));
                        }
                    }
                    assert(allocator.bits() =~= Seq::new(
                        bitmap_size as nat * 8,
                        |b: int| !cleared_by_usable(mmap_entries@.take(k + 1), b),
                    ));
                }
            }
            k += 1;
        }
        proof {
            assert(mmap_entries@.take(mmap_entries@.len() as int) =~= mmap_entries@);
        }
        Ok(BitmapFrameAllocator(allocator))
    }
}


impl BitmapFrameAllocator {
    /// What allocating `pages` frames returns: the base address of the first frame of
    /// the units that the bitmap hands out.
    pub open spec fn frame_result(&self, pages: u64) -> Result<u64, MemoryError> {
        match self.0.allocate_result(pages) {
            Ok(p) => Ok((p * 4096) as u64),
            Err(e) => Err(e),
        }
    }
}

impl BitmapFrameAllocator {
    /// Whether the bitmap is well formed and every frame it stands for lies below the
    /// physical limit.
    pub open spec fn frames_fit(&self) -> bool {
        self.0.wf() && self.0.size_bits() * 4096 <= phys_limit()
    }

    /// When the frames fit, allocating runs without panicking.
    pub proof fn lemma_frames_fit_allow_alloc(&self, pages: usize)
        requires
            self.frames_fit(),
            pages >= 1,
        ensures
            self.alloc_contiguous_safe(pages),
    {
        self.0.lemma_scan_result_free(pages as u64);
        if let Ok(p) = self.0.scan_result(pages as u64) {
            assert(p * 4096 < self.0.size_bits() * 4096) by (nonlinear_arith)
                requires
                    p + pages <= self.0.size_bits(),
                    pages >= 1,
            ;
        }
    }
}

impl FrameAllocator for BitmapFrameAllocator {
    /// The bitmap is well formed, one unit can be allocated without panicking, and the
    /// unit found is a valid physical address.
    open spec fn alloc_safe(&self) -> bool {
        self.alloc_contiguous_safe(1)
    }

    /// Every frame of the bitmap lies below the physical limit, so each allocation runs
    /// and any frame it hands out is valid.
    open spec fn hands_out_frames(&self, k: nat) -> bool {
        k == 0 || self.frames_fit()
    }

    /// The frames of the units that the next `k` allocations hand out differ from each
    /// other and lie outside `used`.
    open spec fn avoids(&self, k: nat, used: Set<u64>) -> bool {
        let fs = unit_frames(units_handed_out(self.0.bits(), self.0.last() as int, k));
        &&& self.0.wf()
        &&& fs.no_duplicates()
        &&& forall|i: int| 0 <= i < fs.len() ==> !used.contains(#[trigger] fs[i])
    }

    /// Each of the next `k` allocations finds a unit.
    open spec fn succeeds(&self, k: nat) -> bool {
        &&& self.0.wf()
        &&& units_handed_out(self.0.bits(), self.0.last() as int, k).len() == k
    }

    proof fn lemma_frames_allow_alloc(&self, k: nat) {
        self.lemma_frames_fit_allow_alloc(1);
    }

    proof fn lemma_fewer_frames(&self, k: nat, j: nat) {
    }

    proof fn lemma_zero_frames(&self) {
    }

    /// The bitmap promises nothing of how many frames it hands out.
    open spec fn used_at_most(before: &Self, after: &Self, k: nat) -> bool {
        true
    }

    /// The frame handed out is the one that the bitmap of `before` finds, and its unit is
    /// taken in `after`.
    open spec fn hands_out(before: &Self, after: &Self, f: u64) -> bool {
        &&& before.frame_result(1) == Ok::<u64, MemoryError>(f)
        &&& before.0.allocate_result(1) matches Ok(p) && after.0.bits() == flag_range_bits(
            before.0.bits(),
            p as int,
            p + 1,
            true,
        )
    }

    proof fn lemma_used_none(&self) {
    }

    proof fn lemma_used_more(before: &Self, after: &Self, k: nat, j: nat) {
    }

    proof fn lemma_used_chain(a: &Self, b: &Self, c: &Self, k: nat, j: nat) {
    }

    /// Allocates one unit of the bitmap and hands out the base address of its frame.
    fn allocate(&mut self) -> (r: Result<u64, MemoryError>)
        ensures
            final(self).0.wf(),
            final(self).0.size_bits() == old(self).0.size_bits(),
            r == old(self).frame_result(1),
            old(self).0.allocate_result(1) matches Ok(p) ==> final(self).0.bits()
                == flag_range_bits(old(self).0.bits(), p as int, p + 1, true),
            r is Err ==> final(self).0.bytes() == old(self).0.bytes(),
    {
        proof {
            self.0.lemma_one_unit_scan();
        }
        let ghost before = *self;
        match self.0.allocate(1) {
            Ok(frame) => {
                proof {
                    vstd::arithmetic::div_mod::lemma_mod_multiples_basic(frame as int, 4096);
                    assert(single_unit(before.0.bits(), before.0.last() as int) == Some(
                        frame as int,
                    ));
                    lemma_one_allocation(before, *self, frame as int);
                }
                Ok(phys_addr_new(frame * PAGE_SIZE as u64))
            },
            Err(e) => Err(e),
        }
    }

    /// The bitmap is well formed, the allocation runs without panicking, and the base of
    /// the frame found is a valid physical address.
    open spec fn alloc_contiguous_safe(&self, pages: usize) -> bool {
        &&& self.0.wf()
        &&& self.0.alloc_safe(pages as u64)
        &&& self.0.scan_result(pages as u64) matches Ok(p) ==> p * 4096 < phys_limit()
    }

    /// Allocates `pages` units of the bitmap and hands out the base address of the frame
    /// of the first.
    fn alloc_contiguous(&mut self, pages: usize) -> (r: Result<u64, MemoryError>)
        ensures
            final(self).0.wf(),
            final(self).0.size_bits() == old(self).0.size_bits(),
            r == old(self).frame_result(pages as u64),
            old(self).0.allocate_result(pages as u64) matches Ok(p) ==> final(self).0.bits()
                == flag_range_bits(old(self).0.bits(), p as int, p + pages, true)
                && final(self).0.last() == p + pages,
            r is Err ==> final(self).0.bytes() == old(self).0.bytes(),
    {
        match self.0.allocate(pages as u64) {
            Ok(frame) => Ok(phys_addr_new(frame * PAGE_SIZE as u64)),
            Err(e) => Err(e),
        }
    }

    open spec fn free_safe(&self, phys_addr: u64) -> bool {
        self.0.wf()
    }

    /// Frees the unit of frame `phys_addr / 4096`: a taken unit is cleared; a free one is
    /// a double free, and a frame past the bitmap is out of bounds.
    fn free(&mut self, phys_addr: u64) -> (r: Result<(), MemoryError>)
        ensures
            final(self).0.wf(),
            final(self).0.size_bits() == old(self).0.size_bits(),
            r == (if phys_addr / 4096 >= old(self).0.size_bits() {
                Err(MemoryError::OutOfBounds)
            } else if !old(self).0.bit((phys_addr / 4096) as int) {
                Err(MemoryError::DoubleFree)
            } else {
                Ok(())
            }),
            r is Ok ==> final(self).0.bits() == old(self).0.bits().update(
                (phys_addr / 4096) as int,
                false,
            ),
            r is Err ==> final(self).0.bytes() == old(self).0.bytes(),
    {
        let offset = phys_addr / PAGE_SIZE as u64;
        self.0.free(offset)
    }

    /// The bitmap is well formed and the range end fits `u64`.
    open spec fn free_contiguous_safe(&self, phys_addr: u64, pages: usize) -> bool {
        let offset = phys_addr / 4096;
        &&& self.0.wf()
        &&& offset + pages <= u64::MAX
    }

    /// Frees the units of the frames `phys_addr / 4096` to that plus `pages`: when all of
    /// them are taken they are cleared; a range with a free unit is a double free, and a
    /// range past the bitmap is out of bounds.
    fn free_contiguous(&mut self, phys_addr: u64, pages: usize) -> (r: Result<(), MemoryError>)
        ensures
            final(self).0.wf(),
            final(self).0.size_bits() == old(self).0.size_bits(),
            r == (if phys_addr / 4096 + pages > old(self).0.bound() {
                Err::<(), MemoryError>(MemoryError::OutOfBounds)
            } else if !all_bits_are(
                old(self).0.bits(),
                (phys_addr / 4096) as int,
                phys_addr / 4096 + pages,
                true,
            ) {
                Err(MemoryError::DoubleFree)
            } else {
                Ok(())
            }),
            r is Ok ==> final(self).0.bits() == flag_range_bits(
                old(self).0.bits(),
                (phys_addr / 4096) as int,
                phys_addr / 4096 + pages,
                false,
            ),
            r is Err ==> final(self).0.bytes() == old(self).0.bytes(),
    {
        let offset = phys_addr / PAGE_SIZE as u64;
        self.0.free_range(&(offset..(offset + pages as u64)))
    }
}

/// The units that `k` one-unit allocations from the bits `bits`, with the search starting
/// at `last`, hand out in order, up to the first one that finds nothing.
pub open spec fn units_handed_out(bits: Seq<bool>, last: int, k: nat) -> Seq<int>
    decreases k,
{
    if k == 0 {
        Seq::empty()
    } else {
        match single_unit(bits, last) {
            None => Seq::empty(),
            Some(p) => seq![p] + units_handed_out(bits.update(p, true), p + 1, (k - 1) as nat),
        }
    }
}

/// The base addresses of the frames of `units`.
pub open spec fn unit_frames(units: Seq<int>) -> Seq<u64> {
    units.map_values(|u: int| (u * 4096) as u64)
}

/// Whether `k` one-frame allocations from a bitmap whose bits are `bits`, with the search
/// starting at `last`, all succeed and hand out frames that differ from each other and lie
/// outside `used`.
pub open spec fn frames_come_fresh(bits: Seq<bool>, last: int, k: nat, used: Set<u64>) -> bool {
    let fs = unit_frames(units_handed_out(bits, last, k));
    &&& fs.len() == k
    &&& fs.no_duplicates()
    &&& forall|i: int| 0 <= i < fs.len() ==> !used.contains(#[trigger] fs[i])
}

/// One allocation that hands out unit `p` leaves the allocations after it to hand out
/// the rest of what the earlier state promised.
proof fn lemma_one_allocation(before: BitmapFrameAllocator, after: BitmapFrameAllocator, p: int)
    requires
        before.0.wf(),
        after.0.wf(),
        single_unit(before.0.bits(), before.0.last() as int) == Some(p),
        0 <= p,
        p + 1 <= before.0.size_bits(),
        after.0.bits() == flag_range_bits(before.0.bits(), p, p + 1, true),
        after.0.last() == p + 1,
    ensures
        forall|k: nat| #![trigger before.succeeds(k + 1)] before.succeeds(k + 1) ==> after.succeeds(k),
        forall|k: nat, used: Set<u64>|
            #![trigger before.avoids(k + 1, used)]
            before.avoids(k + 1, used) ==> !used.contains((p * 4096) as u64) && after.avoids(
                k,
                used.insert((p * 4096) as u64),
            ),
{
    let bits = before.0.bits();
    let l = before.0.last() as int;
    assert(bits.len() == before.0.size_bits());
    assert(after.0.bits() =~= bits.update(p, true));
    assert forall|k: nat| #![trigger units_handed_out(bits, l, k + 1)]
        units_handed_out(bits, l, k + 1) == seq![p] + units_handed_out(
            after.0.bits(),
            after.0.last() as int,
            k,
        ) by {
    }
    assert forall|k: nat, used: Set<u64>|
        #![trigger before.avoids(k + 1, used)]
        before.avoids(k + 1, used) implies !used.contains((p * 4096) as u64) && after.avoids(
            k,
            used.insert((p * 4096) as u64),
        ) by {
        let us = units_handed_out(bits, l, k + 1);
        let rest = units_handed_out(after.0.bits(), after.0.last() as int, k);
        let fs = unit_frames(us);
        let fr = unit_frames(rest);
        let f = (p * 4096) as u64;
        assert(us == seq![p] + rest);
        assert(fs =~= seq![f] + fr);
        assert(fs[0] == f);
        assert forall|i: int| 0 <= i < fr.len() implies !used.insert(f).contains(#[trigger] fr[i]) by {
            assert(fs[i + 1] == fr[i]);
            assert(fs[0] != fs[i + 1]);
        }
        assert forall|i: int, j: int| 0 <= i < fr.len() && 0 <= j < fr.len() && i != j implies fr[i]
            != fr[j] by {
            assert(fs[i + 1] == fr[i]);
            assert(fs[j + 1] == fr[j]);
        }
    }
}

} // verus!
