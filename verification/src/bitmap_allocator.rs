//! A bitmap allocator: bit `i` of the bitmap stands for unit `i` (a page frame or a
//! virtual page); a set bit means the unit is taken.
use core::ops::Range;
use vstd::prelude::*;

use crate::arch::{
    align_up, is_canonical, lemma_eight_is_power_of_two, phys_limit, virt_addr_new, PRESENT,
    WRITABLE,
};
use crate::error::MemoryError;
use crate::frame_allocation::{FrameAllocator, LinearFrameAllocator};
use crate::page_table::{pages_are_canonical, RecursivePageTable};
use crate::size_in_pages;

verus! {

/// The largest bitmap, in bytes, that an allocator holds (enough for 2^55 units).
pub open spec fn max_bitmap_bytes() -> int {
    0x10_0000_0000_0000
}

/// Whether bit `k` (0 is the least significant) of `b` is set.
pub open spec fn byte_bit(b: u8, k: u8) -> bool {
    b & (1u8 << k) != 0u8
}

/// Bit `i` of a bitmap kept as bytes, least significant bit first.
pub open spec fn bitmap_bit(bytes: Seq<u8>, i: int) -> bool {
    byte_bit(bytes[i / 8], (i % 8) as u8)
}

/// The bits of a bitmap kept as bytes.
pub open spec fn bits_of(bytes: Seq<u8>) -> Seq<bool> {
    Seq::new(bytes.len() * 8, |i: int| bitmap_bit(bytes, i))
}

proof fn lemma_bits_of_update(bytes: Seq<u8>, k: int, v: u8)
    requires
        0 <= k < bytes.len(),
    ensures
        bits_of(bytes.update(k, v)).len() == bits_of(bytes).len(),
        forall|i: int|
            0 <= i < bytes.len() * 8 ==> #[trigger] bits_of(bytes.update(k, v))[i] == if i / 8 == k {
                byte_bit(v, (i % 8) as u8)
            } else {
                bits_of(bytes)[i]
            },
{
}

proof fn lemma_bits_determine_bytes(a: Seq<u8>, b: Seq<u8>)
    requires
        a.len() == b.len(),
        bits_of(a) == bits_of(b),
    ensures
        a == b,
{
    assert forall|k: int| 0 <= k < a.len() implies a[k] == b[k] by {
        assert forall|j: u8| j < 8 implies byte_bit(a[k], j) == byte_bit(b[k], j) by {
            let i = 8 * k + j;
            assert(i / 8 == k);
            assert(i % 8 == j as int);
            assert(((i % 8) as u8) == j);
            assert(bits_of(a)[i] == bitmap_bit(a, i));
            assert(bits_of(b)[i] == bitmap_bit(b, i));
            assert(bits_of(a)[i] == bits_of(b)[i]);
        }
        lemma_bytes_equal_by_bits(a[k], b[k]);
    }
    assert(a =~= b);
}

proof fn lemma_bytes_equal_by_bits(x: u8, y: u8)
    requires
        forall|j: u8| j < 8 ==> byte_bit(x, j) == byte_bit(y, j),
    ensures
        x == y,
{
    assert(byte_bit(x, 0) == byte_bit(y, 0) && byte_bit(x, 1) == byte_bit(y, 1) && byte_bit(x, 2)
        == byte_bit(y, 2) && byte_bit(x, 3) == byte_bit(y, 3) && byte_bit(x, 4) == byte_bit(y, 4)
        && byte_bit(x, 5) == byte_bit(y, 5) && byte_bit(x, 6) == byte_bit(y, 6) && byte_bit(x, 7)
        == byte_bit(y, 7));
    assert(((x & (1u8 << 0u8) != 0u8) == (y & (1u8 << 0u8) != 0u8) && (x & (1u8 << 1u8) != 0u8)
        == (y & (1u8 << 1u8) != 0u8) && (x & (1u8 << 2u8) != 0u8) == (y & (1u8 << 2u8) != 0u8) && (x
        & (1u8 << 3u8) != 0u8) == (y & (1u8 << 3u8) != 0u8) && (x & (1u8 << 4u8) != 0u8) == (y & (1u8
        << 4u8) != 0u8) && (x & (1u8 << 5u8) != 0u8) == (y & (1u8 << 5u8) != 0u8) && (x & (1u8
        << 6u8) != 0u8) == (y & (1u8 << 6u8) != 0u8) && (x & (1u8 << 7u8) != 0u8) == (y & (1u8
        << 7u8) != 0u8)) ==> x == y) by (bit_vector);
}

proof fn lemma_all_bits_are_extend(bits: Seq<bool>, start: int, end: int, set: bool)
    requires
        start <= end,
    ensures
        all_bits_are(bits, start, end + 1, set) == (all_bits_are(bits, start, end, set) && bits[end]
            == set),
{
    if all_bits_are(bits, start, end, set) && bits[end] == set {
        assert forall|i: int| start <= i < end + 1 implies bits[i] == set by {
            if i < end {
                assert(start <= i < end);
            }
        }
    }
}

/// `s` rounded up to a multiple of eight.
pub open spec fn round_up8(s: int) -> int {
    s + (8 - s % 8) % 8
}

/// `e` rounded down to a multiple of eight.
pub open spec fn round_down8(e: int) -> int {
    e - e % 8
}

/// The bits after `flag_range(start..end, flag)`: every bit of the range equals `flag`,
/// and every other bit keeps its value.
pub open spec fn flag_range_bits(bits: Seq<bool>, start: int, end: int, flag: bool) -> Seq<bool> {
    Seq::new(bits.len(), |i: int| if start <= i < end { flag } else { bits[i] })
}

/// Whether every bit of `start..end` equals `set`.
pub open spec fn all_bits_are(bits: Seq<bool>, start: int, end: int, set: bool) -> bool {
    forall|i: int| start <= i < end ==> bits[i] == set
}

proof fn lemma_byte_or(b: u8, k: u8, j: u8)
    requires
        k < 8,
        j < 8,
    ensures
        byte_bit(b | (1u8 << k), j) == (j == k || byte_bit(b, j)),
        b | 0u8 == b,
{
    assert((b | (1u8 << k)) & (1u8 << j) != 0u8 <==> (j == k || b & (1u8 << j) != 0u8))
        by (bit_vector)
        requires
            k < 8,
            j < 8,
    ;
    assert(b | 0u8 == b) by (bit_vector);
}

proof fn lemma_byte_and_not(b: u8, k: u8, j: u8)
    requires
        k < 8,
        j < 8,
    ensures
        byte_bit(b & !(1u8 << k), j) == (j != k && byte_bit(b, j)),
{
    assert((b & !(1u8 << k)) & (1u8 << j) != 0u8 <==> (j != k && b & (1u8 << j) != 0u8))
        by (bit_vector)
        requires
            k < 8,
            j < 8,
    ;
}

proof fn lemma_full_and_empty_bytes(j: u8)
    requires
        j < 8,
    ensures
        byte_bit(0xFFu8, j),
        !byte_bit(0u8, j),
{
    assert(0xFFu8 & (1u8 << j) != 0u8) by (bit_vector)
        requires
            j < 8,
    ;
    assert(0u8 & (1u8 << j) == 0u8) by (bit_vector);
}

proof fn lemma_byte_is_uniform(b: u8)
    ensures
        (b == 0xFFu8) <==> (forall|j: u8| j < 8 ==> #[trigger] byte_bit(b, j)),
        (b == 0u8) <==> (forall|j: u8| j < 8 ==> !#[trigger] byte_bit(b, j)),
{
    assert((b == 0xFFu8) == (b & (1u8 << 0u8) != 0u8 && b & (1u8 << 1u8) != 0u8 && b & (1u8
        << 2u8) != 0u8 && b & (1u8 << 3u8) != 0u8 && b & (1u8 << 4u8) != 0u8 && b & (1u8 << 5u8)
        != 0u8 && b & (1u8 << 6u8) != 0u8 && b & (1u8 << 7u8) != 0u8)) by (bit_vector);
    assert((b == 0u8) == (b & (1u8 << 0u8) == 0u8 && b & (1u8 << 1u8) == 0u8 && b & (1u8 << 2u8)
        == 0u8 && b & (1u8 << 3u8) == 0u8 && b & (1u8 << 4u8) == 0u8 && b & (1u8 << 5u8) == 0u8
        && b & (1u8 << 6u8) == 0u8 && b & (1u8 << 7u8) == 0u8)) by (bit_vector);
    assert(byte_bit(b, 0) && byte_bit(b, 1) && byte_bit(b, 2) && byte_bit(b, 3) && byte_bit(b, 4)
        && byte_bit(b, 5) && byte_bit(b, 6) && byte_bit(b, 7) ==> b == 0xFFu8);
    assert(!byte_bit(b, 0) && !byte_bit(b, 1) && !byte_bit(b, 2) && !byte_bit(b, 3) && !byte_bit(
        b,
        4,
    ) && !byte_bit(b, 5) && !byte_bit(b, 6) && !byte_bit(b, 7) ==> b == 0u8);
    assert forall|j: u8| j < 8 implies (b == 0xFFu8 ==> #[trigger] byte_bit(b, j)) && (b == 0u8
        ==> !byte_bit(b, j)) by {
        if j == 0 {
        } else if j == 1 {
        } else if j == 2 {
        } else if j == 3 {
        } else if j == 4 {
        } else if j == 5 {
        } else if j == 6 {
        } else {
            assert(j == 7);
        }
    }
}

/// Whether a search over the cells `0..n`, where cell `j` is taken when `taken(j)`, can
/// stop at cell `s`: a search restarts only at the first cell and right after a taken
/// cell, and it stops where the next `target` cells all lie below `n` and are all free.
pub open spec fn run_start(taken: spec_fn(int) -> bool, n: int, target: int, s: int) -> bool {
    &&& 0 <= s < n
    &&& s + target <= n
    &&& (s == 0 || taken(s - 1))
    &&& forall|k: int| s <= k < s + target ==> !#[trigger] taken(k)
}

/// Whether `s` is the first cell at which such a search stops.
pub open spec fn first_run_start(taken: spec_fn(int) -> bool, n: int, target: int, s: int) -> bool {
    &&& run_start(taken, n, target, s)
    &&& forall|t: int| 0 <= t < s ==> !run_start(taken, n, target, t)
}

/// Whether such a search stops anywhere.
pub open spec fn has_run_start(taken: spec_fn(int) -> bool, n: int, target: int) -> bool {
    exists|s: int| run_start(taken, n, target, s)
}

/// The cell at which such a search stops, if it stops.
pub open spec fn first_run(taken: spec_fn(int) -> bool, n: int, target: int) -> Option<int> {
    if has_run_start(taken, n, target) {
        Some(choose|s: int| first_run_start(taken, n, target, s))
    } else {
        None
    }
}

proof fn lemma_first_run_is(taken: spec_fn(int) -> bool, n: int, target: int, s: int)
    requires
        first_run_start(taken, n, target, s),
    ensures
        first_run(taken, n, target) == Some(s),
{
    let c = choose|t: int| first_run_start(taken, n, target, t);
    assert(first_run_start(taken, n, target, c));
    if c < s {
        assert(!run_start(taken, n, target, c));
    } else if s < c {
        assert(!run_start(taken, n, target, s));
    }
}

proof fn lemma_first_below(taken: spec_fn(int) -> bool, n: int, target: int, s: int)
    requires
        run_start(taken, n, target, s),
    ensures
        exists|t: int| t <= s && first_run_start(taken, n, target, t),
    decreases s,
{
    if exists|t: int| 0 <= t < s && run_start(taken, n, target, t) {
        let t = choose|t: int| 0 <= t < s && run_start(taken, n, target, t);
        lemma_first_below(taken, n, target, t);
        let u = choose|u: int| u <= t && first_run_start(taken, n, target, u);
        assert(u <= s && first_run_start(taken, n, target, u));
    } else {
        assert(first_run_start(taken, n, target, s));
    }
}

proof fn lemma_first_run_found(taken: spec_fn(int) -> bool, n: int, target: int)
    requires
        has_run_start(taken, n, target),
    ensures
        first_run(taken, n, target) is Some,
        first_run_start(taken, n, target, first_run(taken, n, target)->0),
{
    let s = choose|s: int| run_start(taken, n, target, s);
    lemma_first_below(taken, n, target, s);
}

/// A bitmap of `size` bits kept in `size / 8` bytes, with the position after the last
/// allocation, where the next search starts.
pub struct BitmapAllocator {
    bitmap: Vec<u8>,
    size: u64,
    last_allocated: u64,
}

impl BitmapAllocator {
    /// The bytes of the bitmap.
    pub closed spec fn bytes(&self) -> Seq<u8> {
        self.bitmap@
    }

    /// The number of bits that the bitmap holds.
    pub closed spec fn size_bits(&self) -> u64 {
        self.size
    }

    /// The position after the last allocation.
    pub closed spec fn last(&self) -> u64 {
        self.last_allocated
    }

    /// Bit `i` of the bitmap.
    pub open spec fn bit(&self, i: int) -> bool {
        bitmap_bit(self.bytes(), i)
    }

    /// The bits of the bitmap, in order.
    pub open spec fn bits(&self) -> Seq<bool> {
        bits_of(self.bytes())
    }

    /// The allocator's invariant: `size` counts the bits of the bytes, the bitmap fits
    /// the limit, and the last allocation ends within the bitmap.
    pub open spec fn wf(&self) -> bool {
        &&& self.size_bits() == self.bytes().len() * 8
        &&& self.bytes().len() <= max_bitmap_bytes()
        &&& self.last() <= self.size_bits()
    }

    /// The bound that the allocator checks bit numbers against: the number of bits.
    pub open spec fn bound(&self) -> int {
        self.size_bits() as int
    }

    /// Builds an allocator over `size` bytes, all taken when `set_at_init` holds and all
    /// free otherwise.
    pub fn with_bitmap(size: usize, set_at_init: bool) -> (r: Self)
        requires
            size <= max_bitmap_bytes(),
        ensures
            r.wf(),
            r.size_bits() == size * 8,
            r.last() == 0,
            r.bits() == Seq::new(size as nat * 8, |i: int| set_at_init),
    {
        let fill: u8 = if set_at_init {
            0xFF
        } else {
            0
        };
        let mut bitmap: Vec<u8> = Vec::new();
        let mut k: usize = 0;
        while k < size
            invariant
                k <= size,
                bitmap@ == Seq::new(k as nat, |j: int| fill),
            decreases size - k,
        {
            bitmap.push(fill);
            k += 1;
        }
        let r = BitmapAllocator { bitmap, size: size as u64 * 8, last_allocated: 0 };
        assert forall|i: int| 0 <= i < size * 8 implies #[trigger] r.bits()[i] == set_at_init by {
            lemma_full_and_empty_bytes((i % 8) as u8);
        }
        assert(r.bits() =~= Seq::new(size as nat * 8, |i: int| set_at_init));
        r
    }

    /// Whether `bit` is a bit of the bitmap.
    #[inline(always)]
    fn in_range(&self, bit: u64) -> (r: bool)
        requires
            self.wf(),
        ensures
            r == (bit < self.bound()),
    {
        bit < self.size
    }

    /// Whether the range ends within the bitmap.
    #[inline(always)]
    fn range_in_bounds(&self, range: &Range<u64>) -> (r: bool)
        requires
            self.wf(),
        ensures
            r == (range.end <= self.bound()),
    {
        range.end <= self.size
    }

    /// Whether bit `bit` equals `set`. Numbers from the size on are out of bounds.
    pub fn check(&self, bit: u64, set: bool) -> (r: Result<bool, MemoryError>)
        requires
            self.wf(),
        ensures
            bit >= self.bound() ==> r == Err::<bool, MemoryError>(MemoryError::OutOfBounds),
            bit < self.bound() ==> r == Ok::<bool, MemoryError>(set == self.bit(bit as int)),
    {
        if !self.in_range(bit) {
            return Err(MemoryError::OutOfBounds);
        }
        assert(bit / 8 < self.bitmap.len());
        let byte = self.bitmap[(bit / 8) as usize];
        let mask: u8 = 1u8 << ((bit % 8) as u8);
        Ok(set == ((byte & mask) != 0))
    }

    /// Sets bit `bit` to `flag`, leaving every other bit as it was. Numbers from the size
    /// on are out of bounds.
    pub fn flag(&mut self, bit: u64, flag: bool) -> (r: Result<(), MemoryError>)
        requires
            old(self).wf(),
        ensures
            final(self).wf(),
            final(self).size_bits() == old(self).size_bits(),
            final(self).last() == old(self).last(),
            bit >= old(self).bound() ==> r == Err::<(), MemoryError>(MemoryError::OutOfBounds)
                && final(self).bytes() == old(self).bytes(),
            bit < old(self).bound() ==> r == Ok::<(), MemoryError>(()) && final(self).bits()
                == old(self).bits().update(bit as int, flag),
    {
        if !self.in_range(bit) {
            return Err(MemoryError::OutOfBounds);
        }
        assert(bit / 8 < self.bitmap.len());
        let idx = (bit / 8) as usize;
        let k: u8 = (bit % 8) as u8;
        let mask: u8 = 1u8 << k;
        let old_byte = self.bitmap[idx];
        let new_byte = if flag {
            old_byte | mask
        } else {
            old_byte & !mask
        };
        self.bitmap.set(idx, new_byte);
        proof {
            let ob = old(self).bits();
            let expected = ob.update(bit as int, flag);
            assert forall|i: int| 0 <= i < self.size_bits() implies self.bit(i) == expected[i] by {
                if i / 8 == idx as int {
                    lemma_byte_or(old_byte, k, (i % 8) as u8);
                    lemma_byte_and_not(old_byte, k, (i % 8) as u8);
                }
            }
            assert(self.bits() =~= expected);
        }
        Ok(())
    }

    /// Whether `flag_range(start..end, _)` runs without panicking: the range is out of
    /// bounds, or it is ordered.
    pub open spec fn flag_range_safe(&self, start: int, end: int) -> bool {
        end > self.bound() || start <= end
    }

    /// Whether `check_range(start..end, _)` runs without panicking: the range is out of
    /// bounds, or it is ordered.
    pub open spec fn check_range_safe(&self, start: int, end: int, set: bool) -> bool {
        end > self.bound() || start <= end
    }

    /// Sets every bit of `range` to `flag`: the unaligned bits at its ends one by one,
    /// the whole bytes between them at once.
    #[verifier::spinoff_prover]
    #[verifier::rlimit(40)]
    pub fn flag_range(&mut self, range: &Range<u64>, flag: bool) -> (r: Result<(), MemoryError>)
        requires
            old(self).wf(),
            old(self).flag_range_safe(range.start as int, range.end as int),
        ensures
            final(self).wf(),
            final(self).size_bits() == old(self).size_bits(),
            final(self).last() == old(self).last(),
            range.end > old(self).bound() ==> r == Err::<(), MemoryError>(MemoryError::OutOfBounds)
                && final(self).bytes() == old(self).bytes(),
            range.end <= old(self).bound() ==> r == Ok::<(), MemoryError>(()) && final(self).bits()
                == flag_range_bits(old(self).bits(), range.start as int, range.end as int, flag),
    {
        if !self.range_in_bounds(range) {
            return Err(MemoryError::OutOfBounds);
        }
        let ghost ob = old(self).bits();
        let ghost start = range.start as int;
        let ghost end = range.end as int;
        if range.end - range.start < 8 {
            let mut bit = range.start;
            while bit < range.end
                invariant
                    self.wf(),
                    start == range.start as int,
                    ob == old(self).bits(),
                    self.size_bits() == old(self).size_bits(),
                    self.last() == old(self).last(),
                    range.start <= bit <= range.end,
                    range.start == range.end || range.end <= self.size_bits(),
                    self.bits() == Seq::new(
                        ob.len(),
                        |i: int|
                            if start <= i < bit {
                                flag
                            } else {
                                ob[i]
                            },
                    ),
                decreases range.end - bit,
            {
                match self.flag(bit, flag) {
                    Ok(()) => {},
                    Err(e) => {
                        return Err(e);
                    },
                }
                proof {
                    let prev = Seq::new(
                        ob.len(),
                        |i: int|
                            if start <= i < bit {
                                flag
                            } else {
                                ob[i]
                            },
                    );
                    assert(bit < self.size_bits());
                    assert(self.bits() =~= Seq::new(
                        ob.len(),
                        |i: int|
                            if start <= i < bit + 1 {
                                flag
                            } else {
                                ob[i]
                            },
                    )) by {
                        assert(self.bits() == prev.update(bit as int, flag));
                    }
                }
                bit += 1;
            }
            assert(self.bits() =~= flag_range_bits(ob, start, end, flag));
            return Ok(());
        }
        let byte_aligned_start = range.start + (8 - range.start % 8) % 8;
        let byte_aligned_end = range.end - range.end % 8;
        let ghost bas = byte_aligned_start as int;
        let ghost bae = byte_aligned_end as int;
        assert(bas <= bae);
        //flag unaligned starting bits
        let mut bit = range.start;
        while bit < byte_aligned_start
            invariant
                self.wf(),
                start == range.start as int,
                bas == byte_aligned_start as int,
                bae == byte_aligned_end as int,
                ob == old(self).bits(),
                self.size_bits() == old(self).size_bits(),
                self.last() == old(self).last(),
                range.start <= bit <= byte_aligned_start,
                byte_aligned_start <= byte_aligned_end <= range.end <= self.size_bits(),
                self.bits() == Seq::new(
                    ob.len(),
                    |i: int|
                        if start <= i < bit {
                            flag
                        } else {
                            ob[i]
                        },
                ),
            decreases byte_aligned_start - bit,
        {
            match self.flag(bit, flag) {
                Ok(()) => {},
                Err(e) => {
                    return Err(e);
                },
            }
            proof {
                assert(self.bits() =~= Seq::new(
                    ob.len(),
                    |i: int|
                        if start <= i < bit + 1 {
                            flag
                        } else {
                            ob[i]
                        },
                ));
            }
            bit += 1;
        }
        let fill: u8 = if flag {
            0xFF
        } else {
            0
        };
        assert(byte_aligned_end / 8 <= self.bitmap.len());
        let mut k: usize = (byte_aligned_start / 8) as usize;
        let k_end: usize = (byte_aligned_end / 8) as usize;
        while k < k_end
            invariant
                self.wf(),
                start == range.start as int,
                bas == byte_aligned_start as int,
                bae == byte_aligned_end as int,
                ob == old(self).bits(),
                self.size_bits() == old(self).size_bits(),
                self.last() == old(self).last(),
                bas / 8 <= k <= k_end,
                k_end == bae / 8,
                bas % 8 == 0,
                bae % 8 == 0,
                byte_aligned_start <= byte_aligned_end <= range.end <= self.size_bits(),
                fill == (if flag {
                    0xFFu8
                } else {
                    0u8
                }),
                self.bits() == Seq::new(
                    ob.len(),
                    |i: int|
                        if start <= i < bas {
                            flag
                        } else if bas <= i < 8 * k {
                            flag
                        } else {
                            ob[i]
                        },
                ),
            decreases k_end - k,
        {
            let ghost before_bytes = self.bytes();
            self.bitmap.set(k, fill);
            proof {
                lemma_bits_of_update(before_bytes, k as int, fill);
                assert forall|i: int| 0 <= i < self.size_bits() implies #[trigger] self.bits()[i] == (
                if start <= i < bas {
                    flag
                } else if bas <= i < 8 * (k + 1) {
                    flag
                } else {
                    ob[i]
                }) by {
                    if i / 8 == k as int {
                        lemma_full_and_empty_bytes((i % 8) as u8);
                    }
                }
                assert(self.bits() =~= Seq::new(
                    ob.len(),
                    |i: int|
                        if start <= i < bas {
                            flag
                        } else if bas <= i < 8 * (k + 1) {
                            flag
                        } else {
                            ob[i]
                        },
                ));
            }
            k += 1;
        }
        //flag unaligned trailing bits
        let mut bit = byte_aligned_end;
        while bit < range.end
            invariant
                self.wf(),
                start == range.start as int,
                bas == byte_aligned_start as int,
                bae == byte_aligned_end as int,
                ob == old(self).bits(),
                self.size_bits() == old(self).size_bits(),
                self.last() == old(self).last(),
                byte_aligned_end <= bit <= range.end <= self.size_bits(),
                self.bits() == Seq::new(
                    ob.len(),
                    |i: int|
                        if start <= i < bas {
                            flag
                        } else if bas <= i < bae {
                            flag
                        } else if bae <= i < bit {
                            flag
                        } else {
                            ob[i]
                        },
                ),
            decreases range.end - bit,
        {
            match self.flag(bit, flag) {
                Ok(()) => {},
                Err(e) => {
                    return Err(e);
                },
            }
            proof {
                assert(self.bits() =~= Seq::new(
                    ob.len(),
                    |i: int|
                        if start <= i < bas {
                            flag
                        } else if bas <= i < bae {
                            flag
                        } else if bae <= i < bit + 1 {
                            flag
                        } else {
                            ob[i]
                        },
                ));
            }
            bit += 1;
        }
        assert(self.bits() =~= flag_range_bits(ob, start, end, flag));
        Ok(())
    }

    /// Whether every bit of `range` equals `set`.
    #[verifier::spinoff_prover]
    #[verifier::rlimit(30)]
    pub fn check_range(&self, range: &Range<u64>, set: bool) -> (r: Result<bool, MemoryError>)
        requires
            self.wf(),
            self.check_range_safe(range.start as int, range.end as int, set),
        ensures
            range.end > self.bound() ==> r == Err::<bool, MemoryError>(MemoryError::OutOfBounds),
            range.end <= self.bound() ==> r == Ok::<bool, MemoryError>(
                all_bits_are(self.bits(), range.start as int, range.end as int, set),
            ),
    {
        let mut check = true;
        if !self.range_in_bounds(range) {
            return Err(MemoryError::OutOfBounds);
        }
        let ghost start = range.start as int;
        let ghost bits = self.bits();
        let ghost size = self.size_bits() as int;
        if range.end - range.start < 8 {
            let mut bit = range.start;
            while bit < range.end
                invariant
                    self.wf(),
                    start == range.start as int,
                    bits == self.bits(),
                    size == self.size_bits() as int,
                    range.start <= bit <= range.end <= self.bound(),
                    self.check_range_safe(range.start as int, range.end as int, set),
                    check == all_bits_are(bits, start, bit as int, set),
                decreases range.end - bit,
            {
                if check {
                    if bit >= self.size {
                        assert(all_bits_are(bits, start, size, set));
                    }
                    let c = self.check(bit, set)?;
                    check = c;
                }
                proof {
                    lemma_all_bits_are_extend(bits, start, bit as int, set);
                }
                bit += 1;
            }
            return Ok(check);
        }
        let byte_aligned_start = range.start + (8 - range.start % 8) % 8;
        let byte_aligned_end = range.end - range.end % 8;
        let mut bit = range.start;
        while bit < byte_aligned_start
            invariant
                self.wf(),
                start == range.start as int,
                bits == self.bits(),
                range.start <= bit <= byte_aligned_start <= byte_aligned_end <= self.size_bits(),
                check == all_bits_are(bits, start, bit as int, set),
            decreases byte_aligned_start - bit,
        {
            if check {
                let c = self.check(bit, set)?;
                check = c;
            }
            proof {
                lemma_all_bits_are_extend(bits, start, bit as int, set);
            }
            bit += 1;
        }
        let test: u8 = if set {
            0xFF
        } else {
            0
        };
        assert(byte_aligned_end / 8 <= self.bitmap.len());
        let mut k: usize = (byte_aligned_start / 8) as usize;
        let k_end: usize = (byte_aligned_end / 8) as usize;
        while k < k_end
            invariant
                self.wf(),
                start == range.start as int,
                bits == self.bits(),
                byte_aligned_start as int / 8 <= k <= k_end,
                k_end == byte_aligned_end as int / 8,
                byte_aligned_start % 8 == 0,
                byte_aligned_end % 8 == 0,
                range.start <= byte_aligned_start <= byte_aligned_end <= self.size_bits(),
                test == (if set {
                    0xFFu8
                } else {
                    0u8
                }),
                check == all_bits_are(bits, start, 8 * k, set),
            decreases k_end - k,
        {
            let byte = self.bitmap[k];
            proof {
                lemma_byte_is_uniform(byte);
                assert((byte == test) == all_bits_are(bits, 8 * k, 8 * k + 8, set)) by {
                    assert forall|j: u8| j < 8 implies #[trigger] byte_bit(byte, j) == bits[8 * k
                        + j] by {
                        assert((8 * k + j) / 8 == k);
                        assert((8 * k + j) % 8 == j);
                    }
                    if all_bits_are(bits, 8 * k, 8 * k + 8, set) {
                        assert forall|j: u8| j < 8 implies #[trigger] byte_bit(byte, j) == set by {
                            assert(bits[8 * k + j] == set);
                        }
                    }
                    if byte == test {
                        assert forall|i: int| 8 * k <= i < 8 * k + 8 implies bits[i] == set by {
                            let j = (i - 8 * k) as u8;
                            assert(byte_bit(byte, j) == bits[8 * k + j]);
                        }
                    }
                }
            }
            check = check && byte == test;
            k += 1;
        }
        let mut bit = byte_aligned_end;
        while bit < range.end
            invariant
                self.wf(),
                start == range.start as int,
                bits == self.bits(),
                size == self.size_bits() as int,
                byte_aligned_end <= bit <= range.end <= self.bound(),
                range.end - range.start >= 8,
                range.start <= byte_aligned_end,
                byte_aligned_end <= self.size_bits(),
                self.check_range_safe(range.start as int, range.end as int, set),
                check == all_bits_are(bits, start, bit as int, set),
            decreases range.end - bit,
        {
            if check {
                if bit >= self.size {
                    assert(all_bits_are(bits, start, size, set));
                }
                let c = self.check(bit, set)?;
                check = c;
            }
            proof {
                lemma_all_bits_are_extend(bits, start, bit as int, set);
            }
            bit += 1;
        }
        Ok(check)
    }

    /// Frees bit `bit`: a taken bit is cleared. A bit number from the size on is out of
    /// bounds, and a bit that is already free is reported as a double free; then nothing
    /// changes.
    pub fn free(&mut self, bit: u64) -> (r: Result<(), MemoryError>)
        requires
            old(self).wf(),
        ensures
            final(self).wf(),
            final(self).size_bits() == old(self).size_bits(),
            final(self).last() == old(self).last(),
            r == (if bit >= old(self).size_bits() {
                Err(MemoryError::OutOfBounds)
            } else if !old(self).bit(bit as int) {
                Err(MemoryError::DoubleFree)
            } else {
                Ok(())
            }),
            r is Ok ==> final(self).bits() == old(self).bits().update(bit as int, false),
            r is Err ==> final(self).bytes() == old(self).bytes(),
    {
        if bit >= self.size {
            return Err(MemoryError::OutOfBounds);
        } else if self.check(bit, false)? {
            return Err(MemoryError::DoubleFree);
        }
        self.flag(bit, false)?;
        Ok(())
    }

    /// Frees the bits of `range`: when every bit of it is taken, they are all cleared. A
    /// range past the size is out of bounds, and a range with a free bit is reported as a
    /// double free; then nothing changes.
    pub fn free_range(&mut self, range: &Range<u64>) -> (r: Result<(), MemoryError>)
        requires
            old(self).wf(),
            old(self).check_range_safe(range.start as int, range.end as int, true),
        ensures
            final(self).wf(),
            final(self).size_bits() == old(self).size_bits(),
            final(self).last() == old(self).last(),
            r == (if range.end > old(self).bound() {
                Err::<(), MemoryError>(MemoryError::OutOfBounds)
            } else if !all_bits_are(old(self).bits(), range.start as int, range.end as int, true) {
                Err(MemoryError::DoubleFree)
            } else {
                Ok(())
            }),
            r is Ok ==> final(self).bits() == flag_range_bits(
                old(self).bits(),
                range.start as int,
                range.end as int,
                false,
            ),
            r is Err ==> final(self).bytes() == old(self).bytes(),
    {
        if !self.check_range(range, true)? {
            return Err(MemoryError::DoubleFree);
        }
        self.flag_range(range, false)?;
        Ok(())
    }

    /// The cells of the bit search: cell `j` is bit `last + j`, taken when it is set.
    pub open spec fn bit_cells(&self) -> spec_fn(int) -> bool {
        |j: int| self.bit(self.last() + j)
    }

    /// The number of cells of the bit search: the bits from `last` up to the size.
    pub open spec fn bit_cell_count(&self) -> int {
        self.size_bits() - self.last()
    }

    /// The first bit that the byte search reads: `last` rounded up to eight.
    pub open spec fn byte_scan_start(&self) -> int {
        round_up8(self.last() as int)
    }

    /// The cells of the byte search: cell `j` is the byte that holds bit
    /// `byte_scan_start() + 8 * j`, taken when any of its bits is set.
    pub open spec fn byte_cells(&self) -> spec_fn(int) -> bool {
        |j: int| self.bytes()[self.byte_scan_start() / 8 + j] != 0
    }

    /// The number of cells of the byte search: the bytes from the start up to the end.
    pub open spec fn byte_cell_count(&self) -> int {
        (self.size_bits() - self.byte_scan_start()) / 8
    }

    /// What `scan(bits)` returns: out of bounds from the size on; above sixteen units, the
    /// first run of `bits` free bytes that the byte search finds; otherwise the first run
    /// of `bits` rounded up to eight free bits that the bit search finds.
    pub open spec fn scan_result(&self, bits: u64) -> Result<u64, MemoryError> {
        if bits >= self.size_bits() {
            Err(MemoryError::OutOfBounds)
        } else if bits > 16 {
            match first_run(self.byte_cells(), self.byte_cell_count(), bits as int) {
                Some(s) => Ok((self.byte_scan_start() + 8 * s) as u64),
                None => Err(MemoryError::AllocationError),
            }
        } else {
            match first_run(self.bit_cells(), self.bit_cell_count(), round_up8(bits as int)) {
                Some(s) => Ok((self.last() + s) as u64),
                None => Err(MemoryError::AllocationError),
            }
        }
    }

    /// Searches from the last allocation for `target` free bits in a row. After a set bit
    /// it starts again from the next one.
    fn scan_bits(&self, target: u64) -> (r: Result<u64, MemoryError>)
        requires
            self.wf(),
        ensures
            r == match first_run(self.bit_cells(), self.bit_cell_count(), target as int) {
                Some(s) => Ok::<u64, MemoryError>((self.last() + s) as u64),
                None => Err(MemoryError::AllocationError),
            },
    {
        let ghost taken = self.bit_cells();
        let ghost n = self.bit_cell_count();
        let ghost l = self.last() as int;
        let mut current = self.last_allocated;
        while current < self.size
            invariant
                self.wf(),
                taken == self.bit_cells(),
                n == self.bit_cell_count(),
                l == self.last(),
                l <= current,
                current == l || current <= self.size_bits(),
                current == l || current >= self.size_bits() || taken(current - 1 - l),
                forall|t: int| 0 <= t < current - l ==> !run_start(taken, n, target as int, t),
            decreases self.size_bits() - current,
        {
            let ghost s0 = current as int;
            let mut sum: u8 = 0;
            let mut found: u64 = 0;
            while sum == 0 && found < target && current < self.size
                invariant
                    self.wf(),
                    taken == self.bit_cells(),
                    l == self.last(),
                    l <= s0 <= current <= self.size_bits(),
                    s0 < self.size_bits(),
                    current == s0 + found,
                    found <= target,
                    sum == 0 ==> forall|k: int| s0 - l <= k < current - l ==> !#[trigger] taken(k),
                    sum != 0 ==> found > 0 && taken(current - 1 - l) && forall|k: int|
                        s0 - l <= k < current - 1 - l ==> !#[trigger] taken(k),
                decreases self.size_bits() - current,
            {
                let idx = (current / 8) as usize;
                assert(idx < self.bitmap.len());
                let k: u8 = (current % 8) as u8;
                let byte = self.bitmap[idx];
                let v = byte & (1u8 << k);
                proof {
                    assert(taken(current - l) == self.bit(current as int));
                }
                sum += v;
                found += 1;
                current += 1;
            }
            if sum > 0 {
                proof {
                    assert forall|t: int| 0 <= t < current - l implies !run_start(
                        taken,
                        n,
                        target as int,
                        t,
                    ) by {
                        if t >= s0 - l {
                            if t > s0 - l {
                                assert(!taken(t - 1));
                            } else {
                                assert(s0 - l <= current - 1 - l < t + target);
                            }
                        }
                    }
                }
                continue ;
            } else if found == target {
                proof {
                    assert(run_start(taken, n, target as int, s0 - l));
                    lemma_first_run_is(taken, n, target as int, s0 - l);
                }
                return Ok(current - found);
            } else {
                proof {
                    assert(current == self.size_bits());
                    assert forall|t: int| 0 <= t < current - l implies !run_start(
                        taken,
                        n,
                        target as int,
                        t,
                    ) by {
                        if t >= s0 - l {
                            assert(t + target > n);
                        }
                    }
                }
            }
        }
        proof {
            assert(!has_run_start(taken, n, target as int)) by {
                if has_run_start(taken, n, target as int) {
                    let s = choose|s: int| run_start(taken, n, target as int, s);
                    assert(run_start(taken, n, target as int, s));
                }
            }
        }
        Err(MemoryError::AllocationError)
    }

    /// Searches from the last allocation, rounded up to eight, for `target` free bytes in
    /// a row, eight bits at a time. After a byte with a set bit it starts again from the
    /// next byte.
    #[verifier::spinoff_prover]
    #[verifier::rlimit(40)]
    fn scan_bytes(&self, target: u64) -> (r: Result<u64, MemoryError>)
        requires
            self.wf(),
        ensures
            r == match first_run(self.byte_cells(), self.byte_cell_count(), target as int) {
                Some(s) => Ok::<u64, MemoryError>((self.byte_scan_start() + 8 * s) as u64),
                None => Err(MemoryError::AllocationError),
            },
    {
        let ghost taken = self.byte_cells();
        let ghost n = self.byte_cell_count();
        let ghost a = self.byte_scan_start();
        proof {
            lemma_eight_is_power_of_two();
        }
        let mut current = align_up(self.last_allocated, 8);
        let ghost mut jc: int = 0;
        assert(current == a);
        while current < self.size
            invariant
                self.wf(),
                taken == self.byte_cells(),
                n == self.byte_cell_count(),
                a == self.byte_scan_start(),
                a % 8 == 0,
                0 <= jc,
                current == a + 8 * jc,
                jc == 0 || current <= self.size_bits(),
                jc == 0 || current >= self.size_bits() || taken(jc - 1),
                forall|t: int| 0 <= t < jc ==> !run_start(taken, n, target as int, t),
            decreases self.size_bits() + 8 - current,
        {
            let ghost j0 = jc;
            let mut sum: u8 = 0;
            let mut found: u64 = 0;
            while sum == 0 && found < target && current < self.size
                invariant
                    self.wf(),
                    taken == self.byte_cells(),
                    n == self.byte_cell_count(),
                    a == self.byte_scan_start(),
                    a % 8 == 0,
                    0 <= j0 <= jc,
                    a + 8 * j0 < self.size_bits(),
                    current == a + 8 * jc,
                    current <= self.size_bits(),
                    jc == j0 + found,
                    found <= target,
                    sum == 0 ==> forall|k: int| j0 <= k < jc ==> !#[trigger] taken(k),
                    sum != 0 ==> found > 0 && taken(jc - 1) && forall|k: int|
                        j0 <= k < jc - 1 ==> !#[trigger] taken(k),
                decreases self.size_bits() - current,
            {
                let idx = (current / 8) as usize;
                assert(idx < self.bitmap.len());
                let byte = self.bitmap[idx];
                proof {
                    assert(idx as int == a / 8 + jc);
                    assert(taken(jc) == (byte != 0));
                }
                sum += byte;
                found += 1;
                current += 8;
                proof {
                    jc = jc + 1;
                }
            }
            proof {
                assert(n == (self.size_bits() - a) / 8);
                assert(j0 < n);
            }
            if sum > 0 {
                proof {
                    assert forall|t: int| 0 <= t < jc implies !run_start(
                        taken,
                        n,
                        target as int,
                        t,
                    ) by {
                        if t >= j0 {
                            if t > j0 {
                                assert(!taken(t - 1));
                            } else {
                                assert(j0 <= jc - 1 < t + target);
                            }
                        }
                    }
                }
                continue ;
            } else if found == target {
                proof {
                    assert(jc <= n);
                    assert(run_start(taken, n, target as int, j0));
                    lemma_first_run_is(taken, n, target as int, j0);
                }
                return Ok(current - found * 8);
            } else {
                proof {
                    assert(current == self.size_bits());
                    assert(jc == n);
                    assert forall|t: int| 0 <= t < jc implies !run_start(
                        taken,
                        n,
                        target as int,
                        t,
                    ) by {
                        if t >= j0 {
                            assert(t + target > n);
                        }
                    }
                }
            }
        }
        proof {
            assert(jc >= n);
            assert(!has_run_start(taken, n, target as int)) by {
                if has_run_start(taken, n, target as int) {
                    let s = choose|s: int| run_start(taken, n, target as int, s);
                    assert(run_start(taken, n, target as int, s));
                }
            }
        }
        Err(MemoryError::AllocationError)
    }

    /// Searches for `bits` free units: out of bounds from the size on, the byte search
    /// above sixteen units, and otherwise the bit search for `bits` rounded up to eight.
    fn scan(&self, bits: u64) -> (r: Result<u64, MemoryError>)
        requires
            self.wf(),
        ensures
            r == self.scan_result(bits),
    {
        if bits >= self.size {
            return Err(MemoryError::OutOfBounds);
        }
        if bits > 16 {
            self.scan_bytes(bits)
        } else {
            proof {
                lemma_eight_is_power_of_two();
            }
            let target = align_up(bits, 8);
            assert(target as int == round_up8(bits as int));
            self.scan_bits(target)
        }
    }

    /// Whether `allocate(bits)` runs without panicking: the bitmap is well formed.
    pub open spec fn alloc_safe(&self, bits: u64) -> bool {
        self.wf()
    }

    /// What `allocate(bits)` returns: what the search finds.
    pub open spec fn allocate_result(&self, bits: u64) -> Result<u64, MemoryError> {
        self.scan_result(bits)
    }

    /// A position that the search finds starts `bits` free units that end within the
    /// bitmap.
    pub proof fn lemma_scan_result_free(&self, bits: u64)
        requires
            self.wf(),
        ensures
            self.scan_result(bits) matches Ok(p) ==> p + bits <= self.size_bits() && all_bits_are(
                self.bits(),
                p as int,
                p + bits,
                false,
            ),
    {
        if bits < self.size_bits() {
            if bits > 16 {
                let taken = self.byte_cells();
                let n = self.byte_cell_count();
                if has_run_start(taken, n, bits as int) {
                    lemma_first_run_found(taken, n, bits as int);
                    let s = first_run(taken, n, bits as int)->0;
                    let a = self.byte_scan_start();
                    let p = a + 8 * s;
                    assert(a % 8 == 0);
                    assert(8 * (s + bits) <= 8 * n) by (nonlinear_arith)
                        requires
                            s + bits <= n,
                    ;
                    assert(8 * n <= self.size_bits() - a);
                    assert forall|i: int| p <= i < p + bits implies self.bits()[i] == false by {
                        let j = (i - a) / 8;
                        assert(s <= j < s + bits) by {
                            assert((i - a) / 8 >= s) by (nonlinear_arith)
                                requires
                                    i - a >= 8 * s,
                            ;
                            assert((i - a) / 8 < s + bits) by (nonlinear_arith)
                                requires
                                    i - a < 8 * s + bits,
                                    bits >= 1,
                            ;
                        }
                        assert(!taken(j));
                        assert(i / 8 == a / 8 + j);
                        lemma_full_and_empty_bytes((i % 8) as u8);
                    }
                }
            } else {
                let taken = self.bit_cells();
                let n = self.bit_cell_count();
                let target = round_up8(bits as int);
                if has_run_start(taken, n, target) {
                    lemma_first_run_found(taken, n, target);
                    let s = first_run(taken, n, target)->0;
                    let p = self.last() + s;
                    assert forall|i: int| p <= i < p + bits implies self.bits()[i] == false by {
                        assert(!taken(i - self.last()));
                    }
                }
            }
        }
    }

    /// Allocates `bits` units: finds free space with `scan`, records the position after
    /// it as the last allocation, and sets the `bits` bits from the found position on.
    /// The units handed out were all free and are all taken afterwards.
    pub fn allocate(&mut self, bits: u64) -> (r: Result<u64, MemoryError>)
        requires
            old(self).wf(),
        ensures
            final(self).wf(),
            final(self).size_bits() == old(self).size_bits(),
            r == old(self).allocate_result(bits),
            r matches Ok(p) ==> {
                &&& p + bits <= old(self).size_bits()
                &&& all_bits_are(old(self).bits(), p as int, p + bits, false)
                &&& final(self).last() == p + bits
                &&& final(self).bits() == flag_range_bits(old(self).bits(), p as int, p + bits, true)
            },
            r is Err ==> *final(self) == *old(self),
    {
        proof {
            self.lemma_scan_result_free(bits);
        }
        let free_space = self.scan(bits)?;
        self.last_allocated = free_space + bits;
        self.flag_range(&(free_space..(free_space + bits)), true)?;
        Ok(free_space)
    }

    /// The number of frames that the bitmap of an allocator over `size` bytes takes.
    pub open spec fn bitmap_pages(size: int) -> int {
        (size + 4095) / 4096
    }

    /// Whether `new(size, ..)` runs without panicking: the frames for the bitmap come from
    /// the linear allocator at a page aligned address, their mapping at the table offset
    /// is canonical, and the allocator can hand out up to three frames per page for
    /// tables.
    pub open spec fn new_safe(
        size: int,
        frame_allocator: LinearFrameAllocator,
        page_table: RecursivePageTable,
    ) -> bool {
        let pages = Self::bitmap_pages(size);
        let base = frame_allocator.0;
        let virt = base + page_table.offset();
        &&& base % 4096 == 0
        &&& pages * 4096 <= usize::MAX
        &&& base + pages * 4096 + 4096 * (3 * pages) < phys_limit()
        &&& virt <= u64::MAX
        &&& is_canonical(virt as u64)
        &&& pages_are_canonical(virt as u64, pages)
    }

    /// Creates an allocator over `size` bytes whose bitmap lies in the frames that
    /// `frame_allocator` hands out from its address on, mapped at the page table's
    /// offset. When `set_at_init` holds no unit is free, and free space must then be
    /// flagged by hand. The outcome of the mapping is not checked.
    pub fn new(
        size: usize,
        set_at_init: bool,
        frame_allocator: &mut LinearFrameAllocator,
        page_table: &mut RecursivePageTable,
    ) -> (r: Result<BitmapAllocator, MemoryError>)
        requires
            size <= max_bitmap_bytes(),
            old(page_table).wf(),
            Self::new_safe(size as int, *old(frame_allocator), *old(page_table)),
        ensures
            r matches Ok(b) && b.wf() && b.size_bits() == size * 8 && b.last() == 0 && b.bits()
                == Seq::new(size as nat * 8, |i: int| set_at_init),
            RecursivePageTable::keeps_used_entries(old(page_table), final(page_table)),
            LinearFrameAllocator::used_at_most(
                old(frame_allocator),
                final(frame_allocator),
                (4 * Self::bitmap_pages(size as int)) as nat,
            ),
            final(frame_allocator).0 >= old(frame_allocator).0 + 4096 * Self::bitmap_pages(
                size as int,
            ),
    {
        let pages = size_in_pages(size);
        let phys = frame_allocator.alloc_contiguous(pages)?;
        let virt = virt_addr_new(phys + page_table.internal_offset());
        proof {
            assert(pages * 4096 + 4096 * (3 * pages) == 4096 * (4 * pages)) by (nonlinear_arith);
            if pages > 0 {
                assert(phys + (pages - 1) * 4096 < phys_limit()) by (nonlinear_arith)
                    requires
                        pages > 0,
                        phys + pages * 4096 < phys_limit(),
                ;
            }
        }
        let ghost after_bitmap = *frame_allocator;
        let _ = page_table.map_contiguous(pages, phys, virt, PRESENT | WRITABLE, frame_allocator);
        proof {
            assert(pages * 4096 == 4096 * pages);
            LinearFrameAllocator::lemma_used_chain(
                old(frame_allocator),
                &after_bitmap,
                frame_allocator,
                pages as nat,
                3 * pages as nat,
            );
        }
        Ok(Self::with_bitmap(size, set_at_init))
    }
}


/// Flagging a range with `true` takes every unit of it and leaves every other unit as it
/// was, so that checking the range for taken units then answers yes.
pub proof fn lemma_flagged_range_reads_taken(a: BitmapAllocator, b: BitmapAllocator, start: int, end: int)
    requires
        a.wf(),
        b.wf(),
        b.bits() == flag_range_bits(a.bits(), start, end, true),
        0 <= start,
        end <= a.size_bits(),
    ensures
        all_bits_are(b.bits(), start, end, true),
        forall|i: int|
            0 <= i < a.bits().len() && !(start <= i < end) ==> #[trigger] b.bits()[i] == a.bits()[i],
{
}

/// Flagging a range with `false` frees it, and leaves every unit outside it as it was.
pub proof fn lemma_cleared_range_reads_free(a: BitmapAllocator, b: BitmapAllocator, start: int, end: int)
    requires
        a.wf(),
        b.wf(),
        b.bits() == flag_range_bits(a.bits(), start, end, false),
        0 <= start,
        end <= a.size_bits(),
    ensures
        all_bits_are(b.bits(), start, end, false),
        forall|i: int|
            0 <= i < a.bits().len() && !(start <= i < end) ==> #[trigger] b.bits()[i] == a.bits()[i],
{
}

/// Freeing what an allocation handed out gives the bitmap back as it was before the
/// allocation: the allocation takes units that were free, and freeing them clears them.
pub proof fn lemma_free_undoes_allocate(
    before: BitmapAllocator,
    allocated: BitmapAllocator,
    freed: BitmapAllocator,
    p: int,
    bits: int,
)
    requires
        before.wf(),
        0 <= p,
        p + bits <= before.size_bits(),
        all_bits_are(before.bits(), p, p + bits, false),
        allocated.bits() == flag_range_bits(before.bits(), p, p + bits, true),
        freed.bits() == flag_range_bits(allocated.bits(), p, p + bits, false),
    ensures
        freed.bits() == before.bits(),
{
    assert(freed.bits() =~= before.bits());
}

/// Two searches whose cells agree on `0..n` stop at the same cell.
pub proof fn lemma_first_run_congruent(
    a: spec_fn(int) -> bool,
    b: spec_fn(int) -> bool,
    n: int,
    target: int,
)
    requires
        forall|j: int| 0 <= j < n ==> #[trigger] a(j) == b(j),
    ensures
        first_run(a, n, target) == first_run(b, n, target),
{
    assert forall|s: int| run_start(a, n, target, s) == run_start(b, n, target, s) by {
        if 0 <= s < n && s + target <= n {
            if s > 0 {
                assert(a(s - 1) == b(s - 1));
            }
            assert forall|k: int| #![trigger a(k)] #![trigger b(k)] s <= k < s + target implies a(k) == b(k) by {
                assert(0 <= k < n);
            }
        }
    }
    if has_run_start(a, n, target) {
        lemma_first_run_found(a, n, target);
        let s = first_run(a, n, target)->0;
        assert(run_start(b, n, target, s));
        lemma_first_run_is(b, n, target, s);
    } else {
        assert(!has_run_start(b, n, target)) by {
            if has_run_start(b, n, target) {
                let s = choose|s: int| run_start(b, n, target, s);
                assert(run_start(a, n, target, s));
            }
        }
    }
}

/// The unit that a one-unit allocation finds in `bits` with the search starting at
/// `last`: the start of the first run of eight free bits that the bit search meets, when
/// the bitmap holds more than one bit.
pub open spec fn single_unit(bits: Seq<bool>, last: int) -> Option<int> {
    if bits.len() <= 1 {
        None
    } else {
        match first_run(|j: int| bits[last + j], bits.len() - last, 8) {
            Some(s) => Some(last + s),
            None => None,
        }
    }
}

impl BitmapAllocator {
    /// A one-unit allocation finds the unit that `single_unit` names, and fails when
    /// there is none.
    pub proof fn lemma_one_unit_scan(&self)
        requires
            self.wf(),
        ensures
            match single_unit(self.bits(), self.last() as int) {
                Some(p) => self.allocate_result(1) == Ok::<u64, MemoryError>(p as u64)
                    && 0 <= p && p + 1 <= self.size_bits(),
                None => self.allocate_result(1) is Err,
            },
    {
        let bits = self.bits();
        let l = self.last() as int;
        let n = self.bit_cell_count();
        assert(round_up8(1) == 8);
        assert(bits.len() == self.size_bits());
        lemma_first_run_congruent(self.bit_cells(), |j: int| bits[l + j], n, 8);
        if 1 < self.size_bits() {
            if has_run_start(self.bit_cells(), n, 8) {
                lemma_first_run_found(self.bit_cells(), n, 8);
            }
        }
    }
}

} // verus!
