use kermol::bitmap_allocator::BitmapAllocator;
use kermol::error::MemoryError;

#[test]
fn fresh_bitmap_reads_as_built() {
    let free = BitmapAllocator::with_bitmap(4, false);
    let taken = BitmapAllocator::with_bitmap(4, true);
    let mut bit: u64 = 0;
    while bit < 32 {
        assert_eq!(free.check(bit, false), Ok(true));
        assert_eq!(taken.check(bit, true), Ok(true));
        bit += 1;
    }
}

#[test]
fn check_past_the_bound_is_out_of_bounds() {
    let a = BitmapAllocator::with_bitmap(2, false);
    // 2 bytes hold 16 bits.
    assert_eq!(a.check(16, false), Err(MemoryError::OutOfBounds));
    assert_eq!(a.check(15, false), Ok(true));
    assert_eq!(a.check(1000, true), Err(MemoryError::OutOfBounds));
}

#[test]
fn flag_then_check_reads_taken() {
    let mut a = BitmapAllocator::with_bitmap(2, false);
    assert_eq!(a.flag(5, true), Ok(()));
    assert_eq!(a.check(5, true), Ok(true));
    assert_eq!(a.check(4, false), Ok(true));
    assert_eq!(a.check(6, false), Ok(true));
}

#[test]
fn flag_with_false_clears_a_taken_bit() {
    let mut a = BitmapAllocator::with_bitmap(1, true);
    assert_eq!(a.flag(3, false), Ok(()));
    assert_eq!(a.check(3, false), Ok(true));
    assert_eq!(a.check(2, true), Ok(true));
    assert_eq!(a.check(4, true), Ok(true));
}

#[test]
fn flag_past_the_bound_is_out_of_bounds() {
    let mut a = BitmapAllocator::with_bitmap(1, false);
    assert_eq!(a.flag(8, true), Err(MemoryError::OutOfBounds));
    assert_eq!(a.check(0, false), Ok(true));
}

#[test]
fn flag_range_true_then_check_range_reads_taken() {
    let mut a = BitmapAllocator::with_bitmap(4, false);
    assert_eq!(a.flag_range(&(3..13), true), Ok(()));
    assert_eq!(a.check_range(&(3..13), true), Ok(true));
    assert_eq!(a.check(2, false), Ok(true));
    assert_eq!(a.check(13, false), Ok(true));
}

#[test]
fn flag_range_false_clears_the_whole_range() {
    let mut a = BitmapAllocator::with_bitmap(3, true);
    assert_eq!(a.flag_range(&(4..20), false), Ok(()));
    assert_eq!(a.check_range(&(4..20), false), Ok(true));
    assert_eq!(a.check_range(&(0..4), true), Ok(true));
    assert_eq!(a.check_range(&(20..24), true), Ok(true));
}

#[test]
fn flag_range_false_on_a_short_range_clears_it() {
    let mut a = BitmapAllocator::with_bitmap(1, true);
    assert_eq!(a.flag_range(&(0..3), false), Ok(()));
    assert_eq!(a.check_range(&(0..3), false), Ok(true));
    assert_eq!(a.check_range(&(3..8), true), Ok(true));
}

#[test]
fn flag_range_past_the_bound_is_out_of_bounds() {
    let mut a = BitmapAllocator::with_bitmap(1, false);
    assert_eq!(a.flag_range(&(0..9), true), Err(MemoryError::OutOfBounds));
    assert_eq!(a.check_range(&(0..8), false), Ok(true));
}

#[test]
fn check_range_finds_a_differing_bit() {
    let mut a = BitmapAllocator::with_bitmap(2, false);
    assert_eq!(a.flag(9, true), Ok(()));
    assert_eq!(a.check_range(&(0..16), false), Ok(false));
    assert_eq!(a.check_range(&(0..9), false), Ok(true));
    assert_eq!(a.check_range(&(0..17), false), Err(MemoryError::OutOfBounds));
}

#[test]
fn free_clears_a_taken_bit() {
    let mut a = BitmapAllocator::with_bitmap(1, true);
    assert_eq!(a.free(2), Ok(()));
    assert_eq!(a.check(2, false), Ok(true));
    assert_eq!(a.check(1, true), Ok(true));
    assert_eq!(a.check(3, true), Ok(true));
}

#[test]
fn free_of_a_free_bit_is_a_double_free() {
    let mut a = BitmapAllocator::with_bitmap(1, false);
    assert_eq!(a.free(6), Err(MemoryError::DoubleFree));
    assert_eq!(a.check_range(&(0..8), false), Ok(true));
}

#[test]
fn free_past_the_size_is_out_of_bounds() {
    let mut a = BitmapAllocator::with_bitmap(1, false);
    assert_eq!(a.free(8), Err(MemoryError::OutOfBounds));
}

#[test]
fn free_after_allocate_gives_the_unit_back() {
    let mut a = BitmapAllocator::with_bitmap(1, false);
    let p = a.allocate(1).unwrap();
    assert_eq!(p, 0);
    assert_eq!(a.free(p), Ok(()));
    assert_eq!(a.check_range(&(0..8), false), Ok(true));
    assert_eq!(a.free(p), Err(MemoryError::DoubleFree));
}

#[test]
fn free_range_with_a_free_bit_is_double_free() {
    let mut a = BitmapAllocator::with_bitmap(2, true);
    assert_eq!(a.flag(3, false), Ok(()));
    assert_eq!(a.free_range(&(0..8)), Err(MemoryError::DoubleFree));
    assert_eq!(a.check(4, true), Ok(true));
}

#[test]
fn free_range_of_taken_bits_clears_them() {
    let mut a = BitmapAllocator::with_bitmap(3, true);
    assert_eq!(a.free_range(&(4..20)), Ok(()));
    assert_eq!(a.check_range(&(4..20), false), Ok(true));
    assert_eq!(a.check_range(&(0..4), true), Ok(true));
    assert_eq!(a.check_range(&(20..24), true), Ok(true));
}

#[test]
fn free_range_past_the_bound_is_out_of_bounds() {
    let mut a = BitmapAllocator::with_bitmap(1, false);
    assert_eq!(a.free_range(&(0..9)), Err(MemoryError::OutOfBounds));
}

#[test]
fn allocate_takes_units_from_the_start() {
    let mut a = BitmapAllocator::with_bitmap(4, false);
    assert_eq!(a.allocate(3), Ok(0));
    assert_eq!(a.check_range(&(0..3), true), Ok(true));
    assert_eq!(a.check(3, false), Ok(true));
}

#[test]
fn allocations_follow_one_another() {
    let mut a = BitmapAllocator::with_bitmap(4, false);
    assert_eq!(a.allocate(1), Ok(0));
    assert_eq!(a.allocate(1), Ok(1));
    assert_eq!(a.allocate(2), Ok(2));
    assert_eq!(a.check_range(&(0..4), true), Ok(true));
}

#[test]
fn allocate_skips_taken_units() {
    let mut a = BitmapAllocator::with_bitmap(4, false);
    assert_eq!(a.flag_range(&(0..8), true), Ok(()));
    assert_eq!(a.allocate(2), Ok(8));
    assert_eq!(a.check_range(&(8..10), true), Ok(true));
}

#[test]
fn allocate_of_the_whole_size_is_out_of_bounds() {
    let mut a = BitmapAllocator::with_bitmap(1, false);
    assert_eq!(a.allocate(8), Err(MemoryError::OutOfBounds));
    assert_eq!(a.allocate(9), Err(MemoryError::OutOfBounds));
}

#[test]
fn allocate_on_a_full_bitmap_fails() {
    let mut a = BitmapAllocator::with_bitmap(2, true);
    assert_eq!(a.allocate(1), Err(MemoryError::AllocationError));
}

#[test]
fn large_allocation_skips_bytes_with_taken_units() {
    // Above sixteen units the search reads whole bytes; byte 1 holds a taken unit.
    let mut a = BitmapAllocator::with_bitmap(136, false);
    assert_eq!(a.flag(8, true), Ok(()));
    assert_eq!(a.allocate(17), Ok(16));
    assert_eq!(a.check_range(&(16..33), true), Ok(true));
    assert_eq!(a.check_range(&(0..8), false), Ok(true));
}
