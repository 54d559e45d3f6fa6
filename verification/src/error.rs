//! Errors of the memory subsystem.
use vstd::prelude::*;

verus! {

/// Errors that paging operations report. Addresses are virtual addresses.
#[derive(Clone, Copy, Debug, PartialEq, Eq, Structural)]
pub enum PagingError {
    AttemptedMappingToReserved(u64),
    NotMapped(u64),
    AlreadyMapped(u64),
    TableAllocationFailed,
}

/// Errors of the memory subsystem.
#[derive(Clone, Copy, Debug, PartialEq, Eq, Structural)]
pub enum MemoryError {
    OutOfBounds,
    PageNotPresent,
    WriteToReadOnly,
    EmptyAllocation,
    LockedAllocator,
    NoFreeFrame,
    PagingError(PagingError),
    AlignmentError,
    /// Frame or virtual address allocation failed (not heap allocation).
    AllocationError,
    DoubleFree,
    TODOError,
}

impl From<PagingError> for MemoryError {
    /// Wraps a paging error into a memory error.
    fn from(e: PagingError) -> (r: MemoryError) {
        MemoryError::PagingError(e)
    }
}

impl vstd::std_specs::convert::FromSpecImpl<PagingError> for MemoryError {
    open spec fn obeys_from_spec() -> bool {
        true
    }

    open spec fn from_spec(e: PagingError) -> MemoryError {
        MemoryError::PagingError(e)
    }
}

} // verus!
