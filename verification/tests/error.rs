use kermol::error::{MemoryError, PagingError};

#[test]
fn paging_errors_convert_into_memory_errors() {
    assert_eq!(
        MemoryError::from(PagingError::NotMapped(0x1000)),
        MemoryError::PagingError(PagingError::NotMapped(0x1000))
    );
    let e: MemoryError = PagingError::TableAllocationFailed.into();
    assert_eq!(e, MemoryError::PagingError(PagingError::TableAllocationFailed));
}
