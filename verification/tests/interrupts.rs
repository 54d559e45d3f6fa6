use kermol::interrupts::{init_interrupts, PIC_1_OFFSET, PIC_2_OFFSET};

#[test]
fn interrupts_start_without_error() {
    assert_eq!(init_interrupts(), Ok(()));
}

#[test]
fn pic_vectors_follow_the_exceptions() {
    assert_eq!(PIC_1_OFFSET, 32);
    assert_eq!(PIC_2_OFFSET, 40);
}
