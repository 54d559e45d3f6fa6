//! Interrupt setup that the kernel decides on its own: the vector offsets of the two
//! chained PICs and the start of interrupt handling.
use vstd::prelude::*;

verus! {

/// The first vector of the primary PIC, just past the CPU exceptions.
pub const PIC_1_OFFSET: u8 = 32;

/// The first vector of the secondary PIC, after the eight of the primary.
pub const PIC_2_OFFSET: u8 = PIC_1_OFFSET + 8;

/// Starts interrupt handling. Nothing beyond the exceptions is set up yet, so this
/// always succeeds.
pub fn init_interrupts() -> (r: Result<(), ()>)
    ensures
        r == Ok::<(), ()>(()),
{
    Ok(())
}

} // verus!
