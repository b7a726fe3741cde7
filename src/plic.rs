//! Platform-level interrupt controller: register values and where an
//! interrupt goes.
use vstd::prelude::*;

verus! {

/// Priority registers, one word per interrupt.
pub const PLIC_PRIORITY: u64 = 0x0c00_0000;

/// Pending bits.
pub const PLIC_PENDING: u64 = 0x0c00_1000;

/// Enable bits of hart 0.
pub const PLIC_INT_ENABLE: u64 = 0x0c00_2000;

/// Priority threshold of hart 0.
pub const PLIC_THRESHOLD: u64 = 0x0c20_0000;

/// Claim and complete register of hart 0.
pub const PLIC_CLAIM: u64 = 0x0c20_0004;

/// The enable bits with interrupt `id` added.
pub fn enable(enables: u32, id: u32) -> (r: u32)
    requires
        id < 32,
    ensures
        r == enables | (1u32 << id),
{
    enables | (1u32 << id)
}

/// Address of the priority register of interrupt `id`.
pub fn priority_register(id: u32) -> (r: u64)
    ensures
        r == PLIC_PRIORITY + 4 * id,
{
    PLIC_PRIORITY + 4 * (id as u64)
}

/// The value a priority register takes: its low three bits.
pub fn set_priority(priority: u8) -> (r: u32)
    ensures
        r == (priority & 7) as u32,
{
    (priority & 7) as u32
}

/// The value the threshold register takes: its low three bits.
pub fn set_threshold(threshold: u8) -> (r: u32)
    ensures
        r == (threshold & 7) as u32,
{
    (threshold & 7) as u32
}

/// The interrupt that a claim read gives; none where it reads 0.
pub fn next(claim: u32) -> (r: Option<u32>)
    ensures
        claim == 0 ==> r.is_none(),
        claim != 0 ==> r == Some(claim),
{
    if claim == 0 {
        None
    } else {
        Some(claim)
    }
}

/// Whether interrupt `id` is pending in the pending bits.
pub fn is_pending(pending: u32, id: u32) -> (r: bool)
    requires
        id < 32,
    ensures
        r == ((pending & (1u32 << id)) != 0),
{
    (pending & (1u32 << id)) != 0
}

/// Where an interrupt goes.
#[derive(Clone, Copy, Debug, PartialEq, Eq, Structural)]
pub enum InterruptSource {
    Virtio(u32),
    Uart,
    Unknown(u32),
}

/// The source of interrupt `id`: the virtio banks raise 1 to 8 (slot
/// `id - 1`), the UART raises 10.
pub fn handle_interrupt(id: u32) -> (r: InterruptSource)
    ensures
        1 <= id <= 8 ==> r == InterruptSource::Virtio((id - 1) as u32),
        id == 10 ==> r == InterruptSource::Uart,
        !(1 <= id <= 8 || id == 10) ==> r == InterruptSource::Unknown(id),
{
    if 1 <= id && id <= 8 {
        InterruptSource::Virtio(id - 1)
    } else if id == 10 {
        InterruptSource::Uart
    } else {
        InterruptSource::Unknown(id)
    }
}

} // verus!
