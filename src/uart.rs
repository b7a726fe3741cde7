//! The console UART: where its registers are, and what a typed byte echoes.
use vstd::prelude::*;

verus! {

/// Base address of the UART on the `virt` machine.
pub const UART_BASE: u64 = 0x1000_0000;

/// A UART at a base address.
#[derive(Clone, Copy, Debug, PartialEq, Eq, Structural)]
pub struct Uart {
    pub base_address: u64,
}

impl Uart {
    /// The UART at `base_address`.
    pub fn new(base_address: u64) -> (r: Uart)
        ensures
            r.base_address == base_address,
    {
        Uart { base_address }
    }

    /// Whether the line status register `lsr` says a byte is ready.
    pub fn data_ready(lsr: u8) -> (r: bool)
        ensures
            r == (lsr & 1 != 0),
    {
        lsr & 1 != 0
    }
}

/// What the console echoes for a typed byte: a backspace rubs the last
/// character out, a newline or carriage return starts a new line, any other
/// byte is echoed as it is.
pub fn echo_of(c: u8) -> (r: Vec<u8>)
    ensures
        c == 8 ==> r@ == seq![8u8, 32u8, 8u8],
        (c == 10 || c == 13) ==> r@ == seq![13u8, 10u8],
        !(c == 8 || c == 10 || c == 13) ==> r@ == seq![c],
{
    let mut r: Vec<u8> = Vec::new();
    if c == 8 {
        r.push(8);
        r.push(32);
        r.push(8);
    } else if c == 10 || c == 13 {
        r.push(13);
        r.push(10);
    } else {
        r.push(c);
    }
    assert(r@ =~= if c == 8 {
        seq![8u8, 32u8, 8u8]
    } else if c == 10 || c == 13 {
        seq![13u8, 10u8]
    } else {
        seq![c]
    });
    r
}

} // verus!
