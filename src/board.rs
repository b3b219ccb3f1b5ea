use vstd::prelude::*;

use crate::uart::NS16550;
use crate::LinkerGlobals;

verus! {

/// The QEMU `virt` board, whose console is an emulated NS16550 UART.
pub struct VirtBoard {
    uart: NS16550,
}

impl VirtBoard {
    /// A board whose UART sits at the address that `globals` gives.
    pub fn new(globals: &LinkerGlobals) -> (r: Self)
        ensures
            r.get_uart_spec().base() == globals.uart_address,
    {
        VirtBoard { uart: NS16550::new(globals.uart_address) }
    }

    /// The board's UART.
    pub closed spec fn get_uart_spec(&self) -> NS16550 {
        self.uart
    }

    /// The board's UART.
    pub fn get_uart(&self) -> (r: &NS16550)
        ensures
            *r == self.get_uart_spec(),
    {
        &self.uart
    }

    /// The board's UART, to be written to.
    pub fn get_uart_mut(&mut self) -> (r: &mut NS16550)
        ensures
            *r == old(self).get_uart_spec(),
            final(self).get_uart_spec() == *final(r),
    {
        &mut self.uart
    }
}

} // verus!
