use vstd::prelude::*;

verus! {

/// Transmit holding register (write) and receive holding register (read).
pub const THR_RHR_ADDRESS: usize = 0;

/// Interrupt enable register.
pub const IER_ADDRESS: usize = 1;

/// FIFO control register (write) and interrupt status register (read).
pub const FIFO_ISR_ADDRESS: usize = 2;

/// Line control register.
pub const LCR_ADDRESS: usize = 3;

/// Bit of the interrupt status register that is set while received data
/// waits to be read.
pub const RECEIVED_DATA_READY_MASK: u8 = 0b0100;

/// Line control value for 8-bit words: bits 0 and 1 set, the rest clear.
pub const LCR_EIGHT_BIT: u8 = 0b011;

/// FIFO control value that enables the FIFOs and resets receiver and
/// transmitter.
pub const FIFO_ENABLE_AND_RESET: u8 = 0b111;

/// Interrupt enable value for the data-ready interrupt.
pub const IER_DATA_READY: u8 = 0b1;

/// An NS16550 UART whose 8-bit registers are mapped at `address`.
pub struct NS16550 {
    address: usize,
}

impl NS16550 {
    /// The base address of the register block.
    pub closed spec fn base(&self) -> int {
        self.address as int
    }

    /// A UART whose registers start at `address`; the register writes that
    /// bring it up are those of `setup_writes`.
    pub fn new(address: usize) -> (r: Self)
        ensures
            r.base() == address,
    {
        NS16550 { address }
    }

    /// The base address of the register block.
    pub fn address(&self) -> (r: usize)
        ensures
            r == self.base(),
    {
        self.address
    }

    /// The register writes, in order, that set the UART up: 8-bit words,
    /// FIFOs enabled and reset, and the data-ready interrupt on.
    pub fn setup_writes(&self) -> (r: Vec<(usize, u8)>)
        requires
            self.base() + LCR_ADDRESS <= usize::MAX,
        ensures
            r@ == seq![
                ((self.base() + LCR_ADDRESS) as usize, LCR_EIGHT_BIT),
                ((self.base() + FIFO_ISR_ADDRESS) as usize, FIFO_ENABLE_AND_RESET),
                ((self.base() + IER_ADDRESS) as usize, IER_DATA_READY),
            ],
    {
        let mut r: Vec<(usize, u8)> = Vec::new();
        r.push((self.address + LCR_ADDRESS, LCR_EIGHT_BIT));
        r.push((self.address + FIFO_ISR_ADDRESS, FIFO_ENABLE_AND_RESET));
        r.push((self.address + IER_ADDRESS, IER_DATA_READY));
        r
    }

    /// The register that a byte to send is written to.
    pub fn transmit_address(&self) -> (r: usize)
        requires
            self.base() + THR_RHR_ADDRESS <= usize::MAX,
        ensures
            r == self.base() + THR_RHR_ADDRESS,
    {
        self.address + THR_RHR_ADDRESS
    }

    /// The register that a received byte is read from.
    pub fn receive_address(&self) -> (r: usize)
        requires
            self.base() + THR_RHR_ADDRESS <= usize::MAX,
        ensures
            r == self.base() + THR_RHR_ADDRESS,
    {
        self.address + THR_RHR_ADDRESS
    }

    /// The register that tells whether data has been received.
    pub fn status_address(&self) -> (r: usize)
        requires
            self.base() + FIFO_ISR_ADDRESS <= usize::MAX,
        ensures
            r == self.base() + FIFO_ISR_ADDRESS,
    {
        self.address + FIFO_ISR_ADDRESS
    }

    /// Whether an interrupt status value says that received data waits.
    pub fn data_ready(isr: u8) -> (r: bool)
        ensures
            r == (isr & RECEIVED_DATA_READY_MASK == RECEIVED_DATA_READY_MASK),
    {
        isr & RECEIVED_DATA_READY_MASK == RECEIVED_DATA_READY_MASK
    }
}

} // verus!
