//! The 16550 UART: register layout, setup sequence and the bytes sent for a character.
use vstd::prelude::*;

verus! {

/// The UART whose registers start at `base`: data buffer, interrupt enable,
/// FIFO control, line control, modem control and line status, one byte each.
pub struct UartPort {
    base: usize,
}

impl UartPort {
    pub closed spec fn base_addr(&self) -> int {
        self.base as int
    }

    pub fn new(base: usize) -> (u: Self)
        requires
            base + 5 <= usize::MAX,
        ensures
            u.base_addr() == base,
    {
        UartPort { base }
    }

    /// Data buffer register.
    pub fn dbr(&self) -> (r: usize)
        requires
            self.base_addr() + 5 <= usize::MAX,
        ensures
            r == self.base_addr(),
    {
        self.base
    }

    /// Interrupt enable register.
    pub fn ier(&self) -> (r: usize)
        requires
            self.base_addr() + 5 <= usize::MAX,
        ensures
            r == self.base_addr() + 1,
    {
        self.base + 1
    }

    /// FIFO control register.
    pub fn fcr(&self) -> (r: usize)
        requires
            self.base_addr() + 5 <= usize::MAX,
        ensures
            r == self.base_addr() + 2,
    {
        self.base + 2
    }

    /// Line control register.
    pub fn lcr(&self) -> (r: usize)
        requires
            self.base_addr() + 5 <= usize::MAX,
        ensures
            r == self.base_addr() + 3,
    {
        self.base + 3
    }

    /// Modem control register.
    pub fn mcr(&self) -> (r: usize)
        requires
            self.base_addr() + 5 <= usize::MAX,
        ensures
            r == self.base_addr() + 4,
    {
        self.base + 4
    }

    /// Line status register.
    pub fn lsr(&self) -> (r: usize)
        requires
            self.base_addr() + 5 <= usize::MAX,
        ensures
            r == self.base_addr() + 5,
    {
        self.base + 5
    }

    /// The register writes that set the line up: interrupts off, 38400
    /// baud through the divisor latch, 8 data bits, FIFOs on and cleared,
    /// modem control lines set, receive interrupts on.
    pub fn start(&self) -> (w: Vec<(usize, u8)>)
        requires
            self.base_addr() + 5 <= usize::MAX,
        ensures
            w@ == seq![
                ((self.base_addr() + 1) as usize, 0x00u8),
                ((self.base_addr() + 3) as usize, 0x80u8),
                (self.base_addr() as usize, 0x03u8),
                ((self.base_addr() + 1) as usize, 0x00u8),
                ((self.base_addr() + 3) as usize, 0x03u8),
                ((self.base_addr() + 2) as usize, 0xC7u8),
                ((self.base_addr() + 4) as usize, 0x0Bu8),
                ((self.base_addr() + 1) as usize, 0x02u8),
            ],
    {
        let ier = self.ier();
        let lcr = self.lcr();
        let dbr = self.dbr();
        let fcr = self.fcr();
        let mcr = self.mcr();
        let mut w = Vec::new();
        w.push((ier, 0x00));
        w.push((lcr, 0x80));
        w.push((dbr, 0x03));
        w.push((ier, 0x00));
        w.push((lcr, 0x03));
        w.push((fcr, 0xC7));
        w.push((mcr, 0x0B));
        w.push((ier, 0x02));
        proof {
            assert(w@ =~= seq![
                ((self.base_addr() + 1) as usize, 0x00u8),
                ((self.base_addr() + 3) as usize, 0x80u8),
                (self.base_addr() as usize, 0x03u8),
                ((self.base_addr() + 1) as usize, 0x00u8),
                ((self.base_addr() + 3) as usize, 0x03u8),
                ((self.base_addr() + 2) as usize, 0xC7u8),
                ((self.base_addr() + 4) as usize, 0x0Bu8),
                ((self.base_addr() + 1) as usize, 0x02u8),
            ]);
        }
        w
    }

    /// The bytes written to the data register for `data`: a backspace or
    /// delete erases the previous character (back, space, back).
    pub fn send(&self, data: u8) -> (bytes: Vec<u8>)
        ensures
            data == 8 || data == 0x7F ==> bytes@ == seq![8u8, 32u8, 8u8],
            data != 8 && data != 0x7F ==> bytes@ == seq![data],
    {
        let mut bytes = Vec::new();
        if data == 8 || data == 0x7F {
            bytes.push(8);
            bytes.push(32);
            bytes.push(8);
            proof {
                assert(bytes@ =~= seq![8u8, 32u8, 8u8]);
            }
        } else {
            bytes.push(data);
            proof {
                assert(bytes@ =~= seq![data]);
            }
        }
        bytes
    }

    /// Whether the line status `lsr` lets a byte be sent: the transmit
    /// holding register is empty. Sending reads the status once and waits
    /// on that reading.
    pub fn can_send(lsr: u8) -> (r: bool)
        ensures
            r == (lsr & 0x20 != 0),
    {
        lsr & 0x20 != 0
    }

    /// Whether the line status `lsr` reports a received byte. Receiving
    /// reads the status once and waits on that reading.
    pub fn can_receive(lsr: u8) -> (r: bool)
        ensures
            r == (lsr & 0x01 != 0),
    {
        lsr & 0x01 != 0
    }
}

/// The word written to the test device to stop the machine: the pass code
/// for `reason`, otherwise the fail code with status 1.
pub fn shutdown_code(reason: bool) -> (r: u32)
    ensures
        r == if reason {
            0x5555u32
        } else {
            0x13333u32
        },
{
    if reason {
        0x5555
    } else {
        assert((1u32 << 16u32) | 0x3333u32 == 0x13333u32) by (bit_vector);
        (1u32 << 16u32) | 0x3333
    }
}

} // verus!
