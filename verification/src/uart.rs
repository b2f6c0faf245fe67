//! UART driver decisions for the QEMU virt machine (NS16550A compatible).
//!
//! The register accesses themselves are memory-mapped I/O; this module computes
//! which registers are written with what, and what to do with each status read.
use vstd::prelude::*;
use vstd::string::StringSliceAdditionalSpecFns;

verus! {

/// UART base address for QEMU virt machine
pub const UART_BASE: usize = 0x1000_0000;

/// Transmit Holding Register (write)
pub const THR: usize = 0;

/// Interrupt Enable Register
pub const IER: usize = 1;

/// FIFO Control Register (write)
pub const FCR: usize = 2;

/// Line Control Register
pub const LCR: usize = 3;

/// Line Status Register
pub const LSR: usize = 5;

/// Line Status Register bit: transmit holding register empty
pub const TX_EMPTY: u8 = 0x20;

/// A byte to store into a device register.
#[derive(Debug, Clone, Copy, PartialEq, Eq, Structural)]
pub struct RegWrite {
    pub addr: usize,
    pub value: u8,
}

/// What transmitting a byte asks for next.
#[derive(Debug, Clone, Copy, PartialEq, Eq, Structural)]
pub enum TxStep {
    /// The transmitter is busy: read the status register at this address again.
    Poll(usize),
    /// Store the byte into the transmit register.
    Send(RegWrite),
}

/// UART driver
pub struct Uart {
    base: usize,
}

/// The bytes sent for `bytes`: each newline is preceded by a carriage return.
pub open spec fn crlf(bytes: Seq<u8>) -> Seq<u8>
    decreases bytes.len(),
{
    if bytes.len() == 0 {
        Seq::empty()
    } else {
        let last = bytes.last();
        crlf(bytes.drop_last()) + if last == 10 {
            seq![13u8, 10u8]
        } else {
            seq![last]
        }
    }
}

/// A single byte goes out as itself, except a newline, which goes out as a carriage
/// return followed by the newline.
pub proof fn lemma_crlf_byte(b: u8)
    ensures
        crlf(seq![b]) == if b == 10 {
            seq![13u8, 10u8]
        } else {
            seq![b]
        },
{
    assert(seq![b].drop_last() =~= Seq::<u8>::empty());
    assert(crlf(Seq::<u8>::empty()) + seq![13u8, 10u8] =~= seq![13u8, 10u8]);
    assert(crlf(Seq::<u8>::empty()) + seq![b] =~= seq![b]);
}

/// What goes out for two pieces of text one after the other is what goes out for the
/// first followed by what goes out for the second: every byte is translated on its
/// own, wherever it stands, and the order is kept.
pub proof fn lemma_crlf_append(a: Seq<u8>, b: Seq<u8>)
    ensures
        crlf(a + b) == crlf(a) + crlf(b),
    decreases b.len(),
{
    if b.len() == 0 {
        assert(a + b =~= a);
        assert(crlf(a) + crlf(b) =~= crlf(a));
    } else {
        let last = b.last();
        lemma_crlf_append(a, b.drop_last());
        assert((a + b).drop_last() =~= a + b.drop_last());
        assert((a + b).last() == last);
        let tail = if last == 10 {
            seq![13u8, 10u8]
        } else {
            seq![last]
        };
        assert(crlf(a + b) == crlf(a + b.drop_last()) + tail);
        assert(crlf(b) == crlf(b.drop_last()) + tail);
        assert(crlf(a) + crlf(b.drop_last()) + tail =~= crlf(a) + (crlf(b.drop_last()) + tail));
    }
}

/// Every byte of the input, at every position, contributes exactly its own output: the
/// output for the first `i + 1` bytes is the output for the first `i` followed by that
/// of byte `i` alone. In particular a newline at the very start goes out as CR LF.
pub proof fn lemma_crlf_each_byte(bytes: Seq<u8>, i: int)
    requires
        0 <= i < bytes.len(),
    ensures
        crlf(bytes.take(i + 1)) == crlf(bytes.take(i)) + if bytes[i] == 10 {
            seq![13u8, 10u8]
        } else {
            seq![bytes[i]]
        },
{
    assert(bytes.take(i + 1) =~= bytes.take(i) + seq![bytes[i]]);
    lemma_crlf_append(bytes.take(i), seq![bytes[i]]);
    lemma_crlf_byte(bytes[i]);
}

impl Uart {
    /// The device's registers start at `base`.
    pub closed spec fn spec_base(&self) -> int {
        self.base as int
    }

    #[verifier::type_invariant]
    closed spec fn registers_addressable(&self) -> bool {
        self.base + LSR <= usize::MAX
    }

    /// Create a new UART instance for the device at `base`
    pub fn new(base: usize) -> (u: Self)
        requires
            base + LSR <= usize::MAX,
        ensures
            u.spec_base() == base,
    {
        Uart { base }
    }

    /// The device's base address.
    pub fn base(&self) -> (r: usize)
        ensures
            r == self.spec_base(),
            r + LSR <= usize::MAX,
    {
        proof {
            use_type_invariant(self);
        }
        self.base
    }

    /// Initialize the UART: the register stores that disable interrupts, enable and
    /// clear the FIFOs, and select 8 data bits, no parity, 1 stop bit (8N1), in order.
    pub fn init(&self) -> (writes: Vec<RegWrite>)
        ensures
            writes@ == seq![
                RegWrite { addr: (self.spec_base() + IER) as usize, value: 0x00 },
                RegWrite { addr: (self.spec_base() + FCR) as usize, value: 0x07 },
                RegWrite { addr: (self.spec_base() + LCR) as usize, value: 0x03 },
            ],
    {
        proof {
            use_type_invariant(self);
        }
        let mut writes: Vec<RegWrite> = Vec::new();
        // Disable interrupts
        writes.push(RegWrite { addr: self.base + IER, value: 0x00 });
        // Enable FIFO, clear TX/RX queues
        writes.push(RegWrite { addr: self.base + FCR, value: 0x07 });
        // Set 8 bits, no parity, 1 stop bit (8N1)
        writes.push(RegWrite { addr: self.base + LCR, value: 0x03 });
        writes
    }

    /// Transmit a byte: given the line status `lsr` just read, wait for the transmit
    /// holding register to be empty (poll the status again) or store `c` into it.
    pub fn put_char(&self, lsr: u8, c: u8) -> (step: TxStep)
        ensures
            step == if lsr & TX_EMPTY == 0 {
                TxStep::Poll((self.spec_base() + LSR) as usize)
            } else {
                TxStep::Send(RegWrite { addr: (self.spec_base() + THR) as usize, value: c })
            },
    {
        proof {
            use_type_invariant(self);
        }
        if lsr & TX_EMPTY == 0 {
            TxStep::Poll(self.base + LSR)
        } else {
            TxStep::Send(RegWrite { addr: self.base + THR, value: c })
        }
    }

    /// The bytes that writing the string `s` transmits, in order: its bytes, with a
    /// carriage return before each newline.
    pub fn output_bytes(&self, s: &str) -> (out: Vec<u8>)
        ensures
            out@ == crlf(s.spec_bytes()),
    {
        let bytes = s.as_bytes();
        let mut out: Vec<u8> = Vec::new();
        let mut i: usize = 0;
        while i < bytes.len()
            invariant
                bytes@ == s.spec_bytes(),
                i <= bytes.len(),
                out@ == crlf(bytes@.take(i as int)),
            decreases bytes.len() - i,
        {
            let byte = bytes[i];
            if byte == 10u8 {
                out.push(13u8);
            }
            out.push(byte);
            proof {
                assert(bytes@.take(i + 1).drop_last() =~= bytes@.take(i as int));
            }
            i = i + 1;
        }
        assert(bytes@.take(bytes.len() as int) =~= bytes@);
        out
    }
}

} // verus!
