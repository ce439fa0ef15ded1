//! The PL011 UART: how to configure it, when it is ready, and what to send.

use vstd::prelude::*;
use vstd::string::*;

verus! {

/// The first PL011 on the QEMU `virt` machine.
pub const PL011_BASE: u64 = 0x0900_0000;

/// Data.
pub const DR: u64 = 0x00;

/// Flag.
pub const FR: u64 = 0x18;

/// Integer baud rate divisor.
pub const IBRD: u64 = 0x24;

/// Fractional baud rate divisor.
pub const FBRD: u64 = 0x28;

/// Line control.
pub const LCR_H: u64 = 0x2c;

/// Control.
pub const CR: u64 = 0x30;

/// Interrupt mask set and clear.
pub const IMSC: u64 = 0x38;

/// Interrupt clear.
pub const ICR: u64 = 0x44;

/// A character is still in flight.
pub const FR_BUSY: u32 = 0x8;

/// The transmit FIFO is full.
pub const FR_TXFF: u32 = 0x20;

/// FIFOs on, 8 data bits.
pub const LINE: u32 = 0x70;

/// Enabled, transmitting and receiving.
pub const ENABLED: u32 = 0x301;

/// One register write.
#[derive(Clone, Copy, PartialEq, Eq, Debug, Structural)]
pub struct Write {
    pub address: u64,
    pub value: u32,
}

/// A PL011.
#[derive(Debug)]
pub struct Uart {
    pub base: u64,
}

/// The bytes that put `text` on a terminal: a carriage return goes before every
/// line feed.
pub open spec fn crlf(text: Seq<u8>) -> Seq<u8>
    decreases text.len(),
{
    if text.len() == 0 {
        Seq::empty()
    } else if text.last() == 10 {
        crlf(text.drop_last()).push(13).push(10)
    } else {
        crlf(text.drop_last()).push(text.last())
    }
}

impl Uart {
    /// Its registers are inside the address space.
    pub open spec fn wf(&self) -> bool {
        self.base + 0x1000 <= u64::MAX
    }

    /// The PL011 at `base`.
    pub fn new(base: u64) -> (u: Uart)
        ensures
            u.base == base,
    {
        Uart { base }
    }

    /// The first step of configuring for 115200 baud, 8N1, FIFOs on: the UART
    /// is disabled before its configuration is touched. The next has to wait
    /// until it is not busy.
    pub fn disable(&self) -> (r: Write)
        requires
            self.wf(),
        ensures
            r == (Write { address: (self.base + CR) as u64, value: 0 }),
    {
        Write { address: self.base + CR, value: 0 }
    }

    /// The rest of configuring: a divisor of 13 and 1/64 makes 115200 baud out
    /// of 24 MHz, every interrupt is masked and cleared, and the UART is let go
    /// last.
    pub fn init(&self) -> (r: Vec<Write>)
        requires
            self.wf(),
        ensures
            r@ == seq![
                Write { address: (self.base + IBRD) as u64, value: 13 },
                Write { address: (self.base + FBRD) as u64, value: 1 },
                Write { address: (self.base + LCR_H) as u64, value: LINE },
                Write { address: (self.base + IMSC) as u64, value: 0 },
                Write { address: (self.base + ICR) as u64, value: 0x7ff },
                Write { address: (self.base + CR) as u64, value: ENABLED },
            ],
    {
        let mut writes: Vec<Write> = Vec::new();
        writes.push(Write { address: self.base + IBRD, value: 13 });
        writes.push(Write { address: self.base + FBRD, value: 1 });
        writes.push(Write { address: self.base + LCR_H, value: LINE });
        writes.push(Write { address: self.base + IMSC, value: 0 });
        writes.push(Write { address: self.base + ICR, value: 0x7ff });
        writes.push(Write { address: self.base + CR, value: ENABLED });
        writes
    }

    /// Is a character still in flight, by the flag register?
    pub fn busy(flags: u32) -> (r: bool)
        ensures
            r == (flags & FR_BUSY != 0),
    {
        flags & FR_BUSY != 0
    }

    /// Send a byte, if the flag register says there is room for it.
    pub fn put_byte(&self, flags: u32, byte: u8) -> (r: Option<Write>)
        requires
            self.wf(),
        ensures
            r == if flags & FR_TXFF != 0 {
                None::<Write>
            } else {
                Some(Write { address: (self.base + DR) as u64, value: byte as u32 })
            },
    {
        if flags & FR_TXFF != 0 {
            None
        } else {
            Some(Write { address: self.base + DR, value: byte as u32 })
        }
    }
}

/// The bytes that put `text` on a terminal. Terminals want CRLF; text has bare
/// LF.
pub fn write_str(text: &str) -> (r: Vec<u8>)
    ensures
        r@ == crlf(text.spec_bytes()),
{
    let bytes: &[u8] = text.as_bytes();
    let mut out: Vec<u8> = Vec::new();
    let mut i: usize = 0;
    assert(bytes@.take(0) =~= Seq::<u8>::empty());
    while i < bytes.len()
        invariant
            i <= bytes@.len(),
            out@ == crlf(bytes@.take(i as int)),
        decreases bytes@.len() - i,
    {
        let byte: u8 = bytes[i];
        if byte == 10 {
            out.push(13);
        }
        out.push(byte);
        proof {
            let done = bytes@.take(i + 1);
            assert(done.drop_last() =~= bytes@.take(i as int));
            assert(done.last() == byte);
        }
        i += 1;
    }
    assert(bytes@.take(i as int) =~= bytes@);
    out
}

/// Text without line feeds goes out as it is.
pub proof fn lemma_plain_text(text: Seq<u8>)
    requires
        forall|i: int| 0 <= i < text.len() ==> text[i] != 10,
    ensures
        crlf(text) == text,
    decreases text.len(),
{
    if text.len() > 0 {
        lemma_plain_text(text.drop_last());
        assert(text.drop_last().push(text.last()) =~= text);
    }
}

/// Writing in two pieces sends what writing at once would.
pub proof fn lemma_pieces(one: Seq<u8>, two: Seq<u8>)
    ensures
        crlf(one + two) == crlf(one) + crlf(two),
    decreases two.len(),
{
    if two.len() == 0 {
        assert(one + two =~= one);
        assert(crlf(one) + crlf(two) =~= crlf(one));
    } else {
        lemma_pieces(one, two.drop_last());
        assert((one + two).drop_last() =~= one + two.drop_last());
        assert(crlf(one + two) =~= crlf(one) + crlf(two));
    }
}

/// How many line feeds are there among the first `n` bytes?
pub open spec fn line_feeds(text: Seq<u8>, n: int) -> int
    decreases n,
{
    if n <= 0 {
        0
    } else {
        line_feeds(text, n - 1) + if text[n - 1] == 10 {
            1int
        } else {
            0int
        }
    }
}

proof fn lemma_prefix_feeds(text: Seq<u8>, n: int)
    requires
        0 <= n < text.len(),
    ensures
        line_feeds(text.drop_last(), n) == line_feeds(text, n),
    decreases n,
{
    if n > 0 {
        lemma_prefix_feeds(text, n - 1);
    }
}

/// Where each byte of a text goes, once every line feed has been given a
/// carriage return.
pub proof fn lemma_positions(text: Seq<u8>, i: int)
    requires
        0 <= i < text.len(),
    ensures
        0 <= line_feeds(text, i) <= i,
        crlf(text).len() == text.len() + line_feeds(text, text.len() as int),
        crlf(text).len() > i + line_feeds(text, i),
        text[i] != 10 ==> crlf(text)[i + line_feeds(text, i)] == text[i],
        text[i] == 10 ==> {
            &&& crlf(text).len() > i + line_feeds(text, i) + 1
            &&& crlf(text)[i + line_feeds(text, i)] == 13
            &&& crlf(text)[i + line_feeds(text, i) + 1] == 10
        },
    decreases text.len(),
{
    let rest = text.drop_last();
    let n = rest.len() as int;
    if n > 0 {
        lemma_positions(rest, n - 1);
    }
    assert(rest.len() == 0 ==> crlf(rest).len() == 0);
    assert(crlf(rest).len() == n + line_feeds(rest, n));
    assert(line_feeds(text, n + 1) == line_feeds(text, n) + if text[n] == 10 {
        1int
    } else {
        0int
    });
    assert(line_feeds(text, n) == line_feeds(rest, n)) by {
        lemma_prefix_feeds(text, n);
    }
    lemma_few_feeds(text, i);
    if i < n {
        lemma_positions(rest, i);
        lemma_prefix_feeds(text, i);
    }
}

proof fn lemma_few_feeds(text: Seq<u8>, n: int)
    requires
        0 <= n,
    ensures
        0 <= line_feeds(text, n) <= n,
    decreases n,
{
    if n > 0 {
        lemma_few_feeds(text, n - 1);
    }
}

/// What goes to the terminal is the text, in order, with one byte more for
/// every line feed: each byte comes out moved along by the line feeds before
/// it, and a line feed comes out behind a carriage return.
pub proof fn lemma_text_reaches_the_terminal(text: &str, r: Vec<u8>, i: int)
    requires
        call_ensures(write_str, (text,), r),
        0 <= i < text.spec_bytes().len(),
    ensures
        ({
            let bytes = text.spec_bytes();
            let at = i + line_feeds(bytes, i);
            &&& r@.len() == bytes.len() + line_feeds(bytes, bytes.len() as int)
            &&& 0 <= at < r@.len()
            &&& bytes[i] != 10 ==> r@[at] == bytes[i]
            &&& bytes[i] == 10 ==> at + 1 < r@.len() && r@[at] == 13 && r@[at + 1] == 10
        }),
{
    lemma_positions(text.spec_bytes(), i);
}

/// A byte is sent to the data register, unchanged, exactly when the transmit
/// FIFO has room for it.
pub proof fn lemma_byte_is_sent_when_there_is_room(u: Uart, flags: u32, byte: u8, r: Option<Write>)
    requires
        u.wf(),
        call_ensures(Uart::put_byte, (&u, flags, byte), r),
    ensures
        r is Some <==> flags / 32 % 2 == 0,
        r is Some ==> r->0.address == u.base && r->0.value == byte,
{
    assert((flags & 0x20 != 0) == (flags / 32 % 2 == 1)) by (bit_vector);
}

/// The UART is disabled before it is configured and enabled last, with both
/// directions on, every interrupt masked and cleared, and eight bit characters
/// through the FIFOs at the divisor that 115200 baud takes.
pub proof fn lemma_configured_before_enabled(u: Uart, first: Write, r: Vec<Write>)
    requires
        u.wf(),
        call_ensures(Uart::disable, (&u,), first),
        call_ensures(Uart::init, (&u,), r),
    ensures
        first == (Write { address: (u.base + 0x30) as u64, value: 0 }),
        r@.len() == 6,
        r@.last() == (Write { address: (u.base + 0x30) as u64, value: 0x301 }),
        forall|i: int|
            0 <= i < r@.len() - 1 ==> (#[trigger] r@[i]).address != (u.base + 0x30) as u64,
        r@.contains(Write { address: (u.base + 0x24) as u64, value: 13 }),
        r@.contains(Write { address: (u.base + 0x28) as u64, value: 1 }),
        r@.contains(Write { address: (u.base + 0x2c) as u64, value: 0x70 }),
        r@.contains(Write { address: (u.base + 0x38) as u64, value: 0 }),
        r@.contains(Write { address: (u.base + 0x44) as u64, value: 0x7ff }),
{
    assert(r@[0] == (Write { address: (u.base + 0x24) as u64, value: 13 }));
    assert(r@[1] == (Write { address: (u.base + 0x28) as u64, value: 1 }));
    assert(r@[2] == (Write { address: (u.base + 0x2c) as u64, value: 0x70 }));
    assert(r@[3] == (Write { address: (u.base + 0x38) as u64, value: 0 }));
    assert(r@[4] == (Write { address: (u.base + 0x44) as u64, value: 0x7ff }));
}

/// A character is in flight exactly while bit 3 of the flags says so.
pub proof fn lemma_busy_is_one_flag(flags: u32, r: bool)
    requires
        call_ensures(Uart::busy, (flags,), r),
    ensures
        r <==> flags / 8 % 2 == 1,
{
    assert((flags & 0x8 != 0) == (flags / 8 % 2 == 1)) by (bit_vector);
}

} // verus!
