//! The serial port driver's decisions: which bytes go to which I/O port.
//! Performing the port writes is left to the caller.
use vstd::prelude::*;
use vstd::string::*;

verus! {

/// Base I/O port of the first serial port.
pub const COM1: u16 = 0x3f8;

/// A serial port at I/O port `port` and the four registers above it.
#[derive(Clone, Copy, PartialEq, Eq, Structural, Debug)]
pub struct Writer {
    pub port: u16,
}

/// The byte sent for character `c`: its low eight bits.
pub open spec fn byte_of(c: char) -> u8 {
    (c as u32 % 256) as u8
}

/// The port writes that send `s`, skipping NUL characters.
pub open spec fn writes_for(port: u16, s: Seq<char>) -> Seq<(u16, u8)>
    decreases s.len(),
{
    if s.len() == 0 {
        Seq::empty()
    } else {
        let rest = writes_for(port, s.drop_last());
        if s.last() == '\0' {
            rest
        } else {
            rest.push((port, byte_of(s.last())))
        }
    }
}

/// The port writes that set up the serial port at `port`.
pub open spec fn initialization_writes_for(port: u16) -> Seq<(u16, u8)> {
    let interrupt_enable = (port + 1) as u16;
    let fifo_control = (port + 2) as u16;
    let line_control = (port + 3) as u16;
    let modem_control = (port + 4) as u16;
    seq![
        (interrupt_enable, 0x00u8),
        (line_control, 0x80u8),
        (port, 0x03u8),
        (interrupt_enable, 0x00u8),
        (line_control, 0x03u8),
        (fifo_control, 0xC7u8),
        (modem_control, 0x0Bu8),
        (modem_control, 0x1Eu8),
        (port, 0xAEu8),
        (modem_control, 0x0Fu8),
    ]
}

impl Writer {
    pub fn new(port: u16) -> (r: Self)
        requires
            port <= u16::MAX - 4,
        ensures
            r.port == port,
    {
        Writer { port }
    }

    /// The port writes that set the port up: interrupts off, 38400 baud,
    /// 8 bits, no parity, one stop bit, FIFO on, then a loopback test byte
    /// and normal operation.
    pub fn initialization_writes(&self) -> (r: Vec<(u16, u8)>)
        requires
            self.port <= u16::MAX - 4,
        ensures
            r@ == initialization_writes_for(self.port),
    {
        let p = self.port;
        let r = vec![
            (p + 1, 0x00u8),
            (p + 3, 0x80u8),
            (p, 0x03u8),
            (p + 1, 0x00u8),
            (p + 3, 0x03u8),
            (p + 2, 0xC7u8),
            (p + 4, 0x0Bu8),
            (p + 4, 0x1Eu8),
            (p, 0xAEu8),
            (p + 4, 0x0Fu8),
        ];
        assert(r@ =~= initialization_writes_for(self.port));
        r
    }

    /// The port write that sends `character`; none for NUL.
    pub fn write_character(&self, character: char) -> (r: Option<(u16, u8)>)
        ensures
            character == '\0' ==> r.is_none(),
            character != '\0' ==> r == Some((self.port, byte_of(character))),
    {
        if character == '\0' {
            return None;
        }
        let code = character as u32;
        Some((self.port, (code % 256) as u8))
    }

    /// The port writes that send `string`, one byte per character.
    pub fn write_string(&self, string: &str) -> (r: Vec<(u16, u8)>)
        ensures
            r@ == writes_for(self.port, string@),
    {
        let n = string.unicode_len();
        let mut r: Vec<(u16, u8)> = Vec::new();
        let mut i: usize = 0;
        while i < n
            invariant
                n == string@.len(),
                i <= n,
                r@ == writes_for(self.port, string@.subrange(0, i as int)),
            decreases n - i,
        {
            let c = string.get_char(i);
            assert(string@.subrange(0, i + 1).drop_last() =~= string@.subrange(0, i as int));
            if let Some(w) = self.write_character(c) {
                r.push(w);
            }
            i = i + 1;
        }
        assert(string@.subrange(0, n as int) =~= string@);
        r
    }
}

} // verus!
