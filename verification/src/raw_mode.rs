//! The terminal settings that raw mode asks for.
//!
//! Reading and writing the settings (`tcgetattr` / `tcsetattr`) is done by
//! the program; this module computes the raw settings from the current ones.

use vstd::prelude::*;

verus! {

/// The four flag words and the two read controls of a terminal's settings.
#[derive(Clone, Copy, PartialEq, Eq, Structural, Debug)]
pub struct TermModes {
    /// Input modes (`c_iflag`).
    pub input: u64,
    /// Output modes (`c_oflag`).
    pub output: u64,
    /// Control modes (`c_cflag`).
    pub control: u64,
    /// Local modes (`c_lflag`).
    pub local: u64,
    /// Minimum number of bytes a read waits for (`c_cc[VMIN]`).
    pub min_bytes: u8,
    /// Read timeout in tenths of a second (`c_cc[VTIME]`).
    pub timeout: u8,
}

/// The platform's bit for each setting that raw mode touches.
#[derive(Clone, Copy, PartialEq, Eq, Structural, Debug)]
pub struct ModeBits {
    pub brkint: u64,
    pub icrnl: u64,
    pub inpck: u64,
    pub istrip: u64,
    pub ixon: u64,
    pub opost: u64,
    pub cs8: u64,
    pub echo: u64,
    pub icanon: u64,
    pub isig: u64,
}

/// The settings raw mode applies on top of `orig`: break, CR-to-NL,
/// parity, stripping and flow-control bits cleared from the input word,
/// output post-processing off, 8-bit characters set in the control word,
/// echo, canonical mode and signals off, and reads that return after one
/// byte with no timeout.
pub fn raw_modes(orig: TermModes, bits: ModeBits) -> (raw: TermModes)
    ensures
        raw.input == orig.input & !(bits.brkint | bits.icrnl | bits.inpck | bits.istrip
            | bits.ixon),
        raw.output == orig.output & !bits.opost,
        raw.control == orig.control | bits.cs8,
        raw.local == orig.local & !(bits.echo | bits.icanon | bits.isig),
        raw.min_bytes == 1,
        raw.timeout == 0,
{
    let mut raw = orig;
    raw.input = raw.input & !(bits.brkint | bits.icrnl | bits.inpck | bits.istrip | bits.ixon);
    raw.output = raw.output & !bits.opost;
    raw.control = raw.control | bits.cs8;
    raw.local = raw.local & !(bits.echo | bits.icanon | bits.isig);
    raw.min_bytes = 1;
    raw.timeout = 0;
    raw
}

} // verus!
