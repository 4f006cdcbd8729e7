//! Terminal events and the decisions of the event loop.
//!
//! The TTY itself (raw mode, the alternate screen, the resize self-pipe, and
//! the system calls that wait and read) is driven by the program; this
//! module holds the values it exchanges and decides, from what each call
//! reported, what the loop does next.

use vstd::prelude::*;

verus! {

/// Dimensions of the terminal, in character cells.
#[derive(Clone, Copy, PartialEq, Eq, Structural, Debug)]
pub struct TermSize {
    pub rows: u16,
    pub cols: u16,
}

/// A key press decoded from the input stream.
///
/// Only single characters are decoded so far; the named keys are reserved
/// for escape-sequence decoding.
#[derive(Clone, Copy, PartialEq, Eq, Structural, Debug)]
pub enum Key {
    Char(char),
    Up,
    Down,
    Left,
    Right,
    Enter,
    Esc,
}

/// An event produced by waiting on the terminal.
#[derive(Clone, Copy, PartialEq, Eq, Structural, Debug)]
pub enum Event {
    Key(Key),
    Resize(TermSize),
}

/// The `poll` timeout for a wait of at most `timeout_ms` milliseconds:
/// `None` waits indefinitely (`-1`); a count is passed as a C `int`,
/// saturating at `i32::MAX` so that a long wait never becomes an endless one.
pub fn poll_timeout(timeout_ms: Option<u32>) -> (t: i32)
    ensures
        match timeout_ms {
            None => t == -1,
            Some(ms) => 0 <= t <= ms && t == (if ms <= i32::MAX { ms as int } else { i32::MAX as int }),
        },
{
    match timeout_ms {
        None => -1,
        Some(ms) => {
            if ms <= 2147483647 {
                ms as i32
            } else {
                2147483647
            }
        },
    }
}

/// What the event loop does after a wait.
#[derive(Clone, Copy, PartialEq, Eq, Structural, Debug)]
pub enum AfterPoll {
    /// A signal interrupted the wait: wait again.
    Retry,
    /// The wait failed: report the OS error.
    Fail,
    /// The timeout elapsed with no event.
    TimedOut,
    /// The resize pipe is readable: drain it and re-measure.
    DrainResize,
    /// Keyboard input is ready: read one byte.
    ReadKey,
}

/// Decides what follows a wait that returned `ret` (`-1` on error, in which
/// case `interrupted` tells whether a signal caused it), with the resize
/// pipe and standard input reported readable or not. A resize takes
/// precedence over input; a wake-up with neither waits again.
pub fn after_poll(ret: i32, interrupted: bool, resize_ready: bool, input_ready: bool) -> (a: AfterPoll)
    ensures
        a == if ret == -1 {
            if interrupted {
                AfterPoll::Retry
            } else {
                AfterPoll::Fail
            }
        } else if ret == 0 {
            AfterPoll::TimedOut
        } else if resize_ready {
            AfterPoll::DrainResize
        } else if input_ready {
            AfterPoll::ReadKey
        } else {
            AfterPoll::Retry
        },
{
    if ret == -1 {
        if interrupted {
            return AfterPoll::Retry;  // retry; a signal interrupted the wait
        }
        return AfterPoll::Fail;
    }
    if ret == 0 {
        return AfterPoll::TimedOut;  // timed out with no event
    }
    // SIGWINCH woke the poll: drain the byte and re-measure.
    if resize_ready {
        return AfterPoll::DrainResize;
    }
    // Keyboard input is ready.
    if input_ready {
        return AfterPoll::ReadKey;
    }
    AfterPoll::Retry
}

/// What the event loop does after reading from the resize pipe.
#[derive(Clone, Copy, PartialEq, Eq, Structural, Debug)]
pub enum AfterResizeRead {
    /// A signal interrupted the read: wait again.
    Retry,
    /// The read failed: report the OS error.
    Fail,
    /// The pipe was drained: re-measure and report the new size.
    Remeasure,
}

/// Decides what follows a read of the resize pipe that returned `n`
/// (`-1` on error, `interrupted` telling whether a signal caused it).
pub fn after_resize_read(n: isize, interrupted: bool) -> (a: AfterResizeRead)
    ensures
        a == if n == -1 {
            if interrupted {
                AfterResizeRead::Retry
            } else {
                AfterResizeRead::Fail
            }
        } else {
            AfterResizeRead::Remeasure
        },
{
    if n == -1 {
        if interrupted {
            return AfterResizeRead::Retry;
        }
        return AfterResizeRead::Fail;
    }
    AfterResizeRead::Remeasure
}

/// What the event loop does after reading one byte of keyboard input.
#[derive(Clone, Copy, PartialEq, Eq, Structural, Debug)]
pub enum AfterKeyRead {
    /// A signal interrupted the read: wait again.
    Retry,
    /// The read failed: report the OS error.
    Fail,
    /// Standard input is closed: report an unexpected end of file.
    EndOfInput,
    /// A key was read.
    Pressed(Key),
}

/// The key a raw input byte stands for: for now the byte itself, as a
/// character.
pub fn decode_key(byte: u8) -> (k: Key)
    ensures
        k == Key::Char(byte as char),
{
    Key::Char(byte as char)
}

/// Decides what follows a read of standard input that returned `n` (`-1` on
/// error, `interrupted` telling whether a signal caused it) and filled in
/// `byte` when it read one.
pub fn after_key_read(n: isize, interrupted: bool, byte: u8) -> (a: AfterKeyRead)
    ensures
        a == if n == -1 {
            if interrupted {
                AfterKeyRead::Retry
            } else {
                AfterKeyRead::Fail
            }
        } else if n == 0 {
            AfterKeyRead::EndOfInput
        } else {
            AfterKeyRead::Pressed(Key::Char(byte as char))
        },
{
    if n == -1 {
        if interrupted {
            return AfterKeyRead::Retry;
        }
        return AfterKeyRead::Fail;
    }
    if n == 0 {
        return AfterKeyRead::EndOfInput;
    }
    AfterKeyRead::Pressed(decode_key(byte))
}

} // verus!
