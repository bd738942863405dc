//! The code buffer: a growable byte store that is either writable or
//! executable, never both.
//!
//! Code is assembled while the buffer is writable.  To run it, the buffer
//! is flipped to executable; the bytes can then be read for execution but
//! not changed.  Flipping back makes it writable again.  The memory
//! protection itself is the host's business; this type carries the bytes
//! and enforces the protocol.

use vstd::prelude::*;

verus! {

/// The two states of a [`CodeBuffer`]: exactly one is active at a time.
#[derive(Debug, Copy, Clone, PartialEq, Eq, Structural)]
pub enum BufferMode {
    Writable,
    Executable,
}

/// A growable byte store with a [`BufferMode`].
#[derive(Debug)]
pub struct CodeBuffer {
    bytes: Vec<u8>,
    mode: BufferMode,
}

impl View for CodeBuffer {
    type V = Seq<u8>;

    closed spec fn view(&self) -> Seq<u8> {
        self.bytes@
    }
}

impl CodeBuffer {
    /// The current mode.
    pub closed spec fn mode(self) -> BufferMode {
        self.mode
    }

    /// An empty, writable buffer.
    pub fn new() -> (b: CodeBuffer)
        ensures
            b@ =~= Seq::<u8>::empty(),
            b.mode() == BufferMode::Writable,
    {
        CodeBuffer { bytes: Vec::new(), mode: BufferMode::Writable }
    }

    /// The number of bytes written so far.
    pub fn len(&self) -> (n: usize)
        ensures
            n == self@.len(),
    {
        self.bytes.len()
    }

    /// Whether the buffer is currently executable.
    pub fn is_executable(&self) -> (r: bool)
        ensures
            r == (self.mode() == BufferMode::Executable),
    {
        self.mode == BufferMode::Executable
    }

    /// Writes one byte at `pos`, which is at most the length: writing at
    /// the end grows the buffer.  Assembly requires the writable state.
    pub fn write_byte_at(&mut self, pos: usize, b: u8)
        requires
            old(self).mode() == BufferMode::Writable,
            pos <= old(self)@.len(),
        ensures
            final(self).mode() == BufferMode::Writable,
            pos < old(self)@.len() ==> final(self)@ =~= old(self)@.update(pos as int, b),
            pos == old(self)@.len() ==> final(self)@ =~= old(self)@.push(b),
    {
        if pos == self.bytes.len() {
            self.bytes.push(b);
        } else {
            self.bytes.set(pos, b);
        }
    }

    /// Reads the byte at `pos`.
    pub fn read_byte(&self, pos: usize) -> (b: u8)
        requires
            pos < self@.len(),
        ensures
            b == self@[pos as int],
    {
        self.bytes[pos]
    }

    /// Flips the buffer to executable.  Until it is flipped back, the
    /// bytes can be read for execution but no code can be assembled.
    pub fn make_executable(&mut self)
        requires
            old(self).mode() == BufferMode::Writable,
        ensures
            final(self)@ =~= old(self)@,
            final(self).mode() == BufferMode::Executable,
    {
        self.mode = BufferMode::Executable;
    }

    /// Flips the buffer back to writable.
    pub fn make_writable(&mut self)
        requires
            old(self).mode() == BufferMode::Executable,
        ensures
            final(self)@ =~= old(self)@,
            final(self).mode() == BufferMode::Writable,
    {
        self.mode = BufferMode::Writable;
    }

    /// The assembled bytes, readable for execution: the buffer must be
    /// executable.
    pub fn executable_bytes(&self) -> (r: &Vec<u8>)
        requires
            self.mode() == BufferMode::Executable,
        ensures
            r@ =~= self@,
    {
        &self.bytes
    }
}

} // verus!
