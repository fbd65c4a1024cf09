//! Fixed-capacity, append-only byte store.

use vstd::prelude::*;

use crate::error::Error;

verus! {

/// A buffer that holds at most `CAPACITY` bytes.
///
/// The only mutators are `put`, which appends one byte and fails with
/// `BufferFull` once the capacity is reached, and `reset`, which makes the
/// buffer empty again. The view of a buffer is the sequence of bytes it
/// currently holds, in insertion order.
pub struct BasicBuffer<const CAPACITY: usize> {
    buf: Vec<u8>,
}

impl<const CAPACITY: usize> View for BasicBuffer<CAPACITY> {
    type V = Seq<u8>;

    closed spec fn view(&self) -> Seq<u8> {
        self.buf@
    }
}

impl<const CAPACITY: usize> BasicBuffer<CAPACITY> {
    /// Create an empty buffer.
    pub fn new() -> (r: Self)
        ensures
            r@ == Seq::<u8>::empty(),
    {
        BasicBuffer { buf: Vec::new() }
    }

    /// Make the buffer empty; bytes beyond the new length are forgotten.
    pub fn reset(&mut self)
        ensures
            final(self)@ == Seq::<u8>::empty(),
    {
        self.buf.clear();
    }

    /// The bytes currently held, in insertion order.
    pub fn slice(&self) -> (r: &[u8])
        ensures
            r@ == self@,
    {
        self.buf.as_slice()
    }

    /// True exactly when the buffer holds no bytes yet.
    pub fn is_first_byte(&self) -> (r: bool)
        ensures
            r == (self@.len() == 0),
    {
        self.buf.len() == 0
    }

    /// Append one byte; fails with `BufferFull`, and appends nothing, once
    /// `CAPACITY` bytes are held.
    pub fn put(&mut self, c: u8) -> (r: Result<(), Error>)
        ensures
            old(self)@.len() < CAPACITY ==> r == Ok::<(), Error>(())
                && final(self)@ == old(self)@.push(c),
            old(self)@.len() >= CAPACITY ==> r == Err::<(), Error>(Error::BufferFull)
                && final(self)@ == old(self)@,
    {
        if self.buf.len() >= CAPACITY {
            Err(Error::BufferFull)
        } else {
            self.buf.push(c);
            Ok(())
        }
    }
}

} // verus!
