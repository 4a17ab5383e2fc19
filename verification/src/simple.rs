//! A single-slot coalescing mailbox: every `send` replaces whatever value is
//! waiting, so a consumer that polls always receives the most recent value
//! and never a backlog.
//!
//! In a lock-free deployment the slot would be an atomic pointer swapped by
//! senders and the receiver; with exclusive ownership the slot is a plain
//! optional value.

use vstd::prelude::*;

verus! {

/// The one-value buffer. Its view is the waiting value, if any.
pub struct Buffer<T> {
    value: Option<T>,
}

impl<T> View for Buffer<T> {
    type V = Option<T>;

    closed spec fn view(&self) -> Option<T> {
        self.value
    }
}

impl<T> Buffer<T> {
    /// Creates an empty buffer.
    pub fn new() -> (r: Buffer<T>)
        ensures
            r@ is None,
    {
        Buffer { value: None }
    }

    /// Publishes `val`, replacing and dropping any value not yet polled:
    /// consecutive sends coalesce to the latest.
    pub fn send(&mut self, val: T)
        ensures
            final(self)@ == Some(val),
    {
        self.value = Some(val);
    }

    /// Takes the waiting value, leaving the buffer empty; returns nothing
    /// when no send has happened since the last poll.
    pub fn poll(&mut self) -> (r: Option<T>)
        ensures
            r == old(self)@,
            final(self)@ is None,
    {
        self.value.take()
    }
}

} // verus!
