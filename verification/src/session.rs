//! Byte-budget accounting for the chunked read loop.
//!
//! The caller owns the file handle and a staging buffer.  Each time a
//! read fills the buffer with `bytes_read` bytes, one call of
//! [`DumpSession::step`] clamps that count against the remaining byte
//! budget, renders the clamped span, and advances the running offset;
//! the returned flag says when the budget is exhausted and the loop must
//! stop.  A read that yields no bytes, or fails, simply ends the loop on
//! the caller's side, with no further output.

use vstd::prelude::*;

use crate::format::{format_hexdump, hexdump};

verus! {

/// The staging buffer's capacity: how many bytes one read may yield.
pub const STAGING_CAPACITY: usize = 2048;

/// The byte budget as a plain bound: the given maximum, or the largest
/// representable count when no maximum was given.
pub open spec fn budget_limit(budget: Option<usize>) -> nat {
    match budget {
        Some(b) => b as nat,
        None => usize::MAX as nat,
    }
}

/// How many of `bytes_read` bytes may still be printed when `offset`
/// bytes have been printed already: the read count, clamped to what is
/// left of the budget.
pub open spec fn clamp_len(bytes_read: nat, offset: nat, budget: Option<usize>) -> nat {
    if offset + bytes_read > budget_limit(budget) {
        (budget_limit(budget) - offset) as nat
    } else {
        bytes_read
    }
}

/// The state the read loop carries between iterations: the running
/// offset of bytes printed so far, and the immutable byte budget.
pub struct DumpSession {
    pub offset: usize,
    pub budget: Option<usize>,
}

impl DumpSession {
    /// The running offset never passes the budget.
    pub open spec fn wf(self) -> bool {
        self.offset as nat <= budget_limit(self.budget)
    }

    /// Whether the budget is exhausted and the loop is done.
    pub open spec fn finished(self) -> bool {
        self.offset as nat >= budget_limit(self.budget)
    }

    /// A fresh session: nothing printed yet.
    pub fn new(budget: Option<usize>) -> (s: Self)
        ensures
            s.offset == 0,
            s.budget == budget,
            s.wf(),
    {
        DumpSession { offset: 0, budget }
    }

    /// One loop iteration after a read that yielded `bytes_read` bytes in
    /// `buffer`: renders the read bytes, clamped to the remaining budget,
    /// labelled with the running offset, and advances the offset.  The
    /// returned flag is true exactly when the budget is now exhausted.
    pub fn step(&mut self, buffer: &[u8], bytes_read: usize) -> (r: (Vec<u8>, bool))
        requires
            old(self).wf(),
            bytes_read <= buffer@.len(),
        ensures
            final(self).budget == old(self).budget,
            final(self).offset == old(self).offset + clamp_len(
                bytes_read as nat,
                old(self).offset as nat,
                old(self).budget,
            ),
            final(self).wf(),
            r.0@ == hexdump(
                buffer@.take(
                    clamp_len(bytes_read as nat, old(self).offset as nat, old(self).budget) as int,
                ),
                old(self).offset as nat,
            ),
            r.1 == final(self).finished(),
    {
        let limit: usize = match self.budget {
            Some(b) => b,
            None => usize::MAX,
        };
        let bytes_to_print: usize = if bytes_read > limit - self.offset {
            limit - self.offset
        } else {
            bytes_read
        };
        let out = format_hexdump(buffer, bytes_to_print, self.offset);
        self.offset = self.offset + bytes_to_print;
        let done = self.offset >= limit;
        (out, done)
    }
}

} // verus!
