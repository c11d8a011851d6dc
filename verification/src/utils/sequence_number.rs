//! Numbers that follow each other.

use vstd::prelude::*;

verus! {

/// Hands out numbers from 0 on; after the largest one it starts again.
#[derive(Debug)]
pub struct SequenceNumber {
    counter: u64,
}

impl View for SequenceNumber {
    type V = u64;

    closed spec fn view(&self) -> u64 {
        self.counter
    }
}

/// The number after `n`.
pub open spec fn following(n: u64) -> u64 {
    if n == u64::MAX {
        0
    } else {
        (n + 1) as u64
    }
}

/// Numbers follow each other without a gap, and no two numbers have the same one after them.
pub proof fn numbers_follow_without_a_gap(a: u64, b: u64)
    ensures
        a < u64::MAX ==> following(a) - a == 1,
        following(u64::MAX) == 0,
        a != b ==> following(a) != following(b),
{
}

impl SequenceNumber {
    /// The next number is 0.
    pub fn new() -> (r: SequenceNumber)
        ensures
            r@ == 0,
    {
        SequenceNumber { counter: 0 }
    }

    /// The next number.
    pub fn next(&mut self) -> (r: u64)
        ensures
            r == old(self)@,
            final(self)@ == following(old(self)@),
    {
        let n: u64 = self.counter;
        self.counter = if n == u64::MAX {
            0
        } else {
            n + 1
        };
        n
    }
}

impl Default for SequenceNumber {
    fn default() -> (r: Self)
        ensures
            r@ == 0,
    {
        SequenceNumber::new()
    }
}

} // verus!
