//! Reading a number of bytes from a source that may give fewer at a time, or end.

use vstd::prelude::*;

verus! {

/// How reading a number of bytes ended.
#[derive(Debug, Clone, Copy, PartialEq, Eq, Structural)]
pub enum ReadOutcome {
    /// The source had ended.
    Eof,
    /// The source ended before the last of them.
    Partial,
    /// All were read.
    Complete,
}

/// How reading `len` bytes ended with `read` of them.
pub open spec fn outcome_of(len: usize, read: usize) -> ReadOutcome {
    if read >= len {
        ReadOutcome::Complete
    } else if read == 0 {
        ReadOutcome::Eof
    } else {
        ReadOutcome::Partial
    }
}

/// Reading is complete exactly where no byte is missing, whatever the number of bytes; with none
/// read of some the source had ended, and else some are missing.
pub proof fn outcome_tells_what_is_missing(len: usize, read: usize)
    requires
        read <= len,
    ensures
        outcome_of(len, read) == ReadOutcome::Complete <==> len - read == 0,
        outcome_of(len, read) == ReadOutcome::Eof <==> read == 0 && len > 0,
        outcome_of(len, read) == ReadOutcome::Partial <==> 0 < read < len,
{
}

/// Reading a number of bytes.
#[derive(Debug, Clone, Copy)]
pub struct ExactRead {
    len: usize,
    read: usize,
}

impl ExactRead {
    /// How many bytes are to be read.
    pub closed spec fn len(&self) -> usize {
        self.len
    }

    /// How many were read.
    pub closed spec fn read(&self) -> usize {
        self.read
    }

    /// No more were read than are to be.
    pub open spec fn wf(&self) -> bool {
        self.read() <= self.len()
    }

    /// None of `len` bytes was read.
    pub fn new(len: usize) -> (r: ExactRead)
        ensures
            r.wf(),
            r.len() == len,
            r.read() == 0,
    {
        ExactRead { len, read: 0 }
    }

    /// How many bytes were read, which is where the next ones go.
    pub fn filled(&self) -> (r: usize)
        ensures
            r == self.read(),
    {
        self.read
    }

    /// How it ended where all were read, also where there are none to read.
    pub fn done(&self) -> (r: Option<ReadOutcome>)
        requires
            self.wf(),
        ensures
            r == if self.read() == self.len() {
                Some(ReadOutcome::Complete)
            } else {
                None
            },
    {
        if self.read == self.len {
            Some(ReadOutcome::Complete)
        } else {
            None
        }
    }

    /// The source gave `n` more bytes, or ended where that is 0: how reading ended, if it
    /// did.
    pub fn advance(&mut self, n: usize) -> (r: Option<ReadOutcome>)
        requires
            old(self).wf(),
            n <= old(self).len() - old(self).read(),
        ensures
            final(self).wf(),
            final(self).len() == old(self).len(),
            final(self).read() == old(self).read() + n,
            r == if n == 0 || final(self).read() == final(self).len() {
                Some(outcome_of(final(self).len(), final(self).read()))
            } else {
                None
            },
    {
        self.read = self.read + n;
        if self.read == self.len {
            Some(ReadOutcome::Complete)
        } else if n > 0 {
            None
        } else if self.read == 0 {
            Some(ReadOutcome::Eof)
        } else {
            Some(ReadOutcome::Partial)
        }
    }
}

} // verus!
