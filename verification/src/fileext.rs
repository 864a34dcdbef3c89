//! Positional file I/O, as far as it is decided here: one transfer moves a
//! buffer to or from a file at an offset, in as many calls of the host as it
//! takes. The caller makes each call and reports what the host answered; it
//! is told whether to call again, and where.

pub mod allocate;

use crate::error::Error;
use vstd::prelude::*;

verus! {

/// The part of a transfer that is still to be moved.
#[derive(Debug, Copy, Clone, PartialEq, Eq, Structural)]
pub struct Transfer {
    /// The offset in the file of the next byte to move.
    pub offset: u64,
    /// The count of bytes of the buffer that were moved.
    pub done: usize,
    /// The count of bytes of the buffer that are left.
    pub rest: usize,
}

/// What the host answered to one call.
#[derive(Debug, Copy, Clone, PartialEq, Eq, Structural)]
pub enum Outcome {
    /// It moved this many bytes.
    Moved(usize),
    /// It was interrupted before it moved any.
    Interrupted,
    /// It failed.
    Failed,
}

/// What follows an answer of the host.
#[derive(Debug, Copy, Clone, PartialEq, Eq, Structural)]
pub enum Step {
    /// Another call, for the bytes that are left.
    Again(Transfer),
    /// Nothing: all bytes were moved.
    Done,
    /// Nothing: the transfer failed.
    Failed(Error),
}

impl Transfer {
    /// Whether the bytes that are left can be counted and addressed.
    pub open spec fn wf(self) -> bool {
        self.offset + self.rest <= u64::MAX && self.done + self.rest <= usize::MAX
    }

    /// The transfer after `count` more bytes were moved.
    pub open spec fn advanced(self, count: usize) -> Transfer {
        Transfer {
            offset: (self.offset + count) as u64,
            done: (self.done + count) as usize,
            rest: (self.rest - count) as usize,
        }
    }

    /// What follows when the host moved `count` bytes, of which it moved at
    /// least one.
    pub open spec fn moved(self, count: usize) -> Step {
        if count == self.rest {
            Step::Done
        } else {
            Step::Again(self.advanced(count))
        }
    }

    /// The first step of a transfer of `len` bytes at `offset`: a call for
    /// all of them, or nothing where there are none.
    pub fn begin(offset: u64, len: usize) -> (step: Step)
        requires
            offset + len <= u64::MAX,
        ensures
            len == 0 ==> step == Step::Done,
            len > 0 ==> step == Step::Again(Transfer { offset, done: 0, rest: len }),
            step matches Step::Again(transfer) ==> transfer.wf(),
    {
        if len == 0 {
            Step::Done
        } else {
            Step::Again(Transfer { offset, done: 0, rest: len })
        }
    }

    /// Moves on by `count` bytes.
    fn advance(self, count: usize) -> (step: Step)
        requires
            self.wf(),
            0 < count <= self.rest,
        ensures
            step == self.moved(count),
    {
        if count == self.rest {
            Step::Done
        } else {
            Step::Again(
                Transfer {
                    offset: self.offset + count as u64,
                    done: self.done + count,
                    rest: self.rest - count,
                },
            )
        }
    }
}

/// One step of reading a whole buffer at an offset. A call that moves bytes
/// is followed by a call for the rest; an interrupted call is made again; a
/// call that moves nothing has met the end of the file.
pub fn read_exact_at(transfer: Transfer, outcome: Outcome) -> (step: Step)
    requires
        transfer.wf(),
        transfer.rest > 0,
        outcome matches Outcome::Moved(count) ==> count <= transfer.rest,
    ensures
        step == match outcome {
            Outcome::Moved(count) => if count == 0 {
                Step::Failed(Error::UnexpectedEof)
            } else {
                transfer.moved(count)
            },
            Outcome::Interrupted => Step::Again(transfer),
            Outcome::Failed => Step::Failed(Error::Host),
        },
{
    match outcome {
        Outcome::Moved(count) => if count == 0 {
            Step::Failed(Error::UnexpectedEof)
        } else {
            transfer.advance(count)
        },
        Outcome::Interrupted => Step::Again(transfer),
        Outcome::Failed => Step::Failed(Error::Host),
    }
}

/// One step of writing a whole buffer at an offset. A call that moves bytes
/// is followed by a call for the rest; an interrupted call is made again; a
/// call that moves nothing fails the write.
pub fn write_all_at(transfer: Transfer, outcome: Outcome) -> (step: Step)
    requires
        transfer.wf(),
        transfer.rest > 0,
        outcome matches Outcome::Moved(count) ==> count <= transfer.rest,
    ensures
        step == match outcome {
            Outcome::Moved(count) => if count == 0 {
                Step::Failed(Error::WriteZero)
            } else {
                transfer.moved(count)
            },
            Outcome::Interrupted => Step::Again(transfer),
            Outcome::Failed => Step::Failed(Error::Host),
        },
{
    match outcome {
        Outcome::Moved(count) => if count == 0 {
            Step::Failed(Error::WriteZero)
        } else {
            transfer.advance(count)
        },
        Outcome::Interrupted => Step::Again(transfer),
        Outcome::Failed => Step::Failed(Error::Host),
    }
}

/// A call that moved bytes brings the transfer nearer to its end, and the
/// call that follows takes up where it stopped, in the file and in the
/// buffer.
pub proof fn lemma_moved_on(transfer: Transfer, count: usize)
    requires
        transfer.wf(),
        0 < count <= transfer.rest,
    ensures
        match transfer.moved(count) {
            Step::Again(next) => {
                &&& next.wf()
                &&& 0 < next.rest < transfer.rest
                &&& next.offset == transfer.offset + count
                &&& next.done == transfer.done + count
                &&& next.done + next.rest == transfer.done + transfer.rest
            },
            Step::Done => count == transfer.rest,
            Step::Failed(_) => false,
        },
{
}

} // verus!
