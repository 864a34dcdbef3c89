//! The zero bytes with which a new file is filled.

use crate::image::zeros;
use vstd::prelude::*;

verus! {

/// A source of a fixed count of zero bytes.
#[derive(Debug)]
pub struct ZeroReader {
    size: usize,
}

impl View for ZeroReader {
    type V = nat;

    /// The count of bytes that are left.
    closed spec fn view(&self) -> nat {
        self.size as nat
    }
}

impl ZeroReader {
    /// A source of `size` zero bytes.
    pub fn new(size: usize) -> (reader: ZeroReader)
        ensures
            reader@ == size,
    {
        ZeroReader { size: size }
    }

    /// Fills the front of `buf` with as many zero bytes as are left and fit,
    /// and says how many that were; 0 once the source is used up.
    pub fn read(&mut self, buf: &mut [u8]) -> (written: usize)
        ensures
            written == if old(self)@ <= old(buf)@.len() {
                old(self)@
            } else {
                old(buf)@.len()
            },
            final(self)@ == old(self)@ - written,
            final(buf)@ == zeros(written as nat) + old(buf)@.subrange(
                written as int,
                old(buf)@.len() as int,
            ),
    {
        if self.size == 0 {
            assert(buf@ =~= zeros(0) + buf@.subrange(0, buf@.len() as int));
            return 0;
        }
        let mut written: usize = buf.len();
        if written > self.size {
            written = self.size
        }
        let mut i: usize = 0;
        while i < written
            invariant
                i <= written <= buf@.len(),
                buf@.len() == old(buf)@.len(),
                forall|k: int| 0 <= k < i ==> buf@[k] == 0u8,
                forall|k: int| i <= k < buf@.len() ==> buf@[k] == old(buf)@[k],
            decreases written - i,
        {
            buf[i] = 0;
            i = i + 1;
        }
        self.size = self.size - written;
        assert(buf@ =~= zeros(written as nat) + old(buf)@.subrange(
            written as int,
            old(buf)@.len() as int,
        ));
        written
    }
}

} // verus!
