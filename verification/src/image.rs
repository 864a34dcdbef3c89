//! The bytes of a file, as a sequence, and what a positional write makes of
//! them.

use vstd::prelude::*;

verus! {

/// `count` zero bytes.
pub open spec fn zeros(count: nat) -> Seq<u8> {
    Seq::new(count, |i: int| 0u8)
}

/// The image of a file after `bytes` were written at `offset`: the file grows
/// where the write ends past its end, and a gap before `offset` reads as zero.
pub open spec fn write_at(image: Seq<u8>, offset: int, bytes: Seq<u8>) -> Seq<u8> {
    let end = offset + bytes.len();
    let len = if end > image.len() {
        end
    } else {
        image.len() as int
    };
    Seq::new(
        len as nat,
        |i: int|
            if offset <= i < end {
                bytes[i - offset]
            } else if i < image.len() {
                image[i]
            } else {
                0u8
            },
    )
}

/// A write leaves the bytes before it as they were.
pub proof fn lemma_write_at_before(image: Seq<u8>, offset: int, bytes: Seq<u8>, from: int, to: int)
    requires
        0 <= from <= to <= offset,
        to <= image.len(),
    ensures
        write_at(image, offset, bytes).subrange(from, to) == image.subrange(from, to),
{
    assert(write_at(image, offset, bytes).subrange(from, to) =~= image.subrange(from, to));
}

/// A write leaves the bytes behind it as they were.
pub proof fn lemma_write_at_behind(image: Seq<u8>, offset: int, bytes: Seq<u8>, from: int, to: int)
    requires
        0 <= offset,
        offset + bytes.len() <= from <= to <= image.len(),
    ensures
        write_at(image, offset, bytes).subrange(from, to) == image.subrange(from, to),
{
    assert(write_at(image, offset, bytes).subrange(from, to) =~= image.subrange(from, to));
}

/// What was written is what the file holds there.
pub proof fn lemma_write_at_there(image: Seq<u8>, offset: int, bytes: Seq<u8>)
    requires
        0 <= offset,
    ensures
        write_at(image, offset, bytes).len() == if offset + bytes.len() > image.len() {
            offset + bytes.len()
        } else {
            image.len() as int
        },
        write_at(image, offset, bytes).subrange(offset, offset + bytes.len()) == bytes,
{
    assert(write_at(image, offset, bytes).subrange(offset, offset + bytes.len()) =~= bytes);
}

/// Whether `image` begins with the 16 bytes of `magic`.
pub fn begins_with(image: &[u8], magic: &[u8; 16]) -> (begins: bool)
    ensures
        begins == (image@.len() >= 16 && image@.subrange(0, 16) == magic@),
{
    if image.len() < 16 {
        return false;
    }
    let mut i: usize = 0;
    while i < 16
        invariant
            i <= 16,
            image@.len() >= 16,
            forall|k: int| 0 <= k < i ==> image@[k] == magic@[k],
        decreases 16 - i,
    {
        if image[i] != magic[i] {
            assert(image@.subrange(0, 16)[i as int] != magic@[i as int]);
            return false;
        }
        i = i + 1;
    }
    assert(image@.subrange(0, 16) =~= magic@);
    true
}

} // verus!
