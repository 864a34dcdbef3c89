//! The read cursor: the segment that holds the next unread entry, and the
//! count of entries already read in it.
//!
//! The cursor file holds 32 bytes: the cursor magic, the sequence and the
//! count, both big-endian.

use crate::endian::{
    be_bytes, be_value, lemma_be_bytes_len, lemma_be_value_of_bytes, lemma_radix_words, read_u64,
    write_u64,
};
use crate::error::Error;
use crate::image::begins_with;
use vstd::prelude::*;

verus! {

/// The length of the cursor file.
pub const CURSOR_SIZE: usize = 32;

/// The 16 bytes with which the cursor file begins.
pub open spec fn cursor_magic() -> Seq<u8> {
    seq![17u8, 117u8, 239u8, 237u8, 171u8, 24u8, 96u8, 0u8, 116u8, 117u8, 239u8, 237u8, 171u8,
        24u8, 96u8, 117u8]
}

/// The next entry to deliver.
#[derive(Debug, Copy, Clone, PartialEq, Eq, Structural)]
pub struct Position {
    /// The sequence of the segment that holds the entry.
    pub sequence: u64,
    /// The count of entries already read in that segment.
    pub read: u64,
}

/// The cursor of a log.
#[derive(Debug, Copy, Clone, PartialEq, Eq, Structural)]
pub struct Cursor {
    /// Where the cursor stands.
    pub position: Position,
}

/// The image of the cursor file for `position`.
pub open spec fn cursor_image(position: Position) -> Seq<u8> {
    cursor_magic() + be_bytes(position.sequence as nat, 8) + be_bytes(position.read as nat, 8)
}

/// What the image of a cursor file says: the start of the log for an empty
/// file, else the position behind the magic.
pub open spec fn position_in(image: Seq<u8>) -> Result<Position, Error> {
    if image.len() == 0 {
        Ok(Position { sequence: 0, read: 0 })
    } else if image.len() < CURSOR_SIZE {
        Err(Error::UnexpectedEof)
    } else if image.subrange(0, 16) != cursor_magic() {
        Err(Error::CursorMagic)
    } else {
        Ok(
            Position {
                sequence: be_value(image.subrange(16, 24)) as u64,
                read: be_value(image.subrange(24, 32)) as u64,
            },
        )
    }
}

/// A saved cursor reads back as the position that was saved.
pub proof fn lemma_saved_position(position: Position)
    ensures
        cursor_image(position).len() == CURSOR_SIZE,
        position_in(cursor_image(position)) == Ok::<Position, Error>(position),
{
    let image = cursor_image(position);
    lemma_be_bytes_len(position.sequence as nat, 8);
    lemma_be_bytes_len(position.read as nat, 8);
    lemma_radix_words();
    lemma_be_value_of_bytes(position.sequence as nat, 8);
    lemma_be_value_of_bytes(position.read as nat, 8);
    assert(image.subrange(0, 16) =~= cursor_magic());
    assert(image.subrange(16, 24) =~= be_bytes(position.sequence as nat, 8));
    assert(image.subrange(24, 32) =~= be_bytes(position.read as nat, 8));
}

/// The 16 bytes with which the cursor file begins.
pub fn magic_num() -> (num: [u8; 16])
    ensures
        num@ == cursor_magic(),
{
    let num: [u8; 16] = [17, 117, 239, 237, 171, 24, 96, 0, 116, 117, 239, 237, 171, 24, 96, 117];
    assert(num@ =~= cursor_magic());
    num
}

/// Reads the position from `image`, the bytes of the cursor file.
pub fn read_position(image: &[u8]) -> (found: Result<(u64, u64), Error>)
    ensures
        match position_in(image@) {
            Ok(p) => found == Ok::<(u64, u64), Error>((p.sequence, p.read)),
            Err(e) => found == Err::<(u64, u64), Error>(e),
        },
{
    if image.len() == 0 {
        return Ok((0, 0));
    }
    if image.len() < CURSOR_SIZE {
        return Err(Error::UnexpectedEof);
    }
    let magic: [u8; 16] = magic_num();
    if !begins_with(image, &magic) {
        return Err(Error::CursorMagic);
    }
    let sequence_field: &[u8] = &image[16..24];
    let read_field: &[u8] = &image[24..32];
    proof {
        assert(sequence_field@.subrange(0, 8) =~= image@.subrange(16, 24));
        assert(read_field@.subrange(0, 8) =~= image@.subrange(24, 32));
    }
    Ok((read_u64(sequence_field), read_u64(read_field)))
}

impl Cursor {
    /// Opens the cursor on the bytes of its file; a log that has no cursor
    /// file yet starts at segment 0, entry 0.
    pub fn open(image: Option<&[u8]>) -> (opened: Result<Cursor, Error>)
        ensures
            image is None ==> opened == Ok::<Cursor, Error>(
                Cursor { position: Position { sequence: 0, read: 0 } },
            ),
            image is Some ==> match position_in(image->Some_0@) {
                Ok(p) => opened == Ok::<Cursor, Error>(Cursor { position: p }),
                Err(e) => opened == Err::<Cursor, Error>(e),
            },
    {
        match image {
            None => Ok(Cursor { position: Position { sequence: 0, read: 0 } }),
            Some(bytes) => match read_position(bytes) {
                Ok((sequence, read)) => Ok(Cursor { position: Position { sequence, read } }),
                Err(e) => Err(e),
            },
        }
    }

    /// The bytes that replace the cursor file to save the position.
    pub fn save(&self) -> (image: [u8; 32])
        ensures
            image@ == cursor_image(self.position),
    {
        let magic: [u8; 16] = magic_num();
        let sequence: [u8; 8] = write_u64(self.position.sequence);
        let read: [u8; 8] = write_u64(self.position.read);
        let mut contents: [u8; 32] = [0; 32];
        let mut i: usize = 0;
        while i < 16
            invariant
                i <= 16,
                forall|k: int| 0 <= k < i ==> contents@[k] == magic@[k],
            decreases 16 - i,
        {
            contents[i] = magic[i];
            i = i + 1;
        }
        let mut j: usize = 0;
        while j < 8
            invariant
                j <= 8,
                forall|k: int| 0 <= k < 16 ==> contents@[k] == magic@[k],
                forall|k: int| 0 <= k < j ==> contents@[16 + k] == sequence@[k],
                forall|k: int| 0 <= k < j ==> contents@[24 + k] == read@[k],
            decreases 8 - j,
        {
            contents[16 + j] = sequence[j];
            contents[24 + j] = read[j];
            j = j + 1;
        }
        proof {
            lemma_be_bytes_len(self.position.sequence as nat, 8);
            lemma_be_bytes_len(self.position.read as nat, 8);
            assert(contents@ =~= cursor_image(self.position));
        }
        contents
    }
}

} // verus!
