//! The cursor file.

use wal::wal::cursor::{read_position, Cursor, Position, CURSOR_SIZE};
use wal::{Error, ErrorKind};

const MAGIC: [u8; 16] = [17, 117, 239, 237, 171, 24, 96, 0, 116, 117, 239, 237, 171, 24, 96, 117];

#[test]
fn a_missing_or_empty_cursor_file_is_the_start_of_the_log() {
    let start = Cursor { position: Position { sequence: 0, read: 0 } };
    assert_eq!(Cursor::open(None), Ok(start));
    assert_eq!(Cursor::open(Some(&[])), Ok(start));
    assert_eq!(read_position(&[]), Ok((0, 0)));
}

#[test]
fn save_writes_magic_sequence_and_count() {
    let cursor = Cursor { position: Position { sequence: 0x0102_0304_0506_0708, read: 259 } };
    let image = cursor.save();
    assert_eq!(CURSOR_SIZE, 32);
    assert_eq!(&image[..16], &MAGIC[..]);
    assert_eq!(&image[16..24], &[1, 2, 3, 4, 5, 6, 7, 8]);
    assert_eq!(&image[24..], &[0, 0, 0, 0, 0, 0, 1, 3]);
}

#[test]
fn a_saved_cursor_opens_as_it_was() {
    for position in [
        Position { sequence: 0, read: 0 },
        Position { sequence: 2, read: 50 },
        Position { sequence: u64::MAX, read: u64::MAX },
    ] {
        let cursor = Cursor { position };
        let image = cursor.save();
        assert_eq!(Cursor::open(Some(&image)), Ok(cursor));
        assert_eq!(read_position(&image), Ok((position.sequence, position.read)));
    }
}

#[test]
fn a_cursor_file_that_is_cut_short_fails() {
    let image = Cursor { position: Position { sequence: 1, read: 2 } }.save();
    assert_eq!(Cursor::open(Some(&image[..31])), Err(Error::UnexpectedEof));
    assert_eq!(Cursor::open(Some(&image[..1])), Err(Error::UnexpectedEof));
    assert_eq!(Error::UnexpectedEof.kind(), Some(ErrorKind::UnexpectedEof));
}

#[test]
fn another_magic_fails_as_invalid_data() {
    let mut image = Cursor { position: Position { sequence: 1, read: 2 } }.save();
    image[15] ^= 1;
    assert_eq!(Cursor::open(Some(&image)), Err(Error::CursorMagic));
    assert_eq!(Error::CursorMagic.kind(), Some(ErrorKind::InvalidData));
    assert_eq!(Error::CursorMagic.message(), "invalid magic num");

    // the magic of a segment is not that of a cursor
    let mut segment = [0u8; 32];
    segment[..16]
        .copy_from_slice(&[17, 116, 239, 237, 171, 24, 96, 0, 17, 116, 239, 237, 171, 24, 96, 117]);
    assert_eq!(read_position(&segment), Err(Error::CursorMagic));
}

#[test]
fn bytes_behind_the_cursor_are_ignored() {
    let mut image = Cursor { position: Position { sequence: 7, read: 9 } }.save().to_vec();
    image.extend_from_slice(&[0xff; 8]);
    assert_eq!(read_position(&image), Ok((7, 9)));
}
