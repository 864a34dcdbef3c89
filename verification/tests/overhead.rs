//! The descriptor record, byte by byte.

use wal::segment::overhead::{Overhead, OVERHEAD_SIZE};
use wal::Error;

#[test]
fn new_overhead_carries_the_marker_only() {
    let oh = Overhead::new();
    let mut expected = [0u8; 22];
    expected[0] = 0x01;
    expected[1] = 0xff;
    assert_eq!(OVERHEAD_SIZE, 22);
    assert_eq!(oh.bytes(), &expected[..]);
    assert!(oh.valid());
    assert_eq!(oh.offset(), 0);
    assert_eq!(oh.size(), 0);
    assert_eq!(oh.crc32(), 0);
}

#[test]
fn fields_are_big_endian_at_their_places() {
    let mut oh = Overhead::new();
    oh.write_offset(0x0102_0304_0506_0708);
    oh.write_size(0x1112_1314_1516_1718);
    oh.write_crc32(0xdead_beef);
    let expected: [u8; 22] = [
        0x01, 0xff, 0x01, 0x02, 0x03, 0x04, 0x05, 0x06, 0x07, 0x08, 0x11, 0x12, 0x13, 0x14, 0x15,
        0x16, 0x17, 0x18, 0xde, 0xad, 0xbe, 0xef,
    ];
    assert_eq!(oh.bytes(), &expected[..]);
    assert_eq!(oh.offset(), 0x0102_0304_0506_0708);
    assert_eq!(oh.size(), 0x1112_1314_1516_1718);
    assert_eq!(oh.crc32(), 0xdead_beef);
}

#[test]
fn a_field_leaves_the_others_alone() {
    let mut oh = Overhead::new();
    oh.write_offset(u64::MAX);
    oh.write_size(1);
    oh.write_crc32(2);
    oh.write_offset(24);
    assert_eq!(oh.offset(), 24);
    assert_eq!(oh.size(), 1);
    assert_eq!(oh.crc32(), 2);
    assert!(oh.valid());
}

#[test]
fn reset_clears_the_marker_and_write_head_sets_it() {
    let mut oh = Overhead::new();
    oh.write_size(77);
    oh.reset();
    assert_eq!(oh.bytes(), &[0u8; 22][..]);
    assert!(!oh.valid());
    oh.write_head();
    assert!(oh.valid());
    assert_eq!(&oh.bytes()[..2], &[0x01, 0xff]);
    assert_eq!(&oh.bytes()[2..], &[0u8; 20][..]);
}

#[test]
fn only_the_marker_makes_a_descriptor_valid() {
    let mut oh = Overhead::new();
    let mut src = [0u8; 22];
    src[0] = 0x01;
    src[1] = 0xfe;
    assert!(oh.copy_bytes(&src));
    assert!(!oh.valid());
    src[0] = 0x00;
    src[1] = 0xff;
    assert!(oh.copy_bytes(&src));
    assert!(!oh.valid());
    src[0] = 0x01;
    assert!(oh.copy_bytes(&src));
    assert!(oh.valid());
}

#[test]
fn copy_bytes_wants_22_bytes_and_takes_no_more() {
    let mut oh = Overhead::new();
    oh.write_offset(9);
    assert!(!oh.copy_bytes(&[7u8; 21]));
    assert_eq!(oh.offset(), 9);
    assert!(oh.valid());

    let mut src = [0u8; 30];
    for (i, byte) in src.iter_mut().enumerate() {
        *byte = i as u8;
    }
    assert!(oh.copy_bytes(&src));
    assert_eq!(oh.bytes(), &src[..22]);
}

#[test]
fn read_from_fails_on_a_short_source_and_takes_nothing() {
    let mut oh = Overhead::new();
    oh.reset();
    let mut src = [0u8; 21];
    src[0] = 0x01;
    src[1] = 0xff;
    assert_eq!(oh.read_from(&src), Err(Error::UnexpectedEof));
    assert!(!oh.valid());
    assert_eq!(oh.bytes(), &[0u8; 22][..]);

    let mut whole = [0u8; 22];
    whole[0] = 0x01;
    whole[1] = 0xff;
    whole[17] = 5;
    assert_eq!(oh.read_from(&whole), Ok(()));
    assert!(oh.valid());
    assert_eq!(oh.size(), 5);
}

#[test]
fn verify_holds_the_payload_to_the_checksum_only_when_asked() {
    let mut oh = Overhead::new();
    // the CRC-32 of the nine digits, with the IEEE polynomial
    oh.write_crc32(0xcbf4_3926);
    assert_eq!(oh.verify(b"123456789", true), Ok(()));
    assert_eq!(oh.verify(b"123456780", true), Err(Error::Checksum));
    assert_eq!(oh.verify(b"123456780", false), Ok(()));
    assert_eq!(oh.verify(b"", true), Err(Error::Checksum));
    oh.write_crc32(0);
    assert_eq!(oh.verify(b"", true), Ok(()));
}
