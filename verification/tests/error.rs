//! The failures and their classes.

use wal::{Error, ErrorKind};

#[test]
fn every_failure_has_its_class_and_its_text() {
    let all = [
        (Error::SegmentMagic, Some(ErrorKind::Other), "invalid magic num"),
        (Error::CursorMagic, Some(ErrorKind::InvalidData), "invalid magic num"),
        (Error::InvalidOverhead, Some(ErrorKind::InvalidData), "invalid overhead"),
        (Error::Checksum, Some(ErrorKind::InvalidData), "invalid checksum"),
        (Error::UnexpectedEof, Some(ErrorKind::UnexpectedEof), "failed to fill whole buffer"),
        (Error::WriteZero, Some(ErrorKind::WriteZero), "failed to write whole buffer"),
        (Error::Host, None, "host error"),
    ];
    for (error, kind, text) in all {
        assert_eq!(error.kind(), kind);
        assert_eq!(error.message(), text);
    }
}
