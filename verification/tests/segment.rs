//! The state of a segment and the bytes of its file.

use wal::segment::layout::{DEFAULT_ENTRY_LIMIT, HEAD_SIZE};
use wal::segment::overhead::Overhead;
use wal::segment::{
    magic_num, preparable, prepare, read_info, table_end, u64_to_hex, Segment, Span,
};
use wal::{Error, ErrorKind};

const MAGIC: [u8; 16] = [17, 116, 239, 237, 171, 24, 96, 0, 17, 116, 239, 237, 171, 24, 96, 117];

/// The file of a new segment of capacity `limit`.
fn new_file(limit: usize) -> Vec<u8> {
    let plan = prepare(limit);
    let mut file = vec![0u8; plan.size];
    file[..24].copy_from_slice(&plan.head);
    file
}

fn write_at(file: &mut Vec<u8>, offset: u64, bytes: &[u8]) {
    let start = offset as usize;
    if file.len() < start + bytes.len() {
        file.resize(start + bytes.len(), 0);
    }
    file[start..start + bytes.len()].copy_from_slice(bytes);
}

fn reopen(file: &[u8]) -> Segment {
    let opened = Segment::open(9, 0, file, file.len() as u64).unwrap();
    assert!(opened.prepare.is_none());
    opened.segment
}

/// Appends `entry` to `file` as the segment plans it.
fn append(file: &mut Vec<u8>, segment: &mut Segment, entry: &[u8]) -> bool {
    match segment.write(entry) {
        None => false,
        Some(plan) => {
            write_at(file, plan.offset, entry);
            write_at(file, plan.overhead_offset, plan.overhead.bytes());
            true
        }
    }
}

#[test]
fn file_names_are_sixteen_hex_digits() {
    assert_eq!(u64_to_hex(0), "0000000000000000");
    assert_eq!(u64_to_hex(1), "0000000000000001");
    assert_eq!(u64_to_hex(0x0123_4567_89ab_cdef), "0123456789abcdef");
    assert_eq!(Segment::filename(1), "0000000000000001.dat");
    assert_eq!(Segment::filename(255), "00000000000000ff.dat");
    assert_eq!(Segment::filename(u64::MAX), "ffffffffffffffff.dat");
}

#[test]
fn file_names_sort_as_their_sequences() {
    let sequences = [0u64, 1, 9, 10, 15, 16, 255, 256, 4095, 1 << 32, u64::MAX - 1, u64::MAX];
    for pair in sequences.windows(2) {
        assert!(Segment::filename(pair[0]) < Segment::filename(pair[1]));
    }
}

#[test]
fn a_segment_is_prepared_with_magic_capacity_and_an_empty_table() {
    assert_eq!(magic_num(), MAGIC);
    let plan = prepare(3);
    assert_eq!(plan.size, 24 + 22 * 3);
    assert_eq!(&plan.head[..16], &MAGIC[..]);
    assert_eq!(&plan.head[16..], &[0, 0, 0, 0, 0, 0, 0, 3]);
    let plan = prepare(0x0102);
    assert_eq!(&plan.head[16..], &[0, 0, 0, 0, 0, 0, 1, 2]);
    assert!(preparable(0));
    assert!(preparable(10240));
    assert!(!preparable(usize::MAX / 22));
    assert!(preparable((usize::MAX - 24) / 22));
    assert!(!preparable((usize::MAX - 24) / 22 + 1));
}

#[test]
fn an_empty_file_opens_as_a_new_segment() {
    let opened = Segment::open(5, 0, &[], 0).unwrap();
    assert_eq!(opened.segment.sequence(), 5);
    assert_eq!(opened.segment.len(), 0);
    assert_eq!(opened.segment.space(), DEFAULT_ENTRY_LIMIT);
    assert_eq!(DEFAULT_ENTRY_LIMIT, 10240);
    assert_eq!(opened.segment.data_written(), 24 + 22 * 10240);
    let plan = opened.prepare.unwrap();
    assert_eq!(plan.size, 24 + 22 * 10240);
    assert_eq!(&plan.head[16..], &[0, 0, 0, 0, 0, 0, 0x28, 0]);

    let opened = Segment::open(6, 128, &[], 0).unwrap();
    assert_eq!(opened.segment.space(), 128);
    assert_eq!(opened.segment.data_written(), 24 + 22 * 128);
    assert_eq!(opened.prepare.unwrap().size, 24 + 22 * 128);
}

#[test]
fn a_prepared_file_opens_as_the_segment_it_was_prepared_for() {
    let first = Segment::open(5, 7, &[], 0).unwrap();
    let file = new_file(7);
    // the capacity is the file's own, whatever is asked for
    let second = Segment::open(5, 99, &file, file.len() as u64).unwrap();
    assert!(second.prepare.is_none());
    assert_eq!(second.segment.sequence(), first.segment.sequence());
    assert_eq!(second.segment.len(), first.segment.len());
    assert_eq!(second.segment.space(), first.segment.space());
    assert_eq!(second.segment.data_written(), first.segment.data_written());

    let third = Segment::open(5, 7, &file, file.len() as u64).unwrap();
    assert_eq!(third.segment.len(), 0);
    assert_eq!(third.segment.space(), 7);
}

#[test]
fn a_header_that_is_cut_short_or_has_another_magic_fails() {
    let file = new_file(2);
    assert_eq!(read_info(&[]), Err(Error::UnexpectedEof));
    assert_eq!(read_info(&file[..15]), Err(Error::UnexpectedEof));
    assert_eq!(read_info(&file[..16]), Err(Error::UnexpectedEof));
    assert_eq!(read_info(&file[..23]), Err(Error::UnexpectedEof));
    assert_eq!(read_info(&file[..24]), Ok((2, 0)));

    let mut other = file.clone();
    other[1] = 117;
    assert_eq!(read_info(&other), Err(Error::SegmentMagic));
    // the magic is looked at before the capacity is missed
    assert_eq!(read_info(&other[..20]), Err(Error::SegmentMagic));
    assert_eq!(read_info(&other[..3]), Err(Error::UnexpectedEof));
    assert_eq!(Error::SegmentMagic.kind(), Some(ErrorKind::Other));
    assert_eq!(Error::SegmentMagic.message(), "invalid magic num");

    assert_eq!(Segment::open(1, 0, &other, other.len() as u64).err(), Some(Error::SegmentMagic));
    assert_eq!(Segment::open(1, 0, &file[..10], 10).err(), Some(Error::UnexpectedEof));
}

#[test]
fn the_table_ends_with_its_last_slot_or_with_the_file() {
    assert_eq!(HEAD_SIZE, 24);
    assert_eq!(table_end(3, 1000), 24 + 66);
    assert_eq!(table_end(3, 90), 90);
    assert_eq!(table_end(3, 89), 89);
    assert_eq!(table_end(3, 10), 10);
    assert_eq!(table_end(0, 1000), 24);
    assert_eq!(table_end(usize::MAX, 1000), 1000);
}

#[test]
fn an_append_goes_to_the_end_of_the_file_and_the_first_free_slot() {
    let mut file = new_file(4);
    let mut segment = reopen(&file);
    let plan = segment.write(b"123456789").unwrap();
    assert_eq!(plan.offset, 24 + 22 * 4);
    assert_eq!(plan.overhead_offset, 24);
    assert!(plan.overhead.valid());
    assert_eq!(plan.overhead.offset(), 24 + 22 * 4);
    assert_eq!(plan.overhead.size(), 9);
    assert_eq!(plan.overhead.crc32(), 0xcbf4_3926);
    assert_eq!(segment.len(), 1);
    assert_eq!(segment.space(), 3);
    assert_eq!(segment.data_written(), 24 + 22 * 4 + 9);

    let plan = segment.write(b"ab").unwrap();
    assert_eq!(plan.offset, 24 + 22 * 4 + 9);
    assert_eq!(plan.overhead_offset, 24 + 22);
    assert_eq!(plan.overhead.size(), 2);
    assert_eq!(segment.len(), 2);
    assert_eq!(segment.data_written(), 24 + 22 * 4 + 11);

    let mut fresh = reopen(&file);
    assert!(append(&mut file, &mut fresh, b"x"));
    assert_eq!(&file[24 + 22 * 4..], b"x");
}

#[test]
fn a_batch_stops_when_the_table_is_full() {
    let mut file = new_file(3);
    let mut segment = reopen(&file);
    assert!(append(&mut file, &mut segment, b"zero"));

    let entries: Vec<&[u8]> = vec![b"one", b"", b"three", b"four"];
    assert!(segment.fits(&entries));
    let plans = segment.batch_write(&entries);
    assert_eq!(plans.len(), 2);
    let base = 24 + 22 * 3 + 4;
    assert_eq!(plans[0].offset, base);
    assert_eq!(plans[0].overhead_offset, 24 + 22);
    assert_eq!(plans[0].overhead.size(), 3);
    assert_eq!(plans[1].offset, base + 3);
    assert_eq!(plans[1].overhead_offset, 24 + 44);
    assert_eq!(plans[1].overhead.size(), 0);
    assert_eq!(segment.len(), 3);
    assert_eq!(segment.space(), 0);
    assert_eq!(segment.data_written(), base + 3);

    assert!(segment.batch_write(&entries).is_empty());
    assert!(segment.write(b"more").is_none());
    assert_eq!(segment.len(), 3);
    assert_eq!(segment.data_written(), base + 3);
}

#[test]
fn a_reopened_segment_counts_what_was_committed() {
    let mut file = new_file(5);
    let mut segment = reopen(&file);
    for entry in [&b"a"[..], b"bc", b"def"] {
        assert!(append(&mut file, &mut segment, entry));
    }
    let again = reopen(&file);
    assert_eq!(again.len(), 3);
    assert_eq!(again.space(), 2);
    assert_eq!(again.data_written(), segment.data_written());
    assert_eq!(again.data_written(), file.len() as u64);
    assert_eq!(read_info(&file), Ok((5, 3)));
    // the header and the table are enough
    assert_eq!(read_info(&file[..24 + 22 * 5]), Ok((5, 3)));
}

#[test]
fn a_payload_without_its_descriptor_is_not_counted() {
    let mut file = new_file(5);
    let mut segment = reopen(&file);
    assert!(append(&mut file, &mut segment, b"first"));

    // the write is torn between the payload and the descriptor
    let plan = segment.write(b"second").unwrap();
    write_at(&mut file, plan.offset, b"second");

    let recovered = reopen(&file);
    assert_eq!(recovered.len(), 1);
    // the next payload goes behind the orphan
    assert_eq!(recovered.data_written(), plan.offset + 6);

    // and the state is taken back to the same
    segment.rewind(&plan, true);
    assert_eq!(segment.len(), 1);
    assert_eq!(segment.data_written(), recovered.data_written());

    let mut torn = segment;
    let lost = torn.write(b"third").unwrap();
    torn.rewind(&lost, false);
    assert_eq!(torn.len(), segment.len());
    assert_eq!(torn.data_written(), segment.data_written());
}

#[test]
fn rewind_takes_back_the_rest_of_a_batch() {
    let file = new_file(8);
    let mut segment = reopen(&file);
    let before = segment;
    let entries: Vec<&[u8]> = vec![b"aa", b"bbb", b"cccc"];
    let plans = segment.batch_write(&entries);
    assert_eq!(segment.len(), 3);
    segment.rewind(&plans[1], false);
    assert_eq!(segment.len(), 1);
    assert_eq!(segment.data_written(), before.data_written() + 2);
    segment.rewind(&plans[0], true);
    assert_eq!(segment.len(), 0);
    assert_eq!(segment.data_written(), before.data_written() + 2);
}

#[test]
fn a_file_that_is_cut_short_keeps_the_entries_before_the_cut() {
    let mut file = new_file(6);
    let mut segment = reopen(&file);
    for entry in [&b"a"[..], b"bc", b"def", b"ghij"] {
        assert!(append(&mut file, &mut segment, entry));
    }
    assert_eq!(read_info(&file), Ok((6, 4)));
    for cut in 24..file.len() + 1 {
        let whole_slots = (cut - 24) / 22;
        let expected = whole_slots.min(4);
        assert_eq!(read_info(&file[..cut]), Ok((6, expected)), "cut at {}", cut);
        let opened = Segment::open(1, 0, &file[..cut], cut as u64).unwrap();
        assert_eq!(opened.segment.len(), expected);
        assert_eq!(opened.segment.data_written(), cut as u64);
    }
    // between the second and the third descriptor
    assert_eq!(read_info(&file[..24 + 44]), Ok((6, 2)));
    assert_eq!(read_info(&file[..24 + 44 + 21]), Ok((6, 2)));
    assert_eq!(read_info(&file[..24 + 66]), Ok((6, 3)));
}

#[test]
fn a_scan_stops_at_the_first_slot_without_the_marker() {
    let mut file = new_file(4);
    let mut segment = reopen(&file);
    for entry in [&b"a"[..], b"bc", b"def"] {
        assert!(append(&mut file, &mut segment, entry));
    }
    file[24 + 22] = 0;
    assert_eq!(read_info(&file), Ok((4, 1)));
    file[24 + 1] = 0xfe;
    assert_eq!(read_info(&file), Ok((4, 0)));
}

#[test]
fn a_scan_stops_at_the_capacity() {
    let mut file = new_file(2);
    let mut segment = reopen(&file);
    assert!(append(&mut file, &mut segment, b"a"));
    assert!(append(&mut file, &mut segment, b"b"));
    assert!(!append(&mut file, &mut segment, b"c"));
    // the payload region begins with what looks like a marker
    let at = 24 + 22 * 2;
    file[at] = 0x01;
    file[at + 1] = 0xff;
    assert_eq!(read_info(&file), Ok((2, 2)));
}

#[test]
fn read_into_names_the_descriptors_of_the_entries_asked_for() {
    let mut file = new_file(10);
    let mut segment = reopen(&file);
    for entry in [&b"a"[..], b"bc", b"def", b"ghij", b"klmno"] {
        assert!(append(&mut file, &mut segment, entry));
    }
    assert_eq!(segment.read_into(0, 10), Span { offset: 24, count: 5 });
    assert_eq!(segment.read_into(0, 5), Span { offset: 24, count: 5 });
    assert_eq!(segment.read_into(0, 2), Span { offset: 24, count: 2 });
    assert_eq!(segment.read_into(3, 1), Span { offset: 24 + 66, count: 1 });
    assert_eq!(segment.read_into(3, usize::MAX), Span { offset: 24 + 66, count: 2 });
    assert_eq!(segment.read_into(4, 9), Span { offset: 24 + 88, count: 1 });
    assert_eq!(segment.read_into(5, 9).count, 0);
    assert_eq!(segment.read_into(usize::MAX, usize::MAX).count, 0);
    assert_eq!(segment.read_into(2, 0).count, 0);
}

#[test]
fn the_descriptors_lead_to_the_payloads() {
    let mut file = new_file(10);
    let mut segment = reopen(&file);
    let entries: [&[u8]; 4] = [b"alpha", b"", b"gamma-gamma", b"d"];
    for entry in entries {
        assert!(append(&mut file, &mut segment, entry));
    }
    let span = segment.read_into(1, 3);
    let table = &file[span.offset as usize..span.offset as usize + 22 * span.count];
    let overheads: Vec<Overhead> = Segment::read_overheads(table).unwrap();
    assert_eq!(overheads.len(), 3);
    let mut end = 0;
    for (overhead, entry) in overheads.iter().zip(&entries[1..]) {
        let offset = overhead.offset() as usize;
        let size = overhead.size() as usize;
        assert!(offset >= 24 + 22 * 10);
        assert!(offset >= end);
        assert!(offset + size <= file.len());
        assert_eq!(&file[offset..offset + size], *entry);
        assert_eq!(overhead.verify(&file[offset..offset + size], true), Ok(()));
        end = offset + size;
    }
}

#[test]
fn a_descriptor_without_the_marker_fails_the_read() {
    let mut file = new_file(4);
    let mut segment = reopen(&file);
    for entry in [&b"a"[..], b"bc", b"def"] {
        assert!(append(&mut file, &mut segment, entry));
    }
    assert_eq!(Segment::read_overheads(&file[24..24 + 66]).unwrap().len(), 3);
    assert_eq!(Segment::read_overheads(&[]).unwrap().len(), 0);
    // a part that is cut within a descriptor holds the whole ones only
    assert_eq!(Segment::read_overheads(&file[24..24 + 65]).unwrap().len(), 2);
    file[24 + 44 + 1] = 0;
    assert_eq!(Segment::read_overheads(&file[24..24 + 66]).err(), Some(Error::InvalidOverhead));
    assert_eq!(Segment::read_overheads(&file[24..24 + 44]).unwrap().len(), 2);
    assert_eq!(Error::InvalidOverhead.kind(), Some(ErrorKind::InvalidData));
    assert_eq!(Error::InvalidOverhead.message(), "invalid overhead");
}

#[test]
fn fits_knows_the_end_of_the_offsets() {
    let file = new_file(4);
    let segment = Segment::open(1, 0, &file, u64::MAX - 3).unwrap().segment;
    let small: Vec<&[u8]> = vec![b"ab", b"c"];
    let large: Vec<&[u8]> = vec![b"ab", b"cd"];
    assert!(segment.fits(&small));
    assert!(!segment.fits(&large));
    assert!(segment.fits(&[]));
}

#[test]
fn the_committed_slots_are_the_first_and_no_other_carries_the_marker() {
    let limit = 9;
    let mut file = new_file(limit);
    let mut segment = reopen(&file);
    for count in 0..limit + 1 {
        assert_eq!(segment.len(), count.min(limit));
        for slot in 0..limit {
            let at = 24 + 22 * slot;
            let marked = file[at] == 0x01 && file[at + 1] == 0xff;
            assert_eq!(marked, slot < segment.len(), "slot {} of {}", slot, count);
        }
        assert_eq!(read_info(&file), Ok((limit, segment.len())));
        let entry = vec![0x01u8; count + 1];
        assert_eq!(append(&mut file, &mut segment, &entry), count < limit);
    }
}

#[test]
fn the_payloads_lie_behind_the_table_one_after_the_other() {
    let limit = 6;
    let mut file = new_file(limit);
    let mut segment = reopen(&file);
    let mut end = (24 + 22 * limit) as u64;
    for len in [3usize, 1, 4, 1, 5, 9] {
        let plan = segment.write(&vec![7u8; len]).unwrap();
        assert_eq!(plan.offset, end);
        assert_eq!(plan.overhead.offset(), end);
        assert_eq!(plan.overhead.size(), len as u64);
        write_at(&mut file, plan.offset, &vec![7u8; len]);
        write_at(&mut file, plan.overhead_offset, plan.overhead.bytes());
        end += len as u64;
        assert_eq!(segment.data_written(), end);
        assert_eq!(file.len() as u64, end);
    }
}

#[test]
fn a_payload_with_another_checksum_fails_the_read_only_when_checking_is_on() {
    let mut file = new_file(4);
    let mut segment = reopen(&file);
    let entries: [&[u8]; 3] = [b"first", b"second", b"third"];
    for entry in entries {
        assert!(append(&mut file, &mut segment, entry));
    }
    let overheads = Segment::read_overheads(&file[24..24 + 66]).unwrap();
    let read = |file: &[u8]| -> Vec<Vec<u8>> {
        overheads
            .iter()
            .map(|o| file[o.offset() as usize..(o.offset() + o.size()) as usize].to_vec())
            .collect()
    };
    let stored = read(&file);
    assert_eq!(Segment::check_entries(&overheads, &stored, true), Ok(()));
    assert_eq!(Segment::check_entries(&overheads, &stored, false), Ok(()));
    assert_eq!(Segment::check_entries(&Vec::new(), &Vec::new(), true), Ok(()));

    // one bit of the second payload is flipped in the file
    let at = overheads[1].offset() as usize + 2;
    file[at] ^= 0x04;
    let found = read(&file);
    assert_eq!(found[1].len(), stored[1].len());
    assert_ne!(found[1], stored[1]);
    assert_eq!(Segment::check_entries(&overheads, &found, true), Err(Error::Checksum));
    assert_eq!(Segment::check_entries(&overheads, &found, false), Ok(()));
    assert_eq!(found[0], stored[0]);
    assert_eq!(found[2], stored[2]);
}
