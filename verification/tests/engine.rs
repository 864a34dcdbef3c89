//! The decisions of the log, on states that are built by hand.

use wal::segment::{prepare, Segment, Span};
use wal::wal::cursor::{Cursor, Position};
use wal::wal::recovery::{probe, Probe, Probed};
use wal::wal::walk::Reading;
use wal::wal::{Allocation, Grant, Round};
use wal::{Config, WAL};

const CFG: Config = Config { entry_per_segment: 4, check_crc32: false };

/// A segment of capacity `limit` that holds `len` entries of one byte.
fn segment(sequence: u64, limit: usize, len: usize) -> Segment {
    let plan = prepare(limit);
    let mut state = Segment::open(sequence, limit, &plan.head, plan.size as u64).unwrap().segment;
    for _ in 0..len {
        assert!(state.write(b"x").is_some());
    }
    state
}

fn cursor(sequence: u64, read: u64) -> Cursor {
    Cursor { position: Position { sequence, read } }
}

fn lens(wal: &WAL) -> Vec<(u64, usize)> {
    wal.segments().iter().map(|s| (s.sequence(), s.len())).collect()
}

fn reading(sequence: u64, start: usize, count: usize) -> Reading {
    Reading { sequence, start, span: Span { offset: 24 + 22 * start as u64, count } }
}

#[test]
fn open_without_segments_starts_the_cursor_over() {
    let wal = WAL::open(CFG, cursor(3, 2), Vec::new());
    assert_eq!(wal.cursor(), cursor(0, 0));
    assert_eq!(wal.len(), 0);
    assert_eq!(wal.cfg(), CFG);
    // the next segment takes the sequence at which the search ended
    assert_eq!(
        wal.try_allocate(1),
        Grant::Segment(Allocation { flush: None, sequence: 3, limit: 4 })
    );
}

#[test]
fn open_keeps_a_cursor_that_the_first_segment_covers() {
    let wal = WAL::open(CFG, cursor(3, 2), vec![segment(3, 4, 4), segment(4, 4, 1)]);
    assert_eq!(wal.cursor(), cursor(3, 2));
    assert_eq!(wal.len(), 3);
    let wal = WAL::open(CFG, cursor(3, 4), vec![segment(3, 4, 4), segment(4, 4, 1)]);
    assert_eq!(wal.cursor(), cursor(3, 4));
    assert_eq!(wal.len(), 1);
    assert_eq!(wal.try_len(), Some(1));
}

#[test]
fn open_resets_a_count_beyond_the_first_segment() {
    let wal = WAL::open(CFG, cursor(3, 5), vec![segment(3, 8, 4), segment(4, 4, 1)]);
    assert_eq!(wal.cursor(), cursor(3, 0));
    assert_eq!(wal.len(), 5);
    assert_eq!(lens(&wal), vec![(3, 4), (4, 1)]);
}

#[test]
fn room_is_what_the_last_segment_has() {
    let wal = WAL::open(CFG, cursor(0, 0), vec![segment(0, 4, 4), segment(1, 4, 1)]);
    assert_eq!(wal.try_allocate(2), Grant::Space(2));
    assert_eq!(wal.try_allocate(3), Grant::Space(3));
    assert_eq!(wal.try_allocate(9), Grant::Space(3));

    let full = WAL::open(CFG, cursor(0, 0), vec![segment(0, 4, 4), segment(1, 4, 4)]);
    assert_eq!(
        full.try_allocate(9),
        Grant::Segment(Allocation { flush: Some(1), sequence: 2, limit: 4 })
    );
}

#[test]
fn a_write_fills_the_last_segment_and_asks_for_the_next() {
    let mut wal = WAL::open(CFG, cursor(0, 0), Vec::new());
    let data: Vec<&[u8]> = vec![b"a", b"bb", b"ccc", b"dddd", b"eeeee", b"f"];

    assert!(matches!(wal.write(&[]), Round::Idle));
    assert!(wal.fits(&data));
    let allocation = match wal.write(&data) {
        Round::Allocate(allocation) => allocation,
        _ => panic!("expecting a request for a segment"),
    };
    assert_eq!(allocation, Allocation { flush: None, sequence: 0, limit: 4 });
    assert_eq!(wal.segments().len(), 0);
    wal.push(segment(0, 4, 0));

    let base = 24 + 22 * 4;
    match wal.write(&data) {
        Round::Append { sequence, plans } => {
            assert_eq!(sequence, 0);
            assert_eq!(plans.len(), 4);
            let offsets: Vec<u64> = plans.iter().map(|plan| plan.offset).collect();
            assert_eq!(offsets, vec![base, base + 1, base + 3, base + 6]);
            let slots: Vec<u64> = plans.iter().map(|plan| plan.overhead_offset).collect();
            assert_eq!(slots, vec![24, 46, 68, 90]);
            let sizes: Vec<u64> = plans.iter().map(|plan| plan.overhead.size()).collect();
            assert_eq!(sizes, vec![1, 2, 3, 4]);
        }
        _ => panic!("expecting appends"),
    }
    assert_eq!(lens(&wal), vec![(0, 4)]);
    assert_eq!(wal.len(), 4);

    let rest = &data[4..];
    match wal.write(rest) {
        Round::Allocate(allocation) => {
            assert_eq!(allocation, Allocation { flush: Some(0), sequence: 1, limit: 4 })
        }
        _ => panic!("expecting a request for a segment"),
    }
    wal.push(segment(1, 4, 0));
    match wal.write(rest) {
        Round::Append { sequence, plans } => {
            assert_eq!(sequence, 1);
            assert_eq!(plans.len(), 2);
            assert_eq!(plans[1].offset, base + 5);
        }
        _ => panic!("expecting appends"),
    }
    assert_eq!(lens(&wal), vec![(0, 4), (1, 2)]);
    assert_eq!(wal.len(), 6);
}

#[test]
fn a_failed_append_is_taken_back() {
    let mut wal = WAL::open(CFG, cursor(0, 0), vec![segment(0, 4, 1)]);
    let data: Vec<&[u8]> = vec![b"bb", b"ccc"];
    let plans = match wal.write(&data) {
        Round::Append { plans, .. } => plans,
        _ => panic!("expecting appends"),
    };
    assert_eq!(lens(&wal), vec![(0, 3)]);
    wal.rewind(&plans[1], true);
    assert_eq!(lens(&wal), vec![(0, 2)]);
    assert_eq!(wal.segments()[0].data_written(), plans[1].offset + 3);
    assert_eq!(wal.len(), 2);
}

#[test]
fn a_read_within_the_first_segment_moves_the_cursor_only() {
    let mut wal = WAL::open(CFG, cursor(0, 1), vec![segment(0, 4, 4), segment(1, 4, 2)]);
    assert_eq!(wal.len(), 5);
    let delivery = wal.read(2);
    assert_eq!(delivery.readings, vec![reading(0, 1, 2)]);
    assert!(delivery.finished.is_empty());
    assert_eq!(delivery.save, Some(cursor(0, 3).save()));
    assert_eq!(wal.cursor(), cursor(0, 3));
    assert_eq!(lens(&wal), vec![(0, 4), (1, 2)]);
    assert_eq!(wal.len(), 3);
}

#[test]
fn a_read_to_the_end_of_a_full_segment_keeps_it_until_the_next_read() {
    let mut wal = WAL::open(CFG, cursor(0, 1), vec![segment(0, 4, 4), segment(1, 4, 2)]);
    let delivery = wal.read(3);
    assert_eq!(delivery.readings, vec![reading(0, 1, 3)]);
    assert!(delivery.finished.is_empty());
    assert_eq!(wal.cursor(), cursor(0, 4));
    assert_eq!(lens(&wal), vec![(0, 4), (1, 2)]);
    assert_eq!(wal.len(), 2);

    let delivery = wal.read(1);
    assert_eq!(delivery.readings, vec![reading(1, 0, 1)]);
    assert_eq!(delivery.finished, vec![0]);
    assert_eq!(delivery.save, Some(cursor(1, 1).save()));
    assert_eq!(wal.cursor(), cursor(1, 1));
    assert_eq!(lens(&wal), vec![(1, 2)]);
    assert_eq!(wal.len(), 1);
}

#[test]
fn a_read_crosses_segments_and_stops_at_one_with_room() {
    let mut wal = WAL::open(
        CFG,
        cursor(5, 2),
        vec![segment(5, 4, 4), segment(6, 4, 4), segment(7, 4, 3)],
    );
    assert_eq!(wal.len(), 9);
    let delivery = wal.read(100);
    assert_eq!(delivery.readings, vec![reading(5, 2, 2), reading(6, 0, 4), reading(7, 0, 3)]);
    assert_eq!(delivery.finished, vec![5, 6]);
    assert_eq!(delivery.save, Some(cursor(7, 3).save()));
    assert_eq!(lens(&wal), vec![(7, 3)]);
    assert_eq!(wal.len(), 0);

    // nothing is left, and nothing changes
    let delivery = wal.read(100);
    assert!(delivery.readings.is_empty());
    assert!(delivery.finished.is_empty());
    assert_eq!(delivery.save, None);
    assert_eq!(wal.cursor(), cursor(7, 3));
    assert_eq!(lens(&wal), vec![(7, 3)]);
}

#[test]
fn a_read_of_nothing_changes_nothing() {
    let mut wal = WAL::open(CFG, cursor(0, 4), vec![segment(0, 4, 4), segment(1, 4, 2)]);
    let delivery = wal.read(0);
    assert!(delivery.readings.is_empty());
    assert!(delivery.finished.is_empty());
    assert_eq!(delivery.save, None);
    assert_eq!(lens(&wal), vec![(0, 4), (1, 2)]);
    assert_eq!(wal.len(), 2);
}

#[test]
fn a_read_that_drains_the_log_finishes_its_full_segments() {
    let mut wal = WAL::open(CFG, cursor(0, 0), vec![segment(0, 4, 4)]);
    let delivery = wal.read(9);
    assert_eq!(delivery.readings, vec![reading(0, 0, 4)]);
    assert_eq!(delivery.finished, vec![0]);
    assert_eq!(wal.cursor(), cursor(0, 4));
    assert!(wal.segments().is_empty());
    assert_eq!(wal.len(), 0);
    assert_eq!(
        wal.try_allocate(1),
        Grant::Segment(Allocation { flush: None, sequence: 1, limit: 4 })
    );
}

#[test]
fn each_read_takes_what_it_delivers_from_the_pending_entries() {
    for n in 0..12 {
        for read in 0..5 {
            let mut wal = WAL::open(
                CFG,
                cursor(2, read),
                vec![segment(2, 4, 4), segment(3, 4, 4), segment(4, 4, 1)],
            );
            let before = wal.len();
            assert_eq!(before, 9 - read as usize);
            let delivery = wal.read(n);
            let delivered: usize = delivery.readings.iter().map(|r| r.span.count).sum();
            assert_eq!(delivered, n.min(before));
            assert_eq!(wal.len(), before - delivered);
            assert_eq!(delivery.save.is_some(), delivered > 0);
        }
    }
}

#[test]
fn a_cursor_behind_the_first_segment_has_read_nothing_of_it() {
    // the cursor stands at the end of a segment that is gone
    let mut wal = WAL::open(CFG, cursor(0, 0), vec![segment(0, 4, 4)]);
    wal.read(9);
    wal.push(segment(1, 4, 4));
    wal.push(segment(2, 4, 2));
    assert_eq!(wal.cursor(), cursor(0, 4));
    assert_eq!(wal.len(), 6);

    let mut one = wal.clone();
    let delivery = one.read(1);
    assert_eq!(delivery.readings, vec![reading(1, 0, 1)]);
    assert!(delivery.finished.is_empty());
    assert_eq!(delivery.save, Some(cursor(1, 1).save()));
    assert_eq!(lens(&one), vec![(1, 4), (2, 2)]);
    assert_eq!(one.len(), 5);

    let mut all = wal.clone();
    let delivery = all.read(6);
    assert_eq!(delivery.readings, vec![reading(1, 0, 4), reading(2, 0, 2)]);
    assert_eq!(delivery.finished, vec![1]);
    assert_eq!(all.cursor(), cursor(2, 2));
    assert_eq!(all.len(), 0);

    let delivery = wal.read(usize::MAX);
    let delivered: usize = delivery.readings.iter().map(|r| r.span.count).sum();
    assert_eq!(delivered, 6);
    assert_eq!(wal.len(), 0);
}

#[test]
fn the_count_of_entries_is_what_a_read_without_bound_delivers() {
    for read in 0..5 {
        for tail in 0..5 {
            let mut wal = WAL::open(
                CFG,
                cursor(3, read),
                vec![segment(3, 4, 4), segment(4, 4, 4), segment(5, 4, tail)],
            );
            let pending = wal.len();
            assert_eq!(pending, 8 + tail - read as usize);
            let delivery = wal.read(usize::MAX);
            let delivered: usize = delivery.readings.iter().map(|r| r.span.count).sum();
            assert_eq!(delivered, pending);
            assert_eq!(wal.len(), 0);
        }
    }
}

#[test]
fn only_full_segments_whose_entries_were_all_read_are_finished() {
    for n in 0..12 {
        for read in 0..5 {
            let segments = vec![segment(2, 4, 4), segment(3, 4, 4), segment(4, 4, 1)];
            let mut wal = WAL::open(CFG, cursor(2, read), segments.clone());
            let delivery = wal.read(n);
            let delivered: usize = delivery.readings.iter().map(|r| r.span.count).sum();
            let mut held = 0;
            for (i, sequence) in delivery.finished.iter().enumerate() {
                assert_eq!(*sequence, segments[i].sequence());
                assert_eq!(segments[i].space(), 0);
                held += segments[i].len();
            }
            assert!(held <= read as usize + delivered);
            assert!(!delivery.finished.contains(&4));
        }
    }
}

#[test]
fn the_search_for_segments_ends_at_the_first_missing_file() {
    assert_eq!(probe(0, Probed::Found), Probe::Open(1));
    assert_eq!(probe(41, Probed::Found), Probe::Open(42));
    assert_eq!(probe(u64::MAX - 1, Probed::Found), Probe::Open(u64::MAX));
    assert_eq!(probe(7, Probed::Missing), Probe::Done);
    assert_eq!(probe(u64::MAX, Probed::Missing), Probe::Done);
    assert_eq!(probe(7, Probed::Failed), Probe::Fail);
}

#[test]
fn a_copy_of_the_log_keeps_the_state_that_a_read_leaves_behind() {
    let mut wal = WAL::open(CFG, cursor(0, 1), vec![segment(0, 4, 4), segment(1, 4, 2)]);
    let before = wal.clone();
    wal.read(4);
    assert_eq!(lens(&wal), vec![(1, 2)]);
    assert_eq!(wal.cursor(), cursor(1, 1));
    assert_eq!(lens(&before), vec![(0, 4), (1, 2)]);
    assert_eq!(before.cursor(), cursor(0, 1));
    assert_eq!(before.len(), 5);
    assert_eq!(before.cfg(), CFG);
    assert_eq!(before.try_allocate(1), wal.try_allocate(1));
}
