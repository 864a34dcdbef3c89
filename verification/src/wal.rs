//! The log: an ordered run of segments and the read cursor.
//!
//! Entries are appended to the last segment, and a new segment follows when
//! it is full. Entries are read from the first segment on, the cursor moves
//! with each read, and a segment that was read to its end leaves the log.
//!
//! The functions here touch no file. Each says what the caller is to write,
//! read or remove, and the state moves on as if that had been done.

pub mod batch;
pub mod cursor;
pub mod queue;
pub mod recovery;
pub mod state;
pub mod walk;

use crate::config::Config;
use crate::segment::layout::total_len;
use crate::segment::state::{appends, batch, payloads, SegmentView};
use crate::segment::{Append, Segment, Span};
use crate::wal::cursor::{cursor_image, Cursor, Position};
use crate::segment::steps::applied_all;
use crate::wal::queue::{gathered, lemma_read_queue, lemma_write_queue};
use crate::wal::recovery::{lemma_read_resumable, opened};
use crate::wal::state::{entries_in, lemma_pending_grows, pending_in, views, WALView};
use crate::wal::walk::{
    delivered, lemma_read_all, lemma_read_finished, lemma_read_pending, lemma_walk_bounds,
    lemma_walk_count, reading, walk, Reading, Walk,
};
use vstd::prelude::*;

verus! {

/// The log, as it is held in memory.
#[derive(Debug)]
pub struct WAL {
    cfg: Config,
    cursor: Cursor,
    next_sequence: u64,
    segments: Vec<Segment>,
}

impl View for WAL {
    type V = WALView;

    closed spec fn view(&self) -> WALView {
        WALView {
            cfg: self.cfg,
            cursor: self.cursor.position,
            next_sequence: self.next_sequence,
            segments: Seq::new(self.segments@.len(), |i: int| self.segments@[i]@),
        }
    }
}

impl WAL {
    /// The state of a log is well-formed at all times.
    #[verifier::type_invariant]
    pub open spec fn inv(self) -> bool {
        self@.wf()
    }
}

impl Clone for WAL {
    /// A copy of the state.
    fn clone(&self) -> (copy: WAL)
        ensures
            copy@ == self@,
    {
        proof {
            use_type_invariant(self);
        }
        let mut segments: Vec<Segment> = Vec::new();
        let mut i: usize = 0;
        while i < self.segments.len()
            invariant
                i <= self.segments@.len(),
                segments@ == self.segments@.take(i as int),
            decreases self.segments@.len() - i,
        {
            segments.push(self.segments[i]);
            i = i + 1;
            assert(segments@ =~= self.segments@.take(i as int));
        }
        assert(segments@ =~= self.segments@);
        WAL { cfg: self.cfg, cursor: self.cursor, next_sequence: self.next_sequence, segments }
    }
}

/// A new segment that the log asks for.
#[derive(Debug, Copy, Clone, PartialEq, Eq, Structural)]
pub struct Allocation {
    /// The segment whose file is to be flushed first, if there is one; a
    /// failure of the flush is ignored.
    pub flush: Option<u64>,
    /// The sequence of the segment to create.
    pub sequence: u64,
    /// The capacity to create it with, where its file is new.
    pub limit: usize,
}

/// The answer to a request for room.
#[derive(Debug, Copy, Clone, PartialEq, Eq, Structural)]
pub enum Grant {
    /// The last segment takes this many entries.
    Space(usize),
    /// The last segment is full, or there is none: a new one is needed.
    Segment(Allocation),
}

/// One step of a write: what the caller is to do before it asks again with
/// the entries that are left.
#[derive(Debug)]
pub enum Round {
    /// Nothing is left to write.
    Idle,
    /// The last segment is full, or there is none: the caller opens a new
    /// segment and hands it to `push`.
    Allocate(Allocation),
    /// The leading entries go to segment `sequence`, one plan for each.
    Append {
        /// The segment that takes the entries.
        sequence: u64,
        /// What is to be written for each entry, in order.
        plans: Vec<Append>,
    },
}

/// What a read asks of the caller.
#[derive(Debug)]
pub struct Delivery {
    /// The runs of entries to read and hand out, in order.
    pub readings: Vec<Reading>,
    /// The segments that were read to their end: their files are removed.
    pub finished: Vec<u64>,
    /// The bytes to replace the cursor file with, where the cursor moved; a
    /// failure to save them is ignored.
    pub save: Option<[u8; 32]>,
}

impl WAL {
    /// Opens a log on the cursor and the segments that were found: those of
    /// consecutive sequences from the cursor's on.
    pub fn open(cfg: Config, cursor: Cursor, segments: Vec<Segment>) -> (wal: WAL)
        requires
            forall|i: int|
                0 <= i < segments@.len() ==> (#[trigger] segments@[i])@.sequence
                    == cursor.position.sequence + i,
            cursor.position.sequence + segments@.len() <= u64::MAX,
        ensures
            wal@.wf(),
            wal@.resumable(),
            wal@ == opened(cfg, cursor.position, views(segments@)),
    {
        let mut checked: usize = 0;
        while checked < segments.len()
            invariant
                checked <= segments@.len(),
                forall|i: int| 0 <= i < checked ==> (#[trigger] segments@[i])@.wf(),
            decreases segments@.len() - checked,
        {
            let segment: &Segment = &segments[checked];
            proof {
                use_type_invariant(segment);
            }
            checked = checked + 1;
        }
        let mut cursor = cursor;
        let read_sequence: u64 = cursor.position.sequence + segments.len() as u64;
        if segments.len() == 0 {
            cursor.position.sequence = 0;
            cursor.position.read = 0;
        } else if (segments[0].len() as u64) < cursor.position.read {
            cursor.position.read = 0;
        }
        let wal = WAL { cfg, cursor, next_sequence: read_sequence, segments };
        proof {
            assert(wal@.segments =~= views(segments@));
        }
        wal
    }

    /// The count of entries that are yet to be read.
    pub fn len(&self) -> (len: usize)
        requires
            self@.pending() <= usize::MAX,
        ensures
            self@.wf(),
            len == self@.pending(),
    {
        self.try_len().unwrap()
    }

    /// The count of entries that are yet to be read, where it can be counted.
    pub fn try_len(&self) -> (len: Option<usize>)
        ensures
            self@.wf(),
            match len {
                Some(count) => count == self@.pending(),
                None => self@.pending() > usize::MAX,
            },
    {
        proof {
            use_type_invariant(self);
        }
        let mut size: usize = 0;
        let mut i: usize = 0;
        while i < self.segments.len()
            invariant
                i <= self.segments@.len(),
                self@.wf(),
                size == pending_in(self@.segments, self@.cursor, i as int),
            decreases self.segments@.len() - i,
        {
            let segment: &Segment = &self.segments[i];
            proof {
                lemma_pending_grows(self@, i as int + 1, self@.segments.len() as int);
                lemma_pending_grows(self@, i as int, i as int + 1);
                assert(self@.segments[i as int] == segment@);
            }
            let num: usize = if segment.sequence() == self.cursor.position.sequence {
                segment.len() - self.cursor.position.read as usize
            } else {
                segment.len()
            };
            if num > usize::MAX - size {
                return None;
            }
            size = size + num;
            i = i + 1;
        }
        Some(size)
    }

    /// Whether the next step of writing `data` can address what it appends.
    pub fn fits(&self, data: &[&[u8]]) -> (fits: bool)
        ensures
            self@.wf(),
            fits == (data@.len() > 0 && self@.has_room() ==> self@.tail().fits_batch(
                payloads(data@),
            )),
    {
        proof {
            use_type_invariant(self);
        }
        let count: usize = self.segments.len();
        if data.len() == 0 || count == 0 {
            return true;
        }
        let tail: &Segment = &self.segments[count - 1];
        assert(self@.segments[count - 1] == tail@);
        if tail.space() == 0 {
            return true;
        }
        tail.fits(data)
    }

    /// The open segments, oldest first.
    pub fn segments(&self) -> (segments: &Vec<Segment>)
        ensures
            self@.wf(),
            views(segments@) == self@.segments,
    {
        proof {
            use_type_invariant(self);
            assert(views(self.segments@) =~= self@.segments);
        }
        &self.segments
    }

    /// The settings.
    pub fn cfg(&self) -> (cfg: Config)
        ensures
            cfg == self@.cfg,
    {
        self.cfg
    }

    /// The cursor.
    pub fn cursor(&self) -> (cursor: Cursor)
        ensures
            cursor.position == self@.cursor,
    {
        self.cursor
    }

    /// Asks for room for `n` entries: the last segment grants what it has, up
    /// to `n`; where it is full, or the log has no segment, a new segment is
    /// asked for.
    pub fn try_allocate(&self, n: usize) -> (grant: Grant)
        ensures
            self@.wf(),
            self@.has_room() ==> grant == Grant::Space(
                if self@.tail().space() > n {
                    n
                } else {
                    self@.tail().space() as usize
                },
            ),
            !self@.has_room() ==> grant == Grant::Segment(
                Allocation {
                    flush: if self@.segments.len() > 0 {
                        Some(self@.tail().sequence)
                    } else {
                        None
                    },
                    sequence: self@.next_sequence,
                    limit: self@.cfg.entry_per_segment,
                },
            ),
    {
        proof {
            use_type_invariant(self);
        }
        let count: usize = self.segments.len();
        let mut flush: Option<u64> = None;
        if count > 0 {
            let tail: &Segment = &self.segments[count - 1];
            assert(self@.segments[count - 1] == tail@);
            let space: usize = tail.space();
            if space > 0 {
                return if space > n {
                    Grant::Space(n)
                } else {
                    Grant::Space(space)
                };
            }
            flush = Some(tail.sequence());
        }
        Grant::Segment(
            Allocation { flush, sequence: self.next_sequence, limit: self.cfg.entry_per_segment },
        )
    }

    /// Takes the segment that was opened for an allocation as the new last
    /// segment.
    pub fn push(&mut self, segment: Segment)
        requires
            segment@.sequence == old(self)@.next_sequence,
            old(self)@.next_sequence < u64::MAX,
        ensures
            old(self)@.wf(),
            final(self)@.wf(),
            final(self)@ == old(self)@.pushed(segment@),
            old(self)@.packed() && !old(self)@.has_room() ==> final(self)@.packed(),
    {
        proof {
            use_type_invariant(&*self);
            use_type_invariant(&segment);
        }
        let ghost before = self@;
        let mut segments: Vec<Segment> = Vec::new();
        std::mem::swap(&mut segments, &mut self.segments);
        self.next_sequence = self.next_sequence + 1;
        segments.push(segment);
        proof {
            assert(views(segments@) =~= before.segments.push(segment@));
            assert forall|i: int| 0 <= i < segments@.len() implies (#[trigger] views(
                segments@,
            )[i]).wf() && views(segments@)[i].sequence == views(segments@)[0].sequence + i by {
                if i < before.segments.len() {
                    assert(views(segments@)[i] == before.segments[i]);
                    assert(views(segments@)[0] == before.segments[0]);
                }
                if before.segments.len() > 0 {
                    assert(before.segments.last().sequence == before.segments[0].sequence + (
                    before.segments.len() - 1));
                }
            }
        }
        self.segments = segments;
        proof {
            assert(self@.segments =~= before.segments.push(segment@));
        }
    }
}

impl WAL {
    /// One step of writing `data`: nothing where `data` is empty; a request
    /// for a new segment where the last one is full; else the leading entries
    /// of `data` are appended to the last segment, as many as it takes.
    pub fn write(&mut self, data: &[&[u8]]) -> (round: Round)
        requires
            data@.len() > 0 && old(self)@.has_room() ==> old(self)@.tail().fits_batch(
                payloads(data@),
            ),
        ensures
            old(self)@.wf(),
            final(self)@.wf(),
            old(self)@.packed() ==> final(self)@.packed(),
            data@.len() == 0 ==> round is Idle && final(self)@ == old(self)@,
            data@.len() > 0 && !old(self)@.has_room() ==> final(self)@ == old(self)@ && round
                == Round::Allocate(
                Allocation {
                    flush: if old(self)@.segments.len() > 0 {
                        Some(old(self)@.tail().sequence)
                    } else {
                        None
                    },
                    sequence: old(self)@.next_sequence,
                    limit: old(self)@.cfg.entry_per_segment,
                },
            ),
            data@.len() > 0 && old(self)@.has_room() ==> match round {
                Round::Append { sequence, plans } => {
                    &&& sequence == old(self)@.tail().sequence
                    &&& plans@.len() > 0
                    &&& batch(old(self)@.tail(), payloads(data@), plans@)
                    &&& final(self)@ == old(self)@.appended(payloads(data@))
                    &&& forall|disk: Map<u64, Seq<u8>>| #[trigger]
                        old(self)@.describes(disk) ==> {
                            let written = disk.insert(
                                sequence,
                                applied_all(
                                    disk[sequence],
                                    plans@,
                                    payloads(data@),
                                    plans@.len() as int,
                                ),
                            );
                            &&& final(self)@.describes(written)
                            &&& final(self)@.queue(written) == old(self)@.queue(disk) + payloads(
                                data@,
                            ).subrange(0, plans@.len() as int)
                        }
                },
                _ => false,
            },
    {
        proof {
            use_type_invariant(&*self);
        }
        if data.len() == 0 {
            return Round::Idle;
        }
        match self.try_allocate(data.len()) {
            Grant::Segment(allocation) => Round::Allocate(allocation),
            Grant::Space(space) => {
                let ghost before = self@;
                let mut segments: Vec<Segment> = Vec::new();
                std::mem::swap(&mut segments, &mut self.segments);
                assert(views(segments@) =~= before.segments);
                let mut tail: Segment = segments.pop().unwrap();
                assert(tail@ == before.tail());
                let part: &[&[u8]] = &data[0..space];
                proof {
                    lemma_batch_of_part(tail@, data@, space as int);
                }
                let plans: Vec<Append> = tail.batch_write(part);
                let sequence: u64 = tail.sequence();
                let ghost after = tail@;
                segments.push(tail);
                proof {
                    assert(views(segments@) =~= before.segments.drop_last().push(after));
                    lemma_tail_changed(before, after, views(segments@));
                }
                self.segments = segments;
                proof {
                    assert(self@.segments =~= before.segments.drop_last().push(after));
                    assert(forall|i: int|
                        0 <= i < plans@.len() ==> appends(
                            before.tail(),
                            payloads(data@),
                            i,
                            #[trigger] plans@[i],
                        )) by {
                        assert forall|i: int| 0 <= i < plans@.len() implies appends(
                            before.tail(),
                            payloads(data@),
                            i,
                            #[trigger] plans@[i],
                        ) by {
                            assert(appends(
                                before.tail(),
                                payloads(part@),
                                i,
                                plans@[i],
                            ));
                            lemma_total_len_of_part(data@, space as int, i);
                        }
                    }
                }
                proof {
                    assert forall|disk: Map<u64, Seq<u8>>| #[trigger]
                        before.describes(disk) implies {
                        let written = disk.insert(
                            sequence,
                            applied_all(
                                disk[sequence],
                                plans@,
                                payloads(data@),
                                plans@.len() as int,
                            ),
                        );
                        &&& self@.describes(written)
                        &&& self@.queue(written) == before.queue(disk) + payloads(data@).subrange(
                            0,
                            plans@.len() as int,
                        )
                    } by {
                        lemma_write_queue(before, disk, payloads(data@), plans@);
                    }
                }
                Round::Append { sequence, plans }
            },
        }
    }
}

impl WAL {
    /// Takes back, in the last segment, the append of `plan` and of every
    /// entry behind it, where the writes that `plan` asks for failed; the
    /// payload of `plan` counts as written where `stored` says that it was.
    pub fn rewind(&mut self, plan: &Append, stored: bool)
        requires
            old(self)@.segments.len() > 0,
            old(self)@.tail().planned(*plan),
            old(self)@.segments.len() == 1 && old(self)@.aligned() ==> old(self)@.cursor.read
                <= old(self)@.tail().rewound(*plan, stored).entry_number,
        ensures
            old(self)@.wf(),
            final(self)@.wf(),
            final(self)@ == (WALView {
                segments: old(self)@.segments.drop_last().push(
                    old(self)@.tail().rewound(*plan, stored),
                ),
                ..old(self)@
            }),
    {
        proof {
            use_type_invariant(&*self);
        }
        let ghost before = self@;
        let mut segments: Vec<Segment> = Vec::new();
        std::mem::swap(&mut segments, &mut self.segments);
        assert(views(segments@) =~= before.segments);
        let mut tail: Segment = segments.pop().unwrap();
        assert(tail@ == before.tail());
        tail.rewind(plan, stored);
        let ghost after = tail@;
        segments.push(tail);
        proof {
            assert(views(segments@) =~= before.segments.drop_last().push(after));
            lemma_tail_changed(before, after, views(segments@));
        }
        self.segments = segments;
        proof {
            assert(self@.segments =~= before.segments.drop_last().push(after));
        }
    }

    /// Reads up to `n` entries, oldest first: the runs of entries to read
    /// come back, the cursor moves behind the last of them, and the segments
    /// that were read to their end leave the log.
    ///
    /// The read begins in the first segment: behind the entries that the
    /// cursor counts, where the cursor stands in that segment, and with its
    /// first entry, where the cursor stands before it.
    pub fn read(&mut self, n: usize) -> (delivery: Delivery)
        ensures
            old(self)@.wf(),
            final(self)@.wf(),
            final(self)@ == old(self)@.after_read(n as int),
            delivery.readings@ == old(self)@.read(n as int).readings,
            delivery.finished@.len() == old(self)@.read(n as int).finished,
            forall|i: int|
                0 <= i < delivery.finished@.len() ==> #[trigger] delivery.finished@[i] == old(
                    self,
                )@.segments[i].sequence,
            0 <= delivered(delivery.readings@) <= n,
            final(self)@.pending() == old(self)@.pending() - delivered(delivery.readings@),
            forall|disk: Map<u64, Seq<u8>>|
                gathered(delivery.readings@, disk) == (#[trigger] old(self)@.queue(disk)).take(
                    delivered(delivery.readings@),
                ) && final(self)@.queue(disk) == old(self)@.queue(disk).skip(
                    delivered(delivery.readings@),
                ),
            forall|i: int|
                0 <= i < delivery.finished@.len() ==> (#[trigger] old(self)@.segments[i]).space()
                    == 0,
            entries_in(old(self)@.segments, delivery.finished@.len() as int) <= old(
                self,
            )@.consumed() + delivered(delivery.readings@),
            old(self)@.packed() ==> final(self)@.packed() && delivered(delivery.readings@)
                == if n <= old(self)@.pending() {
                n as int
            } else {
                old(self)@.pending()
            },
            old(self)@.packed() && (old(self)@.resumable() || delivered(delivery.readings@) > 0)
                ==> final(self)@.resumable(),
            final(self)@.cursor == old(self)@.cursor ==> delivery.save is None,
            final(self)@.cursor != old(self)@.cursor ==> delivery.save is Some
                && delivery.save->Some_0@ == cursor_image(final(self)@.cursor),
    {
        proof {
            use_type_invariant(&*self);
        }
        let ghost before = self@;
        let ghost whole = before.read(n as int);
        let start_pos: Position = self.cursor.position;
        let mut readings: Vec<Reading> = Vec::new();
        let mut index: usize = 0;
        let mut start: u64 = 0;
        if self.segments.len() > 0 {
            let first: &Segment = &self.segments[0];
            assert(first@ == before.segments[0]);
            if first.sequence() == self.cursor.position.sequence {
                start = self.cursor.position.read;
            }
        }
        assert(start == before.consumed());
        let mut left: usize = n;
        let mut position: Position = start_pos;
        let mut stop: bool = false;
        let ghost mut last: Option<(int, int)> = None;

        while !stop && left > 0 && index < self.segments.len()
            invariant
                self@ == before,
                before.wf(),
                whole == walk(before.segments, 0, before.consumed(), n as int),
                index <= self.segments@.len(),
                left <= n,
                position == match last {
                    Some((at, read)) => Position {
                        sequence: before.segments[at].sequence,
                        read: read as u64,
                    },
                    None => before.cursor,
                },
                last is Some ==> 0 <= last->Some_0.0 < before.segments.len(),
                stop ==> whole == (Walk { readings: readings@, finished: index as int, last }),
                !stop ==> ({
                    let rest = walk(before.segments, index as int, start as int, left as int);
                    whole == (Walk {
                        readings: readings@ + rest.readings,
                        finished: rest.finished,
                        last: if rest.last is Some {
                            rest.last
                        } else {
                            last
                        },
                    })
                }),
            decreases
                    self.segments@.len() - index + if stop {
                        0int
                    } else {
                        1int
                    },
        {
            let segment: &Segment = &self.segments[index];
            assert(segment@ == before.segments[index as int]);
            assert(before.segments[index as int].wf());
            let ghost rest = walk(before.segments, index as int, start as int, left as int);
            if start >= segment.len() as u64 {
                if segment.space() == 0 {
                    proof {
                        assert(rest == walk(before.segments, index + 1, 0, left as int));
                    }
                    index = index + 1;
                    start = 0;
                } else {
                    stop = true;
                    proof {
                        assert(rest == (Walk {
                            readings: Seq::empty(),
                            finished: index as int,
                            last: None,
                        }));
                        assert(readings@ + rest.readings =~= readings@);
                    }
                }
            } else {
                let ghost prior = readings@;
                let span: Span = segment.read_into(start as usize, left);
                let here = Reading { sequence: segment.sequence(), start: start as usize, span };
                assert(here == reading(segment@, start as int, left as int));
                readings.push(here);
                let ghost from = start as int;
                let ghost wanted = left as int;
                start = start + span.count as u64;
                left = left - span.count;
                position = Position { sequence: segment.sequence(), read: start };
                proof {
                    last = Some((index as int, start as int));
                    assert(start as int == from + span.count);
                    assert(left as int == wanted - span.count);
                }
                if left > 0 && segment.space() == 0 {
                    proof {
                        let next = walk(before.segments, index + 1, 0, left as int);
                        assert(rest == (Walk {
                            readings: seq![here] + next.readings,
                            finished: next.finished,
                            last: if next.last is Some {
                                next.last
                            } else {
                                Some((index as int, from + span.count))
                            },
                        }));
                        assert(readings@ + next.readings =~= prior + (seq![here] + next.readings));
                    }
                    start = 0;
                    index = index + 1;
                } else {
                    stop = true;
                    proof {
                        assert(rest == (Walk {
                            readings: seq![here],
                            finished: index as int,
                            last: Some((index as int, from + span.count)),
                        }));
                        assert(readings@ =~= prior + seq![here]);
                    }
                }
            }
        }
        proof {
            if !stop {
                let rest = walk(before.segments, index as int, start as int, left as int);
                assert(readings@ + rest.readings =~= readings@);
            }
            assert(whole == (Walk { readings: readings@, finished: index as int, last }));
            lemma_walk_bounds(before, n as int);
            lemma_walk_count(before.segments, 0, before.consumed(), n as int);
            lemma_read_pending(before, n as int);
            lemma_read_finished(before, n as int);
            assert forall|disk: Map<u64, Seq<u8>>|
                gathered(readings@, disk) == (#[trigger] before.queue(disk)).take(
                    delivered(readings@),
                ) && before.after_read(n as int).queue(disk) == before.queue(disk).skip(
                    delivered(readings@),
                ) by {
                lemma_read_queue(before, disk, n as int);
            }
            if before.packed() {
                lemma_read_all(before, n as int);
                if before.resumable() || delivered(readings@) > 0 {
                    lemma_read_resumable(before, n as int);
                }
            }
        }

        let mut segments: Vec<Segment> = Vec::new();
        std::mem::swap(&mut segments, &mut self.segments);
        assert(views(segments@) =~= before.segments);
        let mut finished: Vec<u64> = Vec::new();
        let mut removed: usize = 0;
        while removed < index
            invariant
                removed <= index <= before.segments.len(),
                segments@.len() == before.segments.len() - removed,
                views(segments@) == before.segments.skip(removed as int),
                finished@.len() == removed,
                forall|i: int|
                    0 <= i < finished@.len() ==> #[trigger] finished@[i]
                        == before.segments[i].sequence,
            decreases index - removed,
        {
            let ghost held = segments@;
            assert(views(segments@)[0] == held[0]@);
            let segment: Segment = segments.remove(0);
            finished.push(segment.sequence());
            removed = removed + 1;
            proof {
                assert forall|i: int| 0 <= i < segments@.len() implies views(segments@)[i]
                    == before.segments.skip(removed as int)[i] by {
                    assert(segments@[i] == held[i + 1]);
                    assert(before.segments.skip(removed - 1)[i + 1] == held[i + 1]@);
                }
                assert(views(segments@) =~= before.segments.skip(removed as int));
            }
        }

        self.cursor.position = position;
        proof {
            assert(before.after_read(n as int).wf());
            assert(views(segments@) == before.after_read(n as int).segments);
        }
        self.segments = segments;
        proof {
            assert(self@.segments =~= before.after_read(n as int).segments);
        }
        let save: Option<[u8; 32]> = if position != start_pos {
            Some(self.cursor.save())
        } else {
            None
        };
        Delivery { readings, finished, save }
    }
}

/// A state stays well-formed when its last segment changes its count of
/// entries within its capacity, as long as the cursor still counts no more
/// entries than the first segment has.
proof fn lemma_tail_changed(before: WALView, tail: SegmentView, segments: Seq<SegmentView>)
    requires
        before.wf(),
        before.segments.len() > 0,
        tail.wf(),
        tail.sequence == before.tail().sequence,
        segments == before.segments.drop_last().push(tail),
        before.segments.len() == 1 && before.aligned() ==> before.cursor.read
            <= tail.entry_number,
    ensures
        (WALView { segments, ..before }).wf(),
{
    let after = WALView { segments, ..before };
    let len = before.segments.len() as int;
    assert forall|i: int| 0 <= i < len implies (#[trigger] after.segments[i]).wf()
        && after.segments[i].sequence == after.segments[0].sequence + i by {
        assert(before.segments[len - 1].sequence == before.segments[0].sequence + (len - 1));
        if i < len - 1 {
            assert(after.segments[i] == before.segments[i]);
        }
        if 0 < len - 1 {
            assert(after.segments[0] == before.segments[0]);
        }
    }
}

/// The first entries of a batch weigh the same in the batch and in its
/// leading part.
proof fn lemma_total_len_of_part(data: Seq<&[u8]>, part: int, upto: int)
    requires
        0 <= upto <= part <= data.len(),
    ensures
        total_len(payloads(data.subrange(0, part)), upto) == total_len(payloads(data), upto),
    decreases upto,
{
    if upto > 0 {
        lemma_total_len_of_part(data, part, upto - 1);
    }
}

/// A segment takes the leading part of a batch, cut to its room, as it takes
/// the batch.
proof fn lemma_batch_of_part(tail: SegmentView, data: Seq<&[u8]>, part: int)
    requires
        tail.wf(),
        part == tail.taken(data.len()),
        tail.fits_batch(payloads(data)),
    ensures
        tail.taken(part as nat) == part,
        tail.fits_batch(payloads(data.subrange(0, part))),
        tail.batched(payloads(data.subrange(0, part))) == tail.batched(payloads(data)),
{
    lemma_total_len_of_part(data, part, part);
}

} // verus!
