//! What the state of a log says, and when it is well-formed.

use crate::config::Config;
use crate::segment::state::SegmentView;
use crate::segment::Segment;
use crate::wal::cursor::Position;
use vstd::prelude::*;

verus! {

/// What the state of a log says.
pub struct WALView {
    /// The settings.
    pub cfg: Config,
    /// The next entry to deliver.
    pub cursor: Position,
    /// The sequence that the next new segment gets.
    pub next_sequence: u64,
    /// The open segments, oldest first.
    pub segments: Seq<SegmentView>,
}

/// The entries of `segment` that are yet to be read, as the cursor counts
/// them: all of them unless the cursor stands in this segment.
pub open spec fn remaining(segment: SegmentView, cursor: Position) -> int {
    if segment.sequence == cursor.sequence {
        segment.entry_number - cursor.read
    } else {
        segment.entry_number as int
    }
}

/// The entries yet to be read in the first `upto` of `segments`.
pub open spec fn pending_in(segments: Seq<SegmentView>, cursor: Position, upto: int) -> int
    decreases upto,
{
    if upto <= 0 {
        0
    } else {
        pending_in(segments, cursor, upto - 1) + remaining(segments[upto - 1], cursor)
    }
}

impl WALView {
    /// Whether the state is one that the log can be in: the segments are
    /// well-formed and carry consecutive sequences up to the next one to
    /// assign, and the cursor stands at or before the first segment and
    /// counts no more entries than that segment has.
    pub open spec fn wf(self) -> bool {
        &&& forall|i: int| 0 <= i < self.segments.len() ==> (#[trigger] self.segments[i]).wf()
        &&& forall|i: int|
            0 <= i < self.segments.len() ==> (#[trigger] self.segments[i]).sequence
                == self.segments[0].sequence + i
        &&& self.segments.len() > 0 ==> self.segments.last().sequence + 1 == self.next_sequence
        &&& self.segments.len() > 0 ==> self.cursor.sequence <= self.segments[0].sequence
        &&& self.aligned() ==> self.cursor.read <= self.segments[0].entry_number
        &&& self.cursor.sequence <= self.next_sequence
        &&& self.cursor.sequence == self.next_sequence ==> self.cursor.read == 0
    }

    /// Whether the cursor stands in the first segment.
    pub open spec fn aligned(self) -> bool {
        self.segments.len() > 0 && self.segments[0].sequence == self.cursor.sequence
    }

    /// The count of entries of the first segment that were read: what the
    /// cursor counts where it stands in that segment, and none where it
    /// stands before it.
    pub open spec fn consumed(self) -> int {
        if self.aligned() {
            self.cursor.read as int
        } else {
            0
        }
    }

    /// Whether every segment but the last is full, as it is where each new
    /// segment followed a full one.
    pub open spec fn packed(self) -> bool {
        forall|i: int| 0 <= i < self.segments.len() - 1 ==> (#[trigger] self.segments[i]).space() == 0
    }

    /// The count of entries that are yet to be read.
    pub open spec fn pending(self) -> int {
        pending_in(self.segments, self.cursor, self.segments.len() as int)
    }

    /// The last segment, to which entries are appended.
    pub open spec fn tail(self) -> SegmentView
        recommends
            self.segments.len() > 0,
    {
        self.segments.last()
    }

    /// Whether entries can be appended without a new segment.
    pub open spec fn has_room(self) -> bool {
        self.segments.len() > 0 && self.tail().space() > 0
    }
}

/// The views of the segments of a list.
pub open spec fn views(segments: Seq<Segment>) -> Seq<SegmentView> {
    Seq::new(segments.len(), |i: int| segments[i]@)
}

/// The cursor with which a log opens: at the start where no segment was
/// found, at the start of the first segment where it counts more entries than
/// that segment has, and as it was saved otherwise.
pub open spec fn reconciled(cursor: Position, segments: Seq<SegmentView>) -> Position {
    if segments.len() == 0 {
        Position { sequence: 0, read: 0 }
    } else if segments[0].entry_number < cursor.read {
        Position { sequence: cursor.sequence, read: 0 }
    } else {
        cursor
    }
}

/// The entries yet to be read in more segments are no fewer.
pub(crate) proof fn lemma_pending_grows(wal: WALView, few: int, many: int)
    requires
        wal.wf(),
        0 <= few <= many <= wal.segments.len(),
    ensures
        0 <= pending_in(wal.segments, wal.cursor, few) <= pending_in(
            wal.segments,
            wal.cursor,
            many,
        ),
    decreases many,
{
    if few < many {
        lemma_pending_grows(wal, few, many - 1);
        assert(wal.segments[many - 1].sequence == wal.segments[0].sequence + (many - 1));
    } else if few > 0 {
        lemma_pending_grows(wal, few - 1, few - 1);
        assert(wal.segments[few - 1].sequence == wal.segments[0].sequence + (few - 1));
    }
}

/// The count of entries in the first `upto` of `segments`.
pub open spec fn entries_in(segments: Seq<SegmentView>, upto: int) -> int
    decreases upto,
{
    if upto <= 0 {
        0
    } else {
        entries_in(segments, upto - 1) + segments[upto - 1].entry_number
    }
}

/// Whether the segments carry consecutive sequences.
pub open spec fn consecutive(segments: Seq<SegmentView>) -> bool {
    forall|i: int|
        0 <= i < segments.len() ==> (#[trigger] segments[i]).sequence == segments[0].sequence + i
}

/// With a cursor that stands at or before the first segment, the entries yet
/// to be read are those that the segments hold, less what the cursor has read
/// where it stands in the first.
pub(crate) proof fn lemma_pending_is(segments: Seq<SegmentView>, cursor: Position, upto: int)
    requires
        consecutive(segments),
        0 <= upto <= segments.len(),
        segments.len() > 0 ==> cursor.sequence <= segments[0].sequence,
    ensures
        pending_in(segments, cursor, upto) == entries_in(segments, upto) - if upto > 0
            && segments[0].sequence == cursor.sequence {
            cursor.read as int
        } else {
            0
        },
    decreases upto,
{
    if upto > 0 {
        lemma_pending_is(segments, cursor, upto - 1);
        assert(segments[upto - 1].sequence == segments[0].sequence + (upto - 1));
    }
}

/// The entries of a run of segments, counted from a later segment on.
pub(crate) proof fn lemma_entries_skip(segments: Seq<SegmentView>, from: int, upto: int)
    requires
        0 <= from,
        0 <= upto,
        from + upto <= segments.len(),
    ensures
        entries_in(segments.skip(from), upto) == entries_in(segments, from + upto) - entries_in(
            segments,
            from,
        ),
    decreases upto,
{
    if upto > 0 {
        lemma_entries_skip(segments, from, upto - 1);
        assert(segments.skip(from)[upto - 1] == segments[from + upto - 1]);
    }
}

/// Later segments add entries, never take them away.
pub(crate) proof fn lemma_entries_grow(segments: Seq<SegmentView>, few: int, many: int)
    requires
        few <= many,
    ensures
        entries_in(segments, few) <= entries_in(segments, many),
    decreases many - few,
{
    if few < many {
        lemma_entries_grow(segments, few, many - 1);
    }
}

} // verus!
