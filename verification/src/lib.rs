//! An append-only write-ahead log on the files of one directory, as an engine
//! that touches no file.
//!
//! Producers append entries, which are opaque bytes; a consumer reads them
//! back in the order in which they were appended. The log is a run of
//! segment files, each with a table of fixed-size descriptors at its head and
//! the payloads behind it, and a cursor file that names the next entry to
//! deliver.
//!
//! The engine holds the state of the log and plans every step. The caller
//! owns the files: it hands over the bytes that it read, and performs the
//! writes and removals that it is given, in the order in which it is given
//! them.
//!
//! - To open a log, the caller reads the cursor file for
//!   [`Cursor::open`](wal::cursor::Cursor::open), opens the segments of
//!   consecutive sequences from the cursor's on with
//!   [`Segment::open`](segment::Segment::open) until a file is missing, and
//!   hands them to [`WAL::open`].
//! - To write, it calls [`WAL::write`] until nothing is left: each call
//!   either plans the appends of the leading entries, which the caller
//!   writes, or asks for a new segment, which the caller opens and hands to
//!   [`WAL::push`]. A plan whose writes fail is taken back with
//!   [`WAL::rewind`].
//! - To read, it calls [`WAL::read`] and reads the runs of entries that the
//!   call names: the descriptors of a run with
//!   [`Segment::read_overheads`](segment::Segment::read_overheads), then the
//!   payload of each, which [`Overhead::verify`](segment::overhead::Overhead::verify)
//!   holds to its checksum. It then removes the files of the finished
//!   segments and saves the cursor.
//!
//! What the engine plans is stated over the bytes of the files:
//! [`segment::sound`] says what holds of a segment file at all times and what
//! recovery makes of a file that was cut short, [`segment::steps`] says what
//! each step makes of the file, [`wal::queue`] says that the log is a queue
//! of the entries that were written, [`wal::batch`] says what a whole write
//! comes to, and [`wal::recovery`] says what a new run finds.

pub mod base16;
pub mod checksum;
pub mod config;
pub mod endian;
pub mod error;
pub mod fileext;
pub mod image;
pub mod segment;
pub mod wal;

pub use config::Config;
pub use error::{Error, ErrorKind};
pub use wal::WAL;
