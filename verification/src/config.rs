use vstd::prelude::*;

verus! {

/// Settings of a log.
#[derive(Debug, Copy, Clone, Eq, PartialEq, Structural)]
pub struct Config {
    /// Capacity, in entries, of a newly created segment; 0 selects the default.
    pub entry_per_segment: usize,
    /// Whether a read verifies the checksum of each payload.
    pub check_crc32: bool,
}

} // verus!
