//! When an encoder that works through large inputs reports how far it is.

use vstd::prelude::*;

use crate::format::CHUNK_SIZE;

verus! {

/// The distance in bytes between two reports.
pub const REPORT_EVERY: u64 = 104857600;

/// Whether a report is due after `offset` of `total` bytes were compared:
/// in the first chunk behind each multiple of [`REPORT_EVERY`], and at the
/// end.
pub open spec fn report_due(offset: u64, total: u64) -> bool {
    offset % REPORT_EVERY < CHUNK_SIZE || offset == total
}

/// Says whether to report progress now that `offset` of `total` bytes were
/// compared. The answer has no part in what the delta holds.
pub fn progress_due(offset: u64, total: u64) -> (due: bool)
    ensures
        due == report_due(offset, total),
{
    offset % REPORT_EVERY < CHUNK_SIZE as u64 || offset == total
}

} // verus!
