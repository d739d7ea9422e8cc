//! Progress notices for a caller that builds a large tree file by file.

use vstd::prelude::*;

verus! {

/// After how many files a progress notice is due again.
pub const PROGRESS_STRIDE: usize = 100;

/// How far the work on a list of files has come.
#[derive(Clone, Debug, PartialEq, Eq)]
pub struct AllCodeownersProgressPayload {
    /// The number of files handled so far.
    pub files_handled: u32,
    /// The number of files in all.
    pub files_total: u32,
    /// The session that asked for the work.
    pub session_id: String,
}

/// A count as it is reported: its lowest 32 bits.
pub open spec fn reported(count: usize) -> int {
    count as int % 0x1_0000_0000
}

/// Whether a notice is due before the file at `file_index` is handled:
/// at the first file and at every hundredth after it.
pub fn progress_due(file_index: usize) -> (due: bool)
    ensures
        due == (file_index % PROGRESS_STRIDE == 0),
{
    file_index % PROGRESS_STRIDE == 0
}

/// The notice to send before the file at `file_index` is handled.
pub fn progress_payload(file_index: usize, files_total: usize, session_id: &str) -> (payload:
    AllCodeownersProgressPayload)
    ensures
        payload.files_handled == reported(file_index),
        payload.files_total == reported(files_total),
        payload.session_id@ == session_id@,
{
    AllCodeownersProgressPayload {
        files_handled: low_bits(file_index),
        files_total: low_bits(files_total),
        session_id: session_id.to_owned(),
    }
}

/// The lowest 32 bits of a count.
fn low_bits(count: usize) -> (r: u32)
    ensures
        r == reported(count),
{
    let wide: u64 = count as u64;
    (wide % 0x1_0000_0000) as u32
}

} // verus!
