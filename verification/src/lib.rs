//! Bounded copy-on-write volume mechanics: checksums, extents, on-disk codecs,
//! retained receipts and the owners that publish them through a `Disk`.
use vstd::prelude::*;

pub mod admission;
pub mod admissions;
pub mod checksum;
pub mod codec;
pub mod extent;
pub mod format;
pub mod format6;
pub mod format7;
pub mod namespace;
pub mod provision;
pub mod publication;
pub mod recovery;
pub mod storage;
pub mod tracking;
pub mod upgrade6;
pub mod volume6;
pub mod volume7;
pub mod volume;
pub mod receipt6;

verus! {

/// Every refusal the volume layer reports.
#[derive(Clone, Copy, Debug, PartialEq, Eq, Structural)]
pub enum Error {
    Io,
    Uncertain,
    Invalid,
    Corrupt,
    NotFound,
    Exists,
    NotDirectory,
    IsDirectory,
    NotEmpty,
    Full,
    Size,
    Version,
    ReadOnly,
    Empty,
    Exhausted,
    Unsupported,
    Lineage,
    ExpiredEpoch,
    OutcomeUnknown,
    IdempotencyConflict,
    Busy,
    Cancelled,
}

/// Objects the v5 control records describe.
pub const OBJECTS: usize = 32;
/// Largest v5 file.
pub const MAX_FILE: usize = 1024;
/// Sectors the v5 layout reserves.
pub const SECTORS: u64 = 174;

} // verus!
