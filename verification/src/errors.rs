use vstd::prelude::*;

verus! {

/// Typed failures of the storage core.
///
/// I/O failures (`OpenFailed`, `ReadFailed`, `WriteFailed`, `SyncFailed`) are
/// always surfaced to the caller. `EndOfFile` is the scan-termination
/// sentinel (a zero-length header, or an out-of-range read on a memory-mapped
/// medium) and must be distinguishable from `CorruptRecord` (a CRC mismatch)
/// and `UnknownRecordKind` (a kind byte outside the known set), because a
/// caller's recovery policy differs for each.
#[derive(Clone, Copy, Debug, PartialEq, Eq, Structural)]
pub enum Errors {
    OpenFailed,
    ReadFailed,
    WriteFailed,
    SyncFailed,
    EndOfFile,
    CorruptRecord,
    UnknownRecordKind,
    UnsupportedOperation,
}

} // verus!
