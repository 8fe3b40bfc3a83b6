use vstd::prelude::*;

verus! {

/// Which storage medium backs a segment file.
#[derive(Clone, Copy, Debug, PartialEq, Eq, Structural)]
pub enum IOType {
    /// Standard file I/O: positional reads, appends, durability.
    StandardFIO,
    /// A read-only memory mapping, for fast bulk loading at startup.
    MemoryMap,
}

/// Configuration for a snapshot iterator over the index.
///
/// An empty `prefix` leaves the iteration unfiltered; `reverse` walks the
/// snapshot in descending key order.
pub struct IteratorOptions {
    pub prefix: Vec<u8>,
    pub reverse: bool,
}

/// Which index backend a caller selects.
#[derive(Clone, Debug, PartialEq, Eq, Structural)]
pub enum IndexType {
    /// Ordered in-memory map: the required baseline backend.
    BTree,
    /// In-memory skip list: same contract, different concurrency profile.
    SkipList,
    /// On-disk B+ tree: durable, one transaction per mutation.
    BPlusTree,
}

} // verus!
