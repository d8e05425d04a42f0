//! What the table engines share: errors, capabilities, statistics and batches.
use crate::pager::{PageId, PagerError};
use crate::types::{LogSequenceNumber, ScanBounds};
use vstd::prelude::*;

verus! {

/// What was found damaged.
#[derive(Clone, Copy, Debug, PartialEq, Eq, Structural)]
pub enum Corruption {
    /// A segment page is shorter than its header.
    ShortSegmentPage(PageId),
    /// A segment page claims more payload than it holds.
    InvalidChunkLength { page_id: PageId, chunk_len: usize, available: usize },
    /// An offset lies before the flushed part of a segment.
    OffsetUnderflow,
    /// A tree page is empty.
    EmptyNode,
    /// A tree page ends before one of its parts.
    TruncatedNode(NodeField),
    /// A version chain in a tree page cannot be read.
    UnreadableChain,
    /// A tree page is of no known type.
    InvalidNodeType(u8),
    /// An overflow page cannot be read.
    InvalidOverflowPage(PageId),
    /// A chain of overflow pages runs in a circle.
    OverflowCycle(PageId),
    /// A value extends beyond its page.
    ValueBeyondPage(PageId),
    /// A chain of overflow pages does not hold as much as it should.
    OverflowLengthMismatch { expected: u64, found: u64 },
    /// A reference to a value cannot be read.
    InvalidValueRef,
    /// A parent page is no internal node.
    ParentNotInternal(PageId),
    /// A page is not among the children of its parent.
    MissingChild { parent: PageId, child: PageId },
    /// An internal node has no keys.
    EmptyInternalNode(PageId),
    /// A root page of a Bloom filter does not start with the right number.
    InvalidBloomMagic(u32),
    /// A root page of a Bloom filter ends before one of its parts.
    ShortBloomPage(PageId),
    /// A root page of a full-text index does not start with the right number.
    InvalidFullTextMagic(u32),
    /// A root page of a full-text index ends before one of its parts.
    ShortFullTextPage(PageId),
    /// A page with a vector cannot be read.
    InvalidVectorNode(PageId),
    /// A root page of a vector index does not start with the right number.
    InvalidVectorMagic(u32),
    /// A root page of a vector index ends before one of its parts.
    ShortVectorPage(PageId),
    /// A root page of a vector index names no known metric.
    InvalidMetric(u32),
    /// The stored map of vectors ends before one of its parts.
    TruncatedVectorMap,
}

/// A part of a tree page.
#[derive(Clone, Copy, Debug, PartialEq, Eq, Structural)]
pub enum NodeField {
    Version,
    EntryCount,
    RightmostChild,
    NextLeaf,
    KeyLength,
    Key,
    ChildPageId,
    ChainLength,
    VersionChain,
}

/// Why a table refused a request.
#[derive(Clone, Copy, Debug, PartialEq, Eq, Structural)]
pub enum TableError {
    Corruption(Corruption),
    OperationNotSupported,
    InvalidFormatVersion(u32),
    Serialization,
    Pager(PagerError),
    ValueTooLarge { size: usize, max: usize },
    MemoryBudgetExceeded { usage: usize, budget: usize },
    /// A change was tried too often while others got in between.
    Contention { retries: usize },
    /// A vector does not have as many dimensions as the index.
    DimensionMismatch { expected: usize, found: usize },
    /// Something is under the key already.
    AlreadyExists,
    /// Nothing is under the key.
    KeyNotFound,
}

/// The result of a table operation.
pub type TableResult<T> = Result<T, TableError>;

/// The engine behind a table.
#[derive(Clone, Copy, Debug, PartialEq, Eq, Structural)]
pub enum TableEngineKind {
    AppendLog,
    Art,
    BTree,
    Blob,
    Bloom,
    FullText,
    GraphAdjacency,
    Hash,
    Memory,
    VectorHnsw,
}

/// What a table can do.
#[derive(Clone, Copy, Debug, PartialEq, Eq, Structural)]
pub struct TableCapabilities {
    pub ordered: bool,
    pub point_lookup: bool,
    pub prefix_scan: bool,
    pub reverse_scan: bool,
    pub range_delete: bool,
    pub merge_operator: bool,
    pub mvcc_native: bool,
    pub append_optimized: bool,
    pub memory_resident: bool,
    pub disk_resident: bool,
    pub supports_compression: bool,
    pub supports_encryption: bool,
}

/// What a specialty table can do.
#[derive(Clone, Copy, Debug, PartialEq, Eq, Structural)]
pub struct SpecialtyTableCapabilities {
    pub exact: bool,
    pub approximate: bool,
    pub ordered: bool,
    pub sparse: bool,
    pub supports_delete: bool,
    pub supports_range_query: bool,
    pub supports_prefix_query: bool,
    pub supports_scoring: bool,
    pub supports_incremental_rebuild: bool,
    pub may_be_stale: bool,
}

/// The sizes of the keys or of the values of a table.
#[derive(Clone, Copy, Debug, PartialEq, Eq, Structural)]
pub struct SizeStats {
    pub min_size: usize,
    pub max_size: usize,
    pub total_size: u64,
    pub count: u64,
}

/// What is known of a table's contents.
#[derive(Clone, Copy, Debug, PartialEq, Eq, Structural)]
pub struct TableStatistics {
    pub row_count: Option<u64>,
    pub page_count: Option<u64>,
    pub total_size_bytes: Option<u64>,
    pub key_stats: Option<SizeStats>,
    pub value_stats: Option<SizeStats>,
    pub last_updated_lsn: Option<LogSequenceNumber>,
}

/// What is known of a specialty table's contents.
#[derive(Clone, Copy, Debug, PartialEq, Eq, Structural)]
pub struct SpecialtyTableStats {
    pub entry_count: Option<u64>,
    pub size_bytes: Option<u64>,
    pub distinct_keys: Option<u64>,
    pub stale_entries: Option<u64>,
    pub last_updated_lsn: Option<LogSequenceNumber>,
}

/// The class of an inconsistency.
#[derive(Clone, Copy, Debug, PartialEq, Eq, Structural)]
pub enum ConsistencyErrorType {
    InvalidPointer,
    CorruptedIndex,
}

/// An inconsistency: what was expected and what was found.
#[derive(Clone, Copy, Debug, PartialEq, Eq, Structural)]
pub struct ConsistencyError {
    pub error_type: ConsistencyErrorType,
    pub expected: u64,
    pub found: u64,
}

/// Something unusual that is no inconsistency.
#[derive(Debug)]
pub struct ConsistencyWarning {
    pub location: String,
    pub detail: u64,
}

/// What a verification found.
#[derive(Debug)]
pub struct VerificationReport {
    pub checked_items: u64,
    pub errors: Vec<ConsistencyError>,
    pub warnings: Vec<ConsistencyWarning>,
}

/// One change of a batch.
#[derive(Debug)]
pub enum Mutation {
    Put { key: Vec<u8>, value: Vec<u8> },
    Delete { key: Vec<u8> },
    RangeDelete { bounds: ScanBounds },
    Merge { key: Vec<u8>, operand: Vec<u8> },
}

/// Changes to apply in order.
#[derive(Debug)]
pub struct WriteBatch {
    pub mutations: Vec<Mutation>,
}

/// What came of a batch.
#[derive(Clone, Copy, Debug, PartialEq, Eq, Structural)]
pub struct BatchReport {
    pub attempted: u64,
    pub applied: u64,
    pub deleted: u64,
    pub bytes_written: u64,
}

} // verus!
