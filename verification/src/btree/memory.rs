//! An in-memory B-tree: versioned values in key order.
use crate::btree::live::{
    deletion_mark, held_for, hold, law_held_value_comes_back, law_vacuum_keeps_live_reads,
    live_entry_size, live_read, seen_at, unhold, with_removal, with_value,
};
use crate::bytemap::{lemma_listed_once, lemma_rank, lemma_rank_parts, rank, ByteMap};
use crate::bytes::{
    bytes_equal, copy_bytes, has_prefix, lemma_lex_asymmetric, lemma_lex_irreflexive,
    lemma_lex_total, lemma_lex_transitive, lex_le, lex_lt,
};
use crate::mvcc::{
    chain_of, changes_of, version_total, with_commit, with_vacuum, Change, Chains,
};
use crate::snap::Snapshot;
use crate::stream::{read_to_end, SliceValueStream, ValueStream};
use crate::table::{
    BatchReport, Mutation, SpecialtyTableCapabilities, SpecialtyTableStats, TableCapabilities,
    TableEngineKind, TableError, TableResult, TableStatistics, VerificationReport, WriteBatch,
};
use crate::txn::{
    adjust_usage, adjusted_usage, commit_of, committed, has_none_pending, lemma_commit_is_later,
    pending, saturated, Version, VersionChain,
};
use crate::types::{
    value_view, Bound, LogSequenceNumber, ScanBounds, TableId, TransactionId, ValueBuf,
};
use vstd::prelude::*;

verus! {

/// The memory budget of a table that is given none: 64 MiB.
pub const DEFAULT_BUDGET: usize = 67108864;

/// An in-memory B-tree.
pub struct MemoryBTree {
    pub id: TableId,
    pub name: String,
    pub data: ByteMap<VersionChain>,
    pub memory_usage: usize,
    pub memory_budget: usize,
}

impl MemoryBTree {
    /// The keys ascend.
    pub open spec fn wf(&self) -> bool {
        self.data.wf()
    }

    /// The versions of each key.
    pub open spec fn chains(&self) -> Chains {
        self.data.chains()
    }

    /// The tables differ in their contents and memory usage alone.
    pub open spec fn same_identity(&self, other: &Self) -> bool {
        &&& self.id == other.id
        &&& self.name == other.name
        &&& self.memory_budget == other.memory_budget
    }

    /// An empty table with the default budget.
    pub fn new(id: TableId, name: String) -> (r: Self)
        ensures
            r.wf(),
            r.chains() == Map::<Seq<u8>, Seq<Version>>::empty(),
            r.id == id,
            r.name == name,
            r.memory_usage == 0,
            r.memory_budget == DEFAULT_BUDGET,
    {
        Self::with_budget(id, name, DEFAULT_BUDGET)
    }

    /// An empty table with a memory budget.
    pub fn with_budget(id: TableId, name: String, memory_budget: usize) -> (r: Self)
        ensures
            r.wf(),
            r.chains() == Map::<Seq<u8>, Seq<Version>>::empty(),
            r.id == id,
            r.name == name,
            r.memory_usage == 0,
            r.memory_budget == memory_budget,
    {
        let r = MemoryBTree { id, name, data: ByteMap::new(), memory_usage: 0, memory_budget };
        assert(r.chains() =~= Map::<Seq<u8>, Seq<Version>>::empty());
        r
    }

    /// Drops the versions that no reader at `min_visible_lsn` or later can see, but for one base
    /// version per key. Returns how many went.
    pub fn vacuum(&mut self, min_visible_lsn: LogSequenceNumber) -> (r: TableResult<usize>)
        requires
            old(self).wf(),
        ensures
            final(self).wf(),
            final(self).same_identity(old(self)),
            final(self).memory_usage == old(self).memory_usage,
            final(self).chains() == with_vacuum(old(self).chains(), min_visible_lsn),
            r is Ok,
            r->Ok_0 as int == saturated(
                version_total(old(self).chains()) - version_total(final(self).chains()),
            ),
    {
        Ok(self.data.vacuum(min_visible_lsn))
    }

    /// The identifier of the table.
    pub fn table_id(&self) -> (r: TableId)
        ensures
            r == self.id,
    {
        self.id
    }

    /// The name of the table.
    pub fn name(&self) -> (r: &str)
        ensures
            r@ == self.name@,
    {
        self.name.as_str()
    }

    /// The engine of the table.
    pub fn kind(&self) -> (r: TableEngineKind)
        ensures
            r == TableEngineKind::Memory,
    {
        TableEngineKind::Memory
    }

    /// What the table can do.
    pub fn capabilities(&self) -> (r: TableCapabilities)
        ensures
            r == (TableCapabilities {
                ordered: true,
                point_lookup: true,
                prefix_scan: true,
                reverse_scan: true,
                range_delete: true,
                merge_operator: false,
                mvcc_native: true,
                append_optimized: false,
                memory_resident: true,
                disk_resident: false,
                supports_compression: false,
                supports_encryption: false,
            }),
    {
        TableCapabilities {
            ordered: true,
            point_lookup: true,
            prefix_scan: true,
            reverse_scan: true,
            range_delete: true,
            merge_operator: false,
            mvcc_native: true,
            append_optimized: false,
            memory_resident: true,
            disk_resident: false,
            supports_compression: false,
            supports_encryption: false,
        }
    }

    /// What is known of the table's contents.
    pub fn stats(&self) -> (r: TableResult<TableStatistics>)
        requires
            self.wf(),
        ensures
            r == Ok::<TableStatistics, TableError>(
                TableStatistics {
                    row_count: Some(self.chains().dom().len() as u64),
                    page_count: None,
                    total_size_bytes: Some(self.memory_usage as u64),
                    key_stats: None,
                    value_stats: None,
                    last_updated_lsn: None,
                },
            ),
    {
        assert(self.chains().dom() =~= self.data@.dom());
        Ok(
            TableStatistics {
                row_count: Some(self.data.len() as u64),
                page_count: None,
                total_size_bytes: Some(self.memory_usage as u64),
                key_stats: None,
                value_stats: None,
                last_updated_lsn: None,
            },
        )
    }

    /// A reader at `snapshot_lsn`.
    pub fn reader(&self, snapshot_lsn: LogSequenceNumber) -> (r: TableResult<MemoryBTreeReader<'_>>)
        ensures
            r is Ok,
            *r->Ok_0.table == *self,
            r->Ok_0.snapshot_lsn == snapshot_lsn,
    {
        Ok(MemoryBTreeReader { table: self, snapshot_lsn })
    }

    /// A writer for transaction `tx_id`.
    pub fn writer(&mut self, tx_id: TransactionId, snapshot_lsn: LogSequenceNumber) -> (r:
        TableResult<MemoryBTreeWriter<'_>>)
        ensures
            r is Ok,
            *r->Ok_0.table == *old(self),
            *final(self) == *final(r->Ok_0.table),
            r->Ok_0.tx_id == tx_id,
            r->Ok_0.snapshot_lsn == snapshot_lsn,
            r->Ok_0.pending_changes@.len() == 0,
    {
        Ok(MemoryBTreeWriter { table: self, tx_id, snapshot_lsn, pending_changes: Vec::new() })
    }

    /// What the table can do as an index.
    pub fn specialty_capabilities(&self) -> (r: SpecialtyTableCapabilities)
        ensures
            r == (SpecialtyTableCapabilities {
                exact: true,
                approximate: false,
                ordered: true,
                sparse: false,
                supports_delete: true,
                supports_range_query: true,
                supports_prefix_query: true,
                supports_scoring: false,
                supports_incremental_rebuild: false,
                may_be_stale: false,
            }),
    {
        SpecialtyTableCapabilities {
            exact: true,
            approximate: false,
            ordered: true,
            sparse: false,
            supports_delete: true,
            supports_range_query: true,
            supports_prefix_query: true,
            supports_scoring: false,
            supports_incremental_rebuild: false,
            may_be_stale: false,
        }
    }

    /// Points an index key at a primary key, committed at once.
    pub fn insert_entry(
        &mut self,
        index_key: &[u8],
        primary_key: &[u8],
        tx_id: TransactionId,
        commit_lsn: LogSequenceNumber,
    ) -> (r: TableResult<()>)
        requires
            old(self).wf(),
        ensures
            final(self).wf(),
            final(self).same_identity(old(self)),
            final(self).chains() == old(self).chains().insert(
                index_key@,
                seq![committed(pending(held_for(primary_key@), tx_id), commit_lsn)] + chain_of(
                    old(self).chains(),
                    index_key@,
                ),
            ),
            final(self).memory_usage as int == adjusted_usage(
                old(self).memory_usage as int,
                live_entry_size(old(self).chains(), index_key@),
                live_entry_size(final(self).chains(), index_key@),
            ),
            r is Ok,
    {
        let before: usize = self.data.live_entry_size(index_key);
        let mut chain = match self.data.remove(index_key) {
            Some(c) => c.prepend(hold(primary_key), tx_id),
            None => VersionChain::new(hold(primary_key), tx_id),
        };
        chain.commit(commit_lsn);
        assert(chain@ =~= seq![committed(pending(held_for(primary_key@), tx_id), commit_lsn)] + chain_of(
            old(self).chains(),
            index_key@,
        ));
        self.data.insert(copy_bytes(index_key), chain);
        proof {
            assert(self.chains() =~= old(self).chains().insert(index_key@, chain@));
        }
        let after: usize = self.data.live_entry_size(index_key);
        self.memory_usage = adjust_usage(self.memory_usage, before, after);
        Ok(())
    }

    /// Forgets an index key if the newest committed version points at the given primary key.
    pub fn delete_entry(
        &mut self,
        index_key: &[u8],
        primary_key: &[u8],
        _tx_id: TransactionId,
        _commit_lsn: LogSequenceNumber,
    ) -> (r: TableResult<()>)
        requires
            old(self).wf(),
        ensures
            final(self).wf(),
            final(self).same_identity(old(self)),
            ({
                let points_there = live_read(
                    old(self).chains(),
                    index_key@,
                    LogSequenceNumber(u64::MAX),
                ) == Some(primary_key@);
                &&& final(self).chains() == (if points_there {
                    old(self).chains().remove(index_key@)
                } else {
                    old(self).chains()
                })
                &&& final(self).memory_usage as int == (if points_there {
                    adjusted_usage(
                        old(self).memory_usage as int,
                        live_entry_size(old(self).chains(), index_key@),
                        0,
                    )
                } else {
                    old(self).memory_usage as int
                })
            }),
            r is Ok,
    {
        let points_there: bool = match self.data.live_read(index_key, LogSequenceNumber(u64::MAX)) {
            Some(stored) => bytes_equal(stored.0.as_slice(), primary_key),
            None => false,
        };
        if points_there {
            let before: usize = self.data.live_entry_size(index_key);
            self.data.remove(index_key);
            self.memory_usage = adjust_usage(self.memory_usage, before, 0);
            proof {
                assert(self.chains() =~= old(self).chains().remove(index_key@));
            }
        }
        Ok(())
    }

    /// A cursor over the index entries within the bounds, all committed versions seen.
    pub fn scan(&self, bounds: ScanBounds) -> (r: TableResult<MemoryBTreeSpecialtyCursor<'_>>)
        requires
            self.wf(),
        ensures
            r is Ok,
            r->Ok_0.inner.wf(),
            *r->Ok_0.inner.table == *self,
            r->Ok_0.inner.bounds == bounds,
            r->Ok_0.inner.snapshot_lsn == LogSequenceNumber(u64::MAX),
            r->Ok_0.inner.position() == r->Ok_0.inner.first_position(),
    {
        Ok(
            MemoryBTreeSpecialtyCursor {
                inner: MemoryBTreeCursor::new(self, bounds, LogSequenceNumber(u64::MAX)),
            },
        )
    }

    /// What is known of the index.
    pub fn specialty_stats(&self) -> (r: TableResult<SpecialtyTableStats>)
        requires
            self.wf(),
        ensures
            r == Ok::<SpecialtyTableStats, TableError>(
                SpecialtyTableStats {
                    entry_count: Some(self.chains().dom().len() as u64),
                    size_bytes: Some(self.memory_usage as u64),
                    distinct_keys: Some(self.chains().dom().len() as u64),
                    stale_entries: Some(0),
                    last_updated_lsn: None,
                },
            ),
    {
        assert(self.chains().dom() =~= self.data@.dom());
        let n: u64 = self.data.len() as u64;
        Ok(
            SpecialtyTableStats {
                entry_count: Some(n),
                size_bytes: Some(self.memory_usage as u64),
                distinct_keys: Some(n),
                stale_entries: Some(0),
                last_updated_lsn: None,
            },
        )
    }

    /// Counts the entries; there is nothing in them that could be wrong.
    pub fn verify(&self) -> (r: TableResult<VerificationReport>)
        requires
            self.wf(),
        ensures
            r is Ok,
            r->Ok_0.checked_items == self.chains().dom().len() as u64,
            r->Ok_0.errors@.len() == 0,
            r->Ok_0.warnings@.len() == 0,
    {
        assert(self.chains().dom() =~= self.data@.dom());
        Ok(
            VerificationReport {
                checked_items: self.data.len() as u64,
                errors: Vec::new(),
                warnings: Vec::new(),
            },
        )
    }
}

/// Reads a table at one point of the log.
pub struct MemoryBTreeReader<'a> {
    pub table: &'a MemoryBTree,
    pub snapshot_lsn: LogSequenceNumber,
}

impl<'a> MemoryBTreeReader<'a> {
    /// The value of `key` that a reader at `snapshot_lsn` sees.
    pub fn get(&self, key: &[u8], snapshot_lsn: LogSequenceNumber) -> (r: TableResult<
        Option<ValueBuf>,
    >)
        requires
            self.table.wf(),
        ensures
            r is Ok,
            value_view(r->Ok_0) == live_read(self.table.chains(), key@, snapshot_lsn),
    {
        Ok(self.table.data.live_read(key, snapshot_lsn))
    }

    /// The value of `key` that a reader at `snapshot_lsn` sees, as a stream.
    pub fn get_stream(&self, key: &[u8], snapshot_lsn: LogSequenceNumber) -> (r: TableResult<
        Option<SliceValueStream>,
    >)
        requires
            self.table.wf(),
        ensures
            r is Ok,
            match r->Ok_0 {
                Some(s) => Some(s.remaining()),
                None => None,
            } == live_read(self.table.chains(), key@, snapshot_lsn),
    {
        match self.table.data.live_read(key, snapshot_lsn) {
            Some(v) => Ok(Some(SliceValueStream::new(v.0))),
            None => Ok(None),
        }
    }

    /// A cursor over the keys within the bounds that a reader at `snapshot_lsn` sees.
    pub fn scan(&self, bounds: ScanBounds, snapshot_lsn: LogSequenceNumber) -> (r: TableResult<
        MemoryBTreeCursor<'a>,
    >)
        requires
            self.table.wf(),
        ensures
            r is Ok,
            r->Ok_0.wf(),
            *r->Ok_0.table == *self.table,
            r->Ok_0.bounds == bounds,
            r->Ok_0.snapshot_lsn == snapshot_lsn,
            r->Ok_0.position() == r->Ok_0.first_position(),
    {
        Ok(MemoryBTreeCursor::new(self.table, bounds, snapshot_lsn))
    }

    /// The point of the log that the reader was made for.
    pub fn snapshot_lsn(&self) -> (r: LogSequenceNumber)
        ensures
            r == self.snapshot_lsn,
    {
        self.snapshot_lsn
    }

    /// The number of keys.
    pub fn approximate_len(&self) -> (r: TableResult<Option<u64>>)
        requires
            self.table.wf(),
        ensures
            r == Ok::<Option<u64>, TableError>(Some(self.table.chains().dom().len() as u64)),
    {
        assert(self.table.chains().dom() =~= self.table.data@.dom());
        Ok(Some(self.table.data.len() as u64))
    }
}

/// The keys that satisfy `p`, in order.
pub open spec fn keys_where(keys: Seq<Seq<u8>>, p: spec_fn(Seq<u8>) -> bool) -> Seq<Seq<u8>>
    decreases keys.len(),
{
    if keys.len() == 0 {
        Seq::empty()
    } else {
        let before = keys_where(keys.drop_last(), p);
        if p(keys.last()) {
            before.push(keys.last())
        } else {
            before
        }
    }
}

/// A deletion of each key.
pub open spec fn deletions_of(keys: Seq<Seq<u8>>) -> Seq<Change> {
    Seq::new(keys.len(), |i: int| (keys[i], None::<Seq<u8>>))
}

/// The key of a bound, if it has one.
pub open spec fn bound_key(b: Bound) -> Option<Seq<u8>> {
    match b {
        Bound::Included(k) => Some(k@),
        Bound::Excluded(k) => Some(k@),
        Bound::Unbounded => None,
    }
}

/// A range does not start after its end.
pub open spec fn is_proper(bounds: ScanBounds) -> bool {
    match bounds {
        ScanBounds::Range { start, end } => match (bound_key(start), bound_key(end)) {
            (Some(s), Some(e)) => lex_le(s, e),
            _ => true,
        },
        _ => true,
    }
}

/// The changes that a batch stands for, against the keys of the table.
pub open spec fn batch_changes(keys: Seq<Seq<u8>>, ms: Seq<Mutation>) -> Seq<Change>
    decreases ms.len(),
{
    if ms.len() == 0 {
        Seq::empty()
    } else {
        batch_changes(keys, ms.drop_last()) + mutation_changes(keys, ms.last())
    }
}

/// The changes that one mutation stands for.
pub open spec fn mutation_changes(keys: Seq<Seq<u8>>, m: Mutation) -> Seq<Change> {
    match m {
        Mutation::Put { key, value } => seq![(key@, Some(value@))],
        Mutation::Delete { key } => if keys.contains(key@) {
            seq![(key@, None)]
        } else {
            Seq::empty()
        },
        Mutation::RangeDelete { bounds } => deletions_of(
            keys_where(keys, |k: Seq<u8>| bounds.admits(k)),
        ),
        Mutation::Merge { .. } => Seq::empty(),
    }
}

/// The sums that a batch report gives.
pub struct BatchSums {
    pub applied: int,
    pub deleted: int,
    pub bytes: int,
}

/// What a batch adds up to: merges are passed over, and every other mutation counts as applied.
pub open spec fn batch_sums(keys: Seq<Seq<u8>>, ms: Seq<Mutation>) -> BatchSums
    decreases ms.len(),
{
    if ms.len() == 0 {
        BatchSums { applied: 0, deleted: 0, bytes: 0 }
    } else {
        let b = batch_sums(keys, ms.drop_last());
        match ms.last() {
            Mutation::Put { key, value } => BatchSums {
                applied: b.applied + 1,
                deleted: b.deleted,
                bytes: b.bytes + key@.len() + value@.len(),
            },
            Mutation::Merge { .. } => b,
            m => BatchSums {
                applied: b.applied + 1,
                deleted: b.deleted + mutation_changes(keys, m).len(),
                bytes: b.bytes,
            },
        }
    }
}

/// A batch notes what its parts note, one after the other, and its report adds up theirs.
pub proof fn law_batch_in_parts(keys: Seq<Seq<u8>>, a: Seq<Mutation>, b: Seq<Mutation>)
    ensures
        batch_changes(keys, a + b) == batch_changes(keys, a) + batch_changes(keys, b),
        batch_sums(keys, a + b).applied == batch_sums(keys, a).applied + batch_sums(keys, b).applied,
        batch_sums(keys, a + b).deleted == batch_sums(keys, a).deleted + batch_sums(keys, b).deleted,
        batch_sums(keys, a + b).bytes == batch_sums(keys, a).bytes + batch_sums(keys, b).bytes,
    decreases b.len(),
{
    if b.len() == 0 {
        assert(a + b =~= a);
        assert(batch_changes(keys, a) + batch_changes(keys, b) =~= batch_changes(keys, a));
    } else {
        law_batch_in_parts(keys, a, b.drop_last());
        assert((a + b).drop_last() =~= a + b.drop_last());
        assert((a + b).last() == b.last());
        assert(batch_changes(keys, a + b) =~= batch_changes(keys, a) + batch_changes(keys, b));
    }
}

/// A put is noted and counts its key and its value, a deletion is noted where the key is known, and
/// a deletion of a range is noted for each known key in it. A merge notes and counts nothing, any
/// other mutation counts as applied.
pub proof fn law_batch_of_one(keys: Seq<Seq<u8>>, mutation: Mutation)
    ensures
        batch_changes(keys, seq![mutation]) == match mutation {
            Mutation::Put { key, value } => seq![(key@, Some(value@))],
            Mutation::Delete { key } => keys.filter(|k: Seq<u8>| k == key@).take(
                if keys.contains(key@) {
                    1
                } else {
                    0
                },
            ).map_values(|k: Seq<u8>| (k, None::<Seq<u8>>)),
            Mutation::RangeDelete { bounds } => keys.filter(
                |k: Seq<u8>| bounds.admits(k),
            ).map_values(|k: Seq<u8>| (k, None::<Seq<u8>>)),
            Mutation::Merge { .. } => Seq::empty(),
        },
        ({
            let s = batch_sums(keys, seq![mutation]);
            &&& s.applied == (if mutation is Merge {
                0int
            } else {
                1
            })
            &&& s.deleted == (if mutation is Put {
                0
            } else {
                batch_changes(keys, seq![mutation]).len() as int
            })
            &&& s.bytes == (match mutation {
                Mutation::Put { key, value } => (key@.len() + value@.len()) as int,
                _ => 0,
            })
        }),
{
    reveal_with_fuel(batch_changes, 2);
    reveal_with_fuel(batch_sums, 2);
    assert(seq![mutation].drop_last() =~= Seq::empty());
    assert(batch_changes(keys, seq![mutation]) =~= mutation_changes(keys, mutation));
    match mutation {
        Mutation::Delete { key } => {
            let same = |k: Seq<u8>| k == key@;
            if keys.contains(key@) {
                keys.lemma_filter_contains(same, keys.index_of(key@));
                assert(keys.filter(same).contains(key@));
                let i = keys.filter(same).index_of(key@);
                keys.lemma_filter_pred(same, 0);
                assert(mutation_changes(keys, mutation) =~= keys.filter(same).take(1).map_values(
                    |k: Seq<u8>| (k, None::<Seq<u8>>),
                ));
            } else {
                assert(mutation_changes(keys, mutation) =~= keys.filter(same).take(0).map_values(
                    |k: Seq<u8>| (k, None::<Seq<u8>>),
                ));
            }
        },
        Mutation::RangeDelete { bounds } => {
            law_keys_are_picked_in_order(keys, |k: Seq<u8>| bounds.admits(k));
            assert(mutation_changes(keys, mutation) =~= keys.filter(
                |k: Seq<u8>| bounds.admits(k),
            ).map_values(|k: Seq<u8>| (k, None::<Seq<u8>>)));
        },
        _ => {},
    }
}

/// The keys that satisfy a condition are picked, all of them, in order and no other.
pub proof fn law_keys_are_picked_in_order(keys: Seq<Seq<u8>>, p: spec_fn(Seq<u8>) -> bool)
    ensures
        keys_where(keys, p) == keys.filter(p),
    decreases keys.len(),
{
    reveal(Seq::filter);
    if keys.len() > 0 {
        law_keys_are_picked_in_order(keys.drop_last(), p);
    } else {
        assert(keys =~= Seq::empty());
    }
}

proof fn lemma_batch_sums_mono(keys: Seq<Seq<u8>>, ms: Seq<Mutation>, n: int)
    requires
        0 <= n <= ms.len(),
    ensures
        0 <= batch_sums(keys, ms.take(n)).applied <= n,
        0 <= batch_sums(keys, ms.take(n)).deleted <= batch_sums(keys, ms).deleted,
        0 <= batch_sums(keys, ms.take(n)).bytes <= batch_sums(keys, ms).bytes,
    decreases ms.len(),
{
    if n < ms.len() {
        assert(ms.drop_last().take(n) =~= ms.take(n));
        lemma_batch_sums_mono(keys, ms.drop_last(), n);
    } else {
        assert(ms.take(n) =~= ms);
        if n > 0 {
            lemma_batch_sums_mono(keys, ms.drop_last(), n - 1);
            assert(ms.drop_last().take(n - 1) =~= ms.drop_last());
        }
    }
}

/// Collects the changes of one transaction.
pub struct MemoryBTreeWriter<'a> {
    pub table: &'a mut MemoryBTree,
    pub tx_id: TransactionId,
    pub snapshot_lsn: LogSequenceNumber,
    pub pending_changes: Vec<(Vec<u8>, Option<Vec<u8>>)>,
}

impl<'a> MemoryBTreeWriter<'a> {
    /// The changes that wait to be flushed.
    pub open spec fn changes(&self) -> Seq<Change> {
        changes_of(self.pending_changes@)
    }

    /// The versions of each key in the table.
    pub open spec fn base(&self) -> Chains {
        self.table.chains()
    }

    /// Notes a value to put. Returns the bytes it counts for.
    pub fn put(&mut self, key: &[u8], value: &[u8]) -> (r: TableResult<u64>)
        requires
            key@.len() + value@.len() + 16 <= usize::MAX,
        ensures
            final(self).changes() == old(self).changes().push((key@, Some(value@))),
            *final(self).table == *old(self).table,
            *final(final(self).table) == *final(old(self).table),
            final(self).tx_id == old(self).tx_id,
            final(self).snapshot_lsn == old(self).snapshot_lsn,
            r == Ok::<u64, TableError>((key@.len() + value@.len() + 16) as u64),
    {
        self.pending_changes.push((copy_bytes(key), Some(copy_bytes(value))));
        proof {
            assert(self.changes() =~= old(self).changes().push((key@, Some(value@))));
        }
        Ok((key.len() + value.len() + 16) as u64)
    }

    /// Reads a stream to its end and notes its value to put. Returns the bytes it counts for, or
    /// the stream's error.
    pub fn put_stream<S: ValueStream>(&mut self, key: &[u8], stream: &mut S) -> (r: TableResult<
        u64,
    >)
        requires
            key@.len() + old(stream).remaining().len() + 16 <= usize::MAX,
        ensures
            *final(self).table == *old(self).table,
            *final(final(self).table) == *final(old(self).table),
            final(self).tx_id == old(self).tx_id,
            final(self).snapshot_lsn == old(self).snapshot_lsn,
            r matches Ok(n) ==> {
                &&& n == key@.len() + old(stream).remaining().len() + 16
                &&& final(stream).remaining().len() == 0
                &&& final(self).changes() == old(self).changes().push(
                    (key@, Some(old(stream).remaining())),
                )
            },
            r matches Err(e) ==> final(self).changes() == old(self).changes()
                && final(stream).failure() == Some(e),
            old(stream).sound() ==> r is Ok,
    {
        match read_to_end(stream) {
            Ok(buffer) => self.put(key, buffer.as_slice()),
            Err(e) => Err(e),
        }
    }

    /// Notes a deletion, if the table knows the key. Returns whether it does.
    pub fn delete(&mut self, key: &[u8]) -> (r: TableResult<bool>)
        requires
            old(self).table.wf(),
        ensures
            final(self).changes() == (if old(self).table.chains().contains_key(key@) {
                old(self).changes().push((key@, None))
            } else {
                old(self).changes()
            }),
            *final(self).table == *old(self).table,
            *final(final(self).table) == *final(old(self).table),
            final(self).tx_id == old(self).tx_id,
            final(self).snapshot_lsn == old(self).snapshot_lsn,
            r == Ok::<bool, TableError>(old(self).table.chains().contains_key(key@)),
    {
        let known: bool = self.table.data.contains_key(key);
        if known {
            self.pending_changes.push((copy_bytes(key), None));
            proof {
                assert(self.changes() =~= old(self).changes().push((key@, None)));
            }
        }
        Ok(known)
    }

    /// Notes a deletion of every key within the bounds. Returns how many there are.
    pub fn range_delete(&mut self, bounds: ScanBounds) -> (r: TableResult<u64>)
        requires
            old(self).table.wf(),
            is_proper(bounds),
        ensures
            ({
                let hit = keys_where(
                    old(self).table.data.keys(),
                    |k: Seq<u8>| bounds.admits(k),
                );
                &&& final(self).changes() == old(self).changes() + deletions_of(hit)
                &&& r == Ok::<u64, TableError>(hit.len() as u64)
                &&& hit.len() <= old(self).table.data.keys().len()
            }),
            *final(self).table == *old(self).table,
            *final(final(self).table) == *final(old(self).table),
            final(self).tx_id == old(self).tx_id,
            final(self).snapshot_lsn == old(self).snapshot_lsn,
    {
        let ghost keys = self.table.data.keys();
        let ghost p = |k: Seq<u8>| bounds.admits(k);
        let n: usize = self.table.data.entries.len();
        let mut i: usize = 0;
        let mut count: u64 = 0;
        assert(self.changes() =~= old(self).changes() + deletions_of(keys_where(keys.take(0), p)));
        while i < n
            invariant
                n == self.table.data.entries@.len(),
                keys == self.table.data.keys(),
                p == (|k: Seq<u8>| bounds.admits(k)),
                i <= n,
                count == keys_where(keys.take(i as int), p).len(),
                count <= i,
                self.changes() == old(self).changes() + deletions_of(
                    keys_where(keys.take(i as int), p),
                ),
                *self.table == *old(self).table,
                *final(self.table) == *final(old(self).table),
                self.tx_id == old(self).tx_id,
                self.snapshot_lsn == old(self).snapshot_lsn,
            decreases n - i,
        {
            let ghost done = keys_where(keys.take(i as int), p);
            let ghost before = self.changes();
            proof {
                assert(keys.take(i + 1).drop_last() =~= keys.take(i as int));
                assert(keys.take(i + 1).last() == keys[i as int]);
            }
            if bounds.contains(self.table.data.entries[i].0.as_slice()) {
                let key = copy_bytes(self.table.data.entries[i].0.as_slice());
                self.pending_changes.push((key, None));
                count += 1;
                proof {
                    assert(self.changes() =~= before.push((keys[i as int], None)));
                    assert(deletions_of(done.push(keys[i as int])) =~= deletions_of(done).push(
                        (keys[i as int], None),
                    ));
                    assert(self.changes() =~= old(self).changes() + deletions_of(
                        done.push(keys[i as int]),
                    ));
                }
            }
            i += 1;
        }
        proof {
            assert(keys.take(n as int) =~= keys);
        }
        Ok(count)
    }

    /// The values of several keys that a reader at the writer's snapshot sees.
    pub fn batch_get(&self, keys: &[&[u8]]) -> (r: TableResult<Vec<Option<ValueBuf>>>)
        requires
            self.table.wf(),
        ensures
            r is Ok,
            r->Ok_0@.len() == keys@.len(),
            forall|i: int|
                0 <= i < keys@.len() ==> value_view(#[trigger] r->Ok_0@[i]) == live_read(
                    self.base(),
                    keys@[i]@,
                    self.snapshot_lsn,
                ),
    {
        let mut results: Vec<Option<ValueBuf>> = Vec::new();
        let mut i: usize = 0;
        while i < keys.len()
            invariant
                self.table.wf(),
                i <= keys@.len(),
                results@.len() == i,
                forall|j: int|
                    0 <= j < i ==> value_view(#[trigger] results@[j]) == live_read(
                        self.base(),
                        keys@[j]@,
                        self.snapshot_lsn,
                    ),
            decreases keys@.len() - i,
        {
            results.push(self.table.data.live_read(keys[i], self.snapshot_lsn));
            i += 1;
        }
        Ok(results)
    }

    /// Notes the changes of a batch. Merges are passed over.
    pub fn apply_batch(&mut self, batch: WriteBatch) -> (r: TableResult<BatchReport>)
        requires
            old(self).table.wf(),
            forall|i: int|
                0 <= i < batch.mutations@.len() ==> (#[trigger] batch.mutations@[i] matches
                    Mutation::RangeDelete { bounds } ==> is_proper(bounds)),
            forall|i: int|
                0 <= i < batch.mutations@.len() ==> (#[trigger] batch.mutations@[i] matches
                    Mutation::Put { key, value } ==> key@.len() + value@.len() + 16
                    <= usize::MAX),
            batch_sums(old(self).table.data.keys(), batch.mutations@).bytes <= u64::MAX,
            batch_sums(old(self).table.data.keys(), batch.mutations@).deleted <= u64::MAX,
        ensures
            final(self).changes() == old(self).changes() + batch_changes(
                old(self).table.data.keys(),
                batch.mutations@,
            ),
            *final(self).table == *old(self).table,
            *final(final(self).table) == *final(old(self).table),
            final(self).tx_id == old(self).tx_id,
            final(self).snapshot_lsn == old(self).snapshot_lsn,
            r == Ok::<BatchReport, TableError>(
                {
                    let sums = batch_sums(old(self).table.data.keys(), batch.mutations@);
                    BatchReport {
                        attempted: batch.mutations@.len() as u64,
                        applied: sums.applied as u64,
                        deleted: sums.deleted as u64,
                        bytes_written: sums.bytes as u64,
                    }
                },
            ),
    {
        let ghost keys = self.table.data.keys();
        let ghost ms = batch.mutations@;
        let n: usize = batch.mutations.len();
        let mut mutations = batch.mutations;
        let mut report = BatchReport {
            attempted: n as u64,
            applied: 0,
            deleted: 0,
            bytes_written: 0,
        };
        let mut i: usize = 0;
        assert(ms.take(0) =~= Seq::empty());
        assert(ms.skip(0) =~= ms);
        assert(self.changes() =~= old(self).changes() + batch_changes(keys, ms.take(0)));
        while i < n
            invariant
                n == ms.len(),
                mutations@ == ms.skip(i as int),
                i <= n,
                keys == old(self).table.data.keys(),
                self.table.wf(),
                forall|k: int|
                    0 <= k < ms.len() ==> (#[trigger] ms[k] matches Mutation::RangeDelete { bounds }
                        ==> is_proper(bounds)),
                forall|k: int|
                    0 <= k < ms.len() ==> (#[trigger] ms[k] matches Mutation::Put { key, value }
                        ==> key@.len() + value@.len() + 16 <= usize::MAX),
                batch_sums(keys, ms).bytes <= u64::MAX,
                batch_sums(keys, ms).deleted <= u64::MAX,
                self.changes() == old(self).changes() + batch_changes(keys, ms.take(i as int)),
                *self.table == *old(self).table,
                *final(self.table) == *final(old(self).table),
                self.tx_id == old(self).tx_id,
                self.snapshot_lsn == old(self).snapshot_lsn,
                report.attempted == n,
                report.applied == batch_sums(keys, ms.take(i as int)).applied,
                report.deleted == batch_sums(keys, ms.take(i as int)).deleted,
                report.bytes_written == batch_sums(keys, ms.take(i as int)).bytes,
            decreases n - i,
        {
            let ghost before = self.changes();
            proof {
                assert(ms.take(i + 1).drop_last() =~= ms.take(i as int));
                assert(ms.take(i + 1).last() == ms[i as int]);
                lemma_batch_sums_mono(keys, ms, i as int);
                lemma_batch_sums_mono(keys, ms, i + 1);
                assert(ms.skip(i as int)[0] == ms[i as int]);
                assert(ms.skip(i as int).remove(0) =~= ms.skip(i + 1));
            }
            let mutation = mutations.remove(0);
            match mutation {
                Mutation::Put { key, value } => {
                    let _ = self.put(key.as_slice(), value.as_slice());
                    report.applied = report.applied + 1;
                    report.bytes_written = report.bytes_written + key.len() as u64 + value.len() as u64;
                    proof {
                        assert(self.changes() =~= before + mutation_changes(keys, ms[i as int]));
                    }
                },
                Mutation::Delete { key } => {
                    let known: bool = self.table.data.contains_key(key.as_slice());
                    let _ = self.delete(key.as_slice());
                    if known {
                        report.deleted = report.deleted + 1;
                    }
                    report.applied = report.applied + 1;
                    proof {
                        assert(self.changes() =~= before + mutation_changes(keys, ms[i as int]));
                    }
                },
                Mutation::RangeDelete { bounds } => {
                    if let Ok(deleted) = self.range_delete(bounds) {
                        report.deleted = report.deleted + deleted;
                    }
                    report.applied = report.applied + 1;
                },
                Mutation::Merge { .. } => {
                    proof {
                        assert(self.changes() =~= before + mutation_changes(keys, ms[i as int]));
                    }
                },
            }
            proof {
                assert(self.changes() =~= old(self).changes() + batch_changes(
                    keys,
                    ms.take(i + 1),
                ));
            }
            i += 1;
        }
        proof {
            assert(ms.take(n as int) =~= ms);
            lemma_batch_sums_mono(keys, ms, n as int);
        }
        Ok(report)
    }

    /// Writes the noted changes to the table as pending versions, in order.
    pub fn flush(&mut self) -> (r: TableResult<()>)
        requires
            old(self).table.wf(),
        ensures
            final(self).pending_changes@.len() == 0,
            final(self).table.wf(),
            final(self).table.same_identity(old(self).table),
            final(self).table.chains() == with_steps(
                old(self).table.chains(),
                old(self).changes(),
                old(self).tx_id,
            ),
            final(self).table.memory_usage as int == usage_after_steps(
                old(self).table.chains(),
                old(self).table.memory_usage as int,
                old(self).changes(),
                old(self).tx_id,
            ),
            *final(final(self).table) == *final(old(self).table),
            final(self).tx_id == old(self).tx_id,
            final(self).snapshot_lsn == old(self).snapshot_lsn,
            r is Ok,
    {
        let ghost m = self.table.chains();
        let ghost cs = self.changes();
        let ghost usage = self.table.memory_usage as int;
        let n: usize = self.pending_changes.len();
        let mut i: usize = 0;
        assert(cs.take(0) =~= Seq::empty());
        while i < n
            invariant
                n == self.pending_changes@.len(),
                cs == self.changes(),
                i <= n,
                self.table.wf(),
                self.table.same_identity(old(self).table),
                self.table.chains() == with_steps(m, cs.take(i as int), self.tx_id),
                self.table.memory_usage as int == usage_after_steps(
                    m,
                    usage,
                    cs.take(i as int),
                    self.tx_id,
                ),
                *final(self.table) == *final(old(self).table),
                self.tx_id == old(self).tx_id,
                self.snapshot_lsn == old(self).snapshot_lsn,
            decreases n - i,
        {
            proof {
                assert(cs.take(i + 1).drop_last() =~= cs.take(i as int));
                assert(cs.take(i + 1).last() == cs[i as int]);
            }
            let key = copy_bytes(self.pending_changes[i].0.as_slice());
            let before: usize = self.table.data.live_entry_size(key.as_slice());
            match &self.pending_changes[i].1 {
                Some(value) => {
                    let held = hold(value.as_slice());
                    self.table.data.push_version(copy_bytes(key.as_slice()), held, self.tx_id);
                },
                None => {
                    let _ = self.table.data.push_removal(copy_bytes(key.as_slice()), self.tx_id);
                },
            }
            let after: usize = self.table.data.live_entry_size(key.as_slice());
            self.table.memory_usage = adjust_usage(self.table.memory_usage, before, after);
            i += 1;
        }
        proof {
            assert(cs.take(n as int) =~= cs);
        }
        self.pending_changes.clear();
        Ok(())
    }

    /// Commits every version that this transaction left pending.
    pub fn commit_versions(&mut self, commit_lsn: LogSequenceNumber) -> (r: TableResult<()>)
        requires
            old(self).table.wf(),
        ensures
            final(self).table.wf(),
            final(self).table.same_identity(old(self).table),
            final(self).table.memory_usage == old(self).table.memory_usage,
            final(self).table.chains() == with_commit(
                old(self).table.chains(),
                old(self).tx_id,
                commit_lsn,
            ),
            *final(final(self).table) == *final(old(self).table),
            final(self).tx_id == old(self).tx_id,
            final(self).snapshot_lsn == old(self).snapshot_lsn,
            final(self).changes() == old(self).changes(),
            r is Ok,
    {
        self.table.data.commit_of(self.tx_id, commit_lsn);
        Ok(())
    }

    /// The transaction of the writer.
    pub fn tx_id(&self) -> (r: TransactionId)
        ensures
            r == self.tx_id,
    {
        self.tx_id
    }

    /// The point of the log that the writer was made for.
    pub fn snapshot_lsn(&self) -> (r: LogSequenceNumber)
        ensures
            r == self.snapshot_lsn,
    {
        self.snapshot_lsn
    }
}

/// The map after one flushed change of transaction `tx`.
pub open spec fn with_step(m: Chains, c: Change, tx: TransactionId) -> Chains {
    match c.1 {
        Some(value) => with_value(m, c.0, value, tx),
        None => with_removal(m, c.0, tx),
    }
}

/// The map after the flushed changes of transaction `tx`, in order.
pub open spec fn with_steps(m: Chains, cs: Seq<Change>, tx: TransactionId) -> Chains
    decreases cs.len(),
{
    if cs.len() == 0 {
        m
    } else {
        with_step(with_steps(m, cs.drop_last(), tx), cs.last(), tx)
    }
}

/// The memory in use after the flushed changes of transaction `tx`, in order.
pub open spec fn usage_after_steps(
    m: Chains,
    usage: int,
    cs: Seq<Change>,
    tx: TransactionId,
) -> int
    decreases cs.len(),
{
    if cs.len() == 0 {
        usage
    } else {
        let before = with_steps(m, cs.drop_last(), tx);
        let key = cs.last().0;
        adjusted_usage(
            usage_after_steps(m, usage, cs.drop_last(), tx),
            live_entry_size(before, key),
            live_entry_size(with_step(before, cs.last(), tx), key),
        )
    }
}

/// Flushed changes stay invisible until they are committed.
pub proof fn law_flushed_changes_are_invisible(
    m: Chains,
    cs: Seq<Change>,
    tx: TransactionId,
    key: Seq<u8>,
    lsn: LogSequenceNumber,
)
    ensures
        live_read(with_steps(m, cs, tx), key, lsn) == live_read(m, key, lsn),
    decreases cs.len(),
{
    if cs.len() > 0 {
        law_flushed_changes_are_invisible(m, cs.drop_last(), tx, key, lsn);
        let before = with_steps(m, cs.drop_last(), tx);
        let after = with_steps(m, cs, tx);
        if cs.last().0 == key && after != before {
            assert(chain_of(after, key).drop_first() =~= chain_of(before, key));
        }
    }
}

proof fn lemma_last_step(m: Chains, cs: Seq<Change>, tx: TransactionId, i: int)
    requires
        0 <= i < cs.len(),
        forall|j: int| i < j < cs.len() ==> (#[trigger] cs[j]).0 != cs[i].0,
    ensures
        ({
            let vs = chain_of(with_steps(m, cs, tx), cs[i].0);
            match cs[i].1 {
                Some(value) => vs.len() > 0 && vs[0] == pending(held_for(value), tx),
                None => vs.len() > 0 ==> vs[0] == pending(deletion_mark(), tx),
            }
        }),
    decreases cs.len(),
{
    if i < cs.len() - 1 {
        assert(cs[cs.len() - 1].0 != cs[i].0);
        lemma_last_step(m, cs.drop_last(), tx, i);
    }
}

/// Once a flush is committed, every reader from the commit on gets the last change that was made
/// to a key: the value that was put, be it empty, or nothing where the key was deleted. Earlier
/// readers get what they got before.
pub proof fn law_flush_and_commit_is_read(
    m: Chains,
    cs: Seq<Change>,
    tx: TransactionId,
    i: int,
    at: LogSequenceNumber,
    lsn: LogSequenceNumber,
)
    requires
        0 <= i < cs.len(),
        forall|j: int| i < j < cs.len() ==> (#[trigger] cs[j]).0 != cs[i].0,
    ensures
        live_read(with_commit(with_steps(m, cs, tx), tx, at), cs[i].0, lsn) == (if at.0 <= lsn.0 {
            cs[i].1
        } else {
            live_read(m, cs[i].0, lsn)
        }),
{
    let key = cs[i].0;
    let flushed = with_steps(m, cs, tx);
    let vs = chain_of(flushed, key);
    let after = chain_of(with_commit(flushed, tx, at), key);
    assert(after =~= commit_of(vs, tx, at));
    if at.0 <= lsn.0 {
        lemma_last_step(m, cs, tx, i);
        if let Some(value) = cs[i].1 {
            law_held_value_comes_back(value);
        }
        if vs.len() > 0 {
            assert(after[0] == committed(vs[0], at));
        }
    } else {
        lemma_commit_is_later(vs, tx, at, lsn, Seq::empty());
        law_flushed_changes_are_invisible(m, cs, tx, key, lsn);
    }
}

/// A flush and its commit leave every key alone that they do not name.
pub proof fn law_flush_keeps_other_keys(
    m: Chains,
    cs: Seq<Change>,
    tx: TransactionId,
    key: Seq<u8>,
    at: LogSequenceNumber,
)
    requires
        forall|i: int| 0 <= i < cs.len() ==> (#[trigger] cs[i]).0 != key,
        has_none_pending(chain_of(m, key), tx),
    ensures
        chain_of(with_commit(with_steps(m, cs, tx), tx, at), key) == chain_of(m, key),
    decreases cs.len(),
{
    lemma_other_key(m, cs, tx, key);
    assert(commit_of(chain_of(m, key), tx, at) =~= chain_of(m, key));
    assert(chain_of(with_commit(with_steps(m, cs, tx), tx, at), key) =~= chain_of(m, key));
}

proof fn lemma_other_key(m: Chains, cs: Seq<Change>, tx: TransactionId, key: Seq<u8>)
    requires
        forall|i: int| 0 <= i < cs.len() ==> (#[trigger] cs[i]).0 != key,
    ensures
        chain_of(with_steps(m, cs, tx), key) == chain_of(m, key),
    decreases cs.len(),
{
    if cs.len() > 0 {
        assert(cs[cs.len() - 1].0 != key);
        lemma_other_key(m, cs.drop_last(), tx, key);
    }
}

/// The first position from `p` on that the reader sees, up to the first one out of bounds.
pub open spec fn forward(
    data: ByteMap<VersionChain>,
    bounds: ScanBounds,
    lsn: LogSequenceNumber,
    p: int,
) -> Option<int>
    decreases data.entries@.len() - p,
{
    if p < 0 || p >= data.entries@.len() || !bounds.admits(data.keys()[p]) {
        None
    } else if seen_at(data.entries@[p].1@, lsn) is Some {
        Some(p)
    } else {
        forward(data, bounds, lsn, p + 1)
    }
}

/// The last position up to `p` that the reader sees, down to the first one out of bounds.
pub open spec fn backward(
    data: ByteMap<VersionChain>,
    bounds: ScanBounds,
    lsn: LogSequenceNumber,
    p: int,
) -> Option<int>
    decreases p + 1,
{
    if p < 0 || p >= data.entries@.len() || !bounds.admits(data.keys()[p]) {
        None
    } else if seen_at(data.entries@[p].1@, lsn) is Some {
        Some(p)
    } else {
        backward(data, bounds, lsn, p - 1)
    }
}

/// The last position up to `p` that is within bounds and that the reader sees.
pub open spec fn last_seen(
    data: ByteMap<VersionChain>,
    bounds: ScanBounds,
    lsn: LogSequenceNumber,
    p: int,
) -> Option<int>
    decreases p + 1,
{
    if p < 0 || p >= data.entries@.len() {
        None
    } else if bounds.admits(data.keys()[p]) && seen_at(data.entries@[p].1@, lsn) is Some {
        Some(p)
    } else {
        last_seen(data, bounds, lsn, p - 1)
    }
}

/// The key from which on a scan from the front looks, and whether it passes over that very key.
pub open spec fn start_key(bounds: ScanBounds) -> Option<(Seq<u8>, bool)> {
    match bounds {
        ScanBounds::All => None,
        ScanBounds::Prefix(p) => Some((p@, false)),
        ScanBounds::Range { start, end } => match start {
            Bound::Included(k) => Some((k@, false)),
            Bound::Excluded(k) => Some((k@, true)),
            Bound::Unbounded => None,
        },
    }
}

/// The position from which on a scan from the front looks.
pub open spec fn start_position(keys: Seq<Seq<u8>>, bounds: ScanBounds) -> int {
    match start_key(bounds) {
        Some((k, passes)) => rank(keys, k) + if passes && keys.contains(k) {
            1int
        } else {
            0int
        },
        None => 0,
    }
}

/// The reader sees the key at position `i`, and it is within bounds.
pub open spec fn is_hit(
    data: ByteMap<VersionChain>,
    bounds: ScanBounds,
    lsn: LogSequenceNumber,
    i: int,
) -> bool {
    &&& 0 <= i < data.entries@.len()
    &&& bounds.admits(data.keys()[i])
    &&& seen_at(data.entries@[i].1@, lsn) is Some
}

/// A walk forward stops at the first hit, or finds none before it leaves the bounds.
pub proof fn lemma_forward(
    data: ByteMap<VersionChain>,
    bounds: ScanBounds,
    lsn: LogSequenceNumber,
    p: int,
) -> (stop: int)
    requires
        0 <= p <= data.entries@.len(),
    ensures
        p <= stop <= data.entries@.len(),
        forall|j: int| p <= j < stop ==> !is_hit(data, bounds, lsn, j),
        match forward(data, bounds, lsn, p) {
            Some(i) => i == stop && is_hit(data, bounds, lsn, i),
            None => stop == data.entries@.len() || !bounds.admits(data.keys()[stop]),
        },
    decreases data.entries@.len() - p,
{
    if p == data.entries@.len() || !bounds.admits(data.keys()[p]) || seen_at(
        data.entries@[p].1@,
        lsn,
    ) is Some {
        p
    } else {
        lemma_forward(data, bounds, lsn, p + 1)
    }
}

/// Walks over tables with the same keys, of which the reader sees the same, stop at the same
/// positions.
proof fn lemma_same_walks(
    a: ByteMap<VersionChain>,
    b: ByteMap<VersionChain>,
    bounds: ScanBounds,
    lsn: LogSequenceNumber,
    p: int,
    forwards: bool,
)
    requires
        a.keys() == b.keys(),
        forall|i: int|
            0 <= i < a.entries@.len() ==> seen_at((#[trigger] a.entries@[i]).1@, lsn) == seen_at(
                b.entries@[i].1@,
                lsn,
            ),
    ensures
        forwards ==> forward(a, bounds, lsn, p) == forward(b, bounds, lsn, p),
        !forwards ==> backward(a, bounds, lsn, p) == backward(b, bounds, lsn, p),
        !forwards ==> last_seen(a, bounds, lsn, p) == last_seen(b, bounds, lsn, p),
    decreases
            if forwards {
                a.entries@.len() - p
            } else {
                p + 1
            },
{
    assert(a.keys().len() == a.entries@.len() && b.keys().len() == b.entries@.len());
    if 0 <= p < a.entries@.len() {
        assert(seen_at(a.entries@[p].1@, lsn) == seen_at(b.entries@[p].1@, lsn));
        lemma_same_walks(
            a,
            b,
            bounds,
            lsn,
            if forwards {
                p + 1
            } else {
                p - 1
            },
            forwards,
        );
    }
}

/// Vacuuming up to `min` keeps every key at its position, and a reader at `min` or later sees
/// the same value there: every scan goes by the same positions as before.
pub proof fn law_vacuum_keeps_scans(
    before: MemoryBTree,
    after: MemoryBTree,
    min: LogSequenceNumber,
    bounds: ScanBounds,
    lsn: LogSequenceNumber,
    p: int,
)
    requires
        before.wf(),
        after.wf(),
        after.chains() == with_vacuum(before.chains(), min),
        lsn.0 >= min.0,
    ensures
        after.data.keys() == before.data.keys(),
        forall|i: int|
            0 <= i < before.data.entries@.len() ==> seen_at(
                (#[trigger] after.data.entries@[i]).1@,
                lsn,
            ) == seen_at(before.data.entries@[i].1@, lsn),
        forward(after.data, bounds, lsn, p) == forward(before.data, bounds, lsn, p),
        backward(after.data, bounds, lsn, p) == backward(before.data, bounds, lsn, p),
        last_seen(after.data, bounds, lsn, p) == last_seen(before.data, bounds, lsn, p),
{
    let a = before.data;
    let b = after.data;
    assert forall|k: Seq<u8>| #[trigger] a.keys().contains(k) <==> b.keys().contains(k) by {
        assert(a.chains().contains_key(k) <==> a@.contains_key(k));
        assert(b.chains().contains_key(k) <==> b@.contains_key(k));
        assert(with_vacuum(a.chains(), min).contains_key(k) <==> a.chains().contains_key(k));
    }
    lemma_listed_once(a.keys(), b.keys());
    assert(a.keys().len() == a.entries@.len() && b.keys().len() == b.entries@.len());
    assert forall|i: int| 0 <= i < a.entries@.len() implies seen_at(
        (#[trigger] a.entries@[i]).1@,
        lsn,
    ) == seen_at(b.entries@[i].1@, lsn) by {
        let k = a.keys()[i];
        a.lemma_entry(i);
        b.lemma_entry(i);
        assert(b.keys()[i] == k);
        assert(a.chains()[k] == a.entries@[i].1@);
        assert(b.chains()[k] == b.entries@[i].1@);
        law_vacuum_keeps_live_reads(a.chains(), min, k, lsn);
    }
    lemma_same_walks(a, b, bounds, lsn, p, true);
    lemma_same_walks(a, b, bounds, lsn, p, false);
}

/// What lies after a key that is past the end of the bounds is past the end too.
pub proof fn lemma_past_end(bounds: ScanBounds, a: Seq<u8>, b: Seq<u8>, c: Seq<u8>)
    requires
        bounds.admits(a) || (bounds matches ScanBounds::Prefix(p) && a == p@) || (
        bounds matches ScanBounds::Range { start, .. } && start.admits_from(a)),
        lex_le(a, b),
        lex_lt(b, c),
        !bounds.admits(b),
    ensures
        !bounds.admits(c),
{
    match bounds {
        ScanBounds::All => {},
        ScanBounds::Prefix(prefix) => {
            let p = prefix@;
            if has_prefix(c, p) {
                assert(has_prefix(a, p)) by {
                    assert(p.take(p.len() as int) =~= p);
                }
                assert(lex_lt(a, b));
                let j = choose|k: int| crate::bytes::lex_split(a, b, k);
                let k = choose|k: int| crate::bytes::lex_split(b, c, k);
                assert forall|i: int| 0 <= i < p.len() implies a[i] == p[i] && c[i] == p[i] by {
                    assert(a.take(p.len() as int)[i] == p[i]);
                    assert(c.take(p.len() as int)[i] == p[i]);
                }
                if j >= p.len() {
                    assert(b.take(p.len() as int) =~= p) by {
                        assert forall|i: int| 0 <= i < p.len() implies b[i] == p[i] by {
                            assert(a[i] == b[i]);
                        }
                    }
                } else if k >= p.len() {
                    assert(b.take(p.len() as int) =~= p) by {
                        assert forall|i: int| 0 <= i < p.len() implies b[i] == p[i] by {
                            assert(b[i] == c[i]);
                        }
                    }
                } else if j < k {
                    assert(b[j] == c[j]);
                } else if k < j {
                    assert(a[k] == b[k]);
                }
                assert(false);
            }
        },
        ScanBounds::Range { start, end } => {
            assert(start.admits_from(b)) by {
                match start {
                    Bound::Included(k) => {
                        if k@ != a && a != b {
                            lemma_lex_transitive(k@, a, b);
                        }
                    },
                    Bound::Excluded(k) => {
                        if a != b {
                            lemma_lex_transitive(k@, a, b);
                        }
                    },
                    Bound::Unbounded => {},
                }
            }
            match end {
                Bound::Included(k) => {
                    if end.admits_to(c) {
                        if c != k@ {
                            lemma_lex_transitive(b, c, k@);
                        }
                    }
                },
                Bound::Excluded(k) => {
                    if end.admits_to(c) {
                        lemma_lex_transitive(b, c, k@);
                    }
                },
                Bound::Unbounded => {},
            }
        },
    }
}

/// Moving forward from a key within bounds reaches the next key within bounds that the reader
/// sees, and nothing only where there is none: no key is skipped.
pub proof fn law_next_is_complete(
    data: ByteMap<VersionChain>,
    bounds: ScanBounds,
    lsn: LogSequenceNumber,
    i: int,
)
    requires
        data.wf(),
        0 <= i < data.entries@.len(),
        bounds.admits(data.keys()[i]),
    ensures
        match forward(data, bounds, lsn, i + 1) {
            Some(k) => i < k && is_hit(data, bounds, lsn, k) && forall|j: int|
                i < j < k ==> !is_hit(data, bounds, lsn, j),
            None => forall|j: int| i < j ==> !is_hit(data, bounds, lsn, j),
        },
{
    let keys = data.keys();
    let stop = lemma_forward(data, bounds, lsn, i + 1);
    if forward(data, bounds, lsn, i + 1) is None {
        assert forall|j: int| i < j implies !is_hit(data, bounds, lsn, j) by {
            if stop < j < data.entries@.len() {
                assert(lex_lt(keys[i], keys[stop]));
                assert(lex_lt(keys[stop], keys[j]));
                lemma_past_end(bounds, keys[i], keys[stop], keys[j]);
            }
        }
    }
}

/// Before a key that is out of bounds, and not past their end, no key is within bounds.
proof fn lemma_before_start(bounds: ScanBounds, a: Seq<u8>, b: Seq<u8>, c: Seq<u8>)
    requires
        lex_lt(a, b),
        lex_lt(b, c),
        bounds.admits(c),
        !bounds.admits(b),
    ensures
        !bounds.admits(a),
{
    if bounds.admits(a) {
        match bounds {
            ScanBounds::All => {},
            ScanBounds::Prefix(prefix) => {
                lemma_past_end(bounds, a, b, c);
            },
            ScanBounds::Range { start, end } => {
                lemma_past_end(bounds, a, b, c);
            },
        }
    }
}

/// A walk back stops at the last hit, or finds none before it leaves the bounds.
proof fn lemma_backward(
    data: ByteMap<VersionChain>,
    bounds: ScanBounds,
    lsn: LogSequenceNumber,
    p: int,
) -> (stop: int)
    requires
        -1 <= p < data.entries@.len(),
    ensures
        -1 <= stop <= p,
        forall|j: int| stop < j <= p ==> !is_hit(data, bounds, lsn, j),
        match backward(data, bounds, lsn, p) {
            Some(i) => i == stop && is_hit(data, bounds, lsn, i),
            None => stop == -1 || !bounds.admits(data.keys()[stop]),
        },
    decreases p + 1,
{
    if p == -1 || !bounds.admits(data.keys()[p]) || seen_at(data.entries@[p].1@, lsn) is Some {
        p
    } else {
        lemma_backward(data, bounds, lsn, p - 1)
    }
}

/// Moving back from a key within bounds reaches the nearest earlier key within bounds that the
/// reader sees, and nothing only where there is none: no key is skipped.
pub proof fn law_prev_is_complete(
    data: ByteMap<VersionChain>,
    bounds: ScanBounds,
    lsn: LogSequenceNumber,
    i: int,
)
    requires
        data.wf(),
        0 <= i < data.entries@.len(),
        bounds.admits(data.keys()[i]),
    ensures
        match backward(data, bounds, lsn, i - 1) {
            Some(k) => k < i && is_hit(data, bounds, lsn, k) && forall|j: int|
                k < j < i ==> !is_hit(data, bounds, lsn, j),
            None => forall|j: int| j < i ==> !is_hit(data, bounds, lsn, j),
        },
{
    let keys = data.keys();
    let stop = lemma_backward(data, bounds, lsn, i - 1);
    if backward(data, bounds, lsn, i - 1) is None {
        assert forall|j: int| j < i implies !is_hit(data, bounds, lsn, j) by {
            if 0 <= j < stop {
                assert(lex_lt(keys[j], keys[stop]));
                assert(lex_lt(keys[stop], keys[i]));
                lemma_before_start(bounds, keys[j], keys[stop], keys[i]);
            }
        }
    }
}

/// From one hit back and forth again, and forth and back again, leads to the same hit.
pub proof fn law_prev_undoes_next(
    data: ByteMap<VersionChain>,
    bounds: ScanBounds,
    lsn: LogSequenceNumber,
    i: int,
)
    requires
        data.wf(),
        is_hit(data, bounds, lsn, i),
    ensures
        forward(data, bounds, lsn, i + 1) matches Some(k) ==> backward(data, bounds, lsn, k - 1)
            == Some(i),
        backward(data, bounds, lsn, i - 1) matches Some(k) ==> forward(data, bounds, lsn, k + 1)
            == Some(i),
{
    law_next_is_complete(data, bounds, lsn, i);
    law_prev_is_complete(data, bounds, lsn, i);
    if let Some(k) = forward(data, bounds, lsn, i + 1) {
        law_prev_is_complete(data, bounds, lsn, k);
    }
    if let Some(k) = backward(data, bounds, lsn, i - 1) {
        law_next_is_complete(data, bounds, lsn, k);
    }
}

/// A seek for a key within bounds reaches the first hit that is not before the key, and nothing
/// only where there is none.
pub proof fn law_seek_is_complete(
    data: ByteMap<VersionChain>,
    bounds: ScanBounds,
    lsn: LogSequenceNumber,
    key: Seq<u8>,
)
    requires
        data.wf(),
        bounds.admits(key),
    ensures
        match forward(data, bounds, lsn, rank(data.keys(), key)) {
            Some(k) => is_hit(data, bounds, lsn, k) && lex_le(key, data.keys()[k]) && forall|j: int|
                is_hit(data, bounds, lsn, j) && lex_le(key, #[trigger] data.keys()[j]) ==> k <= j,
            None => forall|j: int|
                is_hit(data, bounds, lsn, j) ==> lex_lt(#[trigger] data.keys()[j], key),
        },
{
    let keys = data.keys();
    let r = rank(keys, key);
    lemma_rank_parts(keys, key);
    let stop = lemma_forward(data, bounds, lsn, r);
    assert forall|j: int| 0 <= j < keys.len() implies (j < r <==> lex_lt(
        #[trigger] keys[j],
        key,
    )) by {}
    assert forall|j: int| r <= j < keys.len() implies lex_le(key, #[trigger] keys[j]) by {
        lemma_lex_total(key, keys[j]);
    }
    assert forall|j: int| 0 <= j < r implies !lex_le(key, #[trigger] keys[j]) by {
        lemma_lex_asymmetric(keys[j], key);
        lemma_lex_irreflexive(key);
    }
    if forward(data, bounds, lsn, r) is None {
        assert forall|j: int| is_hit(data, bounds, lsn, j) implies lex_lt(
            #[trigger] keys[j],
            key,
        ) by {
            if r <= j && stop < j {
                assert(lex_lt(keys[stop], keys[j]));
                lemma_past_end(bounds, key, keys[stop], keys[j]);
            }
        }
    }
}

/// A seek for the last key up to one reaches the last hit that is not after the key, and nothing
/// only where there is none.
pub proof fn law_seek_for_prev_is_complete(
    table: MemoryBTree,
    bounds: ScanBounds,
    lsn: LogSequenceNumber,
    key: Seq<u8>,
)
    requires
        table.wf(),
    ensures
        ({
            let data = table.data;
            match last_seen(
                data,
                bounds,
                lsn,
                rank(data.keys(), key) - (if table.chains().contains_key(key) {
                    0int
                } else {
                    1int
                }),
            ) {
                Some(k) => is_hit(data, bounds, lsn, k) && lex_le(data.keys()[k], key) && forall|
                    j: int,
                |
                    is_hit(data, bounds, lsn, j) && lex_le(#[trigger] data.keys()[j], key) ==> j
                        <= k,
                None => forall|j: int|
                    is_hit(data, bounds, lsn, j) ==> lex_lt(key, #[trigger] data.keys()[j]),
            }
        }),
{
    let data = table.data;
    let keys = data.keys();
    let r = rank(keys, key);
    lemma_rank_parts(keys, key);
    let known = table.chains().contains_key(key);
    let p = r - (if known {
        0int
    } else {
        1int
    });
    if known {
        assert(data@.contains_key(key));
        let at = data.lemma_key(key);
        lemma_lex_irreflexive(key);
        if at > r {
            assert(lex_lt(keys[r], keys[at]));
        }
        assert(keys[r] == key);
    } else {
        assert forall|j: int| 0 <= j < keys.len() implies #[trigger] keys[j] != key by {
            data.lemma_entry(j);
        }
    }
    lemma_last_seen(data, bounds, lsn, p);
    assert forall|j: int| 0 <= j < keys.len() implies (j <= p <==> lex_le(
        #[trigger] keys[j],
        key,
    )) && (j > p ==> lex_lt(key, keys[j])) by {
        lemma_lex_total(key, keys[j]);
        lemma_lex_irreflexive(key);
        if lex_lt(key, keys[j]) {
            lemma_lex_asymmetric(key, keys[j]);
        }
        if known && j > r {
            assert(lex_lt(keys[r], keys[j]));
        }
    }
}

/// A scan from the front starts at the first key within bounds that the reader sees, and nowhere
/// only where there is none.
pub proof fn law_first_is_complete(cursor: MemoryBTreeCursor)
    requires
        cursor.table.wf(),
    ensures
        match cursor.first_position() {
            Some(k) => is_hit(cursor.table.data, cursor.bounds, cursor.snapshot_lsn, k) && forall|
                j: int,
            |
                j < k ==> !is_hit(cursor.table.data, cursor.bounds, cursor.snapshot_lsn, j),
            None => forall|j: int|
                !is_hit(cursor.table.data, cursor.bounds, cursor.snapshot_lsn, j),
        },
{
    let data = cursor.table.data;
    let bounds = cursor.bounds;
    let lsn = cursor.snapshot_lsn;
    let keys = data.keys();
    let from = start_position(keys, bounds);
    if let Some((k, passes)) = start_key(bounds) {
        lemma_rank_parts(keys, k);
        lemma_lex_irreflexive(k);
        let r = rank(keys, k);
        if keys.contains(k) {
            let at = choose|at: int| 0 <= at < keys.len() && keys[at] == k;
            if at > r {
                assert(lex_lt(keys[r], k));
            }
            assert(keys[r] == k);
        }
        assert forall|j: int| 0 <= j < from implies !is_hit(data, bounds, lsn, j) by {
            let key = keys[j];
            if j < r {
                assert(lex_lt(key, k));
                lemma_lex_asymmetric(key, k);
                if bounds is Prefix && has_prefix(key, k) {
                    let s = choose|s: int| crate::bytes::lex_split(key, k, s);
                    assert(key.take(k.len() as int)[s] == key[s]);
                }
            }
        }
    }
    let stop = lemma_forward(data, bounds, lsn, from);
    if cursor.first_position() is None {
        assert forall|j: int| !is_hit(data, bounds, lsn, j) by {
            if stop < j < data.entries@.len() {
                assert(lex_lt(keys[stop], keys[j]));
                match start_key(bounds) {
                    Some((k, passes)) => {
                        lemma_lex_total(keys[stop], k);
                        if passes && keys.contains(k) {
                            assert(lex_lt(keys[rank(keys, k)], keys[stop]));
                        }
                        if lex_lt(k, keys[stop]) {
                            lemma_past_end(
                                bounds,
                                if bounds is Prefix {
                                    k
                                } else {
                                    keys[stop]
                                },
                                keys[stop],
                                keys[j],
                            );
                        } else {
                            assert(keys.contains(k));
                            lemma_past_end(bounds, k, keys[stop], keys[j]);
                        }
                    },
                    None => {
                        lemma_past_end(bounds, keys[stop], keys[stop], keys[j]);
                    },
                }
            }
        }
    }
}

/// A scan from the back starts at the last key within bounds that the reader sees, and nowhere
/// only where there is none.
pub proof fn law_last_is_complete(cursor: MemoryBTreeCursor)
    ensures
        match cursor.last_position() {
            Some(k) => is_hit(cursor.table.data, cursor.bounds, cursor.snapshot_lsn, k) && forall|
                j: int,
            |
                j > k ==> !is_hit(cursor.table.data, cursor.bounds, cursor.snapshot_lsn, j),
            None => forall|j: int|
                !is_hit(cursor.table.data, cursor.bounds, cursor.snapshot_lsn, j),
        },
{
    lemma_last_seen(
        cursor.table.data,
        cursor.bounds,
        cursor.snapshot_lsn,
        cursor.table.data.entries@.len() - 1,
    );
}

proof fn lemma_last_seen(
    data: ByteMap<VersionChain>,
    bounds: ScanBounds,
    lsn: LogSequenceNumber,
    p: int,
)
    requires
        p < data.entries@.len(),
    ensures
        match last_seen(data, bounds, lsn, p) {
            Some(k) => k <= p && is_hit(data, bounds, lsn, k) && forall|j: int|
                k < j <= p ==> !is_hit(data, bounds, lsn, j),
            None => forall|j: int| j <= p ==> !is_hit(data, bounds, lsn, j),
        },
    decreases p + 1,
{
    if p >= 0 && !is_hit(data, bounds, lsn, p) {
        lemma_last_seen(data, bounds, lsn, p - 1);
    }
}

/// Walks over the keys within bounds that a reader sees.
pub struct MemoryBTreeCursor<'a> {
    pub table: &'a MemoryBTree,
    pub snapshot_lsn: LogSequenceNumber,
    pub bounds: ScanBounds,
    pub current_key: Option<Vec<u8>>,
    pub current_value: Option<Vec<u8>>,
    pub exhausted: bool,
}

impl<'a> MemoryBTreeCursor<'a> {
    /// The cursor stands at position `i`.
    pub open spec fn stands_at(&self, i: int) -> bool {
        &&& !self.exhausted
        &&& 0 <= i < self.table.data.entries@.len()
        &&& self.current_key is Some
        &&& self.current_key->Some_0@ == self.table.data.keys()[i]
        &&& self.current_value is Some
        &&& Some(self.current_value->Some_0@) == seen_at(
            self.table.data.entries@[i].1@,
            self.snapshot_lsn,
        )
    }

    /// The cursor stands at a key of the table, with its visible value, or nowhere.
    pub open spec fn wf(&self) -> bool {
        &&& self.table.wf()
        &&& if self.exhausted {
            self.current_key is None && self.current_value is None
        } else {
            exists|i: int| self.stands_at(i)
        }
    }

    /// Where the cursor stands.
    pub open spec fn position(&self) -> Option<int> {
        if self.exhausted {
            None
        } else {
            Some(choose|i: int| self.stands_at(i))
        }
    }

    /// The cursor differs from `other` in where it stands alone.
    pub open spec fn same_scan(&self, other: &Self) -> bool {
        &&& *self.table == *other.table
        &&& self.snapshot_lsn == other.snapshot_lsn
        &&& self.bounds == other.bounds
    }

    /// Where a scan from the front starts.
    pub open spec fn first_position(&self) -> Option<int> {
        forward(
            self.table.data,
            self.bounds,
            self.snapshot_lsn,
            start_position(self.table.data.keys(), self.bounds),
        )
    }

    /// Where a scan from the back starts.
    pub open spec fn last_position(&self) -> Option<int> {
        last_seen(
            self.table.data,
            self.bounds,
            self.snapshot_lsn,
            self.table.data.entries@.len() - 1,
        )
    }

    /// A cursor stands at one position only.
    pub proof fn lemma_position(&self, i: int)
        requires
            self.table.wf(),
            self.stands_at(i),
        ensures
            self.wf(),
            self.position() == Some(i),
    {
        let j = choose|j: int| self.stands_at(j);
        let keys = self.table.data.keys();
        lemma_lex_irreflexive(keys[i]);
        if i < j {
            assert(lex_lt(keys[i], keys[j]));
        } else if j < i {
            assert(lex_lt(keys[j], keys[i]));
        }
    }

    /// A cursor at the first key within the bounds that a reader at `snapshot_lsn` sees.
    pub fn new(table: &'a MemoryBTree, bounds: ScanBounds, snapshot_lsn: LogSequenceNumber) -> (r:
        Self)
        requires
            table.wf(),
        ensures
            r.wf(),
            *r.table == *table,
            r.bounds == bounds,
            r.snapshot_lsn == snapshot_lsn,
            r.position() == r.first_position(),
    {
        let mut cursor = MemoryBTreeCursor {
            table,
            snapshot_lsn,
            bounds,
            current_key: None,
            current_value: None,
            exhausted: true,
        };
        let _ = cursor.first();
        cursor
    }

    fn exhaust(&mut self)
        requires
            old(self).table.wf(),
        ensures
            final(self).wf(),
            final(self).same_scan(old(self)),
            final(self).position() is None,
    {
        self.exhausted = true;
        self.current_key = None;
        self.current_value = None;
    }

    /// Stands at position `i` if the reader sees its key.
    fn settle(&mut self, i: usize) -> (r: bool)
        requires
            old(self).table.wf(),
            i < old(self).table.data.entries@.len(),
        ensures
            final(self).same_scan(old(self)),
            r == (seen_at(old(self).table.data.entries@[i as int].1@, old(self).snapshot_lsn)
                is Some),
            r ==> final(self).wf() && final(self).position() == Some(i as int),
            !r ==> *final(self) == *old(self),
    {
        let snapshot = Snapshot::at(self.snapshot_lsn);
        let entry = &self.table.data.entries[i];
        let held = match entry.1.find_visible_version(&snapshot) {
            Some(held) => held,
            None => return false,
        };
        match unhold(held) {
            Some(value) => {
                self.current_key = Some(copy_bytes(entry.0.as_slice()));
                self.current_value = Some(copy_bytes(value));
                self.exhausted = false;
                proof {
                    assert(self.stands_at(i as int));
                    self.lemma_position(i as int);
                }
                true
            },
            None => false,
        }
    }

    /// Stands at the first position from `start` on that the reader sees, up to the first one out
    /// of bounds.
    fn settle_forward(&mut self, start: usize)
        requires
            old(self).table.wf(),
            start <= old(self).table.data.entries@.len(),
        ensures
            final(self).wf(),
            final(self).same_scan(old(self)),
            final(self).position() == forward(
                old(self).table.data,
                old(self).bounds,
                old(self).snapshot_lsn,
                start as int,
            ),
    {
        let n: usize = self.table.data.entries.len();
        let mut i: usize = start;
        while i < n
            invariant
                start <= i <= n,
                n == self.table.data.entries@.len(),
                self.table.wf(),
                self.same_scan(old(self)),
                forward(self.table.data, self.bounds, self.snapshot_lsn, i as int) == forward(
                    old(self).table.data,
                    old(self).bounds,
                    old(self).snapshot_lsn,
                    start as int,
                ),
            decreases n - i,
        {
            if !self.bounds.contains(self.table.data.entries[i].0.as_slice()) {
                self.exhaust();
                return;
            }
            if self.settle(i) {
                return;
            }
            i += 1;
        }
        self.exhaust();
    }

    /// Stands at the last position before `end` that the reader sees and that is within bounds.
    fn settle_back_skipping(&mut self, end: usize)
        requires
            old(self).table.wf(),
            end <= old(self).table.data.entries@.len(),
        ensures
            final(self).wf(),
            final(self).same_scan(old(self)),
            final(self).position() == last_seen(
                old(self).table.data,
                old(self).bounds,
                old(self).snapshot_lsn,
                end - 1,
            ),
    {
        let mut i: usize = end;
        while i > 0
            invariant
                i <= end <= self.table.data.entries@.len(),
                self.table.wf(),
                self.same_scan(old(self)),
                last_seen(self.table.data, self.bounds, self.snapshot_lsn, i - 1) == last_seen(
                    old(self).table.data,
                    old(self).bounds,
                    old(self).snapshot_lsn,
                    end - 1,
                ),
            decreases i,
        {
            let inside: bool = self.bounds.contains(self.table.data.entries[i - 1].0.as_slice());
            if inside {
                if self.settle(i - 1) {
                    return;
                }
            }
            i -= 1;
        }
        self.exhaust();
    }

    /// Whether the cursor stands at a key.
    pub fn valid(&self) -> (r: bool)
        requires
            self.wf(),
        ensures
            r == (self.position() is Some),
    {
        !self.exhausted && self.current_key.is_some()
    }

    /// The key at which the cursor stands.
    pub fn key(&self) -> (r: Option<&[u8]>)
        requires
            self.wf(),
        ensures
            match self.position() {
                Some(i) => r is Some && r->Some_0@ == self.table.data.keys()[i],
                None => r is None,
            },
    {
        match &self.current_key {
            Some(k) => Some(k.as_slice()),
            None => None,
        }
    }

    /// The visible value of the key at which the cursor stands.
    pub fn value(&self) -> (r: Option<&[u8]>)
        requires
            self.wf(),
        ensures
            match self.position() {
                Some(i) => r is Some && Some(r->Some_0@) == seen_at(
                    self.table.data.entries@[i].1@,
                    self.snapshot_lsn,
                ),
                None => r is None,
            },
    {
        match &self.current_value {
            Some(v) => Some(v.as_slice()),
            None => None,
        }
    }

    /// Moves to the next key that the reader sees. A cursor that stands nowhere stays there.
    pub fn next(&mut self) -> (r: TableResult<()>)
        requires
            old(self).wf(),
        ensures
            final(self).wf(),
            final(self).same_scan(old(self)),
            final(self).position() == match old(self).position() {
                Some(i) => forward(
                    old(self).table.data,
                    old(self).bounds,
                    old(self).snapshot_lsn,
                    i + 1,
                ),
                None => None,
            },
            r is Ok,
    {
        if self.exhausted {
            return Ok(());
        }
        let pos: usize = match &self.current_key {
            Some(k) => self.find_current(k),
            None => {
                return Ok(());
            },
        };
        let n: usize = self.table.data.entries.len();
        assert(pos < n);
        self.settle_forward(pos + 1);
        Ok(())
    }

    fn find_current(&self, key: &Vec<u8>) -> (pos: usize)
        requires
            self.wf(),
            !self.exhausted,
            self.current_key == Some(*key),
        ensures
            self.position() == Some(pos as int),
            pos < self.table.data.entries@.len(),
    {
        let (pos, found) = self.table.data.find(key.as_slice());
        proof {
            let i = choose|i: int| self.stands_at(i);
            self.lemma_position(i);
            lemma_lex_irreflexive(key@);
            if i < pos {
                assert(lex_lt(self.table.data.keys()[i], key@));
            } else if i > pos {
                assert(lex_lt(key@, self.table.data.keys()[i]));
            } else if !found {
                assert(lex_lt(key@, self.table.data.keys()[i]));
            }
        }
        pos
    }

    /// Moves to the previous key that the reader sees. A cursor that stands nowhere stays there.
    pub fn prev(&mut self) -> (r: TableResult<()>)
        requires
            old(self).wf(),
        ensures
            final(self).wf(),
            final(self).same_scan(old(self)),
            final(self).position() == match old(self).position() {
                Some(i) => backward(
                    old(self).table.data,
                    old(self).bounds,
                    old(self).snapshot_lsn,
                    i - 1,
                ),
                None => None,
            },
            r is Ok,
    {
        if self.exhausted {
            return Ok(());
        }
        let pos: usize = match &self.current_key {
            Some(k) => self.find_current(k),
            None => {
                return Ok(());
            },
        };
        let mut i: usize = pos;
        while i > 0
            invariant
                i <= pos < self.table.data.entries@.len(),
                self.table.wf(),
                self.same_scan(old(self)),
                backward(self.table.data, self.bounds, self.snapshot_lsn, i - 1) == backward(
                    old(self).table.data,
                    old(self).bounds,
                    old(self).snapshot_lsn,
                    pos - 1,
                ),
                old(self).position() == Some(pos as int),
            decreases i,
        {
            if !self.bounds.contains(self.table.data.entries[i - 1].0.as_slice()) {
                self.exhaust();
                return Ok(());
            }
            if self.settle(i - 1) {
                return Ok(());
            }
            i -= 1;
        }
        self.exhaust();
        Ok(())
    }

    /// Moves to the first key from `key` on that the reader sees, up to the first one out of
    /// bounds.
    pub fn seek(&mut self, key: &[u8]) -> (r: TableResult<()>)
        requires
            old(self).wf(),
        ensures
            final(self).wf(),
            final(self).same_scan(old(self)),
            final(self).position() == forward(
                old(self).table.data,
                old(self).bounds,
                old(self).snapshot_lsn,
                rank(old(self).table.data.keys(), key@),
            ),
            r is Ok,
    {
        let pos: usize = self.rank_of(key);
        self.settle_forward(pos);
        Ok(())
    }

    /// The number of keys of the table before `key`.
    fn rank_of(&self, key: &[u8]) -> (r: usize)
        requires
            self.table.wf(),
        ensures
            r == rank(self.table.data.keys(), key@),
            r <= self.table.data.entries@.len(),
    {
        let (pos, found) = self.table.data.find(key);
        proof {
            let keys = self.table.data.keys();
            assert forall|i: int| pos <= i < keys.len() implies !lex_lt(
                #[trigger] keys[i],
                key@,
            ) by {
                if i == pos && found {
                    lemma_lex_irreflexive(key@);
                } else {
                    lemma_lex_asymmetric(key@, keys[i]);
                }
            }
            lemma_rank(keys, key@, pos as int);
        }
        pos
    }

    proof fn lemma_found(&self, key: Seq<u8>, pos: int, at: int, found: bool)
        requires
            self.table.wf(),
            pos == rank(self.table.data.keys(), key),
            0 <= at <= self.table.data.keys().len(),
            found ==> at < self.table.data.keys().len() && self.table.data.keys()[at] == key,
            forall|i: int|
                0 <= i < at ==> lex_lt(#[trigger] self.table.data.keys()[i], key),
        ensures
            found ==> pos < self.table.data.entries@.len() && self.table.data.keys().contains(key),
            found ==> at == pos,
    {
        let keys = self.table.data.keys();
        lemma_rank_parts(keys, key);
        if found && at < pos {
            assert(lex_lt(keys[at], key));
            lemma_lex_irreflexive(key);
        }
        if at > pos {
            assert(lex_lt(keys[pos], key));
        }
    }

    /// Moves to the last key up to `key` that is within bounds and that the reader sees.
    pub fn seek_for_prev(&mut self, key: &[u8]) -> (r: TableResult<()>)
        requires
            old(self).wf(),
        ensures
            final(self).wf(),
            final(self).same_scan(old(self)),
            final(self).position() == last_seen(
                old(self).table.data,
                old(self).bounds,
                old(self).snapshot_lsn,
                rank(old(self).table.data.keys(), key@) - (if old(
                    self,
                ).table.chains().contains_key(key@) {
                    0int
                } else {
                    1int
                }),
            ),
            r is Ok,
    {
        let pos: usize = self.rank_of(key);
        let (at, found) = self.table.data.find(key);
        proof {
            self.lemma_found(key@, pos as int, at as int, found);
        }
        let n: usize = self.table.data.entries.len();
        assert(found ==> pos < n);
        if found {
            self.settle_back_skipping(pos + 1);
        } else {
            self.settle_back_skipping(pos);
        }
        Ok(())
    }

    /// Moves to where a scan from the front starts.
    pub fn first(&mut self) -> (r: TableResult<()>)
        requires
            old(self).table.wf(),
        ensures
            final(self).wf(),
            final(self).same_scan(old(self)),
            final(self).position() == old(self).first_position(),
            r is Ok,
    {
        let pos: usize = match &self.bounds {
            ScanBounds::All => 0,
            ScanBounds::Prefix(p) => self.rank_of(p.0.as_slice()),
            ScanBounds::Range { start, end: _ } => match start {
                Bound::Included(k) => self.rank_of(k.0.as_slice()),
                Bound::Excluded(k) => {
                    let pos: usize = self.rank_of(k.0.as_slice());
                    let (at, found) = self.table.data.find(k.0.as_slice());
                    let n: usize = self.table.data.entries.len();
                    proof {
                        self.lemma_found(k@, pos as int, at as int, found);
                    }
                    assert(found ==> pos < n);
                    if found {
                        pos + 1
                    } else {
                        pos
                    }
                },
                Bound::Unbounded => 0,
            },
        };
        self.settle_forward(pos);
        Ok(())
    }

    /// Moves to where a scan from the back starts.
    pub fn last(&mut self) -> (r: TableResult<()>)
        requires
            old(self).table.wf(),
        ensures
            final(self).wf(),
            final(self).same_scan(old(self)),
            final(self).position() == old(self).last_position(),
            r is Ok,
    {
        let pos: usize = self.table.data.entries.len();
        self.settle_back_skipping(pos);
        Ok(())
    }

    /// The point of the log that the cursor reads at.
    pub fn snapshot_lsn(&self) -> (r: LogSequenceNumber)
        ensures
            r == self.snapshot_lsn,
    {
        self.snapshot_lsn
    }
}

/// Walks over index entries: index keys and the primary keys they point at.
pub struct MemoryBTreeSpecialtyCursor<'a> {
    pub inner: MemoryBTreeCursor<'a>,
}

impl<'a> MemoryBTreeSpecialtyCursor<'a> {
    /// Whether the cursor stands at an entry.
    pub fn valid(&self) -> (r: bool)
        requires
            self.inner.wf(),
        ensures
            r == (self.inner.position() is Some),
    {
        self.inner.valid()
    }

    /// The index key of the entry.
    pub fn index_key(&self) -> (r: Option<&[u8]>)
        requires
            self.inner.wf(),
        ensures
            match self.inner.position() {
                Some(i) => r is Some && r->Some_0@ == self.inner.table.data.keys()[i],
                None => r is None,
            },
    {
        self.inner.key()
    }

    /// The primary key of the entry.
    pub fn primary_key(&self) -> (r: Option<&[u8]>)
        requires
            self.inner.wf(),
        ensures
            match self.inner.position() {
                Some(i) => r is Some && Some(r->Some_0@) == seen_at(
                    self.inner.table.data.entries@[i].1@,
                    self.inner.snapshot_lsn,
                ),
                None => r is None,
            },
    {
        self.inner.value()
    }

    /// Moves to the next entry.
    pub fn next(&mut self) -> (r: TableResult<()>)
        requires
            old(self).inner.wf(),
        ensures
            final(self).inner.wf(),
            final(self).inner.same_scan(&old(self).inner),
            final(self).inner.position() == match old(self).inner.position() {
                Some(i) => forward(
                    old(self).inner.table.data,
                    old(self).inner.bounds,
                    old(self).inner.snapshot_lsn,
                    i + 1,
                ),
                None => None,
            },
            r is Ok,
    {
        self.inner.next()
    }

    /// Moves to the previous entry.
    pub fn prev(&mut self) -> (r: TableResult<()>)
        requires
            old(self).inner.wf(),
        ensures
            final(self).inner.wf(),
            final(self).inner.same_scan(&old(self).inner),
            final(self).inner.position() == match old(self).inner.position() {
                Some(i) => backward(
                    old(self).inner.table.data,
                    old(self).inner.bounds,
                    old(self).inner.snapshot_lsn,
                    i - 1,
                ),
                None => None,
            },
            r is Ok,
    {
        self.inner.prev()
    }

    /// Moves to the first entry from `index_key` on.
    pub fn seek(&mut self, index_key: &[u8]) -> (r: TableResult<()>)
        requires
            old(self).inner.wf(),
        ensures
            final(self).inner.wf(),
            final(self).inner.same_scan(&old(self).inner),
            final(self).inner.position() == forward(
                old(self).inner.table.data,
                old(self).inner.bounds,
                old(self).inner.snapshot_lsn,
                rank(old(self).inner.table.data.keys(), index_key@),
            ),
            r is Ok,
    {
        self.inner.seek(index_key)
    }
}

} // verus!
