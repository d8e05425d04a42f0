//! An in-memory hash table: exact-match lookups on versioned values, without any order.
use crate::bytemap::ByteMap;
use crate::bytes::copy_bytes;
use crate::mvcc::{
    chain_of, changes_of, entry_size, read, usage_after, version_total, with_changes,
    with_commit, with_vacuum, Change, Chains,
};
use crate::table::{
    BatchReport, Mutation, TableCapabilities, TableEngineKind, TableError, TableResult,
    TableStatistics, WriteBatch,
};
use crate::txn::{
    adjust_usage, adjusted_usage, committed, lemma_versions_size, pending, saturated,
    visible_at, Version, VersionChain,
};
use crate::types::{
    value_view, LogSequenceNumber, ScanBounds, TableId, TransactionId, ValueBuf,
};
use vstd::prelude::*;

verus! {

/// The memory budget of a table that is given none: 64 MiB.
pub const DEFAULT_BUDGET: usize = 67108864;

/// An in-memory hash table.
///
/// Each key maps to a version chain. There are no ordered scans and no range operations.
pub struct MemoryHashTable {
    pub id: TableId,
    pub name: String,
    pub data: ByteMap<VersionChain>,
    pub memory_usage: usize,
    pub memory_budget: usize,
}

/// The map after transaction `tx` put a value and committed it at once.
pub open spec fn with_committed_put(
    m: Chains,
    key: Seq<u8>,
    value: Seq<u8>,
    tx: TransactionId,
    lsn: LogSequenceNumber,
) -> Chains {
    m.insert(key, seq![committed(pending(value, tx), lsn)] + chain_of(m, key))
}

impl MemoryHashTable {
    /// The keys are in order and each has a version.
    pub open spec fn wf(&self) -> bool {
        self.data.wf()
    }

    /// The versions of each key.
    pub open spec fn chains(&self) -> Chains {
        self.data.chains()
    }

    /// The tables differ in their contents and memory usage alone.
    pub open spec fn same_identity(&self, other: &Self) -> bool {
        &&& self.id == other.id
        &&& self.name == other.name
        &&& self.memory_budget == other.memory_budget
    }

    /// An empty table with the default budget.
    pub fn new(id: TableId, name: String) -> (r: Self)
        ensures
            r.wf(),
            r.chains() == Map::<Seq<u8>, Seq<Version>>::empty(),
            r.id == id,
            r.name == name,
            r.memory_usage == 0,
            r.memory_budget == DEFAULT_BUDGET,
    {
        Self::with_budget(id, name, DEFAULT_BUDGET)
    }

    /// An empty table with a memory budget.
    pub fn with_budget(id: TableId, name: String, memory_budget: usize) -> (r: Self)
        ensures
            r.wf(),
            r.chains() == Map::<Seq<u8>, Seq<Version>>::empty(),
            r.id == id,
            r.name == name,
            r.memory_usage == 0,
            r.memory_budget == memory_budget,
    {
        Self::with_capacity_and_budget(id, name, 0, memory_budget)
    }

    /// An empty table with room for `capacity` keys and a memory budget.
    pub fn with_capacity_and_budget(
        id: TableId,
        name: String,
        capacity: usize,
        memory_budget: usize,
    ) -> (r: Self)
        ensures
            r.wf(),
            r.chains() == Map::<Seq<u8>, Seq<Version>>::empty(),
            r.id == id,
            r.name == name,
            r.memory_usage == 0,
            r.memory_budget == memory_budget,
    {
        let r = MemoryHashTable {
            id,
            name,
            data: ByteMap { entries: Vec::with_capacity(capacity) },
            memory_usage: 0,
            memory_budget,
        };
        assert(r.chains() =~= Map::<Seq<u8>, Seq<Version>>::empty());
        r
    }

    /// The value of `key` that a reader at `snapshot_lsn` gets. An empty value marks a deletion.
    pub fn get(&self, key: &[u8], snapshot_lsn: LogSequenceNumber) -> (r: TableResult<
        Option<ValueBuf>,
    >)
        requires
            self.wf(),
        ensures
            r is Ok,
            value_view(r->Ok_0) == read(self.chains(), key@, snapshot_lsn),
    {
        Ok(self.data.read(key, snapshot_lsn))
    }

    /// Puts a value that is committed at once. Returns the bytes written.
    pub fn put(
        &mut self,
        key: &[u8],
        value: &[u8],
        tx_id: TransactionId,
        commit_lsn: LogSequenceNumber,
    ) -> (r: TableResult<u64>)
        requires
            old(self).wf(),
            key@.len() + value@.len() + 16 <= usize::MAX,
        ensures
            final(self).wf(),
            final(self).same_identity(old(self)),
            final(self).chains() == with_committed_put(
                old(self).chains(),
                key@,
                value@,
                tx_id,
                commit_lsn,
            ),
            final(self).memory_usage as int == adjusted_usage(
                old(self).memory_usage as int,
                entry_size(old(self).chains(), key@),
                entry_size(final(self).chains(), key@),
            ),
            r == Ok::<u64, TableError>((key@.len() + value@.len() + 16) as u64),
            value@.len() > 0 ==> forall|k: Seq<u8>, l: LogSequenceNumber| #[trigger]
                read(final(self).chains(), k, l) == (if k == key@ && commit_lsn.0 <= l.0 {
                    Some(value@)
                } else {
                    read(old(self).chains(), k, l)
                }),
            final(self).chains().dom().len() == old(self).chains().dom().len() + (if old(
                self,
            ).chains().contains_key(key@) {
                0int
            } else {
                1int
            }),
    {
        let before: usize = self.data.entry_size(key);
        let mut chain = match self.data.remove(key) {
            Some(c) => c.prepend(copy_bytes(value), tx_id),
            None => VersionChain::new(copy_bytes(value), tx_id),
        };
        chain.commit(commit_lsn);
        assert(chain@ =~= seq![committed(pending(value@, tx_id), commit_lsn)] + chain_of(
            old(self).chains(),
            key@,
        ));
        self.data.insert(copy_bytes(key), chain);
        proof {
            assert(self.chains() =~= with_committed_put(
                old(self).chains(),
                key@,
                value@,
                tx_id,
                commit_lsn,
            ));
            old(self).lemma_finite();
            let m = old(self).chains();
            let m2 = self.chains();
            assert(m2.dom() =~= m.dom().insert(key@));
            if m.contains_key(key@) {
                assert(m.dom().insert(key@) =~= m.dom());
            }
            if value@.len() > 0 {
                assert forall|k: Seq<u8>, l: LogSequenceNumber| #[trigger] read(m2, k, l) == (if k
                    == key@ && commit_lsn.0 <= l.0 {
                    Some(value@)
                } else {
                    read(m, k, l)
                }) by {
                    law_put_is_read(m, key@, value@, tx_id, commit_lsn, k, l);
                }
            }
        }
        let after: usize = self.data.entry_size(key);
        self.memory_usage = adjust_usage(self.memory_usage, before, after);
        Ok((key.len() + value.len() + 16) as u64)
    }

    /// Commits every version that `tx_id` left pending.
    pub fn commit_versions(&mut self, tx_id: TransactionId, commit_lsn: LogSequenceNumber) -> (r:
        TableResult<()>)
        requires
            old(self).wf(),
        ensures
            final(self).wf(),
            final(self).same_identity(old(self)),
            final(self).memory_usage == old(self).memory_usage,
            final(self).chains() == with_commit(old(self).chains(), tx_id, commit_lsn),
            r is Ok,
    {
        self.data.commit_of(tx_id, commit_lsn);
        Ok(())
    }

    proof fn lemma_finite(&self)
        requires
            self.wf(),
        ensures
            self.chains().dom().finite(),
    {
        self.data.lemma_len();
        assert(self.chains().dom() =~= self.data@.dom());
    }

    /// Forgets a key with all its versions. Returns whether it was known.
    pub fn delete(&mut self, key: &[u8]) -> (r: TableResult<bool>)
        requires
            old(self).wf(),
        ensures
            final(self).wf(),
            final(self).same_identity(old(self)),
            final(self).chains() == old(self).chains().remove(key@),
            final(self).memory_usage as int == adjusted_usage(
                old(self).memory_usage as int,
                entry_size(old(self).chains(), key@),
                0,
            ),
            r == Ok::<bool, TableError>(old(self).chains().contains_key(key@)),
            forall|k: Seq<u8>, l: LogSequenceNumber| #[trigger]
                read(final(self).chains(), k, l) == (if k == key@ {
                    None
                } else {
                    read(old(self).chains(), k, l)
                }),
            final(self).chains().dom().len() == old(self).chains().dom().len() - (if old(
                self,
            ).chains().contains_key(key@) {
                1int
            } else {
                0int
            }),
    {
        let before: usize = self.data.entry_size(key);
        let known: bool = self.data.remove(key).is_some();
        self.memory_usage = adjust_usage(self.memory_usage, before, 0);
        proof {
            assert(self.chains() =~= old(self).chains().remove(key@));
            old(self).lemma_finite();
            assert forall|k: Seq<u8>, l: LogSequenceNumber| #[trigger]
                read(self.chains(), k, l) == (if k == key@ {
                    None
                } else {
                    read(old(self).chains(), k, l)
                }) by {
                law_deleted_key_is_gone(old(self).chains(), key@, k, l);
            }
            law_deleted_key_is_gone(old(self).chains(), key@, key@, LogSequenceNumber(0));
        }
        Ok(known)
    }

    /// Drops the versions that no reader at `min_visible_lsn` or later can see, but for one base
    /// version per key. Returns how many went.
    pub fn vacuum(&mut self, min_visible_lsn: LogSequenceNumber) -> (r: TableResult<usize>)
        requires
            old(self).wf(),
        ensures
            final(self).wf(),
            final(self).same_identity(old(self)),
            final(self).memory_usage == old(self).memory_usage,
            final(self).chains() == with_vacuum(old(self).chains(), min_visible_lsn),
            r is Ok,
            r->Ok_0 as int == saturated(
                version_total(old(self).chains()) - version_total(final(self).chains()),
            ),
    {
        Ok(self.data.vacuum(min_visible_lsn))
    }

    /// The number of keys.
    pub fn approximate_len(&self) -> (r: TableResult<Option<u64>>)
        requires
            self.wf(),
        ensures
            r == Ok::<Option<u64>, TableError>(Some(self.chains().dom().len() as u64)),
    {
        assert(self.chains().dom() =~= self.data@.dom());
        Ok(Some(self.data.len() as u64))
    }

    /// The values of several keys at once.
    pub fn batch_get(&self, keys: &[&[u8]], snapshot_lsn: LogSequenceNumber) -> (r: TableResult<
        Vec<Option<ValueBuf>>,
    >)
        requires
            self.wf(),
        ensures
            r is Ok,
            r->Ok_0@.len() == keys@.len(),
            forall|i: int|
                0 <= i < keys@.len() ==> value_view(#[trigger] r->Ok_0@[i]) == read(
                    self.chains(),
                    keys@[i]@,
                    snapshot_lsn,
                ),
    {
        let mut results: Vec<Option<ValueBuf>> = Vec::new();
        let mut i: usize = 0;
        while i < keys.len()
            invariant
                self.wf(),
                i <= keys@.len(),
                results@.len() == i,
                forall|j: int|
                    0 <= j < i ==> value_view(#[trigger] results@[j]) == read(
                        self.chains(),
                        keys@[j]@,
                        snapshot_lsn,
                    ),
            decreases keys@.len() - i,
        {
            results.push(self.data.read(keys[i], snapshot_lsn));
            i += 1;
        }
        Ok(results)
    }

    /// The identifier of the table.
    pub fn table_id(&self) -> (r: TableId)
        ensures
            r == self.id,
    {
        self.id
    }

    /// The name of the table.
    pub fn name(&self) -> (r: &str)
        ensures
            r@ == self.name@,
    {
        self.name.as_str()
    }

    /// The engine of the table.
    pub fn kind(&self) -> (r: TableEngineKind)
        ensures
            r == TableEngineKind::Hash,
    {
        TableEngineKind::Hash
    }

    /// What the table can do.
    pub fn capabilities(&self) -> (r: TableCapabilities)
        ensures
            r == (TableCapabilities {
                ordered: false,
                point_lookup: true,
                prefix_scan: false,
                reverse_scan: false,
                range_delete: false,
                merge_operator: false,
                mvcc_native: true,
                append_optimized: false,
                memory_resident: true,
                disk_resident: false,
                supports_compression: false,
                supports_encryption: false,
            }),
    {
        TableCapabilities {
            ordered: false,
            point_lookup: true,
            prefix_scan: false,
            reverse_scan: false,
            range_delete: false,
            merge_operator: false,
            mvcc_native: true,
            append_optimized: false,
            memory_resident: true,
            disk_resident: false,
            supports_compression: false,
            supports_encryption: false,
        }
    }

    /// What is known of the table's contents.
    pub fn stats(&self) -> (r: TableResult<TableStatistics>)
        requires
            self.wf(),
        ensures
            r == Ok::<TableStatistics, TableError>(
                TableStatistics {
                    row_count: Some(self.chains().dom().len() as u64),
                    page_count: None,
                    total_size_bytes: Some(self.memory_usage as u64),
                    key_stats: None,
                    value_stats: None,
                    last_updated_lsn: None,
                },
            ),
    {
        assert(self.chains().dom() =~= self.data@.dom());
        Ok(
            TableStatistics {
                row_count: Some(self.data.len() as u64),
                page_count: None,
                total_size_bytes: Some(self.memory_usage as u64),
                key_stats: None,
                value_stats: None,
                last_updated_lsn: None,
            },
        )
    }

    /// A reader at `snapshot_lsn`.
    pub fn reader(&self, snapshot_lsn: LogSequenceNumber) -> (r: TableResult<
        MemoryHashTableReader<'_>,
    >)
        ensures
            r is Ok,
            *r->Ok_0.table == *self,
            r->Ok_0.snapshot_lsn == snapshot_lsn,
    {
        Ok(MemoryHashTableReader { table: self, snapshot_lsn })
    }

    /// A writer for transaction `tx_id`.
    pub fn writer(&mut self, tx_id: TransactionId, snapshot_lsn: LogSequenceNumber) -> (r:
        TableResult<MemoryHashTableWriter<'_>>)
        ensures
            r is Ok,
            *r->Ok_0.table == *old(self),
            *final(self) == *final(r->Ok_0.table),
            r->Ok_0.tx_id == tx_id,
            r->Ok_0.snapshot_lsn == snapshot_lsn,
            r->Ok_0.pending_changes@.len() == 0,
    {
        Ok(
            MemoryHashTableWriter {
                table: self,
                tx_id,
                snapshot_lsn,
                pending_changes: Vec::new(),
            },
        )
    }
}

/// Reads a table at one point of the log.
pub struct MemoryHashTableReader<'a> {
    pub table: &'a MemoryHashTable,
    pub snapshot_lsn: LogSequenceNumber,
}

impl<'a> MemoryHashTableReader<'a> {
    /// The value of `key` that a reader at `snapshot_lsn` gets.
    pub fn get(&self, key: &[u8], snapshot_lsn: LogSequenceNumber) -> (r: TableResult<
        Option<ValueBuf>,
    >)
        requires
            self.table.wf(),
        ensures
            r is Ok,
            value_view(r->Ok_0) == read(self.table.chains(), key@, snapshot_lsn),
    {
        self.table.get(key, snapshot_lsn)
    }

    /// The point of the log that the reader was made for.
    pub fn snapshot_lsn(&self) -> (r: LogSequenceNumber)
        ensures
            r == self.snapshot_lsn,
    {
        self.snapshot_lsn
    }

    /// The number of keys.
    pub fn approximate_len(&self) -> (r: TableResult<Option<u64>>)
        requires
            self.table.wf(),
        ensures
            r == Ok::<Option<u64>, TableError>(Some(self.table.chains().dom().len() as u64)),
    {
        self.table.approximate_len()
    }
}

/// Collects the changes of one transaction.
pub struct MemoryHashTableWriter<'a> {
    pub table: &'a mut MemoryHashTable,
    pub tx_id: TransactionId,
    pub snapshot_lsn: LogSequenceNumber,
    pub pending_changes: Vec<(Vec<u8>, Option<Vec<u8>>)>,
}

/// The bytes that a put of the key and the value counts for.
pub open spec fn put_bytes(key: Seq<u8>, value: Seq<u8>) -> int {
    (key.len() + value.len() + 16) as int
}

/// The changes that a batch stands for: puts, and deletions of known keys.
pub open spec fn batch_changes(m: Chains, ms: Seq<Mutation>) -> Seq<Change>
    decreases ms.len(),
{
    if ms.len() == 0 {
        Seq::empty()
    } else {
        let before = batch_changes(m, ms.drop_last());
        match ms.last() {
            Mutation::Put { key, value } => before.push((key@, Some(value@))),
            Mutation::Delete { key } => if m.contains_key(key@) {
                before.push((key@, None))
            } else {
                before
            },
            _ => before,
        }
    }
}

/// The number of deletions among the changes.
pub open spec fn deletions(cs: Seq<Change>) -> int
    decreases cs.len(),
{
    if cs.len() == 0 {
        0
    } else {
        deletions(cs.drop_last()) + (if cs.last().1 is None {
            1int
        } else {
            0int
        })
    }
}

/// The bytes that the puts among the changes count for.
pub open spec fn bytes_put(cs: Seq<Change>) -> int
    decreases cs.len(),
{
    if cs.len() == 0 {
        0
    } else {
        bytes_put(cs.drop_last()) + match cs.last().1 {
            Some(v) => put_bytes(cs.last().0, v),
            None => 0,
        }
    }
}

/// A batch notes what its parts note, one after the other.
pub proof fn law_batch_in_parts(m: Chains, a: Seq<Mutation>, b: Seq<Mutation>)
    ensures
        batch_changes(m, a + b) == batch_changes(m, a) + batch_changes(m, b),
    decreases b.len(),
{
    if b.len() == 0 {
        assert(a + b =~= a);
        assert(batch_changes(m, a) + batch_changes(m, b) =~= batch_changes(m, a));
    } else {
        law_batch_in_parts(m, a, b.drop_last());
        assert((a + b).drop_last() =~= a + b.drop_last());
        assert((a + b).last() == b.last());
        assert(batch_changes(m, a + b) =~= batch_changes(m, a) + batch_changes(m, b));
    }
}

/// A put is noted, and so is a deletion of a key that the table knows; a deletion of another key,
/// of a range and a merge note nothing.
pub proof fn law_batch_of_one(m: Chains, mutation: Mutation)
    ensures
        batch_changes(m, seq![mutation]) == match mutation {
            Mutation::Put { key, value } => seq![(key@, Some(value@))],
            Mutation::Delete { key } => if m.contains_key(key@) {
                seq![(key@, None)]
            } else {
                Seq::empty()
            },
            _ => Seq::empty(),
        },
{
    reveal_with_fuel(batch_changes, 2);
    assert(seq![mutation].drop_last() =~= Seq::empty());
    assert(batch_changes(m, seq![mutation]) =~= match mutation {
        Mutation::Put { key, value } => seq![(key@, Some(value@))],
        Mutation::Delete { key } => if m.contains_key(key@) {
            seq![(key@, None)]
        } else {
            Seq::empty()
        },
        _ => Seq::empty(),
    });
}

/// The deletions among the changes are those without a value, and the bytes of the puts are those
/// of keys and values and sixteen for each.
pub proof fn law_changes_are_counted(a: Seq<Change>, c: Change, b: Seq<Change>)
    ensures
        deletions(a) == a.filter(|c: Change| c.1 is None).len(),
        bytes_put(Seq::empty()) == 0,
        bytes_put(seq![c]) == (match c.1 {
            Some(v) => c.0.len() + v.len() + 16,
            None => 0,
        }),
        bytes_put(a + b) == bytes_put(a) + bytes_put(b),
{
    reveal_with_fuel(bytes_put, 2);
    assert(seq![c].drop_last() =~= Seq::empty());
    lemma_deletions(a);
    lemma_bytes_in_parts(a, b);
}

proof fn lemma_deletions(a: Seq<Change>)
    ensures
        deletions(a) == a.filter(|c: Change| c.1 is None).len(),
    decreases a.len(),
{
    reveal(Seq::filter);
    if a.len() > 0 {
        lemma_deletions(a.drop_last());
    }
}

proof fn lemma_bytes_in_parts(a: Seq<Change>, b: Seq<Change>)
    ensures
        bytes_put(a + b) == bytes_put(a) + bytes_put(b),
    decreases b.len(),
{
    if b.len() == 0 {
        assert(a + b =~= a);
    } else {
        lemma_bytes_in_parts(a, b.drop_last());
        assert((a + b).drop_last() =~= a + b.drop_last());
        assert((a + b).last() == b.last());
    }
}

proof fn lemma_bytes_put_mono(m: Chains, ms: Seq<Mutation>, n: int)
    requires
        0 <= n <= ms.len(),
    ensures
        0 <= bytes_put(batch_changes(m, ms.take(n))) <= bytes_put(batch_changes(m, ms)),
    decreases ms.len() - n + ms.len(),
{
    lemma_bytes_put_nonneg(batch_changes(m, ms.take(n)));
    if n < ms.len() {
        lemma_bytes_put_mono(m, ms.drop_last(), n);
        assert(ms.drop_last().take(n) =~= ms.take(n));
        let before = batch_changes(m, ms.drop_last());
        match ms.last() {
            Mutation::Put { key, value } => {
                assert(batch_changes(m, ms).drop_last() =~= before);
            },
            Mutation::Delete { key } => {
                if m.contains_key(key@) {
                    assert(batch_changes(m, ms).drop_last() =~= before);
                }
            },
            _ => {},
        }
    } else {
        assert(ms.take(n) =~= ms);
    }
}

proof fn lemma_bytes_put_nonneg(cs: Seq<Change>)
    ensures
        bytes_put(cs) >= 0,
        0 <= deletions(cs) <= cs.len(),
    decreases cs.len(),
{
    if cs.len() > 0 {
        lemma_bytes_put_nonneg(cs.drop_last());
    }
}

proof fn lemma_batch_changes_len(m: Chains, ms: Seq<Mutation>)
    ensures
        batch_changes(m, ms).len() <= ms.len(),
    decreases ms.len(),
{
    if ms.len() > 0 {
        lemma_batch_changes_len(m, ms.drop_last());
    }
}

impl<'a> MemoryHashTableWriter<'a> {
    /// The changes that wait to be flushed.
    pub open spec fn changes(&self) -> Seq<Change> {
        changes_of(self.pending_changes@)
    }

    /// The versions of each key in the table.
    pub open spec fn base(&self) -> Chains {
        self.table.chains()
    }

    /// Notes a value to put. Returns the bytes it counts for.
    pub fn put(&mut self, key: &[u8], value: &[u8]) -> (r: TableResult<u64>)
        requires
            put_bytes(key@, value@) <= usize::MAX,
        ensures
            final(self).changes() == old(self).changes().push((key@, Some(value@))),
            *final(self).table == *old(self).table,
            *final(final(self).table) == *final(old(self).table),
            final(self).tx_id == old(self).tx_id,
            final(self).snapshot_lsn == old(self).snapshot_lsn,
            r == Ok::<u64, TableError>(put_bytes(key@, value@) as u64),
    {
        self.pending_changes.push((copy_bytes(key), Some(copy_bytes(value))));
        proof {
            assert(self.changes() =~= old(self).changes().push((key@, Some(value@))));
        }
        Ok((key.len() + value.len() + 16) as u64)
    }

    /// Notes a deletion, if the table knows the key. Returns whether it does.
    pub fn delete(&mut self, key: &[u8]) -> (r: TableResult<bool>)
        requires
            old(self).table.wf(),
        ensures
            final(self).changes() == (if old(self).table.chains().contains_key(key@) {
                old(self).changes().push((key@, None))
            } else {
                old(self).changes()
            }),
            *final(self).table == *old(self).table,
            *final(final(self).table) == *final(old(self).table),
            final(self).tx_id == old(self).tx_id,
            final(self).snapshot_lsn == old(self).snapshot_lsn,
            r == Ok::<bool, TableError>(old(self).table.chains().contains_key(key@)),
    {
        let known: bool = self.table.data.contains_key(key);
        if known {
            self.pending_changes.push((copy_bytes(key), None));
            proof {
                assert(self.changes() =~= old(self).changes().push((key@, None)));
            }
        }
        Ok(known)
    }

    /// Hash tables have no range operations: the request is always refused.
    pub fn range_delete(&mut self, _bounds: ScanBounds) -> (r: TableResult<u64>)
        ensures
            *final(self) == *old(self),
            r == Err::<u64, TableError>(TableError::OperationNotSupported),
    {
        Err(TableError::OperationNotSupported)
    }

    /// The values of several keys at the writer's snapshot.
    pub fn batch_get(&self, keys: &[&[u8]]) -> (r: TableResult<Vec<Option<ValueBuf>>>)
        requires
            self.table.wf(),
        ensures
            r is Ok,
            r->Ok_0@.len() == keys@.len(),
            forall|i: int|
                0 <= i < keys@.len() ==> value_view(#[trigger] r->Ok_0@[i]) == read(
                    self.base(),
                    keys@[i]@,
                    self.snapshot_lsn,
                ),
    {
        self.table.batch_get(keys, self.snapshot_lsn)
    }

    /// Notes the changes of a batch. Range deletions and merges are passed over.
    pub fn apply_batch(&mut self, batch: WriteBatch) -> (r: TableResult<BatchReport>)
        requires
            old(self).table.wf(),
            bytes_put(batch_changes(old(self).table.chains(), batch.mutations@)) <= usize::MAX,
        ensures
            final(self).changes() == old(self).changes() + batch_changes(
                old(self).table.chains(),
                batch.mutations@,
            ),
            *final(self).table == *old(self).table,
            *final(final(self).table) == *final(old(self).table),
            final(self).tx_id == old(self).tx_id,
            final(self).snapshot_lsn == old(self).snapshot_lsn,
            r == Ok::<BatchReport, TableError>(
                {
                    let cs = batch_changes(old(self).table.chains(), batch.mutations@);
                    BatchReport {
                        attempted: batch.mutations@.len() as u64,
                        applied: cs.len() as u64,
                        deleted: deletions(cs) as u64,
                        bytes_written: bytes_put(cs) as u64,
                    }
                },
            ),
    {
        let ghost m = self.table.chains();
        let ghost ms = batch.mutations@;
        let n: usize = batch.mutations.len();
        let mut report = BatchReport {
            attempted: n as u64,
            applied: 0,
            deleted: 0,
            bytes_written: 0,
        };
        let mut i: usize = 0;
        assert(ms.take(0) =~= Seq::empty());
        assert(self.changes() =~= old(self).changes() + batch_changes(m, ms.take(0)));
        while i < n
            invariant
                n == batch.mutations@.len(),
                ms == batch.mutations@,
                i <= n,
                m == old(self).table.chains(),
                self.table.wf(),
                bytes_put(batch_changes(m, ms)) <= usize::MAX,
                self.changes() == old(self).changes() + batch_changes(m, ms.take(i as int)),
                *self.table == *old(self).table,
                *final(self.table) == *final(old(self).table),
                self.tx_id == old(self).tx_id,
                self.snapshot_lsn == old(self).snapshot_lsn,
                report.attempted == n,
                report.applied == batch_changes(m, ms.take(i as int)).len(),
                report.deleted == deletions(batch_changes(m, ms.take(i as int))),
                report.bytes_written == bytes_put(batch_changes(m, ms.take(i as int))),
            decreases n - i,
        {
            let ghost done = batch_changes(m, ms.take(i as int));
            proof {
                assert(ms.take(i + 1).drop_last() =~= ms.take(i as int));
                lemma_bytes_put_mono(m, ms, i + 1);
                lemma_bytes_put_nonneg(done);
                lemma_batch_changes_len(m, ms.take(i as int));
            }
            match &batch.mutations[i] {
                Mutation::Put { key, value } => {
                    proof {
                        assert(done.push((key@, Some(value@))).drop_last() =~= done);
                    }
                    let bytes: u64 = (key.len() + value.len() + 16) as u64;
                    let _ = self.put(key.as_slice(), value.as_slice());
                    report.applied = report.applied + 1;
                    report.bytes_written = report.bytes_written + bytes;
                },
                Mutation::Delete { key } => {
                    proof {
                        assert(done.push((key@, None)).drop_last() =~= done);
                    }
                    let known: bool = self.table.data.contains_key(key.as_slice());
                    let _ = self.delete(key.as_slice());
                    if known {
                        report.deleted = report.deleted + 1;
                        report.applied = report.applied + 1;
                    }
                },
                Mutation::RangeDelete { .. } => {},
                Mutation::Merge { .. } => {},
            }
            proof {
                assert(self.changes() =~= old(self).changes() + batch_changes(m, ms.take(i + 1)));
            }
            i += 1;
        }
        proof {
            assert(ms.take(n as int) =~= ms);
        }
        Ok(report)
    }

    /// Writes the noted changes to the table as pending versions, in order.
    pub fn flush(&mut self) -> (r: TableResult<()>)
        requires
            old(self).table.wf(),
        ensures
            final(self).pending_changes@.len() == 0,
            final(self).table.wf(),
            final(self).table.same_identity(old(self).table),
            final(self).table.chains() == with_changes(
                old(self).table.chains(),
                old(self).changes(),
                old(self).tx_id,
            ),
            final(self).table.memory_usage as int == usage_after(
                old(self).table.chains(),
                old(self).table.memory_usage as int,
                old(self).changes(),
                old(self).tx_id,
            ),
            *final(final(self).table) == *final(old(self).table),
            final(self).tx_id == old(self).tx_id,
            final(self).snapshot_lsn == old(self).snapshot_lsn,
            r is Ok,
    {
        let ghost m = self.table.chains();
        let ghost cs = self.changes();
        let ghost usage = self.table.memory_usage as int;
        let n: usize = self.pending_changes.len();
        let mut i: usize = 0;
        assert(cs.take(0) =~= Seq::empty());
        while i < n
            invariant
                n == self.pending_changes@.len(),
                cs == self.changes(),
                i <= n,
                self.table.wf(),
                self.table.same_identity(old(self).table),
                self.table.chains() == with_changes(m, cs.take(i as int), self.tx_id),
                self.table.memory_usage as int == usage_after(
                    m,
                    usage,
                    cs.take(i as int),
                    self.tx_id,
                ),
                *final(self.table) == *final(old(self).table),
                self.tx_id == old(self).tx_id,
                self.snapshot_lsn == old(self).snapshot_lsn,
            decreases n - i,
        {
            proof {
                assert(cs.take(i + 1).drop_last() =~= cs.take(i as int));
                assert(cs.take(i + 1).last() == cs[i as int]);
            }
            let key = copy_bytes(self.pending_changes[i].0.as_slice());
            let before: usize = self.table.data.entry_size(key.as_slice());
            match &self.pending_changes[i].1 {
                Some(value) => {
                    let value = copy_bytes(value.as_slice());
                    self.table.data.push_version(copy_bytes(key.as_slice()), value, self.tx_id);
                },
                None => {
                    self.table.data.push_tombstone(copy_bytes(key.as_slice()), self.tx_id);
                },
            }
            let after: usize = self.table.data.entry_size(key.as_slice());
            self.table.memory_usage = adjust_usage(self.table.memory_usage, before, after);
            i += 1;
        }
        proof {
            assert(cs.take(n as int) =~= cs);
        }
        self.pending_changes.clear();
        Ok(())
    }

    /// Commits every version that this transaction left pending.
    pub fn commit_versions(&mut self, commit_lsn: LogSequenceNumber) -> (r: TableResult<()>)
        requires
            old(self).table.wf(),
        ensures
            final(self).table.wf(),
            final(self).table.same_identity(old(self).table),
            final(self).table.memory_usage == old(self).table.memory_usage,
            final(self).table.chains() == with_commit(
                old(self).table.chains(),
                old(self).tx_id,
                commit_lsn,
            ),
            *final(final(self).table) == *final(old(self).table),
            final(self).tx_id == old(self).tx_id,
            final(self).snapshot_lsn == old(self).snapshot_lsn,
            final(self).changes() == old(self).changes(),
            r is Ok,
    {
        self.table.commit_versions(self.tx_id, commit_lsn)
    }

    /// The transaction of the writer.
    pub fn tx_id(&self) -> (r: TransactionId)
        ensures
            r == self.tx_id,
    {
        self.tx_id
    }

    /// The point of the log that the writer was made for.
    pub fn snapshot_lsn(&self) -> (r: LogSequenceNumber)
        ensures
            r == self.snapshot_lsn,
    {
        self.snapshot_lsn
    }
}

/// A put is what every reader of the key from its commit on gets, be it that the value is not
/// empty. Earlier readers, and all readers of other keys, get what they got before, and the table
/// has one more key where the key is new.
pub proof fn law_put_is_read(
    m: Chains,
    key: Seq<u8>,
    value: Seq<u8>,
    tx: TransactionId,
    at: LogSequenceNumber,
    other: Seq<u8>,
    lsn: LogSequenceNumber,
)
    requires
        value.len() > 0,
        m.dom().finite(),
    ensures
        ({
            let after = with_committed_put(m, key, value, tx, at);
            &&& read(after, other, lsn) == (if other == key && at.0 <= lsn.0 {
                Some(value)
            } else {
                read(m, other, lsn)
            })
            &&& after.dom().len() == m.dom().len() + (if m.contains_key(key) {
                0int
            } else {
                1int
            })
        }),
{
    let after = with_committed_put(m, key, value, tx, at);
    assert(after[key].drop_first() =~= chain_of(m, key));
    assert(after[key][0] == committed(pending(value, tx), at));
    if other == key && lsn.0 < at.0 {
        assert(visible_at(after[key], lsn) == visible_at(chain_of(m, key), lsn));
    }
    assert(after.dom() =~= m.dom().insert(key));
    if m.contains_key(key) {
        assert(m.dom().insert(key) =~= m.dom());
    }
}

/// A deleted key is gone for every reader, whatever versions it had. Other keys stay, and the
/// table has one key less where the key was known.
pub proof fn law_deleted_key_is_gone(
    m: Chains,
    key: Seq<u8>,
    other: Seq<u8>,
    lsn: LogSequenceNumber,
)
    requires
        m.dom().finite(),
    ensures
        read(m.remove(key), other, lsn) == (if other == key {
            None
        } else {
            read(m, other, lsn)
        }),
        m.remove(key).dom().len() == m.dom().len() - (if m.contains_key(key) {
            1int
        } else {
            0int
        }),
{
    assert(m.remove(key).dom() =~= m.dom().remove(key));
    if !m.contains_key(key) {
        assert(m.dom().remove(key) =~= m.dom());
    }
}

/// Putting a new key and deleting it again leaves the keys and the memory count as they were, as
/// long as the count does not reach its limit in between.
pub proof fn law_delete_undoes_put(
    m: Chains,
    usage: int,
    key: Seq<u8>,
    value: Seq<u8>,
    tx: TransactionId,
    at: LogSequenceNumber,
)
    requires
        !m.contains_key(key),
        usage >= 0,
        usage + entry_size(with_committed_put(m, key, value, tx, at), key) <= usize::MAX,
    ensures
        ({
            let put = with_committed_put(m, key, value, tx, at);
            let size = entry_size(put, key);
            &&& put.remove(key) == m
            &&& adjusted_usage(adjusted_usage(usage, entry_size(m, key), size), size, 0) == usage
        }),
{
    let put = with_committed_put(m, key, value, tx, at);
    assert(put.remove(key) =~= m);
    lemma_versions_size(put[key]);
}

} // verus!
