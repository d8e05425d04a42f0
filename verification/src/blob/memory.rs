//! Blobs in memory, with versions.
use crate::btree::memory::DEFAULT_BUDGET;
use crate::bytemap::ByteMap;
use crate::bytes::copy_bytes;
use crate::mvcc::{
    chain_of, snapshot_read, version_total, with_commit, with_put, with_vacuum, Chains,
};
use crate::snap::Snapshot;
use crate::table::{TableCapabilities, TableEngineKind, TableError, TableResult, TableStatistics};
use crate::txn::{adjusted_usage, latest_committed, saturated, Version, VersionChain};
use crate::types::{value_view, LogSequenceNumber, TableId, TransactionId, ValueBuf};
use crate::wire::{blob_record, blob_record_of, read_blob_record, write_blob_record};
use vstd::prelude::*;

verus! {

/// The largest blob of a table that is given no limit: 16 MiB.
pub const DEFAULT_MAX_BLOB_SIZE: u64 = 16777216;

/// The size below which blobs should stand elsewhere: 4 KiB.
pub const DEFAULT_INLINE_THRESHOLD: usize = 4096;

/// What an entry takes beside key and blob.
pub const ENTRY_OVERHEAD: usize = 48;

/// Blobs in memory.
pub struct MemoryBlob {
    pub id: TableId,
    pub name: String,
    /// The versions of each key; each is a record of a blob and its size.
    pub metadata: ByteMap<VersionChain>,
    pub memory_usage: usize,
    pub memory_budget: usize,
    pub max_blob_size: u64,
    pub inline_threshold: usize,
}

/// The size in the record of a deletion: more than the empty blob beside it has.
pub const DELETED_SIZE: u64 = 1;

/// The blob of a record, or that the record cannot be read. An empty blob of another size than
/// zero marks a deletion.
pub open spec fn blob_of(record: Option<Seq<u8>>) -> TableResult<Option<Seq<u8>>> {
    match record {
        None => Ok(None),
        Some(b) => match blob_record_of(b) {
            Some((data, size)) => if data.len() == 0 && size != 0 {
                Ok(None)
            } else {
                Ok(Some(data))
            },
            None => Err(TableError::Serialization),
        },
    }
}

/// The length of the newest committed blob whose record can be read.
pub open spec fn committed_len(vs: Seq<Version>) -> Option<nat>
    decreases vs.len(),
{
    if vs.len() == 0 {
        None
    } else if vs[0].commit_lsn is Some && blob_record_of(vs[0].value) is Some {
        Some(blob_record_of(vs[0].value)->Some_0.0.len())
    } else {
        committed_len(vs.drop_first())
    }
}

/// The length that counts is that of the newest committed blob whose record can be read.
pub proof fn law_newest_blob_counts(vs: Seq<Version>, n: int)
    requires
        0 <= n < vs.len(),
        vs[n].commit_lsn is Some,
        blob_record_of(vs[n].value) is Some,
        forall|i: int|
            0 <= i < n ==> (#[trigger] vs[i]).commit_lsn is None || blob_record_of(
                vs[i].value,
            ) is None,
    ensures
        committed_len(vs) == Some(blob_record_of(vs[n].value)->Some_0.0.len()),
    decreases n,
{
    if n > 0 {
        assert(vs[0].commit_lsn is None || blob_record_of(vs[0].value) is None);
        let rest = vs.drop_first();
        assert forall|i: int| 0 <= i < n - 1 implies (#[trigger] rest[i]).commit_lsn is None
            || blob_record_of(rest[i].value) is None by {
            assert(rest[i] == vs[i + 1]);
        }
        law_newest_blob_counts(rest, n - 1);
    }
}

/// What an entry takes in memory, by estimate.
pub open spec fn blob_entry_size(key: Seq<u8>, len: nat) -> int {
    key.len() + len + ENTRY_OVERHEAD
}

/// What the committed blob of a key takes in memory, by estimate.
pub open spec fn held_size(m: Chains, key: Seq<u8>) -> int {
    match committed_len(chain_of(m, key)) {
        Some(len) => blob_entry_size(key, len),
        None => 0,
    }
}

/// The usage that a budget is held against: one below zero counts as none.
pub open spec fn counted_usage(usage: int) -> int {
    if usage < 0 {
        0
    } else {
        usage
    }
}

/// The outcome of reading a record: an empty blob of another size than zero marks a deletion.
pub fn decoded_blob(record: Option<(Vec<u8>, u64)>) -> (r: TableResult<Option<ValueBuf>>)
    ensures
        r is Ok <==> record is Some,
        r matches Ok(v) ==> value_view(v) == (if record->Some_0.0@.len() == 0 && record->Some_0.1 != 0 {
            None
        } else {
            Some(record->Some_0.0@)
        }),
        r matches Err(e) ==> e == TableError::Serialization,
{
    match record {
        Some((data, size)) => if data.len() == 0 && size != 0 {
            Ok(None)
        } else {
            Ok(Some(ValueBuf(data)))
        },
        None => Err(TableError::Serialization),
    }
}

fn read_blob(record: Option<&[u8]>) -> (r: TableResult<Option<ValueBuf>>)
    ensures
        match record {
            None => r == Ok::<Option<ValueBuf>, TableError>(None),
            Some(b) => {
                &&& r is Ok <==> blob_of(Some(b@)) is Ok
                &&& r matches Ok(v) ==> value_view(v) == blob_of(Some(b@))->Ok_0
                &&& r matches Err(e) ==> blob_of(Some(b@))->Err_0 == e
            },
        },
{
    match record {
        Some(b) => decoded_blob(read_blob_record(b)),
        None => Ok(None),
    }
}

fn committed_length(chain: &VersionChain) -> (r: Option<usize>)
    ensures
        match r {
            Some(n) => committed_len(chain@) == Some(n as nat),
            None => committed_len(chain@) is None,
        },
    decreases chain,
{
    proof {
        chain.lemma_view();
    }
    if chain.commit_lsn.is_some() {
        match read_blob_record(chain.value.as_slice()) {
            Some((data, _)) => return Some(data.len()),
            None => {},
        }
    }
    let ghost vs = chain@;
    assert(committed_len(vs) == committed_len(vs.drop_first()));
    match &chain.prev_version {
        Some(prev) => {
            assert(vs.drop_first() == prev@);
            committed_length(prev)
        },
        None => {
            assert(vs.drop_first() =~= Seq::empty());
            None
        },
    }
}

impl MemoryBlob {
    /// The keys of the index ascend.
    pub open spec fn wf(&self) -> bool {
        self.metadata.wf()
    }

    /// The versions of each key.
    pub open spec fn chains(&self) -> Chains {
        self.metadata.chains()
    }

    /// The tables have the same name and limits.
    pub open spec fn same_identity(&self, other: &Self) -> bool {
        &&& self.id == other.id
        &&& self.name == other.name
        &&& self.memory_budget == other.memory_budget
        &&& self.max_blob_size == other.max_blob_size
        &&& self.inline_threshold == other.inline_threshold
    }

    /// An empty table with the default limits.
    pub fn new(id: TableId, name: String) -> (r: Self)
        ensures
            r.wf(),
            r.chains() == Map::<Seq<u8>, Seq<Version>>::empty(),
            r.id == id,
            r.name == name,
            r.memory_usage == 0,
            r.memory_budget == DEFAULT_BUDGET,
            r.max_blob_size == DEFAULT_MAX_BLOB_SIZE,
            r.inline_threshold == DEFAULT_INLINE_THRESHOLD,
    {
        Self::with_config(id, name, DEFAULT_BUDGET, DEFAULT_MAX_BLOB_SIZE, DEFAULT_INLINE_THRESHOLD)
    }

    /// An empty table with the given limits.
    pub fn with_config(
        id: TableId,
        name: String,
        memory_budget: usize,
        max_blob_size: u64,
        inline_threshold: usize,
    ) -> (r: Self)
        ensures
            r.wf(),
            r.chains() == Map::<Seq<u8>, Seq<Version>>::empty(),
            r.id == id,
            r.name == name,
            r.memory_usage == 0,
            r.memory_budget == memory_budget,
            r.max_blob_size == max_blob_size,
            r.inline_threshold == inline_threshold,
    {
        let r = MemoryBlob {
            id,
            name,
            metadata: ByteMap::new(),
            memory_usage: 0,
            memory_budget,
            max_blob_size,
            inline_threshold,
        };
        assert(r.chains() =~= Map::<Seq<u8>, Seq<Version>>::empty());
        r
    }

    /// The newest committed blob of a key, none if it is deleted.
    pub fn get(&self, key: &[u8]) -> (r: TableResult<Option<ValueBuf>>)
        requires
            self.wf(),
        ensures
            ({
                let found = blob_of(latest_committed(chain_of(self.chains(), key@)));
                &&& r is Ok <==> found is Ok
                &&& r matches Ok(v) ==> value_view(v) == found->Ok_0
                &&& r matches Err(e) ==> found->Err_0 == e
            }),
    {
        match self.metadata.get(key) {
            Some(chain) => read_blob(chain.latest_committed()),
            None => Ok(None),
        }
    }

    /// The blob of a key that the snapshot sees, none if it is deleted.
    pub fn get_snapshot(&self, key: &[u8], snapshot: &Snapshot) -> (r: TableResult<
        Option<ValueBuf>,
    >)
        requires
            self.wf(),
        ensures
            ({
                let found = blob_of(
                    snapshot_read(self.chains(), key@, snapshot.lsn, snapshot.active_txns@),
                );
                &&& r is Ok <==> found is Ok
                &&& r matches Ok(v) ==> value_view(v) == found->Ok_0
                &&& r matches Err(e) ==> found->Err_0 == e
            }),
    {
        read_blob(self.metadata.visible(key, snapshot))
    }

    /// Puts a blob outside of any transaction, under the transaction number zero.
    pub fn put(&mut self, key: &[u8], value: &[u8]) -> (r: TableResult<u64>)
        requires
            old(self).wf(),
            key@.len() + value@.len() + ENTRY_OVERHEAD <= usize::MAX,
        ensures
            final(self).wf(),
            final(self).same_identity(old(self)),
            final(self).is_put(old(self), key@, value@, TransactionId(0), r),
            forall|k: Seq<u8>| #[trigger]
                latest_committed(chain_of(final(self).chains(), k)) == latest_committed(
                    chain_of(old(self).chains(), k),
                ),
    {
        self.put_tx(key, value, TransactionId(0))
    }

    /// The usage after a blob was put.
    pub open spec fn usage_with(&self, key: Seq<u8>, value: Seq<u8>) -> int {
        self.memory_usage + blob_entry_size(key, value.len()) - held_size(self.chains(), key)
    }

    /// The table after a blob was put or refused, with the outcome.
    pub open spec fn is_put(
        &self,
        before: &Self,
        key: Seq<u8>,
        value: Seq<u8>,
        tx: TransactionId,
        r: TableResult<u64>,
    ) -> bool {
        if value.len() > before.max_blob_size {
            &&& r == Err::<u64, TableError>(
                TableError::ValueTooLarge {
                    size: value.len() as usize,
                    max: before.max_blob_size as usize,
                },
            )
            &&& *self == *before
        } else if counted_usage(before.usage_with(key, value)) > before.memory_budget {
            &&& r == Err::<u64, TableError>(
                TableError::MemoryBudgetExceeded {
                    usage: saturated(counted_usage(before.usage_with(key, value))) as usize,
                    budget: before.memory_budget,
                },
            )
            &&& *self == *before
        } else {
            &&& r == Ok::<u64, TableError>((value.len() + key.len() + 16) as u64)
            &&& self.chains() == with_put(
                before.chains(),
                key,
                blob_record(value, value.len() as u64),
                tx,
            )
            &&& blob_record_of(blob_record(value, value.len() as u64)) == Some(
                (value, value.len() as u64),
            )
            &&& self.memory_usage == adjusted_usage(
                before.memory_usage as int,
                held_size(before.chains(), key),
                blob_entry_size(key, value.len()),
            )
        }
    }

    /// Puts a blob, unless it is too large or would exceed the memory budget.
    pub fn put_tx(&mut self, key: &[u8], value: &[u8], tx_id: TransactionId) -> (r: TableResult<
        u64,
    >)
        requires
            old(self).wf(),
            key@.len() + value@.len() + ENTRY_OVERHEAD <= usize::MAX,
        ensures
            final(self).wf(),
            final(self).same_identity(old(self)),
            final(self).is_put(old(self), key@, value@, tx_id, r),
            forall|k: Seq<u8>| #[trigger]
                latest_committed(chain_of(final(self).chains(), k)) == latest_committed(
                    chain_of(old(self).chains(), k),
                ),
    {
        if value.len() as u64 > self.max_blob_size {
            return Err(
                TableError::ValueTooLarge { size: value.len(), max: self.max_blob_size as usize },
            );
        }
        let record = write_blob_record(value, value.len() as u64);
        let new_size: usize = key.len() + value.len() + ENTRY_OVERHEAD;
        let held: Option<usize> = match self.metadata.get(key) {
            Some(chain) => committed_length(chain),
            None => {
                assert(committed_len(Seq::empty()) is None);
                None
            },
        };
        let old_size: i128 = match held {
            Some(n) => key.len() as i128 + n as i128 + ENTRY_OVERHEAD as i128,
            None => 0,
        };
        let usage: i128 = self.memory_usage as i128 + new_size as i128 - old_size;
        let counted: i128 = if usage < 0 {
            0
        } else {
            usage
        };
        if counted > self.memory_budget as i128 {
            let shown: usize = if counted > usize::MAX as i128 {
                usize::MAX
            } else {
                counted as usize
            };
            return Err(
                TableError::MemoryBudgetExceeded { usage: shown, budget: self.memory_budget },
            );
        }
        self.metadata.push_version(copy_bytes(key), record, tx_id);
        self.memory_usage = counted as usize;
        proof {
            let m = old(self).chains();
            let m2 = self.chains();
            assert(m2[key@].drop_first() =~= chain_of(m, key@));
            assert forall|k: Seq<u8>| #[trigger] latest_committed(chain_of(m2, k))
                == latest_committed(chain_of(m, k)) by {
                if k != key@ {
                    assert(chain_of(m2, k) == chain_of(m, k));
                }
            }
        }
        Ok(value.len() as u64 + key.len() as u64 + 16)
    }
}

impl MemoryBlob {
    /// Deletes a key outside of any transaction, under the transaction number zero.
    pub fn delete(&mut self, key: &[u8]) -> (r: TableResult<bool>)
        requires
            old(self).wf(),
            key@.len() + ENTRY_OVERHEAD <= usize::MAX,
        ensures
            final(self).wf(),
            final(self).same_identity(old(self)),
            final(self).is_deleted(old(self), key@, TransactionId(0), r),
    {
        self.delete_tx(key, TransactionId(0))
    }

    /// The table after a key was deleted, with the outcome.
    pub open spec fn is_deleted(
        &self,
        before: &Self,
        key: Seq<u8>,
        tx: TransactionId,
        r: TableResult<bool>,
    ) -> bool {
        &&& r == Ok::<bool, TableError>(before.chains().contains_key(key))
        &&& if before.chains().contains_key(key) {
            &&& self.chains() == with_put(
                before.chains(),
                key,
                blob_record(Seq::empty(), DELETED_SIZE),
                tx,
            )
            &&& blob_record_of(blob_record(Seq::empty(), DELETED_SIZE)) == Some(
                (Seq::<u8>::empty(), DELETED_SIZE),
            )
            &&& self.memory_usage == adjusted_usage(
                before.memory_usage as int,
                blob_entry_size(key, 0),
                0,
            )
        } else {
            *self == *before
        }
    }

    /// Marks a known key as deleted by a record that no put writes. Returns whether it is known.
    pub fn delete_tx(&mut self, key: &[u8], tx_id: TransactionId) -> (r: TableResult<bool>)
        requires
            old(self).wf(),
            key@.len() + ENTRY_OVERHEAD <= usize::MAX,
        ensures
            final(self).wf(),
            final(self).same_identity(old(self)),
            final(self).is_deleted(old(self), key@, tx_id, r),
    {
        if !self.metadata.contains_key(key) {
            return Ok(false);
        }
        let nothing: Vec<u8> = Vec::new();
        assert(nothing@ =~= Seq::<u8>::empty());
        let record = write_blob_record(nothing.as_slice(), DELETED_SIZE);
        self.metadata.push_version(copy_bytes(key), record, tx_id);
        self.memory_usage = self.memory_usage.saturating_sub(key.len() + ENTRY_OVERHEAD);
        Ok(true)
    }

    /// Commits every version that the transaction left pending.
    pub fn commit_versions(&mut self, tx_id: TransactionId, commit_lsn: LogSequenceNumber) -> (r:
        TableResult<()>)
        requires
            old(self).wf(),
        ensures
            r is Ok,
            final(self).wf(),
            final(self).same_identity(old(self)),
            final(self).memory_usage == old(self).memory_usage,
            final(self).chains() == with_commit(old(self).chains(), tx_id, commit_lsn),
    {
        self.metadata.commit_of(tx_id, commit_lsn);
        Ok(())
    }

    /// Drops the versions that no reader at `min_visible_lsn` or later can see, but for one base
    /// version per key. Returns how many went.
    pub fn vacuum(&mut self, min_visible_lsn: LogSequenceNumber) -> (r: TableResult<usize>)
        requires
            old(self).wf(),
        ensures
            r is Ok,
            r->Ok_0 as int == saturated(
                version_total(old(self).chains()) - version_total(final(self).chains()),
            ),
            final(self).wf(),
            final(self).same_identity(old(self)),
            final(self).memory_usage == old(self).memory_usage,
            final(self).chains() == with_vacuum(old(self).chains(), min_visible_lsn),
    {
        Ok(self.metadata.vacuum(min_visible_lsn))
    }

    /// The size below which blobs should stand elsewhere.
    pub fn max_inline_size(&self) -> (r: usize)
        ensures
            r == self.inline_threshold,
    {
        self.inline_threshold
    }

    /// The largest blob that can be put.
    pub fn max_value_size(&self) -> (r: u64)
        ensures
            r == self.max_blob_size,
    {
        self.max_blob_size
    }

    /// The identifier of the table.
    pub fn table_id(&self) -> (r: TableId)
        ensures
            r == self.id,
    {
        self.id
    }

    /// The name of the table.
    pub fn name(&self) -> (r: &str)
        ensures
            r@ == self.name@,
    {
        self.name.as_str()
    }

    /// The engine of the table.
    pub fn kind(&self) -> (r: TableEngineKind)
        ensures
            r == TableEngineKind::Blob,
    {
        TableEngineKind::Blob
    }

    /// What the table can do.
    pub fn capabilities(&self) -> (r: TableCapabilities)
        ensures
            r == (TableCapabilities {
                ordered: false,
                point_lookup: true,
                prefix_scan: false,
                reverse_scan: false,
                range_delete: false,
                merge_operator: false,
                mvcc_native: true,
                append_optimized: false,
                memory_resident: true,
                disk_resident: false,
                supports_compression: false,
                supports_encryption: false,
            }),
    {
        TableCapabilities {
            ordered: false,
            point_lookup: true,
            prefix_scan: false,
            reverse_scan: false,
            range_delete: false,
            merge_operator: false,
            mvcc_native: true,
            append_optimized: false,
            memory_resident: true,
            disk_resident: false,
            supports_compression: false,
            supports_encryption: false,
        }
    }

    /// What is known of the table's contents.
    pub fn stats(&self) -> (r: TableResult<TableStatistics>)
        requires
            self.wf(),
        ensures
            r == Ok::<TableStatistics, TableError>(
                TableStatistics {
                    row_count: Some(self.chains().dom().len() as u64),
                    page_count: None,
                    total_size_bytes: Some(self.memory_usage as u64),
                    key_stats: None,
                    value_stats: None,
                    last_updated_lsn: Some(LogSequenceNumber(0)),
                },
            ),
    {
        assert(self.chains().dom() =~= self.metadata@.dom());
        Ok(
            TableStatistics {
                row_count: Some(self.metadata.len() as u64),
                page_count: None,
                total_size_bytes: Some(self.memory_usage as u64),
                key_stats: None,
                value_stats: None,
                last_updated_lsn: Some(LogSequenceNumber(0)),
            },
        )
    }
}

/// A blob that was put and committed is what the table gives back, to plain readers and to every
/// snapshot from the commit on that does not hide the transaction.
pub proof fn law_committed_blob_is_read(
    before: MemoryBlob,
    put: MemoryBlob,
    key: Seq<u8>,
    value: Seq<u8>,
    tx: TransactionId,
    r: TableResult<u64>,
    at: LogSequenceNumber,
    lsn: LogSequenceNumber,
    active: Seq<TransactionId>,
)
    requires
        put.is_put(&before, key, value, tx, r),
        r is Ok,
        at.0 <= lsn.0,
        !active.contains(tx),
    ensures
        ({
            let after = with_commit(put.chains(), tx, at);
            let found = Some(value);
            &&& blob_of(latest_committed(chain_of(after, key))) == Ok::<
                Option<Seq<u8>>,
                TableError,
            >(found)
            &&& blob_of(snapshot_read(after, key, lsn, active)) == Ok::<
                Option<Seq<u8>>,
                TableError,
            >(found)
        }),
{
    let after = with_commit(put.chains(), tx, at);
    let record = blob_record(value, value.len() as u64);
    assert(put.chains()[key][0] == crate::txn::pending(record, tx));
    assert(after[key][0] == crate::txn::committed(crate::txn::pending(record, tx), at));
}

/// A deletion hides a key from its commit on, and changes nothing before.
pub proof fn law_committed_deletion_hides(
    before: MemoryBlob,
    deleted: MemoryBlob,
    key: Seq<u8>,
    tx: TransactionId,
    r: TableResult<bool>,
    at: LogSequenceNumber,
    lsn: LogSequenceNumber,
)
    requires
        deleted.is_deleted(&before, key, tx, r),
        before.chains().contains_key(key),
    ensures
        r == Ok::<bool, TableError>(true),
        latest_committed(chain_of(deleted.chains(), key)) == latest_committed(
            chain_of(before.chains(), key),
        ),
        ({
            let after = with_commit(deleted.chains(), tx, at);
            &&& blob_of(latest_committed(chain_of(after, key))) == Ok::<
                Option<Seq<u8>>,
                TableError,
            >(None)
            &&& at.0 <= lsn.0 ==> blob_of(snapshot_read(after, key, lsn, Seq::empty())) == Ok::<
                Option<Seq<u8>>,
                TableError,
            >(None)
            &&& lsn.0 < at.0 ==> snapshot_read(after, key, lsn, Seq::empty()) == snapshot_read(
                before.chains(),
                key,
                lsn,
                Seq::empty(),
            )
        }),
{
    let after = with_commit(deleted.chains(), tx, at);
    let record = blob_record(Seq::empty(), DELETED_SIZE);
    let vs = deleted.chains()[key];
    assert(vs[0] == crate::txn::pending(record, tx));
    assert(vs.drop_first() =~= before.chains()[key]);
    assert(after[key][0] == crate::txn::committed(crate::txn::pending(record, tx), at));
    crate::txn::lemma_committed_is_visible(before.chains()[key], record, tx, at, lsn);
    assert(vs =~= seq![crate::txn::pending(record, tx)] + before.chains()[key]);
}

/// A put of a new key fails exactly where the blob is larger than allowed or does not fit the
/// budget, and then changes nothing. Otherwise it counts what the entry takes, and no reader gets
/// anything else than before until it is committed.
pub proof fn law_put_of_a_new_key(
    before: MemoryBlob,
    after: MemoryBlob,
    key: Seq<u8>,
    value: Seq<u8>,
    tx: TransactionId,
    r: TableResult<u64>,
    other: Seq<u8>,
)
    requires
        after.is_put(&before, key, value, tx, r),
        !before.chains().contains_key(key),
    ensures
        ({
            let cost = key.len() + value.len() + ENTRY_OVERHEAD;
            &&& r is Err <==> value.len() > before.max_blob_size || before.memory_usage + cost
                > before.memory_budget
            &&& r is Err ==> after == before
            &&& r is Ok ==> r->Ok_0 == (key.len() + value.len() + 16) as u64
            &&& r is Ok ==> after.memory_usage == before.memory_usage + cost
            &&& latest_committed(chain_of(after.chains(), other)) == latest_committed(
                chain_of(before.chains(), other),
            )
        }),
{
    assert(committed_len(chain_of(before.chains(), key)) is None);
    if r is Ok && other == key {
        let vs = after.chains()[key];
        assert(vs.drop_first() =~= chain_of(before.chains(), key));
    }
}

/// A put over a committed blob of `len` bytes fails exactly where the new blob is larger than
/// allowed or does not fit the budget in place of the old one, and then changes nothing. Otherwise
/// the usage grows or shrinks by the difference of the two.
pub proof fn law_put_over_a_blob(
    before: MemoryBlob,
    after: MemoryBlob,
    key: Seq<u8>,
    value: Seq<u8>,
    tx: TransactionId,
    r: TableResult<u64>,
    len: nat,
)
    requires
        after.is_put(&before, key, value, tx, r),
        committed_len(chain_of(before.chains(), key)) == Some(len),
        before.memory_usage >= key.len() + len + 48,
    ensures
        ({
            let usage = before.memory_usage - len + value.len();
            &&& r is Err <==> value.len() > before.max_blob_size || usage > before.memory_budget
            &&& r is Err ==> after == before
            &&& r is Ok ==> after.memory_usage == usage
        }),
{
}

} // verus!
