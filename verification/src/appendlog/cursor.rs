//! An append log as a table: statistics, plain puts and deletions, and scans.
use crate::appendlog::log::AppendLog;
use crate::btree::memory::{is_proper, keys_where, law_keys_are_picked_in_order};
use crate::bytes::copy_bytes;
use crate::mvcc::Chains;
use crate::table::{TableCapabilities, TableEngineKind, TableError, TableResult, TableStatistics};
use crate::txn::{Version, VersionChain};
use crate::types::{LogSequenceNumber, ScanBounds, TableId};
use vstd::prelude::*;

verus! {

/// A version of the chain was committed at that point.
pub open spec fn commits_at(vs: Seq<Version>, lsn: LogSequenceNumber) -> bool {
    exists|i: int| 0 <= i < vs.len() && (#[trigger] vs[i]).commit_lsn == Some(lsn)
}

/// A version of some key was committed at that point.
pub open spec fn has_commit(m: Chains, lsn: LogSequenceNumber) -> bool {
    exists|k: Seq<u8>| #[trigger] m.contains_key(k) && commits_at(m[k], lsn)
}

/// The newest commit among all versions, if there is one.
pub open spec fn is_newest_commit(m: Chains, r: Option<LogSequenceNumber>) -> bool {
    match r {
        Some(l) => has_commit(m, l) && forall|x: LogSequenceNumber| #[trigger]
            has_commit(m, x) ==> x.0 <= l.0,
        None => forall|x: LogSequenceNumber| !#[trigger] has_commit(m, x),
    }
}

/// The newest commit among the versions of a chain, if there is one.
pub open spec fn is_newest_of(vs: Seq<Version>, r: Option<LogSequenceNumber>) -> bool {
    match r {
        Some(l) => commits_at(vs, l) && forall|x: LogSequenceNumber| #[trigger]
            commits_at(vs, x) ==> x.0 <= l.0,
        None => forall|x: LogSequenceNumber| !#[trigger] commits_at(vs, x),
    }
}

fn latest_chain_lsn(chain: &VersionChain) -> (r: Option<LogSequenceNumber>)
    ensures
        is_newest_of(chain@, r),
    decreases chain,
{
    proof {
        chain.lemma_view();
    }
    let older: Option<LogSequenceNumber> = match &chain.prev_version {
        Some(prev) => latest_chain_lsn(prev),
        None => None,
    };
    proof {
        let vs = chain@;
        assert(is_newest_of(chain.older(), older)) by {
            if chain.prev_version is None {
                assert forall|x: LogSequenceNumber| !#[trigger] commits_at(chain.older(), x) by {}
            }
        }
        assert forall|x: LogSequenceNumber| #[trigger]
            commits_at(vs, x) <==> chain.commit_lsn == Some(x) || commits_at(chain.older(), x) by {
            if commits_at(vs, x) {
                let i = choose|i: int|
                    0 <= i < vs.len() && (#[trigger] vs[i]).commit_lsn == Some(x);
                if i > 0 {
                    assert(chain.older()[i - 1] == vs[i]);
                }
            }
            if commits_at(chain.older(), x) {
                let i = choose|i: int|
                    0 <= i < chain.older().len() && (
                    #[trigger] chain.older()[i]).commit_lsn == Some(x);
                assert(vs[i + 1] == chain.older()[i]);
            }
            if chain.commit_lsn == Some(x) {
                assert(vs[0].commit_lsn == Some(x));
            }
        }
    }
    match (chain.commit_lsn, older) {
        (Some(a), Some(b)) => if a.0 >= b.0 {
            Some(a)
        } else {
            Some(b)
        },
        (Some(a), None) => Some(a),
        (None, b) => b,
    }
}

impl AppendLog {
    fn newest_commit(&self) -> (r: Option<LogSequenceNumber>)
        requires
            self.versions.wf(),
        ensures
            is_newest_commit(self.chains(), r),
    {
        let mut newest: Option<LogSequenceNumber> = None;
        let ghost m = self.chains();
        let ghost keys = self.versions.keys();
        let n: usize = self.versions.entries.len();
        let mut i: usize = 0;
        while i < n
            invariant
                n == self.versions.entries@.len() == keys.len(),
                m == self.chains(),
                keys == self.versions.keys(),
                self.versions.wf(),
                i <= n,
                newest matches Some(l) ==> has_commit(m, l),
                forall|j: int, x: LogSequenceNumber|
                    0 <= j < i && #[trigger] commits_at(m[keys[j]], x) ==> newest is Some && x.0
                        <= newest->Some_0.0,
            decreases n - i,
        {
            proof {
                self.versions.lemma_entry(i as int);
                assert(self.versions@.contains_key(keys[i as int]));
                assert(m.contains_key(keys[i as int]));
            }
            let found = latest_chain_lsn(&self.versions.entries[i].1);
            match (newest, found) {
                (Some(a), Some(b)) => {
                    if b.0 > a.0 {
                        newest = found;
                    }
                },
                (None, Some(_)) => {
                    newest = found;
                },
                _ => {},
            }
            i += 1;
        }
        proof {
            assert forall|x: LogSequenceNumber| #[trigger] has_commit(m, x) implies newest is Some
                && x.0 <= newest->Some_0.0 by {
                let k = choose|k: Seq<u8>| #[trigger] m.contains_key(k) && commits_at(m[k], x);
                let j = self.versions.lemma_key(k);
                assert(keys[j] == k);
                assert(commits_at(m[keys[j]], x));
            }
        }
        newest
    }

    /// The identifier of the table.
    pub fn table_id(&self) -> (r: TableId)
        ensures
            r == self.table_id,
    {
        self.table_id
    }

    /// The name of the table.
    pub fn name(&self) -> (r: &str)
        ensures
            r@ == self.name@,
    {
        self.name.as_str()
    }

    /// The engine of the table.
    pub fn kind(&self) -> (r: TableEngineKind)
        ensures
            r == TableEngineKind::AppendLog,
    {
        TableEngineKind::AppendLog
    }

    /// What the table can do.
    pub fn capabilities(&self) -> (r: TableCapabilities)
        ensures
            r == (TableCapabilities {
                ordered: true,
                point_lookup: true,
                prefix_scan: false,
                reverse_scan: false,
                range_delete: false,
                merge_operator: false,
                mvcc_native: false,
                append_optimized: true,
                memory_resident: false,
                disk_resident: true,
                supports_compression: true,
                supports_encryption: false,
            }),
    {
        TableCapabilities {
            ordered: true,
            point_lookup: true,
            prefix_scan: false,
            reverse_scan: false,
            range_delete: false,
            merge_operator: false,
            mvcc_native: false,
            append_optimized: true,
            memory_resident: false,
            disk_resident: true,
            supports_compression: true,
            supports_encryption: false,
        }
    }

    /// What is known of the table's contents. The newest commit stands for the last update, or
    /// the time when the active segment was made if nothing was committed yet.
    pub fn stats(&self) -> (r: TableResult<TableStatistics>)
        requires
            self.versions.wf(),
        ensures
            r is Ok,
            r->Ok_0 == (TableStatistics {
                row_count: Some(self.entry_count),
                page_count: None,
                total_size_bytes: Some(self.total_size),
                key_stats: None,
                value_stats: None,
                last_updated_lsn: r->Ok_0.last_updated_lsn,
            }),
            ({
                let created = self.active_segment.metadata.created_at;
                let last = r->Ok_0.last_updated_lsn;
                ||| last is Some && is_newest_commit(self.chains(), last)
                ||| is_newest_commit(self.chains(), None) && last == (if created == 0 {
                    None
                } else {
                    Some(LogSequenceNumber(created))
                })
            }),
    {
        let last_updated_lsn: Option<LogSequenceNumber> = match self.newest_commit() {
            Some(l) => Some(l),
            None => {
                let created = self.active_segment.latest_lsn();
                if created.0 != 0 {
                    Some(created)
                } else {
                    None
                }
            },
        };
        Ok(
            TableStatistics {
                row_count: Some(self.entry_count),
                page_count: None,
                total_size_bytes: Some(self.total_size),
                key_stats: None,
                value_stats: None,
                last_updated_lsn,
            },
        )
    }

    /// Ranges cannot be deleted from a log.
    pub fn range_delete(&mut self, _bounds: ScanBounds) -> (r: TableResult<u64>)
        ensures
            *final(self) == *old(self),
            r == Err::<u64, TableError>(TableError::OperationNotSupported),
    {
        Err(TableError::OperationNotSupported)
    }

    /// A cursor on the keys within the bounds.
    pub fn scan(&self, bounds: ScanBounds, snapshot_lsn: LogSequenceNumber) -> (r: TableResult<
        AppendLogCursor,
    >)
        requires
            self.index.wf(),
            is_proper(bounds),
        ensures
            r is Ok,
            r->Ok_0.listed() == keys_where(self.index.keys(), |k: Seq<u8>| bounds.admits(k)),
            r->Ok_0.listed() == self.index.keys().filter(|k: Seq<u8>| bounds.admits(k)),
            r->Ok_0.position == 0,
            r->Ok_0.snapshot_lsn == snapshot_lsn,
    {
        let ghost keys = self.index.keys();
        let ghost p = |k: Seq<u8>| bounds.admits(k);
        let mut found: Vec<Vec<u8>> = Vec::new();
        let n: usize = self.index.entries.len();
        let mut i: usize = 0;
        assert(keys_of(found@) =~= keys_where(keys.take(0), p));
        while i < n
            invariant
                n == self.index.entries@.len(),
                keys == self.index.keys(),
                p == (|k: Seq<u8>| bounds.admits(k)),
                i <= n,
                keys_of(found@) == keys_where(keys.take(i as int), p),
            decreases n - i,
        {
            let ghost before = found@;
            proof {
                assert(keys.take(i + 1).drop_last() =~= keys.take(i as int));
                assert(keys.take(i + 1).last() == keys[i as int]);
            }
            if bounds.contains(self.index.entries[i].0.as_slice()) {
                found.push(copy_bytes(self.index.entries[i].0.as_slice()));
                proof {
                    assert(keys_of(found@) =~= keys_of(before).push(keys[i as int]));
                }
            }
            i += 1;
        }
        proof {
            assert(keys.take(n as int) =~= keys);
            law_keys_are_picked_in_order(keys, p);
        }
        Ok(AppendLogCursor { keys: found, position: 0, snapshot_lsn })
    }
}

/// The keys as byte strings.
pub open spec fn keys_of(keys: Seq<Vec<u8>>) -> Seq<Seq<u8>> {
    Seq::new(keys.len(), |i: int| keys[i]@)
}

/// Walks the keys of a scan, forwards only.
#[derive(Debug)]
pub struct AppendLogCursor {
    pub keys: Vec<Vec<u8>>,
    pub position: usize,
    pub snapshot_lsn: LogSequenceNumber,
}

impl AppendLogCursor {
    /// The keys of the scan.
    pub open spec fn listed(&self) -> Seq<Seq<u8>> {
        keys_of(self.keys@)
    }

    /// Whether the cursor stands at a key.
    pub fn valid(&self) -> (r: bool)
        ensures
            r == (self.position < self.listed().len()),
    {
        self.position < self.keys.len()
    }

    /// The key that the cursor stands at.
    pub fn key(&self) -> (r: Option<&[u8]>)
        ensures
            r is Some <==> self.position < self.listed().len(),
            r matches Some(k) ==> k@ == self.listed()[self.position as int],
    {
        if self.position < self.keys.len() {
            Some(self.keys[self.position].as_slice())
        } else {
            None
        }
    }

    /// Values are read by key, not through the cursor.
    pub fn value(&self) -> (r: Option<&[u8]>)
        ensures
            r is None,
    {
        None
    }

    /// Moves to the next key, or past the last one.
    pub fn next(&mut self) -> (r: TableResult<()>)
        ensures
            final(self).keys == old(self).keys,
            final(self).snapshot_lsn == old(self).snapshot_lsn,
            final(self).position == (if old(self).position < old(self).listed().len() {
                old(self).position + 1
            } else {
                old(self).position as int
            }),
            r is Ok,
    {
        if self.position < self.keys.len() {
            self.position += 1;
        }
        Ok(())
    }

    /// The cursor does not move backwards.
    pub fn prev(&mut self) -> (r: TableResult<()>)
        ensures
            *final(self) == *old(self),
            r == Err::<(), TableError>(TableError::OperationNotSupported),
    {
        Err(TableError::OperationNotSupported)
    }

    /// The cursor does not seek.
    pub fn seek(&mut self, _key: &[u8]) -> (r: TableResult<()>)
        ensures
            *final(self) == *old(self),
            r == Err::<(), TableError>(TableError::OperationNotSupported),
    {
        Err(TableError::OperationNotSupported)
    }

    /// The cursor does not seek backwards.
    pub fn seek_for_prev(&mut self, _key: &[u8]) -> (r: TableResult<()>)
        ensures
            *final(self) == *old(self),
            r == Err::<(), TableError>(TableError::OperationNotSupported),
    {
        Err(TableError::OperationNotSupported)
    }

    /// The cursor does not go back to the first key.
    pub fn first(&mut self) -> (r: TableResult<()>)
        ensures
            *final(self) == *old(self),
            r == Err::<(), TableError>(TableError::OperationNotSupported),
    {
        Err(TableError::OperationNotSupported)
    }

    /// The cursor does not go to the last key.
    pub fn last(&mut self) -> (r: TableResult<()>)
        ensures
            *final(self) == *old(self),
            r == Err::<(), TableError>(TableError::OperationNotSupported),
    {
        Err(TableError::OperationNotSupported)
    }

    /// The point of the log that the cursor was made for.
    pub fn snapshot_lsn(&self) -> (r: LogSequenceNumber)
        ensures
            r == self.snapshot_lsn,
    {
        self.snapshot_lsn
    }
}

} // verus!
