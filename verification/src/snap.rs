//! Snapshots: the point of the log that a reader sees.
use crate::types::{LogSequenceNumber, TransactionId};
use vstd::prelude::*;
use vstd::std_specs::convert::FromSpecImpl;

verus! {

/// Identifies a snapshot.
#[derive(Clone, Copy, Debug, PartialEq, Eq, Structural)]
pub struct SnapshotId(pub u64);

impl From<u64> for SnapshotId {
    fn from(value: u64) -> (r: Self) {
        SnapshotId(value)
    }
}

impl FromSpecImpl<u64> for SnapshotId {
    open spec fn obeys_from_spec() -> bool {
        true
    }

    open spec fn from_spec(value: u64) -> Self {
        SnapshotId(value)
    }
}

/// A consistent view of the store: everything committed up to `lsn`, except what the
/// transactions in `active_txns` wrote.
#[derive(Clone, Debug)]
pub struct Snapshot {
    pub id: SnapshotId,
    pub name: String,
    pub lsn: LogSequenceNumber,
    pub created_at: u64,
    pub size_bytes: u64,
    pub active_txns: Vec<TransactionId>,
}

impl Snapshot {
    /// Creates a snapshot from its parts.
    pub fn new(
        id: SnapshotId,
        name: String,
        lsn: LogSequenceNumber,
        created_at: u64,
        size_bytes: u64,
        active_txns: Vec<TransactionId>,
    ) -> (r: Self)
        ensures
            r == (Snapshot { id, name, lsn, created_at, size_bytes, active_txns }),
    {
        Snapshot { id, name, lsn, created_at, size_bytes, active_txns }
    }

    /// An unnamed snapshot of everything committed up to `lsn`.
    pub fn at(lsn: LogSequenceNumber) -> (r: Self)
        ensures
            r.lsn == lsn,
            r.active_txns@ == Seq::<TransactionId>::empty(),
    {
        Snapshot::new(SnapshotId(0), String::new(), lsn, 0, 0, Vec::new())
    }

    /// Whether the snapshot hides what transaction `tx` wrote.
    pub fn is_active(&self, tx: TransactionId) -> (r: bool)
        ensures
            r == self.active_txns@.contains(tx),
    {
        let mut i: usize = 0;
        while i < self.active_txns.len()
            invariant
                0 <= i <= self.active_txns@.len(),
                forall|j: int| 0 <= j < i ==> self.active_txns@[j] != tx,
            decreases self.active_txns@.len() - i,
        {
            if self.active_txns[i] == tx {
                return true;
            }
            i += 1;
        }
        false
    }
}

} // verus!
