//! An in-memory adaptive radix tree: versioned values under keys that share their prefixes.
use crate::art::node::{ARTNode, Leaf};
use crate::art::walk::{gathered, hit, LeafChange, Measure};
use crate::btree::memory::{deletions_of, BatchSums, DEFAULT_BUDGET};
use crate::bytemap::{ascending, lemma_listed_once, lemma_rank, rank, ByteMap};
use crate::bytes::{copy_bytes, lemma_lex_asymmetric, lemma_lex_irreflexive, lex_le, lex_lt};
use crate::mvcc::{
    chain_of, changes_of, law_vacuum_keeps_reads, places, raw_read, version_total, with_commit,
    with_put, with_vacuum, Change, Chains,
};
use crate::snap::Snapshot;
use crate::table::{
    BatchReport, Mutation, TableCapabilities, TableEngineKind, TableError, TableResult,
    TableStatistics, WriteBatch,
};
use crate::txn::{adjust_usage, committed, pending, saturated, Version};
use crate::types::{
    value_view, KeyBuf, LogSequenceNumber, ScanBounds, TableId, TransactionId, ValueBuf,
};
use vstd::prelude::*;

verus! {

/// An in-memory adaptive radix tree.
pub struct MemoryART {
    pub id: TableId,
    pub name: String,
    pub root: Option<ARTNode>,
    pub memory_usage: usize,
    pub memory_budget: usize,
}

/// The versions of each key below a root.
pub open spec fn chains_below(root: Option<ARTNode>) -> Chains {
    match root {
        Some(n) => Map::new(
            |k: Seq<u8>| n.find(k, 0) is Some,
            |k: Seq<u8>| n.find(k, 0)->Some_0,
        ),
        None => Map::empty(),
    }
}

/// What the tree below a root takes in memory, by estimate.
pub open spec fn tree_size(root: Option<ARTNode>) -> int {
    match root {
        Some(n) => n.total(Measure::Bytes),
        None => 0,
    }
}

/// The tree below a root has as many versions as its keys have together.
proof fn lemma_version_total(root: Option<ARTNode>)
    requires
        root matches Some(n) ==> n.sound(Seq::empty()),
    ensures
        version_total(chains_below(root)) == (match root {
            Some(n) => n.total(Measure::Versions),
            None => 0,
        }),
{
    match root {
        Some(n) => {
            n.lemma_versions(Seq::empty());
            assert(places(chains_below(root)) =~= n.version_places(0));
        },
        None => {
            assert(places(chains_below(root)) =~= Set::empty());
        },
    }
}

/// What a reader at `lsn` sees of the keys within the bounds.
pub open spec fn hits(m: Chains, bounds: ScanBounds, lsn: LogSequenceNumber) -> Map<
    Seq<u8>,
    Seq<u8>,
> {
    Map::new(
        |k: Seq<u8>| bounds.admits(k) && raw_read(m, k, lsn) is Some,
        |k: Seq<u8>| raw_read(m, k, lsn)->Some_0,
    )
}

/// The keys are those of the map, in ascending order.
pub open spec fn lists(keys: Seq<Seq<u8>>, m: Map<Seq<u8>, Seq<u8>>) -> bool {
    &&& ascending(keys)
    &&& forall|k: Seq<u8>| #[trigger] keys.contains(k) <==> m.contains_key(k)
}

/// The keys of a map in ascending order.
pub open spec fn listing(m: Map<Seq<u8>, Seq<u8>>) -> Seq<Seq<u8>> {
    choose|keys: Seq<Seq<u8>>| lists(keys, m)
}

/// Vacuuming up to `min` changes no scan of a reader at `min` or later.
pub proof fn law_vacuum_keeps_scans(
    m: Chains,
    min: LogSequenceNumber,
    bounds: ScanBounds,
    lsn: LogSequenceNumber,
)
    requires
        lsn.0 >= min.0,
    ensures
        hits(with_vacuum(m, min), bounds, lsn) == hits(m, bounds, lsn),
{
    assert forall|k: Seq<u8>| #[trigger] raw_read(with_vacuum(m, min), k, lsn) == raw_read(
        m,
        k,
        lsn,
    ) by {
        law_vacuum_keeps_reads(m, min, k, lsn);
    }
    assert(hits(with_vacuum(m, min), bounds, lsn) =~= hits(m, bounds, lsn));
}

/// A list of all keys of a map in ascending order is the listing of the map.
pub proof fn lemma_listing(keys: Seq<Seq<u8>>, m: Map<Seq<u8>, Seq<u8>>)
    requires
        lists(keys, m),
    ensures
        listing(m) == keys,
{
    let other = listing(m);
    assert(lists(other, m));
    assert forall|k: Seq<u8>| #[trigger] other.contains(k) <==> keys.contains(k) by {
        assert(m.contains_key(k) || !m.contains_key(k));
        assert(other.contains(k) <==> m.contains_key(k));
        assert(keys.contains(k) <==> m.contains_key(k));
    }
    lemma_listed_once(other, keys);
}

/// The values of a map as byte strings.
pub open spec fn values_of(m: ByteMap<Vec<u8>>) -> Map<Seq<u8>, Seq<u8>> {
    m@.map_values(|v: Vec<u8>| v@)
}

/// The map after one flushed change: a put adds a version, a deletion forgets the key.
pub open spec fn with_flushed(m: Chains, c: Change, tx: TransactionId) -> Chains {
    match c.1 {
        Some(value) => with_put(m, c.0, value, tx),
        None => m.remove(c.0),
    }
}

/// The map after the flushed changes, in order.
pub open spec fn with_all_flushed(m: Chains, cs: Seq<Change>, tx: TransactionId) -> Chains
    decreases cs.len(),
{
    if cs.len() == 0 {
        m
    } else {
        with_flushed(with_all_flushed(m, cs.drop_last(), tx), cs.last(), tx)
    }
}

/// The newest version of a key after a flush is the last value put under it, whatever came
/// before.
pub proof fn law_last_put_wins(m: Chains, cs: Seq<Change>, tx: TransactionId, i: int)
    requires
        0 <= i < cs.len(),
        cs[i].1 is Some,
        forall|j: int| i < j < cs.len() ==> (#[trigger] cs[j]).0 != cs[i].0,
    ensures
        with_all_flushed(m, cs, tx).contains_key(cs[i].0),
        with_all_flushed(m, cs, tx)[cs[i].0].len() > 0,
        with_all_flushed(m, cs, tx)[cs[i].0][0] == pending(cs[i].1->Some_0, tx),
    decreases cs.len(),
{
    if i < cs.len() - 1 {
        assert(cs[cs.len() - 1].0 != cs[i].0);
        law_last_put_wins(m, cs.drop_last(), tx, i);
    }
}

/// Flushing and committing a transaction makes the last value that it put under a key what every
/// reader at or after the commit gets.
pub proof fn law_flush_and_commit_is_read(
    m: Chains,
    cs: Seq<Change>,
    tx: TransactionId,
    i: int,
    at: LogSequenceNumber,
    lsn: LogSequenceNumber,
)
    requires
        0 <= i < cs.len(),
        cs[i].1 is Some,
        forall|j: int| i < j < cs.len() ==> (#[trigger] cs[j]).0 != cs[i].0,
        at.0 <= lsn.0,
    ensures
        raw_read(with_commit(with_all_flushed(m, cs, tx), tx, at), cs[i].0, lsn) == cs[i].1,
{
    law_last_put_wins(m, cs, tx, i);
    let after = with_commit(with_all_flushed(m, cs, tx), tx, at);
    assert(after[cs[i].0][0] == committed(pending(cs[i].1->Some_0, tx), at));
}

/// A flushed deletion that no later change of the batch undoes removes the key for every reader.
pub proof fn law_flushed_delete_forgets(
    m: Chains,
    cs: Seq<Change>,
    tx: TransactionId,
    i: int,
    lsn: LogSequenceNumber,
)
    requires
        0 <= i < cs.len(),
        cs[i].1 is None,
        forall|j: int| i < j < cs.len() ==> (#[trigger] cs[j]).0 != cs[i].0,
    ensures
        raw_read(with_all_flushed(m, cs, tx), cs[i].0, lsn) is None,
    decreases cs.len(),
{
    if i < cs.len() - 1 {
        assert(cs[cs.len() - 1].0 != cs[i].0);
        law_flushed_delete_forgets(m, cs.drop_last(), tx, i, lsn);
    }
}

impl MemoryART {
    /// The tree is sound and the memory usage is that of the tree.
    pub open spec fn wf(&self) -> bool {
        &&& self.root matches Some(n) ==> n.sound(Seq::empty())
        &&& self.memory_usage == saturated(tree_size(self.root))
    }

    /// The versions of each key.
    pub open spec fn chains(&self) -> Chains {
        chains_below(self.root)
    }

    /// The tables differ in their contents and memory usage alone.
    pub open spec fn same_identity(&self, other: &Self) -> bool {
        &&& self.id == other.id
        &&& self.name == other.name
        &&& self.memory_budget == other.memory_budget
    }

    /// An empty table with the default budget.
    pub fn new(id: TableId, name: String) -> (r: Self)
        ensures
            r.wf(),
            r.chains() == Map::<Seq<u8>, Seq<Version>>::empty(),
            r.id == id,
            r.name == name,
            r.memory_usage == 0,
            r.memory_budget == DEFAULT_BUDGET,
    {
        Self::with_budget(id, name, DEFAULT_BUDGET)
    }

    /// An empty table with a memory budget.
    pub fn with_budget(id: TableId, name: String, memory_budget: usize) -> (r: Self)
        ensures
            r.wf(),
            r.chains() == Map::<Seq<u8>, Seq<Version>>::empty(),
            r.id == id,
            r.name == name,
            r.memory_usage == 0,
            r.memory_budget == memory_budget,
    {
        let r = MemoryART { id, name, root: None, memory_usage: 0, memory_budget };
        r
    }

    fn take_root(&mut self) -> (r: Option<ARTNode>)
        ensures
            r == old(self).root,
            final(self).root is None,
            final(self).same_identity(old(self)),
            final(self).memory_usage == old(self).memory_usage,
    {
        let mut root: Option<ARTNode> = None;
        core::mem::swap(&mut root, &mut self.root);
        root
    }

    fn estimate_tree_size(&self) -> (r: usize)
        requires
            self.root matches Some(n) ==> n.sound(Seq::empty()),
        ensures
            r as int == saturated(tree_size(self.root)),
    {
        match &self.root {
            Some(n) => n.measure(Measure::Bytes, Ghost(Seq::empty())),
            None => 0,
        }
    }

    /// Puts a pending version under a key.
    pub fn insert(&mut self, key: &[u8], value: Vec<u8>, tx_id: TransactionId)
        requires
            old(self).wf(),
        ensures
            final(self).wf(),
            final(self).same_identity(old(self)),
            final(self).chains() == with_put(old(self).chains(), key@, value@, tx_id),
    {
        let ghost before_root = self.root;
        let ghost v = pending(value@, tx_id);
        let before: usize = self.estimate_tree_size();
        assert(key@.take(0) =~= Seq::empty());
        let root = match self.take_root() {
            Some(n) => n.insert(key, value, tx_id, 0),
            None => ARTNode::Leaf(Leaf::new(copy_bytes(key), value, tx_id)),
        };
        self.root = Some(root);
        let after: usize = self.estimate_tree_size();
        self.memory_usage = adjust_usage(self.memory_usage, before, after);
        proof {
            assert(seq![v] + Seq::<Version>::empty() =~= seq![v]);
            assert forall|k: Seq<u8>| #[trigger]
                root.find(k, 0) == (if k == key@ {
                    Some(seq![v] + chain_of(chains_below(before_root), key@))
                } else if chains_below(before_root).contains_key(k) {
                    Some(chains_below(before_root)[k])
                } else {
                    None
                }) by {}
            assert(self.chains() =~= with_put(old(self).chains(), key@, v.value, tx_id));
        }
    }

    /// What a reader at `snapshot_lsn` sees of a key.
    pub fn lookup(&self, key: &[u8], snapshot_lsn: LogSequenceNumber) -> (r: Option<Vec<u8>>)
        requires
            self.wf(),
        ensures
            r is Some <==> raw_read(self.chains(), key@, snapshot_lsn) is Some,
            r matches Some(v) ==> raw_read(self.chains(), key@, snapshot_lsn) == Some(v@),
    {
        assert(key@.take(0) =~= Seq::empty());
        match &self.root {
            Some(n) => match n.lookup(key, 0) {
                Some(chain) => {
                    let snapshot = Snapshot::at(snapshot_lsn);
                    assert(snapshot.active_txns@ =~= Seq::empty());
                    match chain.find_visible_version(&snapshot) {
                        Some(v) => Some(copy_bytes(v)),
                        None => None,
                    }
                },
                None => None,
            },
            None => None,
        }
    }

    /// Forgets a key. Returns whether it was there.
    pub fn delete(&mut self, key: &[u8]) -> (r: bool)
        requires
            old(self).wf(),
        ensures
            final(self).wf(),
            final(self).same_identity(old(self)),
            final(self).chains() == old(self).chains().remove(key@),
            r == old(self).chains().contains_key(key@),
    {
        let before: usize = self.estimate_tree_size();
        assert(key@.take(0) =~= Seq::empty());
        let (root, found): (Option<ARTNode>, bool) = match self.take_root() {
            Some(n) => n.delete(key, 0),
            None => (None, false),
        };
        self.root = root;
        let after: usize = self.estimate_tree_size();
        self.memory_usage = adjust_usage(self.memory_usage, before, after);
        proof {
            assert forall|k: Seq<u8>| #[trigger] self.chains().contains_key(k) <==> k != key@
                && old(self).chains().contains_key(k) by {
                if let Some(n) = old(self).root {
                    assert(n.find(k, 0) is Some || n.find(k, 0) is None);
                    if let Some(n2) = root {
                        assert(n2.find(k, 0) is Some || n2.find(k, 0) is None);
                    }
                }
            }
            assert(self.chains() =~= old(self).chains().remove(key@)) by {
                assert forall|k: Seq<u8>| self.chains().contains_key(k) implies #[trigger] self.chains()[k]
                    == old(self).chains()[k] by {
                    assert(root->Some_0.find(k, 0) is Some);
                }
            }
        }
        found
    }

    fn change_leaves(&mut self, op: LeafChange) -> (removed: usize)
        requires
            old(self).wf(),
        ensures
            final(self).wf(),
            final(self).same_identity(old(self)),
            final(self).memory_usage == old(self).memory_usage,
            final(self).chains() == old(self).chains().map_values(
                |vs: Seq<Version>| op.apply(vs),
            ),
            removed as int == saturated(
                version_total(old(self).chains()) - version_total(final(self).chains()),
            ),
    {
        let mut removed: usize = 0;
        match self.take_root() {
            Some(n) => {
                let (n2, count) = n.change_leaves(op, Ghost(Seq::empty()));
                removed = count;
                self.root = Some(n2);
                proof {
                    assert forall|k: Seq<u8>| #[trigger]
                        n2.find(k, 0) == op.apply_to(n.find(k, 0)) by {}
                }
            },
            None => {},
        }
        proof {
            assert(self.chains() =~= old(self).chains().map_values(
                |vs: Seq<Version>| op.apply(vs),
            ));
            lemma_version_total(self.root);
            lemma_version_total(old(self).root);
        }
        removed
    }

    /// Commits every version that the transaction left pending.
    pub fn commit_all(&mut self, lsn: LogSequenceNumber, tx_id: TransactionId)
        requires
            old(self).wf(),
        ensures
            final(self).wf(),
            final(self).same_identity(old(self)),
            final(self).memory_usage == old(self).memory_usage,
            final(self).chains() == with_commit(old(self).chains(), tx_id, lsn),
    {
        let _ = self.change_leaves(LeafChange::Commit(tx_id, lsn));
        assert(self.chains() =~= with_commit(old(self).chains(), tx_id, lsn));
    }

    /// Drops the versions that no reader at `min_visible_lsn` or later can see, but for one base
    /// version per key. Returns how many went.
    pub fn vacuum(&mut self, min_visible_lsn: LogSequenceNumber) -> (r: TableResult<usize>)
        requires
            old(self).wf(),
        ensures
            final(self).wf(),
            final(self).same_identity(old(self)),
            final(self).memory_usage == old(self).memory_usage,
            final(self).chains() == with_vacuum(old(self).chains(), min_visible_lsn),
            r is Ok,
            r->Ok_0 as int == saturated(
                version_total(old(self).chains()) - version_total(final(self).chains()),
            ),
    {
        let removed: usize = self.change_leaves(LeafChange::Vacuum(min_visible_lsn));
        assert(self.chains() =~= with_vacuum(old(self).chains(), min_visible_lsn));
        Ok(removed)
    }

    /// What a reader at `snapshot_lsn` sees of the keys within the bounds, in key order.
    pub fn collect_keys_in_bounds(&self, bounds: &ScanBounds, snapshot_lsn: LogSequenceNumber) -> (r:
        ByteMap<Vec<u8>>)
        requires
            self.wf(),
        ensures
            r.wf(),
            values_of(r) == hits(self.chains(), *bounds, snapshot_lsn),
            lists(r.keys(), hits(self.chains(), *bounds, snapshot_lsn)),
    {
        let mut out: ByteMap<Vec<u8>> = ByteMap::new();
        let snapshot = Snapshot::at(snapshot_lsn);
        match &self.root {
            Some(n) => {
                n.collect(bounds, &snapshot, &mut out, Ghost(Seq::empty()));
            },
            None => {},
        }
        proof {
            let h = hits(self.chains(), *bounds, snapshot_lsn);
            assert forall|k: Seq<u8>| #[trigger]
                gathered(out, k) == (if h.contains_key(k) {
                    Some(h[k])
                } else {
                    None
                }) by {}
            assert forall|k: Seq<u8>| #[trigger] values_of(out).contains_key(k)
                <==> h.contains_key(k) by {
                assert(gathered(out, k) is Some <==> out@.contains_key(k));
            }
            assert forall|k: Seq<u8>| values_of(out).contains_key(k) implies #[trigger] values_of(
                out,
            )[k] == h[k] by {
                assert(gathered(out, k) == Some(out@[k]@));
            }
            assert(values_of(out) =~= h);
            assert forall|k: Seq<u8>| #[trigger] out.keys().contains(k) <==> h.contains_key(k) by {
                assert(values_of(out).contains_key(k) <==> out@.contains_key(k));
            }
        }
        out
    }

    /// The number of keys, as far as a machine word holds it.
    pub fn count_leaves(&self) -> (r: usize)
        requires
            self.wf(),
        ensures
            self.chains().dom().finite(),
            r as int == saturated(self.chains().dom().len() as int),
    {
        match &self.root {
            Some(n) => {
                proof {
                    n.law_leaves_are_keys(Seq::empty());
                    assert(self.chains().dom() =~= n.key_set(0));
                }
                n.measure(Measure::Leaves, Ghost(Seq::empty()))
            },
            None => {
                assert(self.chains().dom() =~= Set::empty());
                0
            },
        }
    }

    /// The identifier of the table.
    pub fn table_id(&self) -> (r: TableId)
        ensures
            r == self.id,
    {
        self.id
    }

    /// The name of the table.
    pub fn name(&self) -> (r: &str)
        ensures
            r@ == self.name@,
    {
        self.name.as_str()
    }

    /// The engine of the table.
    pub fn kind(&self) -> (r: TableEngineKind)
        ensures
            r == TableEngineKind::Art,
    {
        TableEngineKind::Art
    }

    /// What the table can do.
    pub fn capabilities(&self) -> (r: TableCapabilities)
        ensures
            r == (TableCapabilities {
                ordered: true,
                point_lookup: true,
                prefix_scan: true,
                reverse_scan: true,
                range_delete: true,
                merge_operator: false,
                mvcc_native: true,
                append_optimized: false,
                memory_resident: true,
                disk_resident: false,
                supports_compression: false,
                supports_encryption: false,
            }),
    {
        TableCapabilities {
            ordered: true,
            point_lookup: true,
            prefix_scan: true,
            reverse_scan: true,
            range_delete: true,
            merge_operator: false,
            mvcc_native: true,
            append_optimized: false,
            memory_resident: true,
            disk_resident: false,
            supports_compression: false,
            supports_encryption: false,
        }
    }

    /// What is known of the table's contents.
    pub fn stats(&self) -> (r: TableResult<TableStatistics>)
        requires
            self.wf(),
        ensures
            r == Ok::<TableStatistics, TableError>(
                TableStatistics {
                    row_count: Some(saturated(self.chains().dom().len() as int) as u64),
                    page_count: None,
                    total_size_bytes: Some(self.memory_usage as u64),
                    key_stats: None,
                    value_stats: None,
                    last_updated_lsn: None,
                },
            ),
    {
        Ok(
            TableStatistics {
                row_count: Some(self.count_leaves() as u64),
                page_count: None,
                total_size_bytes: Some(self.memory_usage as u64),
                key_stats: None,
                value_stats: None,
                last_updated_lsn: None,
            },
        )
    }

    /// A reader at `snapshot_lsn`.
    pub fn reader(&self, snapshot_lsn: LogSequenceNumber) -> (r: TableResult<MemoryARTReader<'_>>)
        ensures
            r is Ok,
            *r->Ok_0.table == *self,
            r->Ok_0.snapshot_lsn == snapshot_lsn,
    {
        Ok(MemoryARTReader { table: self, snapshot_lsn })
    }

    /// A writer for transaction `tx_id`.
    pub fn writer(&mut self, tx_id: TransactionId, snapshot_lsn: LogSequenceNumber) -> (r:
        TableResult<MemoryARTWriter<'_>>)
        ensures
            r is Ok,
            *r->Ok_0.table == *old(self),
            *final(self) == *final(r->Ok_0.table),
            r->Ok_0.tx_id == tx_id,
            r->Ok_0.snapshot_lsn == snapshot_lsn,
            r->Ok_0.pending_changes@.len() == 0,
    {
        Ok(MemoryARTWriter { table: self, tx_id, snapshot_lsn, pending_changes: Vec::new() })
    }
}

/// Reads the table at one point of the log.
pub struct MemoryARTReader<'a> {
    pub table: &'a MemoryART,
    pub snapshot_lsn: LogSequenceNumber,
}

impl<'a> MemoryARTReader<'a> {
    /// What a reader at `snapshot_lsn` sees of a key.
    pub fn get(&self, key: &[u8], snapshot_lsn: LogSequenceNumber) -> (r: TableResult<
        Option<ValueBuf>,
    >)
        requires
            self.table.wf(),
        ensures
            r is Ok,
            value_view(r->Ok_0) == raw_read(self.table.chains(), key@, snapshot_lsn),
    {
        match self.table.lookup(key, snapshot_lsn) {
            Some(v) => Ok(Some(ValueBuf(v))),
            None => Ok(None),
        }
    }

    /// A cursor on what a reader at `snapshot_lsn` sees of the keys within the bounds.
    pub fn scan(&self, bounds: ScanBounds, snapshot_lsn: LogSequenceNumber) -> (r: TableResult<
        MemoryARTCursor,
    >)
        requires
            self.table.wf(),
        ensures
            r is Ok,
            r->Ok_0.entries.wf(),
            values_of(r->Ok_0.entries) == hits(self.table.chains(), bounds, snapshot_lsn),
            lists(r->Ok_0.entries.keys(), hits(self.table.chains(), bounds, snapshot_lsn)),
            r->Ok_0.position == 0,
            r->Ok_0.snapshot_lsn == snapshot_lsn,
    {
        let entries = self.table.collect_keys_in_bounds(&bounds, snapshot_lsn);
        Ok(MemoryARTCursor { entries, position: 0, snapshot_lsn })
    }

    /// A cursor on what a reader at `snapshot_lsn` sees of the keys with a prefix.
    pub fn scan_prefix(&self, prefix: &[u8], snapshot_lsn: LogSequenceNumber) -> (r: TableResult<
        MemoryARTCursor,
    >)
        requires
            self.table.wf(),
        ensures
            r is Ok,
            r->Ok_0.entries.wf(),
            forall|b: KeyBuf| #[trigger]
                b@ == prefix@ ==> values_of(r->Ok_0.entries) == hits(
                    self.table.chains(),
                    ScanBounds::Prefix(b),
                    snapshot_lsn,
                ),
            r->Ok_0.position == 0,
            r->Ok_0.snapshot_lsn == snapshot_lsn,
    {
        let bounds = ScanBounds::Prefix(KeyBuf(copy_bytes(prefix)));
        let r = self.scan(bounds, snapshot_lsn);
        proof {
            assert forall|b: KeyBuf| #[trigger] b@ == prefix@ implies values_of(r->Ok_0.entries)
                == hits(self.table.chains(), ScanBounds::Prefix(b), snapshot_lsn) by {
                assert(hits(self.table.chains(), ScanBounds::Prefix(b), snapshot_lsn) =~= hits(
                    self.table.chains(),
                    bounds,
                    snapshot_lsn,
                ));
            }
        }
        r
    }

    /// The point of the log that the reader was made for.
    pub fn snapshot_lsn(&self) -> (r: LogSequenceNumber)
        ensures
            r == self.snapshot_lsn,
    {
        self.snapshot_lsn
    }

    /// The number of keys.
    pub fn approximate_len(&self) -> (r: TableResult<Option<u64>>)
        requires
            self.table.wf(),
        ensures
            r == Ok::<Option<u64>, TableError>(
                Some(saturated(self.table.chains().dom().len() as int) as u64),
            ),
    {
        Ok(Some(self.table.count_leaves() as u64))
    }
}

/// Collects changes and writes them to the table.
pub struct MemoryARTWriter<'a> {
    pub table: &'a mut MemoryART,
    pub tx_id: TransactionId,
    pub snapshot_lsn: LogSequenceNumber,
    pub pending_changes: Vec<(Vec<u8>, Option<Vec<u8>>)>,
}

/// Walks the entries of a scan.
pub struct MemoryARTCursor {
    pub entries: ByteMap<Vec<u8>>,
    pub position: usize,
    pub snapshot_lsn: LogSequenceNumber,
}

/// The largest point of the log.
pub open spec fn latest() -> LogSequenceNumber {
    LogSequenceNumber(u64::MAX)
}

/// The changes that a mutation notes.
pub open spec fn mutation_changes(m: Chains, mutation: Mutation) -> Seq<Change> {
    match mutation {
        Mutation::Put { key, value } => seq![(key@, Some(value@))],
        Mutation::Delete { key } => if raw_read(m, key@, latest()) is Some {
            seq![(key@, None)]
        } else {
            Seq::empty()
        },
        Mutation::RangeDelete { bounds } => deletions_of(listing(hits(m, bounds, latest()))),
        Mutation::Merge { .. } => Seq::empty(),
    }
}

/// The changes that a batch notes.
pub open spec fn batch_changes(m: Chains, ms: Seq<Mutation>) -> Seq<Change>
    decreases ms.len(),
{
    if ms.len() == 0 {
        Seq::empty()
    } else {
        batch_changes(m, ms.drop_last()) + mutation_changes(m, ms.last())
    }
}

/// What a batch report counts.
pub open spec fn batch_sums(m: Chains, ms: Seq<Mutation>) -> BatchSums
    decreases ms.len(),
{
    if ms.len() == 0 {
        BatchSums { applied: 0, deleted: 0, bytes: 0 }
    } else {
        let b = batch_sums(m, ms.drop_last());
        match ms.last() {
            Mutation::Put { key, value } => BatchSums {
                applied: b.applied + 1,
                deleted: b.deleted,
                bytes: b.bytes + key@.len() + value@.len(),
            },
            Mutation::Merge { .. } => b,
            x => BatchSums {
                applied: b.applied + 1,
                deleted: b.deleted + mutation_changes(m, x).len(),
                bytes: b.bytes,
            },
        }
    }
}

/// A batch notes what its parts note, one after the other, and its report adds up theirs.
pub proof fn law_batch_in_parts(m: Chains, a: Seq<Mutation>, b: Seq<Mutation>)
    ensures
        batch_changes(m, a + b) == batch_changes(m, a) + batch_changes(m, b),
        batch_sums(m, a + b).applied == batch_sums(m, a).applied + batch_sums(m, b).applied,
        batch_sums(m, a + b).deleted == batch_sums(m, a).deleted + batch_sums(m, b).deleted,
        batch_sums(m, a + b).bytes == batch_sums(m, a).bytes + batch_sums(m, b).bytes,
    decreases b.len(),
{
    if b.len() == 0 {
        assert(a + b =~= a);
        assert(batch_changes(m, a) + batch_changes(m, b) =~= batch_changes(m, a));
    } else {
        law_batch_in_parts(m, a, b.drop_last());
        assert((a + b).drop_last() =~= a + b.drop_last());
        assert((a + b).last() == b.last());
        assert(batch_changes(m, a + b) =~= batch_changes(m, a) + batch_changes(m, b));
    }
}

/// A put is noted and counts its key and its value. A deletion is noted where the newest committed
/// version of the key is there to be deleted. A merge notes and counts nothing, any other mutation
/// counts as applied, and a deletion counts the keys that it notes.
pub proof fn law_batch_of_one(m: Chains, mutation: Mutation)
    ensures
        mutation matches Mutation::Put { key, value } ==> batch_changes(m, seq![mutation]) == seq![
            (key@, Some(value@)),
        ],
        mutation matches Mutation::Delete { key } ==> batch_changes(m, seq![mutation]) == (if raw_read(
            m,
            key@,
            LogSequenceNumber(u64::MAX),
        ) is Some {
            seq![(key@, None::<Seq<u8>>)]
        } else {
            Seq::empty()
        }),
        mutation is Merge ==> batch_changes(m, seq![mutation]).len() == 0,
        ({
            let s = batch_sums(m, seq![mutation]);
            &&& s.applied == (if mutation is Merge {
                0int
            } else {
                1
            })
            &&& s.deleted == (if mutation is Put {
                0
            } else {
                batch_changes(m, seq![mutation]).len() as int
            })
            &&& s.bytes == (match mutation {
                Mutation::Put { key, value } => (key@.len() + value@.len()) as int,
                _ => 0,
            })
        }),
{
    reveal_with_fuel(batch_changes, 2);
    reveal_with_fuel(batch_sums, 2);
    assert(seq![mutation].drop_last() =~= Seq::empty());
    assert(batch_changes(m, seq![mutation]) =~= mutation_changes(m, mutation));
}

proof fn lemma_batch_sums_grow(m: Chains, ms: Seq<Mutation>, n: int)
    requires
        0 <= n <= ms.len(),
    ensures
        0 <= batch_sums(m, ms.take(n)).applied <= n,
        0 <= batch_sums(m, ms.take(n)).deleted <= batch_sums(m, ms).deleted,
        0 <= batch_sums(m, ms.take(n)).bytes <= batch_sums(m, ms).bytes,
    decreases ms.len(),
{
    if n < ms.len() {
        assert(ms.drop_last().take(n) =~= ms.take(n));
        lemma_batch_sums_grow(m, ms.drop_last(), n);
    } else {
        assert(ms.take(n) =~= ms);
        if n > 0 {
            lemma_batch_sums_grow(m, ms.drop_last(), n - 1);
            assert(ms.drop_last().take(n - 1) =~= ms.drop_last());
        }
    }
}

impl<'a> MemoryARTWriter<'a> {
    /// The changes that wait to be flushed.
    pub open spec fn changes(&self) -> Seq<Change> {
        changes_of(self.pending_changes@)
    }

    /// The versions of each key in the table.
    pub open spec fn base(&self) -> Chains {
        self.table.chains()
    }

    /// Notes a value to put. Returns the bytes it counts for.
    pub fn put(&mut self, key: &[u8], value: &[u8]) -> (r: TableResult<u64>)
        requires
            key@.len() + value@.len() + 16 <= usize::MAX,
        ensures
            final(self).changes() == old(self).changes().push((key@, Some(value@))),
            *final(self).table == *old(self).table,
            *final(final(self).table) == *final(old(self).table),
            final(self).tx_id == old(self).tx_id,
            final(self).snapshot_lsn == old(self).snapshot_lsn,
            r == Ok::<u64, TableError>((key@.len() + value@.len() + 16) as u64),
    {
        self.pending_changes.push((copy_bytes(key), Some(copy_bytes(value))));
        proof {
            assert(self.changes() =~= old(self).changes().push((key@, Some(value@))));
        }
        Ok((key.len() + value.len() + 16) as u64)
    }

    /// Notes a deletion, if the newest reader sees the key. Returns whether it does.
    pub fn delete(&mut self, key: &[u8]) -> (r: TableResult<bool>)
        requires
            old(self).table.wf(),
        ensures
            final(self).changes() == (if raw_read(old(self).table.chains(), key@, latest())
                is Some {
                old(self).changes().push((key@, None))
            } else {
                old(self).changes()
            }),
            *final(self).table == *old(self).table,
            *final(final(self).table) == *final(old(self).table),
            final(self).tx_id == old(self).tx_id,
            final(self).snapshot_lsn == old(self).snapshot_lsn,
            r == Ok::<bool, TableError>(
                raw_read(old(self).table.chains(), key@, latest()) is Some,
            ),
    {
        let exists: bool = self.table.lookup(key, LogSequenceNumber(u64::MAX)).is_some();
        if exists {
            self.pending_changes.push((copy_bytes(key), None));
            proof {
                assert(self.changes() =~= old(self).changes().push((key@, None)));
            }
        }
        Ok(exists)
    }

    /// Notes a deletion of every key within the bounds that the newest reader sees. Returns how
    /// many there are.
    pub fn range_delete(&mut self, bounds: ScanBounds) -> (r: TableResult<u64>)
        requires
            old(self).table.wf(),
        ensures
            ({
                let hit = listing(hits(old(self).table.chains(), bounds, latest()));
                &&& lists(hit, hits(old(self).table.chains(), bounds, latest()))
                &&& final(self).changes() == old(self).changes() + deletions_of(hit)
                &&& r == Ok::<u64, TableError>(hit.len() as u64)
                &&& hit.len() <= usize::MAX
            }),
            *final(self).table == *old(self).table,
            *final(final(self).table) == *final(old(self).table),
            final(self).tx_id == old(self).tx_id,
            final(self).snapshot_lsn == old(self).snapshot_lsn,
    {
        let entries = self.table.collect_keys_in_bounds(&bounds, LogSequenceNumber(u64::MAX));
        let ghost keys = entries.keys();
        proof {
            lemma_listing(keys, hits(old(self).table.chains(), bounds, latest()));
        }
        let n: usize = entries.entries.len();
        let mut i: usize = 0;
        assert(self.changes() =~= old(self).changes() + deletions_of(keys.take(0)));
        while i < n
            invariant
                n == entries.entries@.len() == keys.len(),
                keys == entries.keys(),
                i <= n,
                self.changes() == old(self).changes() + deletions_of(keys.take(i as int)),
                *self.table == *old(self).table,
                *final(self.table) == *final(old(self).table),
                self.tx_id == old(self).tx_id,
                self.snapshot_lsn == old(self).snapshot_lsn,
            decreases n - i,
        {
            let ghost before = self.changes();
            let key = copy_bytes(entries.entries[i].0.as_slice());
            self.pending_changes.push((key, None));
            proof {
                assert(self.changes() =~= before.push((keys[i as int], None)));
                assert(keys.take(i + 1) =~= keys.take(i as int).push(keys[i as int]));
                assert(deletions_of(keys.take(i + 1)) =~= deletions_of(keys.take(i as int)).push(
                    (keys[i as int], None),
                ));
                assert(self.changes() =~= old(self).changes() + deletions_of(keys.take(i + 1)));
            }
            i += 1;
        }
        proof {
            assert(keys.take(n as int) =~= keys);
        }
        Ok(n as u64)
    }

    /// What a reader at the writer's snapshot sees of several keys.
    pub fn batch_get(&self, keys: &[&[u8]]) -> (r: TableResult<Vec<Option<ValueBuf>>>)
        requires
            self.table.wf(),
        ensures
            r is Ok,
            r->Ok_0@.len() == keys@.len(),
            forall|i: int|
                0 <= i < keys@.len() ==> value_view(#[trigger] r->Ok_0@[i]) == raw_read(
                    self.base(),
                    keys@[i]@,
                    self.snapshot_lsn,
                ),
    {
        let mut results: Vec<Option<ValueBuf>> = Vec::new();
        let mut i: usize = 0;
        while i < keys.len()
            invariant
                self.table.wf(),
                i <= keys@.len(),
                results@.len() == i,
                forall|j: int|
                    0 <= j < i ==> value_view(#[trigger] results@[j]) == raw_read(
                        self.base(),
                        keys@[j]@,
                        self.snapshot_lsn,
                    ),
            decreases keys@.len() - i,
        {
            let found: Option<ValueBuf> = match self.table.lookup(keys[i], self.snapshot_lsn) {
                Some(v) => Some(ValueBuf(v)),
                None => None,
            };
            results.push(found);
            i += 1;
        }
        Ok(results)
    }

    /// Notes the changes of a batch. Merges are passed over.
    pub fn apply_batch(&mut self, batch: WriteBatch) -> (r: TableResult<BatchReport>)
        requires
            old(self).table.wf(),
            forall|i: int|
                0 <= i < batch.mutations@.len() ==> (#[trigger] batch.mutations@[i] matches
                    Mutation::Put { key, value } ==> key@.len() + value@.len() + 16
                    <= usize::MAX),
            batch_sums(old(self).table.chains(), batch.mutations@).bytes <= u64::MAX,
            batch_sums(old(self).table.chains(), batch.mutations@).deleted <= u64::MAX,
        ensures
            final(self).changes() == old(self).changes() + batch_changes(
                old(self).table.chains(),
                batch.mutations@,
            ),
            *final(self).table == *old(self).table,
            *final(final(self).table) == *final(old(self).table),
            final(self).tx_id == old(self).tx_id,
            final(self).snapshot_lsn == old(self).snapshot_lsn,
            r == Ok::<BatchReport, TableError>(
                {
                    let sums = batch_sums(old(self).table.chains(), batch.mutations@);
                    BatchReport {
                        attempted: batch.mutations@.len() as u64,
                        applied: sums.applied as u64,
                        deleted: sums.deleted as u64,
                        bytes_written: sums.bytes as u64,
                    }
                },
            ),
    {
        let ghost m = self.table.chains();
        let ghost ms = batch.mutations@;
        let n: usize = batch.mutations.len();
        let mut mutations = batch.mutations;
        let mut report = BatchReport {
            attempted: n as u64,
            applied: 0,
            deleted: 0,
            bytes_written: 0,
        };
        let mut i: usize = 0;
        assert(ms.take(0) =~= Seq::empty());
        assert(ms.skip(0) =~= ms);
        assert(self.changes() =~= old(self).changes() + batch_changes(m, ms.take(0)));
        while i < n
            invariant
                n == ms.len(),
                mutations@ == ms.skip(i as int),
                i <= n,
                m == old(self).table.chains(),
                self.table.wf(),
                forall|k: int|
                    0 <= k < ms.len() ==> (#[trigger] ms[k] matches Mutation::Put { key, value }
                        ==> key@.len() + value@.len() + 16 <= usize::MAX),
                batch_sums(m, ms).bytes <= u64::MAX,
                batch_sums(m, ms).deleted <= u64::MAX,
                self.changes() == old(self).changes() + batch_changes(m, ms.take(i as int)),
                *self.table == *old(self).table,
                *final(self.table) == *final(old(self).table),
                self.tx_id == old(self).tx_id,
                self.snapshot_lsn == old(self).snapshot_lsn,
                report.attempted == n,
                report.applied == batch_sums(m, ms.take(i as int)).applied,
                report.deleted == batch_sums(m, ms.take(i as int)).deleted,
                report.bytes_written == batch_sums(m, ms.take(i as int)).bytes,
            decreases n - i,
        {
            let ghost before = self.changes();
            proof {
                assert(ms.take(i + 1).drop_last() =~= ms.take(i as int));
                assert(ms.take(i + 1).last() == ms[i as int]);
                lemma_batch_sums_grow(m, ms, i as int);
                lemma_batch_sums_grow(m, ms, i + 1);
                assert(ms.skip(i as int)[0] == ms[i as int]);
                assert(ms.skip(i as int).remove(0) =~= ms.skip(i + 1));
            }
            let mutation = mutations.remove(0);
            match mutation {
                Mutation::Put { key, value } => {
                    let _ = self.put(key.as_slice(), value.as_slice());
                    report.applied = report.applied + 1;
                    report.bytes_written = report.bytes_written + key.len() as u64 + value.len() as u64;
                    proof {
                        assert(self.changes() =~= before + mutation_changes(m, ms[i as int]));
                    }
                },
                Mutation::Delete { key } => {
                    if let Ok(known) = self.delete(key.as_slice()) {
                        if known {
                            report.deleted = report.deleted + 1;
                        }
                    }
                    report.applied = report.applied + 1;
                    proof {
                        assert(self.changes() =~= before + mutation_changes(m, ms[i as int]));
                    }
                },
                Mutation::RangeDelete { bounds } => {
                    if let Ok(deleted) = self.range_delete(bounds) {
                        report.deleted = report.deleted + deleted;
                    }
                    report.applied = report.applied + 1;
                },
                Mutation::Merge { .. } => {
                    proof {
                        assert(self.changes() =~= before + mutation_changes(m, ms[i as int]));
                    }
                },
            }
            proof {
                assert(self.changes() =~= old(self).changes() + batch_changes(m, ms.take(i + 1)));
            }
            i += 1;
        }
        proof {
            assert(ms.take(n as int) =~= ms);
            lemma_batch_sums_grow(m, ms, n as int);
        }
        Ok(report)
    }

    /// Writes the noted changes to the table, in order: puts as pending versions, deletions by
    /// forgetting the key.
    pub fn flush(&mut self) -> (r: TableResult<()>)
        requires
            old(self).table.wf(),
        ensures
            final(self).pending_changes@.len() == 0,
            final(self).table.wf(),
            final(self).table.same_identity(old(self).table),
            final(self).table.chains() == with_all_flushed(
                old(self).table.chains(),
                old(self).changes(),
                old(self).tx_id,
            ),
            *final(final(self).table) == *final(old(self).table),
            final(self).tx_id == old(self).tx_id,
            final(self).snapshot_lsn == old(self).snapshot_lsn,
            r is Ok,
    {
        let ghost m = self.table.chains();
        let ghost cs = self.changes();
        let n: usize = self.pending_changes.len();
        let mut i: usize = 0;
        assert(cs.take(0) =~= Seq::empty());
        while i < n
            invariant
                n == self.pending_changes@.len(),
                cs == self.changes(),
                i <= n,
                self.table.wf(),
                self.table.same_identity(old(self).table),
                self.table.chains() == with_all_flushed(m, cs.take(i as int), self.tx_id),
                *final(self.table) == *final(old(self).table),
                self.tx_id == old(self).tx_id,
                self.snapshot_lsn == old(self).snapshot_lsn,
            decreases n - i,
        {
            proof {
                assert(cs.take(i + 1).drop_last() =~= cs.take(i as int));
                assert(cs.take(i + 1).last() == cs[i as int]);
            }
            let key = copy_bytes(self.pending_changes[i].0.as_slice());
            match &self.pending_changes[i].1 {
                Some(value) => {
                    let value = copy_bytes(value.as_slice());
                    self.table.insert(key.as_slice(), value, self.tx_id);
                },
                None => {
                    let _ = self.table.delete(key.as_slice());
                },
            }
            i += 1;
        }
        proof {
            assert(cs.take(n as int) =~= cs);
        }
        self.pending_changes.clear();
        Ok(())
    }

    /// Commits every version that this transaction left pending.
    pub fn commit_versions(&mut self, commit_lsn: LogSequenceNumber) -> (r: TableResult<()>)
        requires
            old(self).table.wf(),
        ensures
            final(self).table.wf(),
            final(self).table.same_identity(old(self).table),
            final(self).table.memory_usage == old(self).table.memory_usage,
            final(self).table.chains() == with_commit(
                old(self).table.chains(),
                old(self).tx_id,
                commit_lsn,
            ),
            *final(final(self).table) == *final(old(self).table),
            final(self).tx_id == old(self).tx_id,
            final(self).snapshot_lsn == old(self).snapshot_lsn,
            final(self).changes() == old(self).changes(),
            r is Ok,
    {
        self.table.commit_all(commit_lsn, self.tx_id);
        Ok(())
    }

    /// The transaction of the writer.
    pub fn tx_id(&self) -> (r: TransactionId)
        ensures
            r == self.tx_id,
    {
        self.tx_id
    }

    /// The point of the log that the writer was made for.
    pub fn snapshot_lsn(&self) -> (r: LogSequenceNumber)
        ensures
            r == self.snapshot_lsn,
    {
        self.snapshot_lsn
    }
}

impl MemoryARTCursor {
    /// The cursors walk the same entries.
    pub open spec fn same_scan(&self, other: &Self) -> bool {
        self.entries == other.entries && self.snapshot_lsn == other.snapshot_lsn
    }

    /// Whether the cursor stands at an entry.
    pub fn valid(&self) -> (r: bool)
        ensures
            r == (self.position < self.entries.keys().len()),
    {
        self.position < self.entries.entries.len()
    }

    /// The key of the entry.
    pub fn key(&self) -> (r: Option<&[u8]>)
        ensures
            r is Some <==> self.position < self.entries.keys().len(),
            r matches Some(k) ==> k@ == self.entries.keys()[self.position as int],
    {
        if self.valid() {
            Some(self.entries.entries[self.position].0.as_slice())
        } else {
            None
        }
    }

    /// The value of the entry.
    pub fn value(&self) -> (r: Option<&[u8]>)
        requires
            self.entries.wf(),
        ensures
            r is Some <==> self.position < self.entries.keys().len(),
            r matches Some(v) ==> v@ == values_of(
                self.entries,
            )[self.entries.keys()[self.position as int]],
    {
        if self.valid() {
            proof {
                self.entries.lemma_entry(self.position as int);
            }
            Some(self.entries.entries[self.position].1.as_slice())
        } else {
            None
        }
    }

    /// Moves to the next entry, or past the last one.
    pub fn next(&mut self) -> (r: TableResult<()>)
        ensures
            final(self).same_scan(old(self)),
            final(self).position == (if old(self).position < old(self).entries.keys().len() {
                old(self).position + 1
            } else {
                old(self).position as int
            }),
            r is Ok,
    {
        if self.position < self.entries.entries.len() {
            self.position += 1;
        }
        Ok(())
    }

    /// Moves to the entry before, if there is one.
    pub fn prev(&mut self) -> (r: TableResult<()>)
        ensures
            final(self).same_scan(old(self)),
            final(self).position == (if old(self).position > 0 {
                old(self).position - 1
            } else {
                0
            }),
            r is Ok,
    {
        if self.position > 0 {
            self.position -= 1;
        }
        Ok(())
    }

    /// Moves to the first key that is not before `key`.
    pub fn seek(&mut self, key: &[u8]) -> (r: TableResult<()>)
        requires
            old(self).entries.wf(),
        ensures
            final(self).same_scan(old(self)),
            final(self).position == rank(old(self).entries.keys(), key@),
            forall|i: int|
                0 <= i < final(self).position ==> lex_lt(
                    #[trigger] final(self).entries.keys()[i],
                    key@,
                ),
            forall|i: int|
                final(self).position <= i < final(self).entries.keys().len() ==> lex_le(
                    key@,
                    #[trigger] final(self).entries.keys()[i],
                ),
            r is Ok,
    {
        let (pos, _) = self.entries.find(key);
        proof {
            lemma_position(&self.entries, key@, pos as int);
        }
        self.position = pos;
        Ok(())
    }

    /// Moves to the last key that is not after `key`, or to the first key if there is none.
    pub fn seek_for_prev(&mut self, key: &[u8]) -> (r: TableResult<()>)
        requires
            old(self).entries.wf(),
        ensures
            final(self).same_scan(old(self)),
            ({
                let at = rank(old(self).entries.keys(), key@);
                final(self).position == (if old(self).entries@.contains_key(key@) {
                    at
                } else if at > 0 {
                    at - 1
                } else {
                    0
                })
            }),
            forall|i: int|
                final(self).position < i < final(self).entries.keys().len() ==> lex_lt(
                    key@,
                    #[trigger] final(self).entries.keys()[i],
                ),
            (exists|i: int|
                0 <= i < final(self).entries.keys().len() && lex_le(
                    #[trigger] final(self).entries.keys()[i],
                    key@,
                )) ==> final(self).position < final(self).entries.keys().len() && lex_le(
                final(self).entries.keys()[final(self).position as int],
                key@,
            ),
            r is Ok,
    {
        let (pos, found) = self.entries.find(key);
        proof {
            let keys = self.entries.keys();
            lemma_position(&self.entries, key@, pos as int);
            lemma_lex_irreflexive(key@);
            assert forall|i: int| pos <= i < keys.len() && lex_lt(key@, keys[i]) implies !lex_le(
                #[trigger] keys[i],
                key@,
            ) by {
                lemma_lex_asymmetric(key@, keys[i]);
            }
        }
        self.position = if found || pos == 0 {
            pos
        } else {
            pos - 1
        };
        Ok(())
    }

    /// Moves to the first entry.
    pub fn first(&mut self) -> (r: TableResult<()>)
        ensures
            final(self).same_scan(old(self)),
            final(self).position == 0,
            r is Ok,
    {
        self.position = 0;
        Ok(())
    }

    /// Moves to the last entry, if there is one.
    pub fn last(&mut self) -> (r: TableResult<()>)
        ensures
            final(self).same_scan(old(self)),
            final(self).position == (if old(self).entries.keys().len() > 0 {
                old(self).entries.keys().len() - 1
            } else {
                old(self).position as int
            }),
            r is Ok,
    {
        if self.entries.entries.len() > 0 {
            self.position = self.entries.entries.len() - 1;
        }
        Ok(())
    }

    /// The point of the log that the cursor reads at.
    pub fn snapshot_lsn(&self) -> (r: LogSequenceNumber)
        ensures
            r == self.snapshot_lsn,
    {
        self.snapshot_lsn
    }
}

proof fn lemma_position(m: &ByteMap<Vec<u8>>, key: Seq<u8>, pos: int)
    requires
        m.wf(),
        0 <= pos <= m.keys().len(),
        forall|i: int| 0 <= i < pos ==> lex_lt(#[trigger] m.keys()[i], key),
        pos < m.keys().len() ==> m.keys()[pos] == key || lex_lt(key, m.keys()[pos]),
        forall|i: int|
            pos < i < m.keys().len() ==> lex_lt(key, #[trigger] m.keys()[i]),
    ensures
        rank(m.keys(), key) == pos,
{
    assert forall|i: int| pos <= i < m.keys().len() implies !lex_lt(
        #[trigger] m.keys()[i],
        key,
    ) by {
        lemma_lex_irreflexive(key);
        if lex_lt(key, m.keys()[i]) {
            lemma_lex_asymmetric(key, m.keys()[i]);
        }
    }
    lemma_rank(m.keys(), key, pos);
}

/// What a scan sees of a committed table is complete and in order: each key that the cursor
/// passes is after the ones before it, and every key within the bounds that the reader sees is
/// among them, with the value that a lookup gives.
pub proof fn law_scan_agrees_with_lookup(
    cursor: MemoryARTCursor,
    m: Chains,
    bounds: ScanBounds,
    key: Seq<u8>,
)
    requires
        cursor.entries.wf(),
        values_of(cursor.entries) == hits(m, bounds, cursor.snapshot_lsn),
    ensures
        ascending(cursor.entries.keys()),
        cursor.entries.keys().contains(key) <==> bounds.admits(key) && raw_read(
            m,
            key,
            cursor.snapshot_lsn,
        ) is Some,
        cursor.entries.keys().contains(key) ==> raw_read(m, key, cursor.snapshot_lsn) == Some(
            values_of(cursor.entries)[key],
        ),
{
    assert(values_of(cursor.entries).contains_key(key) <==> cursor.entries@.contains_key(key));
    assert(hits(m, bounds, cursor.snapshot_lsn).contains_key(key) <==> bounds.admits(key)
        && raw_read(m, key, cursor.snapshot_lsn) is Some);
}

} // verus!
