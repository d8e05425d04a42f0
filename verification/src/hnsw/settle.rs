//! Settling the versions of the nodes of a vector index, and what is known of the index.
use crate::fulltext::posting::{tombstone_marker, Moment};
use crate::hnsw::links::lemma_layer_fits;
use crate::hnsw::node::{load_node, node_at, node_bytes, update_node, with_node, NodeView};
use crate::hnsw::ops::{ids_in, lemma_reversioned, marked_deleted, new_node};
use crate::hnsw::table::{HnswConfig, PagedHnswVector, VectorMetric};
use crate::pager::{PageView, Pager, PagerError};
use crate::table::{
    SpecialtyTableCapabilities, SpecialtyTableStats, TableCapabilities, TableEngineKind, TableError,
    TableResult, TableStatistics,
};
use crate::txn::{
    commit_of, find_visible, has_none_pending, is_old, lemma_commit_is_later, saturated, vacuumed,
    Version,
};
use crate::types::{LogSequenceNumber, TableId, TransactionId};
use vstd::prelude::*;

verus! {

/// A transaction left a version of the node pending.
pub open spec fn is_pending(n: NodeView, tx: TransactionId) -> bool {
    !has_none_pending(n.versions, tx)
}

/// The node after the versions that a transaction left pending were committed.
pub open spec fn with_commit(n: NodeView, tx: TransactionId, lsn: LogSequenceNumber) -> NodeView {
    NodeView { versions: commit_of(n.versions, tx, lsn), ..n }
}

/// The node after its versions were vacuumed.
pub open spec fn with_vacuum(n: NodeView, min: LogSequenceNumber) -> NodeView {
    NodeView { versions: vacuumed(n.versions, min), ..n }
}

/// How many versions a vacuum removes from a node.
pub open spec fn removed_from(n: NodeView, min: LogSequenceNumber) -> int {
    n.versions.len() - vacuumed(n.versions, min).len()
}

/// The pages after the commit reached the listed nodes.
pub open spec fn committed_pages(
    pages: Map<u64, PageView>,
    ids: Seq<u32>,
    tx: TransactionId,
    lsn: LogSequenceNumber,
) -> Map<u64, PageView>
    decreases ids.len(),
{
    if ids.len() == 0 {
        pages
    } else {
        let before = committed_pages(pages, ids.drop_last(), tx, lsn);
        let n = node_at(before, ids.last())->Ok_0;
        if is_pending(n, tx) {
            with_node(before, ids.last(), with_commit(n, tx, lsn))
        } else {
            before
        }
    }
}

/// The pages after the vacuum reached the listed nodes.
pub open spec fn vacuumed_pages(
    pages: Map<u64, PageView>,
    ids: Seq<u32>,
    min: LogSequenceNumber,
) -> Map<u64, PageView>
    decreases ids.len(),
{
    if ids.len() == 0 {
        pages
    } else {
        let before = vacuumed_pages(pages, ids.drop_last(), min);
        let n = node_at(before, ids.last())->Ok_0;
        if removed_from(n, min) > 0 {
            with_node(before, ids.last(), with_vacuum(n, min))
        } else {
            before
        }
    }
}

/// How many versions the vacuum of the listed nodes removes.
pub open spec fn removed_count(pages: Map<u64, PageView>, ids: Seq<u32>, min: LogSequenceNumber) -> int
    decreases ids.len(),
{
    if ids.len() == 0 {
        0
    } else {
        removed_count(pages, ids.drop_last(), min) + removed_from(
            node_at(vacuumed_pages(pages, ids.drop_last(), min), ids.last())->Ok_0,
            min,
        )
    }
}

/// The commit stopped at the node whose page was too small.
pub open spec fn commit_stops(
    pages: Map<u64, PageView>,
    ids: Seq<u32>,
    tx: TransactionId,
    lsn: LogSequenceNumber,
    capacity: nat,
    k: int,
) -> bool {
    let before = committed_pages(pages, ids.take(k), tx, lsn);
    let n = node_at(before, ids[k])->Ok_0;
    0 <= k < ids.len() && is_pending(n, tx) && node_bytes(with_commit(n, tx, lsn)).len() > capacity
}

/// The vacuum stopped at the node whose page was too small.
pub open spec fn vacuum_stops(
    pages: Map<u64, PageView>,
    ids: Seq<u32>,
    min: LogSequenceNumber,
    capacity: nat,
    k: int,
) -> bool {
    let before = vacuumed_pages(pages, ids.take(k), min);
    let n = node_at(before, ids[k])->Ok_0;
    0 <= k < ids.len() && removed_from(n, min) > 0 && node_bytes(with_vacuum(n, min)).len()
        > capacity
}

/// A commit reaches every node of the list that has a version of the transaction pending, and
/// changes no other page.
pub proof fn law_commit_reaches_every_node(
    pages: Map<u64, PageView>,
    ids: Seq<u32>,
    tx: TransactionId,
    lsn: LogSequenceNumber,
    p: u64,
)
    requires
        ids.no_duplicates(),
    ensures
        ({
            let after = committed_pages(pages, ids, tx, lsn);
            let listed = p <= u32::MAX && ids.contains(p as u32);
            let n = node_at(pages, p as u32)->Ok_0;
            if listed && !has_none_pending(n.versions, tx) {
                &&& after.contains_key(p)
                &&& after[p].data == node_bytes(
                    NodeView { versions: commit_of(n.versions, tx, lsn), ..n },
                )
            } else {
                &&& after.contains_key(p) <==> pages.contains_key(p)
                &&& after[p] == pages[p]
            }
        }),
    decreases ids.len(),
{
    if ids.len() > 0 {
        let rest = ids.drop_last();
        let last = ids.last();
        law_commit_reaches_every_node(pages, rest, tx, lsn, p);
        law_commit_reaches_every_node(pages, rest, tx, lsn, last as u64);
        if rest.contains(last) {
            assert(ids[rest.index_of(last)] == ids[ids.len() - 1]);
        }
        assert(node_at(committed_pages(pages, rest, tx, lsn), last) == node_at(pages, last));
        assert(ids[ids.len() - 1] == last);
        if p <= u32::MAX {
            if rest.contains(p as u32) {
                assert(ids[rest.index_of(p as u32)] == p as u32);
            }
            if ids.contains(p as u32) && p as u32 != last {
                assert(rest[ids.index_of(p as u32)] == p as u32);
            }
        }
    }
}

/// A vacuum reaches every node of the list that has a version to lose, changes no other page, and
/// counts what all of them lose.
pub proof fn law_vacuum_reaches_every_node(
    pages: Map<u64, PageView>,
    ids: Seq<u32>,
    min: LogSequenceNumber,
    p: u64,
)
    requires
        ids.no_duplicates(),
    ensures
        ({
            let after = vacuumed_pages(pages, ids, min);
            let listed = p <= u32::MAX && ids.contains(p as u32);
            let n = node_at(pages, p as u32)->Ok_0;
            if listed && vacuumed(n.versions, min).len() < n.versions.len() {
                &&& after.contains_key(p)
                &&& after[p].data == node_bytes(
                    NodeView { versions: vacuumed(n.versions, min), ..n },
                )
            } else {
                &&& after.contains_key(p) <==> pages.contains_key(p)
                &&& after[p] == pages[p]
            }
        }),
        removed_count(pages, ids, min) == ids.fold_left(
            0int,
            |sum: int, id: u32|
                sum + node_at(pages, id)->Ok_0.versions.len() - vacuumed(
                    node_at(pages, id)->Ok_0.versions,
                    min,
                ).len(),
        ),
    decreases ids.len(),
{
    if ids.len() > 0 {
        let rest = ids.drop_last();
        let last = ids.last();
        law_vacuum_reaches_every_node(pages, rest, min, p);
        law_vacuum_reaches_every_node(pages, rest, min, last as u64);
        if rest.contains(last) {
            assert(ids[rest.index_of(last)] == ids[ids.len() - 1]);
        }
        assert(node_at(vacuumed_pages(pages, rest, min), last) == node_at(pages, last));
        assert(ids[ids.len() - 1] == last);
        if p <= u32::MAX {
            if rest.contains(p as u32) {
                assert(ids[rest.index_of(p as u32)] == p as u32);
            }
            if ids.contains(p as u32) && p as u32 != last {
                assert(rest[ids.index_of(p as u32)] == p as u32);
            }
        }
    }
}

/// A vector that was taken in is seen from the commit on, and by nobody before.
pub proof fn law_committed_vector_is_seen(
    id: Seq<u8>,
    vector: Seq<u32>,
    layer: usize,
    tx: TransactionId,
    lsn: LogSequenceNumber,
    at: Moment,
)
    ensures
        !new_node(id, vector, layer, tx).seen_at(at),
        with_commit(new_node(id, vector, layer, tx), tx, lsn).seen_at(at) <==> lsn.0 <= at.0.0
            && !at.1.contains(tx),
{
    let n = new_node(id, vector, layer, tx);
    reveal_with_fuel(find_visible, 2);
    assert(n.versions.drop_first() =~= Seq::empty());
    let c = with_commit(n, tx, lsn);
    assert(c.versions.drop_first() =~= Seq::empty());
    assert(c.versions[0].value == Seq::<u8>::empty());
    assert(tombstone_marker().len() == 1);
}

/// A deletion hides the vector from its commit on, and changes nothing for those who do not see it.
pub proof fn law_committed_deletion_hides(
    n: NodeView,
    tx: TransactionId,
    lsn: LogSequenceNumber,
    at: Moment,
)
    ensures
        marked_deleted(n, tx).seen_at(at) == n.seen_at(at),
        lsn.0 <= at.0.0 && !at.1.contains(tx) ==> !with_commit(marked_deleted(n, tx), tx, lsn).seen_at(
            at,
        ),
        lsn.0 > at.0.0 || at.1.contains(tx) ==> with_commit(marked_deleted(n, tx), tx, lsn).seen_at(at)
            == n.seen_at(at),
{
    let m = marked_deleted(n, tx);
    assert(m.versions.drop_first() =~= n.versions);
    let c = with_commit(m, tx, lsn);
    if lsn.0 > at.0.0 || at.1.contains(tx) {
        lemma_commit_is_later(m.versions, tx, lsn, at.0, at.1);
    }
    assert(c.versions[0].value == tombstone_marker());
}

/// A vacuum changes nothing for a snapshot from the given point on that hides no transaction.
pub proof fn law_vacuum_keeps_what_is_seen(n: NodeView, min: LogSequenceNumber, lsn: LogSequenceNumber)
    requires
        min.0 <= lsn.0 + 1,
    ensures
        with_vacuum(n, min).seen_at((lsn, Seq::empty())) == n.seen_at((lsn, Seq::empty())),
{
    lemma_vacuum_kept(n.versions, min, lsn);
}

proof fn lemma_vacuum_kept(vs: Seq<Version>, min: LogSequenceNumber, lsn: LogSequenceNumber)
    requires
        min.0 <= lsn.0 + 1,
    ensures
        find_visible(vacuumed(vs, min), lsn, Seq::empty()) == find_visible(vs, lsn, Seq::empty()),
    decreases vs.len(),
{
    if vs.len() > 0 {
        if is_old(vs[0], min) {
            assert(vacuumed(vs, min)[0] == vs[0]);
        } else {
            let rest = vs.drop_first();
            lemma_vacuum_kept(rest, min, lsn);
            assert(vacuumed(vs, min).drop_first() =~= vacuumed(rest, min));
        }
    }
}

/// A vacuum removes no more versions than there are.
proof fn lemma_vacuumed_len(vs: Seq<Version>, min: LogSequenceNumber)
    ensures
        vacuumed(vs, min).len() <= vs.len(),
    decreases vs.len(),
{
    if vs.len() > 0 && !is_old(vs[0], min) {
        lemma_vacuumed_len(vs.drop_first(), min);
    }
}

impl PagedHnswVector {
    /// Commits the versions that a transaction left pending, node by node.
    pub fn commit_versions(
        &self,
        pager: &mut Pager,
        tx_id: TransactionId,
        commit_lsn: LogSequenceNumber,
    ) -> (r: TableResult<()>)
        requires
            self.wf(old(pager)),
        ensures
            self.wf(final(pager)),
            final(pager).same_meta(old(pager)),
            match r {
                Ok(()) => final(pager).pages() == committed_pages(
                    old(pager).pages(),
                    ids_in(self.id_to_node),
                    tx_id,
                    commit_lsn,
                ) && forall|k: int| !#[trigger] commit_stops(
                    old(pager).pages(),
                    ids_in(self.id_to_node),
                    tx_id,
                    commit_lsn,
                    old(pager).capacity(),
                    k,
                ),
                Err(e) => e matches TableError::Pager(PagerError::PageOverflow { .. }) && exists|
                    k: int,
                | #[trigger]
                    commit_stops(
                        old(pager).pages(),
                        ids_in(self.id_to_node),
                        tx_id,
                        commit_lsn,
                        old(pager).capacity(),
                        k,
                    ) && final(pager).pages() == committed_pages(
                        old(pager).pages(),
                        ids_in(self.id_to_node).take(k),
                        tx_id,
                        commit_lsn,
                    ),
            },
    {
        let ghost pages0 = pager.pages();
        let ghost capacity = pager.capacity();
        let ghost ids = ids_in(self.id_to_node);
        let mut i: usize = 0;
        while i < self.id_to_node.entries.len()
            invariant
                i <= self.id_to_node.entries@.len(),
                self.wf(pager),
                pager.same_meta(old(pager)),
                capacity == pager.capacity(),
                capacity == old(pager).capacity(),
                pages0 == old(pager).pages(),
                ids == ids_in(self.id_to_node),
                pager.pages() == committed_pages(pages0, ids.take(i as int), tx_id, commit_lsn),
                forall|k: int|
                    k < i ==> !#[trigger] commit_stops(
                        pages0,
                        ids,
                        tx_id,
                        commit_lsn,
                        capacity,
                        k,
                    ),
            decreases self.id_to_node.entries@.len() - i,
        {
            let ghost pages1 = pager.pages();
            let id: u32 = self.id_to_node.entries[i].1;
            proof {
                self.id_to_node.lemma_entry(i as int);
                assert(self.id_to_node@.contains_key(self.id_to_node.entries@[i as int].0@));
                assert(self.nodes@.contains(id));
                assert(ids.take(i + 1).drop_last() =~= ids.take(i as int));
                assert(ids.take(i + 1).last() == id);
                lemma_layer_fits(pages1, id);
            }
            let mut node = match load_node(pager, id) {
                Ok(x) => x,
                Err(e) => return Err(e),
            };
            let ghost n = node@;
            proof {
                node.version_chain.lemma_view();
            }
            if node.version_chain.has_pending(tx_id) {
                node.version_chain.commit_of(tx_id, commit_lsn);
                assert(node@ =~= with_commit(n, tx_id, commit_lsn));
                let done = update_node(pager, id, &node);
                if let Err(e) = done {
                    proof {
                        assert(commit_stops(pages0, ids, tx_id, commit_lsn, capacity, i as int));
                    }
                    return Err(e);
                }
                proof {
                    lemma_reversioned(
                        pages1,
                        pager.pages(),
                        self.nodes@,
                        self.id_to_node@,
                        self.entry_point,
                        self.root_page_id,
                        id,
                        node@,
                    );
                }
            }
            i += 1;
        }
        assert(ids.take(i as int) =~= ids);
        Ok(())
    }

    /// Removes the versions that no snapshot from `min_visible_lsn` on can see. Returns how many.
    pub fn vacuum(&self, pager: &mut Pager, min_visible_lsn: LogSequenceNumber) -> (r:
        TableResult<usize>)
        requires
            self.wf(old(pager)),
        ensures
            self.wf(final(pager)),
            final(pager).same_meta(old(pager)),
            match r {
                Ok(n) => {
                    &&& final(pager).pages() == vacuumed_pages(
                        old(pager).pages(),
                        ids_in(self.id_to_node),
                        min_visible_lsn,
                    )
                    &&& n == saturated(
                        removed_count(
                            old(pager).pages(),
                            ids_in(self.id_to_node),
                            min_visible_lsn,
                        ),
                    )
                    &&& forall|k: int| !#[trigger] vacuum_stops(
                        old(pager).pages(),
                        ids_in(self.id_to_node),
                        min_visible_lsn,
                        old(pager).capacity(),
                        k,
                    )
                },
                Err(e) => e matches TableError::Pager(PagerError::PageOverflow { .. }) && exists|
                    k: int,
                | #[trigger]
                    vacuum_stops(
                        old(pager).pages(),
                        ids_in(self.id_to_node),
                        min_visible_lsn,
                        old(pager).capacity(),
                        k,
                    ) && final(pager).pages() == vacuumed_pages(
                        old(pager).pages(),
                        ids_in(self.id_to_node).take(k),
                        min_visible_lsn,
                    ),
            },
    {
        let ghost pages0 = pager.pages();
        let ghost capacity = pager.capacity();
        let ghost ids = ids_in(self.id_to_node);
        let mut total: usize = 0;
        let mut i: usize = 0;
        while i < self.id_to_node.entries.len()
            invariant
                i <= self.id_to_node.entries@.len(),
                self.wf(pager),
                pager.same_meta(old(pager)),
                capacity == pager.capacity(),
                capacity == old(pager).capacity(),
                pages0 == old(pager).pages(),
                ids == ids_in(self.id_to_node),
                pager.pages() == vacuumed_pages(pages0, ids.take(i as int), min_visible_lsn),
                total == saturated(removed_count(pages0, ids.take(i as int), min_visible_lsn)),
                removed_count(pages0, ids.take(i as int), min_visible_lsn) >= 0,
                forall|k: int|
                    k < i ==> !#[trigger] vacuum_stops(pages0, ids, min_visible_lsn, capacity, k),
            decreases self.id_to_node.entries@.len() - i,
        {
            let ghost pages1 = pager.pages();
            let id: u32 = self.id_to_node.entries[i].1;
            proof {
                self.id_to_node.lemma_entry(i as int);
                assert(self.id_to_node@.contains_key(self.id_to_node.entries@[i as int].0@));
                assert(self.nodes@.contains(id));
                assert(ids.take(i + 1).drop_last() =~= ids.take(i as int));
                assert(ids.take(i + 1).last() == id);
                lemma_layer_fits(pages1, id);
            }
            let mut node = match load_node(pager, id) {
                Ok(x) => x,
                Err(e) => return Err(e),
            };
            let ghost n = node@;
            let removed: usize = node.version_chain.vacuum(min_visible_lsn);
            proof {
                lemma_vacuumed_len(n.versions, min_visible_lsn);
                assert(node@ =~= with_vacuum(n, min_visible_lsn));
            }
            if removed > 0 {
                let done = update_node(pager, id, &node);
                if let Err(e) = done {
                    proof {
                        assert(vacuum_stops(pages0, ids, min_visible_lsn, capacity, i as int));
                    }
                    return Err(e);
                }
                total = total.saturating_add(removed);
                proof {
                    lemma_reversioned(
                        pages1,
                        pager.pages(),
                        self.nodes@,
                        self.id_to_node@,
                        self.entry_point,
                        self.root_page_id,
                        id,
                        node@,
                    );
                }
            }
            i += 1;
        }
        assert(ids.take(i as int) =~= ids);
        Ok(total)
    }

    /// The identifier of the index.
    pub fn table_id(&self) -> (r: TableId)
        ensures
            r == self.table_id,
    {
        self.table_id
    }

    /// The name of the index.
    pub fn name(&self) -> (r: &str)
        ensures
            r@ == self.name@,
    {
        self.name.as_str()
    }

    /// What sort of table it is.
    pub fn kind(&self) -> (r: TableEngineKind)
        ensures
            r == TableEngineKind::VectorHnsw,
    {
        TableEngineKind::VectorHnsw
    }

    /// What the index can do as a table.
    pub fn capabilities(&self) -> (r: TableCapabilities)
        ensures
            r == (TableCapabilities {
                ordered: false,
                point_lookup: false,
                prefix_scan: false,
                reverse_scan: false,
                range_delete: false,
                merge_operator: false,
                mvcc_native: false,
                append_optimized: false,
                memory_resident: true,
                disk_resident: false,
                supports_compression: false,
                supports_encryption: false,
            }),
    {
        TableCapabilities {
            ordered: false,
            point_lookup: false,
            prefix_scan: false,
            reverse_scan: false,
            range_delete: false,
            merge_operator: false,
            mvcc_native: false,
            append_optimized: false,
            memory_resident: true,
            disk_resident: false,
            supports_compression: false,
            supports_encryption: false,
        }
    }

    /// The size that the index is taken to have: the vectors, 32 bytes for each key, the links of
    /// the lowest layer, and a page.
    pub open spec fn estimate(&self) -> int {
        self.num_vectors * self.config.dimensions * 4 + self.num_vectors * 32 + self.num_vectors
            * self.config.max_connections_layer0 * 4 + 4096
    }

    fn estimated_size(&self) -> (r: u64)
        requires
            self.estimate() <= u64::MAX,
        ensures
            r == self.estimate(),
    {
        let n: u64 = self.num_vectors as u64;
        let d: u64 = self.config.dimensions as u64;
        let m: u64 = self.config.max_connections_layer0 as u64;
        proof {
            assert(n * d >= 0) by (nonlinear_arith);
            assert(n * m >= 0) by (nonlinear_arith);
        }
        n * d * 4 + n * 32 + n * m * 4 + 4096
    }

    /// What is known of the index as a table.
    pub fn stats(&self) -> (r: TableStatistics)
        requires
            self.estimate() <= u64::MAX,
        ensures
            r == (TableStatistics {
                row_count: Some(self.num_vectors as u64),
                page_count: None,
                total_size_bytes: Some(self.estimate() as u64),
                key_stats: None,
                value_stats: None,
                last_updated_lsn: None,
            }),
    {
        TableStatistics {
            row_count: Some(self.num_vectors as u64),
            page_count: None,
            total_size_bytes: Some(self.estimated_size()),
            key_stats: None,
            value_stats: None,
            last_updated_lsn: None,
        }
    }

    /// What is known of the index as a specialty table.
    pub fn specialty_stats(&self) -> (r: SpecialtyTableStats)
        requires
            self.estimate() <= u64::MAX,
        ensures
            r == (SpecialtyTableStats {
                entry_count: Some(self.num_vectors as u64),
                size_bytes: Some(self.estimate() as u64),
                distinct_keys: Some(self.num_vectors as u64),
                stale_entries: None,
                last_updated_lsn: None,
            }),
    {
        SpecialtyTableStats {
            entry_count: Some(self.num_vectors as u64),
            size_bytes: Some(self.estimated_size()),
            distinct_keys: Some(self.num_vectors as u64),
            stale_entries: None,
            last_updated_lsn: None,
        }
    }

    /// What the index can do as a specialty table.
    pub fn specialty_capabilities(&self) -> (r: SpecialtyTableCapabilities)
        ensures
            r == (SpecialtyTableCapabilities {
                exact: false,
                approximate: true,
                ordered: false,
                sparse: false,
                supports_delete: true,
                supports_range_query: false,
                supports_prefix_query: false,
                supports_scoring: true,
                supports_incremental_rebuild: false,
                may_be_stale: false,
            }),
    {
        SpecialtyTableCapabilities {
            exact: false,
            approximate: true,
            ordered: false,
            sparse: false,
            supports_delete: true,
            supports_range_query: false,
            supports_prefix_query: false,
            supports_scoring: true,
            supports_incremental_rebuild: false,
            may_be_stale: false,
        }
    }

    /// How many components the vectors have.
    pub fn dimensions(&self) -> (r: usize)
        ensures
            r == self.config.dimensions,
    {
        self.config.dimensions
    }

    /// How distances are measured.
    pub fn metric(&self) -> (r: VectorMetric)
        ensures
            r == self.config.metric,
    {
        self.config.metric
    }

    /// Sets how many candidates a search for links keeps.
    pub fn set_ef_construction(&mut self, ef: usize)
        ensures
            *final(self) == (PagedHnswVector {
                config: HnswConfig {
                    ef_construction: ef,
                    ..old(self).config
                },
                ..*old(self)
            }),
    {
        self.config.ef_construction = ef;
    }

    /// Sets how many links a node may have: twice as many on the lowest layer.
    pub fn set_max_connections(&mut self, m: usize)
        requires
            m * 2 <= usize::MAX,
        ensures
            *final(self) == (PagedHnswVector {
                config: HnswConfig {
                    max_connections: m,
                    max_connections_layer0: (m * 2) as usize,
                    ..old(self).config
                },
                ..*old(self)
            }),
    {
        self.config.max_connections = m;
        self.config.max_connections_layer0 = m * 2;
    }
}

} // verus!
