//! A graph in memory: edges with versions, found from either end.
use crate::bytemap::{ascending, ByteMap};
use crate::bytes::{append_bytes, bytes_equal, copy_bytes};
use crate::graph::edges::{
    edge_views, is_record_of, label_view, lemma_record_put, records_fit, seen_edge, seen_edges,
    versions_among, with_edge, without_edge, Edge, EdgeChains, EdgeKey, EdgeTable, EdgeView,
};
use crate::graph::walk::names;
use crate::hash::{with_committed_put, MemoryHashTable};
use crate::mvcc::{version_total, with_commit, with_vacuum, Chains};
use crate::table::{
    SpecialtyTableCapabilities, SpecialtyTableStats, TableCapabilities, TableEngineKind, TableError,
    TableResult, TableStatistics, VerificationReport,
};
use crate::txn::{
    commit_pending, lemma_dropped, lemma_vacuum_keeps_reads, saturated, vacuumed, Version,
};
use crate::types::{LogSequenceNumber, TableId, TransactionId};
use crate::wire::{edge_record, edge_record_of, write_edge};
use vstd::bytes::*;
use vstd::prelude::*;
use vstd::string::*;

verus! {

/// The settings of a graph.
#[derive(Clone, Copy, Debug, PartialEq, Eq, Structural)]
pub struct GraphConfig {
    /// Whether an edge leads one way only.
    pub directed: bool,
    /// Whether edges are kept in an index in memory.
    pub use_memory_index: bool,
}

impl Default for GraphConfig {
    fn default() -> (r: Self)
        ensures
            r == (GraphConfig { directed: true, use_memory_index: true }),
    {
        GraphConfig { directed: true, use_memory_index: true }
    }
}

impl GraphConfig {
    /// A directed graph with an index in memory.
    pub fn new() -> (r: Self)
        ensures
            r == (GraphConfig { directed: true, use_memory_index: true }),
    {
        Self::default()
    }

    /// Sets whether an edge leads one way only.
    pub fn with_directed(self, directed: bool) -> (r: Self)
        ensures
            r == (GraphConfig { directed, ..self }),
    {
        GraphConfig { directed, ..self }
    }

    /// Sets whether edges are kept in an index in memory.
    pub fn with_memory_index(self, use_memory_index: bool) -> (r: Self)
        ensures
            r == (GraphConfig { use_memory_index, ..self }),
    {
        GraphConfig { use_memory_index, ..self }
    }
}

/// A byte string behind its length.
pub open spec fn framed(s: Seq<u8>) -> Seq<u8> {
    spec_u64_to_le_bytes(s.len() as u64) + s
}

/// What the data of an edge is stored under.
pub open spec fn edge_data_key(edge_id: Seq<u8>) -> Seq<u8> {
    seq![0u8] + framed(edge_id)
}

/// What an edge is stored under at the vertex that it leads away from.
pub open spec fn outgoing_key(source: Seq<u8>, label: Seq<u8>, edge_id: Seq<u8>) -> Seq<u8> {
    seq![1u8] + framed(source) + framed(label) + framed(edge_id)
}

/// What an edge is stored under at the vertex that it leads to.
pub open spec fn incoming_key(target: Seq<u8>, label: Seq<u8>, edge_id: Seq<u8>) -> Seq<u8> {
    seq![2u8] + framed(target) + framed(label) + framed(edge_id)
}

/// The data of an edge as bytes.
pub open spec fn edge_data(source: Seq<u8>, label: Seq<u8>, target: Seq<u8>, weight: Option<u64>) -> Seq<
    u8,
> {
    framed(source) + framed(label) + framed(target) + (match weight {
        Some(w) => seq![1u8] + spec_u64_to_le_bytes(w),
        None => seq![0u8],
    })
}

/// A key and what is put under it.
pub type Put = (Seq<u8>, Seq<u8>);

/// What an edge is stored as.
pub open spec fn edge_puts(
    directed: bool,
    source: Seq<u8>,
    label: Seq<u8>,
    target: Seq<u8>,
    edge_id: Seq<u8>,
    data: Seq<u8>,
    at_source: Seq<u8>,
    at_target: Seq<u8>,
) -> Seq<Put> {
    let one_way = seq![
        (edge_data_key(edge_id), data),
        (outgoing_key(source, label, edge_id), at_source),
        (incoming_key(target, label, edge_id), at_target),
    ];
    if directed {
        one_way
    } else {
        one_way + seq![
            (outgoing_key(target, label, edge_id), at_target),
            (incoming_key(source, label, edge_id), at_source),
        ]
    }
}

/// The store after the puts, in order.
pub open spec fn with_puts(m: Chains, puts: Seq<Put>, tx: TransactionId, lsn: LogSequenceNumber) -> Chains
    decreases puts.len(),
{
    if puts.len() == 0 {
        m
    } else {
        with_committed_put(
            with_puts(m, puts.drop_last(), tx, lsn),
            puts.last().0,
            puts.last().1,
            tx,
            lsn,
        )
    }
}

/// The puts as the contracts speak of them.
pub open spec fn put_views(puts: Seq<(Vec<u8>, Vec<u8>)>) -> Seq<Put> {
    Seq::new(puts.len(), |i: int| (puts[i].0@, puts[i].1@))
}

fn append_framed(out: &mut Vec<u8>, s: &[u8])
    ensures
        final(out)@ == old(out)@ + framed(s@),
{
    append_bytes(out, u64_to_le_bytes(s.len() as u64).as_slice());
    append_bytes(out, s);
    assert(out@ =~= old(out)@ + framed(s@));
}

fn triple_key(tag: u8, vertex: &[u8], label: &[u8], edge_id: &[u8]) -> (r: Vec<u8>)
    ensures
        r@ == seq![tag] + framed(vertex@) + framed(label@) + framed(edge_id@),
{
    let mut out: Vec<u8> = Vec::new();
    out.push(tag);
    assert(out@ =~= seq![tag]);
    append_framed(&mut out, vertex);
    append_framed(&mut out, label);
    append_framed(&mut out, edge_id);
    out
}

/// A graph in memory.
pub struct MemoryGraphTable {
    pub table_id: TableId,
    pub name: String,
    pub config: GraphConfig,
    pub storage: MemoryHashTable,
    /// The edges by the vertex that they lead away from.
    pub outgoing_edges: EdgeTable,
    /// The edges by the vertex that they lead to.
    pub incoming_edges: EdgeTable,
    pub vertex_set: ByteMap<()>,
}

/// The edges by source after one was added.
pub open spec fn outgoing_with(
    m: EdgeChains,
    directed: bool,
    source: Seq<u8>,
    label: Seq<u8>,
    target: Seq<u8>,
    edge_id: Seq<u8>,
    weight: Option<u64>,
    tx: TransactionId,
) -> EdgeChains {
    let there = with_edge(
        m,
        (source, label, edge_id),
        edge_record(edge_id, source, label, target, kept_weight(weight)),
        tx,
    );
    if directed {
        there
    } else {
        with_edge(
            there,
            (target, label, edge_id),
            edge_record(edge_id, target, label, source, None),
            tx,
        )
    }
}

/// The edges by target after one was added.
pub open spec fn incoming_with(
    m: EdgeChains,
    directed: bool,
    source: Seq<u8>,
    label: Seq<u8>,
    target: Seq<u8>,
    edge_id: Seq<u8>,
    weight: Option<u64>,
    tx: TransactionId,
) -> EdgeChains {
    let there = with_edge(
        m,
        (target, label, edge_id),
        edge_record(edge_id, source, label, target, kept_weight(weight)),
        tx,
    );
    if directed {
        there
    } else {
        with_edge(
            there,
            (source, label, edge_id),
            edge_record(edge_id, target, label, source, None),
            tx,
        )
    }
}

/// The edges by one end after one was removed.
pub open spec fn edges_without(
    m: EdgeChains,
    directed: bool,
    near: Seq<u8>,
    label: Seq<u8>,
    far: Seq<u8>,
    edge_id: Seq<u8>,
    tx: TransactionId,
) -> EdgeChains {
    let there = without_edge(m, (near, label, edge_id), tx);
    if directed {
        there
    } else {
        without_edge(there, (far, label, edge_id), tx)
    }
}

/// The weight as it is kept: a number that is not finite is none.
pub open spec fn kept_weight(weight: Option<u64>) -> Option<u64> {
    match weight {
        Some(bits) => if (bits / 0x10_0000_0000_0000) % 0x800 == 0x7ff {
            None
        } else {
            Some(bits)
        },
        None => None,
    }
}

/// A weight is kept as it is if it is a finite number: without its sign its bits are below those of
/// infinity. No other weight is kept.
pub proof fn law_finite_weight_is_kept(bits: u64)
    ensures
        bits % 0x8000_0000_0000_0000 < 0x7ff0_0000_0000_0000 ==> kept_weight(Some(bits)) == Some(
            bits,
        ),
        bits % 0x8000_0000_0000_0000 >= 0x7ff0_0000_0000_0000 ==> kept_weight(Some(bits)) is None,
        kept_weight(None) is None,
{
    let sign = bits / 0x8000_0000_0000_0000;
    let rest = bits % 0x8000_0000_0000_0000;
    let exponent = rest / 0x10_0000_0000_0000;
    assert(bits == sign * 0x8000_0000_0000_0000 + rest);
    assert(bits / 0x10_0000_0000_0000 == sign * 0x800 + exponent);
    assert((sign * 0x800 + exponent) % 0x800 == exponent);
}

proof fn lemma_commit_fits(m: EdgeChains, by_source: bool, lsn: LogSequenceNumber)
    requires
        records_fit(m, by_source),
    ensures
        records_fit(m.map_values(|vs: Seq<Version>| commit_pending(vs, lsn)), by_source),
{
    let after = m.map_values(|vs: Seq<Version>| commit_pending(vs, lsn));
    assert forall|k: EdgeKey, i: int|
        after.contains_key(k) && 0 <= i < after[k].len() && (
        #[trigger] after[k][i]).value.len() > 0 implies is_record_of(
        k,
        after[k][i].value,
        by_source,
    ) by {
        assert(after[k][i].value == m[k][i].value);
    }
}

proof fn lemma_vacuum_fits(m: EdgeChains, by_source: bool, min: LogSequenceNumber)
    requires
        records_fit(m, by_source),
    ensures
        records_fit(m.map_values(|vs: Seq<Version>| vacuumed(vs, min)), by_source),
{
    let after = m.map_values(|vs: Seq<Version>| vacuumed(vs, min));
    assert forall|k: EdgeKey, i: int|
        after.contains_key(k) && 0 <= i < after[k].len() && (
        #[trigger] after[k][i]).value.len() > 0 implies is_record_of(
        k,
        after[k][i].value,
        by_source,
    ) by {
        lemma_dropped(m[k], min);
        assert(after[k][i] == m[k][i]);
    }
}

/// A vacuum leaves the lists of edges as they are.
proof fn lemma_vacuum_lists(
    before: EdgeTable,
    after: EdgeTable,
    min: LogSequenceNumber,
    vertex: Seq<u8>,
    label: Option<Seq<u8>>,
)
    requires
        before.wf(),
        after.wf(),
        after.keys() == before.keys(),
        after.chains() == before.chains().map_values(|vs: Seq<Version>| vacuumed(vs, min)),
    ensures
        seen_edges(after.slots@, vertex, label, after.slots@.len() as int) == seen_edges(
            before.slots@,
            vertex,
            label,
            before.slots@.len() as int,
        ),
{
    assert(after.keys().len() == before.keys().len());
    assert forall|k: EdgeKey| #[trigger] before.chains().contains_key(k) implies seen_edge(
        before.chains()[k],
    ) == seen_edge(after.chains()[k]) by {
        lemma_vacuum_keeps_reads(
            before.chains()[k],
            min,
            LogSequenceNumber(u64::MAX),
            Seq::empty(),
        );
    }
    before.lemma_same_seen(&after, vertex, label, before.slots@.len() as int);
    assert(before.keys().len() == before.slots@.len());
    assert(after.keys().len() == after.slots@.len());
}

/// One of the edges leads to the vertex.
pub open spec fn leads_to(edges: Seq<EdgeView>, target: Seq<u8>) -> bool {
    exists|i: int| 0 <= i < edges.len() && (#[trigger] edges[i]).target == target
}

impl MemoryGraphTable {
    /// The parts of the graph are sound, and every edge is held at its own ends.
    pub open spec fn wf(&self) -> bool {
        &&& self.storage.wf()
        &&& self.outgoing_edges.wf()
        &&& self.incoming_edges.wf()
        &&& self.vertex_set.wf()
        &&& records_fit(self.outgoing_edges.chains(), true)
        &&& records_fit(self.incoming_edges.chains(), false)
    }

    /// The graphs have the same name and settings.
    pub open spec fn same_identity(&self, other: &Self) -> bool {
        &&& self.table_id == other.table_id
        &&& self.name == other.name
        &&& self.config == other.config
    }

    /// The vertices of the graph.
    pub open spec fn vertex_names(&self) -> Set<Seq<u8>> {
        self.vertex_set@.dom()
    }

    /// An empty graph.
    pub fn new(table_id: TableId, name: String, config: GraphConfig) -> (r: Self)
        ensures
            r.wf(),
            r.table_id == table_id,
            r.name == name,
            r.config == config,
            r.storage.name@ == name@ + "_storage"@,
            r.storage.chains() == Map::<Seq<u8>, Seq<Version>>::empty(),
            r.outgoing_edges.chains() == Map::<EdgeKey, Seq<Version>>::empty(),
            r.incoming_edges.chains() == Map::<EdgeKey, Seq<Version>>::empty(),
            r.vertex_names() == Set::<Seq<u8>>::empty(),
    {
        let storage_name = String::from_str(name.as_str()).concat("_storage");
        let r = MemoryGraphTable {
            table_id,
            name,
            config,
            storage: MemoryHashTable::new(table_id, storage_name),
            outgoing_edges: EdgeTable::new(),
            incoming_edges: EdgeTable::new(),
            vertex_set: ByteMap::new(),
        };
        assert(r.vertex_names() =~= Set::<Seq<u8>>::empty());
        r
    }

    /// Commits the store's pending versions of the transaction, and every pending version of the
    /// index.
    pub fn commit_versions(&mut self, tx_id: TransactionId, commit_lsn: LogSequenceNumber) -> (r:
        TableResult<()>)
        requires
            old(self).wf(),
        ensures
            r is Ok,
            final(self).wf(),
            final(self).same_identity(old(self)),
            final(self).vertex_set == old(self).vertex_set,
            final(self).storage.chains() == with_commit(
                old(self).storage.chains(),
                tx_id,
                commit_lsn,
            ),
            old(self).config.use_memory_index ==> {
                &&& final(self).outgoing_edges.chains() == old(self).outgoing_edges.chains().map_values(
                    |vs: Seq<Version>| commit_pending(vs, commit_lsn),
                )
                &&& final(self).incoming_edges.chains() == old(self).incoming_edges.chains().map_values(
                    |vs: Seq<Version>| commit_pending(vs, commit_lsn),
                )
            },
            !old(self).config.use_memory_index ==> {
                &&& final(self).outgoing_edges == old(self).outgoing_edges
                &&& final(self).incoming_edges == old(self).incoming_edges
            },
    {
        let _ = self.storage.commit_versions(tx_id, commit_lsn);
        if self.config.use_memory_index {
            self.outgoing_edges.commit_pending(commit_lsn);
            self.incoming_edges.commit_pending(commit_lsn);
            proof {
                lemma_commit_fits(old(self).outgoing_edges.chains(), true, commit_lsn);
                lemma_commit_fits(old(self).incoming_edges.chains(), false, commit_lsn);
            }
        }
        Ok(())
    }

    /// Adds a vertex. Edges add theirs by themselves.
    pub fn add_vertex(&mut self, vertex: &[u8]) -> (r: TableResult<()>)
        requires
            old(self).wf(),
        ensures
            r is Ok,
            final(self).wf(),
            final(self).same_identity(old(self)),
            final(self).storage == old(self).storage,
            final(self).outgoing_edges == old(self).outgoing_edges,
            final(self).incoming_edges == old(self).incoming_edges,
            final(self).vertex_names() == (if old(self).config.use_memory_index {
                old(self).vertex_names().insert(vertex@)
            } else {
                old(self).vertex_names()
            }),
    {
        if self.config.use_memory_index {
            let _ = self.vertex_set.insert(copy_bytes(vertex), ());
            assert(self.vertex_names() =~= old(self).vertex_names().insert(vertex@));
        }
        Ok(())
    }

    /// All vertices, in order. Only an index in memory knows them.
    pub fn vertices(&self) -> (r: TableResult<Vec<Vec<u8>>>)
        requires
            self.wf(),
        ensures
            self.config.use_memory_index ==> {
                &&& r is Ok
                &&& ascending(names(r->Ok_0@))
                &&& names(r->Ok_0@).to_set() == self.vertex_names()
            },
            !self.config.use_memory_index ==> r == Err::<Vec<Vec<u8>>, TableError>(
                TableError::OperationNotSupported,
            ),
    {
        if !self.config.use_memory_index {
            return Err(TableError::OperationNotSupported);
        }
        let mut out: Vec<Vec<u8>> = Vec::new();
        let mut i: usize = 0;
        while i < self.vertex_set.entries.len()
            invariant
                i <= self.vertex_set.entries@.len(),
                out@.len() == i,
                forall|j: int| 0 <= j < i ==> (#[trigger] out@[j])@ == self.vertex_set.keys()[j],
            decreases self.vertex_set.entries@.len() - i,
        {
            out.push(copy_bytes(self.vertex_set.entries[i].0.as_slice()));
            i += 1;
        }
        proof {
            let keys = self.vertex_set.keys();
            assert(names(out@) =~= keys);
            assert forall|v: Seq<u8>| keys.to_set().contains(v) <==> self.vertex_names().contains(
                v,
            ) by {
                if keys.contains(v) {
                    let j = keys.index_of(v);
                    self.vertex_set.lemma_entry(j);
                }
                if self.vertex_names().contains(v) {
                    let j = self.vertex_set.lemma_key(v);
                    assert(keys[j] == v);
                }
            }
            assert(keys.to_set() =~= self.vertex_names());
        }
        Ok(out)
    }

    fn store_all(
        &mut self,
        puts: Vec<(Vec<u8>, Vec<u8>)>,
        tx_id: TransactionId,
        lsn: LogSequenceNumber,
    )
        requires
            old(self).wf(),
            forall|i: int|
                0 <= i < puts@.len() ==> (#[trigger] puts@[i]).0@.len() + puts@[i].1@.len() + 16
                    <= usize::MAX,
        ensures
            final(self).wf(),
            final(self).same_identity(old(self)),
            final(self).outgoing_edges == old(self).outgoing_edges,
            final(self).incoming_edges == old(self).incoming_edges,
            final(self).vertex_set == old(self).vertex_set,
            final(self).storage.chains() == with_puts(
                old(self).storage.chains(),
                put_views(puts@),
                tx_id,
                lsn,
            ),
    {
        let ghost ps = put_views(puts@);
        let ghost m = self.storage.chains();
        let mut i: usize = 0;
        assert(ps.take(0) =~= Seq::empty());
        while i < puts.len()
            invariant
                i <= puts@.len(),
                ps == put_views(puts@),
                m == old(self).storage.chains(),
                self.wf(),
                self.same_identity(old(self)),
                self.outgoing_edges == old(self).outgoing_edges,
                self.incoming_edges == old(self).incoming_edges,
                self.vertex_set == old(self).vertex_set,
                forall|j: int|
                    0 <= j < puts@.len() ==> (#[trigger] puts@[j]).0@.len() + puts@[j].1@.len() + 16
                        <= usize::MAX,
                self.storage.chains() == with_puts(m, ps.take(i as int), tx_id, lsn),
            decreases puts@.len() - i,
        {
            proof {
                assert(ps.take(i + 1).drop_last() =~= ps.take(i as int));
                assert(ps.take(i + 1).last() == ps[i as int]);
            }
            let _ = self.storage.put(puts[i].0.as_slice(), puts[i].1.as_slice(), tx_id, lsn);
            i += 1;
        }
        assert(ps.take(i as int) =~= ps);
    }

    fn make_puts(
        directed: bool,
        source: &[u8],
        label: &[u8],
        target: &[u8],
        edge_id: &[u8],
        data: Vec<u8>,
        at_source: &[u8],
        at_target: &[u8],
    ) -> (r: Vec<(Vec<u8>, Vec<u8>)>)
        requires
            at_source@.len() <= target@.len(),
            at_target@.len() <= source@.len(),
            data@.len() <= source@.len() + label@.len() + target@.len() + 33,
            2 * source@.len() + label@.len() + 2 * target@.len() + edge_id@.len() + 64
                <= usize::MAX,
        ensures
            put_views(r@) == edge_puts(
                directed,
                source@,
                label@,
                target@,
                edge_id@,
                data@,
                at_source@,
                at_target@,
            ),
            forall|i: int|
                0 <= i < r@.len() ==> (#[trigger] r@[i]).0@.len() + r@[i].1@.len() + 16
                    <= usize::MAX,
    {
        let mut puts: Vec<(Vec<u8>, Vec<u8>)> = Vec::new();
        let mut data_key: Vec<u8> = Vec::new();
        data_key.push(0);
        assert(data_key@ =~= seq![0u8]);
        append_framed(&mut data_key, edge_id);
        proof {
            lemma_auto_spec_u64_to_from_le_bytes();
        }
        puts.push((data_key, data));
        puts.push((triple_key(1, source, label, edge_id), copy_bytes(at_source)));
        puts.push((triple_key(2, target, label, edge_id), copy_bytes(at_target)));
        if !directed {
            puts.push((triple_key(1, target, label, edge_id), copy_bytes(at_target)));
            puts.push((triple_key(2, source, label, edge_id), copy_bytes(at_source)));
        }
        assert(put_views(puts@) =~= edge_puts(
            directed,
            source@,
            label@,
            target@,
            edge_id@,
            data@,
            at_source@,
            at_target@,
        ));
        puts
    }

    /// Adds an edge without a weight.
    pub fn add_edge(
        &mut self,
        source: &[u8],
        label: &[u8],
        target: &[u8],
        edge_id: &[u8],
        tx_id: TransactionId,
        commit_lsn: LogSequenceNumber,
    ) -> (r: TableResult<()>)
        requires
            old(self).wf(),
            2 * source@.len() + label@.len() + 2 * target@.len() + edge_id@.len() + 64
                <= usize::MAX,
        ensures
            r is Ok,
            final(self).is_with_edge(
                old(self),
                source@,
                label@,
                target@,
                edge_id@,
                None,
                tx_id,
                commit_lsn,
            ),
    {
        self.add_edge_with_weight(source, label, target, edge_id, None, tx_id, commit_lsn)
    }

    /// The graph after an edge was added.
    pub open spec fn is_with_edge(
        &self,
        before: &Self,
        source: Seq<u8>,
        label: Seq<u8>,
        target: Seq<u8>,
        edge_id: Seq<u8>,
        weight: Option<u64>,
        tx: TransactionId,
        lsn: LogSequenceNumber,
    ) -> bool {
        let directed = before.config.directed;
        &&& self.wf()
        &&& self.same_identity(before)
        &&& self.storage.chains() == with_puts(
            before.storage.chains(),
            edge_puts(
                directed,
                source,
                label,
                target,
                edge_id,
                edge_data(source, label, target, weight),
                target,
                source,
            ),
            tx,
            lsn,
        )
        &&& if before.config.use_memory_index {
            &&& self.vertex_names() == before.vertex_names().insert(source).insert(target)
            &&& self.outgoing_edges.chains() == outgoing_with(
                before.outgoing_edges.chains(),
                directed,
                source,
                label,
                target,
                edge_id,
                weight,
                tx,
            )
            &&& self.incoming_edges.chains() == incoming_with(
                before.incoming_edges.chains(),
                directed,
                source,
                label,
                target,
                edge_id,
                weight,
                tx,
            )
            &&& edge_record(edge_id, source, label, target, kept_weight(weight)).len() > 0
            &&& edge_record_of(
                edge_record(edge_id, source, label, target, kept_weight(weight)),
            ) == Some((edge_id, source, label, target, kept_weight(weight)))
            &&& !directed ==> edge_record(edge_id, target, label, source, None).len() > 0
                && edge_record_of(edge_record(edge_id, target, label, source, None)) == Some(
                (edge_id, target, label, source, None::<u64>),
            )
        } else {
            &&& self.vertex_set == before.vertex_set
            &&& self.outgoing_edges == before.outgoing_edges
            &&& self.incoming_edges == before.incoming_edges
        }
    }

    /// Adds an edge. In a graph that is not directed it leads both ways; the way back has no
    /// weight. The index keeps no weight that is not finite.
    pub fn add_edge_with_weight(
        &mut self,
        source: &[u8],
        label: &[u8],
        target: &[u8],
        edge_id: &[u8],
        weight: Option<u64>,
        tx_id: TransactionId,
        commit_lsn: LogSequenceNumber,
    ) -> (r: TableResult<()>)
        requires
            old(self).wf(),
            2 * source@.len() + label@.len() + 2 * target@.len() + edge_id@.len() + 64
                <= usize::MAX,
        ensures
            r is Ok,
            final(self).is_with_edge(
                old(self),
                source@,
                label@,
                target@,
                edge_id@,
                weight,
                tx_id,
                commit_lsn,
            ),
    {
        let directed: bool = self.config.directed;
        let mut data: Vec<u8> = Vec::new();
        append_framed(&mut data, source);
        append_framed(&mut data, label);
        append_framed(&mut data, target);
        let ghost front = data@;
        match weight {
            Some(w) => {
                data.push(1);
                append_bytes(&mut data, u64_to_le_bytes(w).as_slice());
                assert(data@ =~= front + (seq![1u8] + spec_u64_to_le_bytes(w)));
            },
            None => {
                data.push(0);
                assert(data@ =~= front + seq![0u8]);
            },
        }
        proof {
            lemma_auto_spec_u64_to_from_le_bytes();
            assert(data@ =~= edge_data(source@, label@, target@, weight));
        }
        let puts = Self::make_puts(
            directed,
            source,
            label,
            target,
            edge_id,
            data,
            target,
            source,
        );
        self.store_all(puts, tx_id, commit_lsn);
        if self.config.use_memory_index {
            let _ = self.vertex_set.insert(copy_bytes(source), ());
            let _ = self.vertex_set.insert(copy_bytes(target), ());
            let kept: Option<u64> = match weight {
                Some(bits) => if (bits / 0x10_0000_0000_0000) % 0x800 == 0x7ff {
                    None
                } else {
                    Some(bits)
                },
                None => None,
            };
            let record = write_edge(edge_id, source, label, target, kept);
            let copy = copy_bytes(record.as_slice());
            let ghost (out0, in0) = (self.outgoing_edges.chains(), self.incoming_edges.chains());
            let ghost there = (source@, label@, edge_id@);
            let ghost here = (target@, label@, edge_id@);
            proof {
                lemma_record_put(out0, true, there, record@, tx_id);
                lemma_record_put(in0, false, here, record@, tx_id);
            }
            self.outgoing_edges.put(source, label, edge_id, record, tx_id);
            self.incoming_edges.put(target, label, edge_id, copy, tx_id);
            if !directed {
                let back = write_edge(edge_id, target, label, source, None);
                let back_copy = copy_bytes(back.as_slice());
                proof {
                    lemma_record_put(self.outgoing_edges.chains(), true, here, back@, tx_id);
                    lemma_record_put(self.incoming_edges.chains(), false, there, back@, tx_id);
                }
                self.outgoing_edges.put(target, label, edge_id, back, tx_id);
                self.incoming_edges.put(source, label, edge_id, back_copy, tx_id);
            }
            assert(self.vertex_names() =~= old(self).vertex_names().insert(source@).insert(
                target@,
            ));
        }
        Ok(())
    }

    /// Removes an edge: empty values in the store, and empty versions in the index where it knows
    /// the edge.
    pub fn remove_edge(
        &mut self,
        source: &[u8],
        label: &[u8],
        target: &[u8],
        edge_id: &[u8],
        tx_id: TransactionId,
        commit_lsn: LogSequenceNumber,
    ) -> (r: TableResult<()>)
        requires
            old(self).wf(),
            2 * source@.len() + label@.len() + 2 * target@.len() + edge_id@.len() + 64
                <= usize::MAX,
        ensures
            r is Ok,
            final(self).wf(),
            final(self).same_identity(old(self)),
            final(self).vertex_set == old(self).vertex_set,
            final(self).storage.chains() == with_puts(
                old(self).storage.chains(),
                edge_puts(
                    old(self).config.directed,
                    source@,
                    label@,
                    target@,
                    edge_id@,
                    Seq::empty(),
                    Seq::empty(),
                    Seq::empty(),
                ),
                tx_id,
                commit_lsn,
            ),
            old(self).config.use_memory_index ==> {
                &&& final(self).outgoing_edges.chains() == edges_without(
                    old(self).outgoing_edges.chains(),
                    old(self).config.directed,
                    source@,
                    label@,
                    target@,
                    edge_id@,
                    tx_id,
                )
                &&& final(self).incoming_edges.chains() == edges_without(
                    old(self).incoming_edges.chains(),
                    old(self).config.directed,
                    target@,
                    label@,
                    source@,
                    edge_id@,
                    tx_id,
                )
            },
            !old(self).config.use_memory_index ==> {
                &&& final(self).outgoing_edges == old(self).outgoing_edges
                &&& final(self).incoming_edges == old(self).incoming_edges
            },
    {
        let directed: bool = self.config.directed;
        let nothing: Vec<u8> = Vec::new();
        let data: Vec<u8> = Vec::new();
        assert(nothing@ =~= Seq::<u8>::empty());
        assert(data@ =~= Seq::<u8>::empty());
        let puts = Self::make_puts(
            directed,
            source,
            label,
            target,
            edge_id,
            data,
            nothing.as_slice(),
            nothing.as_slice(),
        );
        self.store_all(puts, tx_id, commit_lsn);
        if self.config.use_memory_index {
            let ghost (out0, in0) = (self.outgoing_edges.chains(), self.incoming_edges.chains());
            let ghost there = (source@, label@, edge_id@);
            let ghost here = (target@, label@, edge_id@);
            proof {
                lemma_record_put(out0, true, there, Seq::empty(), tx_id);
                lemma_record_put(in0, false, here, Seq::empty(), tx_id);
            }
            self.outgoing_edges.remove(source, label, edge_id, tx_id);
            self.incoming_edges.remove(target, label, edge_id, tx_id);
            if !directed {
                proof {
                    let (out1, in1) = (self.outgoing_edges.chains(), self.incoming_edges.chains());
                    lemma_record_put(out1, true, here, Seq::empty(), tx_id);
                    lemma_record_put(in1, false, there, Seq::empty(), tx_id);
                }
                self.outgoing_edges.remove(target, label, edge_id, tx_id);
                self.incoming_edges.remove(source, label, edge_id, tx_id);
            }
        }
        Ok(())
    }

    /// The edges that lead away from a vertex, as readers of committed versions see them.
    pub open spec fn edges_from(&self, source: Seq<u8>, label: Option<Seq<u8>>) -> Seq<EdgeView> {
        if self.config.use_memory_index {
            seen_edges(
                self.outgoing_edges.slots@,
                source,
                label,
                self.outgoing_edges.slots@.len() as int,
            )
        } else {
            Seq::empty()
        }
    }

    /// The edges that lead to a vertex, as readers of committed versions see them.
    pub open spec fn edges_to(&self, target: Seq<u8>, label: Option<Seq<u8>>) -> Seq<EdgeView> {
        if self.config.use_memory_index {
            seen_edges(
                self.incoming_edges.slots@,
                target,
                label,
                self.incoming_edges.slots@.len() as int,
            )
        } else {
            Seq::empty()
        }
    }

    /// A cursor on the edges that lead away from a vertex, with a label if one is given.
    pub fn outgoing(&self, source: &[u8], label: Option<&[u8]>) -> (r: TableResult<
        MemoryEdgeCursor,
    >)
        ensures
            r is Ok,
            edge_views(r->Ok_0.edges@) == self.edges_from(source@, label_view(label)),
            r->Ok_0.position == 0,
    {
        if self.config.use_memory_index {
            return Ok(MemoryEdgeCursor::new(self.outgoing_edges.seen(source, label)));
        }
        let none: Vec<Edge> = Vec::new();
        assert(edge_views(none@) =~= Seq::empty());
        Ok(MemoryEdgeCursor::new(none))
    }

    /// A cursor on the edges that lead to a vertex, with a label if one is given.
    pub fn incoming(&self, target: &[u8], label: Option<&[u8]>) -> (r: TableResult<
        MemoryEdgeCursor,
    >)
        ensures
            r is Ok,
            edge_views(r->Ok_0.edges@) == self.edges_to(target@, label_view(label)),
            r->Ok_0.position == 0,
    {
        if self.config.use_memory_index {
            return Ok(MemoryEdgeCursor::new(self.incoming_edges.seen(target, label)));
        }
        let none: Vec<Edge> = Vec::new();
        assert(edge_views(none@) =~= Seq::empty());
        Ok(MemoryEdgeCursor::new(none))
    }

    /// The vertices that edges lead to from a vertex.
    pub open spec fn adjacent(&self, vertex: Seq<u8>) -> Seq<Seq<u8>> {
        Seq::new(
            self.edges_from(vertex, None).len(),
            |i: int| self.edges_from(vertex, None)[i].target,
        )
    }

    /// The vertices that edges lead to from a vertex, once for each edge.
    pub fn neighbors(&self, vertex: &[u8]) -> (r: TableResult<Vec<Vec<u8>>>)
        ensures
            r is Ok,
            r->Ok_0@.len() == self.adjacent(vertex@).len(),
            forall|i: int|
                0 <= i < r->Ok_0@.len() ==> (#[trigger] r->Ok_0@[i])@ == self.adjacent(vertex@)[i],
    {
        let cursor = match self.outgoing(vertex, None) {
            Ok(c) => c,
            Err(e) => return Err(e),
        };
        let ghost views = edge_views(cursor.edges@);
        let mut edges = cursor.edges;
        let mut out: Vec<Vec<u8>> = Vec::new();
        let n: usize = edges.len();
        let mut i: usize = 0;
        while i < n
            invariant
                i <= n == edges@.len() == views.len(),
                views == edge_views(edges@),
                out@.len() == i,
                forall|j: int| 0 <= j < i ==> (#[trigger] out@[j])@ == views[j].target,
            decreases n - i,
        {
            out.push(copy_bytes(edges[i].target.as_slice()));
            i += 1;
        }
        Ok(out)
    }

    /// Whether an edge, with a label if one is given, leads from one vertex to the other.
    pub fn has_edge(&self, source: &[u8], target: &[u8], label: Option<&[u8]>) -> (r: TableResult<
        bool,
    >)
        ensures
            r is Ok,
            r->Ok_0 == leads_to(self.edges_from(source@, label_view(label)), target@),
    {
        let cursor = match self.outgoing(source, label) {
            Ok(c) => c,
            Err(e) => return Err(e),
        };
        let ghost views = edge_views(cursor.edges@);
        let mut i: usize = 0;
        while i < cursor.edges.len()
            invariant
                i <= cursor.edges@.len() == views.len(),
                views == edge_views(cursor.edges@),
                views == self.edges_from(source@, label_view(label)),
                forall|j: int| 0 <= j < i ==> (#[trigger] views[j]).target != target@,
            decreases cursor.edges@.len() - i,
        {
            if bytes_equal(cursor.edges[i].target.as_slice(), target) {
                assert(views[i as int].target == target@);
                assert(leads_to(views, target@));
                return Ok(true);
            }
            i += 1;
        }
        Ok(false)
    }

    /// Drops the versions that no reader from `min_visible_lsn` on sees, but for one base version
    /// each, from the store and from the index. Returns how many went.
    pub fn vacuum(&mut self, min_visible_lsn: LogSequenceNumber) -> (r: TableResult<usize>)
        requires
            old(self).wf(),
        ensures
            r is Ok,
            r->Ok_0 as int == saturated(
                version_total(old(self).storage.chains()) - version_total(final(self).storage.chains())
                    + versions_among(
                    old(self).outgoing_edges.slots@,
                    old(self).outgoing_edges.slots@.len() as int,
                ) - versions_among(
                    final(self).outgoing_edges.slots@,
                    final(self).outgoing_edges.slots@.len() as int,
                ) + versions_among(
                    old(self).incoming_edges.slots@,
                    old(self).incoming_edges.slots@.len() as int,
                ) - versions_among(
                    final(self).incoming_edges.slots@,
                    final(self).incoming_edges.slots@.len() as int,
                ),
            ),
            final(self).wf(),
            final(self).same_identity(old(self)),
            final(self).vertex_set == old(self).vertex_set,
            final(self).storage.chains() == with_vacuum(
                old(self).storage.chains(),
                min_visible_lsn,
            ),
            old(self).config.use_memory_index ==> {
                &&& final(self).outgoing_edges.chains() == old(self).outgoing_edges.chains().map_values(
                    |vs: Seq<Version>| vacuumed(vs, min_visible_lsn),
                )
                &&& final(self).incoming_edges.chains() == old(self).incoming_edges.chains().map_values(
                    |vs: Seq<Version>| vacuumed(vs, min_visible_lsn),
                )
            },
            !old(self).config.use_memory_index ==> {
                &&& final(self).outgoing_edges == old(self).outgoing_edges
                &&& final(self).incoming_edges == old(self).incoming_edges
            },
            forall|v: Seq<u8>, label: Option<Seq<u8>>| #[trigger]
                final(self).edges_from(v, label) == old(self).edges_from(v, label),
            forall|v: Seq<u8>, label: Option<Seq<u8>>| #[trigger]
                final(self).edges_to(v, label) == old(self).edges_to(v, label),
            forall|v: Seq<u8>| #[trigger] final(self).adjacent(v) == old(self).adjacent(v),
    {
        let mut removed: usize = match self.storage.vacuum(min_visible_lsn) {
            Ok(n) => n,
            Err(e) => return Err(e),
        };
        if self.config.use_memory_index {
            let out: usize = self.outgoing_edges.vacuum(min_visible_lsn);
            removed = removed.saturating_add(out);
            let inn: usize = self.incoming_edges.vacuum(min_visible_lsn);
            removed = removed.saturating_add(inn);
            proof {
                let (out0, in0) = (old(self).outgoing_edges, old(self).incoming_edges);
                lemma_vacuum_fits(out0.chains(), true, min_visible_lsn);
                lemma_vacuum_fits(in0.chains(), false, min_visible_lsn);
                assert forall|v: Seq<u8>, label: Option<Seq<u8>>| #[trigger]
                    self.edges_from(v, label) == old(self).edges_from(v, label) by {
                    lemma_vacuum_lists(out0, self.outgoing_edges, min_visible_lsn, v, label);
                }
                assert forall|v: Seq<u8>, label: Option<Seq<u8>>| #[trigger]
                    self.edges_to(v, label) == old(self).edges_to(v, label) by {
                    lemma_vacuum_lists(in0, self.incoming_edges, min_visible_lsn, v, label);
                }
            }
        }
        assert forall|v: Seq<u8>| #[trigger] self.adjacent(v) == old(self).adjacent(v) by {
            assert(self.edges_from(v, None) == old(self).edges_from(v, None));
            assert(self.adjacent(v) =~= old(self).adjacent(v));
        }
        Ok(removed)
    }
}

/// An edge as it is handed out.
#[derive(Debug)]
pub struct EdgeRef {
    pub edge_id: Vec<u8>,
    pub source: Vec<u8>,
    pub label: Vec<u8>,
    pub target: Vec<u8>,
}

impl EdgeRef {
    /// The reference is to the edge.
    pub open spec fn is_of(&self, e: EdgeView) -> bool {
        &&& self.edge_id@ == e.edge_id
        &&& self.source@ == e.source
        &&& self.label@ == e.label
        &&& self.target@ == e.target
    }
}

/// Walks edges.
#[derive(Debug)]
pub struct MemoryEdgeCursor {
    pub edges: Vec<Edge>,
    pub position: usize,
}

impl MemoryEdgeCursor {
    /// A cursor at the first of the edges.
    pub fn new(edges: Vec<Edge>) -> (r: Self)
        ensures
            r.edges == edges,
            r.position == 0,
    {
        MemoryEdgeCursor { edges, position: 0 }
    }

    /// Whether the cursor stands at an edge.
    pub fn valid(&self) -> (r: bool)
        ensures
            r == (self.position < self.edges@.len()),
    {
        self.position < self.edges.len()
    }

    /// The edge that the cursor stands at.
    pub fn current(&self) -> (r: Option<EdgeRef>)
        ensures
            r is Some <==> self.position < self.edges@.len(),
            r matches Some(e) ==> e.is_of(self.edges@[self.position as int]@),
    {
        if self.position < self.edges.len() {
            let edge = &self.edges[self.position];
            Some(
                EdgeRef {
                    edge_id: copy_bytes(edge.edge_id.as_slice()),
                    source: copy_bytes(edge.source.as_slice()),
                    label: copy_bytes(edge.label.as_slice()),
                    target: copy_bytes(edge.target.as_slice()),
                },
            )
        } else {
            None
        }
    }

    /// Moves to the next edge, or past the last one.
    pub fn next(&mut self) -> (r: TableResult<()>)
        ensures
            r is Ok,
            final(self).edges == old(self).edges,
            final(self).position == (if old(self).position < old(self).edges@.len() {
                old(self).position + 1
            } else {
                old(self).position as int
            }),
    {
        if self.position < self.edges.len() {
            self.position += 1;
        }
        Ok(())
    }

    /// All edges from the current one on.
    pub fn collect_all(self) -> (r: TableResult<Vec<EdgeRef>>)
        ensures
            r is Ok,
            r->Ok_0@.len() == (if self.position < self.edges@.len() {
                self.edges@.len() - self.position
            } else {
                0
            }),
            forall|i: int|
                0 <= i < r->Ok_0@.len() ==> (#[trigger] r->Ok_0@[i]).is_of(
                    self.edges@[self.position + i]@,
                ),
    {
        let mut cursor = self;
        let mut out: Vec<EdgeRef> = Vec::new();
        while cursor.valid()
            invariant
                cursor.edges == self.edges,
                self.position <= cursor.position,
                self.position < self.edges@.len() ==> cursor.position <= self.edges@.len(),
                self.position >= self.edges@.len() ==> cursor.position == self.position,
                out@.len() == cursor.position - self.position,
                forall|i: int|
                    0 <= i < out@.len() ==> (#[trigger] out@[i]).is_of(
                        self.edges@[self.position + i]@,
                    ),
            decreases self.edges@.len() - cursor.position,
        {
            match cursor.current() {
                Some(e) => out.push(e),
                None => {},
            }
            let _ = cursor.next();
        }
        Ok(out)
    }
}

impl MemoryGraphTable {
    /// The identifier of the table.
    pub fn table_id(&self) -> (r: TableId)
        ensures
            r == self.table_id,
    {
        self.table_id
    }

    /// The name of the table.
    pub fn name(&self) -> (r: &str)
        ensures
            r@ == self.name@,
    {
        self.name.as_str()
    }

    /// The engine of the table.
    pub fn kind(&self) -> (r: TableEngineKind)
        ensures
            r == TableEngineKind::GraphAdjacency,
    {
        TableEngineKind::GraphAdjacency
    }

    /// What the table can do.
    pub fn capabilities(&self) -> (r: TableCapabilities)
        ensures
            r == (TableCapabilities {
                ordered: false,
                point_lookup: true,
                prefix_scan: false,
                reverse_scan: false,
                range_delete: false,
                merge_operator: false,
                mvcc_native: true,
                append_optimized: false,
                memory_resident: true,
                disk_resident: false,
                supports_compression: false,
                supports_encryption: false,
            }),
    {
        TableCapabilities {
            ordered: false,
            point_lookup: true,
            prefix_scan: false,
            reverse_scan: false,
            range_delete: false,
            merge_operator: false,
            mvcc_native: true,
            append_optimized: false,
            memory_resident: true,
            disk_resident: false,
            supports_compression: false,
            supports_encryption: false,
        }
    }

    /// What is known of the store's contents.
    pub fn stats(&self) -> (r: TableResult<TableStatistics>)
        requires
            self.wf(),
        ensures
            r == Ok::<TableStatistics, TableError>(
                TableStatistics {
                    row_count: Some(self.storage.chains().dom().len() as u64),
                    page_count: None,
                    total_size_bytes: Some(self.storage.memory_usage as u64),
                    key_stats: None,
                    value_stats: None,
                    last_updated_lsn: None,
                },
            ),
    {
        self.storage.stats()
    }

    /// What the table can do as a graph.
    pub fn specialty_capabilities(&self) -> (r: SpecialtyTableCapabilities)
        ensures
            r == (SpecialtyTableCapabilities {
                exact: true,
                approximate: false,
                ordered: false,
                sparse: false,
                supports_delete: true,
                supports_range_query: false,
                supports_prefix_query: false,
                supports_scoring: false,
                supports_incremental_rebuild: false,
                may_be_stale: false,
            }),
    {
        SpecialtyTableCapabilities {
            exact: true,
            approximate: false,
            ordered: false,
            sparse: false,
            supports_delete: true,
            supports_range_query: false,
            supports_prefix_query: false,
            supports_scoring: false,
            supports_incremental_rebuild: false,
            may_be_stale: false,
        }
    }

    /// What is known of the graph: with an index in memory its edges, removed ones included, and
    /// its vertices; without one the entries of the store.
    pub fn specialty_stats(&self) -> (r: TableResult<SpecialtyTableStats>)
        requires
            self.wf(),
        ensures
            r == Ok::<SpecialtyTableStats, TableError>(
                SpecialtyTableStats {
                    entry_count: Some(
                        if self.config.use_memory_index {
                            self.outgoing_edges.slots@.len() as u64
                        } else {
                            self.storage.chains().dom().len() as u64
                        },
                    ),
                    size_bytes: Some(self.storage.memory_usage as u64),
                    distinct_keys: if self.config.use_memory_index {
                        Some(self.vertex_names().len() as u64)
                    } else {
                        None
                    },
                    stale_entries: None,
                    last_updated_lsn: None,
                },
            ),
    {
        let stored = match self.storage.stats() {
            Ok(s) => s,
            Err(e) => return Err(e),
        };
        let (entry_count, distinct_keys): (Option<u64>, Option<u64>) =
            if self.config.use_memory_index {
            (
                Some(self.outgoing_edges.slots.len() as u64),
                Some(self.vertex_set.len() as u64),
            )
        } else {
            (stored.row_count, None)
        };
        Ok(
            SpecialtyTableStats {
                entry_count,
                size_bytes: stored.total_size_bytes,
                distinct_keys,
                stale_entries: None,
                last_updated_lsn: stored.last_updated_lsn,
            },
        )
    }

    /// Nothing is checked.
    pub fn verify(&self) -> (r: TableResult<VerificationReport>)
        ensures
            r is Ok,
            r->Ok_0.checked_items == 0,
            r->Ok_0.errors@.len() == 0,
            r->Ok_0.warnings@.len() == 0,
    {
        Ok(VerificationReport { checked_items: 0, errors: Vec::new(), warnings: Vec::new() })
    }
}

/// What a call does to the vertices of a graph with an index: a vertex or an edge is added, or
/// neither.
pub enum GraphStep {
    Vertex(Seq<u8>),
    Edge(Seq<u8>, Seq<u8>),
    Other,
}

impl GraphStep {
    /// The vertices that the call names.
    pub open spec fn named(self) -> Set<Seq<u8>> {
        match self {
            GraphStep::Vertex(v) => set![v],
            GraphStep::Edge(s, t) => set![s, t],
            GraphStep::Other => Set::empty(),
        }
    }
}

/// The calls lead from each state of a graph to the next.
pub open spec fn is_run(states: Seq<MemoryGraphTable>, steps: Seq<GraphStep>) -> bool {
    &&& states.len() == steps.len() + 1
    &&& forall|i: int|
        0 <= i < steps.len() ==> states[i + 1].vertex_names() == states[i].vertex_names().union(
            (#[trigger] steps[i]).named(),
        )
}

/// Adding a vertex or an edge is a step that names it, and nothing else names any.
pub proof fn law_calls_are_steps(before: MemoryGraphTable, after: MemoryGraphTable, v: Seq<u8>, w: Seq<u8>)
    ensures
        after.vertex_names() == before.vertex_names().insert(v) ==> after.vertex_names()
            == before.vertex_names().union(GraphStep::Vertex(v).named()),
        after.vertex_names() == before.vertex_names().insert(v).insert(w) ==> after.vertex_names()
            == before.vertex_names().union(GraphStep::Edge(v, w).named()),
        after.vertex_names() == before.vertex_names() ==> after.vertex_names()
            == before.vertex_names().union(GraphStep::Other.named()),
{
    let m = before.vertex_names();
    assert(m.insert(v) =~= m.union(GraphStep::Vertex(v).named()));
    assert(m.insert(v).insert(w) =~= m.union(GraphStep::Edge(v, w).named()));
    assert(m =~= m.union(GraphStep::Other.named()));
}

/// After a run of calls on a graph the vertices are those from before and all that the calls
/// named: none is lost and none comes from elsewhere.
pub proof fn law_vertices_of_a_run(
    states: Seq<MemoryGraphTable>,
    steps: Seq<GraphStep>,
    v: Seq<u8>,
)
    requires
        is_run(states, steps),
    ensures
        states.last().vertex_names().contains(v) <==> states[0].vertex_names().contains(v)
            || exists|i: int| 0 <= i < steps.len() && (#[trigger] steps[i]).named().contains(v),
    decreases steps.len(),
{
    if steps.len() > 0 {
        let (s, t) = (states.drop_last(), steps.drop_last());
        assert forall|i: int| 0 <= i < t.len() implies s[i + 1].vertex_names()
            == s[i].vertex_names().union((#[trigger] t[i]).named()) by {
            assert(t[i] == steps[i]);
        }
        law_vertices_of_a_run(s, t, v);
        let last = steps[steps.len() - 1];
        assert(states.last().vertex_names() == s.last().vertex_names().union(last.named()));
        if exists|i: int| 0 <= i < t.len() && (#[trigger] t[i]).named().contains(v) {
            let i = choose|i: int| 0 <= i < t.len() && (#[trigger] t[i]).named().contains(v);
            assert(steps[i].named().contains(v));
        }
        if exists|i: int| 0 <= i < steps.len() && (#[trigger] steps[i]).named().contains(v) {
            let i = choose|i: int|
                0 <= i < steps.len() && (#[trigger] steps[i]).named().contains(v);
            if i < t.len() {
                assert(t[i].named().contains(v));
            }
        }
    }
}

/// The edges that are listed for a vertex and a label have that source or target, and that label.
pub proof fn law_listed_edges_fit(
    g: MemoryGraphTable,
    vertex: Seq<u8>,
    label: Option<Seq<u8>>,
    e: EdgeView,
)
    requires
        g.wf(),
    ensures
        g.edges_from(vertex, label).contains(e) ==> e.source == vertex,
        g.edges_to(vertex, label).contains(e) ==> e.target == vertex,
        g.edges_from(vertex, label).contains(e) || g.edges_to(vertex, label).contains(e) ==> (label
            matches Some(l) ==> e.label == l),
{
    if g.edges_from(vertex, label).contains(e) {
        g.outgoing_edges.law_listed_edges_fit(true, vertex, label, e);
    }
    if g.edges_to(vertex, label).contains(e) {
        g.incoming_edges.law_listed_edges_fit(false, vertex, label, e);
    }
}

} // verus!
