//! Edges with versions, found by a vertex, a label and an identifier.
use crate::bytes::{bytes_equal, copy_bytes};
use crate::snap::Snapshot;
use crate::txn::{
    commit_pending, find_visible, lemma_vacuumed_len, pending, saturated, sees, vacuumed,
    visible_at, Version, VersionChain,
};
use crate::types::{LogSequenceNumber, TransactionId};
use crate::wire::{edge_record_of, read_edge};
use vstd::prelude::*;

verus! {

/// An edge.
#[derive(Debug)]
pub struct Edge {
    pub edge_id: Vec<u8>,
    pub source: Vec<u8>,
    pub label: Vec<u8>,
    pub target: Vec<u8>,
    /// The weight, as the bits of a double-precision number.
    pub weight: Option<u64>,
}

/// An edge as the contracts speak of it.
#[verifier::ext_equal]
pub struct EdgeView {
    pub edge_id: Seq<u8>,
    pub source: Seq<u8>,
    pub label: Seq<u8>,
    pub target: Seq<u8>,
    pub weight: Option<u64>,
}

impl View for Edge {
    type V = EdgeView;

    open spec fn view(&self) -> EdgeView {
        EdgeView {
            edge_id: self.edge_id@,
            source: self.source@,
            label: self.label@,
            target: self.target@,
            weight: self.weight,
        }
    }
}

/// The edges as the contracts speak of them.
pub open spec fn edge_views(edges: Seq<Edge>) -> Seq<EdgeView> {
    Seq::new(edges.len(), |i: int| edges[i]@)
}

/// What an edge is found by: a vertex, a label and an identifier.
pub type EdgeKey = (Seq<u8>, Seq<u8>, Seq<u8>);

/// The versions of each edge.
pub type EdgeChains = Map<EdgeKey, Seq<Version>>;

/// The versions of one edge.
#[derive(Debug)]
pub struct EdgeSlot {
    pub vertex: Vec<u8>,
    pub label: Vec<u8>,
    pub edge_id: Vec<u8>,
    pub chain: VersionChain,
}

impl EdgeSlot {
    /// What the edge is found by.
    pub open spec fn key(&self) -> EdgeKey {
        (self.vertex@, self.label@, self.edge_id@)
    }
}

/// Edges with versions.
#[derive(Debug)]
pub struct EdgeTable {
    pub slots: Vec<EdgeSlot>,
}

/// The versions of an edge, none where it is not known.
pub open spec fn edge_chain(m: EdgeChains, k: EdgeKey) -> Seq<Version> {
    if m.contains_key(k) {
        m[k]
    } else {
        Seq::empty()
    }
}

/// The edges after a version was put in front of one.
pub open spec fn with_edge(m: EdgeChains, k: EdgeKey, value: Seq<u8>, tx: TransactionId) -> EdgeChains {
    m.insert(k, seq![pending(value, tx)] + edge_chain(m, k))
}

/// The edges after one was removed: an empty version in front, where the edge is known.
pub open spec fn without_edge(m: EdgeChains, k: EdgeKey, tx: TransactionId) -> EdgeChains {
    if m.contains_key(k) {
        with_edge(m, k, Seq::empty(), tx)
    } else {
        m
    }
}

/// The edge that every reader of committed versions sees, if there is one.
pub open spec fn seen_edge(vs: Seq<Version>) -> Option<EdgeView> {
    match visible_at(vs, LogSequenceNumber(u64::MAX)) {
        Some(b) if b.len() > 0 => match edge_record_of(b) {
            Some((edge_id, source, label, target, weight)) => Some(
                EdgeView { edge_id, source, label, target, weight },
            ),
            None => None,
        },
        _ => None,
    }
}

/// The record is of the edge that is found by the key: at its source where the edges are held by
/// source, and at its target where they are not.
pub open spec fn is_record_of(k: EdgeKey, record: Seq<u8>, by_source: bool) -> bool {
    edge_record_of(record) matches Some((edge_id, source, label, target, _)) && edge_id == k.2
        && label == k.1 && k.0 == (if by_source {
        source
    } else {
        target
    })
}

/// Every version that is not empty is a record of the edge that it is held for.
pub open spec fn records_fit(m: EdgeChains, by_source: bool) -> bool {
    forall|k: EdgeKey, i: int|
        m.contains_key(k) && 0 <= i < m[k].len() && (#[trigger] m[k][i]).value.len() > 0
            ==> is_record_of(k, m[k][i].value, by_source)
}

/// A record that fits keeps all records fitting, and so does an empty version.
pub proof fn lemma_record_put(
    m: EdgeChains,
    by_source: bool,
    k: EdgeKey,
    value: Seq<u8>,
    tx: TransactionId,
)
    requires
        records_fit(m, by_source),
        value.len() > 0 ==> is_record_of(k, value, by_source),
    ensures
        records_fit(with_edge(m, k, value, tx), by_source),
{
    let after = with_edge(m, k, value, tx);
    assert forall|x: EdgeKey, i: int|
        after.contains_key(x) && 0 <= i < after[x].len() && (
        #[trigger] after[x][i]).value.len() > 0 implies is_record_of(
        x,
        after[x][i].value,
        by_source,
    ) by {
        if x == k {
            if i > 0 {
                assert(after[x][i] == m[k][i - 1]);
            }
        } else {
            assert(after[x][i] == m[x][i]);
        }
    }
}

/// What a reader sees is the value of a version.
pub proof fn lemma_seen_version(
    vs: Seq<Version>,
    lsn: LogSequenceNumber,
    active: Seq<TransactionId>,
) -> (i: int)
    requires
        find_visible(vs, lsn, active) is Some,
    ensures
        0 <= i < vs.len(),
        find_visible(vs, lsn, active) == Some(vs[i].value),
    decreases vs.len(),
{
    if sees(vs[0], lsn, active) {
        0
    } else {
        let i = lemma_seen_version(vs.drop_first(), lsn, active);
        assert(vs.drop_first()[i] == vs[i + 1]);
        i + 1
    }
}

/// The edge is at the vertex and has the label, if one is asked for.
pub open spec fn fits(k: EdgeKey, vertex: Seq<u8>, label: Option<Seq<u8>>) -> bool {
    k.0 == vertex && match label {
        Some(l) => k.1 == l,
        None => true,
    }
}

/// The edges at a vertex, among the first `n`, that readers see.
pub open spec fn seen_edges(
    slots: Seq<EdgeSlot>,
    vertex: Seq<u8>,
    label: Option<Seq<u8>>,
    n: int,
) -> Seq<EdgeView>
    decreases n,
{
    if n <= 0 {
        Seq::empty()
    } else {
        let before = seen_edges(slots, vertex, label, n - 1);
        let slot = slots[n - 1];
        if fits(slot.key(), vertex, label) && seen_edge(slot.chain@) is Some {
            before.push(seen_edge(slot.chain@)->Some_0)
        } else {
            before
        }
    }
}

/// The number of versions among the first `n` edges.
pub open spec fn versions_among(slots: Seq<EdgeSlot>, n: int) -> int
    decreases n,
{
    if n <= 0 {
        0
    } else {
        versions_among(slots, n - 1) + slots[n - 1].chain@.len()
    }
}

proof fn lemma_versions_among(a: Seq<EdgeSlot>, b: Seq<EdgeSlot>, n: int)
    requires
        0 <= n <= a.len(),
        n <= b.len(),
        forall|j: int| 0 <= j < n ==> #[trigger] a[j] == b[j],
    ensures
        versions_among(a, n) == versions_among(b, n),
    decreases n,
{
    if n > 0 {
        lemma_versions_among(a, b, n - 1);
    }
}

/// The label as a byte string.
pub open spec fn label_view(label: Option<&[u8]>) -> Option<Seq<u8>> {
    match label {
        Some(l) => Some(l@),
        None => None,
    }
}

impl EdgeTable {
    /// What the edges are found by, in the order in which they are held.
    pub open spec fn keys(&self) -> Seq<EdgeKey> {
        Seq::new(self.slots@.len(), |i: int| self.slots@[i].key())
    }

    /// No edge is held twice.
    pub open spec fn wf(&self) -> bool {
        self.keys().no_duplicates()
    }

    /// The versions of each edge.
    pub open spec fn chains(&self) -> EdgeChains {
        Map::new(
            |k: EdgeKey| self.keys().contains(k),
            |k: EdgeKey| self.slots@[self.keys().index_of(k)].chain@,
        )
    }

    /// What stands at a position is what the map holds.
    pub proof fn lemma_slot(&self, i: int)
        requires
            self.wf(),
            0 <= i < self.slots@.len(),
        ensures
            self.chains().contains_key(self.slots@[i].key()),
            self.chains()[self.slots@[i].key()] == self.slots@[i].chain@,
            self.keys()[i] == self.slots@[i].key(),
    {
        let k = self.slots@[i].key();
        assert(self.keys()[i] == k);
        assert(self.keys().contains(k));
        let j = self.keys().index_of(k);
        assert(self.keys()[j] == k);
        assert(i == j);
    }

    /// Every edge of the map stands somewhere.
    pub proof fn lemma_key(&self, k: EdgeKey) -> (i: int)
        requires
            self.chains().contains_key(k),
        ensures
            0 <= i < self.slots@.len(),
            self.slots@[i].key() == k,
            self.slots@[i].chain@ == self.chains()[k],
    {
        let i = self.keys().index_of(k);
        assert(self.keys()[i] == k);
        i
    }

    /// No edges.
    pub fn new() -> (r: Self)
        ensures
            r.wf(),
            r.slots@.len() == 0,
            r.chains() == Map::<EdgeKey, Seq<Version>>::empty(),
    {
        let r = EdgeTable { slots: Vec::new() };
        assert(r.chains() =~= Map::<EdgeKey, Seq<Version>>::empty());
        r
    }

    fn find(&self, vertex: &[u8], label: &[u8], edge_id: &[u8]) -> (r: usize)
        requires
            self.wf(),
        ensures
            r <= self.slots@.len(),
            r < self.slots@.len() ==> self.slots@[r as int].key() == (vertex@, label@, edge_id@),
            r < self.slots@.len() <==> self.chains().contains_key((vertex@, label@, edge_id@)),
    {
        let ghost k = (vertex@, label@, edge_id@);
        let mut i: usize = 0;
        while i < self.slots.len()
            invariant
                i <= self.slots@.len(),
                k == (vertex@, label@, edge_id@),
                self.wf(),
                forall|j: int| 0 <= j < i ==> #[trigger] self.keys()[j] != k,
            decreases self.slots@.len() - i,
        {
            if bytes_equal(self.slots[i].vertex.as_slice(), vertex) && bytes_equal(
                self.slots[i].label.as_slice(),
                label,
            ) && bytes_equal(self.slots[i].edge_id.as_slice(), edge_id) {
                proof {
                    self.lemma_slot(i as int);
                }
                return i;
            }
            assert(self.keys()[i as int] != k);
            i += 1;
        }
        i
    }

    /// Puts a pending version in front of the versions of an edge.
    pub fn put(
        &mut self,
        vertex: &[u8],
        label: &[u8],
        edge_id: &[u8],
        value: Vec<u8>,
        tx_id: TransactionId,
    )
        requires
            old(self).wf(),
        ensures
            final(self).wf(),
            final(self).chains() == with_edge(
                old(self).chains(),
                (vertex@, label@, edge_id@),
                value@,
                tx_id,
            ),
            ({
                let k = (vertex@, label@, edge_id@);
                final(self).keys() == (if old(self).chains().contains_key(k) {
                    old(self).keys()
                } else {
                    old(self).keys().push(k)
                })
            }),
    {
        let ghost k = (vertex@, label@, edge_id@);
        let ghost m = self.chains();
        let ghost v = pending(value@, tx_id);
        let at: usize = self.find(vertex, label, edge_id);
        if at < self.slots.len() {
            proof {
                self.lemma_slot(at as int);
            }
            let mut chain = VersionChain::new(Vec::new(), tx_id);
            core::mem::swap(&mut chain, &mut self.slots[at].chain);
            self.slots[at].chain = chain.prepend(value, tx_id);
            proof {
                assert(self.keys() =~= old(self).keys());
                self.lemma_changed(old(self), at as int);
                assert(self.chains() =~= with_edge(m, k, v.value, tx_id));
            }
        } else {
            let chain = VersionChain::new(value, tx_id);
            self.slots.push(
                EdgeSlot {
                    vertex: copy_bytes(vertex),
                    label: copy_bytes(label),
                    edge_id: copy_bytes(edge_id),
                    chain,
                },
            );
            proof {
                assert(self.keys() =~= old(self).keys().push(k));
                assert(!old(self).keys().contains(k));
                assert(seq![v] + Seq::<Version>::empty() =~= seq![v]);
                assert forall|x: EdgeKey| #[trigger] self.chains().contains_key(x)
                    <==> m.contains_key(x) || x == k by {
                    if m.contains_key(x) {
                        let i = old(self).lemma_key(x);
                        assert(self.keys()[i] == x);
                    }
                    if x == k {
                        assert(self.keys()[self.slots@.len() - 1] == x);
                    }
                    if self.keys().contains(x) {
                        let i = self.keys().index_of(x);
                        if i < old(self).slots@.len() {
                            assert(old(self).keys()[i] == x);
                        }
                    }
                }
                assert forall|x: EdgeKey| self.chains().contains_key(x) implies #[trigger] self.chains()[x]
                    == with_edge(m, k, v.value, tx_id)[x] by {
                    let i = self.lemma_key(x);
                    if x != k {
                        assert(i < old(self).slots@.len());
                        old(self).lemma_slot(i);
                    } else {
                        assert(self.keys()[i] == k);
                        assert(self.keys()[self.slots@.len() - 1] == k);
                        assert(i == self.slots@.len() - 1);
                    }
                }
                assert(self.chains() =~= with_edge(m, k, v.value, tx_id));
            }
        }
    }

    proof fn lemma_changed(&self, before: &Self, at: int)
        requires
            before.wf(),
            self.keys() == before.keys(),
            0 <= at < before.slots@.len(),
            self.slots@.len() == before.slots@.len(),
            forall|j: int|
                0 <= j < before.slots@.len() && j != at ==> #[trigger] self.slots@[j]
                    == before.slots@[j],
        ensures
            self.wf(),
            self.chains() == before.chains().insert(
                before.slots@[at].key(),
                self.slots@[at].chain@,
            ),
    {
        let k = before.slots@[at].key();
        before.lemma_slot(at);
        assert(self.keys()[at] == k);
        assert forall|x: EdgeKey| self.chains().contains_key(x) implies #[trigger] self.chains()[x]
            == before.chains().insert(k, self.slots@[at].chain@)[x] by {
            let i = self.lemma_key(x);
            assert(self.keys()[i] == x);
            if x == k {
                assert(i == at);
            } else {
                assert(i != at);
                before.lemma_slot(i);
                assert(before.keys()[i] == x);
            }
        }
        assert(self.chains() =~= before.chains().insert(k, self.slots@[at].chain@));
    }

    /// Puts an empty pending version in front of the versions of a known edge.
    pub fn remove(&mut self, vertex: &[u8], label: &[u8], edge_id: &[u8], tx_id: TransactionId)
        requires
            old(self).wf(),
        ensures
            final(self).wf(),
            final(self).keys() == old(self).keys(),
            final(self).chains() == without_edge(
                old(self).chains(),
                (vertex@, label@, edge_id@),
                tx_id,
            ),
    {
        let at: usize = self.find(vertex, label, edge_id);
        if at < self.slots.len() {
            let tombstone: Vec<u8> = Vec::new();
            assert(tombstone@ =~= Seq::<u8>::empty());
            self.put(vertex, label, edge_id, tombstone, tx_id);
        }
    }

    proof fn lemma_mapped(&self, before: &Self, f: spec_fn(Seq<Version>) -> Seq<Version>)
        requires
            before.wf(),
            self.keys() == before.keys(),
            self.slots@.len() == before.slots@.len(),
            forall|j: int|
                0 <= j < self.slots@.len() ==> (#[trigger] self.slots@[j]).chain@ == f(
                    before.slots@[j].chain@,
                ),
        ensures
            self.wf(),
            self.chains() == before.chains().map_values(f),
    {
        assert forall|x: EdgeKey| self.chains().contains_key(x) implies #[trigger] self.chains()[x]
            == before.chains().map_values(f)[x] by {
            let i = self.lemma_key(x);
            assert(self.keys()[i] == x);
            before.lemma_slot(i);
            assert(before.keys()[i] == x);
        }
        assert(self.chains() =~= before.chains().map_values(f));
    }

    /// Commits every pending version.
    pub fn commit_pending(&mut self, lsn: LogSequenceNumber)
        requires
            old(self).wf(),
        ensures
            final(self).wf(),
            final(self).keys() == old(self).keys(),
            final(self).chains() == old(self).chains().map_values(
                |vs: Seq<Version>| commit_pending(vs, lsn),
            ),
    {
        let n: usize = self.slots.len();
        let mut i: usize = 0;
        while i < n
            invariant
                i <= n == self.slots@.len() == old(self).slots@.len(),
                forall|j: int|
                    0 <= j < n ==> (#[trigger] self.slots@[j]).key() == old(self).slots@[j].key(),
                forall|j: int|
                    0 <= j < i ==> (#[trigger] self.slots@[j]).chain@ == commit_pending(
                        old(self).slots@[j].chain@,
                        lsn,
                    ),
                forall|j: int| i <= j < n ==> #[trigger] self.slots@[j] == old(self).slots@[j],
            decreases n - i,
        {
            self.slots[i].chain.commit_all_uncommitted(lsn);
            i += 1;
        }
        proof {
            assert(self.keys() =~= old(self).keys());
            self.lemma_mapped(old(self), |vs: Seq<Version>| commit_pending(vs, lsn));
        }
    }

    /// Drops the versions that no reader from `min` on sees, but for one base version per edge.
    /// Returns how many went.
    pub fn vacuum(&mut self, min: LogSequenceNumber) -> (removed: usize)
        requires
            old(self).wf(),
        ensures
            final(self).wf(),
            final(self).keys() == old(self).keys(),
            final(self).chains() == old(self).chains().map_values(
                |vs: Seq<Version>| vacuumed(vs, min),
            ),
            removed as int == saturated(
                versions_among(old(self).slots@, old(self).slots@.len() as int) - versions_among(
                    final(self).slots@,
                    final(self).slots@.len() as int,
                ),
            ),
            versions_among(final(self).slots@, final(self).slots@.len() as int) <= versions_among(
                old(self).slots@,
                old(self).slots@.len() as int,
            ),
    {
        let n: usize = self.slots.len();
        let mut i: usize = 0;
        let mut removed: usize = 0;
        while i < n
            invariant
                i <= n == self.slots@.len() == old(self).slots@.len(),
                forall|j: int|
                    0 <= j < n ==> (#[trigger] self.slots@[j]).key() == old(self).slots@[j].key(),
                forall|j: int|
                    0 <= j < i ==> (#[trigger] self.slots@[j]).chain@ == vacuumed(
                        old(self).slots@[j].chain@,
                        min,
                    ),
                forall|j: int| i <= j < n ==> #[trigger] self.slots@[j] == old(self).slots@[j],
                removed as int == saturated(
                    versions_among(old(self).slots@, i as int) - versions_among(
                        self.slots@,
                        i as int,
                    ),
                ),
                versions_among(self.slots@, i as int) <= versions_among(
                    old(self).slots@,
                    i as int,
                ),
            decreases n - i,
        {
            let ghost before = self.slots@;
            proof {
                lemma_vacuumed_len(before[i as int].chain@, min);
                assert(before[i as int] == old(self).slots@[i as int]);
            }
            let count: usize = self.slots[i].chain.vacuum(min);
            removed = removed.saturating_add(count);
            proof {
                lemma_versions_among(before, self.slots@, i as int);
            }
            i += 1;
        }
        proof {
            assert(self.keys() =~= old(self).keys());
            self.lemma_mapped(old(self), |vs: Seq<Version>| vacuumed(vs, min));
        }
        removed
    }

    /// The edges at a vertex, with a label if one is given, that readers of committed versions
    /// see.
    pub fn seen(&self, vertex: &[u8], label: Option<&[u8]>) -> (r: Vec<Edge>)
        ensures
            edge_views(r@) == seen_edges(
                self.slots@,
                vertex@,
                label_view(label),
                self.slots@.len() as int,
            ),
    {
        let snapshot = Snapshot::at(LogSequenceNumber(u64::MAX));
        assert(snapshot.active_txns@ =~= Seq::empty());
        let mut out: Vec<Edge> = Vec::new();
        let mut i: usize = 0;
        assert(edge_views(out@) =~= Seq::empty());
        while i < self.slots.len()
            invariant
                i <= self.slots@.len(),
                snapshot.lsn == LogSequenceNumber(u64::MAX),
                snapshot.active_txns@ == Seq::<TransactionId>::empty(),
                edge_views(out@) == seen_edges(
                    self.slots@,
                    vertex@,
                    label_view(label),
                    i as int,
                ),
            decreases self.slots@.len() - i,
        {
            let slot = &self.slots[i];
            let ghost before = out@;
            let labelled: bool = match label {
                Some(l) => bytes_equal(slot.label.as_slice(), l),
                None => true,
            };
            if labelled && bytes_equal(slot.vertex.as_slice(), vertex) {
                assert(fits(slot.key(), vertex@, label_view(label)));
                match slot.chain.find_visible_version(&snapshot) {
                    Some(b) => {
                        if b.len() > 0 {
                            match read_edge(b) {
                                Some((edge_id, source, label, target, weight)) => {
                                    let edge = Edge { edge_id, source, label, target, weight };
                                    let ghost e = edge@;
                                    out.push(edge);
                                    assert(seen_edge(slot.chain@) == Some(e));
                                    assert(edge_views(out@) =~= edge_views(before).push(e));
                                },
                                None => {},
                            }
                        }
                    },
                    None => {},
                }
            }
            i += 1;
        }
        out
    }

    /// The list holds an edge exactly where a version of it is seen at the vertex.
    pub proof fn law_seen_edges_are_all(
        &self,
        vertex: Seq<u8>,
        label: Option<Seq<u8>>,
        e: EdgeView,
    )
        requires
            self.wf(),
        ensures
            seen_edges(self.slots@, vertex, label, self.slots@.len() as int).contains(e) <==> exists|
                k: EdgeKey,
            | #[trigger]
                self.chains().contains_key(k) && fits(k, vertex, label) && seen_edge(
                    self.chains()[k],
                ) == Some(e),
    {
        let n = self.slots@.len() as int;
        self.lemma_seen(vertex, label, e, n);
        if seen_edges(self.slots@, vertex, label, n).contains(e) {
            let i = choose|i: int|
                0 <= i < n && fits((#[trigger] self.slots@[i]).key(), vertex, label) && seen_edge(
                    self.slots@[i].chain@,
                ) == Some(e);
            self.lemma_slot(i);
            let k = self.slots@[i].key();
            assert(self.chains().contains_key(k));
        }
        if exists|k: EdgeKey| #[trigger]
            self.chains().contains_key(k) && fits(k, vertex, label) && seen_edge(self.chains()[k])
                == Some(e) {
            let k = choose|k: EdgeKey| #[trigger]
                self.chains().contains_key(k) && fits(k, vertex, label) && seen_edge(
                    self.chains()[k],
                ) == Some(e);
            let i = self.lemma_key(k);
            assert(fits(self.slots@[i].key(), vertex, label));
        }
    }

    proof fn lemma_seen(&self, vertex: Seq<u8>, label: Option<Seq<u8>>, e: EdgeView, n: int)
        requires
            0 <= n <= self.slots@.len(),
        ensures
            seen_edges(self.slots@, vertex, label, n).contains(e) <==> exists|i: int|
                0 <= i < n && fits((#[trigger] self.slots@[i]).key(), vertex, label) && seen_edge(
                    self.slots@[i].chain@,
                ) == Some(e),
        decreases n,
    {
        if n > 0 {
            self.lemma_seen(vertex, label, e, n - 1);
            let before = seen_edges(self.slots@, vertex, label, n - 1);
            let after = seen_edges(self.slots@, vertex, label, n);
            let slot = self.slots@[n - 1];
            let here = fits(slot.key(), vertex, label) && seen_edge(slot.chain@) == Some(e);
            assert(after.contains(e) <==> before.contains(e) || here) by {
                if before.contains(e) {
                    let i = before.index_of(e);
                    assert(after[i] == e);
                }
                if here {
                    assert(after[before.len() as int] == e);
                }
                if after.contains(e) {
                    let i = after.index_of(e);
                    if i < before.len() {
                        assert(before[i] == e);
                    }
                }
            }
            if here {
                assert(fits(self.slots@[n - 1].key(), vertex, label));
            }
        }
    }

    /// Tables that hold the same edges in the same order, and of which readers see the same, list
    /// the same.
    pub proof fn lemma_same_seen(
        &self,
        other: &Self,
        vertex: Seq<u8>,
        label: Option<Seq<u8>>,
        n: int,
    )
        requires
            self.wf(),
            other.wf(),
            self.keys() == other.keys(),
            forall|k: EdgeKey| #[trigger]
                self.chains().contains_key(k) ==> seen_edge(self.chains()[k]) == seen_edge(
                    other.chains()[k],
                ),
            0 <= n <= self.slots@.len(),
        ensures
            seen_edges(self.slots@, vertex, label, n) == seen_edges(other.slots@, vertex, label, n),
        decreases n,
    {
        assert(self.keys().len() == other.keys().len());
        if n > 0 {
            self.lemma_same_seen(other, vertex, label, n - 1);
            self.lemma_slot(n - 1);
            other.lemma_slot(n - 1);
            assert(self.chains().contains_key(self.slots@[n - 1].key()));
        }
    }

    /// Every edge that is listed is at the vertex and has the label that were asked for.
    pub proof fn law_listed_edges_fit(
        &self,
        by_source: bool,
        vertex: Seq<u8>,
        label: Option<Seq<u8>>,
        e: EdgeView,
    )
        requires
            self.wf(),
            records_fit(self.chains(), by_source),
            seen_edges(self.slots@, vertex, label, self.slots@.len() as int).contains(e),
        ensures
            (if by_source {
                e.source
            } else {
                e.target
            }) == vertex,
            label matches Some(l) ==> e.label == l,
    {
        self.law_seen_edges_are_all(vertex, label, e);
        let k = choose|k: EdgeKey| #[trigger]
            self.chains().contains_key(k) && fits(k, vertex, label) && seen_edge(self.chains()[k])
                == Some(e);
        let vs = self.chains()[k];
        let i = lemma_seen_version(vs, LogSequenceNumber(u64::MAX), Seq::empty());
        assert(is_record_of(k, vs[i].value, by_source));
    }
}

} // verus!
