//! Graphs that are not directed: every edge has its way back.
use crate::graph::edges::{lemma_seen_version, seen_edge, with_edge, EdgeChains, EdgeKey};
use crate::graph::memory::{edges_without, kept_weight, MemoryGraphTable};
use crate::txn::{commit_pending, is_old, lemma_dropped, vacuumed, visible_at, Version};
use crate::types::{LogSequenceNumber, TransactionId};
use crate::wire::{edge_record, edge_record_of};
use vstd::prelude::*;

verus! {

/// The version leads to the vertex, unless it is empty.
pub open spec fn leads(record: Seq<u8>, to: Seq<u8>) -> bool {
    record.len() > 0 ==> edge_record_of(record) is Some && edge_record_of(record)->Some_0.3 == to
}

/// One chain has the edge from `v` to `w`, the other the way back, version by version.
pub open spec fn is_mirror(a: Seq<Version>, b: Seq<Version>, v: Seq<u8>, w: Seq<u8>) -> bool {
    &&& a.len() == b.len()
    &&& forall|i: int|
        #![trigger a[i]]
        #![trigger b[i]]
        0 <= i < a.len() ==> {
            &&& a[i].commit_lsn == b[i].commit_lsn
            &&& a[i].value.len() == 0 <==> b[i].value.len() == 0
            &&& leads(a[i].value, w)
            &&& leads(b[i].value, v)
        }
}

/// The edge with the label and the identifier leads from one vertex to the other and back.
pub open spec fn are_partners(
    m: EdgeChains,
    label: Seq<u8>,
    id: Seq<u8>,
    v: Seq<u8>,
    w: Seq<u8>,
) -> bool {
    &&& m.contains_key((v, label, id))
    &&& m.contains_key((w, label, id))
    &&& is_mirror(m[(v, label, id)], m[(w, label, id)], v, w)
}

/// Every edge has its way back.
pub open spec fn is_mirrored(m: EdgeChains) -> bool {
    forall|k: EdgeKey| #[trigger]
        m.contains_key(k) ==> exists|w: Seq<u8>| #[trigger] are_partners(m, k.1, k.2, k.0, w)
}

/// The label and the identifier stand for no edge at these vertices yet, or for the one between
/// them.
pub open spec fn is_free_between(
    m: EdgeChains,
    label: Seq<u8>,
    id: Seq<u8>,
    v: Seq<u8>,
    w: Seq<u8>,
) -> bool {
    ||| !m.contains_key((v, label, id)) && !m.contains_key((w, label, id))
    ||| are_partners(m, label, id, v, w)
}

proof fn lemma_mirror_back(m: EdgeChains, label: Seq<u8>, id: Seq<u8>, v: Seq<u8>, w: Seq<u8>)
    requires
        are_partners(m, label, id, v, w),
    ensures
        are_partners(m, label, id, w, v),
{
}

/// A chain has one partner, unless all of its versions are empty.
proof fn lemma_other_partner(
    m: EdgeChains,
    label: Seq<u8>,
    id: Seq<u8>,
    v: Seq<u8>,
    w: Seq<u8>,
    x: Seq<u8>,
)
    requires
        are_partners(m, label, id, v, w),
        are_partners(m, label, id, x, v),
        x != w,
    ensures
        are_partners(m, label, id, x, x),
{
    let a = m[(v, label, id)];
    let b = m[(x, label, id)];
    assert forall|i: int| 0 <= i < b.len() implies (#[trigger] b[i]).value.len() == 0 by {
        assert(leads(a[i].value, w));
        assert(leads(a[i].value, x));
    }
}

/// The chains of an edge and its way back got one version more each.
proof fn lemma_pair_put(
    m: EdgeChains,
    label: Seq<u8>,
    id: Seq<u8>,
    v: Seq<u8>,
    w: Seq<u8>,
    there: Seq<u8>,
    back: Seq<u8>,
    tx: TransactionId,
)
    requires
        is_mirrored(m),
        is_free_between(m, label, id, v, w),
        leads(there, w),
        leads(back, v),
        there.len() == 0 <==> back.len() == 0,
    ensures
        is_mirrored(
            with_edge(with_edge(m, (v, label, id), there, tx), (w, label, id), back, tx),
        ),
{
    let kv = (v, label, id);
    let kw = (w, label, id);
    let after = with_edge(with_edge(m, kv, there, tx), kw, back, tx);
    if v != w {
        if m.contains_key(kv) {
            assert(m.contains_key(kw));
        }
        assert(after[kv].len() == after[kw].len());
        assert(are_partners(after, label, id, v, w)) by {
            assert forall|i: int| 0 <= i < after[kv].len() implies {
                &&& (#[trigger] after[kv][i]).commit_lsn == (#[trigger] after[kw][i]).commit_lsn
                &&& after[kv][i].value.len() == 0 <==> after[kw][i].value.len() == 0
                &&& leads(after[kv][i].value, w)
                &&& leads(after[kw][i].value, v)
            } by {
                if i > 0 {
                    assert(after[kv][i] == m[kv][i - 1]);
                    assert(after[kw][i] == m[kw][i - 1]);
                }
            }
        }
        lemma_mirror_back(after, label, id, v, w);
    } else {
        assert(are_partners(after, label, id, v, v)) by {
            assert forall|i: int| 0 <= i < after[kv].len() implies leads(
                (#[trigger] after[kv][i]).value,
                v,
            ) by {
                if i > 1 {
                    assert(after[kv][i] == m[kv][i - 2]);
                }
            }
        }
    }
    assert forall|k: EdgeKey| #[trigger] after.contains_key(k) implies exists|x: Seq<u8>| #[trigger]
        are_partners(after, k.1, k.2, k.0, x) by {
        if k == kv {
            assert(are_partners(after, label, id, v, w));
        } else if k == kw {
            assert(are_partners(after, label, id, w, v));
        } else {
            assert(m.contains_key(k));
            let x = choose|x: Seq<u8>| #[trigger] are_partners(m, k.1, k.2, k.0, x);
            let kx = (x, k.1, k.2);
            assert(m.contains_key(kx));
            if kx == kv {
                assert(k == (k.0, label, id));
                assert(are_partners(m, label, id, v, w));
                lemma_other_partner(m, label, id, v, w, k.0);
                assert(are_partners(after, k.1, k.2, k.0, k.0));
            } else if kx == kw {
                assert(k == (k.0, label, id));
                lemma_mirror_back(m, label, id, v, w);
                lemma_other_partner(m, label, id, w, v, k.0);
                assert(are_partners(after, k.1, k.2, k.0, k.0));
            } else {
                assert(are_partners(after, k.1, k.2, k.0, x));
            }
        }
    }
}

/// Adding an edge to a graph that is not directed adds its way back.
pub proof fn law_added_edge_leads_both_ways(
    before: MemoryGraphTable,
    after: MemoryGraphTable,
    source: Seq<u8>,
    label: Seq<u8>,
    target: Seq<u8>,
    edge_id: Seq<u8>,
    weight: Option<u64>,
    tx: TransactionId,
    lsn: LogSequenceNumber,
)
    requires
        !before.config.directed,
        before.config.use_memory_index,
        after.is_with_edge(&before, source, label, target, edge_id, weight, tx, lsn),
        is_mirrored(before.outgoing_edges.chains()),
        is_free_between(before.outgoing_edges.chains(), label, edge_id, source, target),
    ensures
        is_mirrored(after.outgoing_edges.chains()),
{
    lemma_pair_put(
        before.outgoing_edges.chains(),
        label,
        edge_id,
        source,
        target,
        edge_record(edge_id, source, label, target, kept_weight(weight)),
        edge_record(edge_id, target, label, source, None),
        tx,
    );
}

/// Removing an edge from a graph that is not directed removes its way back.
pub proof fn law_removed_edge_is_gone_both_ways(
    m: EdgeChains,
    source: Seq<u8>,
    label: Seq<u8>,
    target: Seq<u8>,
    edge_id: Seq<u8>,
    tx: TransactionId,
)
    requires
        is_mirrored(m),
        is_free_between(m, label, edge_id, source, target),
    ensures
        is_mirrored(edges_without(m, false, source, label, target, edge_id, tx)),
{
    if m.contains_key((source, label, edge_id)) {
        lemma_pair_put(
            m,
            label,
            edge_id,
            source,
            target,
            Seq::empty(),
            Seq::empty(),
            tx,
        );
    }
}

/// Commits and vacuums keep the ways back.
pub proof fn law_settling_keeps_ways_back(
    m: EdgeChains,
    lsn: LogSequenceNumber,
    min: LogSequenceNumber,
)
    requires
        is_mirrored(m),
    ensures
        is_mirrored(m.map_values(|vs: Seq<Version>| commit_pending(vs, lsn))),
        is_mirrored(m.map_values(|vs: Seq<Version>| vacuumed(vs, min))),
{
    let done = m.map_values(|vs: Seq<Version>| commit_pending(vs, lsn));
    let left = m.map_values(|vs: Seq<Version>| vacuumed(vs, min));
    assert forall|k: EdgeKey| #[trigger] done.contains_key(k) implies exists|w: Seq<u8>| #[trigger]
        are_partners(done, k.1, k.2, k.0, w) by {
        assert(m.contains_key(k));
        let w = choose|w: Seq<u8>| #[trigger] are_partners(m, k.1, k.2, k.0, w);
        let kw = (w, k.1, k.2);
        assert forall|i: int| 0 <= i < done[k].len() implies {
            &&& (#[trigger] done[k][i]).commit_lsn == (#[trigger] done[kw][i]).commit_lsn
            &&& done[k][i].value == m[k][i].value
            &&& done[kw][i].value == m[kw][i].value
        } by {
            assert(m[k][i].commit_lsn == m[kw][i].commit_lsn);
        }
        assert(are_partners(done, k.1, k.2, k.0, w)) by {
            assert forall|i: int| 0 <= i < done[k].len() implies {
                &&& (#[trigger] done[k][i]).commit_lsn == (#[trigger] done[kw][i]).commit_lsn
                &&& done[k][i].value.len() == 0 <==> done[kw][i].value.len() == 0
                &&& leads(done[k][i].value, w)
                &&& leads(done[kw][i].value, k.0)
            } by {
                assert(leads(m[k][i].value, w));
            }
        }
    }
    assert forall|k: EdgeKey| #[trigger] left.contains_key(k) implies exists|w: Seq<u8>| #[trigger]
        are_partners(left, k.1, k.2, k.0, w) by {
        assert(m.contains_key(k));
        let w = choose|w: Seq<u8>| #[trigger] are_partners(m, k.1, k.2, k.0, w);
        let kw = (w, k.1, k.2);
        lemma_same_cut(m[k], m[kw], min);
        lemma_dropped(m[k], min);
        lemma_dropped(m[kw], min);
        assert(are_partners(left, k.1, k.2, k.0, w)) by {
            assert forall|i: int| 0 <= i < left[k].len() implies {
                &&& (#[trigger] left[k][i]).commit_lsn == (#[trigger] left[kw][i]).commit_lsn
                &&& left[k][i].value.len() == 0 <==> left[kw][i].value.len() == 0
                &&& leads(left[k][i].value, w)
                &&& leads(left[kw][i].value, k.0)
            } by {
                assert(left[k][i] == m[k][i]);
                assert(left[kw][i] == m[kw][i]);
            }
        }
    }
}

proof fn lemma_same_cut(a: Seq<Version>, b: Seq<Version>, min: LogSequenceNumber)
    requires
        a.len() == b.len(),
        forall|i: int| 0 <= i < a.len() ==> (#[trigger] a[i]).commit_lsn == b[i].commit_lsn,
    ensures
        vacuumed(a, min).len() == vacuumed(b, min).len(),
    decreases a.len(),
{
    if a.len() > 0 && !is_old(a[0], min) {
        let (x, y) = (a.drop_first(), b.drop_first());
        assert forall|i: int| 0 <= i < x.len() implies (#[trigger] x[i]).commit_lsn
            == y[i].commit_lsn by {
            assert(x[i] == a[i + 1]);
        }
        lemma_same_cut(x, y, min);
    }
}

/// A reader sees the same place of both chains.
proof fn lemma_same_place(
    a: Seq<Version>,
    b: Seq<Version>,
    v: Seq<u8>,
    w: Seq<u8>,
    lsn: LogSequenceNumber,
)
    requires
        is_mirror(a, b, v, w),
        visible_at(a, lsn) is Some,
    ensures
        visible_at(b, lsn) is Some,
        leads(visible_at(a, lsn)->Some_0, w),
        leads(visible_at(b, lsn)->Some_0, v),
        visible_at(a, lsn)->Some_0.len() == 0 <==> visible_at(b, lsn)->Some_0.len() == 0,
    decreases a.len(),
{
    assert(leads(a[0].value, w));
    if a[0].commit_lsn is None || a[0].commit_lsn->Some_0.0 > lsn.0 {
        let (x, y) = (a.drop_first(), b.drop_first());
        assert(is_mirror(x, y, v, w)) by {
            assert forall|i: int| 0 <= i < x.len() implies {
                &&& (#[trigger] x[i]).commit_lsn == (#[trigger] y[i]).commit_lsn
                &&& x[i].value.len() == 0 <==> y[i].value.len() == 0
                &&& leads(x[i].value, w)
                &&& leads(y[i].value, v)
            } by {
                assert(x[i] == a[i + 1]);
                assert(y[i] == b[i + 1]);
                assert(leads(a[i + 1].value, w));
            }
        }
        lemma_same_place(x, y, v, w, lsn);
    }
}

/// In a graph whose edges have their ways back, neighbours are neighbours of each other.
pub proof fn law_undirected_neighbours_are_symmetric(
    g: MemoryGraphTable,
    v: Seq<u8>,
    w: Seq<u8>,
)
    requires
        g.wf(),
        is_mirrored(g.outgoing_edges.chains()),
    ensures
        g.adjacent(v).contains(w) <==> g.adjacent(w).contains(v),
{
    if g.adjacent(v).contains(w) {
        lemma_neighbour_back(g, v, w);
    }
    if g.adjacent(w).contains(v) {
        lemma_neighbour_back(g, w, v);
    }
}

proof fn lemma_neighbour_back(g: MemoryGraphTable, v: Seq<u8>, w: Seq<u8>)
    requires
        g.wf(),
        is_mirrored(g.outgoing_edges.chains()),
        g.adjacent(v).contains(w),
    ensures
        g.adjacent(w).contains(v),
{
    let m = g.outgoing_edges.chains();
    let now = LogSequenceNumber(u64::MAX);
    let i = g.adjacent(v).index_of(w);
    let e = g.edges_from(v, None)[i];
    assert(g.edges_from(v, None).contains(e));
    g.outgoing_edges.law_seen_edges_are_all(v, None, e);
    let k = choose|k: EdgeKey| #[trigger]
        m.contains_key(k) && k.0 == v && seen_edge(m[k]) == Some(e);
    let x = choose|x: Seq<u8>| #[trigger] are_partners(m, k.1, k.2, k.0, x);
    let kx = (x, k.1, k.2);
    lemma_same_place(m[k], m[kx], v, x, now);
    assert(x == w);
    let j = lemma_seen_version(m[kx], now, Seq::empty());
    assert(seen_edge(m[kx]) is Some);
    let back = seen_edge(m[kx])->Some_0;
    assert(back.target == v);
    g.outgoing_edges.law_seen_edges_are_all(w, None, back);
    assert(m.contains_key(kx) && kx.0 == w);
    let n = g.edges_from(w, None).index_of(back);
    assert(g.adjacent(w)[n] == v);
}

} // verus!
