//! Graphs that are not directed and only grow: their neighbours are the pairs that were added.
use crate::graph::edges::{fits, seen_edge, seen_edges, with_edge, EdgeChains, EdgeKey, EdgeSlot};
use crate::graph::memory::MemoryGraphTable;
use crate::txn::{commit_pending, Version};
use crate::types::{LogSequenceNumber, TransactionId};
use crate::wire::edge_record_of;
use vstd::prelude::*;
use vstd::set_lib::lemma_map_size;

verus! {

/// An edge that was added.
pub struct Added {
    pub source: Seq<u8>,
    pub label: Seq<u8>,
    pub target: Seq<u8>,
    pub edge_id: Seq<u8>,
}

/// What happened to a graph that only grows.
pub enum Growth {
    Add(Added, Option<u64>, TransactionId, LogSequenceNumber),
    Commit(TransactionId, LogSequenceNumber),
}

/// The edges that were added, in order.
pub open spec fn added(steps: Seq<Growth>) -> Seq<Added>
    decreases steps.len(),
{
    if steps.len() == 0 {
        Seq::empty()
    } else {
        let before = added(steps.drop_last());
        match steps.last() {
            Growth::Add(a, _, _, _) => before.push(a),
            Growth::Commit(_, _) => before,
        }
    }
}

/// Each edge was added under an identifier of its own.
pub open spec fn ids_differ(adds: Seq<Added>) -> bool {
    forall|i: int, j: int|
        0 <= i < j < adds.len() ==> (#[trigger] adds[i]).edge_id != (#[trigger] adds[j]).edge_id
}

/// One step of a graph that only grows, by the contracts of `add_edge_with_weight` and
/// `commit_versions`.
pub open spec fn is_step(before: MemoryGraphTable, step: Growth, after: MemoryGraphTable) -> bool {
    match step {
        Growth::Add(a, weight, tx, lsn) => after.is_with_edge(
            &before,
            a.source,
            a.label,
            a.target,
            a.edge_id,
            weight,
            tx,
            lsn,
        ),
        Growth::Commit(_, lsn) => {
            &&& after.wf()
            &&& after.same_identity(&before)
            &&& after.outgoing_edges.chains() == before.outgoing_edges.chains().map_values(
                |vs: Seq<Version>| commit_pending(vs, lsn),
            )
        },
    }
}

/// A graph, not directed and with its index, from empty on.
pub open spec fn is_grown(states: Seq<MemoryGraphTable>, steps: Seq<Growth>) -> bool {
    &&& states.len() == steps.len() + 1
    &&& !states[0].config.directed
    &&& states[0].config.use_memory_index
    &&& states[0].wf()
    &&& states[0].outgoing_edges.chains() == Map::<EdgeKey, Seq<Version>>::empty()
    &&& forall|i: int|
        0 <= i < steps.len() ==> #[trigger] is_step(states[i], steps[i], states[i + 1])
}

/// The edge leads from one of the vertices to the other, either way.
pub open spec fn is_between(a: Added, v: Seq<u8>, w: Seq<u8>) -> bool {
    (a.source == v && a.target == w) || (a.source == w && a.target == v)
}

/// The added edge is found by the key, at one of its ends.
pub open spec fn touches(a: Added, k: EdgeKey) -> bool {
    k.1 == a.label && k.2 == a.edge_id && (k.0 == a.source || k.0 == a.target)
}

/// The version is of the edge, seen from the vertex.
pub open spec fn is_version_of(version: Version, a: Added, v: Seq<u8>) -> bool {
    &&& version.value.len() > 0
    &&& edge_record_of(version.value) matches Some((edge_id, source, label, target, _)) && {
        &&& edge_id == a.edge_id
        &&& is_between(a, v, target)
    }
}

/// The index holds the added edges at both ends, and nothing else.
pub open spec fn is_index_of(m: EdgeChains, adds: Seq<Added>) -> bool {
    &&& forall|k: EdgeKey| #[trigger]
        m.contains_key(k) ==> exists|i: int| 0 <= i < adds.len() && #[trigger] touches(adds[i], k)
    &&& forall|i: int, k: EdgeKey|
        0 <= i < adds.len() && #[trigger] touches(adds[i], k) ==> {
            &&& m.contains_key(k)
            &&& m[k].len() > 0
            &&& forall|j: int|
                0 <= j < m[k].len() ==> is_version_of(#[trigger] m[k][j], adds[i], k.0)
        }
}

proof fn lemma_add_keeps_index(
    m: EdgeChains,
    adds: Seq<Added>,
    a: Added,
    there: Seq<u8>,
    back: Seq<u8>,
    weight: Option<u64>,
    tx: TransactionId,
)
    requires
        is_index_of(m, adds),
        ids_differ(adds.push(a)),
        there.len() > 0,
        edge_record_of(there) == Some((a.edge_id, a.source, a.label, a.target, weight)),
        back.len() > 0,
        edge_record_of(back) == Some((a.edge_id, a.target, a.label, a.source, None::<u64>)),
    ensures
        is_index_of(
            with_edge(
                with_edge(m, (a.source, a.label, a.edge_id), there, tx),
                (a.target, a.label, a.edge_id),
                back,
                tx,
            ),
            adds.push(a),
        ),
{
    let ks = (a.source, a.label, a.edge_id);
    let kt = (a.target, a.label, a.edge_id);
    let mid = with_edge(m, ks, there, tx);
    let after = with_edge(mid, kt, back, tx);
    let all = adds.push(a);
    let n = adds.len() as int;
    assert(all[n] == a);
    assert forall|k: EdgeKey| k.2 == a.edge_id implies !#[trigger] m.contains_key(k) by {
        if m.contains_key(k) {
            let i = choose|i: int| 0 <= i < adds.len() && #[trigger] touches(adds[i], k);
            assert(all[i].edge_id != all[n].edge_id);
        }
    }
    assert forall|k: EdgeKey| #[trigger] after.contains_key(k) implies exists|i: int|
        0 <= i < all.len() && #[trigger] touches(all[i], k) by {
        if k == ks || k == kt {
            assert(touches(all[n], k));
        } else {
            assert(m.contains_key(k));
            let i = choose|i: int| 0 <= i < adds.len() && #[trigger] touches(adds[i], k);
            assert(touches(all[i], k));
        }
    }
    assert forall|i: int, k: EdgeKey| 0 <= i < all.len() && #[trigger] touches(all[i], k) implies {
        &&& after.contains_key(k)
        &&& after[k].len() > 0
        &&& forall|j: int| 0 <= j < after[k].len() ==> is_version_of(
            #[trigger] after[k][j],
            all[i],
            k.0,
        )
    } by {
        if i < n {
            assert(all[i] == adds[i]);
            assert(touches(adds[i], k));
            assert(all[i].edge_id != all[n].edge_id);
            assert(k != ks && k != kt);
            assert(after[k] == m[k]);
        } else {
            assert(k == ks || k == kt);
            assert(!m.contains_key(ks) && !m.contains_key(kt));
        }
    }
}

proof fn lemma_commit_keeps_index(m: EdgeChains, adds: Seq<Added>, lsn: LogSequenceNumber)
    requires
        is_index_of(m, adds),
    ensures
        is_index_of(m.map_values(|vs: Seq<Version>| commit_pending(vs, lsn)), adds),
{
    let done = m.map_values(|vs: Seq<Version>| commit_pending(vs, lsn));
    assert forall|k: EdgeKey| #[trigger] done.contains_key(k) implies exists|i: int|
        0 <= i < adds.len() && #[trigger] touches(adds[i], k) by {
        assert(m.contains_key(k));
    }
    assert forall|i: int, k: EdgeKey| 0 <= i < adds.len() && #[trigger] touches(
        adds[i],
        k,
    ) implies {
        &&& done.contains_key(k)
        &&& done[k].len() > 0
        &&& forall|j: int| 0 <= j < done[k].len() ==> is_version_of(
            #[trigger] done[k][j],
            adds[i],
            k.0,
        )
    } by {
        assert forall|j: int| 0 <= j < done[k].len() implies is_version_of(
            #[trigger] done[k][j],
            adds[i],
            k.0,
        ) by {
            assert(is_version_of(m[k][j], adds[i], k.0));
            assert(done[k][j].value == m[k][j].value);
        }
    }
}

proof fn lemma_growth(states: Seq<MemoryGraphTable>, steps: Seq<Growth>)
    requires
        is_grown(states, steps),
        ids_differ(added(steps)),
    ensures
        is_index_of(states.last().outgoing_edges.chains(), added(steps)),
        states.last().wf(),
        states.last().same_identity(&states[0]),
    decreases steps.len(),
{
    if steps.len() > 0 {
        let (ss, ts) = (states.drop_last(), steps.drop_last());
        let last = steps.len() - 1;
        assert forall|i: int| 0 <= i < ts.len() implies #[trigger] is_step(
            ss[i],
            ts[i],
            ss[i + 1],
        ) by {
            assert(is_step(states[i], steps[i], states[i + 1]));
        }
        assert(ids_differ(added(ts))) by {
            assert forall|i: int, j: int| 0 <= i < j < added(ts).len() implies (#[trigger] added(
                ts,
            )[i]).edge_id != (#[trigger] added(ts)[j]).edge_id by {
                assert(added(ts)[i] == added(steps)[i]);
                assert(added(ts)[j] == added(steps)[j]);
            }
        }
        lemma_growth(ss, ts);
        assert(is_step(states[last], steps[last], states[last + 1]));
        let m = ss.last().outgoing_edges.chains();
        assert(ss.last() == states[last]);
        match steps[last] {
            Growth::Add(a, weight, tx, _) => {
                lemma_add_keeps_index(
                    m,
                    added(ts),
                    a,
                    crate::wire::edge_record(
                        a.edge_id,
                        a.source,
                        a.label,
                        a.target,
                        crate::graph::memory::kept_weight(weight),
                    ),
                    crate::wire::edge_record(a.edge_id, a.target, a.label, a.source, None),
                    crate::graph::memory::kept_weight(weight),
                    tx,
                );
            },
            Growth::Commit(_, lsn) => {
                lemma_commit_keeps_index(m, added(ts), lsn);
            },
        }
    }
}

/// Every version of the index is committed.
pub open spec fn is_settled(m: EdgeChains) -> bool {
    forall|k: EdgeKey, j: int|
        m.contains_key(k) && 0 <= j < m[k].len() ==> (#[trigger] m[k][j]).commit_lsn is Some
}

/// The edges of the slots at a vertex are listed once each.
proof fn lemma_listed_ids(slots: Seq<EdgeSlot>, v: Seq<u8>, n: int)
    requires
        0 <= n <= slots.len(),
        forall|j: int|
            0 <= j < n && (#[trigger] slots[j]).vertex@ == v && seen_edge(slots[j].chain@) is Some
                ==> seen_edge(slots[j].chain@)->Some_0.edge_id == slots[j].edge_id@,
        forall|i: int, j: int|
            0 <= i < j < n && (#[trigger] slots[i]).vertex@ == v && (
            #[trigger] slots[j]).vertex@ == v ==> slots[i].edge_id@ != slots[j].edge_id@,
    ensures
        forall|p: int|
            0 <= p < seen_edges(slots, v, None, n).len() ==> exists|j: int|
                0 <= j < n && (#[trigger] slots[j]).vertex@ == v && seen_edge(slots[j].chain@)
                    == Some(#[trigger] seen_edges(slots, v, None, n)[p]),
        forall|p: int, q: int|
            0 <= p < q < seen_edges(slots, v, None, n).len() ==> (#[trigger] seen_edges(
                slots,
                v,
                None,
                n,
            )[p]).edge_id != (#[trigger] seen_edges(slots, v, None, n)[q]).edge_id,
    decreases n,
{
    if n > 0 {
        lemma_listed_ids(slots, v, n - 1);
        let before = seen_edges(slots, v, None, n - 1);
        let all = seen_edges(slots, v, None, n);
        assert forall|p: int| 0 <= p < all.len() implies exists|j: int|
            0 <= j < n && (#[trigger] slots[j]).vertex@ == v && seen_edge(slots[j].chain@) == Some(
                #[trigger] all[p],
            ) by {
            if p < before.len() {
                assert(all[p] == before[p]);
                let j = choose|j: int|
                    0 <= j < n - 1 && (#[trigger] slots[j]).vertex@ == v && seen_edge(
                        slots[j].chain@,
                    ) == Some(before[p]);
                assert(slots[j].vertex@ == v);
            } else {
                assert(slots[n - 1].vertex@ == v);
            }
        }
        assert forall|p: int, q: int| 0 <= p < q < all.len() implies (#[trigger] all[p]).edge_id
            != (#[trigger] all[q]).edge_id by {
            assert(all[p] == before[p]);
            if q < before.len() {
                assert(all[q] == before[q]);
            } else {
                let j = choose|j: int|
                    0 <= j < n - 1 && (#[trigger] slots[j]).vertex@ == v && seen_edge(
                        slots[j].chain@,
                    ) == Some(before[p]);
                assert(slots[j].edge_id@ != slots[n - 1].edge_id@);
            }
        }
    }
}

proof fn lemma_seen_is_added(m: EdgeChains, adds: Seq<Added>, k: EdgeKey, i: int)
    requires
        is_index_of(m, adds),
        is_settled(m),
        0 <= i < adds.len(),
        touches(adds[i], k),
    ensures
        seen_edge(m[k]) is Some,
        seen_edge(m[k])->Some_0.edge_id == k.2,
        is_between(adds[i], k.0, seen_edge(m[k])->Some_0.target),
{
    let vs = m[k];
    assert(is_version_of(vs[0], adds[i], k.0));
    assert(vs[0].commit_lsn is Some);
}

/// The places of a vertex in a list.
pub open spec fn places_in(list: Seq<Seq<u8>>, w: Seq<u8>) -> Set<int> {
    Set::new(|p: int| 0 <= p < list.len() && list[p] == w)
}

/// The additions that join two vertices.
pub open spec fn joins(adds: Seq<Added>, v: Seq<u8>, w: Seq<u8>) -> Set<int> {
    Set::new(|i: int| 0 <= i < adds.len() && is_between(adds[i], v, w))
}

/// In a graph that is not directed, to which edges were only added, each under an identifier of
/// its own, and where all of them are committed, the neighbours of a vertex are exactly the
/// vertices that an edge joined to it, either way round, and each stands there once for each of
/// these edges.
pub proof fn law_neighbours_are_the_added_pairs(
    states: Seq<MemoryGraphTable>,
    steps: Seq<Growth>,
    v: Seq<u8>,
    w: Seq<u8>,
)
    requires
        is_grown(states, steps),
        ids_differ(added(steps)),
        is_settled(states.last().outgoing_edges.chains()),
    ensures
        states.last().adjacent(v).contains(w) <==> exists|i: int|
            0 <= i < added(steps).len() && is_between(#[trigger] added(steps)[i], v, w),
        states.last().adjacent(v).contains(w) <==> states.last().adjacent(w).contains(v),
        places_in(states.last().adjacent(v), w).finite(),
        places_in(states.last().adjacent(v), w).len() == joins(added(steps), v, w).len(),
{
    lemma_growth(states, steps);
    let g = states.last();
    let adds = added(steps);
    lemma_pairs_at(g, adds, v, w);
    lemma_pairs_at(g, adds, w, v);
    if g.adjacent(v).contains(w) {
        let i = choose|i: int| 0 <= i < adds.len() && is_between(#[trigger] adds[i], v, w);
        assert(is_between(adds[i], w, v));
    }
    if g.adjacent(w).contains(v) {
        let i = choose|i: int| 0 <= i < adds.len() && is_between(#[trigger] adds[i], w, v);
        assert(is_between(adds[i], v, w));
    }
}

proof fn lemma_pairs_at(g: MemoryGraphTable, adds: Seq<Added>, v: Seq<u8>, w: Seq<u8>)
    requires
        g.wf(),
        g.config.use_memory_index,
        ids_differ(adds),
        is_index_of(g.outgoing_edges.chains(), adds),
        is_settled(g.outgoing_edges.chains()),
    ensures
        g.adjacent(v).contains(w) <==> exists|i: int|
            0 <= i < adds.len() && is_between(#[trigger] adds[i], v, w),
        places_in(g.adjacent(v), w).finite(),
        places_in(g.adjacent(v), w).len() == joins(adds, v, w).len(),
{
    let m = g.outgoing_edges.chains();
    let slots = g.outgoing_edges.slots@;
    let n = slots.len() as int;
    let edges = seen_edges(slots, v, None, n);
    // Each slot at the vertex belongs to one addition.
    assert forall|j: int| 0 <= j < n implies exists|i: int|
        0 <= i < adds.len() && touches(adds[i], (#[trigger] slots[j]).key()) by {
        g.outgoing_edges.lemma_slot(j);
    }
    assert forall|j: int| 0 <= j < n && (#[trigger] slots[j]).vertex@ == v && seen_edge(
        slots[j].chain@,
    ) is Some implies seen_edge(slots[j].chain@)->Some_0.edge_id == slots[j].edge_id@ by {
        g.outgoing_edges.lemma_slot(j);
        let i = choose|i: int| 0 <= i < adds.len() && touches(adds[i], slots[j].key());
        lemma_seen_is_added(m, adds, slots[j].key(), i);
    }
    assert forall|x: int, y: int| 0 <= x < y < n && (#[trigger] slots[x]).vertex@ == v && (
    #[trigger] slots[y]).vertex@ == v implies slots[x].edge_id@ != slots[y].edge_id@ by {
        if slots[x].edge_id@ == slots[y].edge_id@ {
            let a = choose|i: int| 0 <= i < adds.len() && touches(adds[i], slots[x].key());
            let b = choose|i: int| 0 <= i < adds.len() && touches(adds[i], slots[y].key());
            if a < b {
                assert(adds[a].edge_id != adds[b].edge_id);
            } else if b < a {
                assert(adds[b].edge_id != adds[a].edge_id);
            }
            assert(slots[x].key() == slots[y].key());
            g.outgoing_edges.lemma_slot(x);
            g.outgoing_edges.lemma_slot(y);
            assert(g.outgoing_edges.keys()[x] == g.outgoing_edges.keys()[y]);
        }
    }
    lemma_listed_ids(slots, v, n);
    // Each place leads to its addition, and each addition to its place.
    let found = |p: int| choose|i: int| 0 <= i < adds.len() && (#[trigger] adds[i]).edge_id
        == edges[p].edge_id;
    assert forall|p: int| 0 <= p < edges.len() implies {
        &&& 0 <= #[trigger] found(p) < adds.len()
        &&& adds[found(p)].edge_id == edges[p].edge_id
        &&& is_between(adds[found(p)], v, edges[p].target)
    } by {
        let j = choose|j: int|
            0 <= j < n && (#[trigger] slots[j]).vertex@ == v && seen_edge(slots[j].chain@) == Some(
                edges[p],
            );
        g.outgoing_edges.lemma_slot(j);
        let i = choose|i: int| 0 <= i < adds.len() && touches(adds[i], slots[j].key());
        lemma_seen_is_added(m, adds, slots[j].key(), i);
        assert(adds[i].edge_id == edges[p].edge_id);
        let f = found(p);
        assert(0 <= f < adds.len() && adds[f].edge_id == edges[p].edge_id);
        if f < i {
            assert(adds[f].edge_id != adds[i].edge_id);
        } else if i < f {
            assert(adds[i].edge_id != adds[f].edge_id);
        }
    }
    assert forall|i: int| 0 <= i < adds.len() && is_between(
        #[trigger] adds[i],
        v,
        w,
    ) implies exists|p: int|
        0 <= p < edges.len() && found(p) == i && (#[trigger] edges[p]).target == w by {
        let k = (v, adds[i].label, adds[i].edge_id);
        assert(touches(adds[i], k));
        lemma_seen_is_added(m, adds, k, i);
        let e = seen_edge(m[k])->Some_0;
        assert(m.contains_key(k) && fits(k, v, None::<Seq<u8>>));
        g.outgoing_edges.law_seen_edges_are_all(v, None, e);
        assert(edges.contains(e));
        let p = choose|p: int| 0 <= p < edges.len() && edges[p] == e;
        let f = found(p);
        assert(adds[f].edge_id == edges[p].edge_id);
        if f < i {
            assert(adds[f].edge_id != adds[i].edge_id);
        } else if i < f {
            assert(adds[i].edge_id != adds[f].edge_id);
        }
        assert(edges[p].target == w);
    }
    let places = places_in(g.adjacent(v), w);
    let added_there = joins(adds, v, w);
    vstd::set_lib::lemma_int_range(0, edges.len() as int);
    let range = vstd::set_lib::set_int_range(0, edges.len() as int);
    assert(places.subset_of(range));
    vstd::set_lib::lemma_len_subset(places, range);
    assert(vstd::relations::injective_on(found, places)) by {
        assert forall|p: int, q: int|
            places.contains(p) && places.contains(q) && #[trigger] found(p) == #[trigger] found(
                q,
            ) implies p == q by {
            if p < q {
                assert(edges[p].edge_id != edges[q].edge_id);
            } else if q < p {
                assert(edges[q].edge_id != edges[p].edge_id);
            }
        }
    }
    assert(places.map(found) =~= added_there) by {
        assert forall|i: int| places.map(found).contains(i) <==> added_there.contains(i) by {
            if added_there.contains(i) {
                let p = choose|p: int|
                    0 <= p < edges.len() && found(p) == i && (#[trigger] edges[p]).target == w;
                assert(g.adjacent(v)[p] == w);
                assert(places.contains(p));
            }
            if places.map(found).contains(i) {
                let p = choose|p: int| places.contains(p) && found(p) == i;
                assert(g.adjacent(v)[p] == edges[p].target);
            }
        }
    }
    lemma_map_size(places, added_there, found);
    if g.adjacent(v).contains(w) {
        let p = choose|p: int| 0 <= p < g.adjacent(v).len() && g.adjacent(v)[p] == w;
        assert(is_between(adds[found(p)], v, edges[p].target));
    }
    if exists|i: int| 0 <= i < adds.len() && is_between(#[trigger] adds[i], v, w) {
        let i = choose|i: int| 0 <= i < adds.len() && is_between(#[trigger] adds[i], v, w);
        let p = choose|p: int|
            0 <= p < edges.len() && found(p) == i && (#[trigger] edges[p]).target == w;
        assert(g.adjacent(v)[p] == w);
    }
}

} // verus!
