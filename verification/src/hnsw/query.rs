//! Searching a vector index.
use crate::fulltext::posting::{moment, Moment};
use crate::hnsw::insert::{are_steps_down, descend, is_descent, is_step_down};
use crate::hnsw::node::{load_node, node_at};
use crate::hnsw::search::{
    all_in, among, are_distinct, closed_on, is_distance_to, is_found, is_search, is_sorted,
    left_out, links_at, node_ids, search_layer, Candidate,
};
use crate::hnsw::table::PagedHnswVector;
use crate::pager::{PageView, Pager};
use crate::snap::Snapshot;
use crate::table::{TableError, TableResult};
use vstd::prelude::*;

verus! {

/// A vector that a search found, with its distance.
#[derive(Debug)]
pub struct VectorHit {
    pub id: Vec<u8>,
    pub distance: i64,
}

/// What a search is to give.
#[derive(Clone, Copy, Debug, PartialEq, Eq, Structural)]
pub struct VectorSearchOptions {
    /// How many hits at most.
    pub limit: usize,
    /// How many candidates to keep, if not as many as when vectors are taken in.
    pub ef_search: Option<usize>,
}

/// A hit as the contracts speak of it.
pub type Hit = (Seq<u8>, i64);

/// The hits as the contracts speak of them.
pub open spec fn hits_view(hits: Seq<VectorHit>) -> Seq<Hit> {
    Seq::new(hits.len(), |i: int| (hits[i].id@, hits[i].distance))
}

/// The hit that a candidate stands for.
pub open spec fn hit_of(pages: Map<u64, PageView>, c: Candidate) -> Hit {
    (node_at(pages, c.node_id)->Ok_0.id, c.distance)
}

/// The hits that candidates stand for.
pub open spec fn hits_of(pages: Map<u64, PageView>, cs: Seq<Candidate>) -> Seq<Hit> {
    Seq::new(cs.len(), |i: int| hit_of(pages, cs[i]))
}

/// The candidates are what a search finds that goes down all layers and keeps so many candidates
/// on the lowest one.
pub open spec fn is_answer<D: Fn(&[u32], &[u32]) -> i64>(
    dist: D,
    pages: Map<u64, PageView>,
    query: Seq<u32>,
    entry: u32,
    top: int,
    ef: usize,
    nodes: Set<u32>,
    cs: Seq<Candidate>,
) -> bool {
    exists|near: Seq<u32>| #[trigger]
        is_descent(dist, pages, query, entry, top, 0, nodes, near) && is_search(
            dist,
            pages,
            query,
            near,
            ef,
            0,
            cs,
            nodes,
        )
}

/// At most so many of the candidates.
pub open spec fn at_most(cs: Seq<Candidate>, limit: int) -> Seq<Candidate> {
    if limit < cs.len() {
        cs.take(limit)
    } else {
        cs
    }
}

/// The candidates that a snapshot sees.
pub open spec fn seen_of(pages: Map<u64, PageView>, cs: Seq<Candidate>, at: Moment) -> Seq<
    Candidate,
>
    decreases cs.len(),
{
    if cs.len() == 0 {
        Seq::empty()
    } else {
        let before = seen_of(pages, cs.drop_last(), at);
        if node_at(pages, cs.last().node_id)->Ok_0.seen_at(at) {
            before.push(cs.last())
        } else {
            before
        }
    }
}

/// The hits are the first ones that a search finds.
pub open spec fn is_reply<D: Fn(&[u32], &[u32]) -> i64>(
    dist: D,
    pages: Map<u64, PageView>,
    query: Seq<u32>,
    entry: u32,
    top: int,
    ef: usize,
    nodes: Set<u32>,
    limit: int,
    hits: Seq<Hit>,
) -> bool {
    exists|cs: Seq<Candidate>| #[trigger]
        is_answer(dist, pages, query, entry, top, ef, nodes, cs) && hits == hits_of(
            pages,
            at_most(cs, limit),
        )
}

/// The hits are the first ones that a search finds and a snapshot sees.
pub open spec fn is_reply_at<D: Fn(&[u32], &[u32]) -> i64>(
    dist: D,
    pages: Map<u64, PageView>,
    query: Seq<u32>,
    entry: u32,
    top: int,
    ef: usize,
    nodes: Set<u32>,
    limit: int,
    at: Moment,
    hits: Seq<Hit>,
) -> bool {
    exists|cs: Seq<Candidate>| #[trigger]
        is_answer(dist, pages, query, entry, top, ef, nodes, cs) && hits == hits_of(
            pages,
            at_most(seen_of(pages, cs, at), limit),
        )
}

/// What a search finds goes from the closest on, holds no vector twice, and gives the distance of
/// each.
pub proof fn law_answer_is_sorted<D: Fn(&[u32], &[u32]) -> i64>(
    dist: D,
    pages: Map<u64, PageView>,
    query: Seq<u32>,
    entry: u32,
    top: int,
    ef: usize,
    nodes: Set<u32>,
    cs: Seq<Candidate>,
)
    requires
        is_answer(dist, pages, query, entry, top, ef, nodes, cs),
    ensures
        is_sorted(cs),
        are_distinct(cs),
        forall|i: int|
            0 <= i < cs.len() ==> nodes.contains((#[trigger] cs[i]).node_id) && is_distance_to(
                dist,
                pages,
                query,
                cs[i].node_id,
                cs[i].distance,
            ),
{
    let near = choose|near: Seq<u32>| #[trigger]
        is_descent(dist, pages, query, entry, top, 0, nodes, near) && is_search(
            dist,
            pages,
            query,
            near,
            ef,
            0,
            cs,
            nodes,
        );
    let seen = choose|seen: Set<u32>| #[trigger]
        is_found(dist, pages, query, near, ef, 0, cs, seen) && seen.subset_of(nodes);
    assert forall|i: int| 0 <= i < cs.len() implies nodes.contains((#[trigger] cs[i]).node_id)
        && is_distance_to(dist, pages, query, cs[i].node_id, cs[i].distance) by {
        assert(seen.contains(cs[i].node_id));
    }
}

proof fn lemma_search_finds<D: Fn(&[u32], &[u32]) -> i64>(
    dist: D,
    pages: Map<u64, PageView>,
    query: Seq<u32>,
    entries: Seq<u32>,
    ef: usize,
    layer: int,
    cs: Seq<Candidate>,
    nodes: Set<u32>,
)
    requires
        is_search(dist, pages, query, entries, ef, layer, cs, nodes),
        entries.len() > 0,
        ef > 0,
    ensures
        cs.len() > 0,
{
    let seen = choose|seen: Set<u32>| #[trigger]
        is_found(dist, pages, query, entries, ef, layer, cs, seen) && seen.subset_of(nodes);
    assert(seen.contains(entries[0]));
    if !among(cs, entries[0]) {
        assert(cs.len() >= ef);
    } else {
        let i = choose|i: int| 0 <= i < cs.len() && (#[trigger] cs[i]).node_id == entries[0];
        assert(0 <= i < cs.len());
    }
}

proof fn lemma_steps_go_on<D: Fn(&[u32], &[u32]) -> i64>(
    dist: D,
    pages: Map<u64, PageView>,
    query: Seq<u32>,
    top: int,
    nodes: Set<u32>,
    steps: Seq<Seq<u32>>,
    i: int,
)
    requires
        are_steps_down(dist, pages, query, top, nodes, steps),
        0 <= i < steps.len(),
        steps[0].len() > 0,
    ensures
        steps[i].len() > 0,
    decreases i,
{
    if i > 0 {
        lemma_steps_go_on(dist, pages, query, top, nodes, steps, i - 1);
        let from = steps[i - 1];
        let to = steps[i - 1 + 1];
        assert(is_step_down(dist, pages, query, top - (i - 1), nodes, from, to));
        let cs = choose|cs: Seq<Candidate>| #[trigger]
            is_search(dist, pages, query, from, 1, top - (i - 1), cs, nodes) && to == node_ids(cs);
        lemma_search_finds(dist, pages, query, from, 1, top - (i - 1), cs, nodes);
    }
}

/// Where there is an entry point, a search that keeps candidates finds something.
pub proof fn law_answer_is_not_empty<D: Fn(&[u32], &[u32]) -> i64>(
    dist: D,
    pages: Map<u64, PageView>,
    query: Seq<u32>,
    entry: u32,
    top: int,
    ef: usize,
    nodes: Set<u32>,
    cs: Seq<Candidate>,
)
    requires
        is_answer(dist, pages, query, entry, top, ef, nodes, cs),
        ef > 0,
    ensures
        cs.len() > 0,
{
    let near = choose|near: Seq<u32>| #[trigger]
        is_descent(dist, pages, query, entry, top, 0, nodes, near) && is_search(
            dist,
            pages,
            query,
            near,
            ef,
            0,
            cs,
            nodes,
        );
    let steps = choose|steps: Seq<Seq<u32>>| #[trigger]
        are_steps_down(dist, pages, query, top, nodes, steps) && steps.len() == 1 + (if top > 0 {
            top
        } else {
            0
        }) && steps[0] == seq![entry] && steps.last() == near;
    lemma_steps_go_on(dist, pages, query, top, nodes, steps, steps.len() - 1);
    lemma_search_finds(dist, pages, query, near, ef, 0, cs, nodes);
}

/// A search that finds fewer than it could keep has found every node that is linked, on the lowest
/// layer, with one that it found.
pub proof fn law_wide_search_is_complete<D: Fn(&[u32], &[u32]) -> i64>(
    dist: D,
    pages: Map<u64, PageView>,
    query: Seq<u32>,
    entry: u32,
    top: int,
    ef: usize,
    nodes: Set<u32>,
    cs: Seq<Candidate>,
    from: u32,
    to: u32,
)
    requires
        is_answer(dist, pages, query, entry, top, ef, nodes, cs),
        cs.len() < ef,
        among(cs, from),
        links_at(pages, from, 0).contains(to),
    ensures
        among(cs, to),
{
    let near = choose|near: Seq<u32>| #[trigger]
        is_descent(dist, pages, query, entry, top, 0, nodes, near) && is_search(
            dist,
            pages,
            query,
            near,
            ef,
            0,
            cs,
            nodes,
        );
    let seen = choose|seen: Set<u32>| #[trigger]
        is_found(dist, pages, query, near, ef, 0, cs, seen) && seen.subset_of(nodes);
    let i = choose|i: int| 0 <= i < cs.len() && (#[trigger] cs[i]).node_id == from;
    assert(seen.contains(cs[i].node_id));
    assert(closed_on(pages, seen, 0));
    let links = links_at(pages, from, 0);
    let j = links.index_of(to);
    assert(seen.contains(links_at(pages, from, 0)[j]));
}

/// A distance to a node is always the same.
pub open spec fn is_settled<D: Fn(&[u32], &[u32]) -> i64>(
    dist: D,
    pages: Map<u64, PageView>,
    query: Seq<u32>,
) -> bool {
    forall|id: u32, d: i64, e: i64|
        is_distance_to(dist, pages, query, id, d) && is_distance_to(dist, pages, query, id, e)
            ==> d == e
}

/// A search does not stop beside something closer: whatever is linked, on the lowest layer, with a
/// node that is closer than the farthest that it found, it has found too, or it is no closer than
/// all that it found.
pub proof fn law_search_follows_closer_nodes<D: Fn(&[u32], &[u32]) -> i64>(
    dist: D,
    pages: Map<u64, PageView>,
    query: Seq<u32>,
    entry: u32,
    top: int,
    ef: usize,
    nodes: Set<u32>,
    cs: Seq<Candidate>,
    i: int,
    to: u32,
)
    requires
        is_answer(dist, pages, query, entry, top, ef, nodes, cs),
        is_settled(dist, pages, query),
        0 <= i < cs.len(),
        cs[i].distance < cs.last().distance,
        links_at(pages, cs[i].node_id, 0).contains(to),
    ensures
        among(cs, to) || left_out(dist, pages, query, cs, to),
{
    let near = choose|near: Seq<u32>| #[trigger]
        is_descent(dist, pages, query, entry, top, 0, nodes, near) && is_search(
            dist,
            pages,
            query,
            near,
            ef,
            0,
            cs,
            nodes,
        );
    let seen = choose|seen: Set<u32>| #[trigger]
        is_found(dist, pages, query, near, ef, 0, cs, seen) && seen.subset_of(nodes);
    let id = cs[i].node_id;
    let links = links_at(pages, id, 0);
    assert(seen.contains(cs[i].node_id));
    if !all_in(links, seen) {
        let d = choose|d: i64| #[trigger]
            is_distance_to(dist, pages, query, id, d) && forall|k: int|
                0 <= k < cs.len() ==> (#[trigger] cs[k]).distance <= d;
        assert(d == cs[i].distance);
        assert(cs[cs.len() - 1].distance <= d);
    }
    let j = links.index_of(to);
    assert(seen.contains(links[j]));
}

/// From every node all others can be reached by links of the lowest layer.
pub open spec fn is_connected(pages: Map<u64, PageView>, nodes: Set<u32>) -> bool {
    forall|s: Set<u32>, id: u32|
        #[trigger] closed_on(pages, s, 0) && #[trigger] s.contains(id) && nodes.contains(id)
            ==> nodes.subset_of(s)
}

/// As many candidates hold no node twice as there are nodes among them.
proof fn lemma_distinct_len(cs: Seq<Candidate>, nodes: Set<u32>)
    requires
        nodes.finite(),
        are_distinct(cs),
    ensures
        (forall|id: u32| #[trigger] nodes.contains(id) ==> among(cs, id)) ==> cs.len()
            >= nodes.len(),
        (forall|i: int| 0 <= i < cs.len() ==> nodes.contains((#[trigger] cs[i]).node_id))
            ==> cs.len() <= nodes.len(),
    decreases cs.len(),
{
    let ids = node_ids(cs);
    assert(ids.no_duplicates()) by {
        assert forall|i: int, j: int| 0 <= i < ids.len() && 0 <= j < ids.len() && i != j implies ids[i]
            != ids[j] by {
            if i < j {
                assert(cs[i].node_id != cs[j].node_id);
            } else {
                assert(cs[j].node_id != cs[i].node_id);
            }
        }
    }
    ids.unique_seq_to_set();
    vstd::seq_lib::seq_to_set_is_finite(ids);
    if forall|id: u32| #[trigger] nodes.contains(id) ==> among(cs, id) {
        assert forall|id: u32| nodes.contains(id) implies #[trigger] ids.to_set().contains(id) by {
            assert(among(cs, id));
            let i = choose|i: int| 0 <= i < cs.len() && (#[trigger] cs[i]).node_id == id;
            assert(ids[i] == id);
        }
        vstd::set_lib::lemma_len_subset(nodes, ids.to_set());
    }
    if forall|i: int| 0 <= i < cs.len() ==> nodes.contains((#[trigger] cs[i]).node_id) {
        assert forall|id: u32| ids.to_set().contains(id) implies #[trigger] nodes.contains(id) by {
            let i = ids.index_of(id);
            assert(nodes.contains(cs[i].node_id));
        }
        vstd::set_lib::lemma_len_subset(ids.to_set(), nodes);
    }
}

/// A search in a connected graph finds as many candidates as it is to keep, or all nodes.
pub proof fn law_search_finds_enough<D: Fn(&[u32], &[u32]) -> i64>(
    dist: D,
    pages: Map<u64, PageView>,
    query: Seq<u32>,
    entry: u32,
    top: int,
    ef: usize,
    nodes: Set<u32>,
    cs: Seq<Candidate>,
)
    requires
        is_answer(dist, pages, query, entry, top, ef, nodes, cs),
        nodes.finite(),
        is_connected(pages, nodes),
    ensures
        cs.len() >= ef || cs.len() >= nodes.len(),
        cs.len() <= nodes.len(),
        ef >= nodes.len() ==> forall|id: u32| #[trigger] nodes.contains(id) ==> among(cs, id),
{
    law_answer_is_sorted(dist, pages, query, entry, top, ef, nodes, cs);
    lemma_distinct_len(cs, nodes);
    let near = choose|near: Seq<u32>| #[trigger]
        is_descent(dist, pages, query, entry, top, 0, nodes, near) && is_search(
            dist,
            pages,
            query,
            near,
            ef,
            0,
            cs,
            nodes,
        );
    let steps = choose|steps: Seq<Seq<u32>>| #[trigger]
        are_steps_down(dist, pages, query, top, nodes, steps) && steps.len() == 1 + (if top > 0 {
            top
        } else {
            0
        }) && steps[0] == seq![entry] && steps.last() == near;
    lemma_steps_go_on(dist, pages, query, top, nodes, steps, steps.len() - 1);
    let seen = choose|seen: Set<u32>| #[trigger]
        is_found(dist, pages, query, near, ef, 0, cs, seen) && seen.subset_of(nodes);
    assert(seen.contains(near[0]));
    if cs.len() < ef {
        assert(closed_on(pages, seen, 0));
        assert(nodes.subset_of(seen));
        assert forall|id: u32| #[trigger] nodes.contains(id) implies among(cs, id) by {
            assert(seen.contains(id));
        }
    } else if ef >= nodes.len() {
        lemma_all_among(cs, nodes);
    }
}

/// Candidates that hold as many nodes as there are hold all of them.
proof fn lemma_all_among(cs: Seq<Candidate>, nodes: Set<u32>)
    requires
        nodes.finite(),
        are_distinct(cs),
        cs.len() >= nodes.len(),
        forall|i: int| 0 <= i < cs.len() ==> nodes.contains((#[trigger] cs[i]).node_id),
    ensures
        forall|id: u32| #[trigger] nodes.contains(id) ==> among(cs, id),
{
    let ids = node_ids(cs);
    assert(ids.no_duplicates()) by {
        assert forall|i: int, j: int| 0 <= i < ids.len() && 0 <= j < ids.len() && i != j implies ids[i]
            != ids[j] by {
            if i < j {
                assert(cs[i].node_id != cs[j].node_id);
            } else {
                assert(cs[j].node_id != cs[i].node_id);
            }
        }
    }
    ids.unique_seq_to_set();
    vstd::seq_lib::seq_to_set_is_finite(ids);
    assert forall|id: u32| ids.to_set().contains(id) implies #[trigger] nodes.contains(id) by {
        let i = ids.index_of(id);
        assert(nodes.contains(cs[i].node_id));
    }
    vstd::set_lib::lemma_len_subset(ids.to_set(), nodes);
    vstd::set_lib::lemma_subset_equality(ids.to_set(), nodes);
    assert forall|id: u32| #[trigger] nodes.contains(id) implies among(cs, id) by {
        assert(ids.to_set().contains(id));
        let i = ids.index_of(id);
        assert(cs[i].node_id == id);
    }
}

/// A node with that identifier is one of the nodes, and that is its distance.
pub open spec fn is_vector_at<D: Fn(&[u32], &[u32]) -> i64>(
    dist: D,
    pages: Map<u64, PageView>,
    query: Seq<u32>,
    nodes: Set<u32>,
    n: u32,
    hit: Hit,
) -> bool {
    &&& nodes.contains(n)
    &&& node_at(pages, n)->Ok_0.id == hit.0
    &&& is_distance_to(dist, pages, query, n, hit.1)
}

/// The hit is a vector of the index, with its distance.
pub open spec fn is_vector<D: Fn(&[u32], &[u32]) -> i64>(
    dist: D,
    pages: Map<u64, PageView>,
    query: Seq<u32>,
    nodes: Set<u32>,
    hit: Hit,
) -> bool {
    exists|n: u32| #[trigger] is_vector_at(dist, pages, query, nodes, n, hit)
}

/// The hit is a vector of the index that a snapshot sees, with its distance.
pub open spec fn is_seen_vector<D: Fn(&[u32], &[u32]) -> i64>(
    dist: D,
    pages: Map<u64, PageView>,
    query: Seq<u32>,
    nodes: Set<u32>,
    at: Moment,
    hit: Hit,
) -> bool {
    exists|n: u32| #[trigger]
        is_vector_at(dist, pages, query, nodes, n, hit) && node_at(pages, n)->Ok_0.seen_at(at)
}

impl PagedHnswVector {
    /// A search gives no more hits than it is asked for, from the closest on, each a vector of the
    /// index with its distance. In a connected graph it gives exactly as many as it is asked for,
    /// where there are as many vectors and the caller lets it keep as many candidates; where it is
    /// given no number of candidates to keep, the settings of the index give it. If it may keep as
    /// many candidates as there are vectors, the hits are the closest ones of all.
    pub proof fn law_search_gives_the_closest<D: Fn(&[u32], &[u32]) -> i64>(
        &self,
        dist: D,
        pager: Pager,
        query: Seq<u32>,
        options: VectorSearchOptions,
        hits: Seq<Hit>,
    )
        requires
            self.wf(&pager),
            self.entry_point is Some,
            is_reply(
                dist,
                pager.pages(),
                query,
                self.entry_point->Some_0,
                self.max_layer as int,
                self.breadth(options.ef_search),
                self.nodes@,
                options.limit as int,
                hits,
            ),
        ensures
            hits.len() <= options.limit,
            forall|i: int, j: int|
                0 <= i <= j < hits.len() ==> (#[trigger] hits[i]).1 <= (#[trigger] hits[j]).1,
            forall|i: int|
                0 <= i < hits.len() ==> is_vector(
                    dist,
                    pager.pages(),
                    query,
                    self.nodes@,
                    #[trigger] hits[i],
                ),
            ({
                let ef = match options.ef_search {
                    Some(x) => x,
                    None => self.config.ef_construction,
                };
                is_connected(pager.pages(), self.nodes@) ==> {
                    &&& options.limit <= ef && options.limit <= self.nodes@.len() ==> hits.len()
                        == options.limit
                    &&& self.nodes@.len() <= ef && self.nodes@.len() <= options.limit
                        ==> hits.len() == self.nodes@.len()
                    &&& self.nodes@.len() <= ef && is_settled(dist, pager.pages(), query)
                        ==> forall|n: u32, hit: Hit, i: int|
                        #[trigger] is_vector_at(dist, pager.pages(), query, self.nodes@, n, hit)
                            && !hits.contains(hit) && 0 <= i < hits.len() ==> (
                        #[trigger] hits[i]).1 <= hit.1
                }
            }),
    {
        let pages = pager.pages();
        let nodes = self.nodes@;
        let entry = self.entry_point->Some_0;
        let top = self.max_layer as int;
        let ef = self.breadth(options.ef_search);
        let limit = options.limit as int;
        let cs = choose|cs: Seq<Candidate>| #[trigger]
            is_answer(dist, pages, query, entry, top, ef, nodes, cs) && hits == hits_of(
                pages,
                at_most(cs, limit),
            );
        law_answer_is_sorted(dist, pages, query, entry, top, ef, nodes, cs);
        let part = at_most(cs, limit);
        assert forall|i: int| 0 <= i < hits.len() implies is_vector(
            dist,
            pages,
            query,
            nodes,
            #[trigger] hits[i],
        ) by {
            assert(part[i] == cs[i]);
            assert(is_vector_at(dist, pages, query, nodes, cs[i].node_id, hits[i]));
        }
        assert forall|i: int, j: int| 0 <= i <= j < hits.len() implies (#[trigger] hits[i]).1 <= (
        #[trigger] hits[j]).1 by {
            assert(cs[i].distance <= cs[j].distance);
        }
        if is_connected(pages, nodes) {
            law_search_finds_enough(dist, pages, query, entry, top, ef, nodes, cs);
            if nodes.len() <= ef && is_settled(dist, pages, query) {
                assert forall|n: u32, hit: Hit, i: int|
                    #[trigger] is_vector_at(dist, pages, query, nodes, n, hit) && !hits.contains(hit)
                        && 0 <= i < hits.len() implies (#[trigger] hits[i]).1 <= hit.1 by {
                    assert(nodes.contains(n));
                    assert(among(cs, n));
                    let k = choose|k: int| 0 <= k < cs.len() && (#[trigger] cs[k]).node_id == n;
                    assert(is_distance_to(dist, pages, query, cs[k].node_id, cs[k].distance));
                    assert(cs[k].distance == hit.1);
                    if k < part.len() {
                        assert(hits[k] == hit);
                    }
                    assert(cs[i].distance <= cs[k].distance);
                }
            }
        }
    }

    /// A search at a snapshot gives vectors that the snapshot sees, from the closest on. In a
    /// connected graph, if it may keep as many candidates as there are vectors, no vector that the
    /// snapshot sees is left out, unless the hits are as many as were asked for and none of them is
    /// farther away.
    pub proof fn law_search_at_a_snapshot_gives_the_closest<D: Fn(&[u32], &[u32]) -> i64>(
        &self,
        dist: D,
        pager: Pager,
        query: Seq<u32>,
        limit: usize,
        ef_search: Option<usize>,
        at: Moment,
        hits: Seq<Hit>,
    )
        requires
            self.wf(&pager),
            self.entry_point is Some,
            limit > 0,
            is_reply_at(
                dist,
                pager.pages(),
                query,
                self.entry_point->Some_0,
                self.max_layer as int,
                self.breadth(ef_search),
                self.nodes@,
                limit as int,
                at,
                hits,
            ),
        ensures
            hits.len() <= limit,
            forall|i: int, j: int|
                0 <= i <= j < hits.len() ==> (#[trigger] hits[i]).1 <= (#[trigger] hits[j]).1,
            forall|i: int|
                0 <= i < hits.len() ==> is_seen_vector(
                    dist,
                    pager.pages(),
                    query,
                    self.nodes@,
                    at,
                    #[trigger] hits[i],
                ),
            ({
                let ef = match ef_search {
                    Some(x) => x,
                    None => self.config.ef_construction,
                };
                is_connected(pager.pages(), self.nodes@) && self.nodes@.len() <= ef && is_settled(
                    dist,
                    pager.pages(),
                    query,
                ) ==> forall|n: u32, hit: Hit|
                    #[trigger] is_vector_at(dist, pager.pages(), query, self.nodes@, n, hit)
                        && node_at(pager.pages(), n)->Ok_0.seen_at(at) && !hits.contains(hit)
                        ==> hits.len() == limit && hits.last().1 <= hit.1
            }),
    {
        let pages = pager.pages();
        let nodes = self.nodes@;
        let entry = self.entry_point->Some_0;
        let top = self.max_layer as int;
        let ef = self.breadth(ef_search);
        let cs = choose|cs: Seq<Candidate>| #[trigger]
            is_answer(dist, pages, query, entry, top, ef, nodes, cs) && hits == hits_of(
                pages,
                at_most(seen_of(pages, cs, at), limit as int),
            );
        law_answer_is_sorted(dist, pages, query, entry, top, ef, nodes, cs);
        let all = seen_of(pages, cs, at);
        let part = at_most(all, limit as int);
        lemma_seen_sorted(pages, cs, at);
        assert forall|i: int| 0 <= i < hits.len() implies is_seen_vector(
            dist,
            pages,
            query,
            nodes,
            at,
            #[trigger] hits[i],
        ) by {
            assert(part[i] == all[i]);
            law_seen_candidates(pages, cs, at, all[i]);
            assert(all.contains(all[i]));
            let k = cs.index_of(all[i]);
            assert(nodes.contains(cs[k].node_id));
            assert(is_vector_at(dist, pages, query, nodes, cs[k].node_id, hits[i]));
        }
        assert forall|i: int, j: int| 0 <= i <= j < hits.len() implies (#[trigger] hits[i]).1 <= (
        #[trigger] hits[j]).1 by {
            assert(all[i].distance <= all[j].distance);
        }
        if is_connected(pages, nodes) && nodes.len() <= ef && is_settled(dist, pages, query) {
            law_search_finds_enough(dist, pages, query, entry, top, ef, nodes, cs);
            assert forall|n: u32, hit: Hit|
                #[trigger] is_vector_at(dist, pages, query, nodes, n, hit) && node_at(
                    pages,
                    n,
                )->Ok_0.seen_at(at) && !hits.contains(hit) implies hits.len() == limit
                && hits.last().1 <= hit.1 by {
                assert(nodes.contains(n));
                let k = choose|k: int| 0 <= k < cs.len() && (#[trigger] cs[k]).node_id == n;
                assert(is_distance_to(dist, pages, query, cs[k].node_id, cs[k].distance));
                assert(cs[k].distance == hit.1);
                law_seen_candidates(pages, cs, at, cs[k]);
                assert(cs.contains(cs[k]));
                let q = all.index_of(cs[k]);
                if q < part.len() {
                    assert(hits[q] == hit);
                }
                assert(all[limit - 1].distance <= all[q].distance);
            }
        }
    }
}

/// The candidates that are seen stay in order.
proof fn lemma_seen_sorted(pages: Map<u64, PageView>, cs: Seq<Candidate>, at: Moment)
    requires
        is_sorted(cs),
    ensures
        is_sorted(seen_of(pages, cs, at)),
        cs.len() > 0 ==> forall|i: int|
            0 <= i < seen_of(pages, cs, at).len() ==> (
            #[trigger] seen_of(pages, cs, at)[i]).distance <= cs.last().distance,
    decreases cs.len(),
{
    if cs.len() > 0 {
        let rest = cs.drop_last();
        assert(is_sorted(rest)) by {
            assert forall|i: int, j: int| 0 <= i <= j < rest.len() implies (
            #[trigger] rest[i]).distance <= (#[trigger] rest[j]).distance by {
                assert(cs[i].distance <= cs[j].distance);
            }
        }
        lemma_seen_sorted(pages, rest, at);
        if rest.len() > 0 {
            assert(cs[rest.len() - 1].distance <= cs[cs.len() - 1].distance);
        }
    }
}

/// The only vector of an index is found.
pub proof fn law_only_vector_is_found<D: Fn(&[u32], &[u32]) -> i64>(
    dist: D,
    pages: Map<u64, PageView>,
    query: Seq<u32>,
    entry: u32,
    top: int,
    ef: usize,
    cs: Seq<Candidate>,
)
    requires
        is_answer(dist, pages, query, entry, top, ef, set![entry], cs),
        ef > 0,
    ensures
        cs.len() == 1,
        cs[0].node_id == entry,
{
    law_answer_is_not_empty(dist, pages, query, entry, top, ef, set![entry], cs);
    law_answer_is_sorted(dist, pages, query, entry, top, ef, set![entry], cs);
    assert(set![entry].contains(cs[0].node_id));
    if cs.len() > 1 {
        assert(set![entry].contains(cs[1].node_id));
        assert(cs[0].node_id != cs[1].node_id);
    }
}

/// What a search at a snapshot considers are the candidates that the snapshot sees, and no others.
pub proof fn law_seen_candidates(
    pages: Map<u64, PageView>,
    cs: Seq<Candidate>,
    at: Moment,
    c: Candidate,
)
    ensures
        seen_of(pages, cs, at).contains(c) <==> cs.contains(c) && node_at(
            pages,
            c.node_id,
        )->Ok_0.seen_at(at),
    decreases cs.len(),
{
    if cs.len() > 0 {
        let rest = cs.drop_last();
        let before = seen_of(pages, rest, at);
        law_seen_candidates(pages, rest, at, c);
        assert(cs =~= rest.push(cs.last()));
        assert(cs.contains(c) <==> rest.contains(c) || c == cs.last()) by {
            if rest.contains(c) {
                assert(cs[rest.index_of(c)] == c);
            }
            if c == cs.last() {
                assert(cs[cs.len() - 1] == c);
            }
            if cs.contains(c) && c != cs.last() {
                assert(rest[cs.index_of(c)] == c);
            }
        }
        let longer = before.push(cs.last());
        assert(longer.contains(c) <==> before.contains(c) || c == cs.last()) by {
            if before.contains(c) {
                assert(longer[before.index_of(c)] == c);
            }
            if c == cs.last() {
                assert(longer[before.len() as int] == c);
            }
            if longer.contains(c) && c != cs.last() {
                assert(before[longer.index_of(c)] == c);
            }
        }
    }
}

impl PagedHnswVector {
    fn answer<D: Fn(&[u32], &[u32]) -> i64>(
        &self,
        pager: &Pager,
        dist: &D,
        query: &[u32],
        entry: u32,
        ef: usize,
    ) -> (r: TableResult<Vec<Candidate>>)
        requires
            self.wf(pager),
            self.entry_point == Some(entry),
            forall|x: &[u32], y: &[u32]| #[trigger] dist.requires((x, y)),
        ensures
            r is Ok,
            is_answer(
                *dist,
                pager.pages(),
                query@,
                entry,
                self.max_layer as int,
                ef,
                self.nodes@,
                r->Ok_0@,
            ),
    {
        let ghost nodes = self.nodes@;
        let near = match descend(pager, dist, query, entry, self.max_layer, 0, Ghost(nodes)) {
            Ok(x) => x,
            Err(e) => return Err(e),
        };
        search_layer(pager, dist, query, &near, ef, 0, Ghost(nodes))
    }

    /// How many candidates a search keeps.
    pub open spec fn breadth(&self, ef_search: Option<usize>) -> usize {
        match ef_search {
            Some(ef) => ef,
            None => self.config.ef_construction,
        }
    }

    /// Searches for the vectors that are closest to one.
    pub fn search_vector<D: Fn(&[u32], &[u32]) -> i64>(
        &self,
        pager: &Pager,
        dist: &D,
        query: &[u32],
        options: VectorSearchOptions,
    ) -> (r: TableResult<Vec<VectorHit>>)
        requires
            self.wf(pager),
            forall|x: &[u32], y: &[u32]| #[trigger] dist.requires((x, y)),
        ensures
            query@.len() != self.config.dimensions ==> r == Err::<Vec<VectorHit>, TableError>(
                TableError::DimensionMismatch {
                    expected: self.config.dimensions,
                    found: query@.len() as usize,
                },
            ),
            query@.len() == self.config.dimensions ==> r is Ok && match self.entry_point {
                None => r->Ok_0@.len() == 0,
                Some(ep) => is_reply(
                    *dist,
                    pager.pages(),
                    query@,
                    ep,
                    self.max_layer as int,
                    self.breadth(options.ef_search),
                    self.nodes@,
                    options.limit as int,
                    hits_view(r->Ok_0@),
                ),
            },
    {
        if query.len() != self.config.dimensions {
            return Err(
                TableError::DimensionMismatch {
                    expected: self.config.dimensions,
                    found: query.len(),
                },
            );
        }
        let entry: u32 = match self.entry_point {
            Some(ep) => ep,
            None => return Ok(Vec::new()),
        };
        let ef: usize = match options.ef_search {
            Some(x) => x,
            None => self.config.ef_construction,
        };
        let found = match self.answer(pager, dist, query, entry, ef) {
            Ok(cs) => cs,
            Err(e) => return Err(e),
        };
        proof {
            law_answer_is_sorted(
                *dist,
                pager.pages(),
                query@,
                entry,
                self.max_layer as int,
                ef,
                self.nodes@,
                found@,
            );
        }
        let ghost kept = at_most(found@, options.limit as int);
        let mut hits: Vec<VectorHit> = Vec::new();
        let mut i: usize = 0;
        while i < found.len() && i < options.limit
            invariant
                i <= kept.len(),
                kept == at_most(found@, options.limit as int),
                self.wf(pager),
                forall|j: int|
                    0 <= j < found@.len() ==> self.nodes@.contains((#[trigger] found@[j]).node_id),
                hits@.len() == i,
                forall|j: int|
                    0 <= j < i ==> (#[trigger] hits@[j]).id@ == node_at(
                        pager.pages(),
                        found@[j].node_id,
                    )->Ok_0.id && hits@[j].distance == found@[j].distance,
            decreases found@.len() - i,
        {
            assert(self.nodes@.contains(found@[i as int].node_id));
            let node = match load_node(pager, found[i].node_id) {
                Ok(x) => x,
                Err(e) => return Err(e),
            };
            hits.push(VectorHit { id: node.id, distance: found[i].distance });
            i += 1;
        }
        proof {
            assert(hits_view(hits@) =~= hits_of(pager.pages(), kept));
            assert(is_answer(
                *dist,
                pager.pages(),
                query@,
                entry,
                self.max_layer as int,
                ef,
                self.nodes@,
                found@,
            ));
        }
        Ok(hits)
    }

    /// Searches for the vectors that are closest to one among those that a snapshot sees. At least
    /// one is given where one was found.
    pub fn search_vector_snapshot<D: Fn(&[u32], &[u32]) -> i64>(
        &self,
        pager: &Pager,
        dist: &D,
        query: &[u32],
        limit: usize,
        ef_search: Option<usize>,
        snapshot: &Snapshot,
    ) -> (r: TableResult<Vec<VectorHit>>)
        requires
            self.wf(pager),
            forall|x: &[u32], y: &[u32]| #[trigger] dist.requires((x, y)),
        ensures
            query@.len() != self.config.dimensions ==> r == Err::<Vec<VectorHit>, TableError>(
                TableError::DimensionMismatch {
                    expected: self.config.dimensions,
                    found: query@.len() as usize,
                },
            ),
            query@.len() == self.config.dimensions ==> r is Ok && match self.entry_point {
                None => r->Ok_0@.len() == 0,
                Some(ep) => is_reply_at(
                    *dist,
                    pager.pages(),
                    query@,
                    ep,
                    self.max_layer as int,
                    self.breadth(ef_search),
                    self.nodes@,
                    if limit == 0 {
                        1
                    } else {
                        limit as int
                    },
                    moment(snapshot),
                    hits_view(r->Ok_0@),
                ),
            },
    {
        if query.len() != self.config.dimensions {
            return Err(
                TableError::DimensionMismatch {
                    expected: self.config.dimensions,
                    found: query.len(),
                },
            );
        }
        let entry: u32 = match self.entry_point {
            Some(ep) => ep,
            None => return Ok(Vec::new()),
        };
        let ef: usize = match ef_search {
            Some(x) => x,
            None => self.config.ef_construction,
        };
        let found = match self.answer(pager, dist, query, entry, ef) {
            Ok(cs) => cs,
            Err(e) => return Err(e),
        };
        let ghost pages = pager.pages();
        let ghost at = moment(snapshot);
        proof {
            law_answer_is_sorted(
                *dist,
                pages,
                query@,
                entry,
                self.max_layer as int,
                ef,
                self.nodes@,
                found@,
            );
        }
        let most: usize = if limit == 0 {
            1
        } else {
            limit
        };
        let mut hits: Vec<VectorHit> = Vec::new();
        let mut i: usize = 0;
        proof {
            assert(found@.take(0) =~= Seq::empty());
            assert(hits_view(hits@) =~= hits_of(pages, seen_of(pages, found@.take(0), at)));
        }
        while i < found.len() && hits.len() < most
            invariant
                i <= found@.len(),
                self.wf(pager),
                pages == pager.pages(),
                at == moment(snapshot),
                most >= 1,
                forall|j: int|
                    0 <= j < found@.len() ==> self.nodes@.contains((#[trigger] found@[j]).node_id),
                hits@.len() <= most,
                hits_view(hits@) == hits_of(pages, seen_of(pages, found@.take(i as int), at)),
            decreases found@.len() - i,
        {
            assert(self.nodes@.contains(found@[i as int].node_id));
            let node = match load_node(pager, found[i].node_id) {
                Ok(x) => x,
                Err(e) => return Err(e),
            };
            proof {
                assert(found@.take(i + 1).drop_last() =~= found@.take(i as int));
                assert(found@.take(i + 1).last() == found@[i as int]);
            }
            let ghost before = hits@;
            if node.is_visible(snapshot) {
                hits.push(VectorHit { id: node.id, distance: found[i].distance });
                proof {
                    let cs = seen_of(pages, found@.take(i as int), at);
                    assert(hits_view(hits@) =~= hits_view(before).push(
                        hit_of(pages, found@[i as int]),
                    ));
                    assert(hits_of(pages, cs.push(found@[i as int])) =~= hits_of(pages, cs).push(
                        hit_of(pages, found@[i as int]),
                    ));
                }
            }
            i += 1;
        }
        proof {
            let all = seen_of(pages, found@, at);
            let part = seen_of(pages, found@.take(i as int), at);
            lemma_seen_prefix(pages, found@, at, i as int);
            assert(hits@.len() == hits_of(pages, part).len());
            if i == found@.len() {
                assert(found@.take(i as int) =~= found@);
                assert(at_most(all, most as int) =~= all);
            } else {
                assert(part =~= all.take(most as int));
                assert(at_most(all, most as int) =~= part);
            }
            assert(is_answer(
                *dist,
                pages,
                query@,
                entry,
                self.max_layer as int,
                ef,
                self.nodes@,
                found@,
            ));
        }
        Ok(hits)
    }
}

/// The candidates that are seen among the first ones come first among all that are seen.
proof fn lemma_seen_prefix(pages: Map<u64, PageView>, cs: Seq<Candidate>, at: Moment, i: int)
    requires
        0 <= i <= cs.len(),
    ensures
        seen_of(pages, cs.take(i), at).len() <= seen_of(pages, cs, at).len(),
        seen_of(pages, cs.take(i), at) == seen_of(pages, cs, at).take(
            seen_of(pages, cs.take(i), at).len() as int,
        ),
    decreases cs.len() - i,
{
    if i == cs.len() {
        assert(cs.take(i) =~= cs);
        assert(seen_of(pages, cs, at).take(seen_of(pages, cs, at).len() as int) =~= seen_of(
            pages,
            cs,
            at,
        ));
    } else {
        lemma_seen_prefix(pages, cs, at, i + 1);
        let a = seen_of(pages, cs.take(i), at);
        let b = seen_of(pages, cs.take(i + 1), at);
        assert(cs.take(i + 1).drop_last() =~= cs.take(i));
        assert(b.take(a.len() as int) =~= a);
        assert(seen_of(pages, cs, at).take(a.len() as int) =~= b.take(a.len() as int));
    }
}

} // verus!
