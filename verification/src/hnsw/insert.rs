//! How a search goes down the layers, and how a node is tied into them.
use crate::hnsw::links::{
    cap, connect_nodes, is_mutual, is_pruned, is_relinked, lemma_relinked_twice, linked_from, linked_to, overflows,
    prune_connections,
};
use crate::hnsw::search::{
    all_in, among, is_closed, is_found, is_search, is_selection, node_ids, search_layer,
    select_neighbors, Candidate,
};
use crate::pager::{PageView, Pager, PagerError};
use crate::table::{TableError, TableResult};
use vstd::prelude::*;

verus! {

/// A search of a layer for the closest node found these.
pub open spec fn is_step_down<D: Fn(&[u32], &[u32]) -> i64>(
    dist: D,
    pages: Map<u64, PageView>,
    query: Seq<u32>,
    layer: int,
    nodes: Set<u32>,
    from: Seq<u32>,
    to: Seq<u32>,
) -> bool {
    exists|cs: Seq<Candidate>| #[trigger]
        is_search(dist, pages, query, from, 1, layer, cs, nodes) && to == node_ids(cs)
}

/// The lists are the nodes that a search went through from the layer `top` down, one list for
/// each layer.
pub open spec fn are_steps_down<D: Fn(&[u32], &[u32]) -> i64>(
    dist: D,
    pages: Map<u64, PageView>,
    query: Seq<u32>,
    top: int,
    nodes: Set<u32>,
    steps: Seq<Seq<u32>>,
) -> bool {
    forall|i: int|
        0 <= i < steps.len() - 1 ==> is_step_down(
            dist,
            pages,
            query,
            top - i,
            nodes,
            #[trigger] steps[i],
            steps[i + 1],
        )
}

/// The nodes are where a search for the closest one comes to that starts at an entry point and
/// goes down from the layer `top` to just above the layer `bottom`.
pub open spec fn is_descent<D: Fn(&[u32], &[u32]) -> i64>(
    dist: D,
    pages: Map<u64, PageView>,
    query: Seq<u32>,
    entry: u32,
    top: int,
    bottom: int,
    nodes: Set<u32>,
    near: Seq<u32>,
) -> bool {
    exists|steps: Seq<Seq<u32>>| #[trigger]
        are_steps_down(dist, pages, query, top, nodes, steps) && steps.len() == 1 + (if top
            > bottom {
            top - bottom
        } else {
            0
        }) && steps[0] == seq![entry] && steps.last() == near
}

/// The nodes of the candidates, in order.
pub fn ids_of(cs: &Vec<Candidate>) -> (r: Vec<u32>)
    ensures
        r@ == node_ids(cs@),
{
    let mut ids: Vec<u32> = Vec::new();
    let mut i: usize = 0;
    while i < cs.len()
        invariant
            i <= cs@.len(),
            ids@.len() == i,
            forall|j: int| 0 <= j < i ==> #[trigger] ids@[j] == cs@[j].node_id,
        decreases cs@.len() - i,
    {
        ids.push(cs[i].node_id);
        i += 1;
    }
    assert(ids@ =~= node_ids(cs@));
    ids
}

/// What a search finds are nodes of the graph.
pub proof fn lemma_search_in<D: Fn(&[u32], &[u32]) -> i64>(
    dist: D,
    pages: Map<u64, PageView>,
    query: Seq<u32>,
    entries: Seq<u32>,
    ef: usize,
    layer: int,
    cs: Seq<Candidate>,
    nodes: Set<u32>,
)
    requires
        is_search(dist, pages, query, entries, ef, layer, cs, nodes),
    ensures
        all_in(node_ids(cs), nodes),
        forall|id: u32| #[trigger] among(cs, id) ==> nodes.contains(id),
        crate::hnsw::search::are_distinct(cs),
{
    let seen = choose|seen: Set<u32>| #[trigger]
        is_found(dist, pages, query, entries, ef, layer, cs, seen) && seen.subset_of(nodes);
    assert forall|i: int| 0 <= i < node_ids(cs).len() implies nodes.contains(
        #[trigger] node_ids(cs)[i],
    ) by {
        assert(seen.contains(cs[i].node_id));
    }
    assert forall|id: u32| #[trigger] among(cs, id) implies nodes.contains(id) by {
        let i = choose|i: int| 0 <= i < cs.len() && (#[trigger] cs[i]).node_id == id;
        assert(seen.contains(cs[i].node_id));
    }
}

/// Goes down from the layer `top` to just above the layer `bottom`, to the closest node on each.
pub fn descend<D: Fn(&[u32], &[u32]) -> i64>(
    pager: &Pager,
    dist: &D,
    query: &[u32],
    entry: u32,
    top: usize,
    bottom: usize,
    Ghost(nodes): Ghost<Set<u32>>,
) -> (r: TableResult<Vec<u32>>)
    requires
        pager.wf(),
        nodes.finite(),
        is_closed(pager.pages(), nodes),
        nodes.contains(entry),
        forall|x: &[u32], y: &[u32]| #[trigger] dist.requires((x, y)),
    ensures
        r is Ok,
        is_descent(
            *dist,
            pager.pages(),
            query@,
            entry,
            top as int,
            bottom as int,
            nodes,
            r->Ok_0@,
        ),
        all_in(r->Ok_0@, nodes),
{
    let ghost pages = pager.pages();
    let mut near: Vec<u32> = Vec::new();
    near.push(entry);
    let mut layer: usize = top;
    let ghost mut steps: Seq<Seq<u32>> = seq![near@];
    assert(near@ =~= seq![entry]);
    while layer > bottom
        invariant
            pager.wf(),
            pages == pager.pages(),
            nodes.finite(),
            is_closed(pages, nodes),
            forall|x: &[u32], y: &[u32]| #[trigger] dist.requires((x, y)),
            layer <= top,
            layer >= bottom || layer == top,
            all_in(near@, nodes),
            steps.len() == 1 + top - layer,
            steps[0] == seq![entry],
            steps.last() == near@,
            are_steps_down(*dist, pages, query@, top as int, nodes, steps),
        decreases layer,
    {
        let found = match search_layer(pager, dist, query, &near, 1, layer, Ghost(nodes)) {
            Ok(cs) => cs,
            Err(e) => return Err(e),
        };
        let next = ids_of(&found);
        proof {
            lemma_search_in(*dist, pages, query@, near@, 1, layer as int, found@, nodes);
            let before = steps;
            steps = steps.push(next@);
            assert(is_step_down(*dist, pages, query@, layer as int, nodes, near@, next@));
            assert forall|i: int| 0 <= i < steps.len() - 1 implies is_step_down(
                *dist,
                pages,
                query@,
                top - i,
                nodes,
                #[trigger] steps[i],
                steps[i + 1],
            ) by {
                if i < before.len() - 1 {
                    assert(steps[i] == before[i]);
                    assert(steps[i + 1] == before[i + 1]);
                }
            }
        }
        near = next;
        layer -= 1;
    }
    Ok(near)
}

/// The pages are those after each step of cutting down the links of the nodes in turn.
pub open spec fn are_prunings<D: Fn(&[u32], &[u32]) -> i64>(
    dist: D,
    ids: Seq<u32>,
    layer: int,
    max: int,
    steps: Seq<Map<u64, PageView>>,
) -> bool {
    forall|i: int|
        0 <= i < steps.len() - 1 ==> is_pruned(
            dist,
            #[trigger] steps[i],
            ids[i],
            layer,
            max,
            steps[i + 1],
        )
}

/// The links of the nodes were cut down in turn.
pub open spec fn are_pruned<D: Fn(&[u32], &[u32]) -> i64>(
    dist: D,
    before: Map<u64, PageView>,
    ids: Seq<u32>,
    layer: int,
    max: int,
    after: Map<u64, PageView>,
) -> bool {
    exists|steps: Seq<Map<u64, PageView>>| #[trigger]
        are_prunings(dist, ids, layer, max, steps) && steps.len() == ids.len() + 1 && steps[0]
            == before && steps.last() == after
}

fn prune_all<D: Fn(&[u32], &[u32]) -> i64>(
    pager: &mut Pager,
    dist: &D,
    ids: &Vec<u32>,
    layer: usize,
    max: usize,
    Ghost(nodes): Ghost<Set<u32>>,
) -> (r: TableResult<()>)
    requires
        old(pager).wf(),
        is_closed(old(pager).pages(), nodes),
        all_in(ids@, nodes),
        forall|x: &[u32], y: &[u32]| #[trigger] dist.requires((x, y)),
    ensures
        final(pager).wf(),
        final(pager).same_meta(old(pager)),
        final(pager).slots@.len() == old(pager).slots@.len(),
        is_relinked(old(pager).pages(), final(pager).pages(), nodes),
        r is Ok,
        forall|s: Set<u32>| #[trigger]
            is_mutual(old(pager).pages(), s) ==> is_mutual(final(pager).pages(), s),
        are_pruned(
            *dist,
            old(pager).pages(),
            ids@,
            layer as int,
            max as int,
            final(pager).pages(),
        ),
{
    let ghost pages0 = pager.pages();
    let ghost mut steps: Seq<Map<u64, PageView>> = seq![pages0];
    let mut i: usize = 0;
    assert(is_relinked(pages0, pages0, nodes));
    while i < ids.len()
        invariant
            i <= ids@.len(),
            pager.wf(),
            pager.same_meta(old(pager)),
            pager.slots@.len() == old(pager).slots@.len(),
            pages0 == old(pager).pages(),
            is_closed(pager.pages(), nodes),
            is_relinked(pages0, pager.pages(), nodes),
            all_in(ids@, nodes),
            forall|x: &[u32], y: &[u32]| #[trigger] dist.requires((x, y)),
            steps.len() == i + 1,
            steps[0] == pages0,
            forall|s: Set<u32>| #[trigger]
                is_mutual(pages0, s) ==> is_mutual(pager.pages(), s),
            steps.last() == pager.pages(),
            are_prunings(*dist, ids@, layer as int, max as int, steps),
        decreases ids@.len() - i,
    {
        let ghost before = pager.pages();
        let id: u32 = ids[i];
        assert(nodes.contains(ids@[i as int]));
        let done = prune_connections(pager, dist, id, layer, max, Ghost(nodes));
        proof {
            lemma_relinked_twice(pages0, before, pager.pages(), nodes);
        }
        if let Err(e) = done {
            return Err(e);
        }
        proof {
            assert forall|s: Set<u32>| #[trigger] is_mutual(pages0, s) implies is_mutual(
                pager.pages(),
                s,
            ) by {
                assert(is_mutual(before, s));
            }
            let old_steps = steps;
            steps = steps.push(pager.pages());
            assert(is_pruned(*dist, before, id, layer as int, max as int, pager.pages()));
            assert forall|j: int| 0 <= j < steps.len() - 1 implies is_pruned(
                *dist,
                #[trigger] steps[j],
                ids@[j],
                layer as int,
                max as int,
                steps[j + 1],
            ) by {
                if j < i {
                    assert(steps[j] == old_steps[j]);
                    assert(steps[j + 1] == old_steps[j + 1]);
                }
            }
        }
        i += 1;
    }
    Ok(())
}

/// What tying a node into the layers goes by.
#[derive(Clone, Copy, Debug, PartialEq, Eq, Structural)]
pub struct Limits {
    pub ef: usize,
    pub max_layer0: usize,
    pub max_others: usize,
}

/// Where tying in a node stands: the pages, and the nodes to go on from.
pub struct Stage {
    pub pages: Map<u64, PageView>,
    pub near: Seq<u32>,
}

/// A node was linked on a layer with what the rule for choosing links picks of what a search of
/// the layer finds, and the links of the others were cut down.
#[verifier::opaque]
pub open spec fn is_tied_on<D: Fn(&[u32], &[u32]) -> i64>(
    dist: D,
    query: Seq<u32>,
    id: u32,
    layer: int,
    limits: Limits,
    nodes: Set<u32>,
    from: Stage,
    to: Stage,
) -> bool {
    exists|cs: Seq<Candidate>, ids: Seq<u32>| #[trigger]
        is_search(dist, from.pages, query, from.near, limits.ef, layer, cs, nodes)
            && #[trigger] is_selection(
            dist,
            from.pages,
            cs,
            cap(layer, limits.max_layer0, limits.max_others) as int,
            true,
            ids,
        ) && are_pruned(
            dist,
            linked_to(linked_from(from.pages, id, layer, ids), ids, layer, id),
            ids,
            layer,
            cap(layer, limits.max_layer0, limits.max_others) as int,
            to.pages,
        ) && to.near == node_ids(cs)
}

/// The stages are those of tying in a node from the layer `top` down.
pub open spec fn are_stages<D: Fn(&[u32], &[u32]) -> i64>(
    dist: D,
    query: Seq<u32>,
    id: u32,
    top: int,
    limits: Limits,
    nodes: Set<u32>,
    stages: Seq<Stage>,
) -> bool {
    forall|i: int|
        0 <= i < stages.len() - 1 ==> is_tied_on(
            dist,
            query,
            id,
            top - i,
            limits,
            nodes,
            #[trigger] stages[i],
            stages[i + 1],
        )
}

/// Linking a node on a layer with what the rule for choosing links picks of what a search of the
/// layer finds, finds a page too small.
#[verifier::opaque]
pub open spec fn tie_fails<D: Fn(&[u32], &[u32]) -> i64>(
    dist: D,
    query: Seq<u32>,
    id: u32,
    layer: int,
    limits: Limits,
    nodes: Set<u32>,
    from: Stage,
    capacity: nat,
) -> bool {
    exists|cs: Seq<Candidate>, ids: Seq<u32>| #[trigger]
        is_search(dist, from.pages, query, from.near, limits.ef, layer, cs, nodes)
            && #[trigger] is_selection(
            dist,
            from.pages,
            cs,
            cap(layer, limits.max_layer0, limits.max_others) as int,
            true,
            ids,
        ) && overflows(from.pages, id, ids, layer, capacity)
}

/// Tying in a node went well down to a layer on which it finds a page too small.
pub open spec fn tying_fails_after<D: Fn(&[u32], &[u32]) -> i64>(
    dist: D,
    query: Seq<u32>,
    id: u32,
    top: int,
    limits: Limits,
    nodes: Set<u32>,
    before: Map<u64, PageView>,
    near: Seq<u32>,
    capacity: nat,
    stages: Seq<Stage>,
) -> bool {
    &&& are_stages(dist, query, id, top, limits, nodes, stages)
    &&& 0 < stages.len() <= top + 1
    &&& stages[0].pages == before
    &&& stages[0].near == near
    &&& tie_fails(
        dist,
        query,
        id,
        top + 1 - stages.len(),
        limits,
        nodes,
        stages.last(),
        capacity,
    )
}

/// Tying in a node finds a page too small.
pub open spec fn tying_fails<D: Fn(&[u32], &[u32]) -> i64>(
    dist: D,
    query: Seq<u32>,
    id: u32,
    top: int,
    limits: Limits,
    nodes: Set<u32>,
    before: Map<u64, PageView>,
    near: Seq<u32>,
    capacity: nat,
) -> bool {
    exists|stages: Seq<Stage>| #[trigger]
        tying_fails_after(dist, query, id, top, limits, nodes, before, near, capacity, stages)
}

/// A node was tied into all layers from `top` down.
pub open spec fn is_tied_in<D: Fn(&[u32], &[u32]) -> i64>(
    dist: D,
    query: Seq<u32>,
    id: u32,
    top: int,
    limits: Limits,
    nodes: Set<u32>,
    before: Map<u64, PageView>,
    near: Seq<u32>,
    after: Map<u64, PageView>,
) -> bool {
    exists|stages: Seq<Stage>| #[trigger]
        are_stages(dist, query, id, top, limits, nodes, stages) && stages.len() == top + 2
            && stages[0].pages == before && stages[0].near == near && stages.last().pages == after
}

proof fn lemma_tied_on<D: Fn(&[u32], &[u32]) -> i64>(
    dist: D,
    query: Seq<u32>,
    id: u32,
    layer: int,
    limits: Limits,
    nodes: Set<u32>,
    from: Stage,
    to: Stage,
    cs: Seq<Candidate>,
    ids: Seq<u32>,
    m: int,
)
    requires
        m == cap(layer, limits.max_layer0, limits.max_others),
        is_search(dist, from.pages, query, from.near, limits.ef, layer, cs, nodes),
        is_selection(dist, from.pages, cs, m, true, ids),
        are_pruned(
            dist,
            linked_to(linked_from(from.pages, id, layer, ids), ids, layer, id),
            ids,
            layer,
            m,
            to.pages,
        ),
        to.near == node_ids(cs),
    ensures
        is_tied_on(dist, query, id, layer, limits, nodes, from, to),
{
    reveal(is_tied_on);
}

proof fn lemma_tie_fails<D: Fn(&[u32], &[u32]) -> i64>(
    dist: D,
    query: Seq<u32>,
    id: u32,
    layer: int,
    limits: Limits,
    nodes: Set<u32>,
    from: Stage,
    capacity: nat,
    cs: Seq<Candidate>,
    ids: Seq<u32>,
    m: int,
)
    requires
        m == cap(layer, limits.max_layer0, limits.max_others),
        is_search(dist, from.pages, query, from.near, limits.ef, layer, cs, nodes),
        is_selection(dist, from.pages, cs, m, true, ids),
        overflows(from.pages, id, ids, layer, capacity),
    ensures
        tie_fails(dist, query, id, layer, limits, nodes, from, capacity),
{
    reveal(tie_fails);
}

#[verifier::rlimit(30)]
fn tie_on<D: Fn(&[u32], &[u32]) -> i64>(
    pager: &mut Pager,
    dist: &D,
    query: &[u32],
    id: u32,
    near: &Vec<u32>,
    layer: usize,
    limits: Limits,
    Ghost(nodes): Ghost<Set<u32>>,
) -> (r: TableResult<Vec<u32>>)
    requires
        old(pager).wf(),
        nodes.finite(),
        is_closed(old(pager).pages(), nodes),
        nodes.contains(id),
        all_in(near@, nodes),
        layer < usize::MAX,
        forall|x: &[u32], y: &[u32]| #[trigger] dist.requires((x, y)),
    ensures
        final(pager).wf(),
        final(pager).same_meta(old(pager)),
        final(pager).slots@.len() == old(pager).slots@.len(),
        is_relinked(old(pager).pages(), final(pager).pages(), nodes),
        r matches Ok(next) ==> all_in(next@, nodes) && is_tied_on(
            *dist,
            query@,
            id,
            layer as int,
            limits,
            nodes,
            Stage { pages: old(pager).pages(), near: near@ },
            Stage { pages: final(pager).pages(), near: next@ },
        ),
        r is Ok ==> forall|s: Set<u32>| #[trigger]
            is_mutual(old(pager).pages(), s) ==> is_mutual(final(pager).pages(), s),
        r is Err ==> tie_fails(
            *dist,
            query@,
            id,
            layer as int,
            limits,
            nodes,
            Stage { pages: old(pager).pages(), near: near@ },
            old(pager).capacity(),
        ),
        r matches Err(e) ==> e matches TableError::Pager(PagerError::PageOverflow { .. }),
{
    let ghost pages0 = pager.pages();
    let m: usize = if layer == 0 {
        limits.max_layer0
    } else {
        limits.max_others
    };
    assert(is_relinked(pages0, pages0, nodes));
    let found = match search_layer(pager, dist, query, near, limits.ef, layer, Ghost(nodes)) {
        Ok(cs) => cs,
        Err(e) => return Err(e),
    };
    let ids = select_neighbors(pager, dist, &found, m, true);
    proof {
        lemma_search_in(*dist, pages0, query@, near@, limits.ef, layer as int, found@, nodes);
        assert(all_in(ids@, nodes)) by {
            assert forall|i: int| 0 <= i < ids@.len() implies nodes.contains(
                #[trigger] ids@[i],
            ) by {
                assert(among(found@, ids@[i]));
            }
        }
    }
    let linked = connect_nodes(pager, id, &ids, layer, Ghost(nodes));
    let ghost mid = pager.pages();
    if let Err(e) = linked {
        proof {
            lemma_tie_fails(
                *dist,
                query@,
                id,
                layer as int,
                limits,
                nodes,
                Stage { pages: pages0, near: near@ },
                pager.capacity(),
                found@,
                ids@,
                m as int,
            );
        }
        return Err(e);
    }
    let cut = prune_all(pager, dist, &ids, layer, m, Ghost(nodes));
    proof {
        lemma_relinked_twice(pages0, mid, pager.pages(), nodes);
        assert forall|s: Set<u32>| #[trigger] is_mutual(pages0, s) implies is_mutual(
            pager.pages(),
            s,
        ) by {
            assert(is_mutual(mid, s));
        }
    }
    if let Err(e) = cut {
        return Err(e);
    }
    let next = ids_of(&found);
    proof {
        lemma_tied_on(
            *dist,
            query@,
            id,
            layer as int,
            limits,
            nodes,
            Stage { pages: pages0, near: near@ },
            Stage { pages: pager.pages(), near: next@ },
            found@,
            ids@,
            m as int,
        );
    }
    Ok(next)
}

/// Links a node into all layers from `top` down, starting from the given nodes.
pub fn tie_in<D: Fn(&[u32], &[u32]) -> i64>(
    pager: &mut Pager,
    dist: &D,
    query: &[u32],
    id: u32,
    start: Vec<u32>,
    top: usize,
    limits: Limits,
    Ghost(nodes): Ghost<Set<u32>>,
) -> (r: TableResult<()>)
    requires
        old(pager).wf(),
        nodes.finite(),
        is_closed(old(pager).pages(), nodes),
        nodes.contains(id),
        all_in(start@, nodes),
        top < usize::MAX,
        forall|x: &[u32], y: &[u32]| #[trigger] dist.requires((x, y)),
    ensures
        final(pager).wf(),
        final(pager).same_meta(old(pager)),
        final(pager).slots@.len() == old(pager).slots@.len(),
        is_relinked(old(pager).pages(), final(pager).pages(), nodes),
        r is Ok ==> is_tied_in(
            *dist,
            query@,
            id,
            top as int,
            limits,
            nodes,
            old(pager).pages(),
            start@,
            final(pager).pages(),
        ),
        r is Ok ==> forall|s: Set<u32>| #[trigger]
            is_mutual(old(pager).pages(), s) ==> is_mutual(final(pager).pages(), s),
        r is Err ==> tying_fails(
            *dist,
            query@,
            id,
            top as int,
            limits,
            nodes,
            old(pager).pages(),
            start@,
            old(pager).capacity(),
        ),
        r matches Err(e) ==> e matches TableError::Pager(PagerError::PageOverflow { .. }),
{
    let ghost pages0 = pager.pages();
    let ghost near0 = start@;
    let ghost capacity = pager.capacity();
    let mut near = start;
    let ghost mut stages: Seq<Stage> = seq![Stage { pages: pages0, near: near@ }];
    let mut left: usize = top + 1;
    assert(is_relinked(pages0, pages0, nodes));
    while left > 0
        invariant
            left <= top + 1,
            top < usize::MAX,
            pager.wf(),
            pager.same_meta(old(pager)),
            pager.slots@.len() == old(pager).slots@.len(),
            pages0 == old(pager).pages(),
            nodes.finite(),
            is_closed(pager.pages(), nodes),
            is_relinked(pages0, pager.pages(), nodes),
            nodes.contains(id),
            all_in(near@, nodes),
            forall|x: &[u32], y: &[u32]| #[trigger] dist.requires((x, y)),
            stages.len() == top + 2 - left,
            stages[0].pages == pages0,
            forall|s: Set<u32>| #[trigger]
                is_mutual(pages0, s) ==> is_mutual(pager.pages(), s),
            stages[0].near == near0,
            capacity == pager.capacity(),
            capacity == old(pager).capacity(),
            near0 == start@,
            stages.last().pages == pager.pages(),
            stages.last().near == near@,
            are_stages(*dist, query@, id, top as int, limits, nodes, stages),
        decreases left,
    {
        let ghost before = pager.pages();
        let layer: usize = left - 1;
        let done = tie_on(pager, dist, query, id, &near, layer, limits, Ghost(nodes));
        proof {
            lemma_relinked_twice(pages0, before, pager.pages(), nodes);
        }
        let next = match done {
            Ok(x) => x,
            Err(e) => {
                proof {
                    assert(stages.last() == (Stage { pages: before, near: near@ }));
                    assert(tying_fails_after(
                        *dist,
                        query@,
                        id,
                        top as int,
                        limits,
                        nodes,
                        pages0,
                        near0,
                        capacity,
                        stages,
                    ));
                }
                return Err(e);
            },
        };
        proof {
            assert forall|s: Set<u32>| #[trigger] is_mutual(pages0, s) implies is_mutual(
                pager.pages(),
                s,
            ) by {
                assert(is_mutual(before, s));
            }
            let old_stages = stages;
            stages = stages.push(Stage { pages: pager.pages(), near: next@ });
            assert forall|i: int| 0 <= i < stages.len() - 1 implies is_tied_on(
                *dist,
                query@,
                id,
                top - i,
                limits,
                nodes,
                #[trigger] stages[i],
                stages[i + 1],
            ) by {
                if i < old_stages.len() - 1 {
                    assert(stages[i] == old_stages[i]);
                    assert(stages[i + 1] == old_stages[i + 1]);
                } else {
                    assert(stages[i] == Stage { pages: before, near: near@ });
                    assert(top - i == layer);
                }
            }
        }
        near = next;
        left -= 1;
    }
    Ok(())
}

} // verus!
