//! Searching one layer of a vector index, and choosing links.
use crate::hnsw::node::{load_node, node_at, node_bytes, NodeView};
use crate::pager::{PageView, Pager};
use crate::table::{TableError, TableResult};
use std::collections::HashSet;
use vstd::prelude::*;

verus! {

broadcast use vstd::std_specs::hash::group_hash_axioms;

/// A node and its distance, where smaller numbers stand for shorter distances.
#[derive(Clone, Copy, Debug, PartialEq, Eq, Structural)]
pub struct Candidate {
    pub node_id: u32,
    pub distance: i64,
}

/// The distance that was found between two vectors.
pub open spec fn is_distance<D: Fn(&[u32], &[u32]) -> i64>(
    dist: D,
    a: Seq<u32>,
    b: Seq<u32>,
    d: i64,
) -> bool {
    exists|x: &[u32], y: &[u32]| #[trigger] dist.ensures((x, y), d) && x@ == a && y@ == b
}

/// The distance that was found between a vector and a node.
pub open spec fn is_distance_to<D: Fn(&[u32], &[u32]) -> i64>(
    dist: D,
    pages: Map<u64, PageView>,
    query: Seq<u32>,
    id: u32,
    d: i64,
) -> bool {
    node_at(pages, id) is Ok && is_distance(dist, query, node_at(pages, id)->Ok_0.vector, d)
}

/// The page of a node holds the node and nothing else.
#[verifier::opaque]
pub open spec fn is_exact(pages: Map<u64, PageView>, id: u32) -> bool {
    pages[id as u64].data == node_bytes(node_at(pages, id)->Ok_0)
}

/// The nodes can be read from exactly what their pages hold, and their links lead to one another.
pub open spec fn is_closed(pages: Map<u64, PageView>, ids: Set<u32>) -> bool {
    forall|id: u32| #[trigger]
        ids.contains(id) ==> node_at(pages, id) is Ok && is_exact(pages, id) && forall|l: int, i: int|
            0 <= l < node_at(pages, id)->Ok_0.neighbors.len() && 0 <= i < node_at(
                pages,
                id,
            )->Ok_0.neighbors[l].len() ==> ids.contains(
                #[trigger] node_at(pages, id)->Ok_0.neighbors[l][i],
            )
}

/// The links of a node on a layer.
pub open spec fn links_at(pages: Map<u64, PageView>, id: u32, layer: int) -> Seq<u32> {
    node_at(pages, id)->Ok_0.links(layer)
}

/// The links of the nodes on a layer lead to nodes of the set only.
pub open spec fn closed_on(pages: Map<u64, PageView>, ids: Set<u32>, layer: int) -> bool {
    forall|id: u32, i: int|
        ids.contains(id) && 0 <= i < links_at(pages, id, layer).len() ==> ids.contains(
            #[trigger] links_at(pages, id, layer)[i],
        )
}

/// The candidates go from the closest one on.
pub open spec fn is_sorted(cs: Seq<Candidate>) -> bool {
    forall|i: int, j: int|
        0 <= i <= j < cs.len() ==> (#[trigger] cs[i]).distance <= (#[trigger] cs[j]).distance
}

/// No node occurs twice.
pub open spec fn are_distinct(cs: Seq<Candidate>) -> bool {
    forall|i: int, j: int|
        0 <= i < j < cs.len() ==> (#[trigger] cs[i]).node_id != (#[trigger] cs[j]).node_id
}

/// The node is among the candidates.
pub open spec fn among(cs: Seq<Candidate>, id: u32) -> bool {
    exists|i: int| 0 <= i < cs.len() && (#[trigger] cs[i]).node_id == id
}

/// The node was left out as too far away: none of the candidates is farther.
pub open spec fn left_out<D: Fn(&[u32], &[u32]) -> i64>(
    dist: D,
    pages: Map<u64, PageView>,
    query: Seq<u32>,
    cs: Seq<Candidate>,
    id: u32,
) -> bool {
    exists|d: i64| #[trigger]
        is_distance_to(dist, pages, query, id, d) && forall|i: int|
            0 <= i < cs.len() ==> (#[trigger] cs[i]).distance <= d
}

/// The candidates are what a search of a layer found that looked at the nodes in `seen`.
pub open spec fn is_found<D: Fn(&[u32], &[u32]) -> i64>(
    dist: D,
    pages: Map<u64, PageView>,
    query: Seq<u32>,
    entries: Seq<u32>,
    ef: usize,
    layer: int,
    cs: Seq<Candidate>,
    seen: Set<u32>,
) -> bool {
    &&& is_sorted(cs)
    &&& are_distinct(cs)
    // No more than asked for, unless the search started at more nodes than that.
    &&& cs.len() <= ef || cs.len() <= entries.len()
    // Every candidate was looked at, and its distance is right.
    &&& forall|i: int|
        0 <= i < cs.len() ==> seen.contains((#[trigger] cs[i]).node_id) && is_distance_to(
            dist,
            pages,
            query,
            cs[i].node_id,
            cs[i].distance,
        )
    // The search started at the entry points and followed links of the layer only.
    &&& forall|i: int| 0 <= i < entries.len() ==> seen.contains(#[trigger] entries[i])
    &&& forall|all: Set<u32>| #[trigger]
        closed_on(pages, all, layer) && (forall|i: int|
            0 <= i < entries.len() ==> all.contains(#[trigger] entries[i])) ==> seen.subset_of(all)
    // What was looked at and left out is no closer than what was found, and enough was found.
    &&& forall|id: u32| #[trigger]
        seen.contains(id) && !among(cs, id) ==> cs.len() >= ef && left_out(
            dist,
            pages,
            query,
            cs,
            id,
        )
    // The links of every node that was looked at were followed, unless enough was found and the
    // node is no closer than any of it.
    &&& forall|id: u32| #[trigger]
        seen.contains(id) && !all_in(links_at(pages, id, layer), seen) ==> cs.len() >= ef
            && left_out(dist, pages, query, cs, id)
    // As long as not enough was found, everything within reach was looked at.
    &&& cs.len() < ef ==> closed_on(pages, seen, layer)
}

/// The place of a distance behind all that are not larger.
pub open spec fn place_of(cs: Seq<Candidate>, d: i64) -> int
    decreases cs.len(),
{
    if cs.len() == 0 {
        0
    } else if cs.last().distance <= d {
        cs.len() as int
    } else {
        place_of(cs.drop_last(), d)
    }
}

/// Candidates from the closest one on; of equally close ones the earlier comes first.
pub open spec fn by_distance(cs: Seq<Candidate>) -> Seq<Candidate>
    decreases cs.len(),
{
    if cs.len() == 0 {
        Seq::empty()
    } else {
        let before = by_distance(cs.drop_last());
        before.insert(place_of(before, cs.last().distance), cs.last())
    }
}

proof fn lemma_place_of(cs: Seq<Candidate>, d: i64)
    requires
        is_sorted(cs),
    ensures
        0 <= place_of(cs, d) <= cs.len(),
        forall|i: int| 0 <= i < place_of(cs, d) ==> (#[trigger] cs[i]).distance <= d,
        forall|i: int| place_of(cs, d) <= i < cs.len() ==> (#[trigger] cs[i]).distance > d,
    decreases cs.len(),
{
    if cs.len() > 0 {
        if cs.last().distance > d {
            let t = cs.drop_last();
            assert(is_sorted(t));
            lemma_place_of(t, d);
            assert forall|i: int| 0 <= i < place_of(cs, d) implies (#[trigger] cs[i]).distance
                <= d by {
                assert(t[i] == cs[i]);
            }
            assert forall|i: int| place_of(cs, d) <= i < cs.len() implies (
            #[trigger] cs[i]).distance > d by {
                if i < t.len() {
                    assert(t[i] == cs[i]);
                }
            }
        } else {
            assert forall|i: int| 0 <= i < cs.len() implies (#[trigger] cs[i]).distance <= d by {
                assert(cs[i].distance <= cs[cs.len() - 1].distance);
            }
        }
    }
}

proof fn lemma_inserted(cs: Seq<Candidate>, c: Candidate)
    requires
        is_sorted(cs),
    ensures
        is_sorted(cs.insert(place_of(cs, c.distance), c)),
        forall|id: u32| #[trigger]
            among(cs.insert(place_of(cs, c.distance), c), id) <==> among(cs, id) || id == c.node_id,
        are_distinct(cs) && !among(cs, c.node_id) ==> are_distinct(
            cs.insert(place_of(cs, c.distance), c),
        ),
{
    lemma_place_of(cs, c.distance);
    let p = place_of(cs, c.distance);
    let after = cs.insert(p, c);
    assert forall|i: int, j: int| 0 <= i <= j < after.len() implies (#[trigger] after[i]).distance
        <= (#[trigger] after[j]).distance by {
        let i0 = if i < p { i } else { i - 1 };
        let j0 = if j < p { j } else { j - 1 };
        if i != p && j != p {
            assert(cs[i0].distance <= cs[j0].distance);
        }
    }
    assert forall|id: u32| #[trigger] among(after, id) <==> among(cs, id) || id == c.node_id by {
        if among(cs, id) {
            let i = choose|i: int| 0 <= i < cs.len() && (#[trigger] cs[i]).node_id == id;
            let k = if i < p { i } else { i + 1 };
            assert(after[k].node_id == id);
        }
        if id == c.node_id {
            assert(after[p].node_id == id);
        }
        if among(after, id) {
            let i = choose|i: int| 0 <= i < after.len() && (#[trigger] after[i]).node_id == id;
            if i != p {
                let k = if i < p { i } else { i - 1 };
                assert(cs[k].node_id == id);
            }
        }
    }
    if are_distinct(cs) && !among(cs, c.node_id) {
        assert forall|i: int, j: int| 0 <= i < j < after.len() implies (
        #[trigger] after[i]).node_id != (#[trigger] after[j]).node_id by {
            let i0 = if i < p { i } else { i - 1 };
            let j0 = if j < p { j } else { j - 1 };
            if i != p && j != p {
                assert(cs[i0].node_id != cs[j0].node_id);
            } else if i == p {
                assert(cs[j0].node_id == after[j].node_id);
            } else {
                assert(cs[i0].node_id == after[i].node_id);
            }
        }
    }
}

/// Sorting keeps each candidate with its distance, and those at the same distance in the order in
/// which they came.
pub proof fn law_sorting_keeps_candidates(cs: Seq<Candidate>, d: i64)
    ensures
        by_distance(cs).to_multiset() == cs.to_multiset(),
        by_distance(cs).filter(|c: Candidate| c.distance == d) == cs.filter(
            |c: Candidate| c.distance == d,
        ),
    decreases cs.len(),
{
    broadcast use vstd::seq_lib::group_to_multiset_ensures;

    reveal(Seq::filter);
    let same = |c: Candidate| c.distance == d;
    if cs.len() > 0 {
        let x = cs.last();
        let t = cs.drop_last();
        let before = by_distance(t);
        law_sorting_keeps_candidates(t, d);
        law_by_distance_is_sorted(t);
        lemma_place_of(before, x.distance);
        assert(cs =~= t.push(x));
        let p = place_of(before, x.distance);
        let (front, back) = (before.take(p), before.skip(p));
        assert(before =~= front + back);
        assert(before.insert(p, x) =~= front.push(x) + back);
        Seq::filter_distributes_over_add(front, back, same);
        Seq::filter_distributes_over_add(front.push(x), back, same);
        assert(front.push(x).drop_last() =~= front);
        if x.distance == d {
            assert forall|i: int| 0 <= i < back.len() implies (#[trigger] back[i]).distance != d by {
                assert(before[p + i].distance > x.distance);
            }
            lemma_none_at(back, d);
            assert(front.filter(same) + back.filter(same) =~= front.filter(same));
            assert(front.filter(same).push(x) + back.filter(same) =~= front.filter(same).push(x));
        }
    } else {
        assert(by_distance(cs) =~= cs);
    }
}

proof fn lemma_none_at(cs: Seq<Candidate>, d: i64)
    requires
        forall|i: int| 0 <= i < cs.len() ==> (#[trigger] cs[i]).distance != d,
    ensures
        cs.filter(|c: Candidate| c.distance == d).len() == 0,
    decreases cs.len(),
{
    reveal(Seq::filter);
    if cs.len() > 0 {
        assert(cs[cs.len() - 1].distance != d);
        let rest = cs.drop_last();
        assert forall|i: int| 0 <= i < rest.len() implies (#[trigger] rest[i]).distance != d by {
            assert(rest[i] == cs[i]);
        }
        lemma_none_at(rest, d);
    }
}

/// Of candidates at different nodes, the closest ones are taken where no spread is asked for: as
/// many as wanted or as there are, from the closest on, and none that is left out is closer.
pub proof fn law_closest_candidates_are_chosen<D: Fn(&[u32], &[u32]) -> i64>(
    dist: D,
    pages: Map<u64, PageView>,
    candidates: Seq<Candidate>,
    m: int,
    ids: Seq<u32>,
    i: int,
    j: int,
)
    requires
        0 <= m,
        is_selection(dist, pages, candidates, m, false, ids),
        are_distinct(candidates),
        0 <= i < candidates.len(),
        0 <= j < candidates.len(),
    ensures
        ids.len() == (if candidates.len() < m {
            candidates.len() as int
        } else {
            m
        }),
        ids.contains(candidates[i].node_id) && !ids.contains(candidates[j].node_id)
            ==> candidates[i].distance <= candidates[j].distance,
{
    broadcast use vstd::seq_lib::group_to_multiset_ensures;

    let sorted = by_distance(candidates);
    law_by_distance_is_sorted(candidates);
    law_sorting_keeps_candidates(candidates, 0);
    if ids.contains(candidates[i].node_id) && !ids.contains(candidates[j].node_id) {
        let a = ids.index_of(candidates[i].node_id);
        assert(sorted[a].node_id == candidates[i].node_id);
        assert(candidates.contains(candidates[i]));
        assert(sorted.to_multiset().count(candidates[i]) > 0);
        assert(sorted.contains(candidates[i]));
        let a2 = sorted.index_of(candidates[i]);
        assert(a2 == a);
        assert(candidates.contains(candidates[j]));
        assert(sorted.to_multiset().count(candidates[j]) > 0);
        assert(sorted.contains(candidates[j]));
        let b = sorted.index_of(candidates[j]);
        if b < ids.len() {
            assert(ids[b] == candidates[j].node_id);
        }
        assert(sorted[a].distance <= sorted[b].distance);
    }
}

/// Whatever spread is asked for, the closest candidate is linked to first, if it can be read and
/// any link is wanted.
pub proof fn law_closest_candidate_comes_first<D: Fn(&[u32], &[u32]) -> i64>(
    dist: D,
    pages: Map<u64, PageView>,
    candidates: Seq<Candidate>,
    m: int,
    extend: bool,
    ids: Seq<u32>,
)
    requires
        0 < m,
        candidates.len() > 0,
        is_selection(dist, pages, candidates, m, extend, ids),
        node_at(pages, by_distance(candidates)[0].node_id) is Ok,
    ensures
        0 < ids.len() <= m,
        ids[0] == by_distance(candidates)[0].node_id,
        forall|i: int|
            0 <= i < candidates.len() ==> by_distance(candidates)[0].distance <= (
            #[trigger] candidates[i]).distance,
{
    broadcast use vstd::seq_lib::group_to_multiset_ensures;

    let sorted = by_distance(candidates);
    law_by_distance_is_sorted(candidates);
    law_sorting_keeps_candidates(candidates, 0);
    assert forall|i: int| 0 <= i < candidates.len() implies sorted[0].distance <= (
    #[trigger] candidates[i]).distance by {
        assert(candidates.contains(candidates[i]));
        assert(sorted.to_multiset().count(candidates[i]) > 0);
        assert(sorted.contains(candidates[i]));
        let b = sorted.index_of(candidates[i]);
        assert(sorted[0].distance <= sorted[b].distance);
    }
    if extend && candidates.len() > m {
        let pool = sorted.take(pool_size(m, sorted.len() as int));
        let picks = choose|picks: Seq<int>|
            ids == #[trigger] picked_ids(pool, picks) && are_diverse(
                dist,
                pages,
                pool,
                m,
                picks,
                pool.len() as int,
            );
        assert(pool[0] == sorted[0]);
        if !picks.contains(0) {
            assert(is_complete(picks, m, 0) || is_redundant(dist, pages, pool, picks, 0));
            if is_complete(picks, m, 0) {
                assert(0 <= picks[m - 1]);
            }
            assert(false);
        }
        let a = picks.index_of(0);
        if a > 0 {
            assert(picks[0] < picks[a]);
        }
        assert(picks[0] == 0);
    }
}

proof fn lemma_among_more(cs: Seq<Candidate>, id: u32)
    requires
        cs.len() > 0,
    ensures
        among(cs, id) <==> among(cs.drop_last(), id) || cs.last().node_id == id,
{
    let t = cs.drop_last();
    if among(t, id) {
        let i = choose|i: int| 0 <= i < t.len() && (#[trigger] t[i]).node_id == id;
        assert(cs[i].node_id == id);
    }
    if cs.last().node_id == id {
        assert(cs[cs.len() - 1].node_id == id);
    }
    if among(cs, id) {
        let i = choose|i: int| 0 <= i < cs.len() && (#[trigger] cs[i]).node_id == id;
        if i < t.len() {
            assert(t[i].node_id == id);
        }
    }
}

/// Sorting keeps the candidates and puts them in order.
#[verifier::rlimit(40)]
#[verifier::spinoff_prover]
pub proof fn law_by_distance_is_sorted(cs: Seq<Candidate>)
    ensures
        is_sorted(by_distance(cs)),
        by_distance(cs).len() == cs.len(),
        forall|id: u32| #[trigger] among(by_distance(cs), id) <==> among(cs, id),
        are_distinct(cs) ==> are_distinct(by_distance(cs)),
    decreases cs.len(),
{
    if cs.len() > 0 {
        let t = cs.drop_last();
        let c = cs.last();
        law_by_distance_is_sorted(t);
        lemma_inserted(by_distance(t), c);
        lemma_place_of(by_distance(t), c.distance);
        assert forall|id: u32| #[trigger] among(by_distance(cs), id) <==> among(cs, id) by {
            lemma_among_more(cs, id);
        }
        if are_distinct(cs) {
            assert(are_distinct(t));
            if among(t, c.node_id) {
                let i = choose|i: int| 0 <= i < t.len() && (#[trigger] t[i]).node_id == c.node_id;
                assert(cs[i].node_id != cs[cs.len() - 1].node_id);
            }
            assert(!among(by_distance(t), c.node_id));
        }
    }
}

/// Puts a candidate in its place among sorted ones.
pub fn insert_sorted(cs: &mut Vec<Candidate>, c: Candidate)
    ensures
        final(cs)@ == old(cs)@.insert(place_of(old(cs)@, c.distance), c),
{
    let ghost s = cs@;
    let mut p: usize = cs.len();
    assert(s.take(p as int) =~= s);
    while p > 0 && cs[p - 1].distance > c.distance
        invariant
            p <= cs@.len(),
            cs@ == s,
            place_of(s, c.distance) == place_of(s.take(p as int), c.distance),
        decreases p,
    {
        proof {
            assert(s.take(p as int).last() == s[p - 1]);
            assert(s.take(p as int).drop_last() =~= s.take(p - 1));
        }
        p -= 1;
    }
    proof {
        if p > 0 {
            assert(s.take(p as int).last() == s[p - 1]);
        }
    }
    cs.insert(p, c);
}

/// Sorts candidates, from the closest one on.
pub fn sort_candidates(cs: &Vec<Candidate>) -> (r: Vec<Candidate>)
    ensures
        r@ == by_distance(cs@),
{
    let mut out: Vec<Candidate> = Vec::new();
    let mut i: usize = 0;
    assert(cs@.take(0) =~= Seq::empty());
    while i < cs.len()
        invariant
            i <= cs@.len(),
            out@ == by_distance(cs@.take(i as int)),
        decreases cs@.len() - i,
    {
        proof {
            assert(cs@.take(i + 1).drop_last() =~= cs@.take(i as int));
            assert(cs@.take(i + 1).last() == cs@[i as int]);
        }
        insert_sorted(&mut out, cs[i]);
        i += 1;
    }
    assert(cs@.take(i as int) =~= cs@);
    out
}

/// What holds of a search while it goes on: `results` are the best nodes among those looked at,
/// and `candidates` are those whose links were not followed yet, but for the one at hand and for
/// those that are no closer than the results once enough was found.
spec fn in_progress<D: Fn(&[u32], &[u32]) -> i64>(
    dist: D,
    pages: Map<u64, PageView>,
    query: Seq<u32>,
    ef: usize,
    layer: int,
    results: Seq<Candidate>,
    candidates: Seq<Candidate>,
    seen: Set<u32>,
    at_hand: Option<u32>,
) -> bool {
    &&& is_sorted(results)
    &&& are_distinct(results)
    &&& is_sorted(candidates)
    &&& forall|i: int|
        0 <= i < results.len() ==> seen.contains((#[trigger] results[i]).node_id) && is_distance_to(
            dist,
            pages,
            query,
            results[i].node_id,
            results[i].distance,
        )
    &&& forall|i: int|
        0 <= i < candidates.len() ==> seen.contains((#[trigger] candidates[i]).node_id)
            && is_distance_to(
            dist,
            pages,
            query,
            candidates[i].node_id,
            candidates[i].distance,
        )
    &&& forall|id: u32| #[trigger]
        seen.contains(id) && !among(results, id) ==> results.len() >= ef && left_out(
            dist,
            pages,
            query,
            results,
            id,
        )
    &&& forall|id: u32| #[trigger]
        seen.contains(id) ==> waits(
            dist,
            pages,
            query,
            ef,
            layer,
            results,
            candidates,
            seen,
            at_hand,
            id,
        )
}

/// The links of a node that was looked at are still to be followed, or were followed, or need not
/// be, since enough was found and the node is no closer.
spec fn waits<D: Fn(&[u32], &[u32]) -> i64>(
    dist: D,
    pages: Map<u64, PageView>,
    query: Seq<u32>,
    ef: usize,
    layer: int,
    results: Seq<Candidate>,
    candidates: Seq<Candidate>,
    seen: Set<u32>,
    at_hand: Option<u32>,
    id: u32,
) -> bool {
    ||| among(candidates, id)
    ||| at_hand == Some(id)
    ||| all_in(links_at(pages, id, layer), seen)
    ||| results.len() >= ef && left_out(dist, pages, query, results, id)
}

/// All nodes of the list are in the set.
pub open spec fn all_in(list: Seq<u32>, set: Set<u32>) -> bool {
    forall|i: int| 0 <= i < list.len() ==> set.contains(#[trigger] list[i])
}

proof fn lemma_left_out_closer<D: Fn(&[u32], &[u32]) -> i64>(
    dist: D,
    pages: Map<u64, PageView>,
    query: Seq<u32>,
    before: Seq<Candidate>,
    after: Seq<Candidate>,
    id: u32,
)
    requires
        left_out(dist, pages, query, before, id),
        before.len() > 0,
        is_sorted(before),
        forall|i: int|
            0 <= i < after.len() ==> (#[trigger] after[i]).distance <= before.last().distance,
    ensures
        left_out(dist, pages, query, after, id),
{
    let d = choose|d: i64| #[trigger]
        is_distance_to(dist, pages, query, id, d) && forall|i: int|
            0 <= i < before.len() ==> (#[trigger] before[i]).distance <= d;
    assert(before[before.len() - 1].distance <= d);
}

/// Puts a node among the results and candidates where it belongs.
fn note<D: Fn(&[u32], &[u32]) -> i64>(
    results: &mut Vec<Candidate>,
    candidates: &mut Vec<Candidate>,
    c: Candidate,
    ef: usize,
    always: bool,
    dist: &D,
    Ghost(pages): Ghost<Map<u64, PageView>>,
    Ghost(query): Ghost<Seq<u32>>,
    Ghost(layer): Ghost<int>,
    Ghost(seen): Ghost<Set<u32>>,
    Ghost(at_hand): Ghost<Option<u32>>,
)
    requires
        in_progress(
            *dist,
            pages,
            query,
            ef,
            layer,
            old(results)@,
            old(candidates)@,
            seen,
            at_hand,
        ),
        !seen.contains(c.node_id),
        is_distance_to(*dist, pages, query, c.node_id, c.distance),
        always ==> forall|id: u32| #[trigger]
            seen.contains(id) ==> among(old(results)@, id) && among(old(candidates)@, id),
    ensures
        in_progress(
            *dist,
            pages,
            query,
            ef,
            layer,
            final(results)@,
            final(candidates)@,
            seen.insert(c.node_id),
            at_hand,
        ),
        final(candidates)@.len() <= old(candidates)@.len() + 1,
        final(results)@.len() >= old(results)@.len(),
        always ==> final(results)@.len() == old(results)@.len() + 1,
        !always ==> final(results)@.len() <= ef || final(results)@.len() == old(results)@.len(),
        always ==> forall|id: u32| #[trigger]
            seen.insert(c.node_id).contains(id) ==> among(final(results)@, id) && among(
                final(candidates)@,
                id,
            ),
{
    let ghost r0 = results@;
    let ghost c0 = candidates@;
    let ghost seen2 = seen.insert(c.node_id);
    let few: bool = results.len() < ef;
    let wanted: bool = always || few || (results.len() > 0 && c.distance < results[results.len()
        - 1].distance);
    proof {
        assert(!among(r0, c.node_id)) by {
            if among(r0, c.node_id) {
                let i = choose|i: int| 0 <= i < r0.len() && (#[trigger] r0[i]).node_id == c.node_id;
                assert(seen.contains(r0[i].node_id));
            }
        }
        lemma_inserted(r0, c);
        lemma_inserted(c0, c);
        lemma_place_of(r0, c.distance);
        lemma_place_of(c0, c.distance);
    }
    if !wanted {
        proof {
            assert(left_out(*dist, pages, query, r0, c.node_id)) by {
                assert forall|i: int| 0 <= i < r0.len() implies (#[trigger] r0[i]).distance
                    <= c.distance by {
                    assert(r0[i].distance <= r0[r0.len() - 1].distance);
                }
            }
            assert forall|id: u32| #[trigger] seen2.contains(id) implies waits(
                *dist,
                pages,
                query,
                ef,
                layer,
                r0,
                c0,
                seen2,
                at_hand,
                id,
            ) by {
                if id != c.node_id {
                    assert(seen.contains(id));
                    lemma_more_seen(links_at(pages, id, layer), seen, c.node_id);
                }
            }
        }
        return;
    }
    insert_sorted(candidates, c);
    insert_sorted(results, c);
    let ghost r1 = results@;
    let ghost c1 = candidates@;
    proof {
        let p = place_of(c0, c.distance);
        assert forall|i: int| 0 <= i < c1.len() implies seen2.contains(
            (#[trigger] c1[i]).node_id,
        ) && is_distance_to(*dist, pages, query, c1[i].node_id, c1[i].distance) by {
            if i != p {
                let k = if i < p { i } else { i - 1 };
                assert(seen.contains(c0[k].node_id));
            }
        }
        let q = place_of(r0, c.distance);
        assert forall|i: int| 0 <= i < r1.len() implies seen2.contains(
            (#[trigger] r1[i]).node_id,
        ) && is_distance_to(*dist, pages, query, r1[i].node_id, r1[i].distance) by {
            if i != q {
                let k = if i < q { i } else { i - 1 };
                assert(seen.contains(r0[k].node_id));
            }
        }
    }
    if !always && results.len() > ef {
        let _ = results.pop();
        proof {
            let r2 = results@;
            let last = r1.last();
            assert(r2 =~= r1.drop_last());
            assert forall|id: u32| #[trigger] seen2.contains(id) && !among(r2, id) implies r2.len()
                >= ef && left_out(*dist, pages, query, r2, id) by {
                if id == last.node_id {
                    assert(is_distance_to(*dist, pages, query, id, last.distance)) by {
                        assert(r1[r1.len() - 1] == last);
                    }
                    assert forall|i: int| 0 <= i < r2.len() implies (#[trigger] r2[i]).distance
                        <= last.distance by {
                        assert(r2[i] == r1[i]);
                        assert(r1[i].distance <= r1[r1.len() - 1].distance);
                    }
                } else {
                    assert(!among(r1, id)) by {
                        if among(r1, id) {
                            let i = choose|i: int|
                                0 <= i < r1.len() && (#[trigger] r1[i]).node_id == id;
                            assert(i < r2.len());
                            assert(r2[i].node_id == id);
                        }
                    }
                    assert(seen.contains(id) && !among(r0, id));
                    assert(r0.len() > 0);
                    // With room for one more, nothing was left out; without, the new one is closer.
                    assert(!few);
                    assert forall|i: int| 0 <= i < r2.len() implies (#[trigger] r2[i]).distance
                        <= r0.last().distance by {
                        let q = place_of(r0, c.distance);
                        assert(r2[i] == r1[i]);
                        if i == q {
                        } else {
                            let k = if i < q { i } else { i - 1 };
                            assert(r0[k].distance <= r0[r0.len() - 1].distance);
                        }
                    }
                    lemma_left_out_closer(*dist, pages, query, r0, r2, id);
                }
            }
            assert(is_sorted(r2)) by {
                assert forall|i: int, j: int| 0 <= i <= j < r2.len() implies (
                #[trigger] r2[i]).distance <= (#[trigger] r2[j]).distance by {
                    assert(r1[i].distance <= r1[j].distance);
                }
            }
            assert(are_distinct(r2)) by {
                assert forall|i: int, j: int| 0 <= i < j < r2.len() implies (
                #[trigger] r2[i]).node_id != (#[trigger] r2[j]).node_id by {
                    assert(r1[i].node_id != r1[j].node_id);
                }
            }
            assert forall|i: int| 0 <= i < r2.len() implies seen2.contains(
                (#[trigger] r2[i]).node_id,
            ) && is_distance_to(*dist, pages, query, r2[i].node_id, r2[i].distance) by {
                assert(r2[i] == r1[i]);
            }
        }
    } else {
        proof {
            assert forall|id: u32| #[trigger] seen2.contains(id) && !among(r1, id) implies r1.len()
                >= ef && left_out(*dist, pages, query, r1, id) by {
                assert(seen.contains(id) && !among(r0, id));
                // Then enough had been found before, and one more is too many.
                assert(r0.len() >= ef);
                assert(always);
            }
        }
    }
    proof {
        let r2 = results@;
        assert forall|id: u32| #[trigger] seen2.contains(id) implies waits(
            *dist,
            pages,
            query,
            ef,
            layer,
            r2,
            c1,
            seen2,
            at_hand,
            id,
        ) by {
            if id == c.node_id {
                assert(c1[place_of(c0, c.distance)].node_id == id);
            } else {
                assert(seen.contains(id));
                lemma_more_seen(links_at(pages, id, layer), seen, c.node_id);
                if among(c0, id) {
                    lemma_still_among(c0, c, id);
                } else if r0.len() >= ef && left_out(*dist, pages, query, r0, id) {
                    assert(!always);
                    if r0.len() > 0 {
                        assert forall|i: int| 0 <= i < r2.len() implies (
                        #[trigger] r2[i]).distance <= r0.last().distance by {
                            let q = place_of(r0, c.distance);
                            assert(r2[i] == r1[i]);
                            if i != q {
                                let k = if i < q { i } else { i - 1 };
                                assert(r0[k].distance <= r0[r0.len() - 1].distance);
                            }
                        }
                        lemma_left_out_closer(*dist, pages, query, r0, r2, id);
                    }
                }
            }
        }
        if always {
            assert forall|id: u32| #[trigger] seen2.contains(id) implies among(r2, id) && among(
                c1,
                id,
            ) by {
                if id == c.node_id {
                    assert(c1[place_of(c0, c.distance)].node_id == id);
                    assert(r1[place_of(r0, c.distance)].node_id == id);
                } else {
                    assert(seen.contains(id));
                    lemma_still_among(c0, c, id);
                    lemma_still_among(r0, c, id);
                }
            }
        }
    }
}

proof fn lemma_more_seen(links: Seq<u32>, seen: Set<u32>, id: u32)
    ensures
        all_in(links, seen) ==> all_in(links, seen.insert(id)),
{
    if all_in(links, seen) {
        assert forall|i: int| 0 <= i < links.len() implies seen.insert(id).contains(
            #[trigger] links[i],
        ) by {
            assert(seen.contains(links[i]));
        }
    }
}

proof fn lemma_still_among(cs: Seq<Candidate>, c: Candidate, id: u32)
    requires
        is_sorted(cs),
        among(cs, id),
    ensures
        among(cs.insert(place_of(cs, c.distance), c), id),
{
    lemma_place_of(cs, c.distance);
    let p = place_of(cs, c.distance);
    let after = cs.insert(p, c);
    let i = choose|i: int| 0 <= i < cs.len() && (#[trigger] cs[i]).node_id == id;
    if i < p {
        assert(after[i].node_id == id);
    } else {
        assert(after[i + 1].node_id == id);
    }
}

/// The nodes looked at can all be reached from the entry points.
spec fn is_reached(
    pages: Map<u64, PageView>,
    entries: Seq<u32>,
    layer: int,
    seen: Set<u32>,
) -> bool {
    forall|all: Set<u32>| #[trigger]
        closed_on(pages, all, layer) && all_in(entries, all) ==> seen.subset_of(all)
}

/// The candidates are what a search of a layer found that looked at some of the nodes.
pub open spec fn is_search<D: Fn(&[u32], &[u32]) -> i64>(
    dist: D,
    pages: Map<u64, PageView>,
    query: Seq<u32>,
    entries: Seq<u32>,
    ef: usize,
    layer: int,
    cs: Seq<Candidate>,
    nodes: Set<u32>,
) -> bool {
    exists|seen: Set<u32>| #[trigger]
        is_found(dist, pages, query, entries, ef, layer, cs, seen) && seen.subset_of(nodes)
}

/// Searches a layer from the entry points on for the nodes that are closest to a vector.
pub fn search_layer<D: Fn(&[u32], &[u32]) -> i64>(
    pager: &Pager,
    dist: &D,
    query: &[u32],
    entries: &Vec<u32>,
    ef: usize,
    layer: usize,
    Ghost(nodes): Ghost<Set<u32>>,
) -> (r: TableResult<Vec<Candidate>>)
    requires
        pager.wf(),
        nodes.finite(),
        is_closed(pager.pages(), nodes),
        all_in(entries@, nodes),
        forall|x: &[u32], y: &[u32]| #[trigger] dist.requires((x, y)),
    ensures
        r is Ok,
        is_search(
            *dist,
            pager.pages(),
            query@,
            entries@,
            ef,
            layer as int,
            r->Ok_0@,
            nodes,
        ),
{
    let ghost pages = pager.pages();
    let mut visited: HashSet<u32> = HashSet::new();
    let mut candidates: Vec<Candidate> = Vec::new();
    let mut results: Vec<Candidate> = Vec::new();
    let ghost mut seen: Set<u32> = Set::empty();
    let mut e: usize = 0;
    assert(visited@ =~= seen);
    while e < entries.len()
        invariant
            pager.wf(),
            pages == pager.pages(),
            is_closed(pages, nodes),
            all_in(entries@, nodes),
            forall|x: &[u32], y: &[u32]| #[trigger] dist.requires((x, y)),
            e <= entries@.len(),
            results@.len() <= e,
            visited@ == seen,
            seen.subset_of(nodes),
            is_reached(pages, entries@, layer as int, seen),
            forall|i: int| 0 <= i < e ==> seen.contains(#[trigger] entries@[i]),
            forall|id: u32| #[trigger]
                seen.contains(id) ==> among(results@, id) && among(candidates@, id),
            in_progress(
                *dist,
                pages,
                query@,
                ef,
                layer as int,
                results@,
                candidates@,
                seen,
                None,
            ),
        decreases entries@.len() - e,
    {
        let id: u32 = entries[e];
        assert(nodes.contains(entries@[e as int]));
        if !visited.contains(&id) {
            visited.insert(id);
            let node = match load_node(pager, id) {
                Ok(n) => n,
                Err(err) => return Err(err),
            };
            let d: i64 = dist(query, node.vector.as_slice());
            assert(is_distance(*dist, query@, node@.vector, d));
            let c = Candidate { node_id: id, distance: d };
            note(
                &mut results,
                &mut candidates,
                c,
                ef,
                true,
                dist,
                Ghost(pages),
                Ghost(query@),
                Ghost(layer as int),
                Ghost(seen),
                Ghost(None),
            );
            proof {
                assert forall|all: Set<u32>| #[trigger]
                    closed_on(pages, all, layer as int) && all_in(entries@, all) implies seen.insert(
                    id,
                ).subset_of(all) by {
                    assert(all.contains(entries@[e as int]));
                }
                seen = seen.insert(id);
            }
        }
        e += 1;
    }
    while candidates.len() > 0
        invariant
            pager.wf(),
            pages == pager.pages(),
            nodes.finite(),
            is_closed(pages, nodes),
            forall|x: &[u32], y: &[u32]| #[trigger] dist.requires((x, y)),
            visited@ == seen,
            seen.subset_of(nodes),
            is_reached(pages, entries@, layer as int, seen),
            forall|i: int| 0 <= i < entries@.len() ==> seen.contains(#[trigger] entries@[i]),
            results@.len() <= ef || results@.len() <= entries@.len(),
            in_progress(
                *dist,
                pages,
                query@,
                ef,
                layer as int,
                results@,
                candidates@,
                seen,
                None,
            ),
        decreases nodes.difference(seen).len() + candidates@.len(),
    {
        let ghost c0 = candidates@;
        let current = candidates.remove(0);
        let ghost here = current.node_id;
        proof {
            assert(seen.contains(c0[0].node_id));
            assert(candidates@ =~= c0.drop_first());
            assert(in_progress(
                *dist,
                pages,
                query@,
                ef,
                layer as int,
                results@,
                candidates@,
                seen,
                Some(here),
            )) by {
                let c1 = candidates@;
                assert forall|i: int| 0 <= i < c1.len() implies seen.contains(
                    (#[trigger] c1[i]).node_id,
                ) && is_distance_to(*dist, pages, query@, c1[i].node_id, c1[i].distance) by {
                    assert(c1[i] == c0[i + 1]);
                }
                assert(is_sorted(c1)) by {
                    assert forall|i: int, j: int| 0 <= i <= j < c1.len() implies (
                    #[trigger] c1[i]).distance <= (#[trigger] c1[j]).distance by {
                        assert(c0[i + 1].distance <= c0[j + 1].distance);
                    }
                }
                assert forall|id: u32| #[trigger] seen.contains(id) implies waits(
                    *dist,
                    pages,
                    query@,
                    ef,
                    layer as int,
                    results@,
                    c1,
                    seen,
                    Some(here),
                    id,
                ) by {
                    if among(c0, id) && id != here {
                        let i = choose|i: int|
                            0 <= i < c0.len() && (#[trigger] c0[i]).node_id == id;
                        assert(i > 0);
                        assert(c1[i - 1].node_id == id);
                    }
                }
            }
        }
        if results.len() >= ef && results.len() > 0 && current.distance > results[results.len()
            - 1].distance {
            proof {
                let rs = results@;
                assert forall|id: u32| #[trigger]
                    seen.contains(id) && !all_in(
                        links_at(pages, id, layer as int),
                        seen,
                    ) implies rs.len() >= ef && left_out(*dist, pages, query@, rs, id) by {
                    if among(c0, id) {
                        let i = choose|i: int|
                            0 <= i < c0.len() && (#[trigger] c0[i]).node_id == id;
                        let d = c0[i].distance;
                        assert(c0[0].distance <= c0[i].distance);
                        assert(is_distance_to(*dist, pages, query@, id, d));
                        assert forall|k: int| 0 <= k < rs.len() implies (#[trigger] rs[k]).distance
                            <= d by {
                            assert(rs[k].distance <= rs[rs.len() - 1].distance);
                        }
                    }
                }
                assert(is_found(
                    *dist,
                    pages,
                    query@,
                    entries@,
                    ef,
                    layer as int,
                    results@,
                    seen,
                ));
            }
            return Ok(results);
        }
        let node = match load_node(pager, current.node_id) {
            Ok(n) => n,
            Err(err) => return Err(err),
        };
        let ghost links = links_at(pages, here, layer as int);
        let ghost bound = nodes.difference(seen).len() + candidates@.len();
        let mut i: usize = 0;
        let count: usize = if layer < node.neighbors.len() {
            node.neighbors[layer].len()
        } else {
            0
        };
        proof {
            assert(count == links.len());
        }
        while i < count
            invariant
                pager.wf(),
                pages == pager.pages(),
                nodes.finite(),
                is_closed(pages, nodes),
                nodes.contains(here),
                node_at(pages, here) == Ok::<NodeView, TableError>(node@),
                forall|x: &[u32], y: &[u32]| #[trigger] dist.requires((x, y)),
                links == links_at(pages, here, layer as int),
                count == links.len(),
                count > 0 ==> layer < node.neighbors@.len() && node.neighbors@[layer as int]@
                    == links,
                i <= count,
                visited@ == seen,
                seen.contains(here),
                seen.subset_of(nodes),
                is_reached(pages, entries@, layer as int, seen),
                forall|k: int| 0 <= k < entries@.len() ==> seen.contains(#[trigger] entries@[k]),
                results@.len() <= ef || results@.len() <= entries@.len(),
                forall|k: int| 0 <= k < i ==> seen.contains(#[trigger] links[k]),
                in_progress(
                    *dist,
                    pages,
                    query@,
                    ef,
                    layer as int,
                    results@,
                    candidates@,
                    seen,
                    Some(here),
                ),
                nodes.difference(seen).len() + candidates@.len() <= bound,
            decreases count - i,
        {
            let id: u32 = node.neighbors[layer][i];
            proof {
                assert(links[i as int] == id);
                assert(node_at(pages, here)->Ok_0.neighbors[layer as int][i as int] == id);
                assert(nodes.contains(id));
            }
            if !visited.contains(&id) {
                visited.insert(id);
                let neighbor = match load_node(pager, id) {
                    Ok(n) => n,
                    Err(err) => return Err(err),
                };
                let d: i64 = dist(query, neighbor.vector.as_slice());
                assert(is_distance(*dist, query@, neighbor@.vector, d));
                let c = Candidate { node_id: id, distance: d };
                note(
                    &mut results,
                    &mut candidates,
                    c,
                    ef,
                    false,
                    dist,
                    Ghost(pages),
                    Ghost(query@),
                    Ghost(layer as int),
                    Ghost(seen),
                    Ghost(Some(here)),
                );
                proof {
                    assert(nodes.difference(seen.insert(id)) =~= nodes.difference(seen).remove(id));
                    assert forall|all: Set<u32>| #[trigger]
                        closed_on(pages, all, layer as int) && all_in(entries@, all) implies seen.insert(
                        id,
                    ).subset_of(all) by {
                        assert(all.contains(here));
                        assert(all.contains(links_at(pages, here, layer as int)[i as int]));
                    }
                    seen = seen.insert(id);
                }
            }
            i += 1;
        }
        proof {
            assert(all_in(links, seen));
            assert forall|id: u32| #[trigger] seen.contains(id) implies waits(
                *dist,
                pages,
                query@,
                ef,
                layer as int,
                results@,
                candidates@,
                seen,
                None,
                id,
            ) by {
                assert(waits(
                    *dist,
                    pages,
                    query@,
                    ef,
                    layer as int,
                    results@,
                    candidates@,
                    seen,
                    Some(here),
                    id,
                ));
            }
            assert(in_progress(
                *dist,
                pages,
                query@,
                ef,
                layer as int,
                results@,
                candidates@,
                seen,
                None,
            ));
        }
    }
    proof {
        assert forall|id: u32| #[trigger]
            seen.contains(id) && !all_in(
                links_at(pages, id, layer as int),
                seen,
            ) implies results@.len() >= ef && left_out(*dist, pages, query@, results@, id) by {
            assert(waits(
                *dist,
                pages,
                query@,
                ef,
                layer as int,
                results@,
                candidates@,
                seen,
                None,
                id,
            ));
        }
        if results@.len() < ef {
            assert(closed_on(pages, seen, layer as int)) by {
                assert forall|id: u32, i: int|
                    seen.contains(id) && 0 <= i < links_at(pages, id, layer as int).len() implies seen.contains(
                #[trigger] links_at(pages, id, layer as int)[i]) by {
                    assert(all_in(links_at(pages, id, layer as int), seen));
                }
            }
        }
        assert(is_found(
            *dist,
            pages,
            query@,
            entries@,
            ef,
            layer as int,
            results@,
            seen,
        ));
    }
    Ok(results)
}

/// The vector of a node.
pub open spec fn vector_at(pages: Map<u64, PageView>, id: u32) -> Seq<u32> {
    node_at(pages, id)->Ok_0.vector
}

/// The node at `k` in the pool is closer to one that was picked before it than to the query.
pub open spec fn is_redundant<D: Fn(&[u32], &[u32]) -> i64>(
    dist: D,
    pages: Map<u64, PageView>,
    pool: Seq<Candidate>,
    picks: Seq<int>,
    k: int,
) -> bool {
    exists|a: int, d: i64|
        0 <= a < picks.len() && (#[trigger] picks[a]) < k && (#[trigger] is_distance(
            dist,
            vector_at(pages, pool[k].node_id),
            vector_at(pages, pool[picks[a]].node_id),
            d,
        )) && d < pool[k].distance
}

/// The two that were picked are no closer to each other than the later one is to the query.
pub open spec fn is_apart<D: Fn(&[u32], &[u32]) -> i64>(
    dist: D,
    pages: Map<u64, PageView>,
    pool: Seq<Candidate>,
    earlier: int,
    later: int,
) -> bool {
    exists|d: i64| #[trigger]
        is_distance(
            dist,
            vector_at(pages, pool[later].node_id),
            vector_at(pages, pool[earlier].node_id),
            d,
        ) && d >= pool[later].distance
}

/// As many as wanted were picked before `k`.
pub open spec fn is_complete(picks: Seq<int>, m: int, k: int) -> bool {
    picks.len() == m && (m == 0 || picks[m - 1] < k)
}

/// The picks are what the diversity rule leaves of the first `n` of the pool.
pub open spec fn are_diverse<D: Fn(&[u32], &[u32]) -> i64>(
    dist: D,
    pages: Map<u64, PageView>,
    pool: Seq<Candidate>,
    m: int,
    picks: Seq<int>,
    n: int,
) -> bool {
    &&& picks.len() <= m
    &&& forall|a: int| 0 <= a < picks.len() ==> 0 <= #[trigger] picks[a] < n
    &&& forall|a: int, b: int|
        0 <= a < b < picks.len() ==> (#[trigger] picks[a]) < (#[trigger] picks[b])
    &&& forall|a: int|
        0 <= a < picks.len() ==> node_at(pages, pool[#[trigger] picks[a]].node_id) is Ok
    &&& forall|a: int, b: int|
        0 <= a < b < picks.len() ==> is_apart(
            dist,
            pages,
            pool,
            #[trigger] picks[a],
            #[trigger] picks[b],
        )
    &&& forall|k: int|
        0 <= k < n && !picks.contains(k) ==> is_complete(picks, m, k) || node_at(
            pages,
            (#[trigger] pool[k]).node_id,
        ) is Err || is_redundant(dist, pages, pool, picks, k)
}

/// The numbers of the nodes.
pub open spec fn node_ids(cs: Seq<Candidate>) -> Seq<u32> {
    Seq::new(cs.len(), |i: int| cs[i].node_id)
}

/// The numbers of the nodes that were picked.
pub open spec fn picked_ids(pool: Seq<Candidate>, picks: Seq<int>) -> Seq<u32> {
    Seq::new(picks.len(), |a: int| pool[picks[a]].node_id)
}

/// How many candidates the diversity rule is applied to.
pub open spec fn pool_size(m: int, len: int) -> int {
    if 3 * m < len {
        3 * m
    } else {
        len
    }
}

/// The list is what the rule for choosing links gives: the closest candidates, or, of more than
/// can be linked, the diverse ones among the closest.
pub open spec fn is_selection<D: Fn(&[u32], &[u32]) -> i64>(
    dist: D,
    pages: Map<u64, PageView>,
    candidates: Seq<Candidate>,
    m: int,
    extend: bool,
    ids: Seq<u32>,
) -> bool {
    let sorted = by_distance(candidates);
    if !extend || candidates.len() <= m {
        ids == node_ids(
            sorted.take(
                if candidates.len() <= m {
                    candidates.len() as int
                } else {
                    m
                },
            ),
        )
    } else {
        let pool = sorted.take(pool_size(m, sorted.len() as int));
        exists|picks: Seq<int>|
            ids == #[trigger] picked_ids(pool, picks) && are_diverse(
                dist,
                pages,
                pool,
                m,
                picks,
                pool.len() as int,
            )
    }
}

/// Chooses the nodes to link to among the candidates.
pub fn select_neighbors<D: Fn(&[u32], &[u32]) -> i64>(
    pager: &Pager,
    dist: &D,
    candidates: &Vec<Candidate>,
    m: usize,
    extend: bool,
) -> (r: Vec<u32>)
    requires
        pager.wf(),
        forall|x: &[u32], y: &[u32]| #[trigger] dist.requires((x, y)),
    ensures
        is_selection(*dist, pager.pages(), candidates@, m as int, extend, r@),
        forall|i: int| 0 <= i < r@.len() ==> among(candidates@, #[trigger] r@[i]),
        r@.len() <= m,
        are_distinct(candidates@) ==> r@.no_duplicates(),
{
    let ghost pages = pager.pages();
    let sorted = sort_candidates(candidates);
    proof {
        law_by_distance_is_sorted(candidates@);
    }
    let len: usize = sorted.len();
    let mut ids: Vec<u32> = Vec::new();
    if !extend || len <= m {
        let count: usize = if len <= m {
            len
        } else {
            m
        };
        let mut i: usize = 0;
        while i < count
            invariant
                i <= count <= sorted@.len(),
                ids@.len() == i,
                forall|j: int| 0 <= j < i ==> #[trigger] ids@[j] == sorted@[j].node_id,
            decreases count - i,
        {
            ids.push(sorted[i].node_id);
            i += 1;
        }
        proof {
            assert(ids@ =~= node_ids(sorted@.take(count as int)));
            assert forall|j: int| 0 <= j < ids@.len() implies among(
                candidates@,
                #[trigger] ids@[j],
            ) by {
                assert(among(sorted@, sorted@[j].node_id));
            }
        }
        return ids;
    }
    let size: usize = if m <= len / 3 {
        m * 3
    } else {
        len
    };
    let ghost pool = sorted@.take(size as int);
    proof {
        assert(size == pool_size(m as int, len as int));
    }
    let ghost mut picks: Seq<int> = Seq::empty();
    let mut chosen: Vec<Vec<u32>> = Vec::new();
    let mut k: usize = 0;
    assert(ids@ =~= picked_ids(pool, picks));
    while k < size
        invariant
            pager.wf(),
            pages == pager.pages(),
            forall|x: &[u32], y: &[u32]| #[trigger] dist.requires((x, y)),
            k <= size == pool.len() <= sorted@.len(),
            pool == sorted@.take(size as int),
            are_diverse(*dist, pages, pool, m as int, picks, k as int),
            ids@ == picked_ids(pool, picks),
            chosen@.len() == picks.len(),
            forall|a: int|
                0 <= a < picks.len() ==> (#[trigger] chosen@[a])@ == vector_at(
                    pages,
                    pool[picks[a]].node_id,
                ),
        decreases size - k,
    {
        let c = sorted[k];
        assert(c == pool[k as int]);
        let ghost picks0 = picks;
        if ids.len() < m {
            match load_node(pager, c.node_id) {
                Ok(node) => {
                    let mut diverse: bool = true;
                    let mut a: usize = 0;
                    while a < chosen.len() && diverse
                        invariant
                            pages == pager.pages(),
                            forall|x: &[u32], y: &[u32]| #[trigger] dist.requires((x, y)),
                            k < pool.len(),
                            c == pool[k as int],
                            node_at(pages, c.node_id) == Ok::<NodeView, TableError>(node@),
                            a <= chosen@.len() == picks.len(),
                            forall|b: int|
                                0 <= b < picks.len() ==> (#[trigger] chosen@[b])@ == vector_at(
                                    pages,
                                    pool[picks[b]].node_id,
                                ),
                            forall|b: int| 0 <= b < picks.len() ==> 0 <= #[trigger] picks[b] < k,
                            diverse ==> forall|b: int|
                                0 <= b < a ==> is_apart(
                                    *dist,
                                    pages,
                                    pool,
                                    #[trigger] picks[b],
                                    k as int,
                                ),
                            !diverse ==> is_redundant(*dist, pages, pool, picks, k as int),
                        decreases chosen@.len() - a + (if diverse {
                            1int
                        } else {
                            0int
                        }),
                    {
                        let d: i64 = dist(node.vector.as_slice(), chosen[a].as_slice());
                        proof {
                            assert(is_distance(
                                *dist,
                                vector_at(pages, pool[k as int].node_id),
                                vector_at(pages, pool[picks[a as int]].node_id),
                                d,
                            ));
                        }
                        if d < c.distance {
                            diverse = false;
                        } else {
                            a += 1;
                        }
                    }
                    if diverse {
                        ids.push(c.node_id);
                        chosen.push(node.vector);
                        proof {
                            picks = picks.push(k as int);
                            assert(ids@ =~= picked_ids(pool, picks));
                        }
                    }
                },
                Err(_) => {},
            }
        }
        proof {
            lemma_diverse_step(*dist, pages, pool, m as int, picks0, picks, k as int);
        }
        k += 1;
    }
    proof {
        assert(pool.len() == size);
        assert forall|j: int| 0 <= j < ids@.len() implies among(candidates@, #[trigger] ids@[j]) by {
            assert(0 <= picks[j] < size);
            assert(among(sorted@, sorted@[picks[j]].node_id));
        }
        if are_distinct(candidates@) {
            assert forall|a: int, b: int| 0 <= a < b < ids@.len() implies ids@[a] != ids@[b] by {
                assert(picks[a] < picks[b]);
                assert(sorted@[picks[a]].node_id != sorted@[picks[b]].node_id);
            }
        }
    }
    ids
}

proof fn lemma_diverse_step<D: Fn(&[u32], &[u32]) -> i64>(
    dist: D,
    pages: Map<u64, PageView>,
    pool: Seq<Candidate>,
    m: int,
    before: Seq<int>,
    after: Seq<int>,
    k: int,
)
    requires
        0 <= k < pool.len(),
        are_diverse(dist, pages, pool, m, before, k),
        after == before || (after == before.push(k) && before.len() < m && node_at(
            pages,
            pool[k].node_id,
        ) is Ok && forall|b: int|
            0 <= b < before.len() ==> is_apart(dist, pages, pool, #[trigger] before[b], k)),
        after == before ==> before.len() == m || node_at(pages, pool[k].node_id) is Err
            || is_redundant(dist, pages, pool, before, k),
    ensures
        are_diverse(dist, pages, pool, m, after, k + 1),
{
    assert forall|j: int| 0 <= j < k + 1 && !after.contains(j) implies is_complete(
        after,
        m,
        j,
    ) || node_at(
        pages,
        (#[trigger] pool[j]).node_id,
    ) is Err || is_redundant(dist, pages, pool, after, j) by {
        if after == before {
            if j == k && before.len() == m && m > 0 {
                assert(before[m - 1] < k);
            }
        } else {
            assert(after[before.len() as int] == k);
            assert(j != k);
            assert(!before.contains(j)) by {
                if before.contains(j) {
                    let i = before.index_of(j);
                    assert(after[i] == j);
                }
            }
            if is_redundant(dist, pages, pool, before, j) {
                let (a, d) = choose|a: int, d: i64|
                    0 <= a < before.len() && (#[trigger] before[a]) < j && (#[trigger] is_distance(
                        dist,
                        vector_at(pages, pool[j].node_id),
                        vector_at(pages, pool[before[a]].node_id),
                        d,
                    )) && d < pool[j].distance;
                assert(after[a] == before[a]);
            }
        }
    }
    if after != before {
        assert forall|a: int, b: int| 0 <= a < b < after.len() implies is_apart(
            dist,
            pages,
            pool,
            #[trigger] after[a],
            #[trigger] after[b],
        ) by {
            assert(after[a] == before[a]);
            if b < before.len() {
                assert(after[b] == before[b]);
            }
        }
        assert forall|a: int| 0 <= a < after.len() implies 0 <= #[trigger] after[a] < k + 1 by {
            if a < before.len() {
                assert(after[a] == before[a]);
            }
        }
        assert forall|a: int, b: int| 0 <= a < b < after.len() implies (#[trigger] after[a]) < (
        #[trigger] after[b]) by {
            assert(after[a] == before[a]);
            if b < before.len() {
                assert(after[b] == before[b]);
            }
        }
        assert forall|a: int| 0 <= a < after.len() implies node_at(
            pages,
            pool[#[trigger] after[a]].node_id,
        ) is Ok by {
            if a < before.len() {
                assert(after[a] == before[a]);
            }
        }
    }
}

} // verus!
