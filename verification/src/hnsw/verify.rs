//! Checking a vector index for damage.
use crate::bytemap::ByteMap;
use crate::hnsw::cache::{NodeCache, NodeCacheStats};
use crate::hnsw::links::contains;
use crate::hnsw::node::{load_node, node_at, HnswNode, NodeView};
use crate::hnsw::ops::ids_in;
use crate::hnsw::search::is_closed;
use crate::hnsw::table::{HnswConfig, PagedHnswVector};
use crate::pager::{PageView, Pager};
use crate::table::TableError;
use crate::txn::saturated;
use std::collections::HashSet;
use vstd::prelude::*;

verus! {

/// Damage in a vector index.
#[derive(Clone, Copy, Debug, PartialEq, Eq, Structural)]
pub enum VectorFault {
    /// There are vectors but no node to start a search at.
    NoEntryPoint,
    /// A node cannot be read.
    UnreadableNode { node: u32, error: TableError },
    /// A vector does not have as many components as the index says.
    WrongDimensions { node: u32, expected: usize, found: usize },
    /// A node is above the highest layer.
    LayerTooHigh { node: u32, layer: usize, max_layer: usize },
    /// A node does not have one list of links for each of its layers.
    WrongLayerCount { node: u32, layer: usize, lists: usize },
    /// A link leads to a node that cannot be read.
    BadNeighbor { node: u32, layer: usize, neighbor: u32, error: TableError },
}

/// Something worth knowing of a vector index that is no damage.
#[derive(Clone, Copy, Debug, PartialEq, Eq, Structural)]
pub enum VectorWarning {
    /// A node has more links on a layer than it may have.
    TooManyLinks { node: u32, layer: usize, links: usize, max: usize },
    /// Fewer nodes can be reached from the entry point than there are.
    Disconnected { nodes: usize, reachable: usize },
    /// How many links there are on a layer.
    LayerLinks { layer: usize, links: usize, nodes: usize },
    /// How many links there are, and how many have one that leads back.
    GraphQuality { links: usize, mutual: usize, nodes: usize },
    /// Fewer than nine in ten links have one that leads back.
    LowReciprocity { links: usize, mutual: usize },
    /// How often nodes were found in memory, were read from their pages since they were not, and
    /// had to make room. Every report ends with it.
    NodeCache { hits: u64, misses: u64, evictions: u64 },
}

/// What a check of a vector index found.
#[derive(Debug)]
pub struct VectorReport {
    pub checked_items: usize,
    pub errors: Vec<VectorFault>,
    pub warnings: Vec<VectorWarning>,
}

/// The links of a list that lead to no readable node.
pub open spec fn bad_links(pages: Map<u64, PageView>, id: u32, layer: int, list: Seq<u32>) -> Seq<
    VectorFault,
>
    decreases list.len(),
{
    if list.len() == 0 {
        Seq::empty()
    } else {
        let before = bad_links(pages, id, layer, list.drop_last());
        match node_at(pages, list.last()) {
            Ok(n) => before,
            Err(error) => before.push(
                VectorFault::BadNeighbor {
                    node: id,
                    layer: layer as usize,
                    neighbor: list.last(),
                    error,
                },
            ),
        }
    }
}

/// The links of all lists that lead to no readable node.
pub open spec fn all_bad_links(pages: Map<u64, PageView>, id: u32, lists: Seq<Seq<u32>>) -> Seq<
    VectorFault,
>
    decreases lists.len(),
{
    if lists.len() == 0 {
        Seq::empty()
    } else {
        all_bad_links(pages, id, lists.drop_last()) + bad_links(
            pages,
            id,
            lists.len() - 1,
            lists.last(),
        )
    }
}

/// How many links a node may have on a layer.
pub open spec fn max_links(c: HnswConfig, layer: int) -> usize {
    if layer == 0 {
        c.max_connections_layer0
    } else {
        c.max_connections
    }
}

/// The lists that are too long.
pub open spec fn long_lists(c: HnswConfig, id: u32, lists: Seq<Seq<u32>>) -> Seq<VectorWarning>
    decreases lists.len(),
{
    if lists.len() == 0 {
        Seq::empty()
    } else {
        let before = long_lists(c, id, lists.drop_last());
        let layer = lists.len() - 1;
        if lists.last().len() > max_links(c, layer) {
            before.push(
                VectorWarning::TooManyLinks {
                    node: id,
                    layer: layer as usize,
                    links: lists.last().len() as usize,
                    max: max_links(c, layer),
                },
            )
        } else {
            before
        }
    }
}

/// A list with one element or none.
pub open spec fn only_if<T>(b: bool, x: T) -> Seq<T> {
    if b {
        seq![x]
    } else {
        Seq::empty()
    }
}

/// What is wrong with a node.
pub open spec fn node_faults(
    pages: Map<u64, PageView>,
    c: HnswConfig,
    max_layer: usize,
    id: u32,
) -> Seq<VectorFault> {
    match node_at(pages, id) {
        Err(error) => seq![VectorFault::UnreadableNode { node: id, error }],
        Ok(n) => only_if(
            n.vector.len() != c.dimensions,
            VectorFault::WrongDimensions {
                node: id,
                expected: c.dimensions,
                found: n.vector.len() as usize,
            },
        ) + only_if(
            n.layer > max_layer,
            VectorFault::LayerTooHigh { node: id, layer: n.layer, max_layer },
        ) + only_if(
            n.neighbors.len() != n.layer + 1,
            VectorFault::WrongLayerCount {
                node: id,
                layer: n.layer,
                lists: n.neighbors.len() as usize,
            },
        ) + all_bad_links(pages, id, n.neighbors),
    }
}

/// What is unusual about a node.
pub open spec fn node_warnings(pages: Map<u64, PageView>, c: HnswConfig, id: u32) -> Seq<
    VectorWarning,
> {
    match node_at(pages, id) {
        Err(e) => Seq::empty(),
        Ok(n) => long_lists(c, id, n.neighbors),
    }
}

/// What is wrong with the nodes.
pub open spec fn all_faults(
    pages: Map<u64, PageView>,
    c: HnswConfig,
    max_layer: usize,
    ids: Seq<u32>,
) -> Seq<VectorFault>
    decreases ids.len(),
{
    if ids.len() == 0 {
        Seq::empty()
    } else {
        all_faults(pages, c, max_layer, ids.drop_last()) + node_faults(
            pages,
            c,
            max_layer,
            ids.last(),
        )
    }
}

/// What is unusual about the nodes.
pub open spec fn all_warnings(pages: Map<u64, PageView>, c: HnswConfig, ids: Seq<u32>) -> Seq<
    VectorWarning,
>
    decreases ids.len(),
{
    if ids.len() == 0 {
        Seq::empty()
    } else {
        all_warnings(pages, c, ids.drop_last()) + node_warnings(pages, c, ids.last())
    }
}

/// Of a list of links, those that lead to no readable node are faults, each of them and in order.
pub proof fn law_bad_links_are_reported(
    pages: Map<u64, PageView>,
    id: u32,
    layer: int,
    list: Seq<u32>,
)
    ensures
        bad_links(pages, id, layer, list) == list.filter(
            |x: u32| node_at(pages, x) is Err,
        ).map_values(
            |x: u32|
                VectorFault::BadNeighbor {
                    node: id,
                    layer: layer as usize,
                    neighbor: x,
                    error: node_at(pages, x)->Err_0,
                },
        ),
    decreases list.len(),
{
    reveal(Seq::filter);
    let bad = |x: u32| node_at(pages, x) is Err;
    let fault = |x: u32|
        VectorFault::BadNeighbor {
            node: id,
            layer: layer as usize,
            neighbor: x,
            error: node_at(pages, x)->Err_0,
        };
    if list.len() > 0 {
        let rest = list.drop_last();
        law_bad_links_are_reported(pages, id, layer, rest);
        if bad(list.last()) {
            assert(rest.filter(bad).push(list.last()).map_values(fault) =~= rest.filter(
                bad,
            ).map_values(fault).push(fault(list.last())));
        }
    } else {
        assert(list.filter(bad).map_values(fault) =~= Seq::empty());
    }
}

proof fn lemma_list_is_readable(pages: Map<u64, PageView>, id: u32, layer: int, list: Seq<u32>)
    ensures
        bad_links(pages, id, layer, list).len() == 0 <==> forall|i: int|
            0 <= i < list.len() ==> node_at(pages, #[trigger] list[i]) is Ok,
    decreases list.len(),
{
    if list.len() > 0 {
        let rest = list.drop_last();
        lemma_list_is_readable(pages, id, layer, rest);
        if forall|i: int| 0 <= i < list.len() ==> node_at(pages, #[trigger] list[i]) is Ok {
            assert forall|i: int| 0 <= i < rest.len() implies node_at(
                pages,
                #[trigger] rest[i],
            ) is Ok by {
                assert(rest[i] == list[i]);
            }
            assert(node_at(pages, list[list.len() - 1]) is Ok);
        }
        if bad_links(pages, id, layer, list).len() == 0 {
            assert forall|i: int| 0 <= i < list.len() implies node_at(
                pages,
                #[trigger] list[i],
            ) is Ok by {
                if i < rest.len() {
                    assert(rest[i] == list[i]);
                }
            }
        }
    }
}

proof fn lemma_lists_are_readable(pages: Map<u64, PageView>, id: u32, lists: Seq<Seq<u32>>)
    ensures
        all_bad_links(pages, id, lists).len() == 0 <==> forall|l: int, i: int|
            0 <= l < lists.len() && 0 <= i < lists[l].len() ==> node_at(
                pages,
                #[trigger] lists[l][i],
            ) is Ok,
    decreases lists.len(),
{
    if lists.len() > 0 {
        let rest = lists.drop_last();
        let last = lists.len() - 1;
        lemma_lists_are_readable(pages, id, rest);
        lemma_list_is_readable(pages, id, last, lists.last());
        if forall|l: int, i: int|
            0 <= l < lists.len() && 0 <= i < lists[l].len() ==> node_at(
                pages,
                #[trigger] lists[l][i],
            ) is Ok {
            assert forall|l: int, i: int| 0 <= l < rest.len() && 0 <= i < rest[l].len() implies
                node_at(pages, #[trigger] rest[l][i]) is Ok by {
                assert(rest[l][i] == lists[l][i]);
            }
            assert forall|i: int| 0 <= i < lists.last().len() implies node_at(
                pages,
                #[trigger] lists.last()[i],
            ) is Ok by {
                assert(lists.last()[i] == lists[last][i]);
            }
        }
        if all_bad_links(pages, id, lists).len() == 0 {
            assert forall|l: int, i: int| 0 <= l < lists.len() && 0 <= i < lists[l].len() implies
                node_at(pages, #[trigger] lists[l][i]) is Ok by {
                if l < rest.len() {
                    assert(rest[l][i] == lists[l][i]);
                } else {
                    assert(lists.last()[i] == lists[l][i]);
                }
            }
        }
    }
}

/// A node is without fault if and only if it can be read, its vector has the dimensions of the
/// index, it lies on a layer that the index has, it has a list of links for each layer up to its
/// own, and every link leads to a node that can be read.
pub proof fn law_sound_node_has_no_faults(
    pages: Map<u64, PageView>,
    c: HnswConfig,
    max_layer: usize,
    id: u32,
)
    ensures
        node_faults(pages, c, max_layer, id).len() == 0 <==> {
            &&& node_at(pages, id) is Ok
            &&& ({
                let n = node_at(pages, id)->Ok_0;
                &&& n.vector.len() == c.dimensions
                &&& n.layer <= max_layer
                &&& n.neighbors.len() == n.layer + 1
                &&& forall|l: int, i: int|
                    0 <= l < n.neighbors.len() && 0 <= i < n.neighbors[l].len() ==> node_at(
                        pages,
                        #[trigger] n.neighbors[l][i],
                    ) is Ok
            })
        },
{
    if let Ok(n) = node_at(pages, id) {
        lemma_lists_are_readable(pages, id, n.neighbors);
    }
}

/// The faults of an index are those of its nodes: there are none if and only if no node has one.
pub proof fn law_faults_are_those_of_the_nodes(
    pages: Map<u64, PageView>,
    c: HnswConfig,
    max_layer: usize,
    ids: Seq<u32>,
)
    ensures
        all_faults(pages, c, max_layer, ids).len() == 0 <==> forall|i: int|
            0 <= i < ids.len() ==> node_faults(pages, c, max_layer, #[trigger] ids[i]).len() == 0,
    decreases ids.len(),
{
    if ids.len() > 0 {
        let rest = ids.drop_last();
        law_faults_are_those_of_the_nodes(pages, c, max_layer, rest);
        if forall|i: int|
            0 <= i < ids.len() ==> node_faults(pages, c, max_layer, #[trigger] ids[i]).len() == 0 {
            assert forall|i: int| 0 <= i < rest.len() implies node_faults(
                pages,
                c,
                max_layer,
                #[trigger] rest[i],
            ).len() == 0 by {
                assert(rest[i] == ids[i]);
            }
            assert(node_faults(pages, c, max_layer, ids[ids.len() - 1]).len() == 0);
        }
        if all_faults(pages, c, max_layer, ids).len() == 0 {
            assert forall|i: int| 0 <= i < ids.len() implies node_faults(
                pages,
                c,
                max_layer,
                #[trigger] ids[i],
            ).len() == 0 by {
                if i < rest.len() {
                    assert(rest[i] == ids[i]);
                }
            }
        }
    }
}

/// There is no warning of too many links if and only if no layer has more than it may: the lowest
/// one has its own limit, the others share one.
pub proof fn law_short_lists_give_no_warning(c: HnswConfig, id: u32, lists: Seq<Seq<u32>>)
    ensures
        long_lists(c, id, lists).len() == 0 <==> forall|l: int|
            0 <= l < lists.len() ==> (#[trigger] lists[l]).len() <= (if l == 0 {
                c.max_connections_layer0
            } else {
                c.max_connections
            }),
    decreases lists.len(),
{
    if lists.len() > 0 {
        let rest = lists.drop_last();
        law_short_lists_give_no_warning(c, id, rest);
        assert forall|l: int| 0 <= l < rest.len() implies #[trigger] rest[l] == lists[l] by {}
        if long_lists(c, id, lists).len() == 0 {
            assert forall|l: int| 0 <= l < lists.len() implies (#[trigger] lists[l]).len() <= (if l
                == 0 {
                c.max_connections_layer0
            } else {
                c.max_connections
            }) by {
                if l < rest.len() {
                    assert(rest[l] == lists[l]);
                }
            }
        } else {
            if long_lists(c, id, rest).len() > 0 {
                let l = choose|l: int|
                    0 <= l < rest.len() && !((#[trigger] rest[l]).len() <= (if l == 0 {
                        c.max_connections_layer0
                    } else {
                        c.max_connections
                    }));
                assert(lists[l].len() > (if l == 0 {
                    c.max_connections_layer0
                } else {
                    c.max_connections
                }));
            } else {
                assert(lists[lists.len() - 1].len() > max_links(c, lists.len() - 1));
            }
        }
    }
}

fn check_list(
    pager: &Pager,
    id: u32,
    layer: usize,
    list: &Vec<u32>,
    errors: &mut Vec<VectorFault>,
)
    requires
        pager.wf(),
    ensures
        final(errors)@ == old(errors)@ + bad_links(pager.pages(), id, layer as int, list@),
{
    let ghost pages = pager.pages();
    let ghost before = errors@;
    let mut i: usize = 0;
    proof {
        assert(list@.take(0) =~= Seq::empty());
        assert(before + Seq::<VectorFault>::empty() =~= before);
    }
    while i < list.len()
        invariant
            i <= list@.len(),
            pager.wf(),
            pages == pager.pages(),
            errors@ == before + bad_links(pages, id, layer as int, list@.take(i as int)),
        decreases list@.len() - i,
    {
        let neighbor: u32 = list[i];
        proof {
            assert(list@.take(i + 1).drop_last() =~= list@.take(i as int));
            assert(list@.take(i + 1).last() == neighbor);
        }
        let ghost so_far = errors@;
        if let Err(error) = load_node(pager, neighbor) {
            errors.push(VectorFault::BadNeighbor { node: id, layer, neighbor, error });
        }
        proof {
            assert(errors@ =~= before + bad_links(pages, id, layer as int, list@.take(i + 1)));
        }
        i += 1;
    }
    assert(list@.take(i as int) =~= list@);
}

fn check_node(
    pager: &Pager,
    config: &HnswConfig,
    max_layer: usize,
    id: u32,
    errors: &mut Vec<VectorFault>,
    warnings: &mut Vec<VectorWarning>,
)
    requires
        pager.wf(),
    ensures
        final(errors)@ == old(errors)@ + node_faults(pager.pages(), *config, max_layer, id),
        final(warnings)@ == old(warnings)@ + node_warnings(pager.pages(), *config, id),
{
    let ghost pages = pager.pages();
    let ghost e0 = errors@;
    let ghost w0 = warnings@;
    let node = match load_node(pager, id) {
        Ok(n) => n,
        Err(error) => {
            errors.push(VectorFault::UnreadableNode { node: id, error });
            proof {
                assert(errors@ =~= e0 + node_faults(pages, *config, max_layer, id));
                assert(warnings@ =~= w0 + node_warnings(pages, *config, id));
            }
            return;
        },
    };
    let ghost n = node@;
    if node.vector.len() != config.dimensions {
        errors.push(
            VectorFault::WrongDimensions {
                node: id,
                expected: config.dimensions,
                found: node.vector.len(),
            },
        );
    }
    if node.layer > max_layer {
        errors.push(VectorFault::LayerTooHigh { node: id, layer: node.layer, max_layer });
    }
    let lists: usize = node.neighbors.len();
    if lists == 0 || lists - 1 != node.layer {
        errors.push(VectorFault::WrongLayerCount { node: id, layer: node.layer, lists });
    }
    let ghost e1 = errors@;
    let mut l: usize = 0;
    proof {
        assert(n.neighbors.take(0) =~= Seq::empty());
        assert(e1 + Seq::<VectorFault>::empty() =~= e1);
        assert(w0 + Seq::<VectorWarning>::empty() =~= w0);
    }
    while l < node.neighbors.len()
        invariant
            l <= node.neighbors@.len(),
            pager.wf(),
            pages == pager.pages(),
            n == node@,
            errors@ == e1 + all_bad_links(pages, id, n.neighbors.take(l as int)),
            warnings@ == w0 + long_lists(*config, id, n.neighbors.take(l as int)),
        decreases node.neighbors@.len() - l,
    {
        let ghost e2 = errors@;
        let ghost w2 = warnings@;
        let list = &node.neighbors[l];
        proof {
            assert(n.neighbors.take(l + 1).drop_last() =~= n.neighbors.take(l as int));
            assert(n.neighbors.take(l + 1).last() == list@);
        }
        let max: usize = if l == 0 {
            config.max_connections_layer0
        } else {
            config.max_connections
        };
        if list.len() > max {
            warnings.push(
                VectorWarning::TooManyLinks { node: id, layer: l, links: list.len(), max },
            );
        }
        check_list(pager, id, l, list, errors);
        proof {
            assert(errors@ =~= e1 + all_bad_links(pages, id, n.neighbors.take(l + 1)));
            assert(warnings@ =~= w0 + long_lists(*config, id, n.neighbors.take(l + 1)));
        }
        l += 1;
    }
    proof {
        assert(n.neighbors.take(l as int) =~= n.neighbors);
        assert(errors@ =~= e0 + node_faults(pages, *config, max_layer, id));
    }
}

/// Every link of a readable node of the set leads to a node of the set.
pub open spec fn holds_links(pages: Map<u64, PageView>, set: Set<u32>) -> bool {
    forall|id: u32, l: int, i: int|
        set.contains(id) && node_at(pages, id) is Ok && 0 <= l < node_at(
            pages,
            id,
        )->Ok_0.neighbors.len() && 0 <= i < node_at(pages, id)->Ok_0.neighbors[l].len()
            ==> set.contains(#[trigger] node_at(pages, id)->Ok_0.neighbors[l][i])
}

/// The set is what can be reached from a node over the links of all layers.
pub open spec fn is_reach(pages: Map<u64, PageView>, start: u32, set: Set<u32>) -> bool {
    &&& set.contains(start)
    &&& holds_links(pages, set)
    &&& forall|all: Set<u32>| #[trigger]
        holds_links(pages, all) && all.contains(start) ==> set.subset_of(all)
}

/// So many nodes can be reached from one.
pub open spec fn is_reach_count(pages: Map<u64, PageView>, start: u32, n: usize) -> bool {
    exists|set: Set<u32>| #[trigger] is_reach(pages, start, set) && set.finite() && set.len() == n
}

/// What can be reached from a node is one set: two that satisfy the definition are equal.
pub proof fn law_reach_is_unique(pages: Map<u64, PageView>, start: u32, a: Set<u32>, b: Set<u32>)
    requires
        is_reach(pages, start, a),
        is_reach(pages, start, b),
    ensures
        a == b,
{
    assert(a.subset_of(b));
    assert(b.subset_of(a));
    assert(a =~= b);
}

proof fn lemma_all_numbers()
    ensures
        Set::new(|x: u32| true).finite(),
{
    let all = Set::new(|x: u32| true);
    let range = vstd::set_lib::set_int_range(0, u32::MAX + 1);
    vstd::set_lib::lemma_int_range(0, u32::MAX + 1);
    let f = |i: int| i as u32;
    range.lemma_map_finite(f);
    assert forall|x: u32| #[trigger] all.contains(x) implies range.map(f).contains(x) by {
        assert(range.contains(x as int));
        assert(f(x as int) == x);
    }
    assert(all =~= range.map(f));
}

/// Every link of the nodes in `seen`, but for those of the node `now`, leads to a node that was seen or waits.
spec fn is_covered(
    pages: Map<u64, PageView>,
    seen: Set<u32>,
    waiting: Seq<u32>,
    now: Option<u32>,
) -> bool {
    forall|id: u32, l: int, i: int|
        seen.contains(id) && Some(id) != now && node_at(pages, id) is Ok && 0 <= l < node_at(
            pages,
            id,
        )->Ok_0.neighbors.len() && 0 <= i < node_at(pages, id)->Ok_0.neighbors[l].len()
            ==> seen.contains(#[trigger] node_at(pages, id)->Ok_0.neighbors[l][i])
            || waiting.contains(node_at(pages, id)->Ok_0.neighbors[l][i])
}

/// What was seen and what waits can be reached.
spec fn is_within(pages: Map<u64, PageView>, start: u32, seen: Set<u32>, waiting: Seq<u32>) -> bool {
    forall|all: Set<u32>| #[trigger]
        holds_links(pages, all) && all.contains(start) ==> seen.subset_of(all) && forall|i: int|
            0 <= i < waiting.len() ==> all.contains(#[trigger] waiting[i])
}

fn add_links(
    node: &HnswNode,
    id: u32,
    visited: &HashSet<u32>,
    waiting: &mut Vec<u32>,
    Ghost(pages): Ghost<Map<u64, PageView>>,
    Ghost(start): Ghost<u32>,
)
    requires
        visited@.contains(id),
        node_at(pages, id) == Ok::<NodeView, TableError>(node@),
        is_covered(pages, visited@, old(waiting)@, Some(id)),
        is_within(pages, start, visited@, old(waiting)@),
    ensures
        is_covered(pages, visited@, final(waiting)@, None),
        is_within(pages, start, visited@, final(waiting)@),
        forall|y: u32| old(waiting)@.contains(y) ==> #[trigger] final(waiting)@.contains(y),
{
    let ghost w0 = waiting@;
    let ghost n = node@;
    let mut l: usize = 0;
    while l < node.neighbors.len()
        invariant
            l <= node.neighbors@.len(),
            n == node@,
            visited@.contains(id),
            node_at(pages, id) == Ok::<NodeView, TableError>(n),
            is_covered(pages, visited@, waiting@, Some(id)),
            is_within(pages, start, visited@, waiting@),
            forall|y: u32| w0.contains(y) ==> #[trigger] waiting@.contains(y),
            forall|a: int, i: int|
                0 <= a < l && 0 <= i < n.neighbors[a].len() ==> visited@.contains(
                    #[trigger] n.neighbors[a][i],
                ) || waiting@.contains(n.neighbors[a][i]),
        decreases node.neighbors@.len() - l,
    {
        let list = &node.neighbors[l];
        assert(n.neighbors[l as int] == list@);
        let mut j: usize = 0;
        while j < list.len()
            invariant
                l < node.neighbors@.len(),
                j <= list@.len(),
                n == node@,
                n.neighbors[l as int] == list@,
                visited@.contains(id),
                node_at(pages, id) == Ok::<NodeView, TableError>(n),
                is_covered(pages, visited@, waiting@, Some(id)),
                is_within(pages, start, visited@, waiting@),
                forall|y: u32| w0.contains(y) ==> #[trigger] waiting@.contains(y),
                forall|a: int, i: int|
                    0 <= a < l && 0 <= i < n.neighbors[a].len() ==> visited@.contains(
                        #[trigger] n.neighbors[a][i],
                    ) || waiting@.contains(n.neighbors[a][i]),
                forall|i: int|
                    0 <= i < j ==> visited@.contains(#[trigger] n.neighbors[l as int][i])
                        || waiting@.contains(n.neighbors[l as int][i]),
            decreases list@.len() - j,
        {
            let x: u32 = list[j];
            assert(n.neighbors[l as int][j as int] == x);
            let ghost before = waiting@;
            if !visited.contains(&x) {
                waiting.push(x);
                proof {
                    assert forall|y: u32| before.contains(y) implies #[trigger] waiting@.contains(
                        y,
                    ) by {
                        assert(waiting@[before.index_of(y)] == y);
                    }
                    assert(waiting@[before.len() as int] == x);
                    assert forall|all: Set<u32>| #[trigger]
                        holds_links(pages, all) && all.contains(start) implies visited@.subset_of(
                        all,
                    ) && forall|i: int|
                        0 <= i < waiting@.len() ==> all.contains(#[trigger] waiting@[i]) by {
                        assert(all.contains(id));
                        assert(all.contains(
                            node_at(pages, id)->Ok_0.neighbors[l as int][j as int],
                        ));
                        assert forall|i: int| 0 <= i < waiting@.len() implies all.contains(
                            #[trigger] waiting@[i],
                        ) by {
                            if i < before.len() {
                                assert(waiting@[i] == before[i]);
                            }
                        }
                    }
                }
            }
            j += 1;
        }
        l += 1;
    }
}

/// Counts the nodes that can be reached from one over the links of all layers.
pub fn count_reachable_nodes(pager: &Pager, start: u32) -> (r: usize)
    requires
        pager.wf(),
    ensures
        is_reach_count(pager.pages(), start, r),
{
    broadcast use vstd::std_specs::hash::group_hash_axioms;

    let ghost pages = pager.pages();
    let ghost every = Set::new(|x: u32| true);
    let mut visited: HashSet<u32> = HashSet::new();
    let mut waiting: Vec<u32> = Vec::new();
    waiting.push(start);
    proof {
        lemma_all_numbers();
        assert(waiting@[0] == start);
        assert(is_covered(pages, visited@, waiting@, None));
    }
    while waiting.len() > 0
        invariant
            pager.wf(),
            pages == pager.pages(),
            every == Set::new(|x: u32| true),
            every.finite(),
            visited@.finite(),
            visited@.contains(start) || waiting@.contains(start),
            is_covered(pages, visited@, waiting@, None),
            is_within(pages, start, visited@, waiting@),
        decreases every.difference(visited@).len(), waiting@.len(),
    {
        let ghost w0 = waiting@;
        let ghost v0 = visited@;
        let id: u32 = match waiting.pop() {
            Some(x) => x,
            None => 0,
        };
        proof {
            assert(w0 =~= waiting@.push(id));
            assert forall|y: u32| w0.contains(y) && y != id implies #[trigger] waiting@.contains(
                y,
            ) by {
                let i = w0.index_of(y);
                assert(waiting@[i] == y);
            }
            assert(w0[w0.len() - 1] == id);
            assert forall|all: Set<u32>| #[trigger]
                holds_links(pages, all) && all.contains(start) implies v0.subset_of(all)
                && all.contains(id) && forall|i: int|
                0 <= i < waiting@.len() ==> all.contains(#[trigger] waiting@[i]) by {
                assert(all.contains(w0[w0.len() - 1]));
                assert forall|i: int| 0 <= i < waiting@.len() implies all.contains(
                    #[trigger] waiting@[i],
                ) by {
                    assert(w0[i] == waiting@[i]);
                }
            }
        }
        if !visited.contains(&id) {
            visited.insert(id);
            proof {
                assert(visited@ =~= v0.insert(id));
                assert(every.contains(id));
                assert(every.difference(visited@) =~= every.difference(v0).remove(id));
                assert(every.difference(v0).contains(id));
                assert(is_within(pages, start, visited@, waiting@));
                assert(is_covered(pages, visited@, waiting@, Some(id)));
            }
            match load_node(pager, id) {
                Ok(node) => {
                    add_links(&node, id, &visited, &mut waiting, Ghost(pages), Ghost(start));
                },
                Err(_) => {
                    assert(is_covered(pages, visited@, waiting@, None));
                },
            }
        }
    }
    proof {
        assert(is_reach(pages, start, visited@));
    }
    visited.len()
}

/// How many of the links of a list have one that leads back.
pub open spec fn back_links(pages: Map<u64, PageView>, id: u32, layer: int, list: Seq<u32>) -> int
    decreases list.len(),
{
    if list.len() == 0 {
        0
    } else {
        back_links(pages, id, layer, list.drop_last()) + (if node_at(pages, list.last()) is Ok
            && node_at(pages, list.last())->Ok_0.links(layer).contains(id) {
            1int
        } else {
            0
        })
    }
}

/// How many of the links of all lists have one that leads back.
pub open spec fn all_back_links(pages: Map<u64, PageView>, id: u32, lists: Seq<Seq<u32>>) -> int
    decreases lists.len(),
{
    if lists.len() == 0 {
        0
    } else {
        all_back_links(pages, id, lists.drop_last()) + back_links(
            pages,
            id,
            lists.len() - 1,
            lists.last(),
        )
    }
}

/// How many links there are in the lists.
pub open spec fn link_count(lists: Seq<Seq<u32>>) -> int
    decreases lists.len(),
{
    if lists.len() == 0 {
        0
    } else {
        link_count(lists.drop_last()) + lists.last().len()
    }
}

/// All links of all lists are counted.
pub proof fn law_every_link_is_counted(lists: Seq<Seq<u32>>)
    ensures
        link_count(lists) == lists.flatten().len(),
    decreases lists.len(),
{
    if lists.len() > 0 {
        law_every_link_is_counted(lists.drop_last());
        lists.drop_last().lemma_flatten_push(lists.last());
        assert(lists.drop_last().push(lists.last()) =~= lists);
    }
}

/// A link has one that leads back if the node that it leads to can be read and has a link on the
/// same layer to where it comes from.
pub proof fn law_links_back_are_counted(
    pages: Map<u64, PageView>,
    id: u32,
    layer: int,
    list: Seq<u32>,
)
    ensures
        back_links(pages, id, layer, list) == list.filter(
            |x: u32| node_at(pages, x) is Ok && node_at(pages, x)->Ok_0.links(layer).contains(id),
        ).len(),
    decreases list.len(),
{
    reveal(Seq::filter);
    if list.len() > 0 {
        law_links_back_are_counted(pages, id, layer, list.drop_last());
    }
}

/// How many links the nodes that can be read have on a layer.
pub open spec fn links_on(pages: Map<u64, PageView>, ids: Seq<u32>, layer: int) -> int
    decreases ids.len(),
{
    if ids.len() == 0 {
        0
    } else {
        links_on(pages, ids.drop_last(), layer) + (match node_at(pages, ids.last()) {
            Ok(n) => n.links(layer).len() as int,
            Err(e) => 0,
        })
    }
}

/// How many links the nodes that can be read have.
pub open spec fn total_links(pages: Map<u64, PageView>, ids: Seq<u32>) -> int
    decreases ids.len(),
{
    if ids.len() == 0 {
        0
    } else {
        total_links(pages, ids.drop_last()) + (match node_at(pages, ids.last()) {
            Ok(n) => link_count(n.neighbors),
            Err(e) => 0,
        })
    }
}

/// How many of those links have one that leads back.
pub open spec fn mutual_links(pages: Map<u64, PageView>, ids: Seq<u32>) -> int
    decreases ids.len(),
{
    if ids.len() == 0 {
        0
    } else {
        mutual_links(pages, ids.drop_last()) + (match node_at(pages, ids.last()) {
            Ok(n) => all_back_links(pages, ids.last(), n.neighbors),
            Err(e) => 0,
        })
    }
}

/// The numbers of links on the layers up to the highest one.
pub open spec fn layer_warnings(pages: Map<u64, PageView>, ids: Seq<u32>, max_layer: usize) -> Seq<
    VectorWarning,
> {
    Seq::new(
        (max_layer + 1) as nat,
        |l: int|
            VectorWarning::LayerLinks {
                layer: l as usize,
                links: saturated(links_on(pages, ids, l)) as usize,
                nodes: ids.len() as usize,
            },
    )
}

/// Fewer than nine in ten links have one that leads back, or there are no links.
pub open spec fn is_low(links: int, mutual: int) -> bool {
    links == 0 || mutual * 10 < links * 9
}

/// What a check says of the graph as a whole.
pub open spec fn quality(pages: Map<u64, PageView>, ids: Seq<u32>, max_layer: usize) -> Seq<
    VectorWarning,
> {
    let links = saturated(total_links(pages, ids));
    let mutual = saturated(mutual_links(pages, ids));
    layer_warnings(pages, ids, max_layer) + seq![
        VectorWarning::GraphQuality {
            links: links as usize,
            mutual: mutual as usize,
            nodes: ids.len() as usize,
        },
    ] + only_if(
        is_low(links, mutual),
        VectorWarning::LowReciprocity { links: links as usize, mutual: mutual as usize },
    )
}

/// An index in order has no node that cannot be read, and no link to one.
pub proof fn law_sound_index_is_readable(t: PagedHnswVector, pager: Pager, i: int)
    requires
        t.wf(&pager),
        0 <= i < t.faults(pager.pages()).len(),
    ensures
        !(t.faults(pager.pages())[i] is UnreadableNode),
        !(t.faults(pager.pages())[i] is BadNeighbor),
{
    let pages = pager.pages();
    let ids = ids_in(t.id_to_node);
    assert forall|k: int| 0 <= k < ids.len() implies t.nodes@.contains(#[trigger] ids[k]) by {
        t.id_to_node.lemma_entry(k);
        assert(t.id_to_node@.contains_key(t.id_to_node.entries@[k].0@));
    }
    lemma_readable(pages, t.config, t.max_layer, ids, t.nodes@);
    let first = only_if(
        t.id_to_node.entries@.len() > 0 && t.entry_point is None,
        VectorFault::NoEntryPoint,
    );
    let rest = all_faults(pages, t.config, t.max_layer, ids);
    if i >= first.len() {
        assert(t.faults(pages)[i] == rest[i - first.len()]);
    }
}

spec fn are_readable(fs: Seq<VectorFault>) -> bool {
    forall|i: int|
        0 <= i < fs.len() ==> !(#[trigger] fs[i] is UnreadableNode) && !(fs[i] is BadNeighbor)
}

proof fn lemma_readable(
    pages: Map<u64, PageView>,
    c: HnswConfig,
    max_layer: usize,
    ids: Seq<u32>,
    nodes: Set<u32>,
)
    requires
        is_closed(pages, nodes),
        forall|k: int| 0 <= k < ids.len() ==> nodes.contains(#[trigger] ids[k]),
    ensures
        are_readable(all_faults(pages, c, max_layer, ids)),
    decreases ids.len(),
{
    if ids.len() > 0 {
        let rest = ids.drop_last();
        assert forall|k: int| 0 <= k < rest.len() implies nodes.contains(#[trigger] rest[k]) by {
            assert(rest[k] == ids[k]);
        }
        lemma_readable(pages, c, max_layer, rest, nodes);
        let id = ids[ids.len() - 1];
        assert(nodes.contains(id));
        let n = node_at(pages, id)->Ok_0;
        lemma_no_bad_links(pages, id, n.neighbors, nodes);
    }
}

proof fn lemma_no_bad_links(
    pages: Map<u64, PageView>,
    id: u32,
    lists: Seq<Seq<u32>>,
    nodes: Set<u32>,
)
    requires
        is_closed(pages, nodes),
        forall|l: int, i: int|
            0 <= l < lists.len() && 0 <= i < lists[l].len() ==> nodes.contains(
                #[trigger] lists[l][i],
            ),
    ensures
        all_bad_links(pages, id, lists).len() == 0,
    decreases lists.len(),
{
    if lists.len() > 0 {
        let rest = lists.drop_last();
        assert forall|l: int, i: int|
            0 <= l < rest.len() && 0 <= i < rest[l].len() implies nodes.contains(
            #[trigger] rest[l][i],
        ) by {
            assert(rest[l][i] == lists[l][i]);
        }
        lemma_no_bad_links(pages, id, rest, nodes);
        let list = lists.last();
        assert forall|i: int| 0 <= i < list.len() implies nodes.contains(#[trigger] list[i]) by {
            assert(lists[lists.len() - 1][i] == list[i]);
        }
        lemma_no_bad_link(pages, id, lists.len() - 1, list, nodes);
    }
}

proof fn lemma_no_bad_link(
    pages: Map<u64, PageView>,
    id: u32,
    layer: int,
    list: Seq<u32>,
    nodes: Set<u32>,
)
    requires
        is_closed(pages, nodes),
        forall|i: int| 0 <= i < list.len() ==> nodes.contains(#[trigger] list[i]),
    ensures
        bad_links(pages, id, layer, list).len() == 0,
    decreases list.len(),
{
    if list.len() > 0 {
        let rest = list.drop_last();
        assert forall|i: int| 0 <= i < rest.len() implies nodes.contains(#[trigger] rest[i]) by {
            assert(rest[i] == list[i]);
        }
        lemma_no_bad_link(pages, id, layer, rest, nodes);
        assert(nodes.contains(list[list.len() - 1]));
    }
}

fn count_back(pager: &Pager, id: u32, layer: usize, list: &Vec<u32>) -> (r: usize)
    requires
        pager.wf(),
    ensures
        r == back_links(pager.pages(), id, layer as int, list@),
{
    let ghost pages = pager.pages();
    let mut count: usize = 0;
    let mut i: usize = 0;
    assert(list@.take(0) =~= Seq::empty());
    while i < list.len()
        invariant
            i <= list@.len(),
            pager.wf(),
            pages == pager.pages(),
            count <= i,
            count == back_links(pages, id, layer as int, list@.take(i as int)),
        decreases list@.len() - i,
    {
        proof {
            assert(list@.take(i + 1).drop_last() =~= list@.take(i as int));
            assert(list@.take(i + 1).last() == list@[i as int]);
        }
        if let Ok(other) = load_node(pager, list[i]) {
            if layer < other.neighbors.len() {
                assert(other@.links(layer as int) == other.neighbors@[layer as int]@);
                if contains(&other.neighbors[layer], id) {
                    count += 1;
                }
            }
        }
        i += 1;
    }
    assert(list@.take(i as int) =~= list@);
    count
}

fn count_node(pager: &Pager, id: u32, node: &HnswNode) -> (r: (usize, usize))
    requires
        pager.wf(),
    ensures
        r.0 == saturated(link_count(node@.neighbors)),
        r.1 == saturated(all_back_links(pager.pages(), id, node@.neighbors)),
        link_count(node@.neighbors) >= 0,
        all_back_links(pager.pages(), id, node@.neighbors) >= 0,
{
    let ghost pages = pager.pages();
    let ghost lists = node@.neighbors;
    let mut links: usize = 0;
    let mut mutual: usize = 0;
    let mut l: usize = 0;
    assert(lists.take(0) =~= Seq::empty());
    while l < node.neighbors.len()
        invariant
            l <= node.neighbors@.len(),
            pager.wf(),
            pages == pager.pages(),
            lists == node@.neighbors,
            links == saturated(link_count(lists.take(l as int))),
            mutual == saturated(all_back_links(pages, id, lists.take(l as int))),
            link_count(lists.take(l as int)) >= 0,
            all_back_links(pages, id, lists.take(l as int)) >= 0,
        decreases node.neighbors@.len() - l,
    {
        let list = &node.neighbors[l];
        proof {
            assert(lists.take(l + 1).drop_last() =~= lists.take(l as int));
            assert(lists.take(l + 1).last() == list@);
        }
        links = links.saturating_add(list.len());
        mutual = mutual.saturating_add(count_back(pager, id, l, list));
        l += 1;
    }
    assert(lists.take(l as int) =~= lists);
    (links, mutual)
}

fn count_layer(pager: &Pager, map: &ByteMap<u32>, layer: usize) -> (r: usize)
    requires
        pager.wf(),
    ensures
        r == saturated(links_on(pager.pages(), ids_in(*map), layer as int)),
{
    let ghost pages = pager.pages();
    let ghost ids = ids_in(*map);
    let mut links: usize = 0;
    let mut i: usize = 0;
    assert(ids.take(0) =~= Seq::empty());
    while i < map.entries.len()
        invariant
            i <= map.entries@.len(),
            pager.wf(),
            pages == pager.pages(),
            ids == ids_in(*map),
            links == saturated(links_on(pages, ids.take(i as int), layer as int)),
            links_on(pages, ids.take(i as int), layer as int) >= 0,
        decreases map.entries@.len() - i,
    {
        let id: u32 = map.entries[i].1;
        proof {
            assert(ids.take(i + 1).drop_last() =~= ids.take(i as int));
            assert(ids.take(i + 1).last() == id);
        }
        if let Ok(node) = load_node(pager, id) {
            if layer < node.neighbors.len() {
                assert(node@.links(layer as int) == node.neighbors@[layer as int]@);
                links = links.saturating_add(node.neighbors[layer].len());
            }
        }
        i += 1;
    }
    assert(ids.take(i as int) =~= ids);
    links
}

fn check_quality(
    pager: &Pager,
    map: &ByteMap<u32>,
    max_layer: usize,
    warnings: &mut Vec<VectorWarning>,
)
    requires
        pager.wf(),
        max_layer < usize::MAX,
    ensures
        final(warnings)@ == old(warnings)@ + quality(pager.pages(), ids_in(*map), max_layer),
{
    let ghost pages = pager.pages();
    let ghost ids = ids_in(*map);
    let ghost w0 = warnings@;
    let ghost per_layer = layer_warnings(pages, ids, max_layer);
    let nodes: usize = map.entries.len();
    let mut l: usize = 0;
    assert(w0 + per_layer.take(0) =~= w0);
    while l < max_layer + 1
        invariant
            l <= max_layer + 1,
            max_layer < usize::MAX,
            pager.wf(),
            pages == pager.pages(),
            ids == ids_in(*map),
            nodes == map.entries@.len(),
            per_layer == layer_warnings(pages, ids, max_layer),
            warnings@ == w0 + per_layer.take(l as int),
        decreases max_layer + 1 - l,
    {
        let links: usize = count_layer(pager, map, l);
        warnings.push(VectorWarning::LayerLinks { layer: l, links, nodes });
        proof {
            assert(per_layer[l as int] == VectorWarning::LayerLinks { layer: l, links, nodes });
            assert(warnings@ =~= w0 + per_layer.take(l + 1));
        }
        l += 1;
    }
    assert(per_layer.take(l as int) =~= per_layer);
    let mut links: usize = 0;
    let mut mutual: usize = 0;
    let mut i: usize = 0;
    assert(ids.take(0) =~= Seq::empty());
    while i < map.entries.len()
        invariant
            i <= map.entries@.len(),
            pager.wf(),
            pages == pager.pages(),
            ids == ids_in(*map),
            links == saturated(total_links(pages, ids.take(i as int))),
            mutual == saturated(mutual_links(pages, ids.take(i as int))),
            total_links(pages, ids.take(i as int)) >= 0,
            mutual_links(pages, ids.take(i as int)) >= 0,
        decreases map.entries@.len() - i,
    {
        let id: u32 = map.entries[i].1;
        proof {
            assert(ids.take(i + 1).drop_last() =~= ids.take(i as int));
            assert(ids.take(i + 1).last() == id);
        }
        if let Ok(node) = load_node(pager, id) {
            let (a, b) = count_node(pager, id, &node);
            links = links.saturating_add(a);
            mutual = mutual.saturating_add(b);
        }
        i += 1;
    }
    assert(ids.take(i as int) =~= ids);
    warnings.push(VectorWarning::GraphQuality { links, mutual, nodes });
    if links == 0 || (mutual as u128) * 10 < (links as u128) * 9 {
        warnings.push(VectorWarning::LowReciprocity { links, mutual });
    }
    proof {
        assert(warnings@ =~= w0 + quality(pages, ids, max_layer));
    }
}

/// The warning that tells what a cache has counted.
pub open spec fn cache_warning(stats: NodeCacheStats) -> VectorWarning {
    VectorWarning::NodeCache {
        hits: stats.hits,
        misses: stats.misses,
        evictions: stats.evictions,
    }
}

impl PagedHnswVector {
    /// The faults that a check finds.
    pub open spec fn faults(&self, pages: Map<u64, PageView>) -> Seq<VectorFault> {
        only_if(
            self.id_to_node.entries@.len() > 0 && self.entry_point is None,
            VectorFault::NoEntryPoint,
        ) + all_faults(pages, self.config, self.max_layer, ids_in(self.id_to_node))
    }

    /// The warnings that a check gives, where so many nodes can be reached.
    pub open spec fn cautions(
        &self,
        pages: Map<u64, PageView>,
        reachable: usize,
        stats: NodeCacheStats,
    ) -> Seq<VectorWarning> {
        let ids = ids_in(self.id_to_node);
        let nodes = ids.len() as usize;
        all_warnings(pages, self.config, ids) + only_if(
            nodes > 0 && self.entry_point is Some && reachable < nodes,
            VectorWarning::Disconnected { nodes, reachable },
        ) + (if nodes > 0 {
            quality(pages, ids, self.max_layer)
        } else {
            Seq::empty()
        }) + seq![cache_warning(stats)]
    }

    /// Checks the nodes of all vectors and the graph as a whole, and tells what the cache has
    /// counted.
    pub fn verify(&self, pager: &Pager, cache: &NodeCache) -> (r: VectorReport)
        requires
            pager.wf(),
            self.max_layer < usize::MAX,
        ensures
            r.checked_items == self.id_to_node.entries@.len(),
            r.errors@ == self.faults(pager.pages()),
            exists|n: usize|
                (self.entry_point matches Some(ep) ==> is_reach_count(pager.pages(), ep, n))
                    && r.warnings@ == #[trigger] self.cautions(pager.pages(), n, cache.stats),
    {
        let ghost pages = pager.pages();
        let ghost ids = ids_in(self.id_to_node);
        let mut errors: Vec<VectorFault> = Vec::new();
        let mut warnings: Vec<VectorWarning> = Vec::new();
        let nodes: usize = self.id_to_node.entries.len();
        if nodes > 0 && self.entry_point.is_none() {
            errors.push(VectorFault::NoEntryPoint);
        }
        let ghost e0 = errors@;
        let mut i: usize = 0;
        proof {
            assert(ids.take(0) =~= Seq::empty());
            assert(e0 =~= only_if(
                nodes > 0 && self.entry_point is None,
                VectorFault::NoEntryPoint,
            ));
            assert(e0 + Seq::<VectorFault>::empty() =~= e0);
        }
        while i < nodes
            invariant
                i <= nodes == self.id_to_node.entries@.len(),
                pager.wf(),
                pages == pager.pages(),
                ids == ids_in(self.id_to_node),
                errors@ == e0 + all_faults(pages, self.config, self.max_layer, ids.take(i as int)),
                warnings@ == all_warnings(pages, self.config, ids.take(i as int)),
            decreases nodes - i,
        {
            let id: u32 = self.id_to_node.entries[i].1;
            proof {
                assert(ids.take(i + 1).drop_last() =~= ids.take(i as int));
                assert(ids.take(i + 1).last() == id);
            }
            check_node(pager, &self.config, self.max_layer, id, &mut errors, &mut warnings);
            proof {
                assert(errors@ =~= e0 + all_faults(
                    pages,
                    self.config,
                    self.max_layer,
                    ids.take(i + 1),
                ));
            }
            i += 1;
        }
        assert(ids.take(i as int) =~= ids);
        let ghost w1 = warnings@;
        let mut reachable: usize = 0;
        if let Some(ep) = self.entry_point {
            reachable = count_reachable_nodes(pager, ep);
            if nodes > 0 && reachable < nodes {
                warnings.push(VectorWarning::Disconnected { nodes, reachable });
            }
        }
        let ghost w2 = warnings@;
        proof {
            assert(w2 =~= w1 + only_if(
                nodes > 0 && self.entry_point is Some && reachable < nodes,
                VectorWarning::Disconnected { nodes, reachable },
            ));
        }
        if nodes > 0 {
            check_quality(pager, &self.id_to_node, self.max_layer, &mut warnings);
        }
        let counts = cache.stats;
        warnings.push(
            VectorWarning::NodeCache {
                hits: counts.hits,
                misses: counts.misses,
                evictions: counts.evictions,
            },
        );
        proof {
            assert(warnings@ =~= self.cautions(pages, reachable, counts));
        }
        VectorReport { checked_items: nodes, errors, warnings }
    }
}

} // verus!
