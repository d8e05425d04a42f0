//! Changing the links of a vector index.
use crate::hnsw::node::{
    list_bytes, lists_of, load_node, node_at, node_bytes, update_node, with_node, words, HnswNode,
    NodeView,
};
use crate::hnsw::search::{
    among, by_distance, is_closed, is_distance, is_exact, is_selection, law_by_distance_is_sorted,
    links_at, node_ids, select_neighbors, sort_candidates, vector_at, Candidate,
};
use crate::pager::{PageView, Pager, PagerError};
use crate::table::{TableError, TableResult};
use vstd::bytes::*;
use vstd::prelude::*;

verus! {

/// The lists with room for the layer.
pub open spec fn with_layer(lists: Seq<Seq<u32>>, layer: int) -> Seq<Seq<u32>> {
    if layer < lists.len() {
        lists
    } else {
        lists + Seq::new((layer + 1 - lists.len()) as nat, |i: int| Seq::<u32>::empty())
    }
}

/// The node with a link on a layer.
pub open spec fn with_link(n: NodeView, layer: int, to: u32) -> NodeView {
    let lists = with_layer(n.neighbors, layer);
    NodeView {
        neighbors: lists.update(
            layer,
            if lists[layer].contains(to) {
                lists[layer]
            } else {
                lists[layer].push(to)
            },
        ),
        ..n
    }
}

/// The node with links to several on a layer, for which there is room even if there are none.
pub open spec fn with_links(n: NodeView, layer: int, to: Seq<u32>) -> NodeView
    decreases to.len(),
{
    if to.len() == 0 {
        NodeView { neighbors: with_layer(n.neighbors, layer), ..n }
    } else {
        with_link(with_links(n, layer, to.drop_last()), layer, to.last())
    }
}

/// The list without a node.
pub open spec fn list_without(list: Seq<u32>, x: u32) -> Seq<u32>
    decreases list.len(),
{
    if list.len() == 0 {
        Seq::empty()
    } else {
        let before = list_without(list.drop_last(), x);
        if list.last() == x {
            before
        } else {
            before.push(list.last())
        }
    }
}

/// The node without a link on a layer.
pub open spec fn without_link(n: NodeView, layer: int, to: u32) -> NodeView {
    NodeView {
        neighbors: n.neighbors.update(layer, list_without(n.neighbors[layer], to)),
        ..n
    }
}

/// A new link stands on its layer, every link that was there stays, and the other layers keep
/// theirs.
pub proof fn law_link_is_added(n: NodeView, layer: int, to: u32, k: int)
    requires
        0 <= layer,
        0 <= k < n.neighbors.len(),
    ensures
        with_link(n, layer, to).neighbors.len() >= n.neighbors.len(),
        0 <= layer < with_link(n, layer, to).neighbors.len(),
        with_link(n, layer, to).neighbors[layer].contains(to),
        k != layer ==> with_link(n, layer, to).neighbors[k] == n.neighbors[k],
        k == layer ==> with_link(n, layer, to).neighbors[k] == (if n.neighbors[k].contains(to) {
            n.neighbors[k]
        } else {
            n.neighbors[k].push(to)
        }),
        with_link(n, layer, to).vector == n.vector,
        with_link(n, layer, to).id == n.id,
{
    let lists = with_layer(n.neighbors, layer);
    let after = with_link(n, layer, to).neighbors[layer];
    if !lists[layer].contains(to) {
        assert(after[after.len() - 1] == to);
    }
}

/// A list without a node keeps all the others, in their order.
pub proof fn law_list_keeps_others(list: Seq<u32>, x: u32)
    ensures
        list_without(list, x) == list.filter(|y: u32| y != x),
        !list_without(list, x).contains(x),
    decreases list.len(),
{
    reveal(Seq::filter);
    if list.len() > 0 {
        law_list_keeps_others(list.drop_last(), x);
        let before = list_without(list.drop_last(), x);
        if list_without(list, x).contains(x) {
            let i = list_without(list, x).index_of(x);
            if i < before.len() {
                assert(before[i] == x);
            }
        }
    } else {
        assert(list =~= Seq::empty());
    }
}

/// The pages after a link was added.
pub open spec fn linked(pages: Map<u64, PageView>, from: u32, layer: int, to: u32) -> Map<
    u64,
    PageView,
> {
    with_node(pages, from, with_link(node_at(pages, from)->Ok_0, layer, to))
}

/// The pages after a link was removed.
pub open spec fn unlinked(pages: Map<u64, PageView>, from: u32, layer: int, to: u32) -> Map<
    u64,
    PageView,
> {
    if layer < node_at(pages, from)->Ok_0.neighbors.len() {
        with_node(pages, from, without_link(node_at(pages, from)->Ok_0, layer, to))
    } else {
        pages
    }
}

/// The pages after links from one node to several were added.
pub open spec fn linked_from(pages: Map<u64, PageView>, from: u32, layer: int, to: Seq<u32>) -> Map<
    u64,
    PageView,
> {
    with_node(pages, from, with_links(node_at(pages, from)->Ok_0, layer, to))
}

/// The pages after links from several nodes to one were added.
pub open spec fn linked_to(pages: Map<u64, PageView>, from: Seq<u32>, layer: int, to: u32) -> Map<
    u64,
    PageView,
>
    decreases from.len(),
{
    if from.len() == 0 {
        pages
    } else {
        linked(linked_to(pages, from.drop_last(), layer, to), from.last(), layer, to)
    }
}

/// The pages after links from several nodes to one were removed.
pub open spec fn unlinked_to(pages: Map<u64, PageView>, from: Seq<u32>, layer: int, to: u32) -> Map<
    u64,
    PageView,
>
    decreases from.len(),
{
    if from.len() == 0 {
        pages
    } else {
        unlinked(unlinked_to(pages, from.drop_last(), layer, to), from.last(), layer, to)
    }
}

/// The nodes are the same but for their links, their links still lead to one another, and nothing
/// else has changed.
pub open spec fn is_relinked(
    before: Map<u64, PageView>,
    after: Map<u64, PageView>,
    nodes: Set<u32>,
) -> bool {
    &&& is_closed(after, nodes)
    &&& before.dom() == after.dom()
    &&& forall|id: u32| #[trigger]
        nodes.contains(id) ==> node_at(after, id)->Ok_0.same_but_links(node_at(before, id)->Ok_0)
    &&& forall|p: u64|
        (p > u32::MAX || !nodes.contains(p as u32)) && before.contains_key(p)
            ==> #[trigger] after[p] == before[p]
}

/// Relinking twice is relinking.
pub proof fn lemma_relinked_twice(
    a: Map<u64, PageView>,
    b: Map<u64, PageView>,
    c: Map<u64, PageView>,
    nodes: Set<u32>,
)
    requires
        is_relinked(a, b, nodes),
        is_relinked(b, c, nodes),
    ensures
        is_relinked(a, c, nodes),
{
    assert forall|id: u32| #[trigger] nodes.contains(id) implies node_at(
        c,
        id,
    )->Ok_0.same_but_links(node_at(a, id)->Ok_0) by {
        assert(node_at(b, id)->Ok_0.same_but_links(node_at(a, id)->Ok_0));
    }
    assert forall|p: u64|
        (p > u32::MAX || !nodes.contains(p as u32)) && a.contains_key(p) implies #[trigger] c[p]
        == a[p] by {
        assert(b[p] == a[p]);
        assert(b.contains_key(p));
    }
}

pub(crate) proof fn lemma_layer_fits(pages: Map<u64, PageView>, id: u32)
    requires
        node_at(pages, id) is Ok,
    ensures
        node_at(pages, id)->Ok_0.layer <= u32::MAX,
{
}

/// A node was written over with links that lead to known nodes.
proof fn lemma_rewritten(
    pages: Map<u64, PageView>,
    after: Map<u64, PageView>,
    nodes: Set<u32>,
    id: u32,
    n: NodeView,
)
    requires
        is_closed(pages, nodes),
        nodes.contains(id),
        after == with_node(pages, id, n),
        node_at(after, id) == Ok::<NodeView, TableError>(n),
        n.same_but_links(node_at(pages, id)->Ok_0),
        forall|l: int, i: int|
            0 <= l < n.neighbors.len() && 0 <= i < n.neighbors[l].len() ==> nodes.contains(
                #[trigger] n.neighbors[l][i],
            ),
    ensures
        is_relinked(pages, after, nodes),
{
    reveal(is_exact);
    assert(pages.contains_key(id as u64));
    assert(after.dom() =~= pages.dom());
    assert forall|x: u32| #[trigger] nodes.contains(x) implies node_at(after, x) is Ok && is_exact(
        after,
        x,
    ) && forall|l: int, i: int|
        0 <= l < node_at(after, x)->Ok_0.neighbors.len() && 0 <= i < node_at(
            after,
            x,
        )->Ok_0.neighbors[l].len() ==> nodes.contains(
            #[trigger] node_at(after, x)->Ok_0.neighbors[l][i],
        ) by {
        if x != id {
            assert(node_at(after, x) == node_at(pages, x));
            assert(is_exact(pages, x));
        }
    }
    assert forall|x: u32| #[trigger] nodes.contains(x) implies node_at(
        after,
        x,
    )->Ok_0.same_but_links(node_at(pages, x)->Ok_0) by {
        if x != id {
            assert(node_at(after, x) == node_at(pages, x));
        }
    }
}

/// No node got a link on any layer that it did not have, but for those from `from` to `to` and
/// back on the one layer.
pub open spec fn adds_only(
    before: Map<u64, PageView>,
    after: Map<u64, PageView>,
    nodes: Set<u32>,
    layer: int,
    one: u32,
    others: Seq<u32>,
) -> bool {
    forall|id: u32, l: int, x: u32|
        nodes.contains(id) && #[trigger] links_at(after, id, l).contains(x) ==> links_at(
            before,
            id,
            l,
        ).contains(x) || (l == layer && ((id == one && others.contains(x)) || (others.contains(id)
            && x == one)))
}

proof fn lemma_with_link(n: NodeView, layer: int, to: u32)
    requires
        0 <= layer,
    ensures
        with_link(n, layer, to).same_but_links(n),
        forall|l: int, x: u32| #[trigger]
            with_link(n, layer, to).links(l).contains(x) <==> n.links(l).contains(x) || (l == layer
                && x == to),
        forall|l: int, i: int|
            0 <= l < with_link(n, layer, to).neighbors.len() && 0 <= i < with_link(
                n,
                layer,
                to,
            ).neighbors[l].len() ==> with_link(n, layer, to).links(l).contains(
                #[trigger] with_link(n, layer, to).neighbors[l][i],
            ),
        0 <= layer < with_link(n, layer, to).neighbors.len(),
{
    let m = with_link(n, layer, to);
    let lists = with_layer(n.neighbors, layer);
    assert forall|l: int, x: u32| #[trigger] m.links(l).contains(x) <==> n.links(l).contains(x) || (
    l == layer && x == to) by {
        if l == layer {
            let list = lists[layer];
            if !list.contains(to) {
                let longer = list.push(to);
                assert(longer.contains(x) <==> list.contains(x) || x == to) by {
                    if list.contains(x) {
                        let i = list.index_of(x);
                        assert(longer[i] == x);
                    }
                    if x == to {
                        assert(longer[list.len() as int] == x);
                    }
                    if longer.contains(x) {
                        let i = longer.index_of(x);
                        if i < list.len() {
                            assert(list[i] == x);
                        }
                    }
                }
            }
            assert(m.links(l) == (if list.contains(to) {
                list
            } else {
                list.push(to)
            }));
            assert(n.links(l).contains(x) <==> list.contains(x));
        } else if 0 <= l < lists.len() {
            assert(m.links(l) == lists[l]);
            assert(n.links(l) =~= lists[l]);
        }
    }
    assert forall|l: int, i: int|
        0 <= l < m.neighbors.len() && 0 <= i < m.neighbors[l].len() implies m.links(l).contains(
        #[trigger] m.neighbors[l][i],
    ) by {
        assert(m.links(l) == m.neighbors[l]);
    }
}

proof fn lemma_with_links(n: NodeView, layer: int, to: Seq<u32>)
    requires
        0 <= layer,
    ensures
        with_links(n, layer, to).same_but_links(n),
        forall|l: int, x: u32| #[trigger]
            with_links(n, layer, to).links(l).contains(x) <==> n.links(l).contains(x) || (l == layer
                && to.contains(x)),
        0 <= layer < with_links(n, layer, to).neighbors.len(),
    decreases to.len(),
{
    let m = with_links(n, layer, to);
    if to.len() == 0 {
        assert forall|l: int, x: u32| #[trigger] m.links(l).contains(x) <==> n.links(l).contains(
            x,
        ) by {
            assert(m.links(l) =~= n.links(l));
        }
    } else {
        let t = to.drop_last();
        let before = with_links(n, layer, t);
        lemma_with_links(n, layer, t);
        lemma_with_link(before, layer, to.last());
        assert forall|l: int, x: u32| #[trigger] m.links(l).contains(x) <==> n.links(l).contains(x)
            || (l == layer && to.contains(x)) by {
            lemma_pushed(t, to.last(), x);
            assert(t.push(to.last()) =~= to);
            assert(before.links(l).contains(x) <==> n.links(l).contains(x) || (l == layer
                && t.contains(x)));
        }
    }
}

pub(crate) fn contains(list: &Vec<u32>, x: u32) -> (r: bool)
    ensures
        r == list@.contains(x),
{
    let mut i: usize = 0;
    while i < list.len()
        invariant
            i <= list@.len(),
            forall|k: int| 0 <= k < i ==> #[trigger] list@[k] != x,
        decreases list@.len() - i,
    {
        if list[i] == x {
            assert(list@[i as int] == x);
            return true;
        }
        i += 1;
    }
    false
}

/// A link more would make a node longer than a page.
#[verifier::opaque]
pub open spec fn too_long(
    pages: Map<u64, PageView>,
    from: u32,
    layer: int,
    to: u32,
    capacity: nat,
) -> bool {
    node_bytes(with_link(node_at(pages, from)->Ok_0, layer, to)).len() > capacity
}

/// Links to several would make a node longer than a page.
#[verifier::opaque]
pub open spec fn too_long_with(
    pages: Map<u64, PageView>,
    from: u32,
    layer: int,
    to: Seq<u32>,
    capacity: nat,
) -> bool {
    node_bytes(with_links(node_at(pages, from)->Ok_0, layer, to)).len() > capacity
}

/// The links from a node to others do not fit its page, or one of those back, made one after the
/// other, finds a page too small.
pub open spec fn overflows(
    pages: Map<u64, PageView>,
    id: u32,
    others: Seq<u32>,
    layer: int,
    capacity: nat,
) -> bool {
    let mid = linked_from(pages, id, layer, others);
    ||| too_long_with(pages, id, layer, others, capacity)
    ||| exists|k: int|
        0 <= k < others.len() && #[trigger] too_long(
            linked_to(mid, others.take(k), layer, id),
            others[k],
            layer,
            id,
            capacity,
        )
}

proof fn lemma_words_len(s: Seq<u32>)
    ensures
        words(s).len() == 4 * s.len(),
    decreases s.len(),
{
    lemma_auto_spec_u32_to_from_le_bytes();
    if s.len() > 0 {
        lemma_words_len(s.drop_first());
    }
}

proof fn lemma_list_bytes_len(lists: Seq<Seq<u32>>, layer: int, list: Seq<u32>)
    requires
        0 <= layer < lists.len(),
        list.len() <= lists[layer].len(),
    ensures
        list_bytes(lists.update(layer, list)).len() <= list_bytes(lists).len(),
    decreases lists.len(),
{
    lemma_auto_spec_u32_to_from_le_bytes();
    let other = lists.update(layer, list);
    lemma_words_len(lists[0]);
    lemma_words_len(other[0]);
    if layer == 0 {
        assert(other.drop_first() =~= lists.drop_first());
    } else {
        lemma_list_bytes_len(lists.drop_first(), layer - 1, list);
        assert(other.drop_first() =~= lists.drop_first().update(layer - 1, list));
    }
}

/// A node with fewer links takes up no more.
proof fn lemma_fewer_links(n: NodeView, layer: int, list: Seq<u32>)
    requires
        0 <= layer < n.neighbors.len(),
        list.len() <= n.neighbors[layer].len(),
    ensures
        node_bytes(NodeView { neighbors: n.neighbors.update(layer, list), ..n }).len()
            <= node_bytes(n).len(),
{
    lemma_auto_spec_u32_to_from_le_bytes();
    lemma_list_bytes_len(n.neighbors, layer, list);
}

proof fn lemma_list_without_len(list: Seq<u32>, x: u32)
    ensures
        list_without(list, x).len() <= list.len(),
    decreases list.len(),
{
    if list.len() > 0 {
        lemma_list_without_len(list.drop_last(), x);
    }
}

/// The nodes of a graph fit their pages.
proof fn lemma_node_fits(pager: &Pager, nodes: Set<u32>, id: u32)
    requires
        pager.wf(),
        is_closed(pager.pages(), nodes),
        nodes.contains(id),
    ensures
        node_bytes(node_at(pager.pages(), id)->Ok_0).len() <= pager.capacity(),
        pager.pages().contains_key(id as u64),
{
    reveal(is_exact);
    let pages = pager.pages();
    assert(node_at(pages, id) is Ok);
    assert(pages.contains_key(id as u64));
    assert(pager.slots@[id as int] is Some);
}

/// Gives a node an empty list of links for each layer up to the one that it has none for.
fn make_room(node: &mut HnswNode, layer: usize)
    requires
        layer < usize::MAX,
    ensures
        final(node)@ == (NodeView {
            neighbors: with_layer(old(node)@.neighbors, layer as int),
            ..old(node)@
        }),
{
    let ghost n0 = node@;
    while node.neighbors.len() <= layer
        invariant
            layer < usize::MAX,
            node.id@ == n0.id,
            node.vector@ == n0.vector,
            node.layer == n0.layer,
            node.version_chain@ == n0.versions,
            node.neighbors@.len() >= n0.neighbors.len(),
            node.neighbors@.len() > n0.neighbors.len() ==> node.neighbors@.len() <= layer + 1,
            forall|i: int|
                0 <= i < node.neighbors@.len() ==> (#[trigger] node.neighbors@[i])@ == (if i
                    < n0.neighbors.len() {
                    n0.neighbors[i]
                } else {
                    Seq::empty()
                }),
        decreases layer + 1 - node.neighbors@.len(),
    {
        node.neighbors.push(Vec::new());
    }
    proof {
        assert(node@.neighbors =~= with_layer(n0.neighbors, layer as int));
    }
}

/// Adds a link to a node on a layer that it has a list for, if it is not there.
fn add_link(node: &mut HnswNode, layer: usize, to: u32)
    requires
        layer < old(node)@.neighbors.len(),
    ensures
        final(node)@ == with_link(old(node)@, layer as int, to),
{
    let ghost before = node@.neighbors;
    if !contains(&node.neighbors[layer], to) {
        node.neighbors[layer].push(to);
        assert(node@.neighbors =~= before.update(layer as int, before[layer as int].push(to)));
    } else {
        assert(before =~= before.update(layer as int, before[layer as int]));
    }
}

/// Adds a link from one node to another on a layer, if it is not there.
fn link(
    pager: &mut Pager,
    from: u32,
    layer: usize,
    to: u32,
    Ghost(nodes): Ghost<Set<u32>>,
) -> (r: TableResult<()>)
    requires
        old(pager).wf(),
        is_closed(old(pager).pages(), nodes),
        nodes.contains(from),
        nodes.contains(to),
        layer < usize::MAX,
    ensures
        final(pager).wf(),
        final(pager).same_meta(old(pager)),
        final(pager).slots@.len() == old(pager).slots@.len(),
        is_relinked(old(pager).pages(), final(pager).pages(), nodes),
        r is Ok <==> !too_long(old(pager).pages(), from, layer as int, to, old(pager).capacity()),
        r is Ok ==> final(pager).pages() == linked(old(pager).pages(), from, layer as int, to)
            && node_at(final(pager).pages(), from) == Ok::<NodeView, TableError>(
            with_link(node_at(old(pager).pages(), from)->Ok_0, layer as int, to),
        ),
        r is Err ==> final(pager).pages() == old(pager).pages(),
        r matches Err(e) ==> e matches TableError::Pager(PagerError::PageOverflow { .. }),
{
    let ghost pages = pager.pages();
    let mut node = match load_node(pager, from) {
        Ok(n) => n,
        Err(e) => return Err(e),
    };
    let ghost n0 = node@;
    proof {
        lemma_layer_fits(pages, from);
        lemma_node_fits(pager, nodes, from);
        lemma_with_link(n0, layer as int, to);
        assert(is_relinked(pages, pages, nodes));
    }
    make_room(&mut node, layer);
    add_link(&mut node, layer, to);
    assert(node@ == with_link(n0, layer as int, to));
    proof {
        reveal(too_long);
    }
    match update_node(pager, from, &node) {
        Ok(()) => {
            proof {
                let n = node@;
                assert forall|l: int, i: int|
                    0 <= l < n.neighbors.len() && 0 <= i < n.neighbors[l].len() implies nodes.contains(
                #[trigger] n.neighbors[l][i]) by {
                    let x = n.neighbors[l][i];
                    assert(n.links(l).contains(x));
                    if n0.links(l).contains(x) {
                        let k = n0.links(l).index_of(x);
                        assert(node_at(pages, from)->Ok_0.neighbors[l][k] == x);
                    }
                }
                lemma_rewritten(pages, pager.pages(), nodes, from, n);
            }
            Ok(())
        },
        Err(e) => Err(e),
    }
}

/// Adds links from one node to others on a layer, as far as they are not there.
fn link_all(
    pager: &mut Pager,
    from: u32,
    layer: usize,
    to: &Vec<u32>,
    Ghost(nodes): Ghost<Set<u32>>,
) -> (r: TableResult<()>)
    requires
        old(pager).wf(),
        is_closed(old(pager).pages(), nodes),
        nodes.contains(from),
        forall|i: int| 0 <= i < to@.len() ==> nodes.contains(#[trigger] to@[i]),
        layer < usize::MAX,
    ensures
        final(pager).wf(),
        final(pager).same_meta(old(pager)),
        final(pager).slots@.len() == old(pager).slots@.len(),
        is_relinked(old(pager).pages(), final(pager).pages(), nodes),
        r is Ok <==> !too_long_with(
            old(pager).pages(),
            from,
            layer as int,
            to@,
            old(pager).capacity(),
        ),
        r is Ok ==> final(pager).pages() == linked_from(
            old(pager).pages(),
            from,
            layer as int,
            to@,
        ) && node_at(final(pager).pages(), from) == Ok::<NodeView, TableError>(
            with_links(node_at(old(pager).pages(), from)->Ok_0, layer as int, to@),
        ),
        r is Err ==> final(pager).pages() == old(pager).pages(),
        r matches Err(e) ==> e matches TableError::Pager(PagerError::PageOverflow { .. }),
{
    let ghost pages = pager.pages();
    let mut node = match load_node(pager, from) {
        Ok(n) => n,
        Err(e) => return Err(e),
    };
    let ghost n0 = node@;
    proof {
        lemma_layer_fits(pages, from);
        lemma_node_fits(pager, nodes, from);
        lemma_with_links(n0, layer as int, to@);
        assert(is_relinked(pages, pages, nodes));
    }
    make_room(&mut node, layer);
    let mut i: usize = 0;
    assert(to@.take(0) =~= Seq::empty());
    while i < to.len()
        invariant
            i <= to@.len(),
            layer < node@.neighbors.len(),
            node@ == with_links(n0, layer as int, to@.take(i as int)),
        decreases to@.len() - i,
    {
        proof {
            assert(to@.take(i + 1).drop_last() =~= to@.take(i as int));
            assert(to@.take(i + 1).last() == to@[i as int]);
        }
        add_link(&mut node, layer, to[i]);
        i += 1;
    }
    assert(to@.take(i as int) =~= to@);
    proof {
        reveal(too_long_with);
    }
    match update_node(pager, from, &node) {
        Ok(()) => {
            proof {
                let n = node@;
                assert forall|l: int, i: int|
                    0 <= l < n.neighbors.len() && 0 <= i < n.neighbors[l].len() implies nodes.contains(
                #[trigger] n.neighbors[l][i]) by {
                    let x = n.neighbors[l][i];
                    assert(n.links(l) == n.neighbors[l]);
                    assert(n.links(l).contains(x));
                    if n0.links(l).contains(x) {
                        let k = n0.links(l).index_of(x);
                        assert(node_at(pages, from)->Ok_0.neighbors[l][k] == x);
                    } else {
                        let k = to@.index_of(x);
                        assert(nodes.contains(to@[k]));
                    }
                }
                lemma_rewritten(pages, pager.pages(), nodes, from, n);
            }
            Ok(())
        },
        Err(e) => Err(e),
    }
}

/// On every layer, a link between two of the nodes has one that leads back.
#[verifier::opaque]
pub open spec fn is_mutual(pages: Map<u64, PageView>, nodes: Set<u32>) -> bool {
    forall|a: u32, l: int, b: u32|
        nodes.contains(a) && nodes.contains(b) && #[trigger] links_at(pages, a, l).contains(b)
            ==> links_at(pages, b, l).contains(a)
}

/// The links are those from before, those from one node to some and those from some to it.
#[verifier::opaque]
spec fn has_more_links(
    before: Map<u64, PageView>,
    after: Map<u64, PageView>,
    layer: int,
    one: u32,
    to: Seq<u32>,
    from: Seq<u32>,
) -> bool {
    forall|id: u32, l: int, x: u32| #[trigger]
        links_at(after, id, l).contains(x) <==> links_at(before, id, l).contains(x) || (l == layer
            && id == one && to.contains(x)) || (l == layer && x == one && from.contains(id))
}

proof fn lemma_pushed(s: Seq<u32>, y: u32, x: u32)
    ensures
        s.push(y).contains(x) <==> s.contains(x) || x == y,
{
    if s.contains(x) {
        assert(s.push(y)[s.index_of(x)] == x);
    }
    if x == y {
        assert(s.push(y)[s.len() as int] == x);
    }
    if s.push(y).contains(x) && x != y {
        assert(s[s.push(y).index_of(x)] == x);
    }
}

proof fn lemma_all_adds(
    pages: Map<u64, PageView>,
    after: Map<u64, PageView>,
    from: u32,
    layer: int,
    to: Seq<u32>,
)
    requires
        0 <= layer,
        node_at(pages, from) is Ok,
        after == linked_from(pages, from, layer, to),
        node_at(after, from) == Ok::<NodeView, TableError>(
            with_links(node_at(pages, from)->Ok_0, layer, to),
        ),
    ensures
        has_more_links(pages, after, layer, from, to, Seq::empty()),
        forall|id: u32, l: int, x: u32| #[trigger]
            links_at(after, id, l).contains(x) <==> links_at(pages, id, l).contains(x) || (id
                == from && l == layer && to.contains(x)),
{
    reveal(has_more_links);
    lemma_with_links(node_at(pages, from)->Ok_0, layer, to);
    assert forall|id: u32, l: int, x: u32| #[trigger]
        links_at(after, id, l).contains(x) <==> links_at(pages, id, l).contains(x) || (id == from
            && l == layer && to.contains(x)) by {
        if id != from {
            assert(node_at(after, id) == node_at(pages, id));
        }
    }
}

proof fn lemma_one_more_from(
    before: Map<u64, PageView>,
    mid: Map<u64, PageView>,
    after: Map<u64, PageView>,
    layer: int,
    one: u32,
    to: Seq<u32>,
    from: Seq<u32>,
    y: u32,
)
    requires
        has_more_links(before, mid, layer, one, to, from),
        forall|id: u32, l: int, x: u32| #[trigger]
            links_at(after, id, l).contains(x) <==> links_at(mid, id, l).contains(x) || (id == y
                && l == layer && x == one),
    ensures
        has_more_links(before, after, layer, one, to, from.push(y)),
{
    reveal(has_more_links);
    assert forall|id: u32, l: int, x: u32| #[trigger]
        links_at(after, id, l).contains(x) <==> links_at(before, id, l).contains(x) || (l == layer
            && id == one && to.contains(x)) || (l == layer && x == one && from.push(y).contains(
            id,
        )) by {
        lemma_pushed(from, y, id);
        assert(links_at(mid, id, l).contains(x) <==> links_at(before, id, l).contains(x) || (l
            == layer && id == one && to.contains(x)) || (l == layer && x == one && from.contains(
            id,
        )));
    }
}

/// Links both ways keep a graph mutual.
proof fn lemma_more_mutual(
    before: Map<u64, PageView>,
    after: Map<u64, PageView>,
    layer: int,
    one: u32,
    others: Seq<u32>,
    nodes: Set<u32>,
)
    requires
        has_more_links(before, after, layer, one, others, others),
        is_mutual(before, nodes),
    ensures
        is_mutual(after, nodes),
{
    reveal(has_more_links);
    reveal(is_mutual);
    assert forall|a: u32, l: int, b: u32|
        nodes.contains(a) && nodes.contains(b) && #[trigger] links_at(after, a, l).contains(
            b,
        ) implies links_at(after, b, l).contains(a) by {
        if links_at(before, a, l).contains(b) {
            assert(links_at(before, b, l).contains(a));
        }
    }
}

proof fn lemma_linked_adds(
    pages: Map<u64, PageView>,
    after: Map<u64, PageView>,
    nodes: Set<u32>,
    from: u32,
    layer: int,
    to: u32,
)
    requires
        0 <= layer,
        node_at(pages, from) is Ok,
        after == linked(pages, from, layer, to),
        node_at(after, from) == Ok::<NodeView, TableError>(
            with_link(node_at(pages, from)->Ok_0, layer, to),
        ),
    ensures
        forall|id: u32, l: int, x: u32| #[trigger]
            links_at(after, id, l).contains(x) <==> links_at(pages, id, l).contains(x) || (id
                == from && l == layer && x == to),
{
    lemma_with_link(node_at(pages, from)->Ok_0, layer, to);
    assert forall|id: u32, l: int, x: u32| #[trigger]
        links_at(after, id, l).contains(x) <==> links_at(pages, id, l).contains(x) || (id == from
            && l == layer && x == to) by {
        if id != from {
            assert(node_at(after, id) == node_at(pages, id));
        }
    }
}

/// Adds links between a node and others, both ways, on a layer.
#[verifier::rlimit(30)]
pub fn connect_nodes(
    pager: &mut Pager,
    node_id: u32,
    neighbors: &Vec<u32>,
    layer: usize,
    Ghost(nodes): Ghost<Set<u32>>,
) -> (r: TableResult<()>)
    requires
        old(pager).wf(),
        is_closed(old(pager).pages(), nodes),
        nodes.contains(node_id),
        forall|i: int| 0 <= i < neighbors@.len() ==> nodes.contains(#[trigger] neighbors@[i]),
        layer < usize::MAX,
    ensures
        final(pager).wf(),
        final(pager).same_meta(old(pager)),
        final(pager).slots@.len() == old(pager).slots@.len(),
        is_relinked(old(pager).pages(), final(pager).pages(), nodes),
        r is Ok <==> !overflows(
            old(pager).pages(),
            node_id,
            neighbors@,
            layer as int,
            old(pager).capacity(),
        ),
        r is Ok ==> final(pager).pages() == linked_to(
            linked_from(old(pager).pages(), node_id, layer as int, neighbors@),
            neighbors@,
            layer as int,
            node_id,
        ),
        r is Ok ==> forall|i: int|
            0 <= i < neighbors@.len() ==> links_at(
                final(pager).pages(),
                node_id,
                layer as int,
            ).contains(#[trigger] neighbors@[i]) && links_at(
                final(pager).pages(),
                neighbors@[i],
                layer as int,
            ).contains(node_id),
        r is Ok ==> forall|s: Set<u32>| #[trigger]
            is_mutual(old(pager).pages(), s) ==> is_mutual(final(pager).pages(), s),
        adds_only(
            old(pager).pages(),
            final(pager).pages(),
            nodes,
            layer as int,
            node_id,
            neighbors@,
        ),
        r matches Err(e) ==> e matches TableError::Pager(PagerError::PageOverflow { .. }),
{
    let ghost pages = pager.pages();
    let ghost ns = neighbors@;
    let ghost capacity = pager.capacity();
    match link_all(pager, node_id, layer, neighbors, Ghost(nodes)) {
        Ok(()) => {},
        Err(e) => return Err(e),
    }
    proof {
        lemma_all_adds(pages, pager.pages(), node_id, layer as int, ns);
        assert forall|k: int| 0 <= k < ns.len() implies links_at(
            pager.pages(),
            node_id,
            layer as int,
        ).contains(#[trigger] ns[k]) by {
            assert(ns.contains(ns[k]));
        }
    }
    let ghost mid = pager.pages();
    assert(ns.take(0) =~= Seq::empty());
    let mut j: usize = 0;
    while j < neighbors.len()
        invariant
            j <= ns.len(),
            ns == neighbors@,
            pages == old(pager).pages(),
            layer < usize::MAX,
            pager.wf(),
            pager.same_meta(old(pager)),
            pager.slots@.len() == old(pager).slots@.len(),
            nodes.contains(node_id),
            forall|k: int| 0 <= k < ns.len() ==> nodes.contains(#[trigger] ns[k]),
            is_relinked(pages, pager.pages(), nodes),
            mid == linked_from(pages, node_id, layer as int, ns),
            pager.pages() == linked_to(mid, ns.take(j as int), layer as int, node_id),
            forall|k: int|
                0 <= k < ns.len() ==> links_at(pager.pages(), node_id, layer as int).contains(
                    #[trigger] ns[k],
                ),
            forall|k: int|
                0 <= k < j ==> links_at(pager.pages(), #[trigger] ns[k], layer as int).contains(
                    node_id,
                ),
            adds_only(pages, pager.pages(), nodes, layer as int, node_id, ns),
            has_more_links(
                pages,
                pager.pages(),
                layer as int,
                node_id,
                ns,
                ns.take(j as int),
            ),
            capacity == pager.capacity(),
            forall|k: int|
                0 <= k < j ==> !#[trigger] too_long(
                    linked_to(mid, ns.take(k), layer as int, node_id),
                    ns[k],
                    layer as int,
                    node_id,
                    capacity,
                ),
        decreases ns.len() - j,
    {
        let ghost before = pager.pages();
        proof {
            assert(ns.take(j + 1).drop_last() =~= ns.take(j as int));
            assert(ns.take(j + 1).last() == ns[j as int]);
            assert(nodes.contains(ns[j as int]));
        }
        let linked = link(pager, neighbors[j], layer, node_id, Ghost(nodes));
        proof {
            lemma_relinked_twice(pages, before, pager.pages(), nodes);
        }
        match linked {
            Ok(()) => {
                proof {
                    lemma_linked_adds(
                        before,
                        pager.pages(),
                        nodes,
                        ns[j as int],
                        layer as int,
                        node_id,
                    );
                    lemma_one_more_from(
                        pages,
                        before,
                        pager.pages(),
                        layer as int,
                        node_id,
                        ns,
                        ns.take(j as int),
                        ns[j as int],
                    );
                    assert(ns.take(j as int).push(ns[j as int]) =~= ns.take(j + 1));
                }
            },
            Err(e) => {
                proof {
                    assert(too_long(
                        linked_to(mid, ns.take(j as int), layer as int, node_id),
                        ns[j as int],
                        layer as int,
                        node_id,
                        capacity,
                    ));
                }
                return Err(e);
            },
        }
        j += 1;
    }
    assert(ns.take(j as int) =~= ns);
    proof {
        assert forall|s: Set<u32>| #[trigger] is_mutual(pages, s) implies is_mutual(
            pager.pages(),
            s,
        ) by {
            lemma_more_mutual(pages, pager.pages(), layer as int, node_id, ns, s);
        }
    }
    Ok(())
}

proof fn lemma_list_without(list: Seq<u32>, x: u32)
    ensures
        forall|y: u32| #[trigger]
            list_without(list, x).contains(y) <==> list.contains(y) && y != x,
    decreases list.len(),
{
    if list.len() > 0 {
        let t = list.drop_last();
        let before = list_without(t, x);
        let after = list_without(list, x);
        lemma_list_without(t, x);
        assert forall|y: u32| #[trigger] after.contains(y) <==> list.contains(y) && y != x by {
            assert(list.contains(y) <==> t.contains(y) || y == list.last()) by {
                if t.contains(y) {
                    let i = t.index_of(y);
                    assert(list[i] == y);
                }
                if y == list.last() {
                    assert(list[list.len() - 1] == y);
                }
                if list.contains(y) {
                    let i = list.index_of(y);
                    if i < t.len() {
                        assert(t[i] == y);
                    }
                }
            }
            if list.last() != x {
                if before.contains(y) {
                    let i = before.index_of(y);
                    assert(after[i] == y);
                }
                if y == list.last() {
                    assert(after[before.len() as int] == y);
                }
                if after.contains(y) {
                    let i = after.index_of(y);
                    if i < before.len() {
                        assert(before[i] == y);
                    }
                }
            } else {
                assert(before.contains(y) <==> t.contains(y) && y != x);
            }
        }
    } else {
        assert forall|y: u32| !#[trigger] list_without(list, x).contains(y) by {}
    }
}

/// No node got a link that it did not have.
pub open spec fn only_removes(before: Map<u64, PageView>, after: Map<u64, PageView>, nodes: Set<u32>) -> bool {
    forall|id: u32, l: int, x: u32|
        nodes.contains(id) && #[trigger] links_at(after, id, l).contains(x) ==> links_at(
            before,
            id,
            l,
        ).contains(x)
}

/// The links are those from before, but for those from one node to all but some, and those from
/// some to it.
#[verifier::opaque]
spec fn has_fewer_links(
    before: Map<u64, PageView>,
    after: Map<u64, PageView>,
    layer: int,
    one: u32,
    kept: Option<Seq<u32>>,
    from: Seq<u32>,
) -> bool {
    forall|id: u32, l: int, x: u32| #[trigger]
        links_at(after, id, l).contains(x) <==> links_at(before, id, l).contains(x) && !(l == layer
            && id == one && kept is Some && !kept->Some_0.contains(x)) && !(l == layer && x == one
            && from.contains(id))
}

proof fn lemma_one_fewer(
    before: Map<u64, PageView>,
    mid: Map<u64, PageView>,
    after: Map<u64, PageView>,
    layer: int,
    one: u32,
    kept: Option<Seq<u32>>,
    from: Seq<u32>,
    y: u32,
)
    requires
        has_fewer_links(before, mid, layer, one, kept, from),
        forall|id: u32, l: int, x: u32| #[trigger]
            links_at(after, id, l).contains(x) <==> links_at(mid, id, l).contains(x) && !(id == y
                && l == layer && x == one),
    ensures
        has_fewer_links(before, after, layer, one, kept, from.push(y)),
{
    reveal(has_fewer_links);
    assert forall|id: u32, l: int, x: u32| #[trigger]
        links_at(after, id, l).contains(x) <==> links_at(before, id, l).contains(x) && !(l == layer
            && id == one && kept is Some && !kept->Some_0.contains(x)) && !(l == layer && x == one
            && from.push(y).contains(id)) by {
        lemma_pushed(from, y, id);
        assert(links_at(mid, id, l).contains(x) <==> links_at(before, id, l).contains(x) && !(l
            == layer && id == one && kept is Some && !kept->Some_0.contains(x)) && !(l == layer && x
            == one && from.contains(id)));
    }
}

/// Cutting links down on both sides keeps a graph mutual.
proof fn lemma_fewer_mutual(
    before: Map<u64, PageView>,
    after: Map<u64, PageView>,
    layer: int,
    one: u32,
    kept: Seq<u32>,
    gone: Seq<u32>,
    nodes: Set<u32>,
)
    requires
        has_fewer_links(before, after, layer, one, Some(kept), gone),
        forall|x: u32| #[trigger]
            gone.contains(x) <==> links_at(before, one, layer).contains(x) && !kept.contains(x),
        is_mutual(before, nodes),
    ensures
        is_mutual(after, nodes),
{
    reveal(has_fewer_links);
    reveal(is_mutual);
    assert forall|a: u32, l: int, b: u32|
        nodes.contains(a) && nodes.contains(b) && #[trigger] links_at(after, a, l).contains(
            b,
        ) implies links_at(after, b, l).contains(a) by {
        assert(links_at(before, a, l).contains(b));
        assert(links_at(before, b, l).contains(a));
        if l == layer && b == one && !kept.contains(a) {
            assert(gone.contains(a));
        }
        if l == layer && a == one && gone.contains(b) {
            assert(!kept.contains(b));
        }
    }
}

/// Taking away the links to a node keeps a graph of others mutual.
proof fn lemma_others_mutual(
    before: Map<u64, PageView>,
    after: Map<u64, PageView>,
    layer: int,
    one: u32,
    from: Seq<u32>,
    nodes: Set<u32>,
)
    requires
        has_fewer_links(before, after, layer, one, None, from),
        !nodes.contains(one),
        is_mutual(before, nodes),
    ensures
        is_mutual(after, nodes),
{
    reveal(has_fewer_links);
    reveal(is_mutual);
    assert forall|a: u32, l: int, b: u32|
        nodes.contains(a) && nodes.contains(b) && #[trigger] links_at(after, a, l).contains(
            b,
        ) implies links_at(after, b, l).contains(a) by {
        assert(links_at(before, a, l).contains(b));
    }
}

proof fn lemma_missing(list: Seq<u32>, kept: Seq<u32>)
    ensures
        forall|x: u32| #[trigger]
            missing(list, kept).contains(x) <==> list.contains(x) && !kept.contains(x),
    decreases list.len(),
{
    if list.len() > 0 {
        let t = list.drop_last();
        lemma_missing(t, kept);
        assert(list =~= t.push(list.last()));
        assert forall|x: u32| #[trigger] missing(list, kept).contains(x) <==> list.contains(x)
            && !kept.contains(x) by {
            lemma_pushed(t, list.last(), x);
            lemma_pushed(missing(t, kept), list.last(), x);
        }
    }
}

/// Removes the links from one node to another on a layer.
fn unlink(
    pager: &mut Pager,
    from: u32,
    layer: usize,
    to: u32,
    Ghost(nodes): Ghost<Set<u32>>,
) -> (r: TableResult<()>)
    requires
        old(pager).wf(),
        is_closed(old(pager).pages(), nodes),
        nodes.contains(from),
    ensures
        final(pager).wf(),
        final(pager).same_meta(old(pager)),
        final(pager).slots@.len() == old(pager).slots@.len(),
        is_relinked(old(pager).pages(), final(pager).pages(), nodes),
        r is Ok,
        final(pager).pages() == unlinked(old(pager).pages(), from, layer as int, to),
        !links_at(final(pager).pages(), from, layer as int).contains(to),
        only_removes(old(pager).pages(), final(pager).pages(), nodes),
        forall|id: u32, l: int|
            (#[trigger] links_at(final(pager).pages(), id, l)).len() <= links_at(
                old(pager).pages(),
                id,
                l,
            ).len(),
        forall|id: u32, l: int, x: u32| #[trigger]
            links_at(final(pager).pages(), id, l).contains(x) <==> links_at(
                old(pager).pages(),
                id,
                l,
            ).contains(x) && !(id == from && l == layer && x == to),
{
    let ghost pages = pager.pages();
    let mut node = match load_node(pager, from) {
        Ok(n) => n,
        Err(e) => return Err(e),
    };
    let ghost n0 = node@;
    proof {
        lemma_layer_fits(pages, from);
        lemma_node_fits(pager, nodes, from);
        assert(is_relinked(pages, pages, nodes));
    }
    if layer >= node.neighbors.len() {
        return Ok(());
    }
    let ghost list = node.neighbors@[layer as int]@;
    let kept = copy_without(&node.neighbors[layer], to);
    node.neighbors.set(layer, kept);
    let ghost n = node@;
    proof {
        assert(n.neighbors =~= n0.neighbors.update(layer as int, list_without(list, to)));
        assert(n == without_link(n0, layer as int, to));
        lemma_list_without(list, to);
        lemma_list_without_len(list, to);
        lemma_fewer_links(n0, layer as int, list_without(list, to));
        assert forall|l: int, x: u32| #[trigger] n.links(l).contains(x) implies n0.links(
            l,
        ).contains(x) by {
            if l == layer {
                assert(list_without(list, to).contains(x));
            } else if 0 <= l < n.neighbors.len() {
                assert(n.neighbors[l] == n0.neighbors[l]);
            }
        }
    }
    match update_node(pager, from, &node) {
        Ok(()) => {
            proof {
                assert forall|l: int, k: int|
                    0 <= l < n.neighbors.len() && 0 <= k < n.neighbors[l].len() implies nodes.contains(
                #[trigger] n.neighbors[l][k]) by {
                    let x = n.neighbors[l][k];
                    assert(n.links(l) == n.neighbors[l]);
                    assert(n.links(l).contains(x));
                    assert(n0.links(l).contains(x));
                    let j = n0.links(l).index_of(x);
                    assert(node_at(pages, from)->Ok_0.neighbors[l][j] == x);
                }
                lemma_rewritten(pages, pager.pages(), nodes, from, n);
                assert forall|id: u32, l: int, x: u32|
                    nodes.contains(id) && #[trigger] links_at(pager.pages(), id, l).contains(
                        x,
                    ) implies links_at(pages, id, l).contains(x) by {
                    if id != from {
                        assert(node_at(pager.pages(), id) == node_at(pages, id));
                    }
                }
                assert(!list_without(list, to).contains(to));
                assert forall|id: u32, l: int|
                    (#[trigger] links_at(pager.pages(), id, l)).len() <= links_at(
                        pages,
                        id,
                        l,
                    ).len() by {
                    if id != from {
                        assert(node_at(pager.pages(), id) == node_at(pages, id));
                    } else if l != layer && 0 <= l < n.neighbors.len() {
                        assert(n.neighbors[l] == n0.neighbors[l]);
                    }
                }
                assert forall|id: u32, l: int, x: u32| #[trigger]
                    links_at(pager.pages(), id, l).contains(x) <==> links_at(pages, id, l).contains(
                        x,
                    ) && !(id == from && l == layer && x == to) by {
                    if id != from {
                        assert(node_at(pager.pages(), id) == node_at(pages, id));
                    } else if l == layer {
                        assert(list_without(list, to).contains(x) <==> list.contains(x) && x != to);
                    } else if 0 <= l < n.neighbors.len() {
                        assert(n.neighbors[l] == n0.neighbors[l]);
                    }
                }
            }
            Ok(())
        },
        Err(e) => Err(e),
    }
}

/// The distances that were found from a node to each of a list.
pub open spec fn are_distances<D: Fn(&[u32], &[u32]) -> i64>(
    dist: D,
    pages: Map<u64, PageView>,
    from: Seq<u32>,
    list: Seq<u32>,
    ds: Seq<i64>,
) -> bool {
    &&& ds.len() == list.len()
    &&& forall|i: int|
        0 <= i < list.len() ==> is_distance(dist, from, vector_at(pages, #[trigger] list[i]), ds[i])
}

/// The nodes of a list with their distances.
pub open spec fn rated(list: Seq<u32>, ds: Seq<i64>) -> Seq<Candidate> {
    Seq::new(list.len(), |i: int| Candidate { node_id: list[i], distance: ds[i] })
}

/// The nodes of a list that are closest, at most so many.
pub open spec fn closest(list: Seq<u32>, ds: Seq<i64>, max: int) -> Seq<u32> {
    node_ids(
        by_distance(rated(list, ds)).take(
            if list.len() < max {
                list.len() as int
            } else {
                max
            },
        ),
    )
}

/// The nodes of one list that are not in the other.
pub open spec fn missing(list: Seq<u32>, kept: Seq<u32>) -> Seq<u32>
    decreases list.len(),
{
    if list.len() == 0 {
        Seq::empty()
    } else {
        let before = missing(list.drop_last(), kept);
        if kept.contains(list.last()) {
            before
        } else {
            before.push(list.last())
        }
    }
}

/// The nodes of one list that are not in the other are all of those, in their order.
pub proof fn law_missing_nodes(list: Seq<u32>, kept: Seq<u32>)
    ensures
        missing(list, kept) == list.filter(|x: u32| !kept.contains(x)),
    decreases list.len(),
{
    reveal(Seq::filter);
    if list.len() > 0 {
        law_missing_nodes(list.drop_last(), kept);
    } else {
        assert(list =~= Seq::empty());
    }
}

/// Of a list that is too long as many links stay as may, and no link that goes is closer than one
/// that stays.
pub proof fn law_closest_links_stay(list: Seq<u32>, ds: Seq<i64>, max: int, i: int, j: int)
    requires
        0 <= max,
        ds.len() == list.len(),
        list.no_duplicates(),
        0 <= i < list.len(),
        0 <= j < list.len(),
    ensures
        closest(list, ds, max).len() == (if list.len() < max {
            list.len() as int
        } else {
            max
        }),
        list.len() <= max ==> closest(list, ds, max).contains(list[i]),
        closest(list, ds, max).contains(list[i]) && !closest(list, ds, max).contains(list[j])
            ==> ds[i] <= ds[j],
{
    broadcast use vstd::seq_lib::group_to_multiset_ensures;

    let cs = rated(list, ds);
    let sorted = by_distance(cs);
    let kept = closest(list, ds, max);
    law_by_distance_is_sorted(cs);
    crate::hnsw::search::law_sorting_keeps_candidates(cs, 0);
    assert(crate::hnsw::search::are_distinct(cs));
    assert(cs.contains(cs[i]) && cs.contains(cs[j]));
    assert(sorted.to_multiset().count(cs[i]) > 0);
    assert(sorted.to_multiset().count(cs[j]) > 0);
    assert(sorted.contains(cs[i]) && sorted.contains(cs[j]));
    let a = sorted.index_of(cs[i]);
    let b = sorted.index_of(cs[j]);
    if a < kept.len() {
        assert(kept[a] == list[i]);
    }
    if b < kept.len() {
        assert(kept[b] == list[j]);
    }
    if kept.contains(list[i]) && !kept.contains(list[j]) {
        let c = kept.index_of(list[i]);
        assert(sorted[c].node_id == list[i]);
        assert(c == a);
        assert(sorted[a].distance <= sorted[b].distance);
    }
}

/// The pages after the links of a node on a layer were cut down to the closest ones, and the
/// links back from the others were removed.
pub open spec fn pruned(
    pages: Map<u64, PageView>,
    id: u32,
    layer: int,
    max: int,
    ds: Seq<i64>,
) -> Map<u64, PageView> {
    let n = node_at(pages, id)->Ok_0;
    let list = n.neighbors[layer];
    let kept = closest(list, ds, max);
    unlinked_to(
        with_node(pages, id, NodeView { neighbors: n.neighbors.update(layer, kept), ..n }),
        missing(list, kept),
        layer,
        id,
    )
}

/// The links of a node were cut down to the closest ones, if there were too many.
pub open spec fn is_pruned<D: Fn(&[u32], &[u32]) -> i64>(
    dist: D,
    before: Map<u64, PageView>,
    id: u32,
    layer: int,
    max: int,
    after: Map<u64, PageView>,
) -> bool {
    if links_at(before, id, layer).len() <= max {
        after == before
    } else {
        exists|ds: Seq<i64>|
            are_distances(dist, before, vector_at(before, id), links_at(before, id, layer), ds)
                && after == #[trigger] pruned(before, id, layer, max, ds)
    }
}

fn rate<D: Fn(&[u32], &[u32]) -> i64>(
    pager: &Pager,
    dist: &D,
    from: &Vec<u32>,
    list: &Vec<u32>,
    Ghost(nodes): Ghost<Set<u32>>,
) -> (r: TableResult<(Vec<Candidate>, Ghost<Seq<i64>>)>)
    requires
        pager.wf(),
        is_closed(pager.pages(), nodes),
        forall|i: int| 0 <= i < list@.len() ==> nodes.contains(#[trigger] list@[i]),
        forall|x: &[u32], y: &[u32]| #[trigger] dist.requires((x, y)),
    ensures
        r is Ok,
        are_distances(*dist, pager.pages(), from@, list@, r->Ok_0.1@),
        r->Ok_0.0@ == rated(list@, r->Ok_0.1@),
{
    let ghost mut ds: Seq<i64> = Seq::empty();
    let mut out: Vec<Candidate> = Vec::new();
    let mut i: usize = 0;
    while i < list.len()
        invariant
            i <= list@.len(),
            pager.wf(),
            is_closed(pager.pages(), nodes),
            forall|k: int| 0 <= k < list@.len() ==> nodes.contains(#[trigger] list@[k]),
            forall|x: &[u32], y: &[u32]| #[trigger] dist.requires((x, y)),
            ds.len() == i,
            out@.len() == i,
            forall|k: int|
                0 <= k < i ==> is_distance(
                    *dist,
                    from@,
                    vector_at(pager.pages(), #[trigger] list@[k]),
                    ds[k],
                ),
            forall|k: int|
                0 <= k < i ==> #[trigger] out@[k] == (Candidate {
                    node_id: list@[k],
                    distance: ds[k],
                }),
        decreases list@.len() - i,
    {
        let id: u32 = list[i];
        assert(nodes.contains(list@[i as int]));
        let node = match load_node(pager, id) {
            Ok(n) => n,
            Err(e) => return Err(e),
        };
        let d: i64 = dist(from.as_slice(), node.vector.as_slice());
        proof {
            assert(is_distance(*dist, from@, vector_at(pager.pages(), id), d));
            ds = ds.push(d);
        }
        out.push(Candidate { node_id: id, distance: d });
        i += 1;
    }
    assert(out@ =~= rated(list@, ds));
    Ok((out, Ghost(ds)))
}

/// Cuts the links of a node on a layer down to the closest ones, if there are too many, and
/// removes the links back from the others.
#[verifier::rlimit(30)]
pub fn prune_connections<D: Fn(&[u32], &[u32]) -> i64>(
    pager: &mut Pager,
    dist: &D,
    node_id: u32,
    layer: usize,
    max: usize,
    Ghost(nodes): Ghost<Set<u32>>,
) -> (r: TableResult<()>)
    requires
        old(pager).wf(),
        is_closed(old(pager).pages(), nodes),
        nodes.contains(node_id),
        forall|x: &[u32], y: &[u32]| #[trigger] dist.requires((x, y)),
    ensures
        final(pager).wf(),
        final(pager).same_meta(old(pager)),
        final(pager).slots@.len() == old(pager).slots@.len(),
        is_relinked(old(pager).pages(), final(pager).pages(), nodes),
        only_removes(old(pager).pages(), final(pager).pages(), nodes),
        links_at(final(pager).pages(), node_id, layer as int).len() <= max,
        forall|s: Set<u32>| #[trigger]
            is_mutual(old(pager).pages(), s) ==> is_mutual(final(pager).pages(), s),
        r is Ok,
        links_at(old(pager).pages(), node_id, layer as int).len() <= max ==> final(pager).pages()
            == old(pager).pages(),
        links_at(old(pager).pages(), node_id, layer as int).len() > max ==> exists|
            ds: Seq<i64>,
        |
            are_distances(
                *dist,
                old(pager).pages(),
                vector_at(old(pager).pages(), node_id),
                links_at(old(pager).pages(), node_id, layer as int),
                ds,
            ) && final(pager).pages() == #[trigger] pruned(
                old(pager).pages(),
                node_id,
                layer as int,
                max as int,
                ds,
            ),
{
    let ghost pages = pager.pages();
    let mut node = match load_node(pager, node_id) {
        Ok(n) => n,
        Err(e) => return Err(e),
    };
    let ghost n0 = node@;
    proof {
        lemma_layer_fits(pages, node_id);
        lemma_node_fits(pager, nodes, node_id);
        assert(is_relinked(pages, pages, nodes));
    }
    if layer >= node.neighbors.len() || node.neighbors[layer].len() <= max {
        return Ok(());
    }
    let ghost list = node.neighbors@[layer as int]@;
    proof {
        assert forall|i: int| 0 <= i < list.len() implies nodes.contains(#[trigger] list[i]) by {
            assert(node_at(pages, node_id)->Ok_0.neighbors[layer as int][i] == list[i]);
        }
    }
    let (candidates, distances) = match rate(
        pager,
        dist,
        &node.vector,
        &node.neighbors[layer],
        Ghost(nodes),
    ) {
        Ok(t) => t,
        Err(e) => return Err(e),
    };
    let ghost ds = distances@;
    let sorted = sort_candidates(&candidates);
    proof {
        law_by_distance_is_sorted(candidates@);
    }
    let mut kept: Vec<u32> = Vec::new();
    let mut i: usize = 0;
    while i < max
        invariant
            i <= max < sorted@.len(),
            kept@.len() == i,
            forall|k: int| 0 <= k < i ==> #[trigger] kept@[k] == sorted@[k].node_id,
        decreases max - i,
    {
        kept.push(sorted[i].node_id);
        i += 1;
    }
    proof {
        assert(kept@ =~= closest(list, ds, max as int));
        assert forall|x: u32| #[trigger] kept@.contains(x) implies list.contains(x) by {
            let k = kept@.index_of(x);
            assert(among(sorted@, sorted@[k].node_id));
            assert(among(candidates@, x));
            let j = choose|j: int|
                0 <= j < candidates@.len() && (#[trigger] candidates@[j]).node_id == x;
            assert(list[j] == x);
        }
    }
    let mut gone: Vec<u32> = Vec::new();
    let mut j: usize = 0;
    assert(list.take(0) =~= Seq::empty());
    while j < node.neighbors[layer].len()
        invariant
            layer < node.neighbors@.len(),
            list == node.neighbors@[layer as int]@,
            j <= list.len(),
            gone@ == missing(list.take(j as int), kept@),
            forall|k: int| 0 <= k < gone@.len() ==> nodes.contains(#[trigger] gone@[k]),
            forall|k: int| 0 <= k < list.len() ==> nodes.contains(#[trigger] list[k]),
        decreases list.len() - j,
    {
        proof {
            assert(list.take(j + 1).drop_last() =~= list.take(j as int));
            assert(list.take(j + 1).last() == list[j as int]);
            assert(nodes.contains(list[j as int]));
        }
        let x: u32 = node.neighbors[layer][j];
        if !contains(&kept, x) {
            gone.push(x);
        }
        j += 1;
    }
    assert(list.take(j as int) =~= list);
    node.neighbors.set(layer, kept);
    let ghost n = node@;
    proof {
        assert(n.neighbors =~= n0.neighbors.update(layer as int, kept@));
        lemma_fewer_links(n0, layer as int, kept@);
        assert forall|l: int, x: u32| #[trigger] n.links(l).contains(x) implies n0.links(
            l,
        ).contains(x) by {
            if l == layer {
                assert(kept@.contains(x));
            } else if 0 <= l < n.neighbors.len() {
                assert(n.neighbors[l] == n0.neighbors[l]);
            }
        }
    }
    match update_node(pager, node_id, &node) {
        Ok(()) => {},
        Err(e) => {
            return Err(e);
        },
    }
    let ghost cut = pager.pages();
    proof {
        assert forall|l: int, k: int|
            0 <= l < n.neighbors.len() && 0 <= k < n.neighbors[l].len() implies nodes.contains(
        #[trigger] n.neighbors[l][k]) by {
            let x = n.neighbors[l][k];
            assert(n.links(l) == n.neighbors[l]);
            assert(n.links(l).contains(x));
            let q = n0.links(l).index_of(x);
            assert(node_at(pages, node_id)->Ok_0.neighbors[l][q] == x);
        }
        lemma_rewritten(pages, cut, nodes, node_id, n);
        assert forall|id: u32, l: int, x: u32|
            nodes.contains(id) && #[trigger] links_at(cut, id, l).contains(x) implies links_at(
            pages,
            id,
            l,
        ).contains(x) by {
            if id != node_id {
                assert(node_at(cut, id) == node_at(pages, id));
            }
        }
    }
    let mut k: usize = 0;
    assert(gone@.take(0) =~= Seq::empty());
    let ghost few = n.neighbors[layer as int];
    proof {
        assert(has_fewer_links(pages, cut, layer as int, node_id, Some(few), Seq::empty())) by {
            reveal(has_fewer_links);
            assert forall|id: u32, l: int, x: u32| #[trigger]
                links_at(cut, id, l).contains(x) <==> links_at(pages, id, l).contains(x) && !(l
                    == layer && id == node_id && !few.contains(x)) by {
                if id != node_id {
                    assert(node_at(cut, id) == node_at(pages, id));
                } else if l == layer {
                    assert(n.links(l) == few);
                } else if 0 <= l < n.neighbors.len() {
                    assert(n.neighbors[l] == n0.neighbors[l]);
                }
            }
        }
        lemma_missing(list, few);
    }
    while k < gone.len()
        invariant
            k <= gone@.len(),
            pages == old(pager).pages(),
            pager.wf(),
            pager.same_meta(old(pager)),
            pager.slots@.len() == old(pager).slots@.len(),
            forall|q: int| 0 <= q < gone@.len() ==> nodes.contains(#[trigger] gone@[q]),
            is_relinked(pages, pager.pages(), nodes),
            only_removes(pages, pager.pages(), nodes),
            pager.pages() == unlinked_to(cut, gone@.take(k as int), layer as int, node_id),
            links_at(pager.pages(), node_id, layer as int).len() <= max,
            has_fewer_links(
                pages,
                pager.pages(),
                layer as int,
                node_id,
                Some(few),
                gone@.take(k as int),
            ),
        decreases gone@.len() - k,
    {
        let ghost before = pager.pages();
        proof {
            assert(gone@.take(k + 1).drop_last() =~= gone@.take(k as int));
            assert(gone@.take(k + 1).last() == gone@[k as int]);
            assert(nodes.contains(gone@[k as int]));
        }
        let done = unlink(pager, gone[k], layer, node_id, Ghost(nodes));
        proof {
            lemma_relinked_twice(pages, before, pager.pages(), nodes);
            assert forall|id: u32, l: int, x: u32|
                nodes.contains(id) && #[trigger] links_at(pager.pages(), id, l).contains(
                    x,
                ) implies links_at(pages, id, l).contains(x) by {
                assert(links_at(before, id, l).contains(x));
            }
            lemma_one_fewer(
                pages,
                before,
                pager.pages(),
                layer as int,
                node_id,
                Some(few),
                gone@.take(k as int),
                gone@[k as int],
            );
            assert(gone@.take(k as int).push(gone@[k as int]) =~= gone@.take(k + 1));
        }
        match done {
            Ok(()) => {},
            Err(e) => {
                return Err(e);
            },
        }
        k += 1;
    }
    proof {
        assert(gone@.take(k as int) =~= gone@);
        assert forall|s: Set<u32>| #[trigger] is_mutual(pages, s) implies is_mutual(
            pager.pages(),
            s,
        ) by {
            lemma_fewer_mutual(pages, pager.pages(), layer as int, node_id, few, gone@, s);
        }
        assert(pager.pages() == pruned(pages, node_id, layer as int, max as int, ds));
    }
    Ok(())
}

/// None of the nodes on the list links to a node on a layer.
pub open spec fn no_link_to(pages: Map<u64, PageView>, list: Seq<u32>, layer: int, to: u32) -> bool {
    forall|i: int|
        0 <= i < list.len() ==> !links_at(pages, #[trigger] list[i], layer).contains(to)
}

proof fn lemma_no_link_kept(
    before: Map<u64, PageView>,
    after: Map<u64, PageView>,
    nodes: Set<u32>,
    list: Seq<u32>,
    l: int,
    to: u32,
    layer: int,
    one: u32,
    others: Seq<u32>,
)
    requires
        no_link_to(before, list, l, to),
        forall|i: int| 0 <= i < list.len() ==> nodes.contains(#[trigger] list[i]),
        adds_only(before, after, nodes, layer, one, others),
        one != to,
        !others.contains(to),
    ensures
        no_link_to(after, list, l, to),
{
    assert forall|i: int| 0 <= i < list.len() implies !links_at(
        after,
        #[trigger] list[i],
        l,
    ).contains(to) by {
        assert(!links_at(before, list[i], l).contains(to));
        assert(nodes.contains(list[i]));
    }
}

proof fn lemma_no_link_removed(
    before: Map<u64, PageView>,
    after: Map<u64, PageView>,
    nodes: Set<u32>,
    list: Seq<u32>,
    l: int,
    to: u32,
)
    requires
        no_link_to(before, list, l, to),
        forall|i: int| 0 <= i < list.len() ==> nodes.contains(#[trigger] list[i]),
        only_removes(before, after, nodes),
    ensures
        no_link_to(after, list, l, to),
{
    assert forall|i: int| 0 <= i < list.len() implies !links_at(
        after,
        #[trigger] list[i],
        l,
    ).contains(to) by {
        assert(!links_at(before, list[i], l).contains(to));
        assert(nodes.contains(list[i]));
    }
}

/// The lists lead to known nodes.
spec fn lists_known(lists: Seq<Seq<u32>>, nodes: Set<u32>) -> bool {
    forall|l: int, i: int|
        0 <= l < lists.len() && 0 <= i < lists[l].len() ==> nodes.contains(
            #[trigger] lists[l][i],
        )
}

/// The layers below `n` are free of links from the listed nodes to the one that goes.
spec fn layers_free(
    pages: Map<u64, PageView>,
    lists: Seq<Seq<u32>>,
    to: u32,
    n: int,
) -> bool {
    forall|l: int| 0 <= l < n && l < lists.len() ==> no_link_to(pages, #[trigger] lists[l], l, to)
}

fn copy_without(list: &Vec<u32>, x: u32) -> (r: Vec<u32>)
    ensures
        r@ == list_without(list@, x),
{
    let mut out: Vec<u32> = Vec::new();
    let mut i: usize = 0;
    assert(list@.take(0) =~= Seq::empty());
    while i < list.len()
        invariant
            i <= list@.len(),
            out@ == list_without(list@.take(i as int), x),
        decreases list@.len() - i,
    {
        proof {
            assert(list@.take(i + 1).drop_last() =~= list@.take(i as int));
            assert(list@.take(i + 1).last() == list@[i as int]);
        }
        if list[i] != x {
            out.push(list[i]);
        }
        i += 1;
    }
    assert(list@.take(i as int) =~= list@);
    out
}

/// The lists without a node.
pub open spec fn lists_without(lists: Seq<Seq<u32>>, x: u32) -> Seq<Seq<u32>> {
    Seq::new(lists.len(), |l: int| list_without(lists[l], x))
}

/// A neighbour of a node that goes was linked to those of the others that the rule for choosing
/// links picks, and its links were cut down.
pub open spec fn is_reconnected<D: Fn(&[u32], &[u32]) -> i64>(
    dist: D,
    before: Map<u64, PageView>,
    neighbor: u32,
    list: Seq<u32>,
    layer: int,
    max: int,
    after: Map<u64, PageView>,
) -> bool {
    let others = list_without(list, neighbor);
    exists|ds: Seq<i64>, ids: Seq<u32>|
        are_distances(dist, before, vector_at(before, neighbor), others, ds)
            && #[trigger] is_selection(dist, before, rated(others, ds), max, true, ids)
            && is_pruned(
            dist,
            linked_to(linked_from(before, neighbor, layer, ids), ids, layer, neighbor),
            neighbor,
            layer,
            max,
            after,
        )
}

/// Linking a neighbour of a node that goes to the others finds a page too small.
pub open spec fn reconnection_fails<D: Fn(&[u32], &[u32]) -> i64>(
    dist: D,
    before: Map<u64, PageView>,
    neighbor: u32,
    list: Seq<u32>,
    layer: int,
    max: int,
    capacity: nat,
) -> bool {
    let others = list_without(list, neighbor);
    exists|ds: Seq<i64>, ids: Seq<u32>|
        are_distances(dist, before, vector_at(before, neighbor), others, ds)
            && #[trigger] is_selection(dist, before, rated(others, ds), max, true, ids)
            && overflows(before, neighbor, ids, layer, capacity)
}

proof fn lemma_reconnection_fails<D: Fn(&[u32], &[u32]) -> i64>(
    dist: D,
    before: Map<u64, PageView>,
    neighbor: u32,
    list: Seq<u32>,
    layer: int,
    max: int,
    capacity: nat,
    others: Seq<u32>,
    ds: Seq<i64>,
    ids: Seq<u32>,
)
    requires
        others == list_without(list, neighbor),
        are_distances(dist, before, vector_at(before, neighbor), others, ds),
        is_selection(dist, before, rated(others, ds), max, true, ids),
        overflows(before, neighbor, ids, layer, capacity),
    ensures
        reconnection_fails(dist, before, neighbor, list, layer, max, capacity),
{
}

/// The pages are those after each step of linking the neighbours in turn.
pub open spec fn are_reconnections<D: Fn(&[u32], &[u32]) -> i64>(
    dist: D,
    list: Seq<u32>,
    layer: int,
    max: int,
    steps: Seq<Map<u64, PageView>>,
) -> bool {
    forall|i: int|
        0 <= i < steps.len() - 1 ==> is_reconnected(
            dist,
            #[trigger] steps[i],
            list[i],
            list,
            layer,
            max,
            steps[i + 1],
        )
}

/// A layer was repaired: the neighbours lost their links to the node that goes, and two or more of
/// them were linked to one another.
#[verifier::opaque]
pub open spec fn is_layer_repaired<D: Fn(&[u32], &[u32]) -> i64>(
    dist: D,
    before: Map<u64, PageView>,
    list: Seq<u32>,
    layer: int,
    max: int,
    deleted: u32,
    after: Map<u64, PageView>,
) -> bool {
    exists|steps: Seq<Map<u64, PageView>>| #[trigger]
        are_reconnections(dist, list, layer, max, steps) && steps.len() == 1 + (if list.len() > 1 {
            list.len() as int
        } else {
            0
        }) && steps[0] == unlinked_to(before, list, layer, deleted) && steps.last() == after
}

/// Linking the neighbours in turn went well up to one that finds a page too small.
pub open spec fn layer_fails_after<D: Fn(&[u32], &[u32]) -> i64>(
    dist: D,
    before: Map<u64, PageView>,
    list: Seq<u32>,
    layer: int,
    max: int,
    capacity: nat,
    steps: Seq<Map<u64, PageView>>,
) -> bool {
    &&& are_reconnections(dist, list, layer, max, steps)
    &&& 0 < steps.len() <= list.len()
    &&& list.len() > 1
    &&& steps[0] == before
    &&& reconnection_fails(
        dist,
        steps.last(),
        list[steps.len() - 1],
        list,
        layer,
        max,
        capacity,
    )
}

/// Linking the neighbours of a node that goes to one another finds a page too small.
#[verifier::opaque]
pub open spec fn layer_fails<D: Fn(&[u32], &[u32]) -> i64>(
    dist: D,
    before: Map<u64, PageView>,
    list: Seq<u32>,
    layer: int,
    max: int,
    capacity: nat,
) -> bool {
    exists|steps: Seq<Map<u64, PageView>>| #[trigger]
        layer_fails_after(dist, before, list, layer, max, capacity, steps)
}

/// The repair went well up to a layer on which it finds a page too small.
pub open spec fn repair_fails_after<D: Fn(&[u32], &[u32]) -> i64>(
    dist: D,
    before: Map<u64, PageView>,
    lists: Seq<Seq<u32>>,
    max_layer0: usize,
    max_others: usize,
    deleted: u32,
    capacity: nat,
    stages: Seq<Map<u64, PageView>>,
) -> bool {
    let l = stages.len() - 1;
    &&& are_repairs(dist, lists, max_layer0, max_others, deleted, stages)
    &&& 0 <= l < lists.len()
    &&& stages[0] == before
    &&& layer_fails(
        dist,
        unlinked_to(stages.last(), lists[l], l, deleted),
        lists[l],
        l,
        cap(l, max_layer0, max_others) as int,
        capacity,
    )
}

/// The repair after a node with these lists of links went finds a page too small.
pub open spec fn repair_fails<D: Fn(&[u32], &[u32]) -> i64>(
    dist: D,
    before: Map<u64, PageView>,
    lists: Seq<Seq<u32>>,
    max_layer0: usize,
    max_others: usize,
    deleted: u32,
    capacity: nat,
) -> bool {
    exists|stages: Seq<Map<u64, PageView>>| #[trigger]
        repair_fails_after(dist, before, lists, max_layer0, max_others, deleted, capacity, stages)
}

/// How many links a node may have on a layer.
pub open spec fn cap(layer: int, max_layer0: usize, max_others: usize) -> usize {
    if layer == 0 {
        max_layer0
    } else {
        max_others
    }
}

/// The pages are those after the repair of each layer in turn.
pub open spec fn are_repairs<D: Fn(&[u32], &[u32]) -> i64>(
    dist: D,
    lists: Seq<Seq<u32>>,
    max_layer0: usize,
    max_others: usize,
    deleted: u32,
    stages: Seq<Map<u64, PageView>>,
) -> bool {
    forall|l: int|
        0 <= l < stages.len() - 1 ==> is_layer_repaired(
            dist,
            #[trigger] stages[l],
            lists[l],
            l,
            cap(l, max_layer0, max_others) as int,
            deleted,
            stages[l + 1],
        )
}

/// All layers were repaired after a node with these lists of links went.
pub open spec fn is_repaired<D: Fn(&[u32], &[u32]) -> i64>(
    dist: D,
    before: Map<u64, PageView>,
    lists: Seq<Seq<u32>>,
    max_layer0: usize,
    max_others: usize,
    deleted: u32,
    after: Map<u64, PageView>,
) -> bool {
    exists|stages: Seq<Map<u64, PageView>>| #[trigger]
        are_repairs(dist, lists, max_layer0, max_others, deleted, stages) && stages.len()
            == lists.len() + 1 && stages[0] == before && stages.last() == after
}

proof fn lemma_reconnected<D: Fn(&[u32], &[u32]) -> i64>(
    dist: D,
    before: Map<u64, PageView>,
    neighbor: u32,
    list: Seq<u32>,
    layer: int,
    max: int,
    after: Map<u64, PageView>,
    others: Seq<u32>,
    ds: Seq<i64>,
    ids: Seq<u32>,
)
    requires
        others == list_without(list, neighbor),
        are_distances(dist, before, vector_at(before, neighbor), others, ds),
        is_selection(dist, before, rated(others, ds), max, true, ids),
        is_pruned(
            dist,
            linked_to(linked_from(before, neighbor, layer, ids), ids, layer, neighbor),
            neighbor,
            layer,
            max,
            after,
        ),
    ensures
        is_reconnected(dist, before, neighbor, list, layer, max, after),
{
}

proof fn lemma_more_reconnections<D: Fn(&[u32], &[u32]) -> i64>(
    dist: D,
    list: Seq<u32>,
    layer: int,
    max: int,
    steps: Seq<Map<u64, PageView>>,
    after: Map<u64, PageView>,
)
    requires
        are_reconnections(dist, list, layer, max, steps),
        steps.len() > 0,
        is_reconnected(
            dist,
            steps.last(),
            list[steps.len() - 1],
            list,
            layer,
            max,
            after,
        ),
    ensures
        are_reconnections(dist, list, layer, max, steps.push(after)),
{
    let more = steps.push(after);
    assert forall|i: int| 0 <= i < more.len() - 1 implies is_reconnected(
        dist,
        #[trigger] more[i],
        list[i],
        list,
        layer,
        max,
        more[i + 1],
    ) by {
        assert(more[i] == steps[i]);
        if i < steps.len() - 1 {
            assert(more[i + 1] == steps[i + 1]);
        }
    }
}

proof fn lemma_more_repairs<D: Fn(&[u32], &[u32]) -> i64>(
    dist: D,
    lists: Seq<Seq<u32>>,
    max_layer0: usize,
    max_others: usize,
    deleted: u32,
    stages: Seq<Map<u64, PageView>>,
    after: Map<u64, PageView>,
)
    requires
        are_repairs(dist, lists, max_layer0, max_others, deleted, stages),
        stages.len() > 0,
        is_layer_repaired(
            dist,
            stages.last(),
            lists[stages.len() - 1],
            stages.len() - 1,
            cap(stages.len() - 1, max_layer0, max_others) as int,
            deleted,
            after,
        ),
    ensures
        are_repairs(dist, lists, max_layer0, max_others, deleted, stages.push(after)),
{
    let more = stages.push(after);
    assert forall|l: int| 0 <= l < more.len() - 1 implies is_layer_repaired(
        dist,
        #[trigger] more[l],
        lists[l],
        l,
        cap(l, max_layer0, max_others) as int,
        deleted,
        more[l + 1],
    ) by {
        assert(more[l] == stages[l]);
        if l < stages.len() - 1 {
            assert(more[l + 1] == stages[l + 1]);
        }
    }
}

/// Links one of the neighbours of a node that goes to the others.
fn reconnect_one<D: Fn(&[u32], &[u32]) -> i64>(
    pager: &mut Pager,
    dist: &D,
    neighbor: u32,
    list: &Vec<u32>,
    layer: usize,
    max: usize,
    Ghost(nodes): Ghost<Set<u32>>,
    Ghost(lists): Ghost<Seq<Seq<u32>>>,
    Ghost(to): Ghost<u32>,
    Ghost(n): Ghost<int>,
) -> (r: TableResult<()>)
    requires
        old(pager).wf(),
        is_closed(old(pager).pages(), nodes),
        nodes.contains(neighbor),
        list@.contains(neighbor),
        forall|i: int| 0 <= i < list@.len() ==> nodes.contains(#[trigger] list@[i]),
        forall|x: &[u32], y: &[u32]| #[trigger] dist.requires((x, y)),
        layer < usize::MAX,
        lists_known(lists, nodes),
        layers_free(old(pager).pages(), lists, to, n),
        !list@.contains(to),
    ensures
        final(pager).wf(),
        final(pager).same_meta(old(pager)),
        final(pager).slots@.len() == old(pager).slots@.len(),
        is_relinked(old(pager).pages(), final(pager).pages(), nodes),
        layers_free(final(pager).pages(), lists, to, n),
        r is Ok ==> forall|s: Set<u32>| #[trigger]
            is_mutual(old(pager).pages(), s) ==> is_mutual(final(pager).pages(), s),
        r is Ok ==> is_reconnected(
            *dist,
            old(pager).pages(),
            neighbor,
            list@,
            layer as int,
            max as int,
            final(pager).pages(),
        ),
        r is Err ==> reconnection_fails(
            *dist,
            old(pager).pages(),
            neighbor,
            list@,
            layer as int,
            max as int,
            old(pager).capacity(),
        ),
        r matches Err(e) ==> e matches TableError::Pager(PagerError::PageOverflow { .. }),
{
    let ghost pages = pager.pages();
    let others = copy_without(list, neighbor);
    proof {
        lemma_list_without(list@, neighbor);
        assert forall|k: int| 0 <= k < others@.len() implies nodes.contains(
            #[trigger] others@[k],
        ) && list@.contains(others@[k]) by {
            assert(list_without(list@, neighbor).contains(others@[k]));
            let j = list@.index_of(others@[k]);
            assert(nodes.contains(list@[j]));
        }
    }
    let node = match load_node(pager, neighbor) {
        Ok(x) => x,
        Err(e) => return Err(e),
    };
    let (candidates, distances) = match rate(pager, dist, &node.vector, &others, Ghost(nodes)) {
        Ok(t) => t,
        Err(e) => return Err(e),
    };
    let selected = select_neighbors(pager, dist, &candidates, max, true);
    proof {
        assert forall|k: int| 0 <= k < selected@.len() implies nodes.contains(
            #[trigger] selected@[k],
        ) && list@.contains(selected@[k]) by {
            assert(among(candidates@, selected@[k]));
            let j = choose|j: int|
                0 <= j < candidates@.len() && (#[trigger] candidates@[j]).node_id == selected@[k];
            assert(others@[j] == selected@[k]);
        }
    }
    let connected = connect_nodes(pager, neighbor, &selected, layer, Ghost(nodes));
    let ghost mid = pager.pages();
    proof {
        assert(!selected@.contains(to)) by {
            if selected@.contains(to) {
                let k = selected@.index_of(to);
                assert(list@.contains(selected@[k]));
            }
        }
        assert(layers_free(mid, lists, to, n)) by {
            assert forall|l: int| 0 <= l < n && l < lists.len() implies no_link_to(
                mid,
                #[trigger] lists[l],
                l,
                to,
            ) by {
                assert forall|k: int| 0 <= k < lists[l].len() implies nodes.contains(
                    #[trigger] lists[l][k],
                ) by {}
                lemma_no_link_kept(
                    pages,
                    mid,
                    nodes,
                    lists[l],
                    l,
                    to,
                    layer as int,
                    neighbor,
                    selected@,
                );
            }
        }
    }
    match connected {
        Ok(()) => {},
        Err(e) => {
            proof {
                lemma_reconnection_fails(
                    *dist,
                    pages,
                    neighbor,
                    list@,
                    layer as int,
                    max as int,
                    pager.capacity(),
                    others@,
                    distances@,
                    selected@,
                );
            }
            return Err(e);
        },
    }
    let cut = prune_connections(pager, dist, neighbor, layer, max, Ghost(nodes));
    proof {
        lemma_relinked_twice(pages, mid, pager.pages(), nodes);
        assert forall|s: Set<u32>| #[trigger] is_mutual(pages, s) && connected is Ok implies is_mutual(
            pager.pages(),
            s,
        ) by {
            assert(is_mutual(mid, s));
        }
        assert(layers_free(pager.pages(), lists, to, n)) by {
            assert forall|l: int| 0 <= l < n && l < lists.len() implies no_link_to(
                pager.pages(),
                #[trigger] lists[l],
                l,
                to,
            ) by {
                assert forall|k: int| 0 <= k < lists[l].len() implies nodes.contains(
                    #[trigger] lists[l][k],
                ) by {}
                lemma_no_link_removed(mid, pager.pages(), nodes, lists[l], l, to);
            }
        }
    }
    match cut {
        Ok(()) => {
            proof {
                assert(is_pruned(
                    *dist,
                    mid,
                    neighbor,
                    layer as int,
                    max as int,
                    pager.pages(),
                ));
                lemma_reconnected(
                    *dist,
                    pages,
                    neighbor,
                    list@,
                    layer as int,
                    max as int,
                    pager.pages(),
                    others@,
                    distances@,
                    selected@,
                );
            }
            Ok(())
        },
        Err(e) => Err(e),
    }
}

/// The nodes that a node is linked to are nodes of the graph.
pub(crate) proof fn lemma_lists_known(pages: Map<u64, PageView>, nodes: Set<u32>, id: u32)
    requires
        is_closed(pages, nodes),
        nodes.contains(id),
    ensures
        forall|l: int, i: int|
            0 <= l < lists_without(node_at(pages, id)->Ok_0.neighbors, id).len() && 0 <= i
                < lists_without(node_at(pages, id)->Ok_0.neighbors, id)[l].len() ==> nodes.contains(
                #[trigger] lists_without(node_at(pages, id)->Ok_0.neighbors, id)[l][i],
            ),
{
    let all = node_at(pages, id)->Ok_0.neighbors;
    let lists = lists_without(all, id);
    assert forall|l: int, i: int|
        0 <= l < lists.len() && 0 <= i < lists[l].len() implies nodes.contains(
    #[trigger] lists[l][i]) by {
        let x = lists[l][i];
        lemma_list_without(all[l], id);
        assert(list_without(all[l], id).contains(x));
        let k = all[l].index_of(x);
        assert(node_at(pages, id)->Ok_0.neighbors[l][k] == x);
    }
}

/// None of the listed nodes links to the node on its layer.
pub open spec fn is_left_alone(pages: Map<u64, PageView>, lists: Seq<Seq<u32>>, to: u32) -> bool {
    forall|l: int| 0 <= l < lists.len() ==> no_link_to(pages, #[trigger] lists[l], l, to)
}

/// Removes the links from all neighbours of a node that goes to it, on a layer.
#[verifier::rlimit(30)]
fn unlink_all(
    pager: &mut Pager,
    list: &Vec<u32>,
    l: usize,
    deleted: u32,
    Ghost(nodes): Ghost<Set<u32>>,
    Ghost(lists): Ghost<Seq<Seq<u32>>>,
) -> (r: TableResult<()>)
    requires
        old(pager).wf(),
        is_closed(old(pager).pages(), nodes),
        l < lists.len(),
        list@ == lists[l as int],
        lists_known(lists, nodes),
        forall|k: int| 0 <= k < list@.len() ==> nodes.contains(#[trigger] list@[k]),
        layers_free(old(pager).pages(), lists, deleted, l as int),
    ensures
        final(pager).wf(),
        final(pager).same_meta(old(pager)),
        final(pager).slots@.len() == old(pager).slots@.len(),
        is_relinked(old(pager).pages(), final(pager).pages(), nodes),
        r is Ok,
        forall|s: Set<u32>| #[trigger]
            is_mutual(old(pager).pages(), s) && !s.contains(deleted) ==> is_mutual(
                final(pager).pages(),
                s,
            ),
        layers_free(final(pager).pages(), lists, deleted, l + 1),
        final(pager).pages() == unlinked_to(
            old(pager).pages(),
            list@,
            l as int,
            deleted,
        ),
{
    let ghost start = pager.pages();
    proof {
        assert(is_relinked(start, start, nodes));
        assert(list@.take(0) =~= Seq::empty());
        assert(has_fewer_links(start, start, l as int, deleted, None, Seq::empty())) by {
            reveal(has_fewer_links);
        }
    }
    let mut i: usize = 0;
    while i < list.len()
        invariant
            start == old(pager).pages(),
            l < lists.len(),
            list@ == lists[l as int],
            i <= list@.len(),
            pager.wf(),
            pager.same_meta(old(pager)),
            pager.slots@.len() == old(pager).slots@.len(),
            is_relinked(start, pager.pages(), nodes),
            lists_known(lists, nodes),
            forall|k: int| 0 <= k < list@.len() ==> nodes.contains(#[trigger] list@[k]),
            layers_free(pager.pages(), lists, deleted, l as int),
            no_link_to(pager.pages(), list@.take(i as int), l as int, deleted),
            pager.pages() == unlinked_to(start, list@.take(i as int), l as int, deleted),
            has_fewer_links(
                start,
                pager.pages(),
                l as int,
                deleted,
                None,
                list@.take(i as int),
            ),
        decreases list@.len() - i,
    {
        let ghost before = pager.pages();
        assert(nodes.contains(list@[i as int]));
        let done = unlink(pager, list[i], l, deleted, Ghost(nodes));
        proof {
            lemma_relinked_twice(start, before, pager.pages(), nodes);
            assert(layers_free(pager.pages(), lists, deleted, l as int)) by {
                assert forall|k: int| 0 <= k < l && k < lists.len() implies no_link_to(
                    pager.pages(),
                    #[trigger] lists[k],
                    k,
                    deleted,
                ) by {
                    assert forall|q: int| 0 <= q < lists[k].len() implies nodes.contains(
                        #[trigger] lists[k][q],
                    ) by {}
                    lemma_no_link_removed(
                        before,
                        pager.pages(),
                        nodes,
                        lists[k],
                        k,
                        deleted,
                    );
                }
            }
        }
        match done {
            Ok(()) => {},
            Err(e) => {
                return Err(e);
            },
        }
        proof {
            let part = list@.take(i as int);
            assert forall|q: int| 0 <= q < part.len() implies nodes.contains(
                #[trigger] part[q],
            ) by {
                assert(part[q] == list@[q]);
            }
            lemma_no_link_removed(before, pager.pages(), nodes, part, l as int, deleted);
            let longer = list@.take(i + 1);
            assert(longer.drop_last() =~= part);
            assert(longer.last() == list@[i as int]);
            lemma_one_fewer(
                start,
                before,
                pager.pages(),
                l as int,
                deleted,
                None,
                part,
                list@[i as int],
            );
            assert(part.push(list@[i as int]) =~= longer);
            assert forall|q: int| 0 <= q < longer.len() implies !links_at(
                pager.pages(),
                #[trigger] longer[q],
                l as int,
            ).contains(deleted) by {
                if q < i {
                    assert(part[q] == longer[q]);
                }
            }
        }
        i += 1;
    }
    proof {
        assert(list@.take(i as int) =~= list@);
        assert(layers_free(pager.pages(), lists, deleted, l + 1));
    }
    proof {
        assert forall|s: Set<u32>| #[trigger] is_mutual(start, s) && !s.contains(
            deleted,
        ) implies is_mutual(pager.pages(), s) by {
            lemma_others_mutual(start, pager.pages(), l as int, deleted, list@, s);
        }
    }
    Ok(())
}

/// Links the neighbours of a node that goes to one another, if there are two or more.
#[verifier::rlimit(30)]
fn reconnect_all<D: Fn(&[u32], &[u32]) -> i64>(
    pager: &mut Pager,
    dist: &D,
    list: &Vec<u32>,
    l: usize,
    max: usize,
    Ghost(nodes): Ghost<Set<u32>>,
    Ghost(lists): Ghost<Seq<Seq<u32>>>,
    Ghost(deleted): Ghost<u32>,
) -> (r: TableResult<()>)
    requires
        old(pager).wf(),
        is_closed(old(pager).pages(), nodes),
        l < lists.len() <= usize::MAX,
        list@ == lists[l as int],
        lists_known(lists, nodes),
        forall|k: int| 0 <= k < list@.len() ==> nodes.contains(#[trigger] list@[k]),
        !list@.contains(deleted),
        layers_free(old(pager).pages(), lists, deleted, l + 1),
        forall|x: &[u32], y: &[u32]| #[trigger] dist.requires((x, y)),
    ensures
        final(pager).wf(),
        final(pager).same_meta(old(pager)),
        final(pager).slots@.len() == old(pager).slots@.len(),
        is_relinked(old(pager).pages(), final(pager).pages(), nodes),
        layers_free(final(pager).pages(), lists, deleted, l + 1),
        r is Ok ==> forall|s: Set<u32>| #[trigger]
            is_mutual(old(pager).pages(), s) ==> is_mutual(final(pager).pages(), s),
        r is Ok ==> exists|steps: Seq<Map<u64, PageView>>| #[trigger]
            are_reconnections(*dist, list@, l as int, max as int, steps) && steps.len() == 1 + (
            if list@.len() > 1 {
                list@.len() as int
            } else {
                0
            }) && steps[0] == old(pager).pages() && steps.last() == final(pager).pages(),
        r is Err ==> layer_fails(
            *dist,
            old(pager).pages(),
            list@,
            l as int,
            max as int,
            old(pager).capacity(),
        ),
        r matches Err(e) ==> e matches TableError::Pager(PagerError::PageOverflow { .. }),
{
    let ghost start = pager.pages();
    let ghost capacity = pager.capacity();
    assert(is_relinked(start, start, nodes));
    let ghost mut steps: Seq<Map<u64, PageView>> = seq![pager.pages()];
    if list.len() > 1 {
        let mut k: usize = 0;
        while k < list.len()
            invariant
                start == old(pager).pages(),
                steps.len() == k + 1,
                steps[0] == start,
                forall|s: Set<u32>| #[trigger]
                    is_mutual(start, s) ==> is_mutual(pager.pages(), s),
                capacity == pager.capacity(),
                list@.len() > 1,
                steps.last() == pager.pages(),
                are_reconnections(*dist, list@, l as int, max as int, steps),
                l < lists.len() <= usize::MAX,
                list@ == lists[l as int],
                k <= list@.len(),
                pager.wf(),
                pager.same_meta(old(pager)),
                pager.slots@.len() == old(pager).slots@.len(),
                is_relinked(start, pager.pages(), nodes),
                lists_known(lists, nodes),
                forall|q: int| 0 <= q < list@.len() ==> nodes.contains(#[trigger] list@[q]),
                !list@.contains(deleted),
                forall|x: &[u32], y: &[u32]| #[trigger] dist.requires((x, y)),
                layers_free(pager.pages(), lists, deleted, l + 1),
            decreases list@.len() - k,
        {
            let ghost before = pager.pages();
            assert(nodes.contains(list@[k as int]));
            assert(list@.contains(list@[k as int]));
            let done = reconnect_one(
                pager,
                dist,
                list[k],
                &list,
                l,
                max,
                Ghost(nodes),
                Ghost(lists),
                Ghost(deleted),
                Ghost(l + 1),
            );
            proof {
                lemma_relinked_twice(start, before, pager.pages(), nodes);
            }
            match done {
                Ok(()) => {},
                Err(e) => {
                    proof {
                        reveal(layer_fails);
                        assert(layer_fails_after(
                            *dist,
                            start,
                            list@,
                            l as int,
                            max as int,
                            capacity,
                            steps,
                        ));
                    }
                    return Err(e);
                },
            }
            proof {
                assert forall|s: Set<u32>| #[trigger] is_mutual(start, s) implies is_mutual(
                    pager.pages(),
                    s,
                ) by {
                    assert(is_mutual(before, s));
                }
                lemma_more_reconnections(
                    *dist,
                    list@,
                    l as int,
                    max as int,
                    steps,
                    pager.pages(),
                );
                steps = steps.push(pager.pages());
            }
            k += 1;
        }
    }
    assert(are_reconnections(*dist, list@, l as int, max as int, steps));
    Ok(())
}

/// Repairs a layer.
fn repair_layer<D: Fn(&[u32], &[u32]) -> i64>(
    pager: &mut Pager,
    dist: &D,
    list: &Vec<u32>,
    l: usize,
    max: usize,
    deleted: u32,
    Ghost(nodes): Ghost<Set<u32>>,
    Ghost(lists): Ghost<Seq<Seq<u32>>>,
) -> (r: TableResult<()>)
    requires
        old(pager).wf(),
        is_closed(old(pager).pages(), nodes),
        l < lists.len() <= usize::MAX,
        list@ == lists[l as int],
        lists_known(lists, nodes),
        forall|k: int| 0 <= k < list@.len() ==> nodes.contains(#[trigger] list@[k]),
        !list@.contains(deleted),
        layers_free(old(pager).pages(), lists, deleted, l as int),
        forall|x: &[u32], y: &[u32]| #[trigger] dist.requires((x, y)),
    ensures
        final(pager).wf(),
        final(pager).same_meta(old(pager)),
        final(pager).slots@.len() == old(pager).slots@.len(),
        is_relinked(old(pager).pages(), final(pager).pages(), nodes),
        layers_free(final(pager).pages(), lists, deleted, l + 1),
        r is Ok ==> forall|s: Set<u32>| #[trigger]
            is_mutual(old(pager).pages(), s) && !s.contains(deleted) ==> is_mutual(
                final(pager).pages(),
                s,
            ),
        r is Ok ==> is_layer_repaired(
            *dist,
            old(pager).pages(),
            list@,
            l as int,
            max as int,
            deleted,
            final(pager).pages(),
        ),
        r is Err ==> layer_fails(
            *dist,
            unlinked_to(old(pager).pages(), list@, l as int, deleted),
            list@,
            l as int,
            max as int,
            old(pager).capacity(),
        ),
        r matches Err(e) ==> e matches TableError::Pager(PagerError::PageOverflow { .. }),
{
    let ghost start = pager.pages();
    proof {
        reveal(is_layer_repaired);
    }
    let cut = unlink_all(pager, list, l, deleted, Ghost(nodes), Ghost(lists));
    let ghost mid = pager.pages();
    if let Err(e) = cut {
        return Err(e);
    }
    let done = reconnect_all(
        pager,
        dist,
        list,
        l,
        max,
        Ghost(nodes),
        Ghost(lists),
        Ghost(deleted),
    );
    proof {
        lemma_relinked_twice(start, mid, pager.pages(), nodes);
        assert forall|s: Set<u32>| #[trigger] is_mutual(start, s) && !s.contains(deleted)
            && done is Ok implies is_mutual(pager.pages(), s) by {
            assert(is_mutual(mid, s));
        }
    }
    done
}

/// Removes the links from the neighbours of a node that goes, and links the neighbours to one
/// another instead.
#[verifier::rlimit(30)]
pub fn repair_graph_after_deletion<D: Fn(&[u32], &[u32]) -> i64>(
    pager: &mut Pager,
    dist: &D,
    deleted: u32,
    max_layer0: usize,
    max_others: usize,
    Ghost(nodes): Ghost<Set<u32>>,
) -> (r: TableResult<()>)
    requires
        old(pager).wf(),
        is_closed(old(pager).pages(), nodes),
        nodes.contains(deleted),
        forall|x: &[u32], y: &[u32]| #[trigger] dist.requires((x, y)),
    ensures
        final(pager).wf(),
        final(pager).same_meta(old(pager)),
        final(pager).slots@.len() == old(pager).slots@.len(),
        is_relinked(old(pager).pages(), final(pager).pages(), nodes),
        r is Ok ==> is_left_alone(
            final(pager).pages(),
            lists_without(node_at(old(pager).pages(), deleted)->Ok_0.neighbors, deleted),
            deleted,
        ),
        r is Ok ==> forall|s: Set<u32>| #[trigger]
            is_mutual(old(pager).pages(), s) && !s.contains(deleted) ==> is_mutual(
                final(pager).pages(),
                s,
            ),
        r is Ok ==> is_repaired(
            *dist,
            old(pager).pages(),
            lists_without(node_at(old(pager).pages(), deleted)->Ok_0.neighbors, deleted),
            max_layer0,
            max_others,
            deleted,
            final(pager).pages(),
        ),
        r is Err ==> repair_fails(
            *dist,
            old(pager).pages(),
            lists_without(node_at(old(pager).pages(), deleted)->Ok_0.neighbors, deleted),
            max_layer0,
            max_others,
            deleted,
            old(pager).capacity(),
        ),
        r matches Err(e) ==> e matches TableError::Pager(PagerError::PageOverflow { .. }),
{
    let ghost pages = pager.pages();
    let ghost capacity = pager.capacity();
    let node = match load_node(pager, deleted) {
        Ok(x) => x,
        Err(e) => return Err(e),
    };
    let ghost all = node@.neighbors;
    let ghost lists = lists_without(all, deleted);
    proof {
        assert(is_relinked(pages, pages, nodes));
        assert(lists_known(lists, nodes)) by {
            lemma_lists_known(pages, nodes, deleted);
        }
        assert forall|k: int| 0 <= k < lists.len() implies !(#[trigger] lists[k]).contains(
            deleted,
        ) by {
            lemma_list_without(all[k], deleted);
        }
    }
    let mut l: usize = 0;
    let ghost mut stages: Seq<Map<u64, PageView>> = seq![pages];
    while l < node.neighbors.len()
        invariant
            pages == old(pager).pages(),
            stages.len() == l + 1,
            stages[0] == pages,
            forall|s: Set<u32>| #[trigger]
                is_mutual(pages, s) && !s.contains(deleted) ==> is_mutual(pager.pages(), s),
            capacity == pager.capacity(),
            capacity == old(pager).capacity(),
            all == node_at(pages, deleted)->Ok_0.neighbors,
            stages.last() == pager.pages(),
            are_repairs(*dist, lists, max_layer0, max_others, deleted, stages),
            all == lists_of(node.neighbors@),
            lists == lists_without(all, deleted),
            l <= lists.len(),
            pager.wf(),
            pager.same_meta(old(pager)),
            pager.slots@.len() == old(pager).slots@.len(),
            is_relinked(pages, pager.pages(), nodes),
            lists_known(lists, nodes),
            forall|k: int| 0 <= k < lists.len() ==> !(#[trigger] lists[k]).contains(deleted),
            forall|x: &[u32], y: &[u32]| #[trigger] dist.requires((x, y)),
            layers_free(pager.pages(), lists, deleted, l as int),
        decreases lists.len() - l,
    {
        let ghost start = pager.pages();
        let list = copy_without(&node.neighbors[l], deleted);
        proof {
            assert(list@ == lists[l as int]);
            assert forall|k: int| 0 <= k < list@.len() implies nodes.contains(
                #[trigger] list@[k],
            ) by {
                assert(lists[l as int][k] == list@[k]);
            }
        }
        let max: usize = if l == 0 {
            max_layer0
        } else {
            max_others
        };
        let done = repair_layer(
            pager,
            dist,
            &list,
            l,
            max,
            deleted,
            Ghost(nodes),
            Ghost(lists),
        );
        proof {
            lemma_relinked_twice(pages, start, pager.pages(), nodes);
        }
        if let Err(e) = done {
            proof {
                assert(repair_fails_after(
                    *dist,
                    pages,
                    lists,
                    max_layer0,
                    max_others,
                    deleted,
                    capacity,
                    stages,
                ));
            }
            return Err(e);
        }
        proof {
            assert forall|s: Set<u32>| #[trigger] is_mutual(pages, s) && !s.contains(
                deleted,
            ) implies is_mutual(pager.pages(), s) by {
                assert(is_mutual(start, s));
            }
            lemma_more_repairs(
                *dist,
                lists,
                max_layer0,
                max_others,
                deleted,
                stages,
                pager.pages(),
            );
            stages = stages.push(pager.pages());
        }
        l += 1;
    }
    Ok(())
}

} // verus!
