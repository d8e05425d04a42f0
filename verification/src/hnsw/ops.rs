//! What a vector index does: taking in and deleting vectors, and searching.
use crate::bytemap::ByteMap;
use crate::bytes::copy_bytes;
use crate::fulltext::posting::tombstone_marker;
use crate::hnsw::insert::{descend, is_descent, is_tied_in, tie_in, tying_fails, Limits};
use crate::hnsw::links::{
    is_left_alone, is_mutual, is_relinked, is_repaired, lemma_layer_fits, lemma_lists_known,
    lists_without, no_link_to, repair_fails, repair_graph_after_deletion,
};
use crate::hnsw::mapping::root_at;
use crate::hnsw::node::{
    load_node, node_at, node_bytes, store_node, update_node, with_node, HnswNode, NodeView,
};
use crate::hnsw::search::{is_closed, is_exact, links_at};
use crate::hnsw::table::{is_graph, lemma_graph_kept, PagedHnswVector};
use crate::pager::{PageId, PageView, Pager, PagerError};
use crate::table::{TableError, TableResult};
use crate::txn::pending;
use crate::types::TransactionId;
use vstd::prelude::*;

verus! {

/// The next state of the generator that layers are drawn from.
pub open spec fn next_state(s: u64) -> u64 {
    s.wrapping_mul(1_664_525).wrapping_add(1_013_904_223)
}

/// The generator goes on linearly, modulo two to the 64.
pub proof fn law_generator_is_linear(s: u64)
    ensures
        next_state(s) == (s * 1_664_525 + 1_013_904_223) % 0x1_0000_0000_0000_0000,
{
    let m: int = 0x1_0000_0000_0000_0000;
    let x = s as int * 1_664_525;
    let y = s.wrapping_mul(1_664_525);
    assert(y == x % m);
    vstd::arithmetic::div_mod::lemma_add_mod_noop_right(1_013_904_223, x, m);
    assert(y.wrapping_add(1_013_904_223) == (y + 1_013_904_223) % m);
}

/// A node as it is first stored.
pub open spec fn new_node(id: Seq<u8>, vector: Seq<u32>, layer: usize, tx: TransactionId) -> NodeView {
    NodeView {
        id,
        vector,
        layer,
        neighbors: Seq::new((layer + 1) as nat, |i: int| Seq::<u32>::empty()),
        versions: seq![pending(Seq::empty(), tx)],
    }
}

/// The nodes are the same but for their links, and no other page has changed.
pub open spec fn keeps_nodes(
    before: Map<u64, PageView>,
    after: Map<u64, PageView>,
    nodes: Set<u32>,
    root: PageId,
) -> bool {
    &&& forall|id: u32| #[trigger]
        nodes.contains(id) ==> node_at(after, id) is Ok && node_at(after, id)->Ok_0.same_but_links(
            node_at(before, id)->Ok_0,
        )
    &&& forall|p: u64|
        (p > u32::MAX || !nodes.contains(p as u32)) && p != root.0 && #[trigger] before.contains_key(
            p,
        ) ==> after.contains_key(p) && after[p] == before[p]
}

/// Which of the two is smaller.
pub open spec fn lower(a: usize, b: usize) -> int {
    if a < b {
        a as int
    } else {
        b as int
    }
}

/// A vector was taken in under the node `n`, from one state of the index and its pages to another.
pub open spec fn is_taken_in<D: Fn(&[u32], &[u32]) -> i64>(
    dist: D,
    before: PagedHnswVector,
    pages0: Map<u64, PageView>,
    after: PagedHnswVector,
    pages: Map<u64, PageView>,
    new: NodeView,
    n: u32,
) -> bool {
    let stored = with_node(pages0, n, new);
    let nodes = before.nodes@.insert(n);
    &&& !pages0.contains_key(n as u64)
    &&& after.same_table(&before)
    &&& after.id_to_node@ == before.id_to_node@.insert(new.id, n)
    &&& after.num_vectors == before.num_vectors + 1
    &&& after.nodes@ == nodes
    &&& match before.entry_point {
        None => after.entry_point == Some(n) && after.max_layer == new.layer && pages == stored,
        Some(ep) => {
            &&& if new.layer > before.max_layer {
                after.entry_point == Some(n) && after.max_layer == new.layer
            } else {
                after.entry_point == Some(ep) && after.max_layer == before.max_layer
            }
            &&& exists|near: Seq<u32>| #[trigger]
                is_descent(
                    dist,
                    stored,
                    new.vector,
                    ep,
                    before.max_layer as int,
                    new.layer as int,
                    nodes,
                    near,
                ) && is_tied_in(
                    dist,
                    new.vector,
                    n,
                    lower(new.layer, before.max_layer),
                    before.limits(),
                    nodes,
                    stored,
                    near,
                    pages,
                )
        },
    }
}

/// Tying in the node `n` of a vector, from the entry point on, finds a page too small.
pub open spec fn tie_overflows<D: Fn(&[u32], &[u32]) -> i64>(
    dist: D,
    before: PagedHnswVector,
    pages0: Map<u64, PageView>,
    new: NodeView,
    capacity: nat,
    n: u32,
) -> bool {
    let stored = with_node(pages0, n, new);
    let nodes = before.nodes@.insert(n);
    &&& before.entry_point is Some
    &&& !pages0.contains_key(n as u64)
    &&& exists|near: Seq<u32>| #[trigger]
        is_descent(
            dist,
            stored,
            new.vector,
            before.entry_point->Some_0,
            before.max_layer as int,
            new.layer as int,
            nodes,
            near,
        ) && tying_fails(
            dist,
            new.vector,
            n,
            lower(new.layer, before.max_layer),
            before.limits(),
            nodes,
            stored,
            near,
            capacity,
        )
}

/// Taking in a vector finds a page too small: for its node, or for a link.
pub open spec fn take_in_fails<D: Fn(&[u32], &[u32]) -> i64>(
    dist: D,
    before: PagedHnswVector,
    pages0: Map<u64, PageView>,
    new: NodeView,
    capacity: nat,
) -> bool {
    node_bytes(new).len() > capacity || exists|n: u32| #[trigger]
        tie_overflows(dist, before, pages0, new, capacity, n)
}

/// Where the nodes of a set are linked both ways, they still are, together with the new ones.
pub open spec fn stays_mutual(
    before: Map<u64, PageView>,
    nodes0: Set<u32>,
    after: Map<u64, PageView>,
    nodes: Set<u32>,
) -> bool {
    forall|s: Set<u32>| #[trigger]
        is_mutual(before, s) && s.subset_of(nodes0) ==> is_mutual(
            after,
            s.union(nodes.difference(nodes0)),
        )
}

/// A node without links that nobody links to leaves a graph mutual.
proof fn lemma_stored_mutual(
    before: Map<u64, PageView>,
    after: Map<u64, PageView>,
    nodes: Set<u32>,
    n: u32,
    new: NodeView,
    s: Set<u32>,
)
    requires
        is_closed(before, nodes),
        !nodes.contains(n),
        node_at(after, n) == Ok::<NodeView, TableError>(new),
        forall|id: u32| #[trigger]
            nodes.contains(id) ==> node_at(after, id) == node_at(before, id),
        forall|l: int| 0 <= l < new.neighbors.len() ==> (#[trigger] new.neighbors[l]).len() == 0,
        s.subset_of(nodes),
        is_mutual(before, s),
    ensures
        is_mutual(after, s.insert(n)),
{
    reveal(is_mutual);
    let all = s.insert(n);
    assert forall|a: u32, l: int, b: u32|
        all.contains(a) && all.contains(b) && #[trigger] links_at(after, a, l).contains(
            b,
        ) implies links_at(after, b, l).contains(a) by {
        if a == n {
            assert(new.links(l).len() == 0);
        } else {
            assert(nodes.contains(a));
            assert(links_at(before, a, l).contains(b));
            let k = links_at(before, a, l).index_of(b);
            assert(nodes.contains(node_at(before, a)->Ok_0.neighbors[l][k]));
            assert(s.contains(b));
            assert(nodes.contains(b));
            assert(links_at(before, b, l).contains(a));
        }
    }
}

/// A graph stays mutual where its nodes stay.
proof fn lemma_kept_mutual(
    before: Map<u64, PageView>,
    after: Map<u64, PageView>,
    nodes: Set<u32>,
    s: Set<u32>,
)
    requires
        forall|id: u32| #[trigger]
            nodes.contains(id) ==> node_at(after, id) == node_at(before, id),
        s.subset_of(nodes),
        is_mutual(before, s),
    ensures
        is_mutual(after, s),
{
    reveal(is_mutual);
    assert forall|a: u32, l: int, b: u32|
        s.contains(a) && s.contains(b) && #[trigger] links_at(after, a, l).contains(b) implies
        links_at(after, b, l).contains(a) by {
        assert(nodes.contains(a) && nodes.contains(b));
        assert(links_at(before, a, l).contains(b));
    }
}

/// A graph with one more node, as it is first stored.
proof fn lemma_stored(
    before: Map<u64, PageView>,
    after: Map<u64, PageView>,
    nodes: Set<u32>,
    map: Map<Seq<u8>, u32>,
    entry: Option<u32>,
    root: PageId,
    n: u32,
    new: NodeView,
)
    requires
        is_graph(before, nodes, map, entry, root),
        before.contains_key(root.0),
        !before.contains_key(n as u64),
        after == with_node(before, n, new),
        node_at(after, n) == Ok::<NodeView, TableError>(new),
        forall|l: int| 0 <= l < new.neighbors.len() ==> (#[trigger] new.neighbors[l]).len() == 0,
    ensures
        is_graph(after, nodes.insert(n), map, entry, root),
        forall|id: u32| #[trigger]
            nodes.contains(id) ==> node_at(after, id) == node_at(before, id),
        !nodes.contains(n),
{
    assert forall|id: u32| #[trigger] nodes.contains(id) implies node_at(after, id) == node_at(
        before,
        id,
    ) by {
        assert(node_at(before, id) is Ok);
    }
    let all = nodes.insert(n);
    assert(is_closed(after, all)) by {
        reveal(is_exact);
        assert forall|id: u32| #[trigger] all.contains(id) implies node_at(after, id) is Ok
            && is_exact(after, id) && forall|l: int, i: int|
            0 <= l < node_at(after, id)->Ok_0.neighbors.len() && 0 <= i < node_at(
                after,
                id,
            )->Ok_0.neighbors[l].len() ==> all.contains(
                #[trigger] node_at(after, id)->Ok_0.neighbors[l][i],
            ) by {
            if id != n {
                assert(nodes.contains(id));
                assert(is_exact(before, id));
            }
        }
    }
}

/// A graph stays one when its nodes are relinked.
pub(crate) proof fn lemma_relinked_graph(
    before: Map<u64, PageView>,
    after: Map<u64, PageView>,
    nodes: Set<u32>,
    map: Map<Seq<u8>, u32>,
    entry: Option<u32>,
    root: PageId,
)
    requires
        is_graph(before, nodes, map, entry, root),
        is_relinked(before, after, nodes),
        root_at(before, root) is Ok,
    ensures
        is_graph(after, nodes, map, entry, root),
        keeps_nodes(before, after, nodes, root),
        root_at(after, root) == root_at(before, root),
{
    assert(before.contains_key(root.0));
    assert(after[root.0] == before[root.0]);
    assert(after.contains_key(root.0));
    assert forall|k: Seq<u8>| #[trigger] map.contains_key(k) implies nodes.contains(map[k])
        && node_at(after, map[k])->Ok_0.id == k by {
        assert(node_at(after, map[k])->Ok_0.same_but_links(node_at(before, map[k])->Ok_0));
    }
    assert forall|p: u64|
        (p > u32::MAX || !nodes.contains(p as u32)) && p != root.0 && #[trigger] before.contains_key(
            p,
        ) implies after.contains_key(p) && after[p] == before[p] by {
        assert(after.dom().contains(p));
    }
}

impl PagedHnswVector {
    /// Draws the next number for choosing a layer.
    pub fn next_random(&mut self) -> (r: u64)
        ensures
            r == next_state(old(self).rng_state),
            final(self).rng_state == r,
            final(self).table_id == old(self).table_id,
            final(self).name == old(self).name,
            final(self).root_page_id == old(self).root_page_id,
            final(self).config == old(self).config,
            final(self).entry_point == old(self).entry_point,
            final(self).max_layer == old(self).max_layer,
            final(self).num_vectors == old(self).num_vectors,
            final(self).id_to_node == old(self).id_to_node,
            final(self).nodes == old(self).nodes,
    {
        self.rng_state = self.rng_state.wrapping_mul(1_664_525).wrapping_add(1_013_904_223);
        self.rng_state
    }

    /// Why a vector cannot be taken in.
    pub open spec fn refusal(&self, id: Seq<u8>, vector: Seq<u32>) -> Option<TableError> {
        if vector.len() != self.config.dimensions {
            Some(
                TableError::DimensionMismatch {
                    expected: self.config.dimensions,
                    found: vector.len() as usize,
                },
            )
        } else if self.id_to_node@.contains_key(id) {
            Some(TableError::AlreadyExists)
        } else {
            None
        }
    }

    /// Whether a vector can be taken in: it has the right length, and its identifier is new.
    pub fn check_vector(&self, id: &[u8], vector: &[u32]) -> (r: TableResult<()>)
        requires
            self.id_to_node.wf(),
        ensures
            match r {
                Ok(()) => self.refusal(id@, vector@) is None,
                Err(e) => self.refusal(id@, vector@) == Some(e),
            },
    {
        if vector.len() != self.config.dimensions {
            return Err(
                TableError::DimensionMismatch {
                    expected: self.config.dimensions,
                    found: vector.len(),
                },
            );
        }
        if self.id_to_node.contains_key(id) {
            return Err(TableError::AlreadyExists);
        }
        Ok(())
    }

    #[verifier::rlimit(30)]
    fn take_in<D: Fn(&[u32], &[u32]) -> i64>(
        &mut self,
        pager: &mut Pager,
        dist: &D,
        id: &[u8],
        vector: &[u32],
        layer: usize,
        tx_id: TransactionId,
    ) -> (r: TableResult<()>)
        requires
            old(self).wf(old(pager)),
            old(self).refusal(id@, vector@) is None,
            layer < u32::MAX,
            old(self).num_vectors < usize::MAX,
            old(pager).slots@.len() <= u32::MAX,
            forall|x: &[u32], y: &[u32]| #[trigger] dist.requires((x, y)),
        ensures
            final(self).wf(final(pager)),
            final(pager).same_meta(old(pager)),
            final(self).same_table(old(self)),
            keeps_nodes(
                old(pager).pages(),
                final(pager).pages(),
                old(self).nodes@,
                old(self).root_page_id,
            ),
            root_at(final(pager).pages(), old(self).root_page_id) == root_at(
                old(pager).pages(),
                old(self).root_page_id,
            ),
            r is Ok ==> exists|n: u32| #[trigger]
                is_taken_in(
                    *dist,
                    *old(self),
                    old(pager).pages(),
                    *final(self),
                    final(pager).pages(),
                    new_node(id@, vector@, layer, tx_id),
                    n,
                ),
            r matches Err(e) ==> {
                &&& e matches TableError::Pager(PagerError::PageOverflow { .. })
                &&& final(self).id_to_node == old(self).id_to_node
                &&& final(self).entry_point == old(self).entry_point
                &&& final(self).max_layer == old(self).max_layer
                &&& final(self).num_vectors == old(self).num_vectors
            },
            r is Ok ==> node_bytes(new_node(id@, vector@, layer, tx_id)).len() <= old(pager).capacity(),
            r is Ok ==> stays_mutual(
                old(pager).pages(),
                old(self).nodes@,
                final(pager).pages(),
                final(self).nodes@,
            ),
            r is Err ==> take_in_fails(
                *dist,
                *old(self),
                old(pager).pages(),
                new_node(id@, vector@, layer, tx_id),
                old(pager).capacity(),
            ),
            old(self).entry_point is None ==> (r is Ok <==> node_bytes(
                new_node(id@, vector@, layer, tx_id),
            ).len() <= old(pager).capacity()),
    {
        let ghost pages0 = pager.pages();
        let ghost nodes0 = self.nodes@;
        let ghost map0 = self.id_to_node@;
        let ghost new = new_node(id@, vector@, layer, tx_id);
        let key = copy_bytes(id);
        let node = HnswNode::new(copy_bytes(id), copy_words(vector), layer, tx_id);
        assert(node@ =~= new);
        let n: u32 = match store_node(pager, &node) {
            Ok(n) => n,
            Err(e) => {
                proof {
                    lemma_graph_kept(
                        pages0,
                        pager.pages(),
                        nodes0,
                        map0,
                        self.entry_point,
                        self.root_page_id,
                    );
                }
                return Err(e);
            },
        };
        let ghost stored = pager.pages();
        let ghost nodes = nodes0.insert(n);
        proof {
            lemma_stored(
                pages0,
                stored,
                nodes0,
                map0,
                self.entry_point,
                self.root_page_id,
                n,
                new,
            );
            self.nodes = Ghost(nodes);
            assert(root_at(stored, self.root_page_id) == root_at(pages0, self.root_page_id));
        }
        match self.entry_point {
            Some(ep) => {
                let max_layer: usize = self.max_layer;
                let near = match descend(pager, dist, vector, ep, max_layer, layer, Ghost(nodes)) {
                    Ok(x) => x,
                    Err(e) => return Err(e),
                };
                let ghost start = near@;
                let top: usize = if layer < max_layer {
                    layer
                } else {
                    max_layer
                };
                let limits = Limits {
                    ef: self.config.ef_construction,
                    max_layer0: self.config.max_connections_layer0,
                    max_others: self.config.max_connections,
                };
                let done = tie_in(pager, dist, vector, n, near, top, limits, Ghost(nodes));
                proof {
                    lemma_relinked_graph(
                        stored,
                        pager.pages(),
                        nodes,
                        map0,
                        self.entry_point,
                        self.root_page_id,
                    );
                    lemma_kept_since(pages0, stored, pager.pages(), nodes0, n, self.root_page_id);
                }
                if let Err(e) = done {
                    proof {
                        assert(tie_overflows(*dist, *old(self), pages0, new, pager.capacity(), n));
                    }
                    return Err(e);
                }
                if layer > max_layer {
                    self.max_layer = layer;
                    self.entry_point = Some(n);
                }
            },
            None => {
                self.entry_point = Some(n);
                self.max_layer = layer;
            },
        }
        proof {
            assert(nodes.contains(n));
            assert(node_at(pager.pages(), n)->Ok_0.id == id@);
            self.id_to_node.lemma_len();
            assert(!map0.contains_key(key@));
        }
        self.id_to_node.insert(key, n);
        self.num_vectors += 1;
        proof {
            self.id_to_node.lemma_len();
            assert(self.id_to_node@ == map0.insert(id@, n));
            assert(is_taken_in(*dist, *old(self), pages0, *self, pager.pages(), new, n));
            assert forall|s: Set<u32>| #[trigger]
                is_mutual(pages0, s) && s.subset_of(nodes0) implies is_mutual(
                pager.pages(),
                s.union(nodes.difference(nodes0)),
            ) by {
                lemma_stored_mutual(pages0, stored, nodes0, n, new, s);
                assert(s.union(nodes.difference(nodes0)) =~= s.insert(n));
                assert(is_mutual(stored, s.insert(n)));
            }
        }
        Ok(())
    }
}

impl PagedHnswVector {
    /// Takes in a vector, with its highest layer. What the index keeps of it is not stored yet.
    pub fn insert_vector<D: Fn(&[u32], &[u32]) -> i64>(
        &mut self,
        pager: &mut Pager,
        dist: &D,
        id: &[u8],
        vector: &[u32],
        layer: usize,
    ) -> (r: TableResult<()>)
        requires
            old(self).wf(old(pager)),
            layer < u32::MAX,
            old(self).num_vectors < usize::MAX,
            old(pager).slots@.len() <= u32::MAX,
            forall|x: &[u32], y: &[u32]| #[trigger] dist.requires((x, y)),
        ensures
            final(self).wf(final(pager)),
            final(pager).same_meta(old(pager)),
            final(self).same_table(old(self)),
            keeps_nodes(
                old(pager).pages(),
                final(pager).pages(),
                old(self).nodes@,
                old(self).root_page_id,
            ),
            old(self).refusal(id@, vector@) matches Some(e) ==> r == Err::<(), TableError>(e)
                && *final(self) == *old(self) && final(pager).pages() == old(pager).pages(),
            r is Ok ==> exists|n: u32| #[trigger]
                is_taken_in(
                    *dist,
                    *old(self),
                    old(pager).pages(),
                    *final(self),
                    final(pager).pages(),
                    new_node(id@, vector@, layer, TransactionId(0)),
                    n,
                ),
            r is Ok ==> stays_mutual(
                old(pager).pages(),
                old(self).nodes@,
                final(pager).pages(),
                final(self).nodes@,
            ),
            r is Err && old(self).refusal(id@, vector@) is None ==> {
                &&& r->Err_0 matches TableError::Pager(PagerError::PageOverflow { .. })
                &&& final(self).id_to_node == old(self).id_to_node
                &&& final(self).entry_point == old(self).entry_point
                &&& final(self).max_layer == old(self).max_layer
                &&& final(self).num_vectors == old(self).num_vectors
            },
            r is Ok ==> node_bytes(new_node(id@, vector@, layer, TransactionId(0))).len() <= old(pager).capacity(),
            r is Err && old(self).refusal(id@, vector@) is None ==> take_in_fails(
                *dist,
                *old(self),
                old(pager).pages(),
                new_node(id@, vector@, layer, TransactionId(0)),
                old(pager).capacity(),
            ),
            old(self).refusal(id@, vector@) is None && old(self).entry_point is None ==> (r is Ok
                <==> node_bytes(new_node(id@, vector@, layer, TransactionId(0))).len() <= old(pager).capacity()),
    {
        if let Err(e) = self.check_vector(id, vector) {
            return Err(e);
        }
        self.take_in(pager, dist, id, vector, layer, TransactionId(0))
    }

    /// Takes in a vector for a transaction, with its highest layer, and stores what the index
    /// keeps of it.
    pub fn insert_vector_tx<D: Fn(&[u32], &[u32]) -> i64>(
        &mut self,
        pager: &mut Pager,
        dist: &D,
        id: &[u8],
        vector: &[u32],
        layer: usize,
        tx_id: TransactionId,
    ) -> (r: TableResult<()>)
        requires
            old(self).wf(old(pager)),
            layer < u32::MAX,
            old(self).num_vectors < usize::MAX,
            old(pager).slots@.len() <= u32::MAX,
            forall|x: &[u32], y: &[u32]| #[trigger] dist.requires((x, y)),
        ensures
            final(self).wf(final(pager)),
            final(pager).same_meta(old(pager)),
            final(self).same_table(old(self)),
            keeps_nodes(
                old(pager).pages(),
                final(pager).pages(),
                old(self).nodes@,
                old(self).root_page_id,
            ),
            old(self).refusal(id@, vector@) matches Some(e) ==> r == Err::<(), TableError>(e)
                && *final(self) == *old(self) && final(pager).pages() == old(pager).pages(),
            r is Ok ==> final(self).is_stored(final(pager).pages(), final(pager).slots@.len())
                && exists|n: u32, mid: Map<u64, PageView>| #[trigger]
                is_taken_in(
                    *dist,
                    *old(self),
                    old(pager).pages(),
                    *final(self),
                    mid,
                    new_node(id@, vector@, layer, tx_id),
                    n,
                ) && is_stored_over(*old(self), mid, *final(self), final(pager).pages()),
            r is Ok ==> stays_mutual(
                old(pager).pages(),
                old(self).nodes@,
                final(pager).pages(),
                final(self).nodes@,
            ),
            r is Err && old(self).refusal(id@, vector@) is None ==> {
                &&& r->Err_0 matches TableError::Pager(PagerError::PageOverflow { .. })
                &&& final(self).id_to_node == old(self).id_to_node
                &&& final(self).entry_point == old(self).entry_point
                &&& final(self).max_layer == old(self).max_layer
                &&& final(self).num_vectors == old(self).num_vectors
            },
            r is Ok ==> node_bytes(new_node(id@, vector@, layer, tx_id)).len() <= old(pager).capacity(),
            r is Err && old(self).refusal(id@, vector@) is None ==> take_in_fails(
                *dist,
                *old(self),
                old(pager).pages(),
                new_node(id@, vector@, layer, tx_id),
                old(pager).capacity(),
            ),
            old(self).refusal(id@, vector@) is None && old(self).entry_point is None ==> (r is Ok
                <==> node_bytes(new_node(id@, vector@, layer, tx_id)).len() <= old(pager).capacity()),
    {
        if let Err(e) = self.check_vector(id, vector) {
            return Err(e);
        }
        let done = self.take_in(pager, dist, id, vector, layer, tx_id);
        if let Err(e) = done {
            return Err(e);
        }
        let ghost mid = pager.pages();
        let stored = self.persist_mapping(pager);
        proof {
            lemma_kept_stored(
                old(pager).pages(),
                mid,
                pager.pages(),
                old(self).nodes@,
                self.nodes@,
                self.id_to_node@,
                self.entry_point,
                self.root_page_id,
            );
            assert(is_stored_over(*old(self), mid, *self, pager.pages()));
            lemma_graph_kept(
                mid,
                pager.pages(),
                self.nodes@,
                self.id_to_node@,
                self.entry_point,
                self.root_page_id,
            );
            let fresh = self.nodes@.difference(old(self).nodes@);
            assert forall|s: Set<u32>| #[trigger]
                is_mutual(old(pager).pages(), s) && s.subset_of(old(self).nodes@) implies is_mutual(
                pager.pages(),
                s.union(fresh),
            ) by {
                assert(is_mutual(mid, s.union(fresh)));
                lemma_kept_mutual(mid, pager.pages(), self.nodes@, s.union(fresh));
            }
        }
        stored
    }

    /// Takes a vector out of the index: its neighbours are linked to one another instead.
    pub fn delete_vector<D: Fn(&[u32], &[u32]) -> i64>(
        &mut self,
        pager: &mut Pager,
        dist: &D,
        id: &[u8],
    ) -> (r: TableResult<()>)
        requires
            old(self).wf(old(pager)),
            forall|x: &[u32], y: &[u32]| #[trigger] dist.requires((x, y)),
        ensures
            final(self).wf(final(pager)),
            final(pager).same_meta(old(pager)),
            final(self).same_table(old(self)),
            final(self).nodes == old(self).nodes,
            keeps_nodes(
                old(pager).pages(),
                final(pager).pages(),
                old(self).nodes@,
                old(self).root_page_id,
            ),
            !old(self).id_to_node@.contains_key(id@) ==> r == Err::<(), TableError>(
                TableError::KeyNotFound,
            ) && final(pager).pages() == old(pager).pages() && *final(self) == *old(self),
            old(self).id_to_node@.contains_key(id@) ==> final(self).id_to_node@ == old(self).id_to_node@.remove(id@),
            r is Ok ==> {
                let n = old(self).id_to_node@[id@];
                &&& old(self).id_to_node@.contains_key(id@)
                &&& final(self).num_vectors == old(self).num_vectors - 1
                &&& final(self).is_stored(final(pager).pages(), final(pager).slots@.len())
                // The neighbours were linked to one another, and what the index keeps was stored.
                &&& exists|mid: Map<u64, PageView>| #[trigger]
                    is_repaired(
                        *dist,
                        old(pager).pages(),
                        lists_without(node_at(old(pager).pages(), n)->Ok_0.neighbors, n),
                        old(self).config.max_connections_layer0,
                        old(self).config.max_connections,
                        n,
                        mid,
                    ) && is_stored_over(*old(self), mid, *final(self), final(pager).pages())
                // The others are linked both ways if they were.
                &&& forall|s: Set<u32>| #[trigger]
                    is_mutual(old(pager).pages(), s) && s.subset_of(old(self).nodes@)
                        && !s.contains(n) ==> is_mutual(final(pager).pages(), s)
                // Nobody that the vector was linked to links back to it.
                &&& is_left_alone(
                    final(pager).pages(),
                    lists_without(node_at(old(pager).pages(), n)->Ok_0.neighbors, n),
                    n,
                )
                // An entry point is replaced by a node with the highest layer that is left.
                &&& if old(self).entry_point == Some(n) {
                    (final(self).entry_point, final(self).max_layer) == entry_of(
                        best_of(old(pager).pages(), ids_in(final(self).id_to_node), n),
                    )
                } else {
                    final(self).entry_point == old(self).entry_point && final(self).max_layer
                        == old(self).max_layer
                }
            },
            r is Err && old(self).id_to_node@.contains_key(id@) ==> {
                let n = old(self).id_to_node@[id@];
                &&& repair_fails(
                    *dist,
                    old(pager).pages(),
                    lists_without(node_at(old(pager).pages(), n)->Ok_0.neighbors, n),
                    old(self).config.max_connections_layer0,
                    old(self).config.max_connections,
                    n,
                    old(pager).capacity(),
                )
                &&& r->Err_0 matches TableError::Pager(PagerError::PageOverflow { .. })
                &&& final(self).entry_point == old(self).entry_point
                &&& final(self).max_layer == old(self).max_layer
                &&& final(self).num_vectors == old(self).num_vectors
            },
    {
        let ghost pages0 = pager.pages();
        let ghost map0 = self.id_to_node@;
        proof {
            self.id_to_node.lemma_len();
        }
        if !self.id_to_node.contains_key(id) {
            return Err(TableError::KeyNotFound);
        }
        let n: u32 = match self.id_to_node.remove(id) {
            Some(n) => n,
            None => return Err(TableError::KeyNotFound),
        };
        let ghost nodes = self.nodes@;
        proof {
            self.id_to_node.lemma_len();
            assert(nodes.contains(map0[id@]));
            assert(is_graph(
                pages0,
                nodes,
                self.id_to_node@,
                self.entry_point,
                self.root_page_id,
            ));
        }
        let repaired = repair_graph_after_deletion(
            pager,
            dist,
            n,
            self.config.max_connections_layer0,
            self.config.max_connections,
            Ghost(nodes),
        );
        let ghost mid = pager.pages();
        proof {
            lemma_relinked_graph(
                pages0,
                mid,
                nodes,
                self.id_to_node@,
                self.entry_point,
                self.root_page_id,
            );
        }
        if let Err(e) = repaired {
            return Err(e);
        }
        let was_entry: bool = match self.entry_point {
            Some(ep) => ep == n,
            None => false,
        };
        if was_entry {
            let (entry, layer) = match select_replacement_entry_point(
                pager,
                &self.id_to_node,
                n,
                Ghost(nodes),
            ) {
                Ok(x) => x,
                Err(e) => return Err(e),
            };
            proof {
                lemma_best_same(pages0, mid, ids_in(self.id_to_node), n, nodes);
            }
            self.entry_point = entry;
            self.max_layer = layer;
        }
        self.num_vectors -= 1;
        let stored = self.persist_mapping(pager);
        proof {
            lemma_kept_stored(
                pages0,
                mid,
                pager.pages(),
                nodes,
                nodes,
                self.id_to_node@,
                self.entry_point,
                self.root_page_id,
            );
            assert(is_stored_over(*old(self), mid, *self, pager.pages()));
            lemma_graph_kept(
                mid,
                pager.pages(),
                nodes,
                self.id_to_node@,
                self.entry_point,
                self.root_page_id,
            );
            assert forall|s: Set<u32>| #[trigger] is_mutual(pages0, s) && s.subset_of(nodes)
                && !s.contains(n) implies is_mutual(pager.pages(), s) by {
                assert(is_mutual(mid, s));
                lemma_kept_mutual(mid, pager.pages(), nodes, s);
            }
            lemma_lists_known(pages0, nodes, n);
            lemma_left_alone_kept(
                mid,
                pager.pages(),
                nodes,
                lists_without(node_at(pages0, n)->Ok_0.neighbors, n),
                n,
                self.id_to_node@,
                self.entry_point,
                self.root_page_id,
            );
        }
        stored
    }

    /// Marks a vector as deleted for a transaction.
    pub fn delete_vector_tx(&self, pager: &mut Pager, id: &[u8], tx_id: TransactionId) -> (r:
        TableResult<()>)
        requires
            self.wf(old(pager)),
        ensures
            self.wf(final(pager)),
            final(pager).same_meta(old(pager)),
            !self.id_to_node@.contains_key(id@) ==> r == Err::<(), TableError>(
                TableError::KeyNotFound,
            ),
            r is Err ==> final(pager).pages() == old(pager).pages(),
            self.id_to_node@.contains_key(id@) ==> {
                let n = self.id_to_node@[id@];
                let marked = marked_deleted(node_at(old(pager).pages(), n)->Ok_0, tx_id);
                &&& r is Ok <==> node_bytes(marked).len() <= old(pager).capacity()
                &&& r is Ok ==> final(pager).pages() == with_node(old(pager).pages(), n, marked)
                    && node_at(final(pager).pages(), n) == Ok::<NodeView, TableError>(marked)
                &&& r matches Err(e) ==> e matches TableError::Pager(
                    PagerError::PageOverflow { .. },
                )
            },
    {
        let ghost pages0 = pager.pages();
        let n: u32 = match self.id_to_node.get(id) {
            Some(n) => *n,
            None => return Err(TableError::KeyNotFound),
        };
        assert(self.nodes@.contains(n));
        let mut node = match load_node(pager, n) {
            Ok(x) => x,
            Err(e) => return Err(e),
        };
        proof {
            lemma_layer_fits(pages0, n);
        }
        node.prepend_tombstone(tx_id);
        let done = update_node(pager, n, &node);
        proof {
            if done is Ok {
                lemma_reversioned(
                    pages0,
                    pager.pages(),
                    self.nodes@,
                    self.id_to_node@,
                    self.entry_point,
                    self.root_page_id,
                    n,
                    node@,
                );
            }
        }
        done
    }
}

/// A node with one more version, which marks it as deleted.
pub open spec fn marked_deleted(n: NodeView, tx: TransactionId) -> NodeView {
    NodeView { versions: seq![pending(tombstone_marker(), tx)] + n.versions, ..n }
}

/// The pages after the index was stored: but for its root, no page that was there has changed.
pub open spec fn is_stored_over(
    before: PagedHnswVector,
    pages0: Map<u64, PageView>,
    after: PagedHnswVector,
    pages: Map<u64, PageView>,
) -> bool {
    &&& forall|p: u64| #[trigger]
        pages0.contains_key(p) ==> pages.contains_key(p) && (p != before.root_page_id.0 ==> pages[p]
            == pages0[p])
    &&& root_at(pages, before.root_page_id)->Ok_0 == after.stored_root(
        root_at(pages0, before.root_page_id)->Ok_0,
        root_at(pages, before.root_page_id)->Ok_0.mapping_page_id,
    )
}

/// The nodes of the map, in the order of their keys.
pub open spec fn ids_in(map: ByteMap<u32>) -> Seq<u32> {
    Seq::new(map.entries@.len(), |i: int| map.entries@[i].1)
}

/// The first of the nodes with the highest layer, and that layer.
pub open spec fn best_of(pages: Map<u64, PageView>, ids: Seq<u32>, without: u32) -> Option<
    (u32, usize),
>
    decreases ids.len(),
{
    if ids.len() == 0 {
        None
    } else {
        let before = best_of(pages, ids.drop_last(), without);
        let id = ids.last();
        let layer = node_at(pages, id)->Ok_0.layer;
        if id == without {
            before
        } else {
            match before {
                Some((b, l)) => if layer <= l {
                    before
                } else {
                    Some((id, layer))
                },
                None => Some((id, layer)),
            }
        }
    }
}

/// The entry point and the highest layer that a choice stands for.
pub open spec fn entry_of(best: Option<(u32, usize)>) -> (Option<u32>, usize) {
    match best {
        Some((id, layer)) => (Some(id), layer),
        None => (None, 0),
    }
}

/// The node that replaces an entry point is one of the others, and none of them reaches higher.
pub proof fn law_replacement_is_highest(pages: Map<u64, PageView>, ids: Seq<u32>, without: u32)
    ensures
        best_of(pages, ids, without) matches Some((id, layer)) ==> ids.contains(id) && id
            != without && layer == node_at(pages, id)->Ok_0.layer,
        forall|i: int|
            0 <= i < ids.len() && #[trigger] ids[i] != without ==> best_of(pages, ids, without)
                is Some && node_at(pages, ids[i])->Ok_0.layer <= best_of(
                pages,
                ids,
                without,
            )->Some_0.1,
    decreases ids.len(),
{
    if ids.len() > 0 {
        let rest = ids.drop_last();
        law_replacement_is_highest(pages, rest, without);
        assert forall|i: int| 0 <= i < ids.len() && #[trigger] ids[i] != without implies best_of(
            pages,
            ids,
            without,
        ) is Some && node_at(pages, ids[i])->Ok_0.layer <= best_of(pages, ids, without)->Some_0.1 by {
            if i < ids.len() - 1 {
                assert(rest[i] == ids[i]);
            }
        }
        if let Some((id, layer)) = best_of(pages, rest, without) {
            let j = rest.index_of(id);
            assert(ids[j] == id);
        }
        assert(ids[ids.len() - 1] == ids.last());
    }
}

proof fn lemma_best_same(
    before: Map<u64, PageView>,
    after: Map<u64, PageView>,
    ids: Seq<u32>,
    without: u32,
    nodes: Set<u32>,
)
    requires
        is_relinked(before, after, nodes),
        forall|i: int| 0 <= i < ids.len() ==> nodes.contains(#[trigger] ids[i]),
    ensures
        best_of(after, ids, without) == best_of(before, ids, without),
    decreases ids.len(),
{
    if ids.len() > 0 {
        let rest = ids.drop_last();
        assert forall|i: int| 0 <= i < rest.len() implies nodes.contains(#[trigger] rest[i]) by {
            assert(rest[i] == ids[i]);
        }
        lemma_best_same(before, after, rest, without, nodes);
        assert(nodes.contains(ids[ids.len() - 1]));
    }
}

/// Chooses the entry point that replaces a node: the first one with the highest layer.
fn select_replacement_entry_point(
    pager: &Pager,
    map: &ByteMap<u32>,
    deleted: u32,
    Ghost(nodes): Ghost<Set<u32>>,
) -> (r: TableResult<(Option<u32>, usize)>)
    requires
        pager.wf(),
        map.wf(),
        is_closed(pager.pages(), nodes),
        forall|k: Seq<u8>| #[trigger] map@.contains_key(k) ==> nodes.contains(map@[k]),
    ensures
        r is Ok,
        r->Ok_0 == entry_of(best_of(pager.pages(), ids_in(*map), deleted)),
        r->Ok_0.0 matches Some(id) ==> nodes.contains(id),
        r->Ok_0.1 <= u32::MAX,
        forall|i: int| 0 <= i < ids_in(*map).len() ==> nodes.contains(#[trigger] ids_in(*map)[i]),
{
    let ghost ids = ids_in(*map);
    let mut best: Option<(u32, usize)> = None;
    let mut i: usize = 0;
    while i < map.entries.len()
        invariant
            i <= map.entries@.len(),
            pager.wf(),
            map.wf(),
            ids == ids_in(*map),
            is_closed(pager.pages(), nodes),
            forall|k: Seq<u8>| #[trigger] map@.contains_key(k) ==> nodes.contains(map@[k]),
            best == best_of(pager.pages(), ids.take(i as int), deleted),
            best matches Some((id, layer)) ==> nodes.contains(id) && layer <= u32::MAX,
            forall|j: int| 0 <= j < i ==> nodes.contains(#[trigger] ids[j]),
        decreases map.entries@.len() - i,
    {
        let id: u32 = map.entries[i].1;
        proof {
            map.lemma_entry(i as int);
            assert(map@.contains_key(map.entries@[i as int].0@));
            assert(nodes.contains(id));
            assert(ids.take(i + 1).drop_last() =~= ids.take(i as int));
            assert(ids.take(i + 1).last() == id);
        }
        if id != deleted {
            let node = match load_node(pager, id) {
                Ok(x) => x,
                Err(e) => return Err(e),
            };
            proof {
                lemma_layer_fits(pager.pages(), id);
            }
            match best {
                Some((_, layer)) if node.layer <= layer => {},
                _ => {
                    best = Some((id, node.layer));
                },
            }
        }
        i += 1;
    }
    assert(ids.take(i as int) =~= ids);
    match best {
        Some((id, layer)) => Ok((Some(id), layer)),
        None => Ok((None, 0)),
    }
}

/// What was kept stays kept when the index is stored.
proof fn lemma_kept_stored(
    before: Map<u64, PageView>,
    mid: Map<u64, PageView>,
    after: Map<u64, PageView>,
    nodes0: Set<u32>,
    nodes: Set<u32>,
    map: Map<Seq<u8>, u32>,
    entry: Option<u32>,
    root: PageId,
)
    requires
        keeps_nodes(before, mid, nodes0, root),
        is_graph(mid, nodes, map, entry, root),
        nodes0.subset_of(nodes),
        forall|p: u64| #[trigger]
            mid.contains_key(p) ==> after.contains_key(p) && (p != root.0 ==> after[p] == mid[p]),
    ensures
        keeps_nodes(before, after, nodes0, root),
{
    lemma_graph_kept(mid, after, nodes, map, entry, root);
    assert forall|id: u32| #[trigger] nodes0.contains(id) implies node_at(after, id) is Ok
        && node_at(after, id)->Ok_0.same_but_links(node_at(before, id)->Ok_0) by {
        assert(nodes.contains(id));
    }
    assert forall|p: u64|
        (p > u32::MAX || !nodes0.contains(p as u32)) && p != root.0 && #[trigger] before.contains_key(
            p,
        ) implies after.contains_key(p) && after[p] == before[p] by {
        assert(mid.contains_key(p));
    }
}

proof fn lemma_left_alone_kept(
    before: Map<u64, PageView>,
    after: Map<u64, PageView>,
    nodes: Set<u32>,
    lists: Seq<Seq<u32>>,
    to: u32,
    map: Map<Seq<u8>, u32>,
    entry: Option<u32>,
    root: PageId,
)
    requires
        is_left_alone(before, lists, to),
        is_graph(before, nodes, map, entry, root),
        forall|l: int, i: int|
            0 <= l < lists.len() && 0 <= i < lists[l].len() ==> nodes.contains(
                #[trigger] lists[l][i],
            ),
        forall|p: u64| #[trigger]
            before.contains_key(p) ==> after.contains_key(p) && (p != root.0 ==> after[p]
                == before[p]),
    ensures
        is_left_alone(after, lists, to),
{
    lemma_graph_kept(before, after, nodes, map, entry, root);
    assert forall|l: int| 0 <= l < lists.len() implies no_link_to(
        after,
        #[trigger] lists[l],
        l,
        to,
    ) by {
        assert(no_link_to(before, lists[l], l, to));
        assert forall|i: int| 0 <= i < lists[l].len() implies !links_at(
            after,
            #[trigger] lists[l][i],
            l,
        ).contains(to) by {
            assert(nodes.contains(lists[l][i]));
        }
    }
}

/// A graph stays one when the versions of a node change.
pub(crate) proof fn lemma_reversioned(
    before: Map<u64, PageView>,
    after: Map<u64, PageView>,
    nodes: Set<u32>,
    map: Map<Seq<u8>, u32>,
    entry: Option<u32>,
    root: PageId,
    id: u32,
    n: NodeView,
)
    requires
        is_graph(before, nodes, map, entry, root),
        root_at(before, root) is Ok,
        nodes.contains(id),
        after == with_node(before, id, n),
        node_at(after, id) == Ok::<NodeView, TableError>(n),
        n.id == node_at(before, id)->Ok_0.id,
        n.neighbors == node_at(before, id)->Ok_0.neighbors,
    ensures
        is_graph(after, nodes, map, entry, root),
        root_at(after, root) == root_at(before, root),
        forall|x: u32| #[trigger]
            nodes.contains(x) && x != id ==> node_at(after, x) == node_at(before, x),
{
    assert forall|x: u32| #[trigger] nodes.contains(x) && x != id implies node_at(after, x)
        == node_at(before, x) by {}
    assert(is_closed(after, nodes)) by {
        reveal(is_exact);
        assert forall|x: u32| #[trigger] nodes.contains(x) implies node_at(after, x) is Ok
            && is_exact(after, x) && forall|l: int, i: int|
            0 <= l < node_at(after, x)->Ok_0.neighbors.len() && 0 <= i < node_at(
                after,
                x,
            )->Ok_0.neighbors[l].len() ==> nodes.contains(
                #[trigger] node_at(after, x)->Ok_0.neighbors[l][i],
            ) by {
            if x == id {
                assert forall|l: int, i: int|
                    0 <= l < n.neighbors.len() && 0 <= i < n.neighbors[l].len() implies nodes.contains(
                #[trigger] n.neighbors[l][i]) by {
                    assert(nodes.contains(node_at(before, id)->Ok_0.neighbors[l][i]));
                }
            } else {
                assert(node_at(after, x) == node_at(before, x));
                assert(is_exact(before, x));
            }
        }
    }
    assert(root.0 != id as u64);
}

/// A copy of the components of a vector.
fn copy_words(v: &[u32]) -> (r: Vec<u32>)
    ensures
        r@ == v@,
{
    let mut out: Vec<u32> = Vec::new();
    let mut i: usize = 0;
    while i < v.len()
        invariant
            i <= v@.len(),
            out@ == v@.take(i as int),
        decreases v@.len() - i,
    {
        out.push(v[i]);
        proof {
            assert(out@ =~= v@.take(i + 1));
        }
        i += 1;
    }
    assert(v@.take(i as int) =~= v@);
    out
}

/// What relinking keeps with one node more it keeps of the others.
proof fn lemma_kept_since(
    before: Map<u64, PageView>,
    stored: Map<u64, PageView>,
    after: Map<u64, PageView>,
    nodes: Set<u32>,
    n: u32,
    root: PageId,
)
    requires
        keeps_nodes(stored, after, nodes.insert(n), root),
        !before.contains_key(n as u64),
        forall|id: u32| #[trigger]
            nodes.contains(id) ==> node_at(stored, id) == node_at(before, id),
        forall|p: u64| #[trigger]
            before.contains_key(p) ==> stored.contains_key(p) && stored[p] == before[p],
    ensures
        keeps_nodes(before, after, nodes, root),
{
    assert forall|id: u32| #[trigger] nodes.contains(id) implies node_at(after, id) is Ok
        && node_at(after, id)->Ok_0.same_but_links(node_at(before, id)->Ok_0) by {
        assert(nodes.insert(n).contains(id));
    }
    assert forall|p: u64|
        (p > u32::MAX || !nodes.contains(p as u32)) && p != root.0 && #[trigger] before.contains_key(
            p,
        ) implies after.contains_key(p) && after[p] == before[p] by {
        assert(stored.contains_key(p));
        if p <= u32::MAX {
            assert(p as u32 != n);
        }
    }
}

} // verus!
