//! Nodes of a vector index that are kept in memory.
use crate::hnsw::node::{
    load_node, node_at, node_bytes, store_node, update_node, with_node, HnswNode, NodeView,
};
use crate::hnsw::ops::ids_in;
use crate::hnsw::table::PagedHnswVector;
use crate::pager::{PageView, Pager};
use crate::table::{TableError, TableResult};
use std::collections::HashMap;
use vstd::prelude::*;

verus! {

broadcast use vstd::std_specs::hash::group_hash_axioms;

/// How many nodes a new index keeps in memory.
pub const NODE_CACHE_SIZE: usize = 10_000;

/// What a cache has counted. A counter stops at its largest number.
#[derive(Clone, Copy, Debug, PartialEq, Eq, Structural)]
pub struct NodeCacheStats {
    /// How often a node was found in memory.
    pub hits: u64,
    /// How often one had to be read from its page.
    pub misses: u64,
    /// How often all nodes had to make room.
    pub evictions: u64,
}

/// The number after this one, as long as there is one.
pub open spec fn counted(n: u64) -> u64 {
    if n < u64::MAX {
        (n + 1) as u64
    } else {
        n
    }
}

fn count(n: u64) -> (r: u64)
    ensures
        r == counted(n),
{
    if n < u64::MAX {
        n + 1
    } else {
        n
    }
}

/// Nodes in memory. A cache that is full drops all of them before it takes in another, unless it
/// was filled with all nodes of an index: then it drops none.
pub struct NodeCache {
    pub nodes: HashMap<u32, HnswNode>,
    pub capacity: usize,
    pub stats: NodeCacheStats,
    /// The cache was filled with all nodes of an index.
    pub preloaded: bool,
}

/// The nodes with one more.
pub open spec fn kept_nodes(
    m: Map<u32, NodeView>,
    capacity: usize,
    preloaded: bool,
    id: u32,
    node: NodeView,
) -> Map<u32, NodeView> {
    if makes_room(m, capacity, preloaded, id) {
        Map::<u32, NodeView>::empty().insert(id, node)
    } else {
        m.insert(id, node)
    }
}

/// All nodes have to go before this one can be taken in.
pub open spec fn makes_room(
    m: Map<u32, NodeView>,
    capacity: usize,
    preloaded: bool,
    id: u32,
) -> bool {
    !preloaded && m.len() >= capacity && !m.contains_key(id)
}

/// The nodes with those of all these pages.
pub open spec fn with_nodes(
    m: Map<u32, NodeView>,
    pages: Map<u64, PageView>,
    ids: Seq<u32>,
) -> Map<u32, NodeView>
    decreases ids.len(),
{
    if ids.len() == 0 {
        m
    } else {
        with_nodes(m, pages, ids.drop_last()).insert(
            ids.last(),
            node_at(pages, ids.last())->Ok_0,
        )
    }
}

/// The first of the nodes that cannot be read is the one at that place.
pub open spec fn is_first_failure(
    pages: Map<u64, PageView>,
    ids: Seq<u32>,
    i: int,
    e: TableError,
) -> bool {
    &&& 0 <= i < ids.len()
    &&& node_at(pages, ids[i]) == Err::<NodeView, TableError>(e)
    &&& forall|j: int| 0 <= j < i ==> node_at(pages, #[trigger] ids[j]) is Ok
}

/// A node that is put into the cache is there. All others stay, unless the cache is full, does not
/// hold the node yet and was not filled beforehand: then they make room. So a cache that was not
/// filled beforehand never outgrows its capacity, but for the one node that it always holds.
pub proof fn law_cache_keeps_nodes_while_there_is_room(
    m: Map<u32, NodeView>,
    capacity: usize,
    preloaded: bool,
    id: u32,
    node: NodeView,
    other: u32,
)
    requires
        m.dom().finite(),
    ensures
        ({
            let after = kept_nodes(m, capacity, preloaded, id, node);
            &&& after.contains_key(id)
            &&& after[id] == node
            &&& preloaded || m.contains_key(id) || m.len() < capacity ==> (other != id ==> (
            after.contains_key(other) <==> m.contains_key(other)) && (m.contains_key(other)
                ==> after[other] == m[other]))
            &&& after.contains_key(other) && other != id ==> m.contains_key(other) && after[other]
                == m[other]
            &&& !preloaded && 0 < capacity && m.len() <= capacity ==> after.len() <= capacity
        }),
{
    let after = kept_nodes(m, capacity, preloaded, id, node);
    if makes_room(m, capacity, preloaded, id) {
        assert(after.dom() =~= Set::empty().insert(id));
    } else {
        assert(after.dom() =~= m.dom().insert(id));
    }
}

/// Filling the cache puts in every node of the list as its page holds it, and keeps the others.
pub proof fn law_filled_cache_holds_all(
    m: Map<u32, NodeView>,
    pages: Map<u64, PageView>,
    ids: Seq<u32>,
    id: u32,
)
    ensures
        ids.contains(id) ==> with_nodes(m, pages, ids).contains_key(id) && with_nodes(
            m,
            pages,
            ids,
        )[id] == node_at(pages, id)->Ok_0,
        !ids.contains(id) ==> (with_nodes(m, pages, ids).contains_key(id) <==> m.contains_key(id))
            && (m.contains_key(id) ==> with_nodes(m, pages, ids)[id] == m[id]),
    decreases ids.len(),
{
    if ids.len() > 0 {
        let rest = ids.drop_last();
        law_filled_cache_holds_all(m, pages, rest, id);
        if rest.contains(id) {
            assert(ids[rest.index_of(id)] == id);
        }
        if ids.contains(id) && id != ids.last() {
            assert(rest[ids.index_of(id)] == id);
        }
        if id == ids.last() {
            assert(ids[ids.len() - 1] == id);
        }
    }
}

impl NodeCache {
    /// The nodes, by their pages.
    pub open spec fn contents(&self) -> Map<u32, NodeView> {
        Map::new(|id: u32| self.nodes@.contains_key(id), |id: u32| self.nodes@[id]@)
    }

    /// Every node in memory is the one on its page.
    pub open spec fn agrees(&self, pages: Map<u64, PageView>) -> bool {
        forall|id: u32| #[trigger]
            self.contents().contains_key(id) ==> node_at(pages, id) == Ok::<NodeView, TableError>(
                self.contents()[id],
            )
    }

    /// A cache without nodes, which agrees with every index.
    pub fn new(capacity: usize) -> (r: Self)
        ensures
            r.contents() == Map::<u32, NodeView>::empty(),
            r.capacity == capacity,
            r.stats == (NodeCacheStats { hits: 0, misses: 0, evictions: 0 }),
            !r.preloaded,
            forall|pages: Map<u64, PageView>| #[trigger] r.agrees(pages),
    {
        let r = NodeCache {
            nodes: HashMap::new(),
            capacity,
            stats: NodeCacheStats { hits: 0, misses: 0, evictions: 0 },
            preloaded: false,
        };
        assert(r.contents() =~= Map::<u32, NodeView>::empty());
        r
    }

    /// The node, if it is in memory.
    pub fn get(&self, id: u32) -> (r: Option<&HnswNode>)
        ensures
            r is Some <==> self.contents().contains_key(id),
            r matches Some(n) ==> n@ == self.contents()[id],
    {
        self.nodes.get(&id)
    }

    /// How many nodes are in memory.
    pub fn len(&self) -> (r: usize)
        ensures
            r == self.contents().len(),
    {
        proof {
            assert(self.contents().dom() =~= self.nodes@.dom());
        }
        self.nodes.len()
    }

    /// Takes in a node.
    pub fn insert(&mut self, id: u32, node: HnswNode)
        ensures
            final(self).contents() == kept_nodes(
                old(self).contents(),
                old(self).capacity,
                old(self).preloaded,
                id,
                node@,
            ),
            final(self).stats == (NodeCacheStats {
                evictions: if makes_room(
                    old(self).contents(),
                    old(self).capacity,
                    old(self).preloaded,
                    id,
                ) {
                    counted(old(self).stats.evictions)
                } else {
                    old(self).stats.evictions
                },
                ..old(self).stats
            }),
            final(self).capacity == old(self).capacity,
            final(self).preloaded == old(self).preloaded,
    {
        if !self.preloaded && self.len() >= self.capacity && !self.nodes.contains_key(&id) {
            self.nodes.clear();
            self.stats.evictions = count(self.stats.evictions);
        }
        let ghost mid = self.contents();
        self.nodes.insert(id, node);
        proof {
            assert(self.contents() =~= mid.insert(id, node@));
            if makes_room(old(self).contents(), self.capacity, self.preloaded, id) {
                assert(mid =~= Map::<u32, NodeView>::empty());
            } else {
                assert(mid =~= old(self).contents());
            }
        }
    }

    /// The node on a page. It is read from the page only where it is not in memory, and stays
    /// there.
    pub fn load(&mut self, pager: &Pager, id: u32) -> (r: TableResult<&HnswNode>)
        requires
            pager.wf(),
        ensures
            final(self).capacity == old(self).capacity,
            final(self).preloaded == old(self).preloaded,
            old(self).contents().contains_key(id) ==> {
                &&& r matches Ok(n) && n@ == old(self).contents()[id]
                &&& final(self).contents() == old(self).contents()
                &&& final(self).stats == (NodeCacheStats {
                    hits: counted(old(self).stats.hits),
                    ..old(self).stats
                })
            },
            !old(self).contents().contains_key(id) ==> {
                &&& r is Ok <==> node_at(pager.pages(), id) is Ok
                &&& r matches Ok(n) ==> n@ == node_at(pager.pages(), id)->Ok_0
                    && final(self).contents() == kept_nodes(
                    old(self).contents(),
                    old(self).capacity,
                    old(self).preloaded,
                    id,
                    n@,
                )
                &&& r matches Err(e) ==> e == node_at(pager.pages(), id)->Err_0
                    && final(self).contents() == old(self).contents()
                &&& final(self).stats.hits == old(self).stats.hits
                &&& final(self).stats.misses == counted(old(self).stats.misses)
                &&& final(self).stats.evictions == (if r is Ok && makes_room(
                    old(self).contents(),
                    old(self).capacity,
                    old(self).preloaded,
                    id,
                ) {
                    counted(old(self).stats.evictions)
                } else {
                    old(self).stats.evictions
                })
            },
            old(self).agrees(pager.pages()) ==> {
                &&& final(self).agrees(pager.pages())
                &&& r is Ok <==> node_at(pager.pages(), id) is Ok
                &&& r matches Ok(n) ==> n@ == node_at(pager.pages(), id)->Ok_0
                &&& r matches Err(e) ==> e == node_at(pager.pages(), id)->Err_0
            },
    {
        if self.nodes.contains_key(&id) {
            self.stats.hits = count(self.stats.hits);
            assert(self.contents() =~= old(self).contents());
        } else {
            self.stats.misses = count(self.stats.misses);
            assert(self.contents() =~= old(self).contents());
            match load_node(pager, id) {
                Ok(node) => {
                    self.insert(id, node);
                    assert(self.contents().contains_key(id) && self.contents()[id] == node@);
                },
                Err(e) => return Err(e),
            }
        }
        assert(self.contents().contains_key(id));
        let found = self.get(id);
        Ok(found.unwrap())
    }

    /// Writes a node over the one on its page and keeps it in memory.
    pub fn update(&mut self, pager: &mut Pager, id: u32, node: HnswNode) -> (r: TableResult<()>)
        requires
            old(pager).wf(),
            node.layer <= u32::MAX,
        ensures
            final(pager).wf(),
            final(pager).same_meta(old(pager)),
            r is Ok <==> old(pager).pages().contains_key(id as u64)
                && node_bytes(node@).len() <= old(pager).capacity(),
            r is Ok ==> final(pager).pages() == with_node(old(pager).pages(), id, node@)
                && final(self).contents() == kept_nodes(
                old(self).contents(),
                old(self).capacity,
                old(self).preloaded,
                id,
                node@,
            ),
            r matches Err(e) ==> e is Pager && final(pager).pages() == old(pager).pages()
                && *final(self) == *old(self),
            old(self).agrees(old(pager).pages()) ==> final(self).agrees(final(pager).pages()),
    {
        match update_node(pager, id, &node) {
            Ok(()) => {
                self.insert(id, node);
                Ok(())
            },
            Err(e) => Err(e),
        }
    }

    /// Writes a node to a new page and keeps it in memory.
    pub fn store(&mut self, pager: &mut Pager, node: HnswNode) -> (r: TableResult<u32>)
        requires
            old(pager).wf(),
            node.layer <= u32::MAX,
            old(pager).slots@.len() <= u32::MAX,
        ensures
            final(pager).wf(),
            final(pager).same_meta(old(pager)),
            r is Ok <==> node_bytes(node@).len() <= old(pager).capacity(),
            r matches Ok(id) ==> !old(pager).pages().contains_key(id as u64)
                && final(pager).pages() == with_node(old(pager).pages(), id, node@)
                && final(self).contents() == kept_nodes(
                old(self).contents(),
                old(self).capacity,
                old(self).preloaded,
                id,
                node@,
            ),
            r is Err ==> *final(self) == *old(self),
            old(self).agrees(old(pager).pages()) ==> final(self).agrees(final(pager).pages()),
    {
        let r = store_node(pager, &node);
        match r {
            Ok(id) => {
                self.insert(id, node);
                Ok(id)
            },
            Err(e) => Err(e),
        }
    }
}

impl PagedHnswVector {
    /// Reads all nodes of the index into memory, where they stay. The first node that cannot be
    /// read ends it.
    pub fn preload_all_nodes(&self, pager: &Pager, cache: &mut NodeCache) -> (r: TableResult<()>)
        requires
            pager.wf(),
        ensures
            final(cache).capacity == old(cache).capacity,
            final(cache).stats == old(cache).stats,
            r is Ok <==> forall|i: int|
                0 <= i < ids_in(self.id_to_node).len() ==> node_at(
                    pager.pages(),
                    #[trigger] ids_in(self.id_to_node)[i],
                ) is Ok,
            r is Ok ==> final(cache).preloaded && final(cache).contents() == with_nodes(
                old(cache).contents(),
                pager.pages(),
                ids_in(self.id_to_node),
            ),
            r matches Err(e) ==> final(cache).preloaded == old(cache).preloaded && exists|i: int|
                #[trigger] is_first_failure(pager.pages(), ids_in(self.id_to_node), i, e)
                    && final(cache).contents() == with_nodes(
                    old(cache).contents(),
                    pager.pages(),
                    ids_in(self.id_to_node).take(i),
                ),
            old(cache).agrees(pager.pages()) ==> final(cache).agrees(pager.pages()),
    {
        let ghost ids = ids_in(self.id_to_node);
        let ghost pages = pager.pages();
        let mut i: usize = 0;
        assert(ids.take(0) =~= Seq::<u32>::empty());
        while i < self.id_to_node.entries.len()
            invariant
                pager.wf(),
                pages == pager.pages(),
                ids == ids_in(self.id_to_node),
                i <= self.id_to_node.entries@.len(),
                cache.capacity == old(cache).capacity,
                cache.stats == old(cache).stats,
                cache.preloaded == old(cache).preloaded,
                forall|j: int| 0 <= j < i ==> node_at(pages, #[trigger] ids[j]) is Ok,
                cache.contents() == with_nodes(old(cache).contents(), pages, ids.take(i as int)),
                old(cache).agrees(pages) ==> cache.agrees(pages),
            decreases self.id_to_node.entries@.len() - i,
        {
            let id = self.id_to_node.entries[i].1;
            assert(ids[i as int] == id);
            let node = match load_node(pager, id) {
                Ok(n) => n,
                Err(e) => {
                    assert(is_first_failure(pages, ids, i as int, e));
                    return Err(e);
                },
            };
            let ghost before = cache.contents();
            cache.nodes.insert(id, node);
            proof {
                assert(cache.contents() =~= before.insert(id, node@));
                assert(ids.take(i + 1).drop_last() =~= ids.take(i as int));
                assert(ids.take(i + 1).last() == id);
            }
            i = i + 1;
        }
        assert(ids.take(i as int) =~= ids);
        cache.preloaded = true;
        assert(cache.contents() =~= with_nodes(old(cache).contents(), pages, ids));
        Ok(())
    }
}

} // verus!
