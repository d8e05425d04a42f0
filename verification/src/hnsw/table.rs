//! A vector index: its invariant, and how it is created, stored and opened.
use crate::bytemap::ByteMap;
use crate::hnsw::insert::Limits;
use crate::hnsw::mapping::{
    deserialize_mapping, law_map_pages_are_read_back, map_at, map_bytes, map_data, pairs_of,
    read_metadata, root_at, serialize_mapping, write_metadata, HnswMetadata, HNSW_MAGIC,
    HNSW_VERSION,
};
use crate::hnsw::node::{load_node, node_at};
use crate::hnsw::search::{is_closed, is_exact};
use crate::pager::{PageId, PageType, PageView, Pager};
use crate::table::{Corruption, TableError, TableResult};
use crate::types::TableId;
use vstd::prelude::*;

verus! {

/// How the distance between two vectors is measured.
#[derive(Clone, Copy, Debug, PartialEq, Eq, Structural)]
pub enum VectorMetric {
    Cosine,
    Dot,
    Euclidean,
    Manhattan,
}

/// The number that stands for a metric in a root page.
pub open spec fn metric_code(m: VectorMetric) -> u32 {
    match m {
        VectorMetric::Cosine => 0,
        VectorMetric::Dot => 1,
        VectorMetric::Euclidean => 2,
        VectorMetric::Manhattan => 3,
    }
}

impl VectorMetric {
    /// The number that stands for the metric.
    pub fn code(&self) -> (r: u32)
        ensures
            r == metric_code(*self),
    {
        match self {
            VectorMetric::Cosine => 0,
            VectorMetric::Dot => 1,
            VectorMetric::Euclidean => 2,
            VectorMetric::Manhattan => 3,
        }
    }

    /// The metric that a number stands for.
    pub fn from_code(code: u32) -> (r: Option<VectorMetric>)
        ensures
            match r {
                Some(m) => metric_code(m) == code,
                None => code > 3,
            },
    {
        match code {
            0 => Some(VectorMetric::Cosine),
            1 => Some(VectorMetric::Dot),
            2 => Some(VectorMetric::Euclidean),
            3 => Some(VectorMetric::Manhattan),
            _ => None,
        }
    }
}

/// The parameters of a vector index.
#[derive(Clone, Copy, Debug, PartialEq, Eq, Structural)]
pub struct HnswConfig {
    pub dimensions: usize,
    pub metric: VectorMetric,
    /// How many links a node may have on each layer but the lowest.
    pub max_connections: usize,
    /// How many links a node may have on the lowest layer.
    pub max_connections_layer0: usize,
    /// How many candidates a search for links keeps.
    pub ef_construction: usize,
    /// The factor for choosing layers, as the bits of a double-precision number.
    pub ml: u64,
    /// How many nodes a cache may keep.
    pub cache_capacity: usize,
}

/// Vectors of 128 components, at most 16 links, 32 on the lowest layer, and layers by the inverse
/// of the logarithm of 16.
pub open spec fn default_config() -> HnswConfig {
    HnswConfig {
        dimensions: 128,
        metric: VectorMetric::Cosine,
        max_connections: 16,
        max_connections_layer0: 32,
        ef_construction: 200,
        ml: 0x3FD7_1547_652B_82FE,
        cache_capacity: 100_000,
    }
}

impl Default for HnswConfig {
    fn default() -> (r: Self)
        ensures
            r == default_config(),
    {
        HnswConfig {
            dimensions: 128,
            metric: VectorMetric::Cosine,
            max_connections: 16,
            max_connections_layer0: 32,
            ef_construction: 200,
            ml: 0x3FD7_1547_652B_82FE,
            cache_capacity: 100_000,
        }
    }
}

/// Nearest-neighbour search in a graph of vectors whose nodes are pages of a store.
pub struct PagedHnswVector {
    pub table_id: TableId,
    pub name: String,
    pub root_page_id: PageId,
    pub config: HnswConfig,
    /// The node that searches start at.
    pub entry_point: Option<u32>,
    /// The highest layer in use.
    pub max_layer: usize,
    pub num_vectors: usize,
    /// The node of each vector.
    pub id_to_node: ByteMap<u32>,
    /// The state of the generator that layers are drawn from.
    pub rng_state: u64,
    /// The nodes of the graph, those of deleted vectors among them.
    pub nodes: Ghost<Set<u32>>,
}

/// The pages hold a graph of these nodes, and the map and the entry point lead into it.
pub open spec fn is_graph(
    pages: Map<u64, PageView>,
    nodes: Set<u32>,
    map: Map<Seq<u8>, u32>,
    entry: Option<u32>,
    root: PageId,
) -> bool {
    &&& nodes.finite()
    &&& is_closed(pages, nodes)
    &&& forall|k: Seq<u8>| #[trigger]
        map.contains_key(k) ==> nodes.contains(map[k]) && node_at(pages, map[k])->Ok_0.id == k
    &&& entry matches Some(ep) ==> nodes.contains(ep)
    &&& root.0 <= u32::MAX ==> !nodes.contains(root.0 as u32)
}

/// The root page of a new index.
pub open spec fn new_root(c: HnswConfig) -> HnswMetadata {
    HnswMetadata {
        magic: HNSW_MAGIC,
        version: HNSW_VERSION,
        dimensions: c.dimensions as u32,
        metric: metric_code(c.metric),
        max_connections: c.max_connections as u32,
        max_connections_layer0: c.max_connections_layer0 as u32,
        ef_construction: c.ef_construction as u32,
        ml: c.ml,
        entry_point: 0,
        max_layer: 0,
        num_vectors: 0,
        mapping_page_id: 0,
    }
}

/// The parameters that a root page gives.
pub open spec fn config_in(m: HnswMetadata, c: HnswConfig) -> bool {
    &&& c.dimensions == m.dimensions
    &&& metric_code(c.metric) == m.metric
    &&& c.max_connections == m.max_connections
    &&& c.max_connections_layer0 == m.max_connections_layer0
    &&& c.ef_construction == m.ef_construction
    &&& c.ml == m.ml
    &&& c.cache_capacity == 100_000
}

/// The entry point that a root page gives.
pub open spec fn entry_in(m: HnswMetadata) -> Option<u32> {
    if m.entry_point == 0 {
        None
    } else {
        Some(m.entry_point)
    }
}

/// Why an index cannot be opened, but for nodes that cannot be read.
pub open spec fn root_fault(pages: Map<u64, PageView>, root: PageId, fuel: nat) -> Option<
    TableError,
> {
    match root_at(pages, root) {
        Err(e) => Some(e),
        Ok(m) => if m.magic != HNSW_MAGIC {
            Some(TableError::Corruption(Corruption::InvalidVectorMagic(m.magic)))
        } else if m.version != HNSW_VERSION {
            Some(TableError::InvalidFormatVersion(m.version))
        } else if m.metric > 3 {
            Some(TableError::Corruption(Corruption::InvalidMetric(m.metric)))
        } else {
            match map_at(pages, m.mapping_page_id, fuel) {
                Err(e) => Some(e),
                Ok(map) => None,
            }
        },
    }
}

/// The pages hold an index that can be opened at its root.
pub open spec fn holds_index(pages: Map<u64, PageView>, root: PageId, fuel: nat) -> bool {
    &&& root_fault(pages, root, fuel) is None
    &&& {
        let m = root_at(pages, root)->Ok_0;
        let map = map_at(pages, m.mapping_page_id, fuel)->Ok_0;
        &&& map.dom().len() <= m.num_vectors <= usize::MAX
        &&& exists|nodes: Set<u32>| #[trigger] is_graph(pages, nodes, map, entry_in(m), root)
    }
}

impl PagedHnswVector {
    /// What every operation keeps.
    pub open spec fn wf(&self, pager: &Pager) -> bool {
        &&& pager.wf()
        &&& self.id_to_node.wf()
        &&& is_graph(
            pager.pages(),
            self.nodes@,
            self.id_to_node@,
            self.entry_point,
            self.root_page_id,
        )
        &&& self.id_to_node.entries@.len() <= self.num_vectors
        &&& self.max_layer <= u32::MAX
        &&& root_at(pager.pages(), self.root_page_id) is Ok
    }

    /// The index is the same but for what it holds.
    pub open spec fn same_table(&self, other: &Self) -> bool {
        &&& self.table_id == other.table_id
        &&& self.name == other.name
        &&& self.root_page_id == other.root_page_id
        &&& self.config == other.config
        &&& self.rng_state == other.rng_state
    }

    /// The entry point as a root page has it.
    pub open spec fn entry_code(&self) -> u32 {
        match self.entry_point {
            Some(ep) => ep,
            None => 0,
        }
    }

    /// The root page that stores the index, given the first page of its map.
    pub open spec fn stored_root(&self, m: HnswMetadata, map_page: u64) -> HnswMetadata {
        HnswMetadata {
            mapping_page_id: map_page,
            num_vectors: self.num_vectors as u64,
            entry_point: self.entry_code(),
            max_layer: self.max_layer as u32,
            ..m
        }
    }

    /// The pages hold the map and the root page of the index.
    pub open spec fn is_stored(&self, pages: Map<u64, PageView>, fuel: nat) -> bool {
        let m = root_at(pages, self.root_page_id)->Ok_0;
        &&& root_at(pages, self.root_page_id) is Ok
        &&& m == self.stored_root(m, m.mapping_page_id)
        &&& m.mapping_page_id == 0 <==> self.id_to_node.entries@.len() == 0
        &&& m.mapping_page_id != 0 ==> map_data(pages, m.mapping_page_id, fuel) == Ok::<
            Seq<u8>,
            TableError,
        >(map_bytes(pairs_of(self.id_to_node)))
    }

    /// What tying in a node goes by.
    pub open spec fn limits(&self) -> Limits {
        Limits {
            ef: self.config.ef_construction,
            max_layer0: self.config.max_connections_layer0,
            max_others: self.config.max_connections,
        }
    }

    /// Creates an empty index with a root page of its own.
    pub fn new(table_id: TableId, name: String, pager: &mut Pager, config: HnswConfig) -> (r:
        TableResult<Self>)
        requires
            old(pager).wf(),
        ensures
            r is Ok,
            final(pager).same_meta(old(pager)),
            forall|p: u64| #[trigger]
                old(pager).pages().contains_key(p) ==> final(pager).pages().contains_key(p) && final(pager).pages()[p] == old(pager).pages()[p],
            r matches Ok(t) ==> {
                &&& t.wf(final(pager))
                &&& t.table_id == table_id && t.name@ == name@ && t.config == config
                &&& t.entry_point is None && t.max_layer == 0 && t.num_vectors == 0
                &&& t.id_to_node@ == Map::<Seq<u8>, u32>::empty()
                &&& t.rng_state == 12345
                &&& t.nodes@ == Set::<u32>::empty()
                &&& !old(pager).pages().contains_key(t.root_page_id.0)
                &&& root_at(final(pager).pages(), t.root_page_id) == Ok::<HnswMetadata, TableError>(
                    new_root(config),
                )
            },
    {
        let root_page_id = pager.allocate_page(PageType::VectorIndex);
        let root = HnswMetadata {
            magic: HNSW_MAGIC,
            version: HNSW_VERSION,
            dimensions: config.dimensions as u32,
            metric: config.metric.code(),
            max_connections: config.max_connections as u32,
            max_connections_layer0: config.max_connections_layer0 as u32,
            ef_construction: config.ef_construction as u32,
            ml: config.ml,
            entry_point: 0,
            max_layer: 0,
            num_vectors: 0,
            mapping_page_id: 0,
        };
        if let Err(e) = write_metadata(pager, root_page_id, &root) {
            return Err(e);
        }
        Ok(
            PagedHnswVector {
                table_id,
                name,
                root_page_id,
                config,
                entry_point: None,
                max_layer: 0,
                num_vectors: 0,
                id_to_node: ByteMap::new(),
                rng_state: 12345,
                nodes: Ghost(Set::empty()),
            },
        )
    }

    /// The page that the index is opened at.
    pub fn root_page_id(&self) -> (r: PageId)
        ensures
            r == self.root_page_id,
    {
        self.root_page_id
    }

    /// Writes the map to new pages, and the root page anew.
    pub fn persist_mapping(&self, pager: &mut Pager) -> (r: TableResult<()>)
        requires
            self.wf(old(pager)),
        ensures
            r is Ok,
            self.wf(final(pager)),
            final(pager).same_meta(old(pager)),
            self.is_stored(final(pager).pages(), final(pager).slots@.len()),
            root_at(final(pager).pages(), self.root_page_id)->Ok_0 == self.stored_root(
                root_at(old(pager).pages(), self.root_page_id)->Ok_0,
                root_at(final(pager).pages(), self.root_page_id)->Ok_0.mapping_page_id,
            ),
            forall|p: u64| #[trigger]
                old(pager).pages().contains_key(p) ==> final(pager).pages().contains_key(p) && (p
                    != self.root_page_id.0 ==> final(pager).pages()[p] == old(pager).pages()[p]),
    {
        let ghost pages0 = pager.pages();
        let first = serialize_mapping(pager, &self.id_to_node);
        let ghost pages1 = pager.pages();
        let mut root = match read_metadata(pager, self.root_page_id) {
            Ok(m) => m,
            Err(e) => return Err(e),
        };
        root.mapping_page_id = first.0;
        root.num_vectors = self.num_vectors as u64;
        root.entry_point = match self.entry_point {
            Some(ep) => ep,
            None => 0,
        };
        root.max_layer = self.max_layer as u32;
        let done = write_metadata(pager, self.root_page_id, &root);
        proof {
            lemma_graph_kept(
                pages0,
                pager.pages(),
                self.nodes@,
                self.id_to_node@,
                self.entry_point,
                self.root_page_id,
            );
        }
        done
    }

    /// Opens the index that is stored at a root page.
    pub fn load(table_id: TableId, name: String, pager: &Pager, root_page_id: PageId) -> (r:
        TableResult<Self>)
        requires
            pager.wf(),
        ensures
            match root_fault(pager.pages(), root_page_id, pager.slots@.len()) {
                Some(e) => r matches Err(f) && f == e,
                None => {
                    let m = root_at(pager.pages(), root_page_id)->Ok_0;
                    let map = map_at(
                        pager.pages(),
                        m.mapping_page_id,
                        pager.slots@.len(),
                    )->Ok_0;
                    match r {
                        Err(e) => exists|k: Seq<u8>| #[trigger]
                            map.contains_key(k) && node_at(pager.pages(), map[k]) == Err::<
                                crate::hnsw::node::NodeView,
                                TableError,
                            >(e),
                        Ok(t) => {
                            &&& forall|k: Seq<u8>| #[trigger]
                                map.contains_key(k) ==> node_at(pager.pages(), map[k]) is Ok
                            &&& t.table_id == table_id && t.name@ == name@
                            &&& t.root_page_id == root_page_id
                            &&& config_in(m, t.config)
                            &&& t.entry_point == entry_in(m)
                            &&& t.max_layer == m.max_layer
                            &&& t.num_vectors == m.num_vectors as usize
                            &&& t.id_to_node.wf() && t.id_to_node@ == map
                            &&& t.rng_state == 12345
                        },
                    }
                },
            },
            holds_index(pager.pages(), root_page_id, pager.slots@.len()) ==> r is Ok
                && r->Ok_0.wf(pager),
    {
        let ghost pages = pager.pages();
        let root = match read_metadata(pager, root_page_id) {
            Ok(m) => m,
            Err(e) => return Err(e),
        };
        if root.magic != HNSW_MAGIC {
            return Err(TableError::Corruption(Corruption::InvalidVectorMagic(root.magic)));
        }
        if root.version != HNSW_VERSION {
            return Err(TableError::InvalidFormatVersion(root.version));
        }
        let metric = match VectorMetric::from_code(root.metric) {
            Some(m) => m,
            None => return Err(TableError::Corruption(Corruption::InvalidMetric(root.metric))),
        };
        let id_to_node = match deserialize_mapping(pager, PageId(root.mapping_page_id)) {
            Ok(m) => m,
            Err(e) => return Err(e),
        };
        let entry_point: Option<u32> = if root.entry_point == 0 {
            None
        } else {
            Some(root.entry_point)
        };
        let ghost map = id_to_node@;
        if let Err(e) = preload_all_nodes(pager, &id_to_node) {
            proof {
                assert(holds_index(pages, root_page_id, pager.slots@.len()) ==> false) by {
                    if holds_index(pages, root_page_id, pager.slots@.len()) {
                        let nodes = choose|nodes: Set<u32>|
                            is_graph(pages, nodes, map, entry_in(root), root_page_id);
                        assert forall|k: Seq<u8>| #[trigger] map.contains_key(k) implies node_at(
                            pages,
                            map[k],
                        ) is Ok by {
                            assert(nodes.contains(map[k]));
                        }
                    }
                }
            }
            return Err(e);
        }
        let config = HnswConfig {
            dimensions: root.dimensions as usize,
            metric,
            max_connections: root.max_connections as usize,
            max_connections_layer0: root.max_connections_layer0 as usize,
            ef_construction: root.ef_construction as usize,
            ml: root.ml,
            cache_capacity: 100_000,
        };
        let ghost nodes = choose|nodes: Set<u32>|
            is_graph(pages, nodes, map, entry_in(root), root_page_id);
        proof {
            id_to_node.lemma_len();
        }
        Ok(
            PagedHnswVector {
                table_id,
                name,
                root_page_id,
                config,
                entry_point,
                max_layer: root.max_layer as usize,
                num_vectors: root.num_vectors as usize,
                id_to_node,
                rng_state: 12345,
                nodes: Ghost(nodes),
            },
        )
    }
}

/// A graph stays one where its pages stay.
pub proof fn lemma_graph_kept(
    before: Map<u64, PageView>,
    after: Map<u64, PageView>,
    nodes: Set<u32>,
    map: Map<Seq<u8>, u32>,
    entry: Option<u32>,
    root: PageId,
)
    requires
        is_graph(before, nodes, map, entry, root),
        forall|p: u64| #[trigger]
            before.contains_key(p) ==> after.contains_key(p) && (p != root.0 ==> after[p]
                == before[p]),
    ensures
        is_graph(after, nodes, map, entry, root),
        forall|id: u32| #[trigger]
            nodes.contains(id) ==> node_at(after, id) == node_at(before, id),
{
    assert forall|id: u32| #[trigger] nodes.contains(id) implies node_at(after, id) == node_at(
        before,
        id,
    ) by {
        assert(node_at(before, id) is Ok);
        assert(before.contains_key(id as u64));
        assert(id as u64 != root.0);
    }
    assert forall|id: u32| #[trigger] nodes.contains(id) implies is_exact(after, id) by {
        reveal(is_exact);
        assert(is_exact(before, id));
        assert(before.contains_key(id as u64));
    }
}

/// Reads all nodes of the map once, so that none turns out unreadable later.
fn preload_all_nodes(pager: &Pager, map: &ByteMap<u32>) -> (r: TableResult<()>)
    requires
        pager.wf(),
        map.wf(),
    ensures
        match r {
            Ok(()) => forall|k: Seq<u8>| #[trigger]
                map@.contains_key(k) ==> node_at(pager.pages(), map@[k]) is Ok,
            Err(e) => exists|k: Seq<u8>| #[trigger]
                map@.contains_key(k) && node_at(pager.pages(), map@[k]) == Err::<
                    crate::hnsw::node::NodeView,
                    TableError,
                >(e),
        },
{
    let mut i: usize = 0;
    while i < map.entries.len()
        invariant
            i <= map.entries@.len(),
            pager.wf(),
            map.wf(),
            forall|j: int|
                0 <= j < i ==> node_at(pager.pages(), (#[trigger] map.entries@[j]).1) is Ok,
        decreases map.entries@.len() - i,
    {
        if let Err(e) = load_node(pager, map.entries[i].1) {
            proof {
                map.lemma_entry(i as int);
                assert(map@.contains_key(map.entries@[i as int].0@));
            }
            return Err(e);
        }
        i += 1;
    }
    proof {
        assert forall|k: Seq<u8>| #[trigger] map@.contains_key(k) implies node_at(
            pager.pages(),
            map@[k],
        ) is Ok by {
            let j = map.lemma_key(k);
            assert(node_at(pager.pages(), map.entries@[j].1) is Ok);
        }
    }
    Ok(())
}

/// An index that was stored is opened again with all that it held, and can be worked with.
pub proof fn law_stored_index_is_opened(t: PagedHnswVector, pager: Pager)
    requires
        t.wf(&pager),
        t.is_stored(pager.pages(), pager.slots@.len()),
        root_at(pager.pages(), t.root_page_id)->Ok_0.magic == HNSW_MAGIC,
        root_at(pager.pages(), t.root_page_id)->Ok_0.version == HNSW_VERSION,
        root_at(pager.pages(), t.root_page_id)->Ok_0.metric <= 3,
        t.id_to_node.entries@.len() <= u32::MAX,
    ensures
        holds_index(pager.pages(), t.root_page_id, pager.slots@.len()),
        ({
            let m = root_at(pager.pages(), t.root_page_id)->Ok_0;
            &&& map_at(pager.pages(), m.mapping_page_id, pager.slots@.len()) == Ok::<
                Map<Seq<u8>, u32>,
                TableError,
            >(t.id_to_node@)
            &&& entry_in(m) == t.entry_point
            &&& m.max_layer == t.max_layer
            &&& m.num_vectors == t.num_vectors
        }),
{
    let pages = pager.pages();
    let m = root_at(pages, t.root_page_id)->Ok_0;
    let map = t.id_to_node;
    assert forall|i: int| 0 <= i < map.entries@.len() implies (#[trigger] map.entries@[i]).0@.len()
        <= u32::MAX by {
        map.lemma_entry(i);
        let k = map.entries@[i].0@;
        assert(map@.contains_key(k));
        assert(node_at(pages, map@[k])->Ok_0.id == k);
        assert(node_at(pages, map@[k]) is Ok);
    }
    law_map_pages_are_read_back(pages, m.mapping_page_id, pager.slots@.len(), map);
    map.lemma_len();
    assert(!pages.contains_key(0));
    if t.entry_point is Some {
        assert(node_at(pages, t.entry_point->Some_0) is Ok);
    }
    let opened = map_at(pages, m.mapping_page_id, pager.slots@.len())->Ok_0;
    assert(opened == map@);
    assert(is_graph(pages, t.nodes@, opened, entry_in(m), t.root_page_id));
    assert(root_fault(pages, t.root_page_id, pager.slots@.len()) is None);
    assert(opened.dom().len() <= m.num_vectors <= usize::MAX);
}

} // verus!
