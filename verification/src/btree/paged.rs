//! A B-tree in pages.
//!
//! Nodes are split by two measures. A node that has as many keys as a node may have is split, and
//! so is one whose bytes take more than three fifths of a page. What lies between that and a full
//! page is left for what a page may need beyond the node itself.
use crate::btree::node::{
    bumped, inner_keys, inner_kids, inner_size, leaf_chains, leaf_keys, lemma_inner_size_insert,
    lemma_inner_size_parts, lemma_leaf_size_parts, lemma_lengths_fit, lemma_node_size, node_bytes,
    parse_node, BTreeNode, InternalEntry, LeafEntry, Node, NodeType, PageVersion,
};
use crate::btree::tree::{
    apart, between, first_leaf, grown_from, high, in_range, kept, kept_outside, kid_after,
    leaf_lookup, lemma_frame, lemma_kid_changed, lemma_kid_split, lemma_leaf_put, lemma_new_root,
    lemma_nothing_behind, lemma_owned_is_node, lemma_route_in_range, lemma_siblings_hold,
    lemma_split_inner, lemma_split_leaf, lemma_upper, lemma_upper_parts, lookup, low, nondecreasing, owns, put_chains, put_keys, tree, upper, Nodes,
};
use crate::bytemap::{ascending, lemma_rank, rank};
use crate::bytes::{
    bytes_equal, compare_bytes, copy_bytes, lemma_lex_transitive, lex_le, lex_lt, sub_bytes,
    ByteOrder,
};
use crate::mvcc::{read, Chains};
use crate::overflow::{chain_data, read_overflow_chain, ValueRef};
use crate::pager::{Page, PageId, PageType, PageView, Pager, PagerError};
use crate::snap::Snapshot;
use crate::table::{Corruption, TableError, TableResult};
use crate::txn::{commit_head, pending, visible_at, Version, VersionChain};
use crate::types::{value_view, LogSequenceNumber, TableId, TransactionId, ValueBuf};
use vstd::prelude::*;

verus! {

/// The average size of an entry, by estimate.
pub const BYTES_PER_ENTRY: usize = 30;

/// How often an insert is tried before it is given up.
pub const MAX_RETRIES: usize = 10;

/// The share of a page that a node may take.
pub open spec fn node_limit(page_data_size: int) -> int {
    (page_data_size * 3) / 5
}

/// The number of keys at which a node is full.
pub open spec fn max_order_of(page_data_size: int) -> int {
    let order = node_limit(page_data_size) / (BYTES_PER_ENTRY as int);
    if order < 4 {
        4
    } else {
        order
    }
}

/// The number of keys at which a node is full: as many entries of average size as fit three
/// fifths of a page, and at least four.
pub fn calculate_max_order(page_data_size: usize) -> (r: usize)
    requires
        page_data_size * 3 <= usize::MAX,
    ensures
        r == max_order_of(page_data_size as int),
{
    let target_size: usize = (page_data_size * 3) / 5;
    let order: usize = target_size / BYTES_PER_ENTRY;
    if order < 4 {
        4
    } else {
        order
    }
}

/// The nodes that pages hold.
pub open spec fn nodes(pages: Map<u64, PageView>) -> Nodes {
    Map::new(
        |id: u64| pages.contains_key(id) && parse_node(pages[id].data) is Ok,
        |id: u64| parse_node(pages[id].data)->Ok_0,
    )
}

proof fn lemma_nodes_write(pages: Map<u64, PageView>, id: u64, page: PageView, n: Node)
    requires
        parse_node(page.data) == Ok::<Node, Corruption>(n),
    ensures
        nodes(pages.insert(id, page)) == nodes(pages).insert(id, n),
{
    assert(nodes(pages.insert(id, page)) =~= nodes(pages).insert(id, n));
}

proof fn lemma_nodes_allocate(pages: Map<u64, PageView>, id: u64, page: PageView)
    requires
        !pages.contains_key(id),
        page.data.len() == 0,
    ensures
        nodes(pages.insert(id, page)) == nodes(pages),
{
    assert(nodes(pages.insert(id, page)) =~= nodes(pages));
}

/// The page type that a node is stored under.
pub open spec fn page_type_of(n: Node) -> PageType {
    if n is Internal {
        PageType::BTreeInternal
    } else {
        PageType::BTreeLeaf
    }
}

/// The page that a node is stored as.
pub open spec fn page_of(n: Node) -> PageView {
    PageView { page_type: page_type_of(n), data: node_bytes(n) }
}

/// The pages from the root to the leaf where `key` belongs.
pub open spec fn route(n: Nodes, id: u64, h: nat, key: Seq<u8>) -> Seq<u64>
    decreases h,
{
    if h == 0 || !(n[id] is Internal) {
        seq![id]
    } else {
        seq![id] + route(n, n[id]->kids[upper(n[id]->Internal_keys, key)], (h - 1) as nat, key)
    }
}

/// Where `key` belongs in a node: a child of an internal node, a position of a leaf.
pub open spec fn index_in(n: Node, key: Seq<u8>) -> int {
    match n {
        Node::Internal { version, keys, kids } => upper(keys, key),
        Node::Leaf { version, keys, chains, next } => rank(keys, key),
    }
}

/// The route to a key ends at the leaf that tells what the tree holds of it.
pub proof fn lemma_route(
    n: Nodes,
    id: u64,
    h: nat,
    lo: Option<Seq<u8>>,
    hi: Option<Seq<u8>>,
    after: u64,
    key: Seq<u8>,
)
    requires
        tree(n, id, h, lo, hi, after),
    ensures
        route(n, id, h, key).len() == h + 1,
        route(n, id, h, key)[0] == id,
        n[route(n, id, h, key).last()] is Leaf,
        lookup(n, id, h, key) == leaf_lookup(
            n[route(n, id, h, key).last()]->Leaf_keys,
            n[route(n, id, h, key).last()]->chains,
            key,
        ),
        ascending(n[route(n, id, h, key).last()]->Leaf_keys),
        n[route(n, id, h, key).last()]->Leaf_keys.len() == n[route(
            n,
            id,
            h,
            key,
        ).last()]->chains.len(),
        forall|i: int|
            0 <= i <= h ==> owns(n, id, h, #[trigger] route(n, id, h, key)[i]) && n.contains_key(
                route(n, id, h, key)[i],
            ),
        forall|i: int| 0 <= i < h ==> n[#[trigger] route(n, id, h, key)[i]] is Internal,
    decreases h,
{
    if h > 0 {
        let keys = n[id]->Internal_keys;
        let kids = n[id]->kids;
        let g = (h - 1) as nat;
        lemma_upper_parts(keys, key);
        let u = upper(keys, key);
        lemma_route(
            n,
            kids[u],
            g,
            low(keys, lo, u),
            high(keys, hi, u),
            kid_after(n, kids, g, after, u),
            key,
        );
        let all = route(n, id, h, key);
        let tail = route(n, kids[u], g, key);
        assert(all.last() == tail.last());
        assert forall|i: int| 0 <= i <= h implies owns(n, id, h, #[trigger] all[i])
            && n.contains_key(all[i]) by {
            if i > 0 {
                assert(all[i] == tail[i - 1]);
                assert(owns(n, kids[u], g, tail[i - 1]));
            }
        }
        assert forall|i: int| 0 <= i < h implies n[#[trigger] all[i]] is Internal by {
            if i > 0 {
                assert(all[i] == tail[i - 1]);
            }
        }
    }
}

/// One step of the way to a leaf: a page, its version and the index that was followed.
#[derive(Clone, Copy, Debug)]
pub struct PathEntry {
    pub page_id: PageId,
    pub version: PageVersion,
    pub child_index: usize,
}

/// The steps lead from the root to the leaf where `key` belongs, with the versions of the pages.
pub open spec fn is_path(path: Seq<PathEntry>, n: Nodes, root: u64, h: nat, key: Seq<u8>) -> bool {
    let pages = route(n, root, h, key);
    &&& path.len() == pages.len()
    &&& forall|i: int|
        0 <= i < path.len() ==> {
            &&& (#[trigger] path[i]).page_id.0 == pages[i]
            &&& path[i].version.0 == n[pages[i]].version()
            &&& path[i].child_index == index_in(n[pages[i]], key)
        }
}

/// The node that a page holds, or why it cannot be read.
pub open spec fn node_on(pages: Map<u64, PageView>, id: PageId) -> TableResult<Node> {
    if nodes(pages).contains_key(id.0) {
        Ok(nodes(pages)[id.0])
    } else if pages.contains_key(id.0) {
        Err(TableError::Corruption(parse_node(pages[id.0].data)->Err_0))
    } else {
        Err(TableError::Pager(PagerError::PageNotFound(id)))
    }
}

/// Whether the first `n` pages of a way are unchanged, looked at from the last one to the first:
/// the first page that cannot be read or that was written since decides.
pub open spec fn validated(
    pages: Map<u64, PageView>,
    path: Seq<PathEntry>,
    n: int,
) -> TableResult<bool>
    decreases n,
{
    if n <= 0 {
        Ok(true)
    } else {
        match node_on(pages, path[n - 1].page_id) {
            Err(e) => Err(e),
            Ok(node) => if node.version() != path[n - 1].version.0 {
                Ok(false)
            } else {
                validated(pages, path, n - 1)
            },
        }
    }
}

/// A way that was just searched is unchanged.
proof fn lemma_fresh_path_is_valid(
    pages: Map<u64, PageView>,
    path: Seq<PathEntry>,
    root: u64,
    h: nat,
    key: Seq<u8>,
    m: int,
)
    requires
        is_path(path, nodes(pages), root, h, key),
        route(nodes(pages), root, h, key).len() == h + 1,
        forall|i: int|
            0 <= i <= h ==> nodes(pages).contains_key(
                #[trigger] route(nodes(pages), root, h, key)[i],
            ),
        m <= h,
    ensures
        validated(pages, path, m) == Ok::<bool, TableError>(true),
    decreases m,
{
    if m > 0 {
        lemma_fresh_path_is_valid(pages, path, root, h, key, m - 1);
        assert(path[m - 1].page_id.0 == route(nodes(pages), root, h, key)[m - 1]);
    }
}

/// The versions of a key after one more was put: pending, or committed where `lsn` is not zero.
pub open spec fn put_version(
    old: Option<Seq<Version>>,
    value: Seq<u8>,
    tx: TransactionId,
    lsn: LogSequenceNumber,
) -> Seq<Version> {
    let vs = seq![pending(value, tx)] + match old {
        Some(older) => older,
        None => Seq::empty(),
    };
    if lsn.0 > 0 {
        commit_head(vs, lsn)
    } else {
        vs
    }
}

/// A put that is committed at once is what every reader from its point on gets, and no reader
/// before it; one that is not committed changes nothing for any reader.
pub proof fn law_put_version_is_read(
    old_versions: Option<Seq<Version>>,
    value: Seq<u8>,
    tx: TransactionId,
    lsn: LogSequenceNumber,
    at: LogSequenceNumber,
)
    ensures
        visible_at(put_version(old_versions, value, tx, lsn), at) == (if 0 < lsn.0 <= at.0 {
            Some(value)
        } else {
            match old_versions {
                Some(vs) => visible_at(vs, at),
                None => None,
            }
        }),
{
    let vs = put_version(old_versions, value, tx, lsn);
    match old_versions {
        Some(older) => {
            assert(vs.drop_first() =~= older);
        },
        None => {
            assert(vs.drop_first() =~= Seq::empty());
            assert(visible_at(vs.drop_first(), at) is None);
        },
    }
}

/// The value that stored bytes stand for: themselves, or what they refer to. An empty value marks
/// a deletion.
pub open spec fn resolve(pages: Map<u64, PageView>, fuel: nat, value: Seq<u8>) -> Result<
    Option<Seq<u8>>,
    TableError,
> {
    if value.len() == 0 {
        Ok(None)
    } else {
        match ValueRef::parse(value) {
            Some(ValueRef::SinglePage { page_id, offset, length }) => {
                let id = page_id as u64;
                if !pages.contains_key(id) {
                    Err(TableError::Pager(PagerError::PageNotFound(PageId(id))))
                } else if offset + length > pages[id].data.len() {
                    Err(TableError::Corruption(Corruption::ValueBeyondPage(PageId(id))))
                } else {
                    Ok(Some(pages[id].data.subrange(offset as int, offset + length)))
                }
            },
            Some(ValueRef::OverflowChain { first_page_id, total_length, page_count }) => {
                match chain_data(pages, first_page_id as u64, fuel) {
                    Ok(data) => if data.len() != total_length {
                        Err(
                            TableError::Corruption(
                                Corruption::OverflowLengthMismatch {
                                    expected: total_length,
                                    found: data.len() as u64,
                                },
                            ),
                        )
                    } else {
                        Ok(Some(data))
                    },
                    Err(e) => Err(e),
                }
            },
            _ => Ok(Some(value)),
        }
    }
}

/// What a read gives of the versions of a key.
pub open spec fn resolved_read(
    pages: Map<u64, PageView>,
    fuel: nat,
    vs: Option<Seq<Version>>,
    lsn: LogSequenceNumber,
) -> Result<Option<Seq<u8>>, TableError> {
    match vs {
        Some(vs) => match visible_at(vs, lsn) {
            Some(value) => resolve(pages, fuel, value),
            None => Ok(None),
        },
        None => Ok(None),
    }
}

/// What came of a read, as the contracts speak of it.
pub open spec fn read_view(r: TableResult<Option<ValueBuf>>) -> Result<
    Option<Seq<u8>>,
    TableError,
> {
    match r {
        Ok(v) => Ok(value_view(v)),
        Err(e) => Err(e),
    }
}

/// The left half of a node that is split; the right half goes to page `right`.
pub open spec fn left_half(n: Node, right: u64) -> Node {
    let mid = n.keys().len() as int / 2;
    match n {
        Node::Internal { version, keys, kids } => Node::Internal {
            version: bumped(version),
            keys: keys.take(mid),
            kids: kids.take(mid + 1),
        },
        Node::Leaf { version, keys, chains, next } => Node::Leaf {
            version: bumped(version),
            keys: keys.take(mid),
            chains: chains.take(mid),
            next: right,
        },
    }
}

/// The right half of a node that is split.
pub open spec fn right_half(n: Node) -> Node {
    let mid = n.keys().len() as int / 2;
    match n {
        Node::Internal { version, keys, kids } => Node::Internal {
            version: 0,
            keys: keys.skip(mid + 1),
            kids: kids.skip(mid + 1),
        },
        Node::Leaf { version, keys, chains, next } => Node::Leaf {
            version: 0,
            keys: keys.skip(mid),
            chains: chains.skip(mid),
            next,
        },
    }
}

proof fn lemma_halves_fit(n: Node, right: u64)
    requires
        n.keys().len() > 0,
        n matches Node::Leaf { keys, chains, .. } ==> keys.len() == chains.len(),
    ensures
        node_bytes(left_half(n, right)).len() <= node_bytes(n).len(),
        node_bytes(right_half(n)).len() <= node_bytes(n).len(),
{
    let mid = n.keys().len() as int / 2;
    lemma_node_size(n);
    lemma_node_size(left_half(n, right));
    lemma_node_size(right_half(n));
    match n {
        Node::Internal { version, keys, kids } => {
            lemma_inner_size_parts(keys, mid);
            lemma_inner_size_parts(keys, mid + 1);
        },
        Node::Leaf { version, keys, chains, next } => {
            lemma_leaf_size_parts(keys, chains, mid);
        },
    }
}

/// The leaf after the versions of a key were put.
pub open spec fn put_leaf(n: Node, key: Seq<u8>, vs: Seq<Version>) -> Node {
    Node::Leaf {
        version: bumped(n->Leaf_version),
        keys: put_keys(n->Leaf_keys, key),
        chains: put_chains(n->Leaf_keys, n->chains, key, vs),
        next: n->next,
    }
}

/// The versions of `key` in the tree of `n2` are `vs`, and those of other keys are as in `n`.
pub open spec fn is_put(
    n: Nodes,
    n2: Nodes,
    id: u64,
    h: nat,
    key: Seq<u8>,
    vs: Seq<Version>,
) -> bool {
    forall|k: Seq<u8>| #[trigger]
        lookup(n2, id, h, k) == (if k == key {
            Some(vs)
        } else {
            lookup(n, id, h, k)
        })
}

/// The same for a tree that was split at `m`, with the right part under `r`.
pub open spec fn is_put_split(
    n: Nodes,
    n2: Nodes,
    id: u64,
    m: Seq<u8>,
    r: u64,
    h: nat,
    key: Seq<u8>,
    vs: Seq<Version>,
) -> bool {
    &&& forall|k: Seq<u8>|
        lex_lt(k, m) ==> #[trigger] lookup(n2, id, h, k) == (if k == key {
            Some(vs)
        } else {
            lookup(n, id, h, k)
        })
    &&& forall|k: Seq<u8>|
        !lex_lt(k, m) ==> #[trigger] lookup(n2, r, h, k) == (if k == key {
            Some(vs)
        } else {
            lookup(n, id, h, k)
        })
}

/// The pages outside a tree are as they were, and no page is gone.
pub open spec fn pages_kept(
    pages: Map<u64, PageView>,
    pages2: Map<u64, PageView>,
    id: u64,
    h: nat,
) -> bool {
    forall|p: u64| #[trigger]
        pages.contains_key(p) ==> pages2.contains_key(p) && (!owns(nodes(pages), id, h, p)
            ==> pages2[p] == pages[p])
}

/// A B-tree whose nodes stand in pages.
pub struct PagedBTree {
    pub id: TableId,
    pub name: String,
    pub root_page_id: PageId,
    pub row_count: u64,
    pub max_order: usize,
    pub min_keys: usize,
    pub max_node_size: usize,
    pub height: Ghost<nat>,
}

/// The child where `key` belongs.
fn child_index(entries: &Vec<InternalEntry>, key: &[u8]) -> (r: usize)
    requires
        nondecreasing(inner_keys(entries@)),
    ensures
        r == upper(inner_keys(entries@), key@),
        r <= entries@.len(),
{
    let ghost keys = inner_keys(entries@);
    let mut a: usize = 0;
    let mut b: usize = entries.len();
    while a < b
        invariant
            keys == inner_keys(entries@),
            nondecreasing(keys),
            a <= b <= entries@.len(),
            forall|i: int| 0 <= i < a ==> lex_le(#[trigger] keys[i], key@),
            forall|i: int| b <= i < keys.len() ==> lex_lt(key@, #[trigger] keys[i]),
        decreases b - a,
    {
        let mid: usize = a + (b - a) / 2;
        assert(keys[mid as int] == entries@[mid as int].key@);
        match compare_bytes(entries[mid].key.as_slice(), key) {
            ByteOrder::Greater => {
                proof {
                    assert forall|i: int| mid <= i < keys.len() implies lex_lt(
                        key@,
                        #[trigger] keys[i],
                    ) by {
                        if i > mid {
                            assert(lex_le(keys[mid as int], keys[i]));
                            if keys[mid as int] != keys[i] {
                                lemma_lex_transitive(key@, keys[mid as int], keys[i]);
                            }
                        }
                    }
                }
                b = mid;
            },
            _ => {
                proof {
                    assert forall|i: int| 0 <= i < mid + 1 implies lex_le(
                        #[trigger] keys[i],
                        key@,
                    ) by {
                        if i < mid {
                            assert(lex_le(keys[i], keys[mid as int]));
                            if keys[i] != keys[mid as int] && keys[mid as int] != key@ {
                                lemma_lex_transitive(keys[i], keys[mid as int], key@);
                            }
                        }
                    }
                }
                a = mid + 1;
            },
        }
    }
    proof {
        lemma_upper(keys, key@, a as int);
    }
    a
}

/// The position of `key` in a leaf, and whether the key itself stands there.
fn leaf_position(entries: &Vec<LeafEntry>, key: &[u8]) -> (r: (usize, bool))
    requires
        ascending(leaf_keys(entries@)),
    ensures
        r.0 == rank(leaf_keys(entries@), key@),
        r.0 <= entries@.len(),
        r.1 == (r.0 < entries@.len() && entries@[r.0 as int].key@ == key@),
{
    let ghost keys = leaf_keys(entries@);
    let mut a: usize = 0;
    let mut b: usize = entries.len();
    while a < b
        invariant
            keys == leaf_keys(entries@),
            ascending(keys),
            a <= b <= entries@.len(),
            forall|i: int| 0 <= i < a ==> lex_lt(#[trigger] keys[i], key@),
            forall|i: int| b <= i < keys.len() ==> !lex_lt(#[trigger] keys[i], key@),
        decreases b - a,
    {
        let mid: usize = a + (b - a) / 2;
        assert(keys[mid as int] == entries@[mid as int].key@);
        match compare_bytes(entries[mid].key.as_slice(), key) {
            ByteOrder::Less => {
                proof {
                    assert forall|i: int| 0 <= i < mid + 1 implies lex_lt(
                        #[trigger] keys[i],
                        key@,
                    ) by {
                        if i < mid {
                            assert(lex_lt(keys[i], keys[mid as int]));
                            lemma_lex_transitive(keys[i], keys[mid as int], key@);
                        }
                    }
                }
                a = mid + 1;
            },
            _ => {
                proof {
                    assert forall|i: int| mid <= i < keys.len() implies !lex_lt(
                        #[trigger] keys[i],
                        key@,
                    ) by {
                        if i > mid {
                            assert(lex_lt(keys[mid as int], keys[i]));
                            if lex_lt(keys[i], key@) {
                                lemma_lex_transitive(keys[mid as int], keys[i], key@);
                            }
                        }
                    }
                }
                b = mid;
            },
        }
    }
    proof {
        lemma_rank(keys, key@, a as int);
    }
    let found: bool = a < entries.len() && bytes_equal(entries[a].key.as_slice(), key);
    (a, found)
}

/// The page of child `i`.
fn kid_at(entries: &Vec<InternalEntry>, rightmost: PageId, i: usize) -> (r: PageId)
    requires
        i <= entries@.len(),
    ensures
        r.0 == inner_kids(entries@).push(rightmost.0)[i as int],
{
    if i < entries.len() {
        entries[i].child_page_id
    } else {
        rightmost
    }
}

impl PagedBTree {
    /// The nodes of a store.
    pub open spec fn nodes(pager: &Pager) -> Nodes {
        nodes(pager.pages())
    }

    /// The measures by which nodes are split are those of the store's page size.
    pub open spec fn sized_for(&self, pager: &Pager) -> bool {
        &&& self.max_order == max_order_of(pager.capacity() as int)
        &&& self.min_keys == self.max_order / 2
        &&& self.max_node_size == node_limit(pager.capacity() as int)
    }

    /// The root is the root of a tree in the store.
    pub open spec fn wf(&self, pager: &Pager) -> bool {
        &&& pager.wf()
        &&& self.sized_for(pager)
        &&& tree(nodes(pager.pages()), self.root_page_id.0, self.height@, None, None, 0)
    }

    /// What the tree holds of `key`.
    pub open spec fn find(&self, pager: &Pager, key: Seq<u8>) -> Option<Seq<Version>> {
        lookup(nodes(pager.pages()), self.root_page_id.0, self.height@, key)
    }

    /// The versions of each key.
    pub open spec fn chains(&self, pager: &Pager) -> Chains {
        Map::new(
            |k: Seq<u8>| self.find(pager, k) is Some,
            |k: Seq<u8>| self.find(pager, k)->Some_0,
        )
    }

    /// Page `p` belongs to the tree.
    pub open spec fn owns_page(&self, pager: &Pager, p: u64) -> bool {
        owns(nodes(pager.pages()), self.root_page_id.0, self.height@, p)
    }

    /// The tables differ in their root, height and row count alone.
    pub open spec fn same_identity(&self, other: &Self) -> bool {
        &&& self.id == other.id
        &&& self.name == other.name
        &&& self.max_order == other.max_order
        &&& self.min_keys == other.min_keys
        &&& self.max_node_size == other.max_node_size
    }

    /// Creates an empty tree in a store.
    pub fn new(id: TableId, name: String, pager: &mut Pager) -> (r: TableResult<Self>)
        requires
            old(pager).wf(),
        ensures
            r is Ok,
            r->Ok_0.wf(final(pager)),
            r->Ok_0.id == id,
            r->Ok_0.name == name,
            r->Ok_0.row_count == 0,
            r->Ok_0.height@ == 0,
            r->Ok_0.chains(final(pager)) == Map::<Seq<u8>, Seq<Version>>::empty(),
            !old(pager).pages().contains_key(r->Ok_0.root_page_id.0),
            forall|p: u64| #[trigger]
                old(pager).pages().contains_key(p) ==> final(pager).pages().contains_key(p)
                    && final(pager).pages()[p] == old(pager).pages()[p],
            final(pager).root_btree_page == r->Ok_0.root_page_id,
            final(pager).btree_rows == 0,
    {
        let page_data_size: usize = pager.page_size().data_size();
        let max_order: usize = calculate_max_order(page_data_size);
        let min_keys: usize = max_order / 2;
        let max_node_size: usize = (page_data_size * 3) / 5;
        let root_page_id = pager.allocate_page(PageType::BTreeLeaf);
        proof {
            lemma_nodes_allocate(
                old(pager).pages(),
                root_page_id.0,
                PageView { page_type: PageType::BTreeLeaf, data: Seq::empty() },
            );
        }
        let root_node = BTreeNode::new_leaf();
        let table = PagedBTree {
            id,
            name,
            root_page_id,
            row_count: 0,
            max_order,
            min_keys,
            max_node_size,
            height: Ghost(0),
        };
        proof {
            lemma_node_size(root_node@);
        }
        match table.write_node(pager, root_page_id, &root_node) {
            Ok(()) => {},
            Err(e) => {
                return Err(e);
            },
        }
        pager.set_root_btree_page(root_page_id);
        pager.set_btree_row_count(0);
        proof {
            assert(table.chains(pager) =~= Map::<Seq<u8>, Seq<Version>>::empty());
        }
        Ok(table)
    }

    /// Opens the tree under a root page of a store.
    pub fn open(id: TableId, name: String, pager: &Pager, root_page_id: PageId) -> (r: Self)
        requires
            pager.wf(),
        ensures
            r.id == id,
            r.name == name,
            r.root_page_id == root_page_id,
            r.row_count == pager.btree_rows,
            r.sized_for(pager),
            (exists|h: nat| tree(nodes(pager.pages()), root_page_id.0, h, None, None, 0))
                ==> r.wf(pager),
    {
        let page_data_size: usize = pager.page_size().data_size();
        let max_order: usize = calculate_max_order(page_data_size);
        let min_keys: usize = max_order / 2;
        let max_node_size: usize = (page_data_size * 3) / 5;
        let ghost height = choose|h: nat|
            tree(nodes(pager.pages()), root_page_id.0, h, None, None, 0);
        PagedBTree {
            id,
            name,
            root_page_id,
            row_count: pager.btree_row_count(),
            max_order,
            min_keys,
            max_node_size,
            height: Ghost(height),
        }
    }

    /// Whether a node takes no more of a page than a node may take.
    pub fn node_fits_in_page(&self, node: &BTreeNode) -> (r: bool)
        ensures
            r == (node_bytes(node@).len() <= self.max_node_size),
    {
        node.to_bytes().len() <= self.max_node_size
    }

    /// A node is to be split.
    pub open spec fn is_overfull(&self, n: Node) -> bool {
        n.keys().len() >= self.max_order || node_bytes(n).len() > self.max_node_size
    }

    /// Whether a change below a node cannot reach beyond it: no split after an insert, no shortage
    /// after a deletion.
    pub fn is_node_safe(&self, node: &BTreeNode, is_insert: bool) -> (r: bool)
        ensures
            r == (if is_insert {
                !self.is_overfull(node@)
            } else {
                node@.keys().len() > self.min_keys
            }),
    {
        if is_insert {
            !node.is_full(self.max_order) && self.node_fits_in_page(node)
        } else {
            node.key_count() > self.min_keys
        }
    }

    /// The root page of the tree.
    pub fn get_root_page_id(&self) -> (r: PageId)
        ensures
            r == self.root_page_id,
    {
        self.root_page_id
    }

    /// Reads a node.
    pub fn read_node(&self, pager: &Pager, page_id: PageId) -> (r: TableResult<BTreeNode>)
        requires
            pager.wf(),
        ensures
            match r {
                Ok(n) => nodes(pager.pages()).contains_key(page_id.0) && n@ == nodes(
                    pager.pages(),
                )[page_id.0],
                Err(e) => !nodes(pager.pages()).contains_key(page_id.0) && e == (
                if pager.pages().contains_key(page_id.0) {
                    TableError::Corruption(parse_node(pager.pages()[page_id.0].data)->Err_0)
                } else {
                    TableError::Pager(PagerError::PageNotFound(page_id))
                }),
            },
    {
        match pager.read_page(page_id) {
            Ok(page) => BTreeNode::from_bytes(page.data.as_slice()),
            Err(e) => Err(TableError::Pager(e)),
        }
    }

    /// Writes a node.
    pub fn write_node(&self, pager: &mut Pager, page_id: PageId, node: &BTreeNode) -> (r:
        TableResult<()>)
        requires
            old(pager).wf(),
        ensures
            final(pager).wf(),
            final(pager).same_meta(old(pager)),
            r is Ok <==> old(pager).pages().contains_key(page_id.0) && node_bytes(node@).len()
                <= old(pager).capacity(),
            r is Ok ==> final(pager).pages() == old(pager).pages().insert(
                page_id.0,
                page_of(node@),
            ) && nodes(final(pager).pages()) == nodes(old(pager).pages()).insert(
                page_id.0,
                node@,
            ),
            r matches Err(e) ==> final(pager).pages() == old(pager).pages() && e
                == TableError::Pager(
                if old(pager).pages().contains_key(page_id.0) {
                    PagerError::PageOverflow {
                        page_id,
                        len: node_bytes(node@).len() as usize,
                        capacity: old(pager).capacity() as usize,
                    }
                } else {
                    PagerError::PageNotFound(page_id)
                },
            ),
    {
        let page_type = match node.node_type() {
            NodeType::Internal => PageType::BTreeInternal,
            NodeType::Leaf => PageType::BTreeLeaf,
        };
        let data = node.to_bytes();
        let page = Page { id: page_id, page_type, data };
        proof {
            assert(page.contents() =~= page_of(node@));
            if data@.len() <= pager.capacity() {
                lemma_lengths_fit(node@);
                assert(data@ + Seq::<u8>::empty() =~= data@);
                assert(parse_node(data@) == Ok::<Node, Corruption>(node@));
                lemma_nodes_write(pager.pages(), page_id.0, page_of(node@), node@);
            }
        }
        match pager.write_page(page) {
            Ok(()) => Ok(()),
            Err(e) => Err(TableError::Pager(e)),
        }
    }

    /// The leaf where `key` belongs and the position of `key` in it.
    pub fn search(&self, pager: &Pager, key: &[u8]) -> (r: TableResult<(PageId, usize)>)
        requires
            self.wf(pager),
        ensures
            r is Ok,
            ({
                let n = nodes(pager.pages());
                let leaf = route(n, self.root_page_id.0, self.height@, key@).last();
                r->Ok_0.0.0 == leaf && r->Ok_0.1 == index_in(n[leaf], key@)
            }),
    {
        match self.search_with_path(pager, key) {
            Ok((leaf, pos, _)) => Ok((leaf, pos)),
            Err(e) => Err(e),
        }
    }

    /// The leaf where `key` belongs, the position of `key` in it, and the way there: each parent
    /// with the child that was followed.
    pub fn search_with_path(&self, pager: &Pager, key: &[u8]) -> (r: TableResult<
        (PageId, usize, Vec<(PageId, PageId)>),
    >)
        requires
            self.wf(pager),
        ensures
            r is Ok,
            ({
                let n = nodes(pager.pages());
                let way = route(n, self.root_page_id.0, self.height@, key@);
                &&& r->Ok_0.0.0 == way.last()
                &&& r->Ok_0.1 == index_in(n[way.last()], key@)
                &&& r->Ok_0.2@.len() == self.height@
                &&& forall|i: int|
                    0 <= i < self.height@ ==> (#[trigger] r->Ok_0.2@[i]).0.0 == way[i]
                        && r->Ok_0.2@[i].1.0 == way[i + 1]
            }),
    {
        match self.search_optimistic(pager, key) {
            Ok((leaf, pos, steps)) => {
                proof {
                    lemma_route(
                        nodes(pager.pages()),
                        self.root_page_id.0,
                        self.height@,
                        None,
                        None,
                        0,
                        key@,
                    );
                }
                Ok((leaf, pos, path_pairs(&steps)))
            },
            Err(e) => Err(e),
        }
    }

    /// The leaf where `key` belongs, the position of `key` in it, and the way there with the
    /// versions of the pages, so that it can be told later whether a page on it was written.
    pub fn search_optimistic(&self, pager: &Pager, key: &[u8]) -> (r: TableResult<
        (PageId, usize, Vec<PathEntry>),
    >)
        requires
            self.wf(pager),
        ensures
            r is Ok,
            ({
                let n = nodes(pager.pages());
                let way = route(n, self.root_page_id.0, self.height@, key@);
                &&& r->Ok_0.0.0 == way.last()
                &&& r->Ok_0.1 == index_in(n[way.last()], key@)
                &&& is_path(r->Ok_0.2@, n, self.root_page_id.0, self.height@, key@)
            }),
    {
        self.search_from(
            pager,
            self.root_page_id,
            key,
            Ghost(self.height@),
            Ghost(None),
            Ghost(None),
            Ghost(0),
        )
    }

    fn search_from(
        &self,
        pager: &Pager,
        current: PageId,
        key: &[u8],
        Ghost(h): Ghost<nat>,
        Ghost(lo): Ghost<Option<Seq<u8>>>,
        Ghost(hi): Ghost<Option<Seq<u8>>>,
        Ghost(after): Ghost<u64>,
    ) -> (r: TableResult<(PageId, usize, Vec<PathEntry>)>)
        requires
            pager.wf(),
            tree(nodes(pager.pages()), current.0, h, lo, hi, after),
        ensures
            r is Ok,
            ({
                let n = nodes(pager.pages());
                let way = route(n, current.0, h, key@);
                &&& r->Ok_0.0.0 == way.last()
                &&& r->Ok_0.1 == index_in(n[way.last()], key@)
                &&& is_path(r->Ok_0.2@, n, current.0, h, key@)
            }),
        decreases h,
    {
        let ghost n = nodes(pager.pages());
        let node = match self.read_node(pager, current) {
            Ok(x) => x,
            Err(e) => {
                return Err(e);
            },
        };
        let version = node.get_version();
        match node {
            BTreeNode::Internal { version: _, entries, rightmost_child } => {
                let i: usize = child_index(&entries, key);
                let kid = kid_at(&entries, rightmost_child, i);
                let ghost keys = n[current.0]->Internal_keys;
                let ghost kids = n[current.0]->kids;
                let ghost g = (h - 1) as nat;
                assert(kids[i as int] == kid.0);
                match self.search_from(
                    pager,
                    kid,
                    key,
                    Ghost(g),
                    Ghost(low(keys, lo, i as int)),
                    Ghost(high(keys, hi, i as int)),
                    Ghost(kid_after(n, kids, g, after, i as int)),
                ) {
                    Ok((leaf, pos, tail)) => {
                        let mut path = tail;
                        path.insert(0, PathEntry { page_id: current, version, child_index: i });
                        proof {
                            let way = route(n, current.0, h, key@);
                            let rest = route(n, kid.0, g, key@);
                            assert(way == seq![current.0] + rest);
                            lemma_route_len(n, kid.0, g, key@);
                            assert forall|j: int| 0 <= j < path@.len() implies {
                                &&& (#[trigger] path@[j]).page_id.0 == way[j]
                                &&& path@[j].version.0 == n[way[j]].version()
                                &&& path@[j].child_index == index_in(n[way[j]], key@)
                            } by {
                                if j > 0 {
                                    assert(path@[j] == tail@[j - 1]);
                                    assert(way[j] == rest[j - 1]);
                                }
                            }
                        }
                        Ok((leaf, pos, path))
                    },
                    Err(e) => Err(e),
                }
            },
            BTreeNode::Leaf { version: _, entries, next_leaf: _ } => {
                let (i, _) = leaf_position(&entries, key);
                let mut path: Vec<PathEntry> = Vec::new();
                path.push(PathEntry { page_id: current, version, child_index: i });
                Ok((current, i, path))
            },
        }
    }

    /// Whether no page on the way, the leaf left aside, was written since.
    pub fn validate_optimistic_path(&self, pager: &Pager, path: &Vec<PathEntry>) -> (r: TableResult<
        bool,
    >)
        requires
            pager.wf(),
        ensures
            r == validated(pager.pages(), path@, path@.len() - 1),
    {
        if path.len() == 0 {
            return Ok(true);
        }
        let mut i: usize = path.len() - 1;
        while i > 0
            invariant
                pager.wf(),
                i <= path@.len() - 1,
                validated(pager.pages(), path@, path@.len() - 1) == validated(
                    pager.pages(),
                    path@,
                    i as int,
                ),
            decreases i,
        {
            let entry = path[i - 1];
            match self.read_node(pager, entry.page_id) {
                Ok(node) => {
                    let current = node.get_version();
                    if current != entry.version {
                        return Ok(false);
                    }
                },
                Err(e) => {
                    return Err(e);
                },
            }
            i -= 1;
        }
        Ok(true)
    }

    /// The value of `key` that a reader at `snapshot_lsn` gets, fetched from overflow pages where
    /// it stands there.
    pub fn get_internal(&self, pager: &Pager, key: &[u8], snapshot_lsn: LogSequenceNumber) -> (r:
        TableResult<Option<ValueBuf>>)
        requires
            self.wf(pager),
        ensures
            read_view(r) == resolved_read(
                pager.pages(),
                pager.slots@.len(),
                self.find(pager, key@),
                snapshot_lsn,
            ),
    {
        let ghost n = nodes(pager.pages());
        proof {
            lemma_route(n, self.root_page_id.0, self.height@, None, None, 0, key@);
        }
        let (leaf, pos) = match self.search(pager, key) {
            Ok(t) => t,
            Err(e) => {
                return Err(e);
            },
        };
        let node = match self.read_node(pager, leaf) {
            Ok(x) => x,
            Err(e) => {
                return Err(e);
            },
        };
        match node {
            BTreeNode::Leaf { version: _, entries, next_leaf: _ } => {
                if pos < entries.len() && bytes_equal(entries[pos].key.as_slice(), key) {
                    let snapshot = Snapshot::at(snapshot_lsn);
                    match entries[pos].chain.find_visible_version(&snapshot) {
                        Some(value) => resolve_value(pager, value),
                        None => Ok(None),
                    }
                } else {
                    Ok(None)
                }
            },
            BTreeNode::Internal { .. } => Ok(None),
        }
    }

    /// Splits a node in two. The left half stays in its page, the right half goes to a new one.
    /// Returns the new page and the key that parts the halves.
    pub fn split_node(&self, pager: &mut Pager, page_id: PageId, node: BTreeNode) -> (r: TableResult<
        (PageId, Vec<u8>),
    >)
        requires
            old(pager).wf(),
            old(pager).pages().contains_key(page_id.0),
            node@.keys().len() > 0,
            node_bytes(node@).len() <= old(pager).capacity(),
        ensures
            r is Ok,
            final(pager).wf(),
            final(pager).same_meta(old(pager)),
            ({
                let right = r->Ok_0.0.0;
                &&& right != 0
                &&& !old(pager).pages().contains_key(right)
                &&& r->Ok_0.1@ == node@.keys()[node@.keys().len() as int / 2]
                &&& final(pager).pages() == old(pager).pages().insert(
                    page_id.0,
                    page_of(left_half(node@, right)),
                ).insert(right, page_of(right_half(node@)))
                &&& nodes(final(pager).pages()) == nodes(old(pager).pages()).insert(
                    page_id.0,
                    left_half(node@, right),
                ).insert(right, right_half(node@))
            }),
    {
        let ghost before = pager.pages();
        let ghost whole = node@;
        let mid: usize = node.key_count() / 2;
        match node {
            BTreeNode::Internal { version, entries, rightmost_child } => {
                let ghost all = entries@;
                let mut left_entries = entries;
                let mut right_entries = left_entries.split_off(mid);
                let median = right_entries.remove(0);
                let right_page_id = pager.allocate_page(PageType::BTreeInternal);
                proof {
                    lemma_nodes_allocate(
                        before,
                        right_page_id.0,
                        PageView { page_type: PageType::BTreeInternal, data: Seq::empty() },
                    );
                    lemma_halves_fit(whole, right_page_id.0);
                }
                let right_node = BTreeNode::Internal {
                    version: PageVersion::initial(),
                    entries: right_entries,
                    rightmost_child,
                };
                let left_node = BTreeNode::Internal {
                    version: version.increment(),
                    entries: left_entries,
                    rightmost_child: median.child_page_id,
                };
                proof {
                    assert(left_node@ =~= left_half(whole, right_page_id.0)) by {
                        assert(inner_keys(left_entries@) =~= inner_keys(all).take(mid as int));
                        assert(inner_kids(left_entries@).push(median.child_page_id.0)
                            =~= inner_kids(all).push(rightmost_child.0).take(mid + 1));
                    }
                    assert(right_node@ =~= right_half(whole)) by {
                        assert(inner_keys(right_entries@) =~= inner_keys(all).skip(mid + 1));
                        assert(inner_kids(right_entries@).push(rightmost_child.0) =~= inner_kids(
                            all,
                        ).push(rightmost_child.0).skip(mid + 1));
                    }
                }
                self.write_halves(pager, page_id, &left_node, right_page_id, &right_node);
                proof {
                    assert(pager.pages() =~= before.insert(page_id.0, page_of(left_node@)).insert(
                        right_page_id.0,
                        page_of(right_node@),
                    ));
                }
                Ok((right_page_id, median.key))
            },
            BTreeNode::Leaf { version, entries, next_leaf } => {
                let ghost all = entries@;
                let mut left_entries = entries;
                let right_entries = left_entries.split_off(mid);
                let median_key = copy_bytes(right_entries[0].key.as_slice());
                let right_page_id = pager.allocate_page(PageType::BTreeLeaf);
                proof {
                    lemma_nodes_allocate(
                        before,
                        right_page_id.0,
                        PageView { page_type: PageType::BTreeLeaf, data: Seq::empty() },
                    );
                    lemma_halves_fit(whole, right_page_id.0);
                }
                let right_node = BTreeNode::Leaf {
                    version: PageVersion::initial(),
                    entries: right_entries,
                    next_leaf,
                };
                let left_node = BTreeNode::Leaf {
                    version: version.increment(),
                    entries: left_entries,
                    next_leaf: right_page_id,
                };
                proof {
                    assert(left_node@ =~= left_half(whole, right_page_id.0)) by {
                        assert(leaf_keys(left_entries@) =~= leaf_keys(all).take(mid as int));
                        assert(leaf_chains(left_entries@) =~= leaf_chains(all).take(mid as int));
                    }
                    assert(right_node@ =~= right_half(whole)) by {
                        assert(leaf_keys(right_entries@) =~= leaf_keys(all).skip(mid as int));
                        assert(leaf_chains(right_entries@) =~= leaf_chains(all).skip(mid as int));
                    }
                }
                self.write_halves(pager, page_id, &left_node, right_page_id, &right_node);
                proof {
                    assert(pager.pages() =~= before.insert(page_id.0, page_of(left_node@)).insert(
                        right_page_id.0,
                        page_of(right_node@),
                    ));
                }
                Ok((right_page_id, median_key))
            },
        }
    }

    fn write_halves(
        &self,
        pager: &mut Pager,
        left_id: PageId,
        left: &BTreeNode,
        right_id: PageId,
        right: &BTreeNode,
    )
        requires
            old(pager).wf(),
            old(pager).pages().contains_key(left_id.0),
            old(pager).pages().contains_key(right_id.0),
            node_bytes(left@).len() <= old(pager).capacity(),
            node_bytes(right@).len() <= old(pager).capacity(),
        ensures
            final(pager).wf(),
            final(pager).same_meta(old(pager)),
            final(pager).pages() == old(pager).pages().insert(left_id.0, page_of(left@)).insert(
                right_id.0,
                page_of(right@),
            ),
            nodes(final(pager).pages()) == nodes(old(pager).pages()).insert(
                left_id.0,
                left@,
            ).insert(right_id.0, right@),
    {
        let _ = self.write_node(pager, left_id, left);
        let _ = self.write_node(pager, right_id, right);
    }

    /// Puts a separator and the page to its right into the parent of a child that was split.
    /// Returns the parent as it was written. A leaf, which has no children, is left as it is.
    pub fn insert_into_parent(
        &self,
        pager: &mut Pager,
        parent_page_id: PageId,
        left_child: PageId,
        key: Vec<u8>,
        right_child: PageId,
    ) -> (r: TableResult<BTreeNode>)
        requires
            old(pager).wf(),
        ensures
            final(pager).wf(),
            final(pager).same_meta(old(pager)),
            node_on(old(pager).pages(), parent_page_id) matches Err(e) ==> r is Err && r->Err_0
                == e && final(pager).pages() == old(pager).pages(),
            node_on(old(pager).pages(), parent_page_id) matches Ok(node) && node is Leaf ==> r is Ok
                && r->Ok_0@ == nodes(old(pager).pages())[parent_page_id.0] && final(pager).pages()
                == old(pager).pages(),
            node_on(old(pager).pages(), parent_page_id) matches Ok(node) && node is Internal ==> ({
                let n = nodes(old(pager).pages());
                let parent = n[parent_page_id.0];
                let i = slot_of(parent->kids, left_child.0);
                let updated = with_split(parent, i, key@, right_child.0);
                match r {
                    Ok(node) => {
                        &&& i < parent->kids.len()
                        &&& node@ == updated
                        &&& node_bytes(updated).len() <= old(pager).capacity()
                        &&& final(pager).pages() == old(pager).pages().insert(
                            parent_page_id.0,
                            page_of(updated),
                        )
                        &&& nodes(final(pager).pages()) == n.insert(parent_page_id.0, updated)
                    },
                    Err(e) => {
                        &&& final(pager).pages() == old(pager).pages()
                        &&& if i < parent->kids.len() {
                            e is Pager && e->Pager_0 is PageOverflow && node_bytes(updated).len()
                                > old(pager).capacity()
                        } else {
                            e == TableError::Corruption(
                                Corruption::MissingChild {
                                    parent: parent_page_id,
                                    child: left_child,
                                },
                            )
                        }
                    },
                }
            }),
    {
        let ghost parent = nodes(pager.pages())[parent_page_id.0];
        let ghost k = key@;
        let node = match self.read_node(pager, parent_page_id) {
            Ok(x) => x,
            Err(e) => {
                return Err(e);
            },
        };
        match node {
            BTreeNode::Internal { version, entries, rightmost_child } => {
                let mut entries = entries;
                let mut rightmost_child = rightmost_child;
                let ghost kids = parent->kids;
                let ghost keys = parent->Internal_keys;
                let ghost i = slot_of(kids, left_child.0);
                if rightmost_child == left_child {
                    entries.push(InternalEntry { key, child_page_id: left_child });
                    rightmost_child = right_child;
                    proof {
                        assert(inner_keys(entries@) =~= keys.insert(i, k));
                        assert(inner_kids(entries@).push(rightmost_child.0) =~= kids.insert(
                            i + 1,
                            right_child.0,
                        ));
                    }
                } else {
                    let total: usize = entries.len();
                    let mut pos: usize = 0;
                    while pos < total && entries[pos].child_page_id != left_child
                        invariant
                            pos <= total == entries@.len(),
                            kids == inner_kids(entries@).push(rightmost_child.0),
                            first_at(kids, left_child.0, 0) == first_at(
                                kids,
                                left_child.0,
                                pos as int,
                            ),
                        decreases total - pos,
                    {
                        pos += 1;
                    }
                    if pos >= total {
                        proof {
                            assert(first_at(kids, left_child.0, total + 1) == total + 1);
                        }
                        return Err(
                            TableError::Corruption(
                                Corruption::MissingChild {
                                    parent: parent_page_id,
                                    child: left_child,
                                },
                            ),
                        );
                    }
                    assert(i == pos);
                    entries.insert(pos, InternalEntry { key, child_page_id: left_child });
                    let old_key = copy_bytes(entries[pos + 1].key.as_slice());
                    entries.set(
                        pos + 1,
                        InternalEntry { key: old_key, child_page_id: right_child },
                    );
                    proof {
                        assert(inner_keys(entries@) =~= keys.insert(i, k));
                        assert(inner_kids(entries@).push(rightmost_child.0) =~= kids.insert(
                            i + 1,
                            right_child.0,
                        ));
                    }
                }
                let updated = BTreeNode::Internal { version, entries, rightmost_child };
                proof {
                    assert(updated@ =~= with_split(parent, i, k, right_child.0));
                }
                match self.write_node(pager, parent_page_id, &updated) {
                    Ok(()) => Ok(updated),
                    Err(e) => Err(e),
                }
            },
            leaf => Ok(leaf),
        }
    }

    /// Puts one more version of a key into its leaf, and splits the leaf if it has become too
    /// large. Returns whether the key is new and, where the leaf was split, the key that parts its
    /// halves and the page of the right one.
    fn insert_at_leaf(
        &self,
        pager: &mut Pager,
        page_id: PageId,
        key: &Vec<u8>,
        value: Vec<u8>,
        tx_id: TransactionId,
        commit_lsn: LogSequenceNumber,
        Ghost(lo): Ghost<Option<Seq<u8>>>,
        Ghost(hi): Ghost<Option<Seq<u8>>>,
        Ghost(after): Ghost<u64>,
    ) -> (r: TableResult<(bool, Option<(Vec<u8>, PageId)>)>)
        requires
            old(pager).wf(),
            self.sized_for(old(pager)),
            tree(nodes(old(pager).pages()), page_id.0, 0, lo, hi, after),
            in_range(key@, lo, hi),
        ensures
            final(pager).wf(),
            final(pager).same_meta(old(pager)),
            put_outcome(
                old(pager).pages(),
                final(pager).pages(),
                page_id.0,
                0,
                lo,
                hi,
                after,
                key@,
                value@,
                tx_id,
                commit_lsn,
                r,
            ),
            put_succeeds(
                old(pager).pages(),
                final(pager).pages(),
                old(pager).capacity(),
                page_id.0,
                0,
                key@,
                value@,
                tx_id,
                commit_lsn,
                r,
            ),
    {
        let ghost id = page_id.0;
        let ghost pages = pager.pages();
        let ghost n = nodes(pages);
        let ghost before = lookup(n, id, 0, key@);
        let ghost vs = put_version(before, value@, tx_id, commit_lsn);
        assert(route(n, id, 0, key@).last() == id);
        let node = match self.read_node(pager, page_id) {
            Ok(x) => x,
            Err(e) => {
                return Err(e);
            },
        };
        match node {
            BTreeNode::Leaf { version, entries, next_leaf } => {
                let ghost old_keys = leaf_keys(entries@);
                let ghost old_chains = leaf_chains(entries@);
                let (entries, is_new) = put_entry(entries, key, value, tx_id, commit_lsn);
                let updated = BTreeNode::Leaf { version: version.increment(), entries, next_leaf };
                let ghost leaf = updated@;
                proof {
                    lemma_leaf_put(old_keys, old_chains, key@, vs);
                    assert(leaf =~= put_leaf(n[id], key@, vs));
                }
                match self.write_node(pager, page_id, &updated) {
                    Ok(()) => {},
                    Err(e) => {
                        return Err(e);
                    },
                }
                let ghost n1 = nodes(pager.pages());
                proof {
                    reveal(tree_outcome);
                    lemma_leaf_tree(n, n1, id, lo, hi, after, key@, vs);
                }
                if !updated.is_full(self.max_order) && self.node_fits_in_page(&updated) {
                    return Ok((is_new, None));
                }
                proof {
                    lemma_node_size(leaf);
                    assert(leaf.keys().len() > 0);
                }
                match self.split_node(pager, page_id, updated) {
                    Ok((right, median)) => {
                        let ghost n2 = nodes(pager.pages());
                        proof {
                            let mid = leaf.keys().len() as int / 2;
                            lemma_split_leaf(n1, n2, id, right.0, lo, hi, after, mid);
                            lemma_lex_leaf_between(median@, lo, hi);
                        }
                        Ok((is_new, Some((median, right))))
                    },
                    Err(e) => Err(e),
                }
            },
            BTreeNode::Internal { .. } => Err(
                TableError::Corruption(Corruption::ParentNotInternal(page_id)),
            ),
        }
    }

    /// Takes the halves of a child that was split into its parent, and splits the parent if it has
    /// become too large.
    fn absorb_split(
        &self,
        pager: &mut Pager,
        page_id: PageId,
        kid_id: PageId,
        median: Vec<u8>,
        right: PageId,
        Ghost(n): Ghost<Nodes>,
        Ghost(h): Ghost<nat>,
        Ghost(lo): Ghost<Option<Seq<u8>>>,
        Ghost(hi): Ghost<Option<Seq<u8>>>,
        Ghost(after): Ghost<u64>,
        Ghost(i): Ghost<int>,
        Ghost(key): Ghost<Seq<u8>>,
        Ghost(vs): Ghost<Seq<Version>>,
    ) -> (r: TableResult<Option<(Vec<u8>, PageId)>>)
        requires
            old(pager).wf(),
            self.sized_for(old(pager)),
            tree(n, page_id.0, h, lo, hi, after),
            h > 0,
            0 <= i < n[page_id.0]->kids.len(),
            i == upper(n[page_id.0]->Internal_keys, key),
            n[page_id.0]->kids[i] == kid_id.0,
            forall|p: u64| #[trigger]
                n.contains_key(p) ==> nodes(old(pager).pages()).contains_key(p),
            child_was_split(
                n,
                nodes(old(pager).pages()),
                page_id.0,
                h,
                lo,
                hi,
                after,
                i,
                median@,
                right.0,
                key,
                vs,
            ),
        ensures
            final(pager).wf(),
            final(pager).same_meta(old(pager)),
            forall|p: u64| #[trigger]
                old(pager).pages().contains_key(p) ==> final(pager).pages().contains_key(p) && (p
                    != page_id.0 ==> final(pager).pages()[p] == old(pager).pages()[p]),
            match r {
                Ok(split) => tree_outcome(
                    n,
                    nodes(final(pager).pages()),
                    page_id.0,
                    h,
                    lo,
                    hi,
                    after,
                    key,
                    vs,
                    split,
                ),
                Err(e) => e is Pager && e->Pager_0 is PageOverflow && final(pager).pages()
                    == old(pager).pages(),
            },
            ({
                let size = node_bytes(n[page_id.0]).len() + 12 + median@.len();
                match r {
                    Ok(split) => size <= old(pager).capacity() && separator_of(split)
                        == parting_key(
                        n[page_id.0]->Internal_keys.insert(i, median@),
                        size,
                        old(pager).capacity(),
                    ),
                    Err(_) => size > old(pager).capacity(),
                }
            }),
    {
        let ghost id = page_id.0;
        let ghost m = median@;
        let ghost n1 = nodes(pager.pages());
        proof {
            lemma_absorb_start(n, n1, id, h, lo, hi, after, i, m, right.0, key, vs);
        }
        let parent = match self.insert_into_parent(pager, page_id, kid_id, median, right) {
            Ok(x) => x,
            Err(e) => {
                return Err(e);
            },
        };
        let ghost n2 = nodes(pager.pages());
        let ghost node2 = parent@;
        if !parent.is_full(self.max_order) && self.node_fits_in_page(&parent) {
            proof {
                lemma_absorbed(n, n1, n2, id, h, lo, hi, after, i, m, right.0, key, vs);
            }
            return Ok(None);
        }
        match self.split_node(pager, page_id, parent) {
            Ok((right2, median2)) => {
                proof {
                    lemma_absorbed_and_split(
                        n,
                        n1,
                        n2,
                        nodes(pager.pages()),
                        id,
                        h,
                        lo,
                        hi,
                        after,
                        i,
                        m,
                        right.0,
                        key,
                        vs,
                        Some((median2, right2)),
                    );
                }
                Ok(Some((median2, right2)))
            },
            Err(e) => Err(e),
        }
    }

    /// Puts one more version of a key into the tree along the way to its leaf, and splits the
    /// nodes that have become too large. Returns whether the key is new and, where the node at
    /// `level` was split, the key that parts its halves and the page of the right one.
    #[verifier::rlimit(60)]
    fn insert_along(
        &self,
        pager: &mut Pager,
        path: &Vec<PathEntry>,
        level: usize,
        key: &Vec<u8>,
        value: Vec<u8>,
        tx_id: TransactionId,
        commit_lsn: LogSequenceNumber,
        Ghost(h): Ghost<nat>,
        Ghost(lo): Ghost<Option<Seq<u8>>>,
        Ghost(hi): Ghost<Option<Seq<u8>>>,
        Ghost(after): Ghost<u64>,
    ) -> (r: TableResult<(bool, Option<(Vec<u8>, PageId)>)>)
        requires
            old(pager).wf(),
            self.sized_for(old(pager)),
            level + h + 1 == path@.len(),
            tree(nodes(old(pager).pages()), path@[level as int].page_id.0, h, lo, hi, after),
            in_range(key@, lo, hi),
            is_path(
                path@.skip(level as int),
                nodes(old(pager).pages()),
                path@[level as int].page_id.0,
                h,
                key@,
            ),
        ensures
            final(pager).wf(),
            final(pager).same_meta(old(pager)),
            put_outcome(
                old(pager).pages(),
                final(pager).pages(),
                path@[level as int].page_id.0,
                h,
                lo,
                hi,
                after,
                key@,
                value@,
                tx_id,
                commit_lsn,
                r,
            ),
            put_succeeds(
                old(pager).pages(),
                final(pager).pages(),
                old(pager).capacity(),
                path@[level as int].page_id.0,
                h,
                key@,
                value@,
                tx_id,
                commit_lsn,
                r,
            ),
        decreases h,
    {
        let page_id = path[level].page_id;
        let ghost id = page_id.0;
        let ghost pages = pager.pages();
        let ghost n = nodes(pages);
        let steps: usize = path.len();
        if level + 1 == steps {
            return self.insert_at_leaf(
                pager,
                page_id,
                key,
                value,
                tx_id,
                commit_lsn,
                Ghost(lo),
                Ghost(hi),
                Ghost(after),
            );
        }
        let ghost keys = n[id]->Internal_keys;
        let ghost kids = n[id]->kids;
        let ghost g = (h - 1) as nat;
        let ghost i = upper(keys, key@);
        let ghost vs = put_version(lookup(n, id, h, key@), value@, tx_id, commit_lsn);
        let kid_id = path[level + 1].page_id;
        proof {
            lemma_route_in_range(keys, key@, lo, hi);
            lemma_path_step(path@, level as int, n, id, h, key@);
            assert(kid_id.0 == kids[i]);
        }
        let child = self.insert_along(
            pager,
            path,
            level + 1,
            key,
            value,
            tx_id,
            commit_lsn,
            Ghost(g),
            Ghost(low(keys, lo, i)),
            Ghost(high(keys, hi, i)),
            Ghost(kid_after(n, kids, g, after, i)),
        );
        let ghost pages1 = pager.pages();
        let ghost n1 = nodes(pages1);
        proof {
            lemma_pages_kept_up(pages, pages1, id, kid_id.0, h, i);
            lemma_route_len(n, kids[i], g, key@);
            assert(route(n, id, h, key@).last() == route(n, kids[i], g, key@).last());
            if !leaf_has_room(n, id, h, pager.capacity(), key@, vs) {
                lemma_no_room_below(n, kids[i], g, pager.capacity(), key@, vs);
            }
        }
        proof {
            assert(!owns(n, kids[i], g, id));
            lemma_kept_outside(pages, pages1, kids[i], g);
            assert(kept(n, n1, id));
        }
        let (is_new, split) = match child {
            Ok(t) => t,
            Err(e) => {
                proof {
                    if leaf_has_room(n, id, h, pager.capacity(), key@, vs) {
                        lemma_torn_below(
                            n,
                            n1,
                            id,
                            h,
                            lo,
                            hi,
                            after,
                            pager.capacity(),
                            key@,
                            vs,
                        );
                    }
                }
                return Err(e);
            },
        };
        proof {
            reveal(tree_outcome);
            reveal(child_was_split);
        }
        match split {
            None => {
                proof {
                    lemma_kid_changed(n, n1, id, h, lo, hi, after, i);
                    assert forall|k: Seq<u8>| #[trigger] lookup(n1, id, h, k) == (if k == key@ {
                        Some(vs)
                    } else {
                        lookup(n, id, h, k)
                    }) by {
                        if upper(keys, k) == i {
                            assert(lookup(n1, kids[i], g, k) == (if k == key@ {
                                Some(vs)
                            } else {
                                lookup(n, kids[i], g, k)
                            }));
                        }
                    }
                }
                Ok((is_new, None))
            },
            Some((median, right)) => {
                let ghost m = median@;
                match self.absorb_split(
                    pager,
                    page_id,
                    kid_id,
                    median,
                    right,
                    Ghost(n),
                    Ghost(h),
                    Ghost(lo),
                    Ghost(hi),
                    Ghost(after),
                    Ghost(i),
                    Ghost(key@),
                    Ghost(vs),
                ) {
                    Ok(up) => {
                        proof {
                            lemma_pages_kept_write(pages, pages1, pager.pages(), id, h);
                        }
                        Ok((is_new, up))
                    },
                    Err(e) => {
                        proof {
                            lemma_pages_kept_write(pages, pages1, pager.pages(), id, h);
                            lemma_torn_here(
                                n,
                                n1,
                                id,
                                h,
                                lo,
                                hi,
                                after,
                                m,
                                right.0,
                                pager.capacity(),
                                key@,
                                vs,
                            );
                        }
                        Err(e)
                    },
                }
            },
        }
    }

    /// Makes the two halves of the root the children of a new root.
    fn split_root(&mut self, pager: &mut Pager, median: Vec<u8>, right: PageId) -> (r: TableResult<
        (),
    >)
        requires
            old(pager).wf(),
            old(self).sized_for(old(pager)),
            ({
                let n = nodes(old(pager).pages());
                let root = old(self).root_page_id.0;
                let h = old(self).height@;
                &&& tree(n, root, h, None, Some(median@), first_leaf(n, right.0, h))
                &&& tree(n, right.0, h, Some(median@), None, 0)
                &&& apart(n, root, right.0, h)
            }),
        ensures
            final(pager).wf(),
            final(pager).size == old(pager).size,
            final(pager).slots@.len() >= old(pager).slots@.len(),
            final(pager).btree_rows == old(pager).btree_rows,
            forall|p: u64| #[trigger]
                old(pager).pages().contains_key(p) ==> final(pager).pages().contains_key(p)
                    && final(pager).pages()[p] == old(pager).pages()[p],
            final(self).same_identity(old(self)),
            final(self).row_count == old(self).row_count,
            r is Ok <==> 33 + median@.len() <= old(pager).capacity(),
            r is Ok ==> {
                let n = nodes(old(pager).pages());
                let root = old(self).root_page_id.0;
                let h = old(self).height@;
                &&& final(self).wf(final(pager))
                &&& final(pager).root_btree_page == final(self).root_page_id
                &&& !old(pager).pages().contains_key(final(self).root_page_id.0)
                &&& forall|k: Seq<u8>| #[trigger]
                    final(self).find(final(pager), k) == (if lex_lt(k, median@) {
                        lookup(n, root, h, k)
                    } else {
                        lookup(n, right.0, h, k)
                    })
                &&& forall|p: u64| #[trigger]
                    final(self).owns_page(final(pager), p) ==> owns(n, root, h, p) || owns(
                        n,
                        right.0,
                        h,
                        p,
                    ) || !old(pager).pages().contains_key(p)
            },
            r matches Err(e) ==> e is Pager && e->Pager_0 is PageOverflow && *final(self) == *old(self),
    {
        let ghost pages = pager.pages();
        let ghost n = nodes(pages);
        let ghost m = median@;
        let ghost h = self.height@;
        let left = self.root_page_id;
        let new_root = pager.allocate_page(PageType::BTreeInternal);
        proof {
            lemma_nodes_allocate(
                pages,
                new_root.0,
                PageView { page_type: PageType::BTreeInternal, data: Seq::empty() },
            );
        }
        let mut entries: Vec<InternalEntry> = Vec::new();
        entries.push(InternalEntry { key: median, child_page_id: left });
        let node = BTreeNode::Internal {
            version: PageVersion::initial(),
            entries,
            rightmost_child: right,
        };
        proof {
            assert(node@->Internal_keys =~= seq![m]);
            assert(node@->kids =~= seq![left.0, right.0]);
            lemma_node_size(node@);
            assert(seq![m].drop_last() =~= Seq::empty());
            assert(inner_size(seq![m]) == 12 + m.len()) by {
                reveal_with_fuel(inner_size, 2);
            }
        }
        match self.write_node(pager, new_root, &node) {
            Ok(()) => {},
            Err(e) => {
                return Err(e);
            },
        }
        let ghost n2 = nodes(pager.pages());
        proof {
            assert forall|p: u64| n.contains_key(p) implies #[trigger] kept(n, n2, p) by {}
            lemma_new_root(n, n2, new_root.0, left.0, right.0, h, m);
        }
        pager.set_root_btree_page(new_root);
        self.root_page_id = new_root;
        self.height = Ghost(h + 1);
        Ok(())
    }

    /// Puts one more version of a key: pending, or committed where `commit_lsn` is not zero.
    ///
    /// The way to the leaf is searched first, then the pages on it are checked against the
    /// versions that were seen, and only then is the leaf written. Where a page was written in
    /// between, the search starts again, up to [`MAX_RETRIES`] times.
    #[verifier::rlimit(40)]
    pub fn insert_internal(
        &mut self,
        pager: &mut Pager,
        key: Vec<u8>,
        value: Vec<u8>,
        tx_id: TransactionId,
        commit_lsn: LogSequenceNumber,
    ) -> (r: TableResult<()>)
        requires
            old(self).wf(old(pager)),
            old(self).row_count < u64::MAX,
        ensures
            final(pager).wf(),
            final(pager).size == old(pager).size,
            final(pager).slots@.len() >= old(pager).slots@.len(),
            final(self).same_identity(old(self)),
            forall|p: u64| #[trigger]
                old(pager).pages().contains_key(p) ==> final(pager).pages().contains_key(p) && (
                !old(self).owns_page(old(pager), p) ==> final(pager).pages()[p] == old(
                    pager,
                ).pages()[p]),
            ({
                let before = old(self).find(old(pager), key@);
                let vs = put_version(before, value@, tx_id, commit_lsn);
                let n = nodes(old(pager).pages());
                let root = old(self).root_page_id.0;
                let h = old(self).height@;
                &&& r is Ok ==> {
                    &&& final(self).wf(final(pager))
                    &&& final(self).chains(final(pager)) == old(self).chains(old(pager)).insert(
                        key@,
                        vs,
                    )
                    &&& forall|p: u64| #[trigger]
                        final(self).owns_page(final(pager), p) ==> old(self).owns_page(
                            old(pager),
                            p,
                        ) || !old(pager).pages().contains_key(p)
                    &&& final(self).row_count == old(self).row_count + (if before is None {
                        1int
                    } else {
                        0int
                    })
                    &&& final(pager).btree_rows == (if before is None {
                        final(self).row_count
                    } else {
                        old(pager).btree_rows
                    })
                    &&& final(pager).root_btree_page == (if final(self).root_page_id == old(
                        self,
                    ).root_page_id {
                        old(pager).root_btree_page
                    } else {
                        final(self).root_page_id
                    })
                }
                &&& r matches Err(e) ==> e is Pager && e->Pager_0 is PageOverflow
                &&& r is Ok <==> put_has_room(n, root, h, old(pager).capacity(), key@, vs)
                &&& !leaf_has_room(n, root, h, old(pager).capacity(), key@, vs) ==> {
                    &&& r is Err
                    &&& final(pager).pages() == old(pager).pages()
                    &&& *final(self) == *old(self)
                }
                &&& r is Err && leaf_has_room(n, root, h, old(pager).capacity(), key@, vs) ==> {
                    &&& *final(self) == *old(self)
                    &&& is_torn(
                        n,
                        nodes(final(pager).pages()),
                        root,
                        h,
                        old(pager).capacity(),
                        key@,
                        vs,
                    )
                }
            }),
    {
        let ghost pages = pager.pages();
        let ghost n = nodes(pages);
        let ghost root = self.root_page_id.0;
        let ghost h = self.height@;
        let ghost before = self.find(pager, key@);
        let ghost vs = put_version(before, value@, tx_id, commit_lsn);
        let mut retry_count: usize = 0;
        proof {
            lemma_route(n, root, h, None, None, 0, key@);
            if !leaf_has_room(n, root, h, pager.capacity(), key@, vs) {
                lemma_no_room_below(n, root, h, pager.capacity(), key@, vs);
            }
        }
        let mut steps: Option<Vec<PathEntry>> = None;
        while steps.is_none()
            invariant
                self.wf(pager),
                n == nodes(pager.pages()),
                root == self.root_page_id.0,
                h == self.height@,
                route(n, root, h, key@).len() == h + 1,
                forall|i: int|
                    0 <= i <= h ==> n.contains_key(#[trigger] route(n, root, h, key@)[i]),
                retry_count == 0,
                steps is Some ==> is_path(steps->Some_0@, n, root, h, key@),
                *self == *old(self),
                *pager == *old(pager),
            decreases (if steps is None { 1int } else { 0int }),
        {
            let path = match self.search_optimistic(pager, key.as_slice()) {
                Ok((_, _, path)) => path,
                Err(e) => {
                    return Err(e);
                },
            };
            let valid: bool = match self.validate_optimistic_path(pager, &path) {
                Ok(valid) => valid,
                Err(e) => {
                    proof {
                        lemma_fresh_path_is_valid(pager.pages(), path@, root, h, key@, h as int);
                        assert(false);
                    }
                    return Err(e);
                },
            };
            if valid {
                steps = Some(path);
            } else {
                proof {
                    lemma_fresh_path_is_valid(pager.pages(), path@, root, h, key@, h as int);
                    assert(false);
                }
                retry_count = retry_count + 1;
                if retry_count >= MAX_RETRIES {
                    return Err(TableError::Contention { retries: MAX_RETRIES });
                }
            }
        }
        let path = match steps {
            Some(path) => path,
            None => {
                return Err(TableError::Contention { retries: MAX_RETRIES });
            },
        };
        proof {
            assert(path@[0].page_id.0 == route(n, root, h, key@)[0]);
            assert(path@.skip(0) =~= path@);
        }
        let outcome = self.insert_along(
            pager,
            &path,
            0,
            &key,
            value,
            tx_id,
            commit_lsn,
            Ghost(h),
            Ghost(None),
            Ghost(None),
            Ghost(0),
        );
        let ghost n1 = nodes(pager.pages());
        let ghost pages1 = pager.pages();
        proof {
            reveal(tree_outcome);
        }
        let (is_new, split) = match outcome {
            Ok(t) => t,
            Err(e) => {
                return Err(e);
            },
        };
        match split {
            None => {
                proof {
                    lemma_grown_pages(pages, pages1, root, root, h, None, None, 0);
                    assert(self.chains(pager) =~= old(self).chains(old(pager)).insert(key@, vs));
                }
            },
            Some((median, right)) => {
                let ghost m = median@;
                proof {
                    let next = first_leaf(n1, right.0, h);
                    lemma_grown_pages(pages, pages1, root, root, h, None, Some(m), next);
                    lemma_grown_pages(pages, pages1, root, right.0, h, Some(m), None, 0);
                }
                match self.split_root(pager, median, right) {
                    Ok(()) => {},
                    Err(e) => {
                        proof {
                            lemma_torn_root(
                                n,
                                n1,
                                nodes(pager.pages()),
                                root,
                                h,
                                m,
                                right.0,
                                pager.capacity(),
                                key@,
                                vs,
                            );
                        }
                        return Err(e);
                    },
                }
                proof {
                    assert forall|k: Seq<u8>| #[trigger] self.find(pager, k) == (if k == key@ {
                        Some(vs)
                    } else {
                        old(self).find(old(pager), k)
                    }) by {
                        if lex_lt(k, m) {
                            assert(lookup(n1, root, h, k) == (if k == key@ {
                                Some(vs)
                            } else {
                                lookup(n, root, h, k)
                            }));
                        } else {
                            assert(lookup(n1, right.0, h, k) == (if k == key@ {
                                Some(vs)
                            } else {
                                lookup(n, root, h, k)
                            }));
                        }
                    }
                    assert(self.chains(pager) =~= old(self).chains(old(pager)).insert(key@, vs));
                    assert forall|p: u64| #[trigger] self.owns_page(pager, p) implies old(
                        self,
                    ).owns_page(old(pager), p) || !pages.contains_key(p) by {
                        if owns(n1, root, h, p) {
                        } else if owns(n1, right.0, h, p) {
                        } else {
                            assert(!pages1.contains_key(p));
                        }
                    }
                }
            },
        }
        let ghost done = *pager;
        let ghost table = *self;
        if is_new {
            self.row_count = self.row_count + 1;
            pager.set_btree_row_count(self.row_count);
        }
        proof {
            assert forall|p: u64| #[trigger] self.owns_page(pager, p) implies old(self).owns_page(
                old(pager),
                p,
            ) || !pages.contains_key(p) by {
                assert(table.owns_page(&done, p));
            }
        }
        Ok(())
    }
}

/// A page of a grown tree was a page of the tree before, or was not allocated.
proof fn lemma_grown_pages(
    pages: Map<u64, PageView>,
    pages1: Map<u64, PageView>,
    id: u64,
    id2: u64,
    h: nat,
    lo: Option<Seq<u8>>,
    hi: Option<Seq<u8>>,
    after: u64,
)
    requires
        pages_kept(pages, pages1, id, h),
        tree(nodes(pages1), id2, h, lo, hi, after),
        grown_from(nodes(pages), id, nodes(pages1), id2, h),
    ensures
        forall|p: u64| #[trigger]
            owns(nodes(pages1), id2, h, p) ==> owns(nodes(pages), id, h, p)
                || !pages.contains_key(p),
{
    let n = nodes(pages);
    let n1 = nodes(pages1);
    assert forall|p: u64| #[trigger] owns(n1, id2, h, p) implies owns(n, id, h, p)
        || !pages.contains_key(p) by {
        lemma_owned_is_node(n1, id2, h, lo, hi, after, p);
        if pages.contains_key(p) && !owns(n, id, h, p) {
            assert(pages1[p] == pages[p]);
            assert(n.contains_key(p));
        }
    }
}

proof fn lemma_pages_kept_write(
    pages: Map<u64, PageView>,
    pages1: Map<u64, PageView>,
    pages2: Map<u64, PageView>,
    id: u64,
    h: nat,
)
    requires
        pages_kept(pages, pages1, id, h),
        forall|p: u64| #[trigger]
            pages1.contains_key(p) ==> pages2.contains_key(p) && (p != id ==> pages2[p]
                == pages1[p]),
    ensures
        pages_kept(pages, pages2, id, h),
{
}

proof fn lemma_lex_leaf_between(m: Seq<u8>, lo: Option<Seq<u8>>, hi: Option<Seq<u8>>)
    requires
        in_range(m, lo, hi),
    ensures
        between(m, lo, hi),
{
}

/// What became of a tree into which versions were put: one tree, or two that part its range.
#[verifier::opaque]
pub open spec fn tree_outcome(
    n: Nodes,
    n2: Nodes,
    id: u64,
    h: nat,
    lo: Option<Seq<u8>>,
    hi: Option<Seq<u8>>,
    after: u64,
    key: Seq<u8>,
    vs: Seq<Version>,
    split: Option<(Vec<u8>, PageId)>,
) -> bool {
    &&& kept_outside(n, n2, id, h)
    &&& forall|p: u64| #[trigger] n.contains_key(p) ==> n2.contains_key(p)
    &&& first_leaf(n2, id, h) == first_leaf(n, id, h)
    &&& grown_from(n, id, n2, id, h)
    &&& match split {
        None => tree(n2, id, h, lo, hi, after) && is_put(n, n2, id, h, key, vs),
        Some((m, right)) => {
            &&& between(m@, lo, hi)
            &&& tree(n2, id, h, lo, Some(m@), first_leaf(n2, right.0, h))
            &&& tree(n2, right.0, h, Some(m@), hi, after)
            &&& apart(n2, id, right.0, h)
            &&& grown_from(n, id, n2, right.0, h)
            &&& is_put_split(n, n2, id, m@, right.0, h, key, vs)
        },
    }
}

/// What became of a store after one more version of a key was put into a tree.
pub open spec fn put_outcome(
    pages: Map<u64, PageView>,
    pages2: Map<u64, PageView>,
    id: u64,
    h: nat,
    lo: Option<Seq<u8>>,
    hi: Option<Seq<u8>>,
    after: u64,
    key: Seq<u8>,
    value: Seq<u8>,
    tx: TransactionId,
    lsn: LogSequenceNumber,
    r: TableResult<(bool, Option<(Vec<u8>, PageId)>)>,
) -> bool {
    let n = nodes(pages);
    let before = lookup(n, id, h, key);
    &&& pages_kept(pages, pages2, id, h)
    &&& match r {
        Ok((is_new, split)) => {
            &&& is_new == (before is None)
            &&& tree_outcome(
                n,
                nodes(pages2),
                id,
                h,
                lo,
                hi,
                after,
                key,
                put_version(before, value, tx, lsn),
                split,
            )
        },
        Err(e) => e is Pager && e->Pager_0 is PageOverflow,
    }
}

/// The leaf of `key` has room for one more version.
pub open spec fn leaf_has_room(
    n: Nodes,
    id: u64,
    h: nat,
    capacity: nat,
    key: Seq<u8>,
    vs: Seq<Version>,
) -> bool {
    node_bytes(put_leaf(n[route(n, id, h, key).last()], key, vs)).len() <= capacity
}

/// The key at which a node is split that has become too large for a page of the given capacity.
pub open spec fn parting_key(keys: Seq<Seq<u8>>, size: nat, capacity: nat) -> Option<Seq<u8>> {
    if keys.len() >= max_order_of(capacity as int) || size > node_limit(capacity as int) {
        Some(keys[keys.len() as int / 2])
    } else {
        None
    }
}

/// What a put hands up from the node `id`: the separator where the node is split, nothing where
/// it is not. There is no outcome where the leaf does not fit its page, or a node on the way that
/// takes a separator does not fit its page any more.
pub open spec fn handed_up(
    n: Nodes,
    id: u64,
    h: nat,
    capacity: nat,
    key: Seq<u8>,
    vs: Seq<Version>,
) -> Option<Option<Seq<u8>>>
    decreases h,
{
    if h == 0 || !(n[id] is Internal) {
        let leaf = put_leaf(n[id], key, vs);
        let size = node_bytes(leaf).len();
        if size > capacity {
            None
        } else {
            Some(parting_key(leaf.keys(), size, capacity))
        }
    } else {
        let keys = n[id]->Internal_keys;
        let i = upper(keys, key);
        match handed_up(n, n[id]->kids[i], (h - 1) as nat, capacity, key, vs) {
            Some(Some(m)) => {
                let size = node_bytes(n[id]).len() + 12 + m.len();
                if size > capacity {
                    None
                } else {
                    Some(parting_key(keys.insert(i, m), size, capacity))
                }
            },
            other => other,
        }
    }
}

/// A put has room: in its leaf, in each node on the way that takes a separator, and in the new
/// root where the old one is split.
pub open spec fn put_has_room(
    n: Nodes,
    root: u64,
    h: nat,
    capacity: nat,
    key: Seq<u8>,
    vs: Seq<Version>,
) -> bool {
    match handed_up(n, root, h, capacity, key, vs) {
        Some(Some(m)) => 33 + m.len() <= capacity,
        Some(None) => true,
        None => false,
    }
}

/// Without room in its leaf a put hands up nothing.
proof fn lemma_no_room_below(
    n: Nodes,
    id: u64,
    h: nat,
    capacity: nat,
    key: Seq<u8>,
    vs: Seq<Version>,
)
    requires
        !leaf_has_room(n, id, h, capacity, key, vs),
    ensures
        handed_up(n, id, h, capacity, key, vs) is None,
    decreases h,
{
    if h > 0 && n[id] is Internal {
        let i = upper(n[id]->Internal_keys, key);
        let g = (h - 1) as nat;
        lemma_route_len(n, n[id]->kids[i], g, key);
        assert(route(n, id, h, key).last() == route(n, n[id]->kids[i], g, key).last());
        lemma_no_room_below(n, n[id]->kids[i], g, capacity, key, vs);
    } else {
        assert(route(n, id, h, key).last() == id);
    }
}

/// A key is cut off by a put that fails above the node `id` or under it: the node that was split
/// last holds what lies before its separator, and no node leads to the rest.
pub open spec fn is_cut_off(
    n: Nodes,
    id: u64,
    h: nat,
    capacity: nat,
    key: Seq<u8>,
    vs: Seq<Version>,
    k: Seq<u8>,
) -> bool
    decreases h,
{
    match handed_up(n, id, h, capacity, key, vs) {
        Some(Some(m)) => !lex_lt(k, m),
        Some(None) => false,
        None => if h == 0 || !(n[id] is Internal) {
            false
        } else {
            let i = upper(n[id]->Internal_keys, key);
            upper(n[id]->Internal_keys, k) == i && is_cut_off(
                n,
                n[id]->kids[i],
                (h - 1) as nat,
                capacity,
                key,
                vs,
                k,
            )
        },
    }
}

/// What a tree holds after a put that its leaf had room for but that failed further up: the new
/// version and all that was there, without what was cut off.
pub open spec fn is_torn(
    n: Nodes,
    n2: Nodes,
    id: u64,
    h: nat,
    capacity: nat,
    key: Seq<u8>,
    vs: Seq<Version>,
) -> bool {
    forall|k: Seq<u8>| #[trigger]
        lookup(n2, id, h, k) == (if is_cut_off(n, id, h, capacity, key, vs, k) {
            None
        } else if k == key {
            Some(vs)
        } else {
            lookup(n, id, h, k)
        })
}

/// A put succeeds exactly where there is room for what it hands up, and hands that up. Where the
/// leaf has no room it changes nothing, and where a node above it has none the tree is torn.
pub open spec fn put_succeeds(
    pages: Map<u64, PageView>,
    pages2: Map<u64, PageView>,
    capacity: nat,
    id: u64,
    h: nat,
    key: Seq<u8>,
    value: Seq<u8>,
    tx: TransactionId,
    lsn: LogSequenceNumber,
    r: TableResult<(bool, Option<(Vec<u8>, PageId)>)>,
) -> bool {
    let n = nodes(pages);
    let vs = put_version(lookup(n, id, h, key), value, tx, lsn);
    &&& match r {
        Ok((_, split)) => handed_up(n, id, h, capacity, key, vs) == Some(separator_of(split)),
        Err(_) => handed_up(n, id, h, capacity, key, vs) is None && (leaf_has_room(
            n,
            id,
            h,
            capacity,
            key,
            vs,
        ) ==> is_torn(n, nodes(pages2), id, h, capacity, key, vs)),
    }
    &&& !leaf_has_room(n, id, h, capacity, key, vs) ==> pages2 == pages
}

proof fn lemma_kept_outside(pages: Map<u64, PageView>, pages2: Map<u64, PageView>, id: u64, h: nat)
    requires
        pages_kept(pages, pages2, id, h),
    ensures
        kept_outside(nodes(pages), nodes(pages2), id, h),
{
    let n = nodes(pages);
    let n2 = nodes(pages2);
    assert forall|p: u64| n.contains_key(p) && !owns(n, id, h, p) implies #[trigger] kept(
        n,
        n2,
        p,
    ) by {
        assert(pages.contains_key(p));
    }
}

/// A put that failed below a node leaves it torn there.
proof fn lemma_torn_below(
    n: Nodes,
    n1: Nodes,
    id: u64,
    h: nat,
    lo: Option<Seq<u8>>,
    hi: Option<Seq<u8>>,
    after: u64,
    capacity: nat,
    key: Seq<u8>,
    vs: Seq<Version>,
)
    requires
        tree(n, id, h, lo, hi, after),
        h > 0,
        kept(n, n1, id),
        kept_outside(n, n1, n[id]->kids[upper(n[id]->Internal_keys, key)], (h - 1) as nat),
        handed_up(
            n,
            n[id]->kids[upper(n[id]->Internal_keys, key)],
            (h - 1) as nat,
            capacity,
            key,
            vs,
        ) is None,
        is_torn(
            n,
            n1,
            n[id]->kids[upper(n[id]->Internal_keys, key)],
            (h - 1) as nat,
            capacity,
            key,
            vs,
        ),
    ensures
        is_torn(n, n1, id, h, capacity, key, vs),
{
    let keys = n[id]->Internal_keys;
    let i = upper(keys, key);
    let g = (h - 1) as nat;
    lemma_upper_parts(keys, key);
    assert forall|k: Seq<u8>| #[trigger] lookup(n1, id, h, k) == (if is_cut_off(
        n,
        id,
        h,
        capacity,
        key,
        vs,
        k,
    ) {
        None
    } else if k == key {
        Some(vs)
    } else {
        lookup(n, id, h, k)
    }) by {
        lemma_siblings_hold(n, n1, id, h, lo, hi, after, i, k);
        if upper(keys, k) == i {
            assert(lookup(n1, n[id]->kids[i], g, k) == (if is_cut_off(
                n,
                n[id]->kids[i],
                g,
                capacity,
                key,
                vs,
                k,
            ) {
                None
            } else if k == key {
                Some(vs)
            } else {
                lookup(n, n[id]->kids[i], g, k)
            }));
        }
    }
}

/// A root that was split without a new root above it leads to its left half alone.
proof fn lemma_torn_root(
    n: Nodes,
    n1: Nodes,
    n2: Nodes,
    root: u64,
    h: nat,
    m: Seq<u8>,
    right: u64,
    capacity: nat,
    key: Seq<u8>,
    vs: Seq<Version>,
)
    requires
        tree(n1, root, h, None, Some(m), first_leaf(n1, right, h)),
        is_put_split(n, n1, root, m, right, h, key, vs),
        forall|p: u64| n1.contains_key(p) ==> #[trigger] kept(n1, n2, p),
        handed_up(n, root, h, capacity, key, vs) == Some(Some(m)),
    ensures
        is_torn(n, n2, root, h, capacity, key, vs),
{
    let next = first_leaf(n1, right, h);
    assert forall|p: u64| #[trigger] owns(n1, root, h, p) implies kept(n1, n2, p) by {
        lemma_owned_is_node(n1, root, h, None, Some(m), next, p);
    }
    lemma_frame(n1, n2, root, h, None, Some(m), next);
    assert forall|k: Seq<u8>| #[trigger] lookup(n2, root, h, k) == (if is_cut_off(
        n,
        root,
        h,
        capacity,
        key,
        vs,
        k,
    ) {
        None
    } else if k == key {
        Some(vs)
    } else {
        lookup(n, root, h, k)
    }) by {
        assert(lookup(n2, root, h, k) == lookup(n1, root, h, k));
        if !lex_lt(k, m) {
            lemma_nothing_behind(n1, root, h, None, m, next, k);
        }
    }
}

/// A node that cannot take the halves of its child leads to the left one alone.
proof fn lemma_torn_here(
    n: Nodes,
    n1: Nodes,
    id: u64,
    h: nat,
    lo: Option<Seq<u8>>,
    hi: Option<Seq<u8>>,
    after: u64,
    m: Seq<u8>,
    right: u64,
    capacity: nat,
    key: Seq<u8>,
    vs: Seq<Version>,
)
    requires
        tree(n, id, h, lo, hi, after),
        h > 0,
        child_was_split(
            n,
            n1,
            id,
            h,
            lo,
            hi,
            after,
            upper(n[id]->Internal_keys, key),
            m,
            right,
            key,
            vs,
        ),
        handed_up(n, id, h, capacity, key, vs) is None,
        handed_up(
            n,
            n[id]->kids[upper(n[id]->Internal_keys, key)],
            (h - 1) as nat,
            capacity,
            key,
            vs,
        ) == Some(Some(m)),
    ensures
        is_torn(n, n1, id, h, capacity, key, vs),
{
    reveal(child_was_split);
    let keys = n[id]->Internal_keys;
    let i = upper(keys, key);
    let g = (h - 1) as nat;
    let kid = n[id]->kids[i];
    lemma_upper_parts(keys, key);
    assert forall|k: Seq<u8>| #[trigger] lookup(n1, id, h, k) == (if is_cut_off(
        n,
        id,
        h,
        capacity,
        key,
        vs,
        k,
    ) {
        None
    } else if k == key {
        Some(vs)
    } else {
        lookup(n, id, h, k)
    }) by {
        lemma_siblings_hold(n, n1, id, h, lo, hi, after, i, k);
        assert(is_cut_off(n, kid, g, capacity, key, vs, k) == !lex_lt(k, m));
        if upper(keys, k) == i {
            if lex_lt(k, m) {
                assert(lookup(n1, kid, g, k) == (if k == key {
                    Some(vs)
                } else {
                    lookup(n, kid, g, k)
                }));
            } else {
                lemma_nothing_behind(
                    n1,
                    kid,
                    g,
                    low(keys, lo, i),
                    m,
                    first_leaf(n1, right, g),
                    k,
                );
            }
        }
    }
}

/// The separator of a split.
pub open spec fn separator_of(split: Option<(Vec<u8>, PageId)>) -> Option<Seq<u8>> {
    match split {
        Some((m, _)) => Some(m@),
        None => None,
    }
}

/// Child `i` of a tree was split by a put, and nothing else has changed.
#[verifier::opaque]
pub open spec fn child_was_split(
    n: Nodes,
    n1: Nodes,
    id: u64,
    h: nat,
    lo: Option<Seq<u8>>,
    hi: Option<Seq<u8>>,
    after: u64,
    i: int,
    m: Seq<u8>,
    r: u64,
    key: Seq<u8>,
    vs: Seq<Version>,
) -> bool {
    let g = (h - 1) as nat;
    let keys = n[id]->Internal_keys;
    let kids = n[id]->kids;
    &&& kept(n, n1, id)
    &&& between(m, low(keys, lo, i), high(keys, hi, i))
    &&& tree(n1, kids[i], g, low(keys, lo, i), Some(m), first_leaf(n1, r, g))
    &&& tree(n1, r, g, Some(m), high(keys, hi, i), kid_after(n, kids, g, after, i))
    &&& apart(n1, kids[i], r, g)
    &&& first_leaf(n1, kids[i], g) == first_leaf(n, kids[i], g)
    &&& grown_from(n, kids[i], n1, kids[i], g)
    &&& grown_from(n, kids[i], n1, r, g)
    &&& kept_outside(n, n1, kids[i], g)
    &&& is_put_split(n, n1, kids[i], m, r, g, key, vs)
}

/// The first position from `i` on at which `c` stands, or the length where there is none.
pub open spec fn first_at(kids: Seq<u64>, c: u64, i: int) -> int
    decreases kids.len() - i,
{
    if i >= kids.len() || kids[i] == c {
        i
    } else {
        first_at(kids, c, i + 1)
    }
}

/// The position of a child among the children of its parent: the last one if it is that, else the
/// first one that matches, else the length.
pub open spec fn slot_of(kids: Seq<u64>, c: u64) -> int {
    if kids.len() > 0 && kids.last() == c {
        kids.len() - 1
    } else {
        first_at(kids, c, 0)
    }
}

/// The parent after child `i` was split at `m`, with the right half in page `right`.
pub open spec fn with_split(parent: Node, i: int, m: Seq<u8>, right: u64) -> Node {
    Node::Internal {
        version: parent.version(),
        keys: parent->Internal_keys.insert(i, m),
        kids: parent->kids.insert(i + 1, right),
    }
}

proof fn lemma_first_at(kids: Seq<u64>, c: u64, i: int, j: int)
    requires
        0 <= i <= j < kids.len(),
        kids[j] == c,
        forall|k: int| 0 <= k < kids.len() && kids[k] == c ==> k == j,
    ensures
        first_at(kids, c, i) == j,
    decreases j - i,
{
    if i < j {
        lemma_first_at(kids, c, i + 1, j);
    }
}

/// A child of a tree stands at one position only.
proof fn lemma_slot(
    n: Nodes,
    id: u64,
    h: nat,
    lo: Option<Seq<u8>>,
    hi: Option<Seq<u8>>,
    after: u64,
    i: int,
)
    requires
        tree(n, id, h, lo, hi, after),
        h > 0,
        0 <= i < n[id]->kids.len(),
    ensures
        slot_of(n[id]->kids, n[id]->kids[i]) == i,
{
    let kids = n[id]->kids;
    let g = (h - 1) as nat;
    assert forall|k: int| 0 <= k < kids.len() && kids[k] == kids[i] implies k == i by {
        assert(owns(n, kids[k], g, kids[k]));
        assert(owns(n, kids[i], g, kids[i]));
        if k < i {
            assert(!(owns(n, kids[k], g, kids[i]) && owns(n, kids[i], g, kids[i])));
        } else if i < k {
            assert(!(owns(n, kids[i], g, kids[i]) && owns(n, kids[k], g, kids[i])));
        }
    }
    lemma_first_at(kids, kids[i], 0, i);
}

/// The steps after the first lead from the child to the leaf.
proof fn lemma_path_step(path: Seq<PathEntry>, level: int, n: Nodes, id: u64, h: nat, key: Seq<u8>)
    requires
        0 <= level,
        level + h + 1 == path.len(),
        h > 0,
        n[id] is Internal,
        is_path(path.skip(level), n, id, h, key),
    ensures
        ({
            let kid = n[id]->kids[upper(n[id]->Internal_keys, key)];
            &&& path[level + 1].page_id.0 == kid
            &&& is_path(path.skip(level + 1), n, kid, (h - 1) as nat, key)
            &&& route(n, kid, (h - 1) as nat, key).last() == route(n, id, h, key).last()
        }),
{
    let kid = n[id]->kids[upper(n[id]->Internal_keys, key)];
    let all = route(n, id, h, key);
    let tail = route(n, kid, (h - 1) as nat, key);
    let p0 = path.skip(level);
    let p1 = path.skip(level + 1);
    lemma_route_len(n, kid, (h - 1) as nat, key);
    assert(all == seq![id] + tail);
    assert(p0.len() == all.len());
    assert forall|i: int| 0 <= i < p1.len() implies {
        &&& (#[trigger] p1[i]).page_id.0 == tail[i]
        &&& p1[i].version.0 == n[tail[i]].version()
        &&& p1[i].child_index == index_in(n[tail[i]], key)
    } by {
        assert(p1[i] == p0[i + 1]);
        assert(all[i + 1] == tail[i]);
    }
    assert(p1[0] == path[level + 1]);
    lemma_route_first(n, kid, (h - 1) as nat, key);
}

proof fn lemma_route_len(n: Nodes, id: u64, h: nat, key: Seq<u8>)
    ensures
        route(n, id, h, key).len() >= 1,
    decreases h,
{
    if h > 0 && n[id] is Internal {
        lemma_route_len(n, n[id]->kids[upper(n[id]->Internal_keys, key)], (h - 1) as nat, key);
    }
}

proof fn lemma_route_first(n: Nodes, id: u64, h: nat, key: Seq<u8>)
    ensures
        route(n, id, h, key)[0] == id,
{
}

/// What is outside a tree is outside its children.
proof fn lemma_pages_kept_up(
    pages: Map<u64, PageView>,
    pages2: Map<u64, PageView>,
    id: u64,
    kid: u64,
    h: nat,
    i: int,
)
    requires
        h > 0,
        nodes(pages)[id] is Internal,
        0 <= i < nodes(pages)[id]->kids.len(),
        nodes(pages)[id]->kids[i] == kid,
        pages_kept(pages, pages2, kid, (h - 1) as nat),
    ensures
        pages_kept(pages, pages2, id, h),
{
    let n = nodes(pages);
    assert forall|p: u64| #[trigger] pages.contains_key(p) implies pages2.contains_key(p) && (!owns(
        n,
        id,
        h,
        p,
    ) ==> pages2[p] == pages[p]) by {
        if !owns(n, id, h, p) {
            assert(!owns(n, n[id]->kids[i], (h - 1) as nat, p));
        }
    }
}

/// A leaf stays one when a key that is in its range is put.
proof fn lemma_leaf_tree(
    n: Nodes,
    n1: Nodes,
    id: u64,
    lo: Option<Seq<u8>>,
    hi: Option<Seq<u8>>,
    after: u64,
    key: Seq<u8>,
    vs: Seq<Version>,
)
    requires
        tree(n, id, 0, lo, hi, after),
        in_range(key, lo, hi),
        vs.len() > 0,
        n1 == n.insert(id, put_leaf(n[id], key, vs)),
    ensures
        tree(n1, id, 0, lo, hi, after),
        is_put(n, n1, id, 0, key, vs),
{
    let keys = n[id]->Leaf_keys;
    let chains = n[id]->chains;
    lemma_leaf_put(keys, chains, key, vs);
    let keys1 = put_keys(keys, key);
    let chains1 = put_chains(keys, chains, key, vs);
    assert forall|i: int| 0 <= i < keys1.len() implies in_range(#[trigger] keys1[i], lo, hi) by {
        if keys1[i] != key {
            let j = keys.index_of(keys1[i]);
            assert(in_range(keys[j], lo, hi));
        }
    }
    assert forall|i: int| 0 <= i < chains1.len() implies (#[trigger] chains1[i]).len() > 0 by {
        if chains1[i] != vs {
            let j = chains.index_of(chains1[i]);
            assert(chains[j].len() > 0);
        }
    }
    assert forall|k: Seq<u8>| #[trigger] lookup(n1, id, 0, k) == (if k == key {
        Some(vs)
    } else {
        lookup(n, id, 0, k)
    }) by {
        assert(leaf_lookup(keys1, chains1, k) == (if k == key {
            Some(vs)
        } else {
            leaf_lookup(keys, chains, k)
        }));
    }
}

/// A tree stays one when a child was split by a put and the parent took the halves in.
proof fn lemma_after_split(
    n: Nodes,
    n1: Nodes,
    n2: Nodes,
    id: u64,
    h: nat,
    lo: Option<Seq<u8>>,
    hi: Option<Seq<u8>>,
    after: u64,
    i: int,
    m: Seq<u8>,
    r: u64,
    key: Seq<u8>,
    vs: Seq<Version>,
)
    requires
        tree(n, id, h, lo, hi, after),
        h > 0,
        0 <= i < n[id]->kids.len(),
        i == upper(n[id]->Internal_keys, key),
        n2 == n1.insert(id, with_split(n[id], i, m, r)),
        child_was_split(n, n1, id, h, lo, hi, after, i, m, r, key, vs),
    ensures
        tree(n2, id, h, lo, hi, after),
        grown_from(n, id, n2, id, h),
        kept_outside(n, n2, id, h),
        first_leaf(n2, id, h) == first_leaf(n, id, h),
        is_put(n, n2, id, h, key, vs),
{
    reveal(child_was_split);
    let g = (h - 1) as nat;
    let keys = n[id]->Internal_keys;
    let kids = n[id]->kids;
    assert(!owns(n, kids[i], g, id));
    assert forall|p: u64| #[trigger] owns(n1, kids[i], g, p) implies kept(n1, n2, p) by {
        lemma_owned_is_node(
            n1,
            kids[i],
            g,
            low(keys, lo, i),
            Some(m),
            first_leaf(n1, r, g),
            p,
        );
    }
    assert forall|p: u64| #[trigger] owns(n1, r, g, p) implies kept(n1, n2, p) by {
        lemma_owned_is_node(
            n1,
            r,
            g,
            Some(m),
            high(keys, hi, i),
            kid_after(n, kids, g, after, i),
            p,
        );
    }
    lemma_frame(n1, n2, kids[i], g, low(keys, lo, i), Some(m), first_leaf(n1, r, g));
    lemma_frame(
        n1,
        n2,
        r,
        g,
        Some(m),
        high(keys, hi, i),
        kid_after(n, kids, g, after, i),
    );
    assert(grown_from(n, kids[i], n2, kids[i], g)) by {
        assert forall|p: u64| #[trigger] owns(n2, kids[i], g, p) implies owns(n, kids[i], g, p)
            || !n.contains_key(p) by {
            assert(owns(n1, kids[i], g, p));
        }
    }
    assert(grown_from(n, kids[i], n2, r, g)) by {
        assert forall|p: u64| #[trigger] owns(n2, r, g, p) implies owns(n, kids[i], g, p)
            || !n.contains_key(p) by {
            assert(owns(n1, r, g, p));
        }
    }
    assert(apart(n2, kids[i], r, g)) by {
        assert forall|p: u64| !(#[trigger] owns(n2, kids[i], g, p) && #[trigger] owns(n2, r, g, p))
            by {
            assert(owns(n2, kids[i], g, p) == owns(n1, kids[i], g, p));
            assert(owns(n2, r, g, p) == owns(n1, r, g, p));
        }
    }
    assert forall|p: u64| n.contains_key(p) && !owns(n, kids[i], g, p) && p != id implies #[trigger]
        kept(n, n2, p) by {
        assert(kept(n, n1, p));
    }
    lemma_kid_split(n, n2, id, h, lo, hi, after, i, m, r);
    assert forall|k: Seq<u8>| #[trigger] lookup(n2, id, h, k) == (if k == key {
        Some(vs)
    } else {
        lookup(n, id, h, k)
    }) by {
        if upper(keys, k) == i {
            if lex_lt(k, m) {
                assert(lookup(n2, kids[i], g, k) == lookup(n1, kids[i], g, k));
            } else {
                assert(lookup(n2, r, g, k) == lookup(n1, r, g, k));
            }
        }
    }
}

/// The parent of a child that was split is as it was, and takes the halves in at one place.
proof fn lemma_absorb_start(
    n: Nodes,
    n1: Nodes,
    id: u64,
    h: nat,
    lo: Option<Seq<u8>>,
    hi: Option<Seq<u8>>,
    after: u64,
    i: int,
    m: Seq<u8>,
    r: u64,
    key: Seq<u8>,
    vs: Seq<Version>,
)
    requires
        tree(n, id, h, lo, hi, after),
        h > 0,
        0 <= i < n[id]->kids.len(),
        child_was_split(n, n1, id, h, lo, hi, after, i, m, r, key, vs),
    ensures
        n[id] is Internal,
        n1.contains_key(id),
        n1[id] == n[id],
        n[id]->kids.len() == n[id]->Internal_keys.len() + 1,
        slot_of(n[id]->kids, n[id]->kids[i]) == i,
        node_bytes(with_split(n[id], i, m, r)).len() == node_bytes(n[id]).len() + 12 + m.len(),
        with_split(n[id], i, m, r).keys().len() > 0,
{
    reveal(child_was_split);
    lemma_slot(n, id, h, lo, hi, after, i);
    lemma_node_size(n[id]);
    lemma_node_size(with_split(n[id], i, m, r));
    lemma_inner_size_insert(n[id]->Internal_keys, i, m);
}

/// The tree after its root took the halves of a child in.
proof fn lemma_absorbed(
    n: Nodes,
    n1: Nodes,
    n2: Nodes,
    id: u64,
    h: nat,
    lo: Option<Seq<u8>>,
    hi: Option<Seq<u8>>,
    after: u64,
    i: int,
    m: Seq<u8>,
    r: u64,
    key: Seq<u8>,
    vs: Seq<Version>,
)
    requires
        tree(n, id, h, lo, hi, after),
        h > 0,
        0 <= i < n[id]->kids.len(),
        i == upper(n[id]->Internal_keys, key),
        n2 == n1.insert(id, with_split(n[id], i, m, r)),
        child_was_split(n, n1, id, h, lo, hi, after, i, m, r, key, vs),
        forall|p: u64| #[trigger] n.contains_key(p) ==> n1.contains_key(p),
    ensures
        tree_outcome(n, n2, id, h, lo, hi, after, key, vs, None),
{
    reveal(tree_outcome);
    lemma_after_split(n, n1, n2, id, h, lo, hi, after, i, m, r, key, vs);
}

/// The tree after its root took the halves of a child in and was split itself.
proof fn lemma_absorbed_and_split(
    n: Nodes,
    n1: Nodes,
    n2: Nodes,
    n3: Nodes,
    id: u64,
    h: nat,
    lo: Option<Seq<u8>>,
    hi: Option<Seq<u8>>,
    after: u64,
    i: int,
    m: Seq<u8>,
    r: u64,
    key: Seq<u8>,
    vs: Seq<Version>,
    split: Option<(Vec<u8>, PageId)>,
)
    requires
        tree(n, id, h, lo, hi, after),
        h > 0,
        0 <= i < n[id]->kids.len(),
        i == upper(n[id]->Internal_keys, key),
        n2 == n1.insert(id, with_split(n[id], i, m, r)),
        child_was_split(n, n1, id, h, lo, hi, after, i, m, r, key, vs),
        forall|p: u64| #[trigger] n.contains_key(p) ==> n1.contains_key(p),
        split is Some,
        ({
            let right = split->Some_0.1.0;
            let whole = with_split(n[id], i, m, r);
            &&& right != 0
            &&& !n2.contains_key(right)
            &&& split->Some_0.0@ == whole.keys()[whole.keys().len() as int / 2]
            &&& n3 == n2.insert(id, left_half(whole, right)).insert(right, right_half(whole))
        }),
    ensures
        tree_outcome(n, n3, id, h, lo, hi, after, key, vs, split),
{
    reveal(tree_outcome);
    lemma_after_split(n, n1, n2, id, h, lo, hi, after, i, m, r, key, vs);
    let right = split->Some_0.1.0;
    let whole = with_split(n[id], i, m, r);
    let mid = whole.keys().len() as int / 2;
    assert forall|p: u64| n2.contains_key(p) && p != id implies #[trigger] kept(n2, n3, p) by {}
    lemma_split_inner(n2, n3, id, right, h, lo, hi, after, mid);
    lemma_split_compose(n, n2, n3, id, right, split->Some_0.0@, h, key, vs);
}

/// Splitting a tree that came of a put keeps what the put promised.
proof fn lemma_split_compose(
    n: Nodes,
    n2: Nodes,
    n3: Nodes,
    id: u64,
    r: u64,
    m: Seq<u8>,
    h: nat,
    key: Seq<u8>,
    vs: Seq<Version>,
)
    requires
        grown_from(n, id, n2, id, h),
        kept_outside(n, n2, id, h),
        is_put(n, n2, id, h, key, vs),
        forall|p: u64| #[trigger] n.contains_key(p) ==> n2.contains_key(p),
        !n2.contains_key(r),
        forall|p: u64| n2.contains_key(p) && p != id ==> #[trigger] kept(n2, n3, p),
        n3.contains_key(id),
        grown_from(n2, id, n3, id, h),
        grown_from(n2, id, n3, r, h),
        forall|k: Seq<u8>|
            lex_lt(k, m) ==> #[trigger] lookup(n3, id, h, k) == lookup(n2, id, h, k),
        forall|k: Seq<u8>|
            !lex_lt(k, m) ==> #[trigger] lookup(n3, r, h, k) == lookup(n2, id, h, k),
    ensures
        grown_from(n, id, n3, id, h),
        grown_from(n, id, n3, r, h),
        kept_outside(n, n3, id, h),
        is_put_split(n, n3, id, m, r, h, key, vs),
        forall|p: u64| #[trigger] n.contains_key(p) ==> n3.contains_key(p),
{
    assert forall|p: u64| #[trigger] owns(n3, id, h, p) implies owns(n, id, h, p)
        || !n.contains_key(p) by {
        if owns(n2, id, h, p) {
        }
    }
    assert forall|p: u64| #[trigger] owns(n3, r, h, p) implies owns(n, id, h, p)
        || !n.contains_key(p) by {
        if owns(n2, id, h, p) {
        }
    }
    assert forall|p: u64| n.contains_key(p) && !owns(n, id, h, p) implies #[trigger] kept(
        n,
        n3,
        p,
    ) by {
        assert(kept(n, n2, p));
        assert(kept(n2, n3, p));
    }
    assert forall|p: u64| #[trigger] n.contains_key(p) implies n3.contains_key(p) by {
        if p != id {
            assert(kept(n2, n3, p));
        }
    }
}

/// Puts one more version of a key into the entries of a leaf. Returns the entries and whether the
/// key is new.
fn put_entry(
    entries: Vec<LeafEntry>,
    key: &Vec<u8>,
    value: Vec<u8>,
    tx_id: TransactionId,
    commit_lsn: LogSequenceNumber,
) -> (r: (Vec<LeafEntry>, bool))
    requires
        ascending(leaf_keys(entries@)),
    ensures
        ({
            let keys = leaf_keys(entries@);
            let chains = leaf_chains(entries@);
            let before = leaf_lookup(keys, chains, key@);
            let vs = put_version(before, value@, tx_id, commit_lsn);
            &&& leaf_keys(r.0@) == put_keys(keys, key@)
            &&& leaf_chains(r.0@) == put_chains(keys, chains, key@, vs)
            &&& r.1 == (before is None)
            &&& vs.len() > 0
        }),
{
    let ghost keys = leaf_keys(entries@);
    let ghost chains = leaf_chains(entries@);
    let ghost before = leaf_lookup(keys, chains, key@);
    let ghost vs = put_version(before, value@, tx_id, commit_lsn);
    let mut entries = entries;
    let (pos, found) = leaf_position(&entries, key.as_slice());
    if found {
        let old = entries.remove(pos);
        let mut chain = old.chain.prepend(value, tx_id);
        if commit_lsn.as_u64() > 0 {
            chain.commit(commit_lsn);
        }
        assert(chain@ =~= vs);
        entries.insert(pos, LeafEntry { key: old.key, chain });
        proof {
            assert(leaf_keys(entries@) =~= put_keys(keys, key@));
            assert(leaf_chains(entries@) =~= put_chains(keys, chains, key@, vs));
        }
        (entries, false)
    } else {
        let mut chain = VersionChain::new(value, tx_id);
        if commit_lsn.as_u64() > 0 {
            chain.commit(commit_lsn);
        }
        assert(chain@ =~= vs);
        entries.insert(pos, LeafEntry { key: copy_bytes(key.as_slice()), chain });
        proof {
            assert(leaf_keys(entries@) =~= put_keys(keys, key@));
            assert(leaf_chains(entries@) =~= put_chains(keys, chains, key@, vs));
        }
        (entries, true)
    }
}

/// The pairs of consecutive pages on a way.
fn path_pairs(steps: &Vec<PathEntry>) -> (r: Vec<(PageId, PageId)>)
    ensures
        r@.len() == (if steps@.len() == 0 {
            0
        } else {
            steps@.len() - 1
        }),
        forall|i: int|
            0 <= i < r@.len() ==> (#[trigger] r@[i]).0 == steps@[i].page_id && r@[i].1
                == steps@[i + 1].page_id,
{
    let mut out: Vec<(PageId, PageId)> = Vec::new();
    let mut i: usize = 1;
    while i < steps.len()
        invariant
            1 <= i,
            steps@.len() > 0 ==> i <= steps@.len(),
            steps@.len() == 0 ==> i == 1,
            out@.len() == i - 1,
            forall|j: int|
                0 <= j < i - 1 ==> (#[trigger] out@[j]).0 == steps@[j].page_id && out@[j].1
                    == steps@[j + 1].page_id,
        decreases steps@.len() - i,
    {
        out.push((steps[i - 1].page_id, steps[i].page_id));
        i += 1;
    }
    out
}

/// The value that stored bytes stand for.
pub fn resolve_value(pager: &Pager, value: &[u8]) -> (r: TableResult<Option<ValueBuf>>)
    requires
        pager.wf(),
    ensures
        read_view(r) == resolve(pager.pages(), pager.slots@.len(), value@),
{
    if value.len() == 0 {
        return Ok(None);
    }
    match ValueRef::decode(value) {
        Ok(ValueRef::SinglePage { page_id, offset, length }) => {
            let page = match pager.read_page(PageId(page_id as u64)) {
                Ok(p) => p,
                Err(e) => {
                    return Err(TableError::Pager(e));
                },
            };
            let total: usize = page.data.len();
            let offset: usize = offset as usize;
            let length: usize = length as usize;
            if offset > total || total - offset < length {
                return Err(
                    TableError::Corruption(Corruption::ValueBeyondPage(PageId(page_id as u64))),
                );
            }
            Ok(Some(ValueBuf(sub_bytes(page.data.as_slice(), offset, offset + length))))
        },
        Ok(ValueRef::OverflowChain { first_page_id, total_length, page_count: _ }) => {
            match read_overflow_chain(pager, PageId(first_page_id as u64)) {
                Ok(data) => {
                    if data.len() as u64 != total_length {
                        Err(
                            TableError::Corruption(
                                Corruption::OverflowLengthMismatch {
                                    expected: total_length,
                                    found: data.len() as u64,
                                },
                            ),
                        )
                    } else {
                        Ok(Some(ValueBuf(data)))
                    }
                },
                Err(e) => Err(e),
            }
        },
        _ => Ok(Some(ValueBuf(copy_bytes(value)))),
    }
}

} // verus!
