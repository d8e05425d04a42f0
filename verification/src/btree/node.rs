//! The nodes of a paged B-tree and their layout in a page.
use crate::bytes::{append_bytes, sub_bytes};
use crate::pager::PageId;
use crate::table::{Corruption, NodeField, TableError, TableResult};
use crate::txn::{Version, VersionChain};
use crate::wire::{chain_bytes, parse_chain, read_chain, write_chain};
use vstd::bytes::*;
use vstd::prelude::*;

verus! {

/// How often a node was written.
#[derive(Clone, Copy, Debug, PartialEq, Eq, Structural)]
pub struct PageVersion(pub u64);

impl PageVersion {
    /// The version of a new node.
    pub fn initial() -> (r: Self)
        ensures
            r == PageVersion(0),
    {
        PageVersion(0)
    }

    /// The version after one more write.
    pub open spec fn incremented(self) -> Self {
        PageVersion(bumped(self.0))
    }

    /// The version after one more write.
    pub fn increment(&self) -> (r: Self)
        ensures
            r == self.incremented(),
    {
        PageVersion(self.0.wrapping_add(1))
    }

    /// The number of the version.
    pub fn get(&self) -> (r: u64)
        ensures
            r == self.0,
    {
        self.0
    }
}

/// The number after `v`, back to zero after the largest.
pub open spec fn bumped(v: u64) -> u64 {
    if v == u64::MAX {
        0
    } else {
        (v + 1) as u64
    }
}

/// The two types of node.
#[derive(Clone, Copy, Debug, PartialEq, Eq, Structural)]
pub enum NodeType {
    Internal,
    Leaf,
}

/// A separator and the child that holds the keys before it.
#[derive(Debug)]
pub struct InternalEntry {
    pub key: Vec<u8>,
    pub child_page_id: PageId,
}

/// A key and its versions.
#[derive(Debug)]
pub struct LeafEntry {
    pub key: Vec<u8>,
    pub chain: VersionChain,
}

/// A node of the tree.
#[allow(inconsistent_fields)]
#[derive(Debug)]
pub enum BTreeNode {
    Internal { version: PageVersion, entries: Vec<InternalEntry>, rightmost_child: PageId },
    Leaf { version: PageVersion, entries: Vec<LeafEntry>, next_leaf: PageId },
}

/// A node as the contracts speak of it. An internal node has one child more than keys: child `i`
/// holds what lies from key `i - 1` up to but excluding key `i`.
#[verifier::ext_equal]
pub enum Node {
    Internal { version: u64, keys: Seq<Seq<u8>>, kids: Seq<u64> },
    Leaf { version: u64, keys: Seq<Seq<u8>>, chains: Seq<Seq<Version>>, next: u64 },
}

/// The separators of internal entries.
pub open spec fn inner_keys(entries: Seq<InternalEntry>) -> Seq<Seq<u8>> {
    Seq::new(entries.len(), |i: int| entries[i].key@)
}

/// The children of internal entries.
pub open spec fn inner_kids(entries: Seq<InternalEntry>) -> Seq<u64> {
    Seq::new(entries.len(), |i: int| entries[i].child_page_id.0)
}

/// The keys of leaf entries.
pub open spec fn leaf_keys(entries: Seq<LeafEntry>) -> Seq<Seq<u8>> {
    Seq::new(entries.len(), |i: int| entries[i].key@)
}

/// The versions of leaf entries.
pub open spec fn leaf_chains(entries: Seq<LeafEntry>) -> Seq<Seq<Version>> {
    Seq::new(entries.len(), |i: int| entries[i].chain@)
}

impl View for BTreeNode {
    type V = Node;

    open spec fn view(&self) -> Node {
        match self {
            BTreeNode::Internal { version, entries, rightmost_child } => Node::Internal {
                version: version.0,
                keys: inner_keys(entries@),
                kids: inner_kids(entries@).push(rightmost_child.0),
            },
            BTreeNode::Leaf { version, entries, next_leaf } => Node::Leaf {
                version: version.0,
                keys: leaf_keys(entries@),
                chains: leaf_chains(entries@),
                next: next_leaf.0,
            },
        }
    }
}

impl Node {
    /// The keys of the node.
    pub open spec fn keys(self) -> Seq<Seq<u8>> {
        match self {
            Node::Internal { version, keys, kids } => keys,
            Node::Leaf { version, keys, chains, next } => keys,
        }
    }

    /// The version of the node.
    pub open spec fn version(self) -> u64 {
        match self {
            Node::Internal { version, keys, kids } => version,
            Node::Leaf { version, keys, chains, next } => version,
        }
    }
}

/// An internal entry in a page: the length of the key, the key and the child.
pub open spec fn inner_entry_bytes(key: Seq<u8>, kid: u64) -> Seq<u8> {
    spec_u32_to_le_bytes(key.len() as u32) + key + spec_u64_to_le_bytes(kid)
}

/// The internal entries from the `i`-th on in a page.
pub open spec fn inner_entries_bytes(keys: Seq<Seq<u8>>, kids: Seq<u64>, i: int) -> Seq<u8>
    decreases keys.len() - i,
{
    if i < 0 || i >= keys.len() {
        Seq::empty()
    } else {
        inner_entry_bytes(keys[i], kids[i]) + inner_entries_bytes(keys, kids, i + 1)
    }
}

/// A leaf entry in a page: the length of the key, the key, the length of the chain and the chain.
pub open spec fn leaf_entry_bytes(key: Seq<u8>, vs: Seq<Version>) -> Seq<u8> {
    spec_u32_to_le_bytes(key.len() as u32) + key + spec_u32_to_le_bytes(
        chain_bytes(vs).len() as u32,
    ) + chain_bytes(vs)
}

/// The leaf entries from the `i`-th on in a page.
pub open spec fn leaf_entries_bytes(
    keys: Seq<Seq<u8>>,
    chains: Seq<Seq<Version>>,
    i: int,
) -> Seq<u8>
    decreases keys.len() - i,
{
    if i < 0 || i >= keys.len() {
        Seq::empty()
    } else {
        leaf_entry_bytes(keys[i], chains[i]) + leaf_entries_bytes(keys, chains, i + 1)
    }
}

/// What stands at the front of every node's page: type, version, number of keys and a page.
pub open spec fn header_bytes(tag: u8, version: u64, count: int, page: u64) -> Seq<u8> {
    seq![tag] + spec_u64_to_le_bytes(version) + spec_u32_to_le_bytes(count as u32)
        + spec_u64_to_le_bytes(page)
}

/// A node in a page. Numbers stand with the lowest byte first.
pub open spec fn node_bytes(n: Node) -> Seq<u8> {
    match n {
        Node::Internal { version, keys, kids } => header_bytes(
            0,
            version,
            keys.len() as int,
            kids.last(),
        ) + inner_entries_bytes(keys, kids, 0),
        Node::Leaf { version, keys, chains, next } => header_bytes(
            1,
            version,
            keys.len() as int,
            next,
        ) + leaf_entries_bytes(keys, chains, 0),
    }
}

/// Every length of the node fits the four bytes that a page has for it.
pub open spec fn lengths_fit(n: Node) -> bool {
    match n {
        Node::Internal { version, keys, kids } => {
            &&& keys.len() <= u32::MAX
            &&& forall|i: int| 0 <= i < keys.len() ==> (#[trigger] keys[i]).len() <= u32::MAX
        },
        Node::Leaf { version, keys, chains, next } => {
            &&& keys.len() <= u32::MAX
            &&& forall|i: int| 0 <= i < keys.len() ==> (#[trigger] keys[i]).len() <= u32::MAX
            &&& forall|i: int|
                0 <= i < keys.len() ==> chain_bytes(#[trigger] chains[i]).len() <= u32::MAX
        },
    }
}

/// The keys and children of the `n` internal entries at the front of a byte string.
pub open spec fn parse_inner_entries(b: Seq<u8>, n: nat) -> Result<
    (Seq<Seq<u8>>, Seq<u64>),
    Corruption,
>
    decreases n,
{
    if n == 0 {
        Ok((Seq::empty(), Seq::empty()))
    } else if b.len() < 4 {
        Err(Corruption::TruncatedNode(NodeField::KeyLength))
    } else {
        let len = spec_u32_from_le_bytes(b.take(4)) as int;
        if b.len() < 4 + len {
            Err(Corruption::TruncatedNode(NodeField::Key))
        } else if b.len() < 4 + len + 8 {
            Err(Corruption::TruncatedNode(NodeField::ChildPageId))
        } else {
            match parse_inner_entries(b.skip(4 + len + 8), (n - 1) as nat) {
                Ok((keys, kids)) => Ok(
                    (
                        seq![b.subrange(4, 4 + len)] + keys,
                        seq![spec_u64_from_le_bytes(b.subrange(4 + len, 4 + len + 8))] + kids,
                    ),
                ),
                Err(e) => Err(e),
            }
        }
    }
}

/// The keys and versions of the `n` leaf entries at the front of a byte string.
pub open spec fn parse_leaf_entries(b: Seq<u8>, n: nat) -> Result<
    (Seq<Seq<u8>>, Seq<Seq<Version>>),
    Corruption,
>
    decreases n,
{
    if n == 0 {
        Ok((Seq::empty(), Seq::empty()))
    } else if b.len() < 4 {
        Err(Corruption::TruncatedNode(NodeField::KeyLength))
    } else {
        let len = spec_u32_from_le_bytes(b.take(4)) as int;
        if b.len() < 4 + len {
            Err(Corruption::TruncatedNode(NodeField::Key))
        } else if b.len() < 4 + len + 4 {
            Err(Corruption::TruncatedNode(NodeField::ChainLength))
        } else {
            let clen = spec_u32_from_le_bytes(b.subrange(4 + len, 4 + len + 4)) as int;
            let at = 4 + len + 4;
            if b.len() < at + clen {
                Err(Corruption::TruncatedNode(NodeField::VersionChain))
            } else {
                match parse_chain(b.subrange(at, at + clen)) {
                    None => Err(Corruption::UnreadableChain),
                    Some(vs) => match parse_leaf_entries(b.skip(at + clen), (n - 1) as nat) {
                        Ok((keys, chains)) => Ok(
                            (seq![b.subrange(4, 4 + len)] + keys, seq![vs] + chains),
                        ),
                        Err(e) => Err(e),
                    },
                }
            }
        }
    }
}

/// The node at the front of a byte string.
pub open spec fn parse_node(b: Seq<u8>) -> Result<Node, Corruption> {
    if b.len() == 0 {
        Err(Corruption::EmptyNode)
    } else if b[0] > 1 {
        Err(Corruption::InvalidNodeType(b[0]))
    } else if b.len() < 9 {
        Err(Corruption::TruncatedNode(NodeField::Version))
    } else if b.len() < 13 {
        Err(Corruption::TruncatedNode(NodeField::EntryCount))
    } else if b.len() < 21 {
        Err(
            Corruption::TruncatedNode(
                if b[0] == 0 {
                    NodeField::RightmostChild
                } else {
                    NodeField::NextLeaf
                },
            ),
        )
    } else {
        let version = spec_u64_from_le_bytes(b.subrange(1, 9));
        let count = spec_u32_from_le_bytes(b.subrange(9, 13)) as nat;
        let page = spec_u64_from_le_bytes(b.subrange(13, 21));
        if b[0] == 0 {
            match parse_inner_entries(b.skip(21), count) {
                Ok((keys, kids)) => Ok(Node::Internal { version, keys, kids: kids.push(page) }),
                Err(e) => Err(e),
            }
        } else {
            match parse_leaf_entries(b.skip(21), count) {
                Ok((keys, chains)) => Ok(Node::Leaf { version, keys, chains, next: page }),
                Err(e) => Err(e),
            }
        }
    }
}

/// The chain is read back from what it is written as.
pub open spec fn readable(vs: Seq<Version>) -> bool {
    parse_chain(chain_bytes(vs)) == Some(vs)
}

proof fn lemma_inner_round_trip(keys: Seq<Seq<u8>>, kids: Seq<u64>, i: int, rest: Seq<u8>)
    requires
        0 <= i <= keys.len(),
        kids.len() >= keys.len(),
        forall|j: int| 0 <= j < keys.len() ==> (#[trigger] keys[j]).len() <= u32::MAX,
    ensures
        parse_inner_entries(
            inner_entries_bytes(keys, kids, i) + rest,
            (keys.len() - i) as nat,
        ) == Ok::<(Seq<Seq<u8>>, Seq<u64>), Corruption>(
            (keys.skip(i), kids.subrange(i, keys.len() as int)),
        ),
    decreases keys.len() - i,
{
    lemma_auto_spec_u32_to_from_le_bytes();
    lemma_auto_spec_u64_to_from_le_bytes();
    let b = inner_entries_bytes(keys, kids, i) + rest;
    if i < keys.len() {
        lemma_inner_round_trip(keys, kids, i + 1, rest);
        let len = keys[i].len() as int;
        let tail = inner_entries_bytes(keys, kids, i + 1) + rest;
        let l4 = spec_u32_to_le_bytes(len as u32);
        let c8 = spec_u64_to_le_bytes(kids[i]);
        assert(b =~= l4 + keys[i] + c8 + tail);
        assert(b.take(4) =~= l4);
        assert(b.subrange(4, 4 + len) =~= keys[i]);
        assert(b.subrange(4 + len, 4 + len + 8) =~= c8);
        assert(b.skip(4 + len + 8) =~= tail);
        assert(seq![keys[i]] + keys.skip(i + 1) =~= keys.skip(i));
        assert(seq![kids[i]] + kids.subrange(i + 1, keys.len() as int) =~= kids.subrange(
            i,
            keys.len() as int,
        ));
    } else {
        assert(keys.skip(i) =~= Seq::empty());
        assert(kids.subrange(i, keys.len() as int) =~= Seq::empty());
    }
}

proof fn lemma_leaf_round_trip(
    keys: Seq<Seq<u8>>,
    chains: Seq<Seq<Version>>,
    i: int,
    rest: Seq<u8>,
)
    requires
        0 <= i <= keys.len(),
        chains.len() == keys.len(),
        forall|j: int| 0 <= j < keys.len() ==> (#[trigger] keys[j]).len() <= u32::MAX,
        forall|j: int|
            0 <= j < keys.len() ==> chain_bytes(#[trigger] chains[j]).len() <= u32::MAX,
        forall|j: int| 0 <= j < keys.len() ==> readable(#[trigger] chains[j]),
    ensures
        parse_leaf_entries(
            leaf_entries_bytes(keys, chains, i) + rest,
            (keys.len() - i) as nat,
        ) == Ok::<(Seq<Seq<u8>>, Seq<Seq<Version>>), Corruption>((keys.skip(i), chains.skip(i))),
    decreases keys.len() - i,
{
    lemma_auto_spec_u32_to_from_le_bytes();
    let b = leaf_entries_bytes(keys, chains, i) + rest;
    if i < keys.len() {
        lemma_leaf_round_trip(keys, chains, i + 1, rest);
        let len = keys[i].len() as int;
        let body = chain_bytes(chains[i]);
        let clen = body.len() as int;
        let tail = leaf_entries_bytes(keys, chains, i + 1) + rest;
        let l4 = spec_u32_to_le_bytes(len as u32);
        let c4 = spec_u32_to_le_bytes(clen as u32);
        assert(readable(chains[i]));
        assert(b =~= l4 + keys[i] + c4 + body + tail);
        assert(b.take(4) =~= l4);
        assert(b.subrange(4, 4 + len) =~= keys[i]);
        assert(b.subrange(4 + len, 4 + len + 4) =~= c4);
        assert(b.subrange(4 + len + 4, 4 + len + 4 + clen) =~= body);
        assert(b.skip(4 + len + 4 + clen) =~= tail);
        assert(seq![keys[i]] + keys.skip(i + 1) =~= keys.skip(i));
        assert(seq![chains[i]] + chains.skip(i + 1) =~= chains.skip(i));
    } else {
        assert(keys.skip(i) =~= Seq::empty());
        assert(chains.skip(i) =~= Seq::empty());
    }
}

/// A node is read back from the bytes it is written as, whatever follows them.
pub proof fn lemma_node_round_trip(n: Node, rest: Seq<u8>)
    requires
        lengths_fit(n),
        n matches Node::Internal { keys, kids, .. } ==> kids.len() == keys.len() + 1,
        n matches Node::Leaf { keys, chains, .. } ==> chains.len() == keys.len() && forall|j: int|
            0 <= j < chains.len() ==> readable(#[trigger] chains[j]),
    ensures
        parse_node(node_bytes(n) + rest) == Ok::<Node, Corruption>(n),
{
    lemma_auto_spec_u32_to_from_le_bytes();
    lemma_auto_spec_u64_to_from_le_bytes();
    let b = node_bytes(n) + rest;
    match n {
        Node::Internal { version, keys, kids } => {
            let body = inner_entries_bytes(keys, kids, 0) + rest;
            let v8 = spec_u64_to_le_bytes(version);
            let c4 = spec_u32_to_le_bytes(keys.len() as u32);
            let p8 = spec_u64_to_le_bytes(kids.last());
            assert(b =~= seq![0u8] + v8 + c4 + p8 + body);
            assert(b.subrange(1, 9) =~= v8);
            assert(b.subrange(9, 13) =~= c4);
            assert(b.subrange(13, 21) =~= p8);
            assert(b.skip(21) =~= body);
            lemma_inner_round_trip(keys, kids, 0, rest);
            assert(keys.skip(0) =~= keys);
            assert(kids.subrange(0, keys.len() as int).push(kids.last()) =~= kids);
        },
        Node::Leaf { version, keys, chains, next } => {
            let body = leaf_entries_bytes(keys, chains, 0) + rest;
            let v8 = spec_u64_to_le_bytes(version);
            let c4 = spec_u32_to_le_bytes(keys.len() as u32);
            let p8 = spec_u64_to_le_bytes(next);
            assert(b =~= seq![1u8] + v8 + c4 + p8 + body);
            assert(b.subrange(1, 9) =~= v8);
            assert(b.subrange(9, 13) =~= c4);
            assert(b.subrange(13, 21) =~= p8);
            assert(b.skip(21) =~= body);
            lemma_leaf_round_trip(keys, chains, 0, rest);
            assert(keys.skip(0) =~= keys);
            assert(chains.skip(0) =~= chains);
        },
    }
}

proof fn lemma_inner_lengths(keys: Seq<Seq<u8>>, kids: Seq<u64>, i: int)
    requires
        0 <= i <= keys.len(),
    ensures
        inner_entries_bytes(keys, kids, i).len() >= keys.len() - i,
        forall|j: int|
            i <= j < keys.len() ==> (#[trigger] keys[j]).len() <= inner_entries_bytes(
                keys,
                kids,
                i,
            ).len(),
    decreases keys.len() - i,
{
    if i < keys.len() {
        lemma_auto_spec_u32_to_from_le_bytes();
        lemma_auto_spec_u64_to_from_le_bytes();
        lemma_inner_lengths(keys, kids, i + 1);
    }
}

proof fn lemma_leaf_lengths(keys: Seq<Seq<u8>>, chains: Seq<Seq<Version>>, i: int)
    requires
        0 <= i <= keys.len(),
    ensures
        leaf_entries_bytes(keys, chains, i).len() >= keys.len() - i,
        forall|j: int|
            i <= j < keys.len() ==> (#[trigger] keys[j]).len() <= leaf_entries_bytes(
                keys,
                chains,
                i,
            ).len(),
        forall|j: int|
            i <= j < keys.len() ==> chain_bytes(#[trigger] chains[j]).len() <= leaf_entries_bytes(
                keys,
                chains,
                i,
            ).len(),
    decreases keys.len() - i,
{
    if i < keys.len() {
        lemma_auto_spec_u32_to_from_le_bytes();
        lemma_leaf_lengths(keys, chains, i + 1);
    }
}

/// The lengths of a node that fits a page fit as well.
pub proof fn lemma_lengths_fit(n: Node)
    requires
        node_bytes(n).len() <= u32::MAX,
    ensures
        lengths_fit(n),
{
    match n {
        Node::Internal { version, keys, kids } => {
            lemma_inner_lengths(keys, kids, 0);
        },
        Node::Leaf { version, keys, chains, next } => {
            lemma_leaf_lengths(keys, chains, 0);
        },
    }
}

fn u32_at(bytes: &[u8], at: usize) -> (r: u32)
    requires
        at + 4 <= bytes@.len(),
    ensures
        r == spec_u32_from_le_bytes(bytes@.subrange(at as int, at + 4)),
{
    let total: usize = bytes.len();
    assert(at + 4 <= total);
    u32_from_le_bytes(vstd::slice::slice_subrange(bytes, at, at + 4))
}

fn u64_at(bytes: &[u8], at: usize) -> (r: u64)
    requires
        at + 8 <= bytes@.len(),
    ensures
        r == spec_u64_from_le_bytes(bytes@.subrange(at as int, at + 8)),
{
    let total: usize = bytes.len();
    assert(at + 8 <= total);
    u64_from_le_bytes(vstd::slice::slice_subrange(bytes, at, at + 8))
}

fn truncated(field: NodeField) -> (r: TableError)
    ensures
        r == TableError::Corruption(Corruption::TruncatedNode(field)),
{
    TableError::Corruption(Corruption::TruncatedNode(field))
}

impl BTreeNode {
    /// An internal node without keys.
    pub fn new_internal() -> (r: Self)
        ensures
            r is Internal,
            r@ == (Node::Internal { version: 0, keys: Seq::empty(), kids: seq![0u64] }),
    {
        let r = BTreeNode::Internal {
            version: PageVersion::initial(),
            entries: Vec::new(),
            rightmost_child: PageId(0),
        };
        assert(r@ =~= (Node::Internal { version: 0, keys: Seq::empty(), kids: seq![0u64] }));
        r
    }

    /// A leaf without keys.
    pub fn new_leaf() -> (r: Self)
        ensures
            r is Leaf,
            r@ == (Node::Leaf { version: 0, keys: Seq::empty(), chains: Seq::empty(), next: 0 }),
    {
        let r = BTreeNode::Leaf {
            version: PageVersion::initial(),
            entries: Vec::new(),
            next_leaf: PageId(0),
        };
        assert(r@ =~= (Node::Leaf {
            version: 0,
            keys: Seq::empty(),
            chains: Seq::empty(),
            next: 0,
        }));
        r
    }

    /// The type of the node.
    pub fn node_type(&self) -> (r: NodeType)
        ensures
            r == (if self@ is Internal {
                NodeType::Internal
            } else {
                NodeType::Leaf
            }),
    {
        match self {
            BTreeNode::Internal { .. } => NodeType::Internal,
            BTreeNode::Leaf { .. } => NodeType::Leaf,
        }
    }

    /// The number of keys in the node.
    pub fn key_count(&self) -> (r: usize)
        ensures
            r == self@.keys().len(),
    {
        match self {
            BTreeNode::Internal { entries, .. } => entries.len(),
            BTreeNode::Leaf { entries, .. } => entries.len(),
        }
    }

    /// Whether the node has as many keys as a node may have.
    pub fn is_full(&self, max_order: usize) -> (r: bool)
        ensures
            r == (self@.keys().len() >= max_order),
    {
        self.key_count() >= max_order
    }

    /// Whether the node has as many keys as a node should have.
    pub fn has_minimum_keys(&self, min_keys: usize) -> (r: bool)
        ensures
            r == (self@.keys().len() >= min_keys),
    {
        self.key_count() >= min_keys
    }

    /// The version of the node.
    pub fn get_version(&self) -> (r: PageVersion)
        ensures
            r.0 == self@.version(),
    {
        match self {
            BTreeNode::Internal { version, .. } => *version,
            BTreeNode::Leaf { version, .. } => *version,
        }
    }

    /// The node after one more write.
    pub fn with_incremented_version(self) -> (r: Self)
        ensures
            r@ == (match self@ {
                Node::Internal { version, keys, kids } => Node::Internal {
                    version: bumped(version),
                    keys,
                    kids,
                },
                Node::Leaf { version, keys, chains, next } => Node::Leaf {
                    version: bumped(version),
                    keys,
                    chains,
                    next,
                },
            }),
    {
        match self {
            BTreeNode::Internal { version, entries, rightmost_child } => BTreeNode::Internal {
                version: version.increment(),
                entries,
                rightmost_child,
            },
            BTreeNode::Leaf { version, entries, next_leaf } => BTreeNode::Leaf {
                version: version.increment(),
                entries,
                next_leaf,
            },
        }
    }

    /// The node as it stands in a page.
    pub fn to_bytes(&self) -> (r: Vec<u8>)
        ensures
            r@ == node_bytes(self@),
            lengths_fit(self@) ==> forall|rest: Seq<u8>| #[trigger]
                parse_node(r@ + rest) == Ok::<Node, Corruption>(self@),
    {
        let mut bytes: Vec<u8> = Vec::new();
        match self {
            BTreeNode::Internal { version, entries, rightmost_child } => {
                let ghost keys = inner_keys(entries@);
                let ghost kids = inner_kids(entries@).push(rightmost_child.0);
                Self::write_header(&mut bytes, 0, *version, entries.len(), *rightmost_child);
                let ghost header = bytes@;
                let n: usize = entries.len();
                let mut i: usize = 0;
                while i < n
                    invariant
                        i <= n == entries@.len(),
                        keys == inner_keys(entries@),
                        kids == inner_kids(entries@).push(rightmost_child.0),
                        bytes@ + inner_entries_bytes(keys, kids, i as int) == header
                            + inner_entries_bytes(keys, kids, 0),
                    decreases n - i,
                {
                    let ghost before = bytes@;
                    let entry = &entries[i];
                    let len4 = u32_to_le_bytes(entry.key.len() as u32);
                    append_bytes(&mut bytes, len4.as_slice());
                    append_bytes(&mut bytes, entry.key.as_slice());
                    let kid8 = u64_to_le_bytes(entry.child_page_id.0);
                    append_bytes(&mut bytes, kid8.as_slice());
                    proof {
                        assert(keys[i as int] == entry.key@);
                        assert(kids[i as int] == entry.child_page_id.0);
                        assert(bytes@ =~= before + inner_entry_bytes(
                            keys[i as int],
                            kids[i as int],
                        ));
                        assert(bytes@ + inner_entries_bytes(keys, kids, i + 1) =~= before
                            + inner_entries_bytes(keys, kids, i as int));
                    }
                    i += 1;
                }
                proof {
                    assert(bytes@ =~= node_bytes(self@));
                    assert(kids.last() == rightmost_child.0);
                }
            },
            BTreeNode::Leaf { version, entries, next_leaf } => {
                let ghost keys = leaf_keys(entries@);
                let ghost chains = leaf_chains(entries@);
                Self::write_header(&mut bytes, 1, *version, entries.len(), *next_leaf);
                let ghost header = bytes@;
                let n: usize = entries.len();
                let mut i: usize = 0;
                while i < n
                    invariant
                        i <= n == entries@.len(),
                        keys == leaf_keys(entries@),
                        chains == leaf_chains(entries@),
                        bytes@ + leaf_entries_bytes(keys, chains, i as int) == header
                            + leaf_entries_bytes(keys, chains, 0),
                        forall|j: int| 0 <= j < i ==> readable(#[trigger] chains[j]),
                    decreases n - i,
                {
                    let ghost before = bytes@;
                    let entry = &entries[i];
                    let len4 = u32_to_le_bytes(entry.key.len() as u32);
                    append_bytes(&mut bytes, len4.as_slice());
                    append_bytes(&mut bytes, entry.key.as_slice());
                    let chain = write_chain(&entry.chain);
                    let clen4 = u32_to_le_bytes(chain.len() as u32);
                    append_bytes(&mut bytes, clen4.as_slice());
                    append_bytes(&mut bytes, chain.as_slice());
                    proof {
                        assert(chain@ + Seq::<u8>::empty() =~= chain@);
                        assert(readable(chains[i as int]));
                        assert(keys[i as int] == entry.key@);
                        assert(bytes@ =~= before + leaf_entry_bytes(
                            keys[i as int],
                            chains[i as int],
                        ));
                        assert(bytes@ + leaf_entries_bytes(keys, chains, i + 1) =~= before
                            + leaf_entries_bytes(keys, chains, i as int));
                    }
                    i += 1;
                }
                proof {
                    assert(bytes@ =~= node_bytes(self@));
                }
            },
        }
        proof {
            if lengths_fit(self@) {
                assert forall|rest: Seq<u8>| #[trigger]
                    parse_node(bytes@ + rest) == Ok::<Node, Corruption>(self@) by {
                    lemma_node_round_trip(self@, rest);
                }
            }
        }
        bytes
    }

    fn write_header(
        bytes: &mut Vec<u8>,
        tag: u8,
        version: PageVersion,
        count: usize,
        page: PageId,
    )
        requires
            old(bytes)@.len() == 0,
        ensures
            final(bytes)@ == header_bytes(tag, version.0, count as int, page.0),
    {
        bytes.push(tag);
        let v8 = u64_to_le_bytes(version.get());
        append_bytes(bytes, v8.as_slice());
        let c4 = u32_to_le_bytes(count as u32);
        append_bytes(bytes, c4.as_slice());
        let p8 = u64_to_le_bytes(page.0);
        append_bytes(bytes, p8.as_slice());
        proof {
            assert(bytes@ =~= header_bytes(tag, version.0, count as int, page.0));
        }
    }

    /// The node at the front of a byte string.
    pub fn from_bytes(bytes: &[u8]) -> (r: TableResult<Self>)
        ensures
            match r {
                Ok(n) => parse_node(bytes@) == Ok::<Node, Corruption>(n@),
                Err(e) => parse_node(bytes@) is Err && e == TableError::Corruption(
                    parse_node(bytes@)->Err_0,
                ),
            },
    {
        if bytes.len() == 0 {
            return Err(TableError::Corruption(Corruption::EmptyNode));
        }
        let tag: u8 = bytes[0];
        if tag > 1 {
            return Err(TableError::Corruption(Corruption::InvalidNodeType(tag)));
        }
        if bytes.len() < 9 {
            return Err(truncated(NodeField::Version));
        }
        let version = PageVersion(u64_at(bytes, 1));
        if bytes.len() < 13 {
            return Err(truncated(NodeField::EntryCount));
        }
        let count: usize = u32_at(bytes, 9) as usize;
        if bytes.len() < 21 {
            return Err(
                truncated(
                    if tag == 0 {
                        NodeField::RightmostChild
                    } else {
                        NodeField::NextLeaf
                    },
                ),
            );
        }
        let page = PageId(u64_at(bytes, 13));
        if tag == 0 {
            match Self::read_inner_entries(bytes, 21, count) {
                Ok(entries) => Ok(BTreeNode::Internal { version, entries, rightmost_child: page }),
                Err(e) => Err(e),
            }
        } else {
            match Self::read_leaf_entries(bytes, 21, count) {
                Ok(entries) => Ok(BTreeNode::Leaf { version, entries, next_leaf: page }),
                Err(e) => Err(e),
            }
        }
    }

    fn read_inner_entries(bytes: &[u8], start: usize, count: usize) -> (r: TableResult<
        Vec<InternalEntry>,
    >)
        requires
            start <= bytes@.len(),
        ensures
            match r {
                Ok(es) => parse_inner_entries(bytes@.skip(start as int), count as nat) == Ok::<
                    (Seq<Seq<u8>>, Seq<u64>),
                    Corruption,
                >((inner_keys(es@), inner_kids(es@))),
                Err(e) => parse_inner_entries(bytes@.skip(start as int), count as nat) is Err && e
                    == TableError::Corruption(
                    parse_inner_entries(bytes@.skip(start as int), count as nat)->Err_0,
                ),
            },
    {
        let ghost whole = parse_inner_entries(bytes@.skip(start as int), count as nat);
        let mut entries: Vec<InternalEntry> = Vec::new();
        let mut at: usize = start;
        let mut i: usize = 0;
        proof {
            let p = parse_inner_entries(bytes@.skip(at as int), count as nat);
            if p is Ok {
                assert(inner_keys(entries@) + p->Ok_0.0 =~= p->Ok_0.0);
                assert(inner_kids(entries@) + p->Ok_0.1 =~= p->Ok_0.1);
            }
        }
        while i < count
            invariant
                i <= count,
                at <= bytes@.len(),
                whole == parse_inner_entries(bytes@.skip(start as int), count as nat),
                match parse_inner_entries(bytes@.skip(at as int), (count - i) as nat) {
                    Ok((keys, kids)) => whole == Ok::<(Seq<Seq<u8>>, Seq<u64>), Corruption>(
                        (inner_keys(entries@) + keys, inner_kids(entries@) + kids),
                    ),
                    Err(e) => whole == Err::<(Seq<Seq<u8>>, Seq<u64>), Corruption>(e),
                },
            decreases count - i,
        {
            let ghost b = bytes@.skip(at as int);
            let total: usize = bytes.len();
            if total - at < 4 {
                return Err(truncated(NodeField::KeyLength));
            }
            assert(b.take(4) =~= bytes@.subrange(at as int, at + 4));
            let len: usize = u32_at(bytes, at) as usize;
            if total - at - 4 < len {
                return Err(truncated(NodeField::Key));
            }
            assert(b.subrange(4, 4 + len) =~= bytes@.subrange(at + 4, at + 4 + len));
            let key = sub_bytes(bytes, at + 4, at + 4 + len);
            if total - at - 4 - len < 8 {
                return Err(truncated(NodeField::ChildPageId));
            }
            assert(b.subrange(4 + len, 4 + len + 8) =~= bytes@.subrange(
                at + 4 + len,
                at + 4 + len + 8,
            ));
            let kid = PageId(u64_at(bytes, at + 4 + len));
            assert(b.skip(4 + len + 8) =~= bytes@.skip(at + 4 + len + 8));
            let ghost done = entries@;
            entries.push(InternalEntry { key, child_page_id: kid });
            at = at + 4 + len + 8;
            proof {
                let p = parse_inner_entries(bytes@.skip(at as int), (count - i - 1) as nat);
                if p is Ok {
                    assert(inner_keys(done) + (seq![key@] + p->Ok_0.0) =~= inner_keys(entries@)
                        + p->Ok_0.0);
                    assert(inner_kids(done) + (seq![kid.0] + p->Ok_0.1) =~= inner_kids(entries@)
                        + p->Ok_0.1);
                }
            }
            i += 1;
        }
        proof {
            assert(inner_keys(entries@) + Seq::<Seq<u8>>::empty() =~= inner_keys(entries@));
            assert(inner_kids(entries@) + Seq::<u64>::empty() =~= inner_kids(entries@));
        }
        Ok(entries)
    }

    fn read_leaf_entries(bytes: &[u8], start: usize, count: usize) -> (r: TableResult<
        Vec<LeafEntry>,
    >)
        requires
            start <= bytes@.len(),
        ensures
            match r {
                Ok(es) => parse_leaf_entries(bytes@.skip(start as int), count as nat) == Ok::<
                    (Seq<Seq<u8>>, Seq<Seq<Version>>),
                    Corruption,
                >((leaf_keys(es@), leaf_chains(es@))),
                Err(e) => parse_leaf_entries(bytes@.skip(start as int), count as nat) is Err && e
                    == TableError::Corruption(
                    parse_leaf_entries(bytes@.skip(start as int), count as nat)->Err_0,
                ),
            },
    {
        let ghost whole = parse_leaf_entries(bytes@.skip(start as int), count as nat);
        let mut entries: Vec<LeafEntry> = Vec::new();
        let mut at: usize = start;
        let mut i: usize = 0;
        proof {
            let p = parse_leaf_entries(bytes@.skip(at as int), count as nat);
            if p is Ok {
                assert(leaf_keys(entries@) + p->Ok_0.0 =~= p->Ok_0.0);
                assert(leaf_chains(entries@) + p->Ok_0.1 =~= p->Ok_0.1);
            }
        }
        while i < count
            invariant
                i <= count,
                at <= bytes@.len(),
                whole == parse_leaf_entries(bytes@.skip(start as int), count as nat),
                match parse_leaf_entries(bytes@.skip(at as int), (count - i) as nat) {
                    Ok((keys, chains)) => whole == Ok::<
                        (Seq<Seq<u8>>, Seq<Seq<Version>>),
                        Corruption,
                    >((leaf_keys(entries@) + keys, leaf_chains(entries@) + chains)),
                    Err(e) => whole == Err::<(Seq<Seq<u8>>, Seq<Seq<Version>>), Corruption>(e),
                },
            decreases count - i,
        {
            let ghost b = bytes@.skip(at as int);
            let total: usize = bytes.len();
            if total - at < 4 {
                return Err(truncated(NodeField::KeyLength));
            }
            assert(b.take(4) =~= bytes@.subrange(at as int, at + 4));
            let len: usize = u32_at(bytes, at) as usize;
            if total - at - 4 < len {
                return Err(truncated(NodeField::Key));
            }
            assert(b.subrange(4, 4 + len) =~= bytes@.subrange(at + 4, at + 4 + len));
            let key = sub_bytes(bytes, at + 4, at + 4 + len);
            if total - at - 4 - len < 4 {
                return Err(truncated(NodeField::ChainLength));
            }
            assert(b.subrange(4 + len, 4 + len + 4) =~= bytes@.subrange(
                at + 4 + len,
                at + 4 + len + 4,
            ));
            let clen: usize = u32_at(bytes, at + 4 + len) as usize;
            let body: usize = at + 4 + len + 4;
            if total - body < clen {
                return Err(truncated(NodeField::VersionChain));
            }
            assert(b.subrange(4 + len + 4, 4 + len + 4 + clen) =~= bytes@.subrange(
                body as int,
                body + clen,
            ));
            let chain = match read_chain(vstd::slice::slice_subrange(bytes, body, body + clen)) {
                Some(c) => c,
                None => {
                    return Err(TableError::Corruption(Corruption::UnreadableChain));
                },
            };
            assert(b.skip(4 + len + 4 + clen) =~= bytes@.skip(body + clen));
            let ghost done = entries@;
            entries.push(LeafEntry { key, chain });
            at = body + clen;
            proof {
                let p = parse_leaf_entries(bytes@.skip(at as int), (count - i - 1) as nat);
                if p is Ok {
                    assert(leaf_keys(done) + (seq![key@] + p->Ok_0.0) =~= leaf_keys(entries@)
                        + p->Ok_0.0);
                    assert(leaf_chains(done) + (seq![chain@] + p->Ok_0.1) =~= leaf_chains(entries@)
                        + p->Ok_0.1);
                }
            }
            i += 1;
        }
        proof {
            assert(leaf_keys(entries@) + Seq::<Seq<u8>>::empty() =~= leaf_keys(entries@));
            assert(leaf_chains(entries@) + Seq::<Seq<Version>>::empty() =~= leaf_chains(entries@));
        }
        Ok(entries)
    }
}

/// The size of internal entries in a page.
pub open spec fn inner_size(keys: Seq<Seq<u8>>) -> nat
    decreases keys.len(),
{
    if keys.len() == 0 {
        0
    } else {
        inner_size(keys.drop_last()) + 12 + keys.last().len()
    }
}

/// The size of leaf entries in a page.
pub open spec fn leaf_size(keys: Seq<Seq<u8>>, chains: Seq<Seq<Version>>) -> nat
    decreases keys.len(),
{
    if keys.len() == 0 {
        0
    } else {
        leaf_size(keys.drop_last(), chains) + 8 + keys.last().len() + chain_bytes(
            chains[keys.len() - 1],
        ).len()
    }
}

/// The size of a node's page: a header and the entries.
pub proof fn lemma_node_size(n: Node)
    ensures
        node_bytes(n).len() == (match n {
            Node::Internal { version, keys, kids } => 21 + inner_size(keys),
            Node::Leaf { version, keys, chains, next } => 21 + leaf_size(keys, chains),
        }),
{
    lemma_auto_spec_u32_to_from_le_bytes();
    lemma_auto_spec_u64_to_from_le_bytes();
    match n {
        Node::Internal { version, keys, kids } => {
            lemma_inner_size_from(keys, kids, 0);
            assert(keys.take(0) =~= Seq::empty());
        },
        Node::Leaf { version, keys, chains, next } => {
            lemma_leaf_size_from(keys, chains, 0);
            assert(keys.take(0) =~= Seq::empty());
        },
    }
}

proof fn lemma_inner_size_from(keys: Seq<Seq<u8>>, kids: Seq<u64>, i: int)
    requires
        0 <= i <= keys.len(),
    ensures
        inner_entries_bytes(keys, kids, i).len() + inner_size(keys.take(i)) == inner_size(keys),
    decreases keys.len() - i,
{
    lemma_auto_spec_u32_to_from_le_bytes();
    lemma_auto_spec_u64_to_from_le_bytes();
    if i < keys.len() {
        lemma_inner_size_from(keys, kids, i + 1);
        assert(keys.take(i + 1).drop_last() =~= keys.take(i));
        assert(keys.take(i + 1).last() == keys[i]);
    } else {
        assert(keys.take(i) =~= keys);
    }
}

proof fn lemma_leaf_size_from(keys: Seq<Seq<u8>>, chains: Seq<Seq<Version>>, i: int)
    requires
        0 <= i <= keys.len(),
    ensures
        leaf_entries_bytes(keys, chains, i).len() + leaf_size(keys.take(i), chains) == leaf_size(
            keys,
            chains,
        ),
    decreases keys.len() - i,
{
    lemma_auto_spec_u32_to_from_le_bytes();
    if i < keys.len() {
        lemma_leaf_size_from(keys, chains, i + 1);
        assert(keys.take(i + 1).drop_last() =~= keys.take(i));
        assert(keys.take(i + 1).last() == keys[i]);
    } else {
        assert(keys.take(i) =~= keys);
    }
}

/// Entries before and after a position add up.
pub proof fn lemma_inner_size_parts(keys: Seq<Seq<u8>>, m: int)
    requires
        0 <= m <= keys.len(),
    ensures
        inner_size(keys) == inner_size(keys.take(m)) + inner_size(keys.skip(m)),
    decreases keys.len(),
{
    if m < keys.len() {
        lemma_inner_size_parts(keys.drop_last(), m);
        assert(keys.drop_last().take(m) =~= keys.take(m));
        assert(keys.skip(m).drop_last() =~= keys.drop_last().skip(m));
    } else {
        assert(keys.take(m) =~= keys);
        assert(keys.skip(m) =~= Seq::empty());
    }
}

/// A key that is put in adds its entry's size.
pub proof fn lemma_inner_size_insert(keys: Seq<Seq<u8>>, i: int, m: Seq<u8>)
    requires
        0 <= i <= keys.len(),
    ensures
        inner_size(keys.insert(i, m)) == inner_size(keys) + 12 + m.len(),
{
    let keys2 = keys.insert(i, m);
    lemma_inner_size_parts(keys, i);
    lemma_inner_size_parts(keys2, i + 1);
    assert(keys2.take(i + 1).drop_last() =~= keys.take(i));
    assert(keys2.skip(i + 1) =~= keys.skip(i));
}

/// Leaf entries before and after a position add up.
pub proof fn lemma_leaf_size_parts(keys: Seq<Seq<u8>>, chains: Seq<Seq<Version>>, m: int)
    requires
        0 <= m <= keys.len(),
        chains.len() >= keys.len(),
    ensures
        leaf_size(keys, chains) == leaf_size(keys.take(m), chains.take(m)) + leaf_size(
            keys.skip(m),
            chains.skip(m),
        ),
    decreases keys.len(),
{
    if m < keys.len() {
        lemma_leaf_size_parts(keys.drop_last(), chains, m);
        assert(keys.drop_last().take(m) =~= keys.take(m));
        assert(keys.skip(m).drop_last() =~= keys.drop_last().skip(m));
        assert(chains.skip(m)[keys.len() - m - 1] == chains[keys.len() - 1]);
    } else {
        assert(keys.take(m) =~= keys);
        assert(keys.skip(m) =~= Seq::empty());
        lemma_leaf_size_chains(keys, chains, chains.take(m));
    }
}

/// The size of leaf entries depends on the versions of their own keys alone.
pub proof fn lemma_leaf_size_chains(
    keys: Seq<Seq<u8>>,
    a: Seq<Seq<Version>>,
    b: Seq<Seq<Version>>,
)
    requires
        forall|i: int| 0 <= i < keys.len() ==> #[trigger] a[i] == b[i],
    ensures
        leaf_size(keys, a) == leaf_size(keys, b),
    decreases keys.len(),
{
    if keys.len() > 0 {
        lemma_leaf_size_chains(keys.drop_last(), a, b);
    }
}

} // verus!
