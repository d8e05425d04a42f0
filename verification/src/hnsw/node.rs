//! The nodes of a vector index, and the pages that hold them.
use crate::bytes::{append_bytes, sub_bytes};
use crate::fulltext::posting::{moment, tombstone_marker, Moment};
use crate::pager::{Page, PageId, PageType, PageView, Pager, PagerError};
use crate::snap::Snapshot;
use crate::table::{Corruption, TableError, TableResult};
use crate::txn::{find_visible, pending, Version, VersionChain};
use crate::types::TransactionId;
use crate::wire::{chain_bytes, parse_chain, read_chain, write_chain};
use vstd::bytes::*;
use vstd::prelude::*;

verus! {

/// A vector with its links. A node goes by the number of its page.
#[derive(Debug)]
pub struct HnswNode {
    pub id: Vec<u8>,
    /// The components, as the bits of single-precision numbers.
    pub vector: Vec<u32>,
    /// The highest layer of the node.
    pub layer: usize,
    /// The nodes that it is linked to, on each layer.
    pub neighbors: Vec<Vec<u32>>,
    pub version_chain: VersionChain,
}

/// A node as the contracts speak of it.
#[verifier::ext_equal]
pub struct NodeView {
    pub id: Seq<u8>,
    pub vector: Seq<u32>,
    pub layer: usize,
    pub neighbors: Seq<Seq<u32>>,
    pub versions: Seq<Version>,
}

/// Lists of nodes as the contracts speak of them.
pub open spec fn lists_of(lists: Seq<Vec<u32>>) -> Seq<Seq<u32>> {
    Seq::new(lists.len(), |i: int| lists[i]@)
}

impl View for HnswNode {
    type V = NodeView;

    open spec fn view(&self) -> NodeView {
        NodeView {
            id: self.id@,
            vector: self.vector@,
            layer: self.layer,
            neighbors: lists_of(self.neighbors@),
            versions: self.version_chain@,
        }
    }
}

impl NodeView {
    /// A snapshot at that moment sees the node.
    pub open spec fn seen_at(self, at: Moment) -> bool {
        match find_visible(self.versions, at.0, at.1) {
            Some(v) => v != tombstone_marker(),
            None => false,
        }
    }

    /// The links of the node on a layer.
    pub open spec fn links(self, layer: int) -> Seq<u32> {
        if 0 <= layer < self.neighbors.len() {
            self.neighbors[layer]
        } else {
            Seq::empty()
        }
    }

    /// The nodes are the same but for their links.
    pub open spec fn same_but_links(self, other: NodeView) -> bool {
        &&& self.id == other.id
        &&& self.vector == other.vector
        &&& self.layer == other.layer
        &&& self.versions == other.versions
    }
}

/// Numbers in a row, lowest byte first.
pub open spec fn words(s: Seq<u32>) -> Seq<u8>
    decreases s.len(),
{
    if s.len() == 0 {
        Seq::empty()
    } else {
        spec_u32_to_le_bytes(s[0]) + words(s.drop_first())
    }
}

/// Lists of numbers in a row, each behind its length.
pub open spec fn list_bytes(lists: Seq<Seq<u32>>) -> Seq<u8>
    decreases lists.len(),
{
    if lists.len() == 0 {
        Seq::empty()
    } else {
        spec_u32_to_le_bytes(lists[0].len() as u32) + words(lists[0]) + list_bytes(
            lists.drop_first(),
        )
    }
}

/// A node as bytes.
pub open spec fn node_bytes(n: NodeView) -> Seq<u8> {
    spec_u32_to_le_bytes(n.id.len() as u32) + n.id + spec_u32_to_le_bytes(n.vector.len() as u32)
        + words(n.vector) + spec_u32_to_le_bytes(n.layer as u32) + spec_u32_to_le_bytes(
        n.neighbors.len() as u32,
    ) + list_bytes(n.neighbors) + spec_u32_to_le_bytes(chain_bytes(n.versions).len() as u32)
        + chain_bytes(n.versions)
}

/// The number at the front of a byte string, and the rest.
pub open spec fn take_u32(b: Seq<u8>) -> Option<(u32, Seq<u8>)> {
    if b.len() < 4 {
        None
    } else {
        Some((spec_u32_from_le_bytes(b.take(4)), b.skip(4)))
    }
}

/// So many numbers at the front of a byte string, and the rest.
pub open spec fn take_words(b: Seq<u8>, n: nat) -> Option<(Seq<u32>, Seq<u8>)>
    decreases n,
{
    if n == 0 {
        Some((Seq::empty(), b))
    } else {
        match take_u32(b) {
            None => None,
            Some((w, rest)) => match take_words(rest, (n - 1) as nat) {
                None => None,
                Some((ws, end)) => Some((seq![w] + ws, end)),
            },
        }
    }
}

/// So many lists at the front of a byte string, and the rest.
pub open spec fn take_lists(b: Seq<u8>, n: nat) -> Option<(Seq<Seq<u32>>, Seq<u8>)>
    decreases n,
{
    if n == 0 {
        Some((Seq::empty(), b))
    } else {
        match take_u32(b) {
            None => None,
            Some((len, rest)) => match take_words(rest, len as nat) {
                None => None,
                Some((list, rest2)) => match take_lists(rest2, (n - 1) as nat) {
                    None => None,
                    Some((lists, end)) => Some((seq![list] + lists, end)),
                },
            },
        }
    }
}

/// The node that a byte string starts with.
pub open spec fn parse_node(b: Seq<u8>) -> Option<NodeView> {
    match take_u32(b) {
        None => None,
        Some((id_len, b1)) => if b1.len() < id_len {
            None
        } else {
            let id = b1.take(id_len as int);
            match take_u32(b1.skip(id_len as int)) {
                None => None,
                Some((dims, b2)) => match take_words(b2, dims as nat) {
                    None => None,
                    Some((vector, b3)) => match take_u32(b3) {
                        None => None,
                        Some((layer, b4)) => match take_u32(b4) {
                            None => None,
                            Some((layers, b5)) => match take_lists(b5, layers as nat) {
                                None => None,
                                Some((neighbors, b6)) => match take_u32(b6) {
                                    None => None,
                                    Some((len, b7)) => if b7.len() < len {
                                        None
                                    } else {
                                        match parse_chain(b7.take(len as int)) {
                                            None => None,
                                            Some(versions) => Some(
                                                NodeView {
                                                    id,
                                                    vector,
                                                    layer: layer as usize,
                                                    neighbors,
                                                    versions,
                                                },
                                            ),
                                        }
                                    },
                                },
                            },
                        },
                    },
                },
            }
        },
    }
}

pub(crate) proof fn lemma_take_u32(w: u32, rest: Seq<u8>)
    ensures
        take_u32(spec_u32_to_le_bytes(w) + rest) == Some((w, rest)),
        spec_u32_to_le_bytes(w).len() == 4,
{
    lemma_auto_spec_u32_to_from_le_bytes();
    let b = spec_u32_to_le_bytes(w) + rest;
    assert(b.take(4) =~= spec_u32_to_le_bytes(w));
    assert(b.skip(4) =~= rest);
}

proof fn lemma_take_words(s: Seq<u32>, rest: Seq<u8>)
    ensures
        take_words(words(s) + rest, s.len()) == Some((s, rest)),
        words(s).len() == 4 * s.len(),
    decreases s.len(),
{
    if s.len() == 0 {
        assert(words(s) + rest =~= rest);
        assert(s =~= Seq::empty());
    } else {
        lemma_take_words(s.drop_first(), rest);
        lemma_take_u32(s[0], words(s.drop_first()) + rest);
        assert(words(s) + rest =~= spec_u32_to_le_bytes(s[0]) + (words(s.drop_first()) + rest));
        assert(seq![s[0]] + s.drop_first() =~= s);
    }
}

proof fn lemma_take_lists(lists: Seq<Seq<u32>>, rest: Seq<u8>)
    requires
        forall|i: int| 0 <= i < lists.len() ==> (#[trigger] lists[i]).len() <= u32::MAX,
    ensures
        take_lists(list_bytes(lists) + rest, lists.len()) == Some((lists, rest)),
    decreases lists.len(),
{
    if lists.len() == 0 {
        assert(list_bytes(lists) + rest =~= rest);
        assert(lists =~= Seq::empty());
    } else {
        let others = lists.drop_first();
        assert forall|i: int| 0 <= i < others.len() implies (#[trigger] others[i]).len()
            <= u32::MAX by {
            assert(others[i] == lists[i + 1]);
        }
        lemma_take_lists(others, rest);
        let tail = list_bytes(others) + rest;
        lemma_take_words(lists[0], tail);
        lemma_take_u32(lists[0].len() as u32, words(lists[0]) + tail);
        assert(list_bytes(lists) + rest =~= spec_u32_to_le_bytes(lists[0].len() as u32) + (words(
            lists[0],
        ) + tail));
        assert(seq![lists[0]] + others =~= lists);
    }
}

proof fn lemma_list_bytes_len(lists: Seq<Seq<u32>>, i: int)
    requires
        0 <= i < lists.len(),
    ensures
        lists[i].len() <= list_bytes(lists).len(),
        lists.len() <= list_bytes(lists).len(),
    decreases lists.len(),
{
    lemma_auto_spec_u32_to_from_le_bytes();
    lemma_take_words(lists[0], Seq::empty());
    let others = lists.drop_first();
    if i > 0 {
        lemma_list_bytes_len(others, i - 1);
        assert(others[i - 1] == lists[i]);
    } else if others.len() > 0 {
        lemma_list_bytes_len(others, 0);
    }
}

/// A node whose bytes are not too many is read back from them.
pub proof fn law_node_is_read_back(n: NodeView, rest: Seq<u8>)
    requires
        node_bytes(n).len() <= u32::MAX,
        n.layer <= u32::MAX,
        parse_chain(chain_bytes(n.versions)) == Some(n.versions),
    ensures
        parse_node(node_bytes(n) + rest) == Some(n),
{
    lemma_auto_spec_u32_to_from_le_bytes();
    let chain = chain_bytes(n.versions);
    let t7 = chain + rest;
    let t6 = spec_u32_to_le_bytes(chain.len() as u32) + t7;
    let t5 = list_bytes(n.neighbors) + t6;
    let t4 = spec_u32_to_le_bytes(n.neighbors.len() as u32) + t5;
    let t3 = spec_u32_to_le_bytes(n.layer as u32) + t4;
    let t2 = words(n.vector) + t3;
    let t1b = spec_u32_to_le_bytes(n.vector.len() as u32) + t2;
    let t1 = n.id + t1b;
    let all = node_bytes(n) + rest;
    assert(all =~= spec_u32_to_le_bytes(n.id.len() as u32) + t1);
    lemma_take_words(n.vector, t3);
    assert forall|i: int| 0 <= i < n.neighbors.len() implies (#[trigger] n.neighbors[i]).len()
        <= u32::MAX by {
        lemma_list_bytes_len(n.neighbors, i);
    }
    if n.neighbors.len() > 0 {
        lemma_list_bytes_len(n.neighbors, 0);
    }
    lemma_take_lists(n.neighbors, t6);
    lemma_take_u32(n.id.len() as u32, t1);
    lemma_take_u32(n.vector.len() as u32, t2);
    lemma_take_u32(n.layer as u32, t4);
    lemma_take_u32(n.neighbors.len() as u32, t5);
    lemma_take_u32(chain.len() as u32, t7);
    assert(t1.take(n.id.len() as int) =~= n.id);
    assert(t1.skip(n.id.len() as int) =~= t1b);
    assert(t7.take(chain.len() as int) =~= chain);
}

/// The node in a page, or what is wrong with the page.
pub open spec fn node_at(pages: Map<u64, PageView>, id: u32) -> TableResult<NodeView> {
    if !pages.contains_key(id as u64) {
        Err(TableError::Pager(PagerError::PageNotFound(PageId(id as u64))))
    } else {
        match parse_node(pages[id as u64].data) {
            Some(n) => Ok(n),
            None => Err(TableError::Corruption(Corruption::InvalidVectorNode(PageId(id as u64)))),
        }
    }
}

pub(crate) fn read_u32(b: &[u8], at: usize) -> (r: Option<(u32, usize)>)
    requires
        at <= b@.len(),
    ensures
        match r {
            Some((w, next)) => next <= b@.len() && take_u32(b@.skip(at as int)) == Some(
                (w, b@.skip(next as int)),
            ),
            None => take_u32(b@.skip(at as int)) is None,
        },
{
    if b.len() - at < 4 {
        return None;
    }
    let w: u32 = u32_from_le_bytes(vstd::slice::slice_subrange(b, at, at + 4));
    proof {
        assert(b@.skip(at as int).take(4) =~= b@.subrange(at as int, at + 4));
        assert(b@.skip(at as int).skip(4) =~= b@.skip(at + 4));
    }
    Some((w, at + 4))
}

fn read_words(b: &[u8], at: usize, n: u32) -> (r: Option<(Vec<u32>, usize)>)
    requires
        at <= b@.len(),
    ensures
        match r {
            Some((ws, next)) => next <= b@.len() && take_words(b@.skip(at as int), n as nat)
                == Some((ws@, b@.skip(next as int))),
            None => take_words(b@.skip(at as int), n as nat) is None,
        },
{
    let ghost whole = take_words(b@.skip(at as int), n as nat);
    let mut out: Vec<u32> = Vec::new();
    let mut pos: usize = at;
    let mut i: u32 = 0;
    proof {
        if whole is Some {
            assert(out@ + whole->Some_0.0 =~= whole->Some_0.0);
        }
    }
    while i < n
        invariant
            i <= n,
            pos <= b@.len(),
            whole == take_words(b@.skip(at as int), n as nat),
            match take_words(b@.skip(pos as int), (n - i) as nat) {
                Some((ws, end)) => whole == Some((out@ + ws, end)),
                None => whole is None,
            },
        decreases n - i,
    {
        match read_u32(b, pos) {
            None => {
                return None;
            },
            Some((w, next)) => {
                let ghost before = out@;
                out.push(w);
                proof {
                    let rest = take_words(b@.skip(next as int), (n - i - 1) as nat);
                    if rest is Some {
                        assert(before + (seq![w] + rest->Some_0.0) =~= out@ + rest->Some_0.0);
                    }
                }
                pos = next;
            },
        }
        i += 1;
    }
    assert(out@ + Seq::<u32>::empty() =~= out@);
    Some((out, pos))
}

fn read_lists(b: &[u8], at: usize, n: u32) -> (r: Option<(Vec<Vec<u32>>, usize)>)
    requires
        at <= b@.len(),
    ensures
        match r {
            Some((ls, next)) => next <= b@.len() && take_lists(b@.skip(at as int), n as nat)
                == Some((lists_of(ls@), b@.skip(next as int))),
            None => take_lists(b@.skip(at as int), n as nat) is None,
        },
{
    let ghost whole = take_lists(b@.skip(at as int), n as nat);
    let mut out: Vec<Vec<u32>> = Vec::new();
    let mut pos: usize = at;
    let mut i: u32 = 0;
    proof {
        if whole is Some {
            assert(lists_of(out@) + whole->Some_0.0 =~= whole->Some_0.0);
        }
    }
    while i < n
        invariant
            i <= n,
            pos <= b@.len(),
            whole == take_lists(b@.skip(at as int), n as nat),
            match take_lists(b@.skip(pos as int), (n - i) as nat) {
                Some((ls, end)) => whole == Some((lists_of(out@) + ls, end)),
                None => whole is None,
            },
        decreases n - i,
    {
        let (len, next) = match read_u32(b, pos) {
            None => {
                return None;
            },
            Some(t) => t,
        };
        match read_words(b, next, len) {
            None => {
                return None;
            },
            Some((list, end)) => {
                let ghost before = lists_of(out@);
                let ghost l = list@;
                out.push(list);
                proof {
                    assert(lists_of(out@) =~= before.push(l));
                    let rest = take_lists(b@.skip(end as int), (n - i - 1) as nat);
                    if rest is Some {
                        assert(before + (seq![l] + rest->Some_0.0) =~= lists_of(out@)
                            + rest->Some_0.0);
                    }
                }
                pos = end;
            },
        }
        i += 1;
    }
    assert(lists_of(out@) + Seq::<Seq<u32>>::empty() =~= lists_of(out@));
    Some((out, pos))
}

fn append_words(out: &mut Vec<u8>, ws: &Vec<u32>)
    ensures
        final(out)@ == old(out)@ + words(ws@),
{
    let ghost start = out@;
    let mut i: usize = 0;
    assert(ws@.skip(0) =~= ws@);
    while i < ws.len()
        invariant
            i <= ws@.len(),
            out@ + words(ws@.skip(i as int)) == start + words(ws@),
        decreases ws@.len() - i,
    {
        let ghost before = out@;
        append_bytes(out, u32_to_le_bytes(ws[i]).as_slice());
        proof {
            assert(ws@.skip(i as int)[0] == ws@[i as int]);
            assert(ws@.skip(i as int).drop_first() =~= ws@.skip(i + 1));
            assert(before + words(ws@.skip(i as int)) =~= out@ + words(ws@.skip(i + 1)));
        }
        i += 1;
    }
    assert(ws@.skip(i as int) =~= Seq::empty());
    assert(out@ + words(Seq::empty()) =~= out@);
}

impl HnswNode {
    /// A node without links, with one pending version.
    pub fn new(id: Vec<u8>, vector: Vec<u32>, layer: usize, tx_id: TransactionId) -> (r: Self)
        requires
            layer < usize::MAX,
        ensures
            r@ == (NodeView {
                id: id@,
                vector: vector@,
                layer,
                neighbors: Seq::new((layer + 1) as nat, |i: int| Seq::<u32>::empty()),
                versions: seq![pending(Seq::empty(), tx_id)],
            }),
    {
        let mut neighbors: Vec<Vec<u32>> = Vec::new();
        let mut i: usize = 0;
        while i < layer + 1
            invariant
                i <= layer + 1,
                layer < usize::MAX,
                neighbors@.len() == i,
                forall|j: int| 0 <= j < i ==> (#[trigger] neighbors@[j])@ == Seq::<u32>::empty(),
            decreases layer + 1 - i,
        {
            neighbors.push(Vec::new());
            i += 1;
        }
        let nothing: Vec<u8> = Vec::new();
        assert(nothing@ =~= Seq::<u8>::empty());
        let version_chain = VersionChain::new(nothing, tx_id);
        assert(lists_of(neighbors@) =~= Seq::new((layer + 1) as nat, |i: int| Seq::<u32>::empty()));
        HnswNode { id, vector, layer, neighbors, version_chain }
    }

    /// Whether the snapshot sees the node: the version that it sees marks no deletion.
    pub fn is_visible(&self, snapshot: &Snapshot) -> (r: bool)
        ensures
            r == self@.seen_at(moment(snapshot)),
    {
        match self.version_chain.find_visible_version(snapshot) {
            Some(value) => {
                let marked: bool = value.len() == 1 && value[0] == 0xFF;
                assert(marked == (value@ =~= tombstone_marker()));
                !marked
            },
            None => false,
        }
    }

    /// Adds a pending version that marks the node as deleted.
    pub fn prepend_tombstone(&mut self, tx_id: TransactionId)
        ensures
            final(self)@ == (NodeView {
                versions: seq![pending(tombstone_marker(), tx_id)] + old(self)@.versions,
                ..old(self)@
            }),
    {
        let mut marker: Vec<u8> = Vec::new();
        marker.push(0xFF);
        assert(marker@ =~= tombstone_marker());
        let mut chain = VersionChain::new(Vec::new(), tx_id);
        core::mem::swap(&mut chain, &mut self.version_chain);
        self.version_chain = chain.prepend(marker, tx_id);
    }

    /// The node as bytes.
    pub fn serialize(&self) -> (r: Vec<u8>)
        ensures
            r@ == node_bytes(self@),
            parse_chain(chain_bytes(self@.versions)) == Some(self@.versions),
    {
        let mut out: Vec<u8> = Vec::new();
        append_bytes(&mut out, u32_to_le_bytes(self.id.len() as u32).as_slice());
        append_bytes(&mut out, self.id.as_slice());
        append_bytes(&mut out, u32_to_le_bytes(self.vector.len() as u32).as_slice());
        append_words(&mut out, &self.vector);
        append_bytes(&mut out, u32_to_le_bytes(self.layer as u32).as_slice());
        append_bytes(&mut out, u32_to_le_bytes(self.neighbors.len() as u32).as_slice());
        let ghost front = out@;
        let ghost lists = lists_of(self.neighbors@);
        let mut i: usize = 0;
        assert(lists.skip(0) =~= lists);
        while i < self.neighbors.len()
            invariant
                i <= self.neighbors@.len(),
                lists == lists_of(self.neighbors@),
                out@ + list_bytes(lists.skip(i as int)) == front + list_bytes(lists),
            decreases self.neighbors@.len() - i,
        {
            let ghost before = out@;
            append_bytes(&mut out, u32_to_le_bytes(self.neighbors[i].len() as u32).as_slice());
            append_words(&mut out, &self.neighbors[i]);
            proof {
                assert(lists.skip(i as int)[0] == lists[i as int]);
                assert(lists.skip(i as int).drop_first() =~= lists.skip(i + 1));
                assert(before + list_bytes(lists.skip(i as int)) =~= out@ + list_bytes(
                    lists.skip(i + 1),
                ));
            }
            i += 1;
        }
        assert(lists.skip(i as int) =~= Seq::empty());
        assert(out@ + list_bytes(Seq::empty()) =~= out@);
        let chain = write_chain(&self.version_chain);
        proof {
            assert(chain@ + Seq::<u8>::empty() =~= chain@);
            assert(parse_chain(chain@ + Seq::<u8>::empty()) == Some(self.version_chain@));
        }
        append_bytes(&mut out, u32_to_le_bytes(chain.len() as u32).as_slice());
        append_bytes(&mut out, chain.as_slice());
        assert(out@ =~= node_bytes(self@));
        out
    }

    /// The node that a byte string starts with.
    pub fn deserialize(b: &[u8]) -> (r: Option<HnswNode>)
        ensures
            match r {
                Some(n) => parse_node(b@) == Some(n@),
                None => parse_node(b@) is None,
            },
    {
        assert(b@.skip(0) =~= b@);
        let (id_len, p1) = match read_u32(b, 0) {
            Some(t) => t,
            None => return None,
        };
        if ((b.len() - p1) as u64) < id_len as u64 {
            return None;
        }
        let p2: usize = p1 + id_len as usize;
        let id = sub_bytes(b, p1, p2);
        proof {
            assert(id@ =~= b@.skip(p1 as int).take(id_len as int));
            assert(b@.skip(p1 as int).skip(id_len as int) =~= b@.skip(p2 as int));
        }
        let (dims, p3) = match read_u32(b, p2) {
            Some(t) => t,
            None => return None,
        };
        let (vector, p4) = match read_words(b, p3, dims) {
            Some(t) => t,
            None => return None,
        };
        let (layer, p5) = match read_u32(b, p4) {
            Some(t) => t,
            None => return None,
        };
        let (layers, p6) = match read_u32(b, p5) {
            Some(t) => t,
            None => return None,
        };
        let (neighbors, p7) = match read_lists(b, p6, layers) {
            Some(t) => t,
            None => return None,
        };
        let (chain_len, p8) = match read_u32(b, p7) {
            Some(t) => t,
            None => return None,
        };
        if ((b.len() - p8) as u64) < chain_len as u64 {
            return None;
        }
        let chain = vstd::slice::slice_subrange(b, p8, p8 + chain_len as usize);
        proof {
            assert(chain@ =~= b@.skip(p8 as int).take(chain_len as int));
        }
        match read_chain(chain) {
            Some(version_chain) => Some(
                HnswNode { id, vector, layer: layer as usize, neighbors, version_chain },
            ),
            None => None,
        }
    }
}

/// The pages after a node was written to one of them.
pub open spec fn with_node(pages: Map<u64, PageView>, id: u32, n: NodeView) -> Map<u64, PageView> {
    pages.insert(
        id as u64,
        PageView { page_type: PageType::VectorIndex, data: node_bytes(n) },
    )
}

/// Reads a node.
pub fn load_node(pager: &Pager, id: u32) -> (r: TableResult<HnswNode>)
    requires
        pager.wf(),
    ensures
        r is Ok <==> node_at(pager.pages(), id) is Ok,
        r matches Ok(n) ==> node_at(pager.pages(), id)->Ok_0 == n@,
        r matches Err(e) ==> node_at(pager.pages(), id)->Err_0 == e,
{
    let page = match pager.read_page(PageId(id as u64)) {
        Ok(p) => p,
        Err(e) => return Err(TableError::Pager(e)),
    };
    match HnswNode::deserialize(page.data.as_slice()) {
        Some(n) => Ok(n),
        None => Err(TableError::Corruption(Corruption::InvalidVectorNode(PageId(id as u64)))),
    }
}

/// Writes a node over the one in its page. One that does not fit the page is refused.
pub fn update_node(pager: &mut Pager, id: u32, node: &HnswNode) -> (r: TableResult<()>)
    requires
        old(pager).wf(),
        node.layer <= u32::MAX,
    ensures
        final(pager).wf(),
        final(pager).same_meta(old(pager)),
        final(pager).slots@.len() == old(pager).slots@.len(),
        r is Ok <==> old(pager).pages().contains_key(id as u64) && node_bytes(node@).len() <= old(pager).capacity(),
        r is Ok ==> final(pager).pages() == with_node(old(pager).pages(), id, node@) && node_at(
            final(pager).pages(),
            id,
        ) == Ok::<NodeView, TableError>(node@),
        r is Err ==> final(pager).pages() == old(pager).pages(),
        r matches Err(e) ==> e is Pager && (old(pager).pages().contains_key(id as u64) ==> e
            == TableError::Pager(
            PagerError::PageOverflow {
                page_id: PageId(id as u64),
                len: node_bytes(node@).len() as usize,
                capacity: old(pager).capacity() as usize,
            },
        )),
{
    let data = node.serialize();
    let page = Page { id: PageId(id as u64), page_type: PageType::VectorIndex, data };
    match pager.write_page(page) {
        Ok(()) => {
            proof {
                assert(node_bytes(node@) + Seq::<u8>::empty() =~= node_bytes(node@));
                law_node_is_read_back(node@, Seq::empty());
            }
            Ok(())
        },
        Err(e) => Err(TableError::Pager(e)),
    }
}

/// Writes a node to a new page. One that does not fit a page is refused; its page stays empty.
pub fn store_node(pager: &mut Pager, node: &HnswNode) -> (r: TableResult<u32>)
    requires
        old(pager).wf(),
        node.layer <= u32::MAX,
        old(pager).slots@.len() <= u32::MAX,
    ensures
        final(pager).wf(),
        final(pager).same_meta(old(pager)),
        forall|p: u64| #[trigger]
            old(pager).pages().contains_key(p) ==> final(pager).pages().contains_key(p) && final(pager).pages()[p] == old(pager).pages()[p],
        r is Ok <==> node_bytes(node@).len() <= old(pager).capacity(),
        r matches Ok(id) ==> id != 0 && !old(pager).pages().contains_key(id as u64) && final(pager).pages() == with_node(old(pager).pages(), id, node@) && node_at(final(pager).pages(), id)
            == Ok::<NodeView, TableError>(node@),
        r matches Err(e) ==> e matches TableError::Pager(PagerError::PageOverflow { .. }),
{
    let page_id = pager.allocate_page(PageType::VectorIndex);
    let id: u32 = page_id.0 as u32;
    let ghost mid = pager.pages();
    match update_node(pager, id, node) {
        Ok(()) => {
            proof {
                assert(pager.pages() =~= with_node(old(pager).pages(), id, node@));
            }
            Ok(id)
        },
        Err(e) => Err(e),
    }
}

} // verus!
