//! Merging and evening out neighbouring nodes of a paged B-tree.
use crate::btree::node::{
    bumped, inner_keys, inner_kids, leaf_chains, leaf_keys, node_bytes, parse_node, BTreeNode,
    InternalEntry, LeafEntry, Node, PageVersion,
};
use crate::btree::paged::{first_at, nodes, page_of, PagedBTree};
use crate::btree::tree::{leaf_lookup, lemma_leaf_entry, lemma_leaf_found};
use crate::bytemap::ascending;
use crate::bytes::{copy_bytes, lemma_lex_asymmetric, lemma_lex_irreflexive, lex_lt};
use crate::pager::{PageId, PageView, Pager, PagerError};
use crate::table::{Corruption, TableError, TableResult};
use crate::txn::Version;
use vstd::prelude::*;

verus! {

/// The pages of a store.
pub type Pages = Map<u64, PageView>;

/// What reading a node gives.
pub open spec fn read_result(pages: Pages, id: PageId) -> Result<Node, TableError> {
    if !pages.contains_key(id.0) {
        Err(TableError::Pager(PagerError::PageNotFound(id)))
    } else {
        match parse_node(pages[id.0].data) {
            Ok(n) => Ok(n),
            Err(e) => Err(TableError::Corruption(e)),
        }
    }
}

/// The pages after a node was written to an allocated page, and what came of it.
pub open spec fn write_result(pages: Pages, capacity: nat, id: PageId, n: Node) -> (
    Pages,
    Result<(), TableError>,
) {
    if !pages.contains_key(id.0) {
        (pages, Err(TableError::Pager(PagerError::PageNotFound(id))))
    } else if node_bytes(n).len() <= capacity {
        (pages.insert(id.0, page_of(n)), Ok(()))
    } else {
        (
            pages,
            Err(
                TableError::Pager(
                    PagerError::PageOverflow {
                        page_id: id,
                        len: node_bytes(n).len() as usize,
                        capacity: capacity as usize,
                    },
                ),
            ),
        )
    }
}

/// Two neighbours as one node: the separator comes between the keys of internal nodes.
pub open spec fn merged(left: Node, right: Node, separator: Seq<u8>) -> Node {
    match left {
        Node::Internal { version, keys, kids } => Node::Internal {
            version: bumped(version),
            keys: keys.push(separator) + right->Internal_keys,
            kids: kids + right->kids,
        },
        Node::Leaf { version, keys, chains, next } => Node::Leaf {
            version: bumped(version),
            keys: keys + right->Leaf_keys,
            chains: chains + right->chains,
            next: right->next,
        },
    }
}

/// Two neighbours are of one type, and together no larger than a node may be.
pub open spec fn can_merge(left: Node, right: Node, max_order: int) -> bool {
    ||| left is Internal && right is Internal && left.keys().len() + right.keys().len() + 1
        <= max_order
    ||| left is Leaf && right is Leaf && left.keys().len() + right.keys().len() <= max_order
}

/// The pages after an attempt to merge two neighbours, and what came of it.
pub open spec fn merge_result(
    pages: Pages,
    capacity: nat,
    max_order: int,
    left: PageId,
    right: PageId,
    separator: Seq<u8>,
) -> (Pages, Result<bool, TableError>) {
    match (read_result(pages, left), read_result(pages, right)) {
        (Err(e), _) => (pages, Err(e)),
        (_, Err(e)) => (pages, Err(e)),
        (Ok(l), Ok(r)) => if !can_merge(l, r, max_order) {
            (pages, Ok(false))
        } else {
            match write_result(pages, capacity, left, merged(l, r, separator)) {
                (p, Ok(())) => (p.remove(right.0), Ok(true)),
                (p, Err(e)) => (p, Err(e)),
            }
        },
    }
}

/// The number of keys that the left one of two neighbours has once they are evened out.
pub open spec fn even_share(left: Node, right: Node) -> int {
    (left.keys().len() + right.keys().len()) as int / 2
}

/// Two neighbours evened out, and their new separator; nothing where they are even already or of
/// different types.
///
/// Leaves share their entries out; the first key of the right one becomes the separator. Internal
/// nodes share theirs out with the separator between them, and the key in the middle takes its
/// place.
pub open spec fn evened(left: Node, right: Node, separator: Seq<u8>) -> Option<
    (Node, Node, Seq<u8>),
> {
    let share = even_share(left, right);
    match (left, right) {
        (
            Node::Leaf { version: lv, keys: lk, chains: lc, next: ln },
            Node::Leaf { version: rv, keys: rk, chains: rc, next: rn },
        ) => if lk.len() == share {
            None
        } else {
            Some(
                (
                    Node::Leaf {
                        version: bumped(lv),
                        keys: (lk + rk).take(share),
                        chains: (lc + rc).take(share),
                        next: ln,
                    },
                    Node::Leaf {
                        version: bumped(rv),
                        keys: (lk + rk).skip(share),
                        chains: (lc + rc).skip(share),
                        next: rn,
                    },
                    (lk + rk)[share],
                ),
            )
        },
        (
            Node::Internal { version: lv, keys: lk, kids: lc },
            Node::Internal { version: rv, keys: rk, kids: rc },
        ) => if lk.len() == share {
            None
        } else {
            let keys = lk.push(separator) + rk;
            let kids = lc + rc;
            Some(
                (
                    Node::Internal {
                        version: bumped(lv),
                        keys: keys.take(share),
                        kids: kids.take(share + 1),
                    },
                    Node::Internal {
                        version: bumped(rv),
                        keys: keys.skip(share + 1),
                        kids: kids.skip(share + 1),
                    },
                    keys[share],
                ),
            )
        },
        _ => None,
    }
}

/// The pages after an attempt to even two neighbours out, and what came of it.
pub open spec fn even_result(
    pages: Pages,
    capacity: nat,
    left: PageId,
    right: PageId,
    separator: Seq<u8>,
) -> (Pages, Result<Option<Seq<u8>>, TableError>) {
    match (read_result(pages, left), read_result(pages, right)) {
        (Err(e), _) => (pages, Err(e)),
        (_, Err(e)) => (pages, Err(e)),
        (Ok(l), Ok(r)) => match evened(l, r, separator) {
            None => (pages, Ok(None)),
            Some((l2, r2, s2)) => match write_result(pages, capacity, left, l2) {
                (p1, Err(e)) => (p1, Err(e)),
                (p1, Ok(())) => match write_result(p1, capacity, right, r2) {
                    (p2, Err(e)) => (p2, Err(e)),
                    (p2, Ok(())) => (p2, Ok(Some(s2))),
                },
            },
        },
    }
}

/// The pages after the separator in front of a child was replaced, and what came of it.
pub open spec fn separator_result(
    pages: Pages,
    capacity: nat,
    parent: PageId,
    child: PageId,
    key: Seq<u8>,
) -> (Pages, Result<(), TableError>) {
    let missing = TableError::Corruption(Corruption::MissingChild { parent, child });
    match read_result(pages, parent) {
        Err(e) => (pages, Err(e)),
        Ok(Node::Internal { version, keys, kids }) => {
            let i = first_at(kids, child.0, 1);
            if i < kids.len() {
                write_result(
                    pages,
                    capacity,
                    parent,
                    Node::Internal { version, keys: keys.update(i - 1, key), kids },
                )
            } else {
                (pages, Err(missing))
            }
        },
        Ok(_) => (pages, Err(missing)),
    }
}

/// A parent without separator `at` and the child behind it.
pub open spec fn without_separator(parent: Node, at: int) -> Node {
    Node::Internal {
        version: parent->Internal_version,
        keys: parent->Internal_keys.remove(at),
        kids: parent->kids.remove(at + 1),
    }
}

/// The pages after a leaf and a neighbour were evened out, or else merged, and whether either was
/// done. `at` is the separator between them.
pub open spec fn balance_result(
    pages: Pages,
    capacity: nat,
    max_order: int,
    parent: PageId,
    left: PageId,
    right: PageId,
    at: int,
    separator: Seq<u8>,
) -> (Pages, Result<bool, TableError>) {
    match even_result(pages, capacity, left, right, separator) {
        (p1, Err(e)) => (p1, Err(e)),
        (p1, Ok(Some(s2))) => match separator_result(p1, capacity, parent, right, s2) {
            (p2, Ok(())) => (p2, Ok(true)),
            (p2, Err(e)) => (p2, Err(e)),
        },
        (p1, Ok(None)) => match merge_result(p1, capacity, max_order, left, right, separator) {
            (p2, Err(e)) => (p2, Err(e)),
            (p2, Ok(false)) => (p2, Ok(false)),
            (p2, Ok(true)) => match read_result(p2, parent) {
                Err(e) => (p2, Err(e)),
                Ok(Node::Internal { version, keys, kids }) => if at < keys.len() {
                    match write_result(
                        p2,
                        capacity,
                        parent,
                        without_separator(Node::Internal { version, keys, kids }, at),
                    ) {
                        (p3, Ok(())) => (p3, Ok(true)),
                        (p3, Err(e)) => (p3, Err(e)),
                    }
                } else {
                    (p2, Ok(false))
                },
                Ok(_) => (p2, Ok(false)),
            },
        },
    }
}

/// The pages after a leaf was balanced against its left neighbour or, failing that, its right one,
/// and what came of it.
pub open spec fn rebalance_result(
    pages: Pages,
    capacity: nat,
    max_order: int,
    leaf: PageId,
    parent: PageId,
) -> (Pages, Result<(), TableError>) {
    match read_result(pages, parent) {
        Err(e) => (pages, Err(e)),
        Ok(Node::Leaf { .. }) => (
            pages,
            Err(TableError::Corruption(Corruption::ParentNotInternal(parent))),
        ),
        Ok(Node::Internal { version, keys, kids }) => {
            let i = first_at(kids, leaf.0, 0);
            if i >= kids.len() {
                (
                    pages,
                    Err(
                        TableError::Corruption(Corruption::MissingChild { parent, child: leaf }),
                    ),
                )
            } else {
                let first = if i > 0 {
                    balance_result(
                        pages,
                        capacity,
                        max_order,
                        parent,
                        PageId(kids[i - 1]),
                        leaf,
                        i - 1,
                        keys[i - 1],
                    )
                } else {
                    (pages, Ok(false))
                };
                match first {
                    (p, Err(e)) => (p, Err(e)),
                    (p, Ok(true)) => (p, Ok(())),
                    (p, Ok(false)) => if i + 1 < kids.len() {
                        match balance_result(
                            p,
                            capacity,
                            max_order,
                            parent,
                            leaf,
                            PageId(kids[i + 1]),
                            i,
                            keys[i],
                        ) {
                            (p, Err(e)) => (p, Err(e)),
                            (p, Ok(_)) => (p, Ok(())),
                        }
                    } else {
                        (p, Ok(()))
                    },
                }
            }
        },
    }
}

/// Every key of `a` comes before every key of `b`.
pub open spec fn all_before(a: Seq<Seq<u8>>, b: Seq<Seq<u8>>) -> bool {
    forall|i: int, j: int|
        0 <= i < a.len() && 0 <= j < b.len() ==> lex_lt(#[trigger] a[i], #[trigger] b[j])
}

/// Two leaves in order hold together what their entries one after the other hold.
pub proof fn lemma_joined(
    lk: Seq<Seq<u8>>,
    lc: Seq<Seq<Version>>,
    rk: Seq<Seq<u8>>,
    rc: Seq<Seq<Version>>,
    k: Seq<u8>,
)
    requires
        ascending(lk),
        ascending(rk),
        lk.len() == lc.len(),
        rk.len() == rc.len(),
        all_before(lk, rk),
    ensures
        ascending(lk + rk),
        leaf_lookup(lk + rk, lc + rc, k) == (if leaf_lookup(lk, lc, k) is Some {
            leaf_lookup(lk, lc, k)
        } else {
            leaf_lookup(rk, rc, k)
        }),
{
    let keys = lk + rk;
    let chains = lc + rc;
    assert forall|i: int, j: int| 0 <= i < j < keys.len() implies lex_lt(
        #[trigger] keys[i],
        #[trigger] keys[j],
    ) by {
        if j < lk.len() {
            assert(lex_lt(lk[i], lk[j]));
        } else if i >= lk.len() {
            assert(lex_lt(rk[i - lk.len()], rk[j - lk.len()]));
        } else {
            assert(lex_lt(lk[i], rk[j - lk.len()]));
        }
    }
    if leaf_lookup(lk, lc, k) is Some {
        let i = lemma_leaf_found(lk, lc, k);
        assert(keys[i] == k);
        lemma_leaf_entry(keys, chains, i);
    } else if leaf_lookup(rk, rc, k) is Some {
        let i = lemma_leaf_found(rk, rc, k);
        assert(keys[lk.len() + i] == k);
        lemma_leaf_entry(keys, chains, lk.len() + i);
    } else if leaf_lookup(keys, chains, k) is Some {
        let i = lemma_leaf_found(keys, chains, k);
        if i < lk.len() {
            lemma_leaf_entry(lk, lc, i);
        } else {
            lemma_leaf_entry(rk, rc, i - lk.len());
        }
    }
}

/// Merging two leaves in order neither loses nor adds anything.
pub proof fn law_merge_keeps_entries(left: Node, right: Node, separator: Seq<u8>, k: Seq<u8>)
    requires
        left is Leaf,
        right is Leaf,
        ascending(left->Leaf_keys),
        ascending(right->Leaf_keys),
        left->Leaf_keys.len() == left->chains.len(),
        right->Leaf_keys.len() == right->chains.len(),
        all_before(left->Leaf_keys, right->Leaf_keys),
    ensures
        ascending(merged(left, right, separator)->Leaf_keys),
        leaf_lookup(
            merged(left, right, separator)->Leaf_keys,
            merged(left, right, separator)->chains,
            k,
        ) == (if leaf_lookup(left->Leaf_keys, left->chains, k) is Some {
            leaf_lookup(left->Leaf_keys, left->chains, k)
        } else {
            leaf_lookup(right->Leaf_keys, right->chains, k)
        }),
{
    lemma_joined(left->Leaf_keys, left->chains, right->Leaf_keys, right->chains, k);
}

/// Evening two leaves out neither loses nor adds anything: what was in either is in the left one
/// if it is before the new separator, and else in the right one.
pub proof fn law_evening_keeps_entries(left: Node, right: Node, separator: Seq<u8>, k: Seq<u8>)
    requires
        left is Leaf,
        right is Leaf,
        ascending(left->Leaf_keys),
        ascending(right->Leaf_keys),
        left->Leaf_keys.len() == left->chains.len(),
        right->Leaf_keys.len() == right->chains.len(),
        all_before(left->Leaf_keys, right->Leaf_keys),
        evened(left, right, separator) is Some,
    ensures
        ({
            let (l2, r2, s2) = evened(left, right, separator)->Some_0;
            let before = if leaf_lookup(left->Leaf_keys, left->chains, k) is Some {
                leaf_lookup(left->Leaf_keys, left->chains, k)
            } else {
                leaf_lookup(right->Leaf_keys, right->chains, k)
            };
            before == (if lex_lt(k, s2) {
                leaf_lookup(l2->Leaf_keys, l2->chains, k)
            } else {
                leaf_lookup(r2->Leaf_keys, r2->chains, k)
            })
        }),
{
    let lk = left->Leaf_keys;
    let rk = right->Leaf_keys;
    let keys = lk + rk;
    let chains = left->chains + right->chains;
    let share = even_share(left, right);
    lemma_joined(lk, left->chains, rk, right->chains, k);
    let a = keys.take(share);
    let b = keys.skip(share);
    let ac = chains.take(share);
    let bc = chains.skip(share);
    let s2 = keys[share];
    assert forall|i: int, j: int| 0 <= i < j < a.len() implies lex_lt(
        #[trigger] a[i],
        #[trigger] a[j],
    ) by {
        assert(lex_lt(keys[i], keys[j]));
    }
    assert forall|i: int, j: int| 0 <= i < j < b.len() implies lex_lt(
        #[trigger] b[i],
        #[trigger] b[j],
    ) by {
        assert(lex_lt(keys[share + i], keys[share + j]));
    }
    if leaf_lookup(keys, chains, k) is Some {
        let i = lemma_leaf_found(keys, chains, k);
        if i < share {
            assert(lex_lt(keys[i], keys[share]));
            lemma_leaf_entry(a, ac, i);
        } else {
            if i == share {
                lemma_lex_irreflexive(k);
            } else {
                assert(lex_lt(keys[share], keys[i]));
                lemma_lex_asymmetric(s2, k);
            }
            lemma_leaf_entry(b, bc, i - share);
        }
    } else if lex_lt(k, s2) {
        if leaf_lookup(a, ac, k) is Some {
            let i = lemma_leaf_found(a, ac, k);
            lemma_leaf_entry(keys, chains, i);
        }
    } else if leaf_lookup(b, bc, k) is Some {
        let i = lemma_leaf_found(b, bc, k);
        lemma_leaf_entry(keys, chains, share + i);
    }
}

/// Evening two internal nodes out keeps their children and keys in order, with the new separator
/// where the nodes meet: what was ascending stays so, and every key left of the separator is
/// before it and every key right of it behind it.
pub proof fn law_evening_keeps_children(left: Node, right: Node, separator: Seq<u8>)
    requires
        left is Internal,
        right is Internal,
        left->kids.len() == left->Internal_keys.len() + 1,
        right->kids.len() == right->Internal_keys.len() + 1,
        ascending(left->Internal_keys.push(separator) + right->Internal_keys),
        evened(left, right, separator) is Some,
    ensures
        ({
            let (l2, r2, s2) = evened(left, right, separator)->Some_0;
            let keys = left->Internal_keys.push(separator) + right->Internal_keys;
            &&& l2->Internal_keys.push(s2) + r2->Internal_keys == keys
            &&& l2->kids + r2->kids == left->kids + right->kids
            &&& l2->kids.len() == l2->Internal_keys.len() + 1
            &&& r2->kids.len() == r2->Internal_keys.len() + 1
            &&& forall|i: int|
                0 <= i < l2->Internal_keys.len() ==> lex_lt(#[trigger] l2->Internal_keys[i], s2)
            &&& forall|i: int|
                0 <= i < r2->Internal_keys.len() ==> lex_lt(s2, #[trigger] r2->Internal_keys[i])
        }),
{
    let (l2, r2, s2) = evened(left, right, separator)->Some_0;
    let keys = left->Internal_keys.push(separator) + right->Internal_keys;
    let share = even_share(left, right);
    assert(l2->Internal_keys.push(s2) + r2->Internal_keys =~= keys);
    assert(l2->kids + r2->kids =~= left->kids + right->kids);
    assert forall|i: int| 0 <= i < l2->Internal_keys.len() implies lex_lt(
        #[trigger] l2->Internal_keys[i],
        s2,
    ) by {
        assert(lex_lt(keys[i], keys[share]));
    }
    assert forall|i: int| 0 <= i < r2->Internal_keys.len() implies lex_lt(
        s2,
        #[trigger] r2->Internal_keys[i],
    ) by {
        assert(lex_lt(keys[share], keys[share + 1 + i]));
    }
}

/// The bytes of an optional key.
pub open spec fn key_view(r: TableResult<Option<Vec<u8>>>) -> Result<Option<Seq<u8>>, TableError> {
    match r {
        Ok(Some(v)) => Ok(Some(v@)),
        Ok(None) => Ok(None),
        Err(e) => Err(e),
    }
}

fn append_inner(into: &mut Vec<InternalEntry>, from: Vec<InternalEntry>)
    ensures
        final(into)@ == old(into)@ + from@,
{
    let mut from = from;
    into.append(&mut from);
}

fn append_leaf(into: &mut Vec<LeafEntry>, from: Vec<LeafEntry>)
    ensures
        final(into)@ == old(into)@ + from@,
{
    let mut from = from;
    into.append(&mut from);
}

impl PagedBTree {
    /// Merges the right one of two neighbours into the left one and releases its page. Returns
    /// whether that was done: not where they are of different types or together too large.
    pub fn merge_nodes(
        &self,
        pager: &mut Pager,
        left_page_id: PageId,
        right_page_id: PageId,
        separator_key: &[u8],
    ) -> (r: TableResult<bool>)
        requires
            old(pager).wf(),
        ensures
            final(pager).wf(),
            final(pager).same_meta(old(pager)),
            (final(pager).pages(), r) == merge_result(
                old(pager).pages(),
                old(pager).capacity(),
                self.max_order as int,
                left_page_id,
                right_page_id,
                separator_key@,
            ),
    {
        let left_node = match self.read_node(pager, left_page_id) {
            Ok(x) => x,
            Err(e) => {
                return Err(e);
            },
        };
        let right_node = match self.read_node(pager, right_page_id) {
            Ok(x) => x,
            Err(e) => {
                return Err(e);
            },
        };
        let ghost l = left_node@;
        let ghost rn = right_node@;
        match (left_node, right_node) {
            (
                BTreeNode::Internal { version, entries, rightmost_child },
                BTreeNode::Internal {
                    version: _,
                    entries: right_entries,
                    rightmost_child: right_rightmost,
                },
            ) => {
                if right_entries.len() >= self.max_order || entries.len() > self.max_order
                    - right_entries.len() - 1 {
                    return Ok(false);
                }
                let ghost le = entries@;
                let ghost re = right_entries@;
                let mut entries = entries;
                entries.push(
                    InternalEntry { key: copy_bytes(separator_key), child_page_id: rightmost_child },
                );
                append_inner(&mut entries, right_entries);
                let node = BTreeNode::Internal {
                    version: version.increment(),
                    entries,
                    rightmost_child: right_rightmost,
                };
                proof {
                    assert(inner_keys(entries@) =~= inner_keys(le).push(separator_key@)
                        + inner_keys(re));
                    assert(inner_kids(entries@).push(right_rightmost.0) =~= inner_kids(le).push(
                        rightmost_child.0,
                    ) + inner_kids(re).push(right_rightmost.0));
                    assert(node@ =~= merged(l, rn, separator_key@));
                }
                self.finish_merge(pager, left_page_id, right_page_id, &node)
            },
            (
                BTreeNode::Leaf { version, entries, next_leaf: _ },
                BTreeNode::Leaf { version: _, entries: right_entries, next_leaf: right_next },
            ) => {
                if right_entries.len() > self.max_order || entries.len() > self.max_order
                    - right_entries.len() {
                    return Ok(false);
                }
                let ghost le = entries@;
                let ghost re = right_entries@;
                let mut entries = entries;
                append_leaf(&mut entries, right_entries);
                let node = BTreeNode::Leaf {
                    version: version.increment(),
                    entries,
                    next_leaf: right_next,
                };
                proof {
                    assert(leaf_keys(entries@) =~= leaf_keys(le) + leaf_keys(re));
                    assert(leaf_chains(entries@) =~= leaf_chains(le) + leaf_chains(re));
                    assert(node@ =~= merged(l, rn, separator_key@));
                }
                self.finish_merge(pager, left_page_id, right_page_id, &node)
            },
            _ => Ok(false),
        }
    }

    fn finish_merge(
        &self,
        pager: &mut Pager,
        left_page_id: PageId,
        right_page_id: PageId,
        node: &BTreeNode,
    ) -> (r: TableResult<bool>)
        requires
            old(pager).wf(),
            old(pager).pages().contains_key(right_page_id.0),
        ensures
            final(pager).wf(),
            final(pager).same_meta(old(pager)),
            (final(pager).pages(), r) == (match write_result(
                old(pager).pages(),
                old(pager).capacity(),
                left_page_id,
                node@,
            ) {
                (p, Ok(())) => (p.remove(right_page_id.0), Ok(true)),
                (p, Err(e)) => (p, Err(e)),
            }),
    {
        match self.write_node(pager, left_page_id, node) {
            Ok(()) => {},
            Err(e) => {
                return Err(e);
            },
        }
        match pager.free_page(right_page_id) {
            Ok(()) => Ok(true),
            Err(e) => Err(TableError::Pager(e)),
        }
    }

    /// Evens out two neighbours. Returns their new separator, or nothing where they are even
    /// already or of different types.
    pub fn redistribute_keys(
        &self,
        pager: &mut Pager,
        left_page_id: PageId,
        right_page_id: PageId,
        separator_key: &[u8],
    ) -> (r: TableResult<Option<Vec<u8>>>)
        requires
            old(pager).wf(),
        ensures
            final(pager).wf(),
            final(pager).same_meta(old(pager)),
            (final(pager).pages(), key_view(r)) == even_result(
                old(pager).pages(),
                old(pager).capacity(),
                left_page_id,
                right_page_id,
                separator_key@,
            ),
    {
        let left_node = match self.read_node(pager, left_page_id) {
            Ok(x) => x,
            Err(e) => {
                return Err(e);
            },
        };
        let right_node = match self.read_node(pager, right_page_id) {
            Ok(x) => x,
            Err(e) => {
                return Err(e);
            },
        };
        match even_nodes(left_node, right_node, separator_key) {
            Some((new_left, new_right, separator)) => self.write_pair(
                pager,
                left_page_id,
                &new_left,
                right_page_id,
                &new_right,
                separator,
            ),
            None => Ok(None),
        }
    }

    fn write_pair(
        &self,
        pager: &mut Pager,
        left_page_id: PageId,
        left: &BTreeNode,
        right_page_id: PageId,
        right: &BTreeNode,
        separator: Vec<u8>,
    ) -> (r: TableResult<Option<Vec<u8>>>)
        requires
            old(pager).wf(),
        ensures
            final(pager).wf(),
            final(pager).same_meta(old(pager)),
            (final(pager).pages(), key_view(r)) == (match write_result(
                old(pager).pages(),
                old(pager).capacity(),
                left_page_id,
                left@,
            ) {
                (p1, Err(e)) => (p1, Err(e)),
                (p1, Ok(())) => match write_result(
                    p1,
                    old(pager).capacity(),
                    right_page_id,
                    right@,
                ) {
                    (p2, Err(e)) => (p2, Err(e)),
                    (p2, Ok(())) => (p2, Ok(Some(separator@))),
                },
            }),
    {
        match self.write_node(pager, left_page_id, left) {
            Ok(()) => {},
            Err(e) => {
                return Err(e);
            },
        }
        match self.write_node(pager, right_page_id, right) {
            Ok(()) => Ok(Some(separator)),
            Err(e) => Err(e),
        }
    }

    /// Replaces the separator in front of a child.
    pub fn update_separator_after_child_change(
        &self,
        pager: &mut Pager,
        parent_page_id: PageId,
        child_page_id: PageId,
        replacement_key: Vec<u8>,
    ) -> (r: TableResult<()>)
        requires
            old(pager).wf(),
        ensures
            final(pager).wf(),
            final(pager).same_meta(old(pager)),
            (final(pager).pages(), r) == separator_result(
                old(pager).pages(),
                old(pager).capacity(),
                parent_page_id,
                child_page_id,
                replacement_key@,
            ),
    {
        let node = match self.read_node(pager, parent_page_id) {
            Ok(x) => x,
            Err(e) => {
                return Err(e);
            },
        };
        let ghost key = replacement_key@;
        match node {
            BTreeNode::Internal { version, entries, rightmost_child } => {
                let ghost all = entries@;
                let ghost kids = inner_kids(all).push(rightmost_child.0);
                let n: usize = entries.len();
                let mut i: usize = 0;
                while i < n && kid_after_entry(&entries, rightmost_child, i) != child_page_id
                    invariant
                        i <= n == entries@.len(),
                        kids == inner_kids(entries@).push(rightmost_child.0),
                        first_at(kids, child_page_id.0, 1) == first_at(
                            kids,
                            child_page_id.0,
                            i + 1,
                        ),
                    decreases n - i,
                {
                    i += 1;
                }
                if i >= n {
                    assert(first_at(kids, child_page_id.0, 1) >= kids.len());
                    return Err(
                        TableError::Corruption(
                            Corruption::MissingChild {
                                parent: parent_page_id,
                                child: child_page_id,
                            },
                        ),
                    );
                }
                let mut entries = entries;
                let kid = entries[i].child_page_id;
                entries.set(i, InternalEntry { key: replacement_key, child_page_id: kid });
                let updated = BTreeNode::Internal { version, entries, rightmost_child };
                proof {
                    assert(kids[i + 1] == child_page_id.0);
                    assert(first_at(kids, child_page_id.0, 1) == i + 1);
                    assert(inner_keys(entries@) =~= inner_keys(all).update(i as int, key));
                    assert(inner_kids(entries@) =~= inner_kids(all));
                    assert(updated@ == (Node::Internal {
                        version: version.0,
                        keys: inner_keys(all).update(i as int, key),
                        kids,
                    }));
                }
                match self.write_node(pager, parent_page_id, &updated) {
                    Ok(()) => Ok(()),
                    Err(e) => Err(e),
                }
            },
            BTreeNode::Leaf { .. } => Err(
                TableError::Corruption(
                    Corruption::MissingChild { parent: parent_page_id, child: child_page_id },
                ),
            ),
        }
    }

    /// Evens two neighbours out or, failing that, merges them and takes their separator out of the
    /// parent. Returns whether either was done.
    fn balance_pair(
        &self,
        pager: &mut Pager,
        parent_page_id: PageId,
        left: PageId,
        right: PageId,
        at: usize,
        separator: &[u8],
    ) -> (r: TableResult<bool>)
        requires
            old(pager).wf(),
        ensures
            final(pager).wf(),
            final(pager).same_meta(old(pager)),
            (final(pager).pages(), r) == balance_result(
                old(pager).pages(),
                old(pager).capacity(),
                self.max_order as int,
                parent_page_id,
                left,
                right,
                at as int,
                separator@,
            ),
    {
        match self.redistribute_keys(pager, left, right, separator) {
            Err(e) => {
                return Err(e);
            },
            Ok(Some(new_separator)) => {
                return match self.update_separator_after_child_change(
                    pager,
                    parent_page_id,
                    right,
                    new_separator,
                ) {
                    Ok(()) => Ok(true),
                    Err(e) => Err(e),
                };
            },
            Ok(None) => {},
        }
        match self.merge_nodes(pager, left, right, separator) {
            Err(e) => {
                return Err(e);
            },
            Ok(false) => {
                return Ok(false);
            },
            Ok(true) => {},
        }
        let node = match self.read_node(pager, parent_page_id) {
            Ok(x) => x,
            Err(e) => {
                return Err(e);
            },
        };
        match node {
            BTreeNode::Internal { version, entries, rightmost_child } => {
                let ghost all = entries@;
                if at >= entries.len() {
                    return Ok(false);
                }
                let ghost kids = inner_kids(all).push(rightmost_child.0);
                let mut entries = entries;
                let gone = entries.remove(at);
                let mut rightmost_child = rightmost_child;
                if at < entries.len() {
                    let key = copy_bytes(entries[at].key.as_slice());
                    entries.set(at, InternalEntry { key, child_page_id: gone.child_page_id });
                } else {
                    rightmost_child = gone.child_page_id;
                }
                let updated = BTreeNode::Internal { version, entries, rightmost_child };
                proof {
                    let whole = node@;
                    assert(inner_keys(entries@) =~= inner_keys(all).remove(at as int));
                    assert(inner_kids(entries@).push(rightmost_child.0) =~= kids.remove(at + 1));
                    assert(updated@ =~= without_separator(whole, at as int));
                }
                match self.write_node(pager, parent_page_id, &updated) {
                    Ok(()) => Ok(true),
                    Err(e) => Err(e),
                }
            },
            BTreeNode::Leaf { .. } => Ok(false),
        }
    }

    /// Balances a leaf against its left neighbour or, failing that, its right one. `path` is the
    /// way to the leaf: each parent with the child that was followed.
    pub fn rebalance_leaf_after_delete(
        &self,
        pager: &mut Pager,
        leaf_page_id: PageId,
        path: &Vec<(PageId, PageId)>,
    ) -> (r: TableResult<()>)
        requires
            old(pager).wf(),
        ensures
            final(pager).wf(),
            final(pager).same_meta(old(pager)),
            (final(pager).pages(), r) == (if path@.len() == 0 {
                (old(pager).pages(), Ok(()))
            } else {
                rebalance_result(
                    old(pager).pages(),
                    old(pager).capacity(),
                    self.max_order as int,
                    leaf_page_id,
                    path@.last().0,
                )
            }),
    {
        if path.len() == 0 {
            return Ok(());
        }
        let parent_page_id = path[path.len() - 1].0;
        let node = match self.read_node(pager, parent_page_id) {
            Ok(x) => x,
            Err(e) => {
                return Err(e);
            },
        };
        let ghost pages = pager.pages();
        match node {
            BTreeNode::Leaf { .. } => Err(
                TableError::Corruption(Corruption::ParentNotInternal(parent_page_id)),
            ),
            BTreeNode::Internal { version: _, entries, rightmost_child } => {
                let ghost kids = inner_kids(entries@).push(rightmost_child.0);
                let n: usize = entries.len();
                let mut i: usize = 0;
                while i < n && entries[i].child_page_id != leaf_page_id
                    invariant
                        i <= n == entries@.len(),
                        kids == inner_kids(entries@).push(rightmost_child.0),
                        first_at(kids, leaf_page_id.0, 0) == first_at(
                            kids,
                            leaf_page_id.0,
                            i as int,
                        ),
                    decreases n - i,
                {
                    i += 1;
                }
                if i == n && rightmost_child != leaf_page_id {
                    proof {
                        assert(first_at(kids, leaf_page_id.0, n + 1) == n + 1);
                    }
                    return Err(
                        TableError::Corruption(
                            Corruption::MissingChild {
                                parent: parent_page_id,
                                child: leaf_page_id,
                            },
                        ),
                    );
                }
                assert(first_at(kids, leaf_page_id.0, 0) == i);
                if i > 0 {
                    let left = entries[i - 1].child_page_id;
                    assert(left.0 == kids[i - 1]);
                    match self.balance_pair(
                        pager,
                        parent_page_id,
                        left,
                        leaf_page_id,
                        i - 1,
                        entries[i - 1].key.as_slice(),
                    ) {
                        Err(e) => {
                            return Err(e);
                        },
                        Ok(true) => {
                            return Ok(());
                        },
                        Ok(false) => {},
                    }
                }
                if i < n {
                    let right = if i + 1 < n {
                        entries[i + 1].child_page_id
                    } else {
                        rightmost_child
                    };
                    assert(right.0 == kids[i + 1]);
                    match self.balance_pair(
                        pager,
                        parent_page_id,
                        leaf_page_id,
                        right,
                        i,
                        entries[i].key.as_slice(),
                    ) {
                        Err(e) => {
                            return Err(e);
                        },
                        Ok(_) => {},
                    }
                }
                Ok(())
            },
        }
    }
}

/// Two neighbours evened out, and their new separator.
fn even_nodes(left: BTreeNode, right: BTreeNode, separator: &[u8]) -> (r: Option<
    (BTreeNode, BTreeNode, Vec<u8>),
>)
    ensures
        even_view(r) == evened(left@, right@, separator@),
{
    match (left, right) {
        (
            BTreeNode::Internal { version: lv, entries: le, rightmost_child: lr },
            BTreeNode::Internal { version: rv, entries: re, rightmost_child: rr },
        ) => even_inner(lv, le, lr, rv, re, rr, separator),
        (
            BTreeNode::Leaf { version: lv, entries: le, next_leaf: ln },
            BTreeNode::Leaf { version: rv, entries: re, next_leaf: rn },
        ) => even_leaves(lv, le, ln, rv, re, rn, separator),
        _ => None,
    }
}

/// What came of evening out, as the contracts speak of it.
pub open spec fn even_view(r: Option<(BTreeNode, BTreeNode, Vec<u8>)>) -> Option<
    (Node, Node, Seq<u8>),
> {
    match r {
        Some((l, r, s)) => Some((l@, r@, s@)),
        None => None,
    }
}

fn even_inner(
    left_version: PageVersion,
    left_entries: Vec<InternalEntry>,
    left_rightmost: PageId,
    right_version: PageVersion,
    right_entries: Vec<InternalEntry>,
    right_rightmost: PageId,
    separator: &[u8],
) -> (r: Option<(BTreeNode, BTreeNode, Vec<u8>)>)
    ensures
        even_view(r) == evened(
            (BTreeNode::Internal {
                version: left_version,
                entries: left_entries,
                rightmost_child: left_rightmost,
            })@,
            (BTreeNode::Internal {
                version: right_version,
                entries: right_entries,
                rightmost_child: right_rightmost,
            })@,
            separator@,
        ),
{
    let lc: usize = left_entries.len();
    let rc: usize = right_entries.len();
    let share: usize = half_of_sum(lc, rc);
    let ghost le = left_entries@;
    let ghost re = right_entries@;
    let ghost lk = inner_keys(le);
    let ghost rk = inner_keys(re);
    let ghost lkids = inner_kids(le).push(left_rightmost.0);
    let ghost rkids = inner_kids(re).push(right_rightmost.0);
    if lc < share {
        let to_move: usize = share - lc;
        let mut left_entries = left_entries;
        let mut moved = right_entries;
        let mut rest = moved.split_off(to_move - 1);
        left_entries.push(
            InternalEntry { key: copy_bytes(separator), child_page_id: left_rightmost },
        );
        append_inner(&mut left_entries, moved);
        let first = rest.remove(0);
        proof {
            let keys = lk.push(separator@) + rk;
            let kids = lkids + rkids;
            assert(inner_keys(left_entries@) =~= keys.take(share as int));
            assert(inner_kids(left_entries@).push(first.child_page_id.0) =~= kids.take(share + 1));
            assert(inner_keys(rest@) =~= keys.skip(share + 1));
            assert(inner_kids(rest@).push(right_rightmost.0) =~= kids.skip(share + 1));
            assert(keys[share as int] == first.key@);
        }
        Some(
            (
                BTreeNode::Internal {
                    version: left_version.increment(),
                    entries: left_entries,
                    rightmost_child: first.child_page_id,
                },
                BTreeNode::Internal {
                    version: right_version.increment(),
                    entries: rest,
                    rightmost_child: right_rightmost,
                },
                first.key,
            ),
        )
    } else if lc == share {
        None
    } else {
        let mut left_entries = left_entries;
        let mut moved = left_entries.split_off(share);
        let first = moved.remove(0);
        moved.push(InternalEntry { key: copy_bytes(separator), child_page_id: left_rightmost });
        append_inner(&mut moved, right_entries);
        proof {
            let keys = lk.push(separator@) + rk;
            let kids = lkids + rkids;
            assert(inner_keys(left_entries@) =~= keys.take(share as int));
            assert(inner_kids(left_entries@).push(first.child_page_id.0) =~= kids.take(share + 1));
            assert(inner_keys(moved@) =~= keys.skip(share + 1));
            assert(inner_kids(moved@).push(right_rightmost.0) =~= kids.skip(share + 1));
            assert(keys[share as int] == first.key@);
        }
        Some(
            (
                BTreeNode::Internal {
                    version: left_version.increment(),
                    entries: left_entries,
                    rightmost_child: first.child_page_id,
                },
                BTreeNode::Internal {
                    version: right_version.increment(),
                    entries: moved,
                    rightmost_child: right_rightmost,
                },
                first.key,
            ),
        )
    }
}

fn even_leaves(
    left_version: PageVersion,
    left_entries: Vec<LeafEntry>,
    left_next: PageId,
    right_version: PageVersion,
    right_entries: Vec<LeafEntry>,
    right_next: PageId,
    separator: &[u8],
) -> (r: Option<(BTreeNode, BTreeNode, Vec<u8>)>)
    ensures
        even_view(r) == evened(
            (BTreeNode::Leaf {
                version: left_version,
                entries: left_entries,
                next_leaf: left_next,
            })@,
            (BTreeNode::Leaf {
                version: right_version,
                entries: right_entries,
                next_leaf: right_next,
            })@,
            separator@,
        ),
{
    let lc: usize = left_entries.len();
    let rc: usize = right_entries.len();
    let share: usize = half_of_sum(lc, rc);
    let ghost le = left_entries@;
    let ghost re = right_entries@;
    if lc == share {
        return None;
    }
    let mut left_entries = left_entries;
    let mut right_entries = right_entries;
    if lc < share {
        let rest = right_entries.split_off(share - lc);
        append_leaf(&mut left_entries, right_entries);
        right_entries = rest;
    } else {
        let mut moved = left_entries.split_off(share);
        append_leaf(&mut moved, right_entries);
        right_entries = moved;
    }
    proof {
        let keys = leaf_keys(le) + leaf_keys(re);
        let chains = leaf_chains(le) + leaf_chains(re);
        assert(left_entries@ =~= (le + re).take(share as int));
        assert(right_entries@ =~= (le + re).skip(share as int));
        assert(leaf_keys(left_entries@) =~= keys.take(share as int));
        assert(leaf_chains(left_entries@) =~= chains.take(share as int));
        assert(leaf_keys(right_entries@) =~= keys.skip(share as int));
        assert(leaf_chains(right_entries@) =~= chains.skip(share as int));
        assert(keys[share as int] == right_entries@[0].key@);
    }
    let separator = copy_bytes(right_entries[0].key.as_slice());
    Some(
        (
            BTreeNode::Leaf {
                version: left_version.increment(),
                entries: left_entries,
                next_leaf: left_next,
            },
            BTreeNode::Leaf {
                version: right_version.increment(),
                entries: right_entries,
                next_leaf: right_next,
            },
            separator,
        ),
    )
}

/// The child that follows entry `i`.
fn kid_after_entry(entries: &Vec<InternalEntry>, rightmost: PageId, i: usize) -> (r: PageId)
    requires
        i < entries@.len(),
    ensures
        r.0 == inner_kids(entries@).push(rightmost.0)[i + 1],
{
    if i < entries.len() - 1 {
        entries[i + 1].child_page_id
    } else {
        rightmost
    }
}

/// Half of a sum, rounded down.
fn half_of_sum(a: usize, b: usize) -> (r: usize)
    ensures
        r == (a + b) / 2,
{
    (a / 2) + (b / 2) + ((a % 2) + (b % 2)) / 2
}

} // verus!
